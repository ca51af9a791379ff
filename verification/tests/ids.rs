use dbe_backend::editor_id::{
    bad_namespace_char, bad_path_char, editor_id_from_path, editor_id_from_segments, namespace_errors, path_errors,
    EditorId, IdError, Namespace, TypePathError,
};

#[test]
fn namespace_chars() {
    assert!(!bad_namespace_char('a'));
    assert!(!bad_namespace_char('z'));
    assert!(!bad_namespace_char('0'));
    assert!(!bad_namespace_char('_'));
    assert!(bad_namespace_char('A'));
    assert!(bad_namespace_char('/'));
    assert!(bad_namespace_char(':'));
}

#[test]
fn path_chars() {
    assert!(!bad_path_char('a'));
    assert!(!bad_path_char('9'));
    assert!(!bad_path_char('_'));
    assert!(!bad_path_char('/'));
    assert!(bad_path_char('-'));
    assert!(bad_path_char('Z'));
}

#[test]
fn first_bad_char_is_reported() {
    assert_eq!(namespace_errors("abc"), None);
    assert_eq!(namespace_errors("abC_D"), Some((2, 'C')));
    assert_eq!(path_errors("a/b/c"), None);
    assert_eq!(path_errors("a/b-c"), Some((3, '-')));
    assert_eq!(namespace_errors(""), None);
}

#[test]
fn editor_id_parses() {
    let id = EditorId::parse("dbe:types/item").unwrap();
    assert_eq!(id.as_str(), "dbe:types/item");
    assert_eq!(id, EditorId("dbe:types/item".to_string()));
}

#[test]
fn editor_id_needs_one_colon() {
    assert_eq!(EditorId::parse("dbe"), Err(IdError::NotNamespaced));
    assert_eq!(EditorId::parse("a:b:c"), Err(IdError::NotNamespaced));
}

#[test]
fn editor_id_errors() {
    assert_eq!(EditorId::parse(":item"), Err(IdError::EmptyNamespace));
    assert_eq!(EditorId::parse("Dbe:item"), Err(IdError::BadNamespaceSymbol { symbol: 'D', position: 0 }));
    assert_eq!(EditorId::parse("dbe:"), Err(IdError::EmptyPath));
    assert_eq!(EditorId::parse("dbe:it-em"), Err(IdError::BadPathSymbol { symbol: '-', position: 6 }));
}

#[test]
fn namespace_from_str() {
    let ns = Namespace::from_str("my_mod").unwrap();
    assert_eq!(ns.as_str(), "my_mod");
    assert_eq!(Namespace::from_str(""), Err(IdError::EmptyNamespace));
    assert_eq!(Namespace::from_str("a.b"), Err(IdError::BadNamespaceSymbol { symbol: '.', position: 1 }));
}

#[test]
fn type_ids_come_from_paths() {
    let ns = Namespace::from_str("core").unwrap();
    assert_eq!(
        editor_id_from_path(&ns, "m.dbemodule", "m.dbemodule/types/items/sword.kdl"),
        Ok(EditorId("core:items/sword".to_string()))
    );
    assert_eq!(
        editor_id_from_path(&ns, "m.dbemodule", "m.dbemodule/types/point.kdl"),
        Ok(EditorId("core:point".to_string()))
    );
    assert_eq!(
        editor_id_from_path(&ns, "m.dbemodule", "m.dbemodule/other/point.kdl"),
        Err(TypePathError::OutsideTypesFolder)
    );
    assert_eq!(editor_id_from_path(&ns, "m.dbemodule", "m.dbemodule/types"), Err(TypePathError::MalformedPath));
    assert_eq!(
        editor_id_from_path(&ns, "m.dbemodule", "m.dbemodule/types/Items/a.kdl"),
        Err(TypePathError::BadSymbol { symbol: 'I', position: 0, segment: "Items".to_string() })
    );
    assert_eq!(
        editor_id_from_path(&ns, "m.dbemodule", "m.dbemodule/types/it-em.kdl"),
        Err(TypePathError::BadSymbol { symbol: '-', position: 2, segment: "it-em.kdl".to_string() })
    );
}

#[test]
fn type_ids_come_from_segments() {
    let ns = Namespace::from_str("dbe").unwrap();
    let segs = vec!["a".to_string(), "b.kdl".to_string()];
    assert_eq!(
        editor_id_from_segments(&ns, &segs, Some("b".to_string())),
        Ok(EditorId("dbe:a/b".to_string()))
    );
    assert_eq!(editor_id_from_segments(&ns, &segs, None), Err(TypePathError::EmptyFileName));
    assert_eq!(editor_id_from_segments(&ns, &vec![], None), Err(TypePathError::MalformedPath));
    assert_eq!(
        editor_id_from_segments(&ns, &vec!["".to_string()], Some("".to_string())),
        Err(TypePathError::AtTypesRoot)
    );
}

#[test]
fn type_ids_come_from_absolute_paths() {
    let ns = Namespace::from_str("ns").unwrap();
    assert_eq!(
        editor_id_from_path(&ns, "/m", "/m/types/items/sword.kdl"),
        Ok(EditorId("ns:items/sword".to_string()))
    );
    assert_eq!(editor_id_from_path(&ns, "/m", "/other/types/a.kdl"), Err(TypePathError::OutsideTypesFolder));
}
