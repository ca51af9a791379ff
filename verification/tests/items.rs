use dbe_backend::editor_id::{EditorId, IdError};
use dbe_backend::parsing::{is_type_option, EDataType, ETypeConst};
use dbe_backend::thing_item::{item_type, ItemError, ItemShape, ThingItemKind};

fn names(v: &[&str]) -> Vec<String> {
    v.iter().map(|s| s.to_string()).collect()
}

#[test]
fn optional_types_are_known_by_their_prefix() {
    let opt = EDataType::Object { ident: EditorId("sys:optional_number".to_string()) };
    let other = EDataType::Object { ident: EditorId("core:item".to_string()) };
    assert!(is_type_option(&opt, "sys:optional"));
    assert!(!is_type_option(&other, "sys:optional"));
    assert!(!is_type_option(&EDataType::Number, "sys:optional"));
    assert!(is_type_option(&other, ""));
}

#[test]
fn plain_items_take_nothing() {
    assert_eq!(item_type(ThingItemKind::Number, &vec![], &vec![], &vec![]), Ok(ItemShape::Number));
    assert_eq!(
        item_type(ThingItemKind::Boolean, &vec![ETypeConst::Null], &vec![], &vec![]),
        Err(ItemError::ExpectedNoArguments(1))
    );
    assert_eq!(
        item_type(ThingItemKind::String, &vec![], &names(&["Item"]), &vec![]),
        Err(ItemError::ExpectedNoGenerics(1))
    );
}

#[test]
fn objects_take_an_id() {
    let arg = vec![ETypeConst::String("core:item".to_string())];
    assert_eq!(
        item_type(ThingItemKind::Object, &arg, &vec![], &vec![]),
        Ok(ItemShape::Object { ident: EditorId("core:item".to_string()) })
    );
    assert_eq!(
        item_type(ThingItemKind::Object, &vec![ETypeConst::Bool(true)], &vec![], &vec![]),
        Err(ItemError::NotAnId(0))
    );
    assert_eq!(
        item_type(ThingItemKind::Object, &vec![ETypeConst::String("item".to_string())], &vec![], &vec![]),
        Err(ItemError::BadId(IdError::NotNamespaced))
    );
    assert_eq!(
        item_type(ThingItemKind::Const, &vec![], &vec![], &vec![]),
        Err(ItemError::WrongArgumentCount { expected: 1, got: 0 })
    );
    assert_eq!(item_type(ThingItemKind::Const, &vec![ETypeConst::Null], &vec![], &vec![]), Ok(ItemShape::Const));
}

#[test]
fn lists_and_maps_take_named_children() {
    assert_eq!(
        item_type(ThingItemKind::List, &vec![], &names(&["Item", "x", "Item"]), &vec![]),
        Ok(ItemShape::ListOf { item: 2 })
    );
    assert_eq!(item_type(ThingItemKind::List, &vec![], &names(&["x"]), &vec![]), Err(ItemError::MissingItem));
    assert_eq!(
        item_type(ThingItemKind::MapKind, &vec![], &names(&["Item", "Key"]), &vec![]),
        Ok(ItemShape::MapOf { key: 1, item: 0 })
    );
    assert_eq!(item_type(ThingItemKind::MapKind, &vec![], &names(&["Item"]), &vec![]), Err(ItemError::MissingKey));
    assert_eq!(item_type(ThingItemKind::MapKind, &vec![], &names(&["Key"]), &vec![]), Err(ItemError::MissingItem));
}

#[test]
fn generic_items_name_a_declared_argument() {
    let arg = vec![ETypeConst::String("T".to_string())];
    assert_eq!(item_type(ThingItemKind::Generic, &arg, &vec![], &names(&["T"])), Ok(ItemShape::GenericArg));
    assert_eq!(
        item_type(ThingItemKind::Generic, &arg, &vec![], &names(&["U"])),
        Err(ItemError::UndefinedGeneric { name: "T".to_string(), position: 0 })
    );
    assert_eq!(
        item_type(ThingItemKind::Generic, &vec![ETypeConst::Null], &vec![], &names(&["T"])),
        Err(ItemError::NotAGenericName(0))
    );
}
