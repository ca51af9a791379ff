use dbe_backend::project_files::{
    classify_file, classify_path, eq_ignore_ascii_case, find_dbemodule_path, path_has_suffix,
    FileKind, LoadError,
};

#[test]
fn suffix_ignores_ascii_case() {
    assert!(path_has_suffix("a/B.DBEMODULE", "dbemodule"));
    assert!(path_has_suffix("x.docs.toml", "docs.toml"));
    assert!(!path_has_suffix("toml", "docs.toml"));
    assert!(!path_has_suffix("a.dbemodules", "dbemodule"));
    assert!(eq_ignore_ascii_case("Mod.TOML", "mod.toml"));
    assert!(!eq_ignore_ascii_case("mod.tom", "mod.toml"));
}

#[test]
fn outermost_module_directory_is_found() {
    assert_eq!(
        find_dbemodule_path("a.dbemodule/b.dbemodule/c.kdl"),
        Some("a.dbemodule".to_string())
    );
    assert_eq!(
        find_dbemodule_path("x/core.dbemodule/types/point.kdl"),
        Some("x/core.dbemodule".to_string())
    );
    assert_eq!(find_dbemodule_path("values/a.dbevalue"), None);
}

#[test]
fn files_are_classified() {
    assert_eq!(classify_path("m.dbemodule/types/point.kdl"), Ok(FileKind::Type));
    assert_eq!(classify_path("point.kdl"), Err(LoadError::TypeOutsideModule));
    assert_eq!(classify_path("values/a.dbevalue"), Ok(FileKind::Value));
    assert_eq!(classify_path("m.dbemodule/a.dbevalue"), Err(LoadError::ValueInsideModule));
    assert_eq!(classify_path("m.dbemodule/mod.toml"), Ok(FileKind::ModuleFile));
    assert_eq!(classify_path("m.dbemodule/MOD.TOML"), Ok(FileKind::ModuleFile));
    assert_eq!(classify_path("m.dbemodule/types/cfg.toml"), Ok(FileKind::TypesConfigToml));
    assert_eq!(classify_path("m.dbemodule/cfg.toml"), Err(LoadError::TomlConfigOutsideTypes));
    assert_eq!(classify_path("m.dbemodule/docs/add.docs.toml"), Ok(FileKind::Docs));
    assert_eq!(classify_path("add.docs.toml"), Err(LoadError::DocsOutsideModule));
    assert_eq!(classify_path("other.toml"), Ok(FileKind::Ignored));
    assert_eq!(classify_path("README"), Ok(FileKind::Ignored));
    assert_eq!(classify_path("image.png"), Ok(FileKind::Ignored));
    assert_eq!(classify_path("data/a.JSON"), Ok(FileKind::ImportJson));
    assert_eq!(classify_path("m.dbemodule/types/t.json5"), Ok(FileKind::TypesConfigJson));
    assert_eq!(classify_path("m.dbemodule/t.json"), Err(LoadError::JsonConfigOutsideTypes));
    assert_eq!(classify_path("m.dbemodule/g.dbegraph"), Ok(FileKind::Graph));
    assert_eq!(classify_path("m.dbemodule/types/g.dbegraph"), Err(LoadError::GraphInsideTypes));
    assert_eq!(classify_path("graphs/g.dbegraph"), Ok(FileKind::Graph));
}

#[test]
fn classification_table() {
    assert_eq!(classify_file("kdl", true, false, false, false), Ok(FileKind::Type));
    assert_eq!(classify_file("toml", true, false, true, false), Ok(FileKind::Docs));
    assert_eq!(classify_file("toml", false, false, false, false), Ok(FileKind::Ignored));
    assert_eq!(classify_file("txt", true, true, true, true), Ok(FileKind::Ignored));
}

use dbe_backend::editor_id::Namespace;
use dbe_backend::project_files::{check_module_namespaces, DuplicateNamespace};

#[test]
fn module_namespaces_are_unique() {
    let ns = |s: &str| Namespace::from_str(s).unwrap();
    let ok = vec![
        ("a.dbemodule".to_string(), ns("core")),
        ("b.dbemodule".to_string(), ns("extra")),
    ];
    assert_eq!(check_module_namespaces(&ok), Ok(()));
    let dup = vec![
        ("a.dbemodule".to_string(), ns("core")),
        ("b.dbemodule".to_string(), ns("extra")),
        ("c.dbemodule".to_string(), ns("core")),
        ("d.dbemodule".to_string(), ns("extra")),
    ];
    assert_eq!(
        check_module_namespaces(&dup),
        Err(DuplicateNamespace {
            namespace: "core".to_string(),
            first: "a.dbemodule".to_string(),
            second: "c.dbemodule".to_string(),
        })
    );
}

#[test]
fn module_of_a_file_in_its_folder() {
    assert_eq!(find_dbemodule_path("a.dbemodule/x.kdl"), Some("a.dbemodule".to_string()));
    assert_eq!(find_dbemodule_path("a.dbemodule"), Some("a.dbemodule".to_string()));
    assert_eq!(classify_path("m.dbemodule/TYPES/cfg.toml"), Err(LoadError::TomlConfigOutsideTypes));
    assert_eq!(classify_path("m.dbemodule/types.x/g.dbegraph"), Ok(FileKind::Graph));
    assert_eq!(classify_path(".kdl"), Ok(FileKind::Ignored));
}
