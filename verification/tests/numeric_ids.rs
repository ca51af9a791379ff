use dbe_backend::numeric_ids::{
    clear_validation_cache, Id, IdValidationError, NumericIDRegistry, NumericIDsRegistry, Ref, ReservedIdConfig,
    TypeIdConfig, UndefinedId,
};

fn s(x: &str) -> String {
    x.to_string()
}

fn config() -> ReservedIdConfig {
    ReservedIdConfig {
        types: vec![
            (
                s("item"),
                TypeIdConfig {
                    reserved_ids: vec![0, 1],
                    conflicting_types: vec![s("weapon")],
                    satisfied_by_types: vec![s("weapon")],
                },
            ),
            (
                s("weapon"),
                TypeIdConfig { reserved_ids: vec![7], conflicting_types: vec![s("item")], satisfied_by_types: vec![s("sword")] },
            ),
        ],
    }
}

#[test]
fn assignability_follows_satisfied_by() {
    let cfg = config();
    let ids = NumericIDsRegistry::new();
    let reg = NumericIDRegistry::of(&cfg, &ids);
    assert!(reg.is_id_assignable(&s("item"), &s("item")));
    assert!(reg.is_id_assignable(&s("weapon"), &s("item")));
    assert!(reg.is_id_assignable(&s("sword"), &s("item")));
    assert!(!reg.is_id_assignable(&s("item"), &s("weapon")));
    assert!(!reg.is_id_assignable(&s("armor"), &s("item")));
}

#[test]
fn fresh_id_has_no_problems() {
    let cfg = config();
    let mut ids = NumericIDsRegistry::new();
    let errors = Id.validate(&cfg, &mut ids, &s("item"), 5, &s("items/a"));
    assert!(errors.is_empty());
}

#[test]
fn reserved_id_is_reported() {
    let cfg = config();
    let mut ids = NumericIDsRegistry::new();
    let errors = Id.validate(&cfg, &mut ids, &s("item"), 1, &s("items/a"));
    assert_eq!(errors, vec![IdValidationError::ReservedId { ty: s("item"), id: 1 }]);
}

#[test]
fn reserved_id_of_conflicting_type_is_reported() {
    let cfg = config();
    let mut ids = NumericIDsRegistry::new();
    let errors = Id.validate(&cfg, &mut ids, &s("item"), 7, &s("items/a"));
    assert_eq!(
        errors,
        vec![IdValidationError::FromConflicting {
            ty: s("item"),
            conflicting: s("weapon"),
            error: Box::new(IdValidationError::ReservedId { ty: s("weapon"), id: 7 }),
        }]
    );
}

#[test]
fn duplicate_id_is_reported_with_other_places() {
    let cfg = config();
    let mut ids = NumericIDsRegistry::new();
    assert!(Id.validate(&cfg, &mut ids, &s("item"), 5, &s("items/b")).is_empty());
    let errors = Id.validate(&cfg, &mut ids, &s("item"), 5, &s("items/a"));
    assert_eq!(errors, vec![IdValidationError::DuplicateId { ty: s("item"), others: vec![s("items/b")] }]);
    // checking a place again does not make it a duplicate of itself
    let errors = Id.validate(&cfg, &mut ids, &s("item"), 5, &s("items/a"));
    assert_eq!(errors, vec![IdValidationError::DuplicateId { ty: s("item"), others: vec![s("items/b")] }]);
}

#[test]
fn conflicting_type_duplicate_is_reported() {
    let cfg = config();
    let mut ids = NumericIDsRegistry::new();
    assert!(Id.validate(&cfg, &mut ids, &s("weapon"), 5, &s("weapons/w")).is_empty());
    let errors = Id.validate(&cfg, &mut ids, &s("item"), 5, &s("items/a"));
    assert_eq!(
        errors,
        vec![IdValidationError::FromConflicting {
            ty: s("item"),
            conflicting: s("weapon"),
            error: Box::new(IdValidationError::DuplicateId { ty: s("weapon"), others: vec![s("weapons/w")] }),
        }]
    );
}

#[test]
fn references_and_locations() {
    let cfg = config();
    let mut ids = NumericIDsRegistry::new();
    Id.validate(&cfg, &mut ids, &s("sword"), 12, &s("swords/x"));
    Id.validate(&cfg, &mut ids, &s("sword"), 12, &s("swords/a"));
    let reg = NumericIDRegistry::of(&cfg, &ids);
    assert_eq!(reg.location_for_id(&s("item"), 12), Some(s("swords/a")));
    assert_eq!(reg.location_for_id(&s("item"), 13), None);
    assert!(reg.is_id_defined(&s("item"), 12));
    assert!(reg.is_id_defined(&s("item"), 0));
    assert!(reg.is_id_defined(&s("weapon"), 7));
    assert!(!reg.is_id_defined(&s("sword"), 7));
    assert_eq!(Ref.validate(&reg, &s("item"), 12), Ok(()));
    assert_eq!(Ref.validate(&reg, &s("item"), 99), Err(UndefinedId { ty: s("item"), id: 99 }));
}

#[test]
fn clearing_forgets_ids() {
    let cfg = config();
    let mut ids = NumericIDsRegistry::new();
    Id.validate(&cfg, &mut ids, &s("item"), 5, &s("items/a"));
    clear_validation_cache(&mut ids);
    let reg = NumericIDRegistry::of(&cfg, &ids);
    assert!(!reg.is_id_defined(&s("item"), 5));
    let errors = Id.validate(&cfg, &mut ids, &s("item"), 5, &s("items/b"));
    assert!(errors.is_empty());
}
