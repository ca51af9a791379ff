use dbe_backend::mappings::{
    next_id_raw, IdRange, MappingError, Mappings, PackedMappings, PackedRange,
};

fn range(start: i64, end: i64) -> PackedRange {
    PackedRange { start, end }
}

#[test]
fn ids_come_from_ranges_in_order() {
    let mut m = Mappings::new(vec![range(1, 2), range(10, 10)]);
    assert_eq!(m.get_id_raw("a".to_string(), true), Ok(1));
    assert_eq!(m.get_id_raw("b".to_string(), true), Ok(2));
    assert_eq!(m.get_id_raw("c".to_string(), false), Ok(10));
    assert_eq!(m.get_id_raw("d".to_string(), false), Err(MappingError::NoFreeIds));
}

#[test]
fn same_string_gets_same_id() {
    let mut m = Mappings::new(vec![range(5, 100)]);
    let a = m.get_id_raw("a".to_string(), true);
    let b = m.get_id_raw("b".to_string(), true);
    assert_eq!(a, Ok(5));
    assert_eq!(b, Ok(6));
    assert_eq!(m.get_id_raw("a".to_string(), false), Ok(5));
    assert_eq!(m.get_id_raw("c".to_string(), true), Ok(7));
}

#[test]
fn no_ranges_is_an_error() {
    let mut m = Mappings::new(vec![]);
    assert_eq!(m.get_id_raw("a".to_string(), true), Err(MappingError::NoRanges));
}

#[test]
fn new_id_refuses_a_second_creation() {
    let mut m = Mappings::new(vec![range(1, 10)]);
    assert_eq!(m.new_id("a".to_string(), true), Ok(1));
    assert_eq!(
        m.new_id("a".to_string(), true),
        Err(MappingError::AlreadyTaken("a".to_string()))
    );
    // get_id_raw is not limited to once per session
    assert_eq!(m.get_id_raw("a".to_string(), true), Ok(1));
}

#[test]
fn existing_id_needs_creation() {
    let mut m = Mappings::new(vec![range(1, 10)]);
    assert_eq!(m.get_id_raw("a".to_string(), true), Ok(1));
    assert_eq!(
        m.existing_id("a"),
        Err(MappingError::NotCreated("a".to_string()))
    );
    assert_eq!(m.new_id("b".to_string(), true), Ok(2));
    assert_eq!(m.existing_id("b"), Ok(2));
}

#[test]
fn existing_id_of_a_failed_creation_does_not_exist() {
    let mut m = Mappings::new(vec![]);
    assert_eq!(m.new_id("a".to_string(), true), Err(MappingError::NoRanges));
    assert_eq!(
        m.existing_id("a"),
        Err(MappingError::DoesNotExist("a".to_string()))
    );
}

#[test]
fn persistent_ids_are_reported() {
    let mut m = Mappings::new(vec![range(1, 10)]);
    assert!(!m.has_persistent_ids());
    assert_eq!(m.get_id_raw("a".to_string(), false), Ok(1));
    assert!(!m.has_persistent_ids());
    assert_eq!(m.get_id_raw("b".to_string(), true), Ok(2));
    assert!(m.has_persistent_ids());
}

#[test]
fn loaded_ids_are_skipped() {
    let packed = PackedMappings {
        values: vec![("x".to_string(), 2), ("y".to_string(), 3)],
        ranges: vec![range(1, 5)],
    };
    let mut m = packed.into_mappings();
    assert!(m.has_persistent_ids());
    assert_eq!(m.get_id_raw("x".to_string(), false), Ok(2));
    assert_eq!(m.get_id_raw("z".to_string(), false), Ok(1));
    assert_eq!(m.get_id_raw("w".to_string(), false), Ok(4));
}

#[test]
fn saving_keeps_only_persistent_links() {
    let mut m = Mappings::new(vec![range(1, 5)]);
    assert_eq!(m.get_id_raw("a".to_string(), true), Ok(1));
    assert_eq!(m.get_id_raw("b".to_string(), false), Ok(2));
    assert_eq!(m.get_id_raw("c".to_string(), true), Ok(3));
    let packed = PackedMappings::from_mappings(&m);
    let mut values = packed.values.clone();
    values.sort();
    assert_eq!(values, vec![("a".to_string(), 1), ("c".to_string(), 3)]);
    assert_eq!(packed.ranges, vec![range(1, 5)]);

    let mut loaded = packed.into_mappings();
    assert_eq!(loaded.get_id_raw("a".to_string(), false), Ok(1));
    assert_eq!(loaded.get_id_raw("c".to_string(), false), Ok(3));
    // "b" was not saved; its id is free again
    assert_eq!(loaded.get_id_raw("b".to_string(), false), Ok(2));
}

#[test]
fn next_id_raw_skips_occupied() {
    let mut ranges = vec![IdRange::new(1, 3)];
    let mut occupied = vec![1, 2];
    assert_eq!(next_id_raw(&mut ranges, &mut occupied), Ok(3));
    assert_eq!(occupied, vec![1, 2, 3]);
    assert_eq!(next_id_raw(&mut ranges, &mut occupied), Err(MappingError::NoFreeIds));
    let mut none: Vec<IdRange> = vec![];
    assert_eq!(next_id_raw(&mut none, &mut occupied), Err(MappingError::NoRanges));
}

#[test]
fn id_range_hands_out_each_value_once() {
    let mut r = IdRange::new(-1, 1);
    assert_eq!(r.next(), Some(-1));
    assert_eq!(r.next(), Some(0));
    assert_eq!(r.next(), Some(1));
    assert_eq!(r.next(), None);
    assert_eq!(r.next(), None);
    let mut max = IdRange::new(i64::MAX, i64::MAX);
    assert_eq!(max.next(), Some(i64::MAX));
    assert_eq!(max.next(), None);
}
