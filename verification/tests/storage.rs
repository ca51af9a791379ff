use dbe_backend::storage::{StorageError, TransistentStorage};

#[test]
fn file_value_is_read_back() {
    let mut s: TransistentStorage<String> = TransistentStorage::default();
    assert_eq!(s.get(1), None);
    s.insert(1, "a".to_string());
    assert_eq!(s.get(1), Some(&"a".to_string()));
    s.insert(1, "b".to_string());
    assert_eq!(s.get(1), Some(&"b".to_string()));
}

#[test]
fn staged_values_appear_after_flush() {
    let mut s: TransistentStorage<i32> = TransistentStorage::default();
    assert_eq!(s.insert_global(7, Some(70), "graph.node.0".to_string()), Ok(()));
    assert_eq!(s.get(7), None);
    s.flush_stage();
    assert_eq!(s.get(7), Some(&70));
}

#[test]
fn staging_a_key_twice_is_refused() {
    let mut s: TransistentStorage<i32> = TransistentStorage::default();
    assert_eq!(s.insert_global(7, Some(1), "first".to_string()), Ok(()));
    assert_eq!(
        s.insert_global(7, None, "second".to_string()),
        Err(StorageError::ModifiedTwice {
            key: 7,
            first: "first".to_string(),
            second: "second".to_string(),
        })
    );
    s.flush_stage();
    assert_eq!(s.get(7), Some(&1));
    // after a flush the key can be staged again
    assert_eq!(s.insert_global(7, None, "third".to_string()), Ok(()));
    s.flush_stage();
    assert_eq!(s.get(7), None);
}

#[test]
fn file_scope_shadows_global() {
    let mut s: TransistentStorage<i32> = TransistentStorage::default();
    assert_eq!(s.insert_global(3, Some(30), "g".to_string()), Ok(()));
    s.flush_stage();
    s.insert(3, 31);
    assert_eq!(s.get(3), Some(&31));
    s.unset(3);
    assert_eq!(s.get(3), None);
    s.clear_file_scope();
    assert_eq!(s.get(3), Some(&30));
}
