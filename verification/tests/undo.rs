use dbe_backend::undo::{
    CheckOutcome, MemoryFiles, SnapshotKind, UndoError, UndoHistory, UndoSettings,
};

fn ids(h: &UndoHistory<u64>) -> Vec<(usize, SnapshotKind, String, u64)> {
    h.history()
        .into_iter()
        .map(|s| (s.id, s.kind, s.path.clone(), s.value))
        .collect()
}

#[test]
fn changes_are_recorded_once_per_flux() {
    let mut files = MemoryFiles::new();
    files.set("a", 1);
    let mut h: UndoHistory<u64> = UndoHistory::new(UndoSettings::default());
    assert_eq!(h.check_file(&files, "a", false), Ok(CheckOutcome::Unchanged));
    files.set("a", 2);
    assert_eq!(h.check_file(&files, "a", false), Ok(CheckOutcome::Recorded));
    assert_eq!(ids(&h), vec![(0, SnapshotKind::Change, "a".to_string(), 1)]);
    assert_eq!(h.flux().map(|p| p.as_str()), Some("a"));
    files.set("a", 3);
    assert_eq!(h.check_file(&files, "a", false), Ok(CheckOutcome::ConsumedByFlux));
    assert_eq!(h.history().len(), 1);
    // a forced snapshot ends the change in progress first, which takes the
    // file's snapshot anew
    files.set("a", 4);
    assert_eq!(h.check_file(&files, "a", true), Ok(CheckOutcome::Recorded));
    assert_eq!(
        ids(&h),
        vec![
            (0, SnapshotKind::Change, "a".to_string(), 1),
            (1, SnapshotKind::Change, "a".to_string(), 4),
        ]
    );
}

#[test]
fn undo_and_redo_restore_files() {
    let mut files = MemoryFiles::new();
    files.set("a", 1);
    let mut h: UndoHistory<u64> = UndoHistory::new(UndoSettings::default());
    assert_eq!(h.ensure_file_state(&files, "a"), Ok(()));
    files.set("a", 2);
    assert_eq!(h.check_file(&files, "a", false), Ok(CheckOutcome::Recorded));
    assert_eq!(h.interrupt_flux(&files), Ok(()));
    files.set("a", 3);
    assert_eq!(h.check_file(&files, "a", false), Ok(CheckOutcome::Recorded));
    assert!(h.can_undo());
    assert!(!h.can_redo());

    assert_eq!(h.undo(&mut files), Ok("a".to_string()));
    assert_eq!(files.get("a"), Some(2));
    assert_eq!(h.undo(&mut files), Ok("a".to_string()));
    assert_eq!(files.get("a"), Some(1));
    assert!(!h.can_undo());
    assert_eq!(h.undo(&mut files), Err(UndoError::NothingToUndo));
    assert_eq!(h.undone_history().len(), 2);
    assert_eq!(h.future().len(), 2);
    assert_eq!(h.future()[1].kind, SnapshotKind::Undo(0));

    assert_eq!(h.redo(&mut files), Ok("a".to_string()));
    assert_eq!(files.get("a"), Some(2));
    assert_eq!(h.redo(&mut files), Ok("a".to_string()));
    assert_eq!(files.get("a"), Some(3));
    assert_eq!(h.redo(&mut files), Err(UndoError::NothingToRedo));
    assert_eq!(
        ids(&h)
            .into_iter()
            .map(|(id, kind, path, _)| (id, kind, path))
            .collect::<Vec<_>>(),
        vec![
            (0, SnapshotKind::Change, "a".to_string()),
            (1, SnapshotKind::Change, "a".to_string()),
        ]
    );
}

#[test]
fn a_new_change_turns_undone_steps_into_history() {
    let mut files = MemoryFiles::new();
    files.set("a", 1);
    let mut h: UndoHistory<u64> = UndoHistory::new(UndoSettings::default());
    assert_eq!(h.check_file(&files, "a", false), Ok(CheckOutcome::Unchanged));
    files.set("a", 2);
    assert_eq!(h.check_file(&files, "a", false), Ok(CheckOutcome::Recorded));
    assert_eq!(h.undo(&mut files), Ok("a".to_string()));
    assert_eq!(files.get("a"), Some(1));
    files.set("a", 5);
    assert_eq!(h.check_file(&files, "a", false), Ok(CheckOutcome::Recorded));
    assert!(!h.can_redo());
    assert_eq!(h.undone_history().len(), 0);
    assert_eq!(
        ids(&h),
        vec![
            (0, SnapshotKind::Change, "a".to_string(), 1),
            (2, SnapshotKind::Undo(0), "a".to_string(), 2),
            (1, SnapshotKind::Change, "a".to_string(), 1),
        ]
    );
}

#[test]
fn history_keeps_its_length() {
    let mut files = MemoryFiles::new();
    files.set("a", 0);
    let mut h: UndoHistory<u64> = UndoHistory::new(UndoSettings { history_length: 2 });
    assert_eq!(h.check_file(&files, "a", false), Ok(CheckOutcome::Unchanged));
    for v in 1..=3u64 {
        files.set("a", v);
        assert_eq!(h.check_file(&files, "a", true), Ok(CheckOutcome::Recorded));
    }
    assert_eq!(
        ids(&h),
        vec![
            (1, SnapshotKind::Change, "a".to_string(), 2),
            (2, SnapshotKind::Change, "a".to_string(), 3),
        ]
    );
}

#[test]
fn missing_files_are_reported() {
    let files = MemoryFiles::new();
    let mut h: UndoHistory<u64> = UndoHistory::new(UndoSettings::default());
    assert_eq!(
        h.check_file(&files, "nope", false),
        Err(UndoError::FileNotFound("nope".to_string()))
    );
    assert!(SnapshotKind::Change.is_change());
    assert!(SnapshotKind::Undo(3).is_undo());
}
