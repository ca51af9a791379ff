use dbe_backend::side_effects::{emit_persistent_file, ProjectEntry, ProjectFiles};
use dbe_backend::side_effects::{
    check_emit_target, clean_up_path, extension, persistent_path, ExistingFile, SavingNode,
    SavingNodeFactory, SideEffect, SideEffectEmitter, SideEffectError, SideEffectPathItem,
    SideEffects,
};

#[test]
fn paths_use_forward_slashes() {
    assert_eq!(clean_up_path("a\\b\\c"), "a/b/c");
    assert_eq!(clean_up_path("plain/path"), "plain/path");
    assert_eq!(persistent_path("out\\item", false), "out/item.json");
    assert_eq!(persistent_path("out/item", true), "out/item.dbevalue");
    assert_eq!(extension(true), ".dbevalue");
    assert_eq!(extension(false), ".json");
}

#[test]
fn only_generated_files_are_replaced() {
    assert_eq!(check_emit_target("a.json".to_string(), None), Ok("a.json".to_string()));
    assert_eq!(
        check_emit_target("a.json".to_string(), Some(ExistingFile::Generated)),
        Ok("a.json".to_string())
    );
    assert_eq!(
        check_emit_target("a.json".to_string(), Some(ExistingFile::Authored)),
        Err(SideEffectError::FileExists("a.json".to_string()))
    );
}

#[test]
fn saving_node_emits_by_path() {
    let node = SavingNodeFactory::<false>.create();
    assert_eq!(node.inputs_count(), 2);
    assert_eq!(node.outputs_count(), 0);
    assert!(node.has_side_effects());
    match node.execute(Some("items/a".to_string()), 5) {
        SideEffect::EmitPersistentFile {
            value,
            path,
            is_dbevalue,
        } => {
            assert_eq!(value, 5);
            assert_eq!(path, "items/a");
            assert!(!is_dbevalue);
        }
        _ => panic!("expected a persistent file"),
    }
    let any = SavingNode::<true>;
    match any.execute(None, 7) {
        SideEffect::EmitTransientFile { value, is_dbevalue } => {
            assert_eq!(value, 7);
            assert!(is_dbevalue);
        }
        _ => panic!("expected a transient file"),
    }
    assert_eq!(SavingNodeFactory::<true>.id(), "write_dbevalue");
    assert_eq!(SavingNodeFactory::<false>.id(), "write_item");
    assert_eq!(SavingNodeFactory::<false>.categories(), vec!["output"]);
}

#[test]
fn effects_are_queued_and_taken() {
    let mut effects: SideEffects<i32> = SideEffects::new();
    assert!(effects.is_empty());
    let emitter = SideEffectEmitter {
        file: "g.dbegraph".to_string(),
        path: vec![SideEffectPathItem::Node(3)],
        index: 0,
    };
    effects.push(emitter, SideEffect::ShowDebug { value: 1 });
    assert!(!effects.is_empty());
    let taken = effects.take_effects();
    assert_eq!(taken.len(), 1);
    assert!(effects.is_empty());
    effects.set_transient_storage(4, 40);
    assert_eq!(effects.get_transient_storage(4), Some(&40));
    assert!(effects.has_transient_storage(4));
    effects.clear_storage_file_scope();
    assert!(!effects.has_transient_storage(4));
    assert_eq!(effects.set_global_storage(4, Some(1), "e".to_string()), Ok(()));
    assert!(effects.set_global_storage(4, None, "f".to_string()).is_err());
}

use dbe_backend::side_effects::{load_action, save_action, LoadAction, MappingFileError, SaveAction, StoredFile};

#[test]
fn mapping_files_are_loaded_and_saved_safely() {
    assert_eq!(load_action(None), Ok(LoadAction::New));
    assert_eq!(load_action(Some(StoredFile::Value(9))), Ok(LoadAction::Read(9)));
    assert_eq!(load_action(Some(StoredFile::NotAValue)), Err(MappingFileError::NotAValue));
    assert_eq!(save_action(None, 0, false), Ok(SaveAction::Skip));
    assert_eq!(save_action(None, 0, true), Ok(SaveAction::Write));
    assert_eq!(save_action(Some(StoredFile::Value(9)), 9, false), Ok(SaveAction::Write));
    assert_eq!(
        save_action(Some(StoredFile::Value(8)), 9, true),
        Err(MappingFileError::ModifiedElsewhere)
    );
    assert_eq!(
        save_action(Some(StoredFile::NotAValue), 9, true),
        Err(MappingFileError::NotAValue)
    );
}

#[test]
fn emitted_files_are_recorded_as_generated() {
    let mut files: ProjectFiles<u32> = ProjectFiles::new();
    assert_eq!(emit_persistent_file(&mut files, 7, "out\\item", false), Ok(()));
    assert_eq!(files.existing("out/item.json"), Some(ExistingFile::Generated));
    assert_eq!(emit_persistent_file(&mut files, 8, "out/item", false), Ok(()));
    files.insert("mine.dbevalue".to_string(), ProjectEntry::Authored);
    assert_eq!(
        emit_persistent_file(&mut files, 9, "mine", true),
        Err(SideEffectError::FileExists("mine.dbevalue".to_string()))
    );
    assert_eq!(files.existing("mine.dbevalue"), Some(ExistingFile::Authored));
    assert_eq!(files.existing("other.json"), None);
}
