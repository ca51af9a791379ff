//! Effects that graph nodes ask for while a project is evaluated: files to
//! emit, global values to store, values to show. They are queued with their
//! emitter and carried out once evaluation is done.
//!
//! A value is of any type `V`; a storage key is the number that stands for
//! the key value.
use vstd::prelude::*;
use crate::storage::TransistentStorage;
use crate::text::string_push;
use crate::assoc::{assign, keys_distinct, lookup, position};

verus! {

/// What a node asks for.
pub enum SideEffect<V> {
    /// Write `value` to the project file at `path`.
    EmitPersistentFile { value: V, path: String, is_dbevalue: bool },
    /// Write `value` to a file of the emitted folder, named after its emitter.
    EmitTransientFile { value: V, is_dbevalue: bool },
    /// Stage `value` under `key` in the global storage.
    SetGlobalStorage { key: u64, value: Option<V> },
    /// Show `value` for debugging.
    ShowDebug { value: V },
}

/// A step on the way from a graph to the node that emits an effect.
#[derive(Debug, Clone, Copy, PartialEq, Eq)]
pub enum SideEffectPathItem {
    Node(usize),
    Subgraph(u128),
}

/// Who emitted an effect: the graph's file, the nodes and subgraphs on the
/// way, and the number of effects emitted before it there.
pub struct SideEffectEmitter {
    pub file: String,
    pub path: Vec<SideEffectPathItem>,
    pub index: usize,
}

/// `path` with each `\\` turned into `/`.
pub open spec fn cleaned(path: Seq<char>) -> Seq<char> {
    path.map_values(|c: char| if c == '\\' { '/' } else { c })
}

/// Turns each `\\` of `path` into `/`.
pub fn clean_up_path(path: &str) -> (r: String)
    ensures
        r@ == cleaned(path@),
{
    let v = crate::text::chars_of(path);
    let mut out = String::new();
    let mut i: usize = 0;
    while i < v.len()
        invariant
            v@ == path@,
            i <= v@.len(),
            out@ == cleaned(path@).subrange(0, i as int),
        decreases v.len() - i,
    {
        let c = v[i];
        if c == '\\' {
            string_push(&mut out, '/');
        } else {
            string_push(&mut out, c);
        }
        i = i + 1;
        assert(out@ =~= cleaned(path@).subrange(0, i as int));
    }
    assert(cleaned(path@).subrange(0, v@.len() as int) =~= cleaned(path@));
    out
}

/// The extension of an emitted file: `.dbevalue` for a value of any type,
/// else `.json`.
pub open spec fn extension_of(is_dbevalue: bool) -> Seq<char> {
    if is_dbevalue {
        seq!['.', 'd', 'b', 'e', 'v', 'a', 'l', 'u', 'e']
    } else {
        seq!['.', 'j', 's', 'o', 'n']
    }
}

pub fn extension(is_dbevalue: bool) -> (r: &'static str)
    ensures
        r@ == extension_of(is_dbevalue),
{
    proof {
        reveal_strlit(".dbevalue");
        reveal_strlit(".json");
    }
    if is_dbevalue {
        ".dbevalue"
    } else {
        ".json"
    }
}

/// The project file that a persistent file emitted at `path` is written to.
pub fn persistent_path(path: &str, is_dbevalue: bool) -> (r: String)
    ensures
        r@ == cleaned(path@) + extension_of(is_dbevalue),
{
    let mut out = clean_up_path(path);
    let ext = crate::text::chars_of(extension(is_dbevalue));
    let ghost base = out@;
    let mut i: usize = 0;
    while i < ext.len()
        invariant
            i <= ext@.len(),
            ext@ == extension_of(is_dbevalue),
            out@ == base + ext@.subrange(0, i as int),
        decreases ext.len() - i,
    {
        string_push(&mut out, ext[i]);
        i = i + 1;
        assert(out@ =~= base + ext@.subrange(0, i as int));
    }
    assert(ext@.subrange(0, ext@.len() as int) =~= ext@);
    out
}

/// What lies at a path of the project already.
#[derive(Debug, Clone, Copy, PartialEq, Eq)]
pub enum ExistingFile {
    /// A file that an earlier evaluation emitted.
    Generated,
    /// A file of the user's.
    Authored,
}

/// Why an effect could not be carried out.
#[derive(Debug, Clone, PartialEq, Eq)]
pub enum SideEffectError {
    /// A file of the user's is at the path a file is emitted to.
    FileExists(String),
}

/// Whether a file may be emitted to `path`, where `existing` lies: only a
/// file emitted earlier may be replaced.
pub fn check_emit_target(path: String, existing: Option<ExistingFile>) -> (r: Result<String, SideEffectError>)
    ensures
        existing == Some(ExistingFile::Authored) ==> (r matches Err(SideEffectError::FileExists(p)) && p == path),
        existing != Some(ExistingFile::Authored) ==> r == Ok::<String, SideEffectError>(path),
{
    match existing {
        Some(ExistingFile::Authored) => Err(SideEffectError::FileExists(path)),
        _ => Ok(path),
    }
}

/// A file of the project, as far as emitting files is concerned.
pub enum ProjectEntry<V> {
    /// A value file that an evaluation emitted.
    Generated(V),
    /// A file of the user's.
    Authored,
}

/// The files of a project, by path.
pub struct ProjectFiles<V> {
    files: Vec<(String, ProjectEntry<V>)>,
}

impl<V> ProjectFiles<V> {
    /// The file at `path`.
    pub closed spec fn entry(&self, path: Seq<char>) -> Option<ProjectEntry<V>> {
        lookup(self.files@, path)
    }

    /// No path holds two files.
    pub closed spec fn wf(&self) -> bool {
        keys_distinct(self.files@)
    }

    pub fn new() -> (r: Self)
        ensures
            r.wf(),
            forall|p: Seq<char>| #[trigger] r.entry(p) is None,
    {
        ProjectFiles { files: Vec::new() }
    }

    /// Puts `entry` at `path`, replacing what was there.
    pub fn insert(&mut self, path: String, entry: ProjectEntry<V>)
        requires
            old(self).wf(),
        ensures
            final(self).wf(),
            final(self).entry(path@) == Some(entry),
            forall|q: Seq<char>| q != path@ ==> #[trigger] final(self).entry(q) == old(self).entry(q),
    {
        assign(&mut self.files, path, entry);
    }

    /// What lies at `path`.
    pub fn existing(&self, path: &str) -> (r: Option<ExistingFile>)
        ensures
            match self.entry(path@) {
                None => r is None,
                Some(ProjectEntry::Generated(_)) => r == Some(ExistingFile::Generated),
                Some(ProjectEntry::Authored) => r == Some(ExistingFile::Authored),
            },
    {
        match position(&self.files, path) {
            None => None,
            Some(i) => match &self.files[i].1 {
                ProjectEntry::Generated(_) => Some(ExistingFile::Generated),
                ProjectEntry::Authored => Some(ExistingFile::Authored),
            },
        }
    }
}

/// Carries out `EmitPersistentFile`: the value is written, as a generated
/// file, to the project file at the cleaned path with its extension, unless
/// a file of the user's is there; then nothing changes.
pub fn emit_persistent_file<V>(files: &mut ProjectFiles<V>, value: V, path: &str, is_dbevalue: bool) -> (r: Result<
    (),
    SideEffectError,
>)
    requires
        old(files).wf(),
    ensures
        final(files).wf(),
        old(files).entry(cleaned(path@) + extension_of(is_dbevalue)) matches Some(ProjectEntry::Authored) ==> {
            &&& r matches Err(SideEffectError::FileExists(p)) && p@ == cleaned(path@) + extension_of(is_dbevalue)
            &&& forall|q: Seq<char>| #[trigger] final(files).entry(q) == old(files).entry(q)
        },
        !(old(files).entry(cleaned(path@) + extension_of(is_dbevalue)) matches Some(ProjectEntry::Authored)) ==> {
            &&& r is Ok
            &&& final(files).entry(cleaned(path@) + extension_of(is_dbevalue)) == Some(ProjectEntry::Generated(value))
            &&& forall|q: Seq<char>|
                q != cleaned(path@) + extension_of(is_dbevalue) ==> #[trigger] final(files).entry(q) == old(
                    files,
                ).entry(q)
        },
{
    let target = persistent_path(path, is_dbevalue);
    let existing = files.existing(target.as_str());
    let target = check_emit_target(target, existing)?;
    files.insert(target, ProjectEntry::Generated(value));
    Ok(())
}

/// The queue of effects, with the storage that effects and nodes share.
pub struct SideEffects<V> {
    effects: Vec<(SideEffectEmitter, SideEffect<V>)>,
    transistent_storage: TransistentStorage<V>,
}

impl<V> SideEffects<V> {
    /// The queued effects, oldest first, each with its emitter.
    pub closed spec fn effects(&self) -> Seq<(SideEffectEmitter, SideEffect<V>)> {
        self.effects@
    }

    /// The number of queued effects.
    pub open spec fn queued(&self) -> nat {
        self.effects().len()
    }

    pub closed spec fn storage(&self) -> TransistentStorage<V> {
        self.transistent_storage
    }

    pub fn new() -> (r: Self)
        ensures
            r.effects() == Seq::<(SideEffectEmitter, SideEffect<V>)>::empty(),
            r.storage().wf(),
            r.storage().file_scope() == Map::<u64, Option<V>>::empty(),
            r.storage().global_scope() == Map::<u64, Option<V>>::empty(),
            r.storage().staged() == Map::<u64, (Option<V>, Seq<char>)>::empty(),
            forall|k: u64| #[trigger] r.storage().lookup(k) is None,
    {
        let s = TransistentStorage::default();
        SideEffects { effects: Vec::new(), transistent_storage: s }
    }

    pub fn is_empty(&self) -> (r: bool)
        ensures
            r == (self.queued() == 0),
    {
        self.effects.len() == 0
    }

    /// Queues `effect` from `emitter`.
    pub fn push(&mut self, emitter: SideEffectEmitter, effect: SideEffect<V>)
        ensures
            final(self).effects() == old(self).effects().push((emitter, effect)),
            final(self).storage() == old(self).storage(),
    {
        self.effects.push((emitter, effect));
    }

    /// Takes every queued effect out, in the order they were queued.
    pub fn take_effects(&mut self) -> (r: Vec<(SideEffectEmitter, SideEffect<V>)>)
        ensures
            r@ == old(self).effects(),
            final(self).effects() == Seq::<(SideEffectEmitter, SideEffect<V>)>::empty(),
            final(self).storage() == old(self).storage(),
    {
        let mut taken = Vec::new();
        std::mem::swap(&mut taken, &mut self.effects);
        taken
    }

    /// The stored value of `key`.
    pub fn get_transient_storage(&self, key: u64) -> (r: Option<&V>)
        ensures
            match r {
                Some(v) => self.storage().lookup(key) == Some(*v),
                None => self.storage().lookup(key) is None,
            },
    {
        self.transistent_storage.get(key)
    }

    /// Stores `value` under `key` for the current file.
    pub fn set_transient_storage(&mut self, key: u64, value: V)
        ensures
            final(self).storage().file_scope() == old(self).storage().file_scope().insert(key, Some(value)),
            final(self).storage().global_scope() == old(self).storage().global_scope(),
            final(self).storage().staged() == old(self).storage().staged(),
            old(self).storage().wf() ==> final(self).storage().wf(),
            final(self).storage().lookup(key) == Some(value),
            final(self).effects() == old(self).effects(),
    {
        self.transistent_storage.insert(key, value);
    }

    /// Whether `key` has a stored value.
    pub fn has_transient_storage(&self, key: u64) -> (r: bool)
        ensures
            r == self.storage().lookup(key) is Some,
    {
        self.transistent_storage.get(key).is_some()
    }

    /// Forgets what was stored for the current file.
    pub fn clear_storage_file_scope(&mut self)
        ensures
            final(self).storage().file_scope() == Map::<u64, Option<V>>::empty(),
            final(self).storage().global_scope() == old(self).storage().global_scope(),
            final(self).storage().staged() == old(self).storage().staged(),
            old(self).storage().wf() ==> final(self).storage().wf(),
            final(self).effects() == old(self).effects(),
    {
        self.transistent_storage.clear_file_scope();
    }

    /// Stages a global value on behalf of the emitter named `emitter`.
    pub fn set_global_storage(&mut self, key: u64, value: Option<V>, emitter: String) -> (r: Result<(), crate::storage::StorageError>)
        requires
            old(self).storage().wf(),
        ensures
            final(self).storage().wf(),
            final(self).effects() == old(self).effects(),
            final(self).storage().file_scope() == old(self).storage().file_scope(),
            final(self).storage().global_scope() == old(self).storage().global_scope(),
            old(self).storage().staged().contains_key(key) ==> (r matches Err(
                crate::storage::StorageError::ModifiedTwice { key: k, first, second },
            ) && k == key && first@ == old(self).storage().staged()[key].1 && second@ == emitter@)
                && final(self).storage().staged() == old(self).storage().staged(),
            !old(self).storage().staged().contains_key(key) ==> r is Ok
                && final(self).storage().staged() == old(self).storage().staged().insert(key, (value, emitter@)),
    {
        self.transistent_storage.insert_global(key, value, emitter)
    }
}

/// A node that emits what reaches its value input as a file: to the path of
/// its path input, or, when that is empty, to the emitted folder.
/// `ALLOW_ANY` lets the value be of any type, written as a value file.
pub struct SavingNode<const ALLOW_ANY: bool>;

impl<const ALLOW_ANY: bool> SavingNode<ALLOW_ANY> {
    pub fn inputs_count(&self) -> (r: usize)
        ensures
            r == 2,
    {
        2
    }

    pub fn outputs_count(&self) -> (r: usize)
        ensures
            r == 0,
    {
        0
    }

    pub fn has_side_effects(&self) -> (r: bool)
        ensures
            r,
    {
        true
    }

    /// The effect of one run: the file to emit.
    pub fn execute<V>(&self, path: Option<String>, value: V) -> (r: SideEffect<V>)
        ensures
            match path {
                None => r == SideEffect::EmitTransientFile { value, is_dbevalue: ALLOW_ANY },
                Some(p) => r == SideEffect::EmitPersistentFile { value, path: p, is_dbevalue: ALLOW_ANY },
            },
    {
        match path {
            None => SideEffect::EmitTransientFile { value, is_dbevalue: ALLOW_ANY },
            Some(p) => SideEffect::EmitPersistentFile { value, path: p, is_dbevalue: ALLOW_ANY },
        }
    }
}

/// Makes saving nodes.
pub struct SavingNodeFactory<const ANY_VALUE: bool>;

impl<const ANY_VALUE: bool> SavingNodeFactory<ANY_VALUE> {
    pub fn id(&self) -> (r: &'static str)
        ensures
            ANY_VALUE ==> r@ == seq!['w', 'r', 'i', 't', 'e', '_', 'd', 'b', 'e', 'v', 'a', 'l', 'u', 'e'],
            !ANY_VALUE ==> r@ == seq!['w', 'r', 'i', 't', 'e', '_', 'i', 't', 'e', 'm'],
    {
        proof {
            reveal_strlit("write_dbevalue");
            reveal_strlit("write_item");
        }
        if ANY_VALUE {
            "write_dbevalue"
        } else {
            "write_item"
        }
    }

    pub fn categories(&self) -> (r: Vec<&'static str>)
        ensures
            r@.len() == 1,
            r@[0]@ == seq!['o', 'u', 't', 'p', 'u', 't'],
    {
        proof {
            reveal_strlit("output");
        }
        vec!["output"]
    }

    pub fn create(&self) -> SavingNode<ANY_VALUE> {
        SavingNode
    }
}

} // verus!

verus! {

/// What lies at the path of a mappings file in the project.
#[derive(Debug, Clone, Copy, PartialEq, Eq)]
pub enum StoredFile {
    /// A persistent value, with its state (hash).
    Value(u64),
    /// Anything else: a generated or broken value, or a graph.
    NotAValue,
}

/// Why mappings could not be loaded or saved.
#[derive(Debug, Clone, Copy, PartialEq, Eq)]
pub enum MappingFileError {
    /// The file at the path is not a persistent value.
    NotAValue,
    /// The file changed since the mappings were loaded from it.
    ModifiedElsewhere,
}

/// How mappings are had for a path that has none loaded yet.
#[derive(Debug, Clone, Copy, PartialEq, Eq)]
pub enum LoadAction {
    /// No file is there: new mappings, recorded with state 0.
    New,
    /// Read them from the value there, recorded with its state.
    Read(u64),
}

/// What saving mappings does to their file.
#[derive(Debug, Clone, Copy, PartialEq, Eq)]
pub enum SaveAction {
    /// Leave it: there is no file and nothing to save.
    Skip,
    /// Write the mappings there.
    Write,
}

/// How mappings for a path are loaded, given what lies there.
pub fn load_action(existing: Option<StoredFile>) -> (r: Result<LoadAction, MappingFileError>)
    ensures
        r == load_action_spec(existing),
{
    match existing {
        None => Ok(LoadAction::New),
        Some(StoredFile::Value(h)) => Ok(LoadAction::Read(h)),
        Some(StoredFile::NotAValue) => Err(MappingFileError::NotAValue),
    }
}

/// How mappings recorded with state `recorded` are saved, given what lies
/// at their path and whether they have saved links: a new file only for
/// saved links; an existing file only if it is the value they were loaded
/// from (or last saved as).
pub fn save_action(existing: Option<StoredFile>, recorded: u64, has_persistent_ids: bool) -> (r: Result<SaveAction, MappingFileError>)
    ensures
        r == save_action_spec(existing, recorded, has_persistent_ids),
{
    match existing {
        None => {
            if has_persistent_ids {
                Ok(SaveAction::Write)
            } else {
                Ok(SaveAction::Skip)
            }
        },
        Some(StoredFile::Value(h)) => {
            if h == recorded {
                Ok(SaveAction::Write)
            } else {
                Err(MappingFileError::ModifiedElsewhere)
            }
        },
        Some(StoredFile::NotAValue) => Err(MappingFileError::NotAValue),
    }
}

/// Mappings read from a value are saved back over it as long as nothing else
/// changed it.
pub proof fn law_read_then_save(h: u64, has_persistent_ids: bool)
    ensures
        ({
            let recorded = match load_action_spec(Some(StoredFile::Value(h))) {
                Ok(LoadAction::Read(x)) => x,
                _ => 0,
            };
            save_action_spec(Some(StoredFile::Value(h)), recorded, has_persistent_ids) == Ok::<
                SaveAction,
                MappingFileError,
            >(SaveAction::Write)
        }),
{
}

/// How mappings for a path that has none loaded are had: new ones where no
/// file is, else read from the persistent value there.
pub open spec fn load_action_spec(existing: Option<StoredFile>) -> Result<LoadAction, MappingFileError> {
    match existing {
        None => Ok(LoadAction::New),
        Some(StoredFile::Value(h)) => Ok(LoadAction::Read(h)),
        Some(StoredFile::NotAValue) => Err(MappingFileError::NotAValue),
    }
}

/// How mappings recorded with state `recorded` are saved.
pub open spec fn save_action_spec(existing: Option<StoredFile>, recorded: u64, has_persistent_ids: bool) -> Result<
    SaveAction,
    MappingFileError,
> {
    match existing {
        None => if has_persistent_ids {
            Ok(SaveAction::Write)
        } else {
            Ok(SaveAction::Skip)
        },
        Some(StoredFile::Value(h)) => if h == recorded {
            Ok(SaveAction::Write)
        } else {
            Err(MappingFileError::ModifiedElsewhere)
        },
        Some(StoredFile::NotAValue) => Err(MappingFileError::NotAValue),
    }
}

} // verus!
