//! Storage that nodes read and write while a project is evaluated: values
//! set for the current file, and global values that are staged and become
//! visible when the stage is flushed.
//!
//! A key is the number that stands for the key value; a key's entry may hold
//! no value, which hides a value of the same key further out.
use vstd::prelude::*;
use std::collections::HashMap;

verus! {

broadcast use vstd::std_specs::hash::group_hash_axioms;

/// Why a global value could not be staged.
#[derive(Debug, Clone, PartialEq, Eq)]
pub enum StorageError {
    /// Two emitters staged a value for one key.
    ModifiedTwice { key: u64, first: String, second: String },
}

pub struct TransistentStorage<V> {
    file_scoped: HashMap<u64, Option<V>>,
    global: HashMap<u64, Option<V>>,
    /// Values staged for the global scope, with the emitter of each, in the
    /// order they were staged.
    next_stage: Vec<(u64, Option<V>, String)>,
}

/// The staged values by key, with their emitters.
pub open spec fn staged_map<V>(s: Seq<(u64, Option<V>, String)>) -> Map<u64, (Option<V>, Seq<char>)>
    decreases s.len(),
{
    if s.len() == 0 {
        Map::empty()
    } else {
        staged_map(s.drop_last()).insert(s.last().0, (s.last().1, s.last().2@))
    }
}

/// A key's value: the file scope's entry if it has one, else the global
/// one.
pub open spec fn scoped_lookup<V>(file: Map<u64, Option<V>>, global: Map<u64, Option<V>>, key: u64) -> Option<V> {
    if file.contains_key(key) {
        file[key]
    } else if global.contains_key(key) {
        global[key]
    } else {
        None
    }
}

impl<V> TransistentStorage<V> {
    /// The entries of the current file.
    pub closed spec fn file_scope(&self) -> Map<u64, Option<V>> {
        self.file_scoped@
    }

    /// The global entries.
    pub closed spec fn global_scope(&self) -> Map<u64, Option<V>> {
        self.global@
    }

    /// The staged global entries, with the emitter of each.
    pub closed spec fn staged(&self) -> Map<u64, (Option<V>, Seq<char>)> {
        staged_map(self.next_stage@)
    }

    /// The value a read of `key` gives.
    pub open spec fn lookup(&self, key: u64) -> Option<V> {
        scoped_lookup(self.file_scope(), self.global_scope(), key)
    }

    /// No key is staged twice.
    pub closed spec fn wf(&self) -> bool {
        forall|i: int, j: int|
            0 <= i < j < self.next_stage@.len() ==> self.next_stage@[i].0 != self.next_stage@[j].0
    }
}

proof fn lemma_staged_has<V>(s: Seq<(u64, Option<V>, String)>, key: u64)
    ensures
        staged_map(s).contains_key(key) <==> exists|i: int| 0 <= i < s.len() && (#[trigger] s[i]).0 == key,
    decreases s.len(),
{
    if s.len() > 0 {
        let t = s.drop_last();
        lemma_staged_has(t, key);
        if staged_map(s).contains_key(key) && s.last().0 != key {
            let i = choose|i: int| 0 <= i < t.len() && (#[trigger] t[i]).0 == key;
            assert(s[i] == t[i]);
        }
        if exists|i: int| 0 <= i < s.len() && (#[trigger] s[i]).0 == key {
            let i = choose|i: int| 0 <= i < s.len() && (#[trigger] s[i]).0 == key;
            if i < t.len() {
                assert(t[i] == s[i]);
            }
        }
    }
}

proof fn lemma_staged_at<V>(s: Seq<(u64, Option<V>, String)>, i: int)
    requires
        0 <= i < s.len(),
        forall|a: int, b: int| 0 <= a < b < s.len() ==> s[a].0 != s[b].0,
    ensures
        staged_map(s).contains_key(s[i].0),
        staged_map(s)[s[i].0] == (s[i].1, s[i].2@),
    decreases s.len(),
{
    let t = s.drop_last();
    if i < s.len() - 1 {
        assert(t[i] == s[i]);
        lemma_staged_at(t, i);
        assert(s.last().0 != s[i].0);
    }
}

impl<V> Default for TransistentStorage<V> {
    /// Storage with no entries.
    fn default() -> (r: Self)
        ensures
            r.wf(),
            r.file_scope() == Map::<u64, Option<V>>::empty(),
            r.global_scope() == Map::<u64, Option<V>>::empty(),
            r.staged() == Map::<u64, (Option<V>, Seq<char>)>::empty(),
    {
        TransistentStorage { file_scoped: HashMap::new(), global: HashMap::new(), next_stage: Vec::new() }
    }
}

impl<V> TransistentStorage<V> {
    /// Drops every entry of the current file.
    pub fn clear_file_scope(&mut self)
        ensures
            final(self).file_scope() == Map::<u64, Option<V>>::empty(),
            final(self).global_scope() == old(self).global_scope(),
            final(self).staged() == old(self).staged(),
            old(self).wf() ==> final(self).wf(),
            forall|k: u64| #[trigger] final(self).lookup(k) == scoped_lookup(Map::empty(), old(self).global_scope(), k),
    {
        self.file_scoped.clear();
    }

    /// The value of `key`: the file's entry if it has one, else the global
    /// one.
    pub fn get(&self, key: u64) -> (r: Option<&V>)
        ensures
            match r {
                Some(v) => self.lookup(key) == Some(*v),
                None => self.lookup(key) is None,
            },
    {
        let entry = match self.file_scoped.get(&key) {
            Some(e) => Some(e),
            None => self.global.get(&key),
        };
        match entry {
            Some(Some(v)) => Some(v),
            _ => None,
        }
    }

    /// Sets `key` to `value` in the file scope.
    pub fn insert(&mut self, key: u64, value: V)
        ensures
            final(self).file_scope() == old(self).file_scope().insert(key, Some(value)),
            final(self).global_scope() == old(self).global_scope(),
            final(self).staged() == old(self).staged(),
            old(self).wf() ==> final(self).wf(),
            final(self).lookup(key) == Some(value),
    {
        self.file_scoped.insert(key, Some(value));
    }

    /// Stages `value` for `key` in the global scope, on behalf of `emitter`;
    /// a key that is staged already is refused.
    pub fn insert_global(&mut self, key: u64, value: Option<V>, emitter: String) -> (r: Result<(), StorageError>)
        requires
            old(self).wf(),
        ensures
            final(self).wf(),
            final(self).file_scope() == old(self).file_scope(),
            final(self).global_scope() == old(self).global_scope(),
            forall|k: u64| #[trigger] final(self).lookup(k) == old(self).lookup(k),
            old(self).staged().contains_key(key) ==> (r matches Err(StorageError::ModifiedTwice { key: k, first, second })
                && k == key && first@ == old(self).staged()[key].1 && second@ == emitter@) && final(self).staged()
                == old(self).staged(),
            !old(self).staged().contains_key(key) ==> r is Ok && final(self).staged() == old(self).staged().insert(
                key,
                (value, emitter@),
            ),
    {
        let mut i: usize = 0;
        while i < self.next_stage.len()
            invariant
                i <= self.next_stage@.len(),
                self.wf(),
                forall|j: int| 0 <= j < i ==> (#[trigger] self.next_stage@[j]).0 != key,
            decreases self.next_stage.len() - i,
        {
            if self.next_stage[i].0 == key {
                proof {
                    lemma_staged_at(self.next_stage@, i as int);
                }
                let first = self.next_stage[i].2.clone();
                return Err(StorageError::ModifiedTwice { key, first, second: emitter });
            }
            i = i + 1;
        }
        proof {
            lemma_staged_has(self.next_stage@, key);
        }
        let ghost s0 = self.next_stage@;
        self.next_stage.push((key, value, emitter));
        proof {
            assert(self.next_stage@.drop_last() =~= s0);
            assert forall|a: int, b: int| 0 <= a < b < self.next_stage@.len() implies self.next_stage@[a].0
                != self.next_stage@[b].0 by {
                if b == s0.len() {
                    assert(self.next_stage@[a] == s0[a]);
                } else {
                    assert(self.next_stage@[a] == s0[a]);
                    assert(self.next_stage@[b] == s0[b]);
                }
            }
        }
        Ok(())
    }

    /// Moves every staged value into the global scope.
    pub fn flush_stage(&mut self)
        ensures
            final(self).wf(),
            final(self).file_scope() == old(self).file_scope(),
            final(self).global_scope() == old(self).global_scope().union_prefer_right(
                old(self).staged().map_values(|e: (Option<V>, Seq<char>)| e.0),
            ),
            final(self).staged() == Map::<u64, (Option<V>, Seq<char>)>::empty(),
            forall|k: u64|
                !old(self).file_scope().contains_key(k) && old(self).staged().contains_key(k) ==> #[trigger] final(self).lookup(k)
                    == old(self).staged()[k].0,
    {
        let mut rest: Vec<(u64, Option<V>, String)> = Vec::new();
        std::mem::swap(&mut rest, &mut self.next_stage);
        let ghost g0 = self.global@;
        let ghost all = rest@;
        let ghost mut done: Seq<(u64, Option<V>, String)> = Seq::empty();
        while rest.len() > 0
            invariant
                all == done + rest@,
                self.global@ == g0.union_prefer_right(staged_map(done).map_values(|e: (Option<V>, Seq<char>)| e.0)),
                self.next_stage@.len() == 0,
                self.file_scoped@ == old(self).file_scoped@,
            decreases rest.len(),
        {
            let ghost before = rest@;
            let e = rest.remove(0);
            let ghost d0 = done;
            self.global.insert(e.0, e.1);
            proof {
                done = done.push(e);
                assert(done + rest@ =~= d0 + before);
                assert(done.drop_last() =~= d0);
                assert(self.global@ =~= g0.union_prefer_right(
                    staged_map(done).map_values(|x: (Option<V>, Seq<char>)| x.0),
                ));
            }
        }
        proof {
            assert(done =~= all);
            assert(staged_map(self.next_stage@) =~= Map::<u64, (Option<V>, Seq<char>)>::empty());
        }
    }

    /// Hides `key` in the file scope, whatever the global scope holds.
    pub fn unset(&mut self, key: u64)
        ensures
            final(self).file_scope() == old(self).file_scope().insert(key, None),
            final(self).global_scope() == old(self).global_scope(),
            final(self).staged() == old(self).staged(),
            old(self).wf() ==> final(self).wf(),
            final(self).lookup(key) is None,
    {
        self.file_scoped.insert(key, None);
    }
}

} // verus!
