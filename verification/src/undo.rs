//! Undo history of project files: snapshots of files taken when they
//! change, undone and redone on request.
//!
//! The history does not read or write files itself: a store of files
//! (`UndoFiles`) gives the states and snapshots of files and restores them.
//! How long a file must be still before a change of it counts as finished is
//! decided by whoever drives the history; the history keeps the path of the
//! file whose change is in progress (the flux).
use vstd::prelude::*;
use crate::assoc::{assign, keys_distinct, lemma_lookup_skip, lookup, lookup_same_except, position};

verus! {

pub struct UndoSettings {
    /// The most steps the undo history keeps.
    pub history_length: usize,
}

impl Default for UndoSettings {
    fn default() -> (r: Self)
        ensures
            r.history_length == 100,
    {
        UndoSettings { history_length: 100 }
    }
}

#[derive(Debug, Clone, Copy, PartialEq, Eq)]
pub enum SnapshotKind {
    /// A change made by the user.
    Change,
    /// An undo of the change with this id, turned into history by a new
    /// change.
    Undo(usize),
}

impl SnapshotKind {
    pub fn is_change(&self) -> (r: bool)
        ensures
            r == (*self is Change),
    {
        match self {
            SnapshotKind::Change => true,
            SnapshotKind::Undo(_) => false,
        }
    }

    pub fn is_undo(&self) -> (r: bool)
        ensures
            r == (*self is Undo),
    {
        match self {
            SnapshotKind::Change => false,
            SnapshotKind::Undo(_) => true,
        }
    }
}

/// The content a file had, and where and when in the history it was taken.
pub struct FileSnapshot<S> {
    pub id: usize,
    pub kind: SnapshotKind,
    pub path: String,
    /// The state (hash) of the content.
    pub state: u64,
    /// The content.
    pub value: S,
}

/// What identifies a snapshot in the history: its id, kind and path.
pub open spec fn shape<S>(s: FileSnapshot<S>) -> (usize, SnapshotKind, Seq<char>) {
    (s.id, s.kind, s.path@)
}

pub open spec fn shapes<S>(v: Seq<FileSnapshot<S>>) -> Seq<(usize, SnapshotKind, Seq<char>)> {
    v.map_values(|s: FileSnapshot<S>| shape(s))
}

/// The last `cap` items of `s`.
pub open spec fn bounded<T>(s: Seq<T>, cap: nat) -> Seq<T> {
    if s.len() <= cap {
        s
    } else {
        s.subrange(s.len() - cap, s.len() as int)
    }
}

/// A stack that keeps at most `capacity` items: pushing onto a full stack
/// drops the oldest item.
pub struct RingStack<T> {
    items: Vec<T>,
    capacity: usize,
}

impl<T> View for RingStack<T> {
    type V = Seq<T>;

    /// The items, oldest first.
    closed spec fn view(&self) -> Seq<T> {
        self.items@
    }
}

impl<T> RingStack<T> {
    pub closed spec fn cap(&self) -> nat {
        self.capacity as nat
    }

    pub closed spec fn wf(&self) -> bool {
        self.items@.len() <= self.capacity
    }

    pub fn new(capacity: usize) -> (r: Self)
        ensures
            r.wf(),
            r@ == Seq::<T>::empty(),
            r.cap() == capacity,
    {
        RingStack { items: Vec::new(), capacity }
    }

    pub fn push(&mut self, x: T)
        requires
            old(self).wf(),
        ensures
            final(self).wf(),
            final(self).cap() == old(self).cap(),
            final(self)@ == bounded(old(self)@.push(x), old(self).cap()),
    {
        if self.capacity == 0 {
            assert(bounded(self.items@.push(x), 0) =~= Seq::<T>::empty());
            return;
        }
        let ghost s0 = self.items@;
        if self.items.len() == self.capacity {
            self.items.remove(0);
        }
        self.items.push(x);
        proof {
            if s0.len() == self.capacity {
                assert(self.items@ =~= s0.push(x).subrange(1, s0.len() + 1 as int));
            } else {
                assert(self.items@ =~= s0.push(x));
            }
        }
    }

    pub fn pop(&mut self) -> (r: Option<T>)
        requires
            old(self).wf(),
        ensures
            final(self).wf(),
            final(self).cap() == old(self).cap(),
            old(self)@.len() == 0 ==> r is None && final(self)@ == old(self)@,
            old(self)@.len() > 0 ==> r == Some(old(self)@.last()) && final(self)@ == old(self)@.drop_last(),
    {
        self.items.pop()
    }

    pub fn len(&self) -> (r: usize)
        ensures
            r == self@.len(),
    {
        self.items.len()
    }

    pub fn is_empty(&self) -> (r: bool)
        ensures
            r == (self@.len() == 0),
    {
        self.items.len() == 0
    }

    /// The `i`-th item, oldest first.
    pub fn get(&self, i: usize) -> (r: &T)
        requires
            i < self@.len(),
        ensures
            *r == self@[i as int],
    {
        &self.items[i]
    }
}

} // verus!

verus! {

/// Why a step of the undo history failed.
#[derive(Debug, Clone, PartialEq, Eq)]
pub enum UndoError {
    NothingToUndo,
    NothingToRedo,
    /// The store has no file at this path.
    FileNotFound(String),
    /// The file at this path cannot be undone (a generated or broken value).
    Unsupported(String),
}

/// The files that the history watches and restores.
pub trait UndoFiles<S> {
    /// Whether there is a file at `path` whose changes can be undone.
    spec fn undoable(&self, path: Seq<char>) -> bool;

    /// The content of the file at `path`, as a snapshot.
    spec fn content(&self, path: Seq<char>) -> Option<S>;

    /// The state (hash) of a snapshot.
    spec fn state_spec(snapshot: S) -> u64;

    /// The state (hash) of the file at `path`; it is had exactly when the
    /// file can be undone, and is the state of its content.
    fn state_of(&self, path: &str) -> (r: Result<u64, UndoError>)
        ensures
            r is Ok <==> self.undoable(path@),
            r matches Ok(x) ==> self.content(path@) matches Some(c) && x == Self::state_spec(c),
    ;

    /// A snapshot of the content of the file at `path`; it is had exactly
    /// when the file can be undone.
    fn snapshot_of(&self, path: &str) -> (r: Result<S, UndoError>)
        ensures
            r is Ok <==> self.undoable(path@),
            r matches Ok(x) ==> self.content(path@) == Some(x),
    ;

    /// The state (hash) of a snapshot.
    fn snapshot_state(&self, snapshot: &S) -> (r: u64)
        ensures
            r == Self::state_spec(*snapshot),
    ;

    /// Puts `snapshot` back at `path`, giving a snapshot of what it replaced;
    /// that is had exactly when the file replaced could be undone. The
    /// restored file can be undone again; no other file changes, and a
    /// refused restore changes nothing.
    fn restore(&mut self, path: &str, snapshot: &S) -> (r: Result<S, UndoError>)
        ensures
            r is Ok <==> old(self).undoable(path@),
            r matches Ok(x) ==> old(self).content(path@) == Some(x) && final(self).content(path@) == Some(*snapshot)
                && final(self).undoable(path@),
            r is Err ==> final(self).content(path@) == old(self).content(path@) && final(self).undoable(path@)
                == old(self).undoable(path@),
            forall|q: Seq<char>|
                q != path@ ==> #[trigger] final(self).content(q) == old(self).content(q) && final(self).undoable(q)
                    == old(self).undoable(q),
    ;
}

/// What a check of a file found.
#[derive(Debug, Clone, Copy, PartialEq, Eq)]
pub enum CheckOutcome {
    /// The file is as it was last seen.
    Unchanged,
    /// The file changed while its change was in progress: no snapshot is
    /// taken, and the change goes on.
    ConsumedByFlux,
    /// The change was recorded as a new step, and a change of this file is
    /// now in progress.
    Recorded,
}

pub struct UndoHistory<S> {
    settings: UndoSettings,
    change_index: usize,
    last_known_state: Vec<(String, u64)>,
    last_snapshot: Vec<(String, S)>,
    /// Past history.
    history: RingStack<FileSnapshot<S>>,
    /// The part of history that was undone, the last undone last.
    undone_history: Vec<FileSnapshot<S>>,
    /// The snapshots that redo the undone history, in the same order.
    redo_snapshots: Vec<FileSnapshot<S>>,
    /// The file whose change is in progress.
    flux: Option<String>,
}

/// The snapshots of `v` numbered from `start` on.
pub open spec fn renumbered<S>(v: Seq<FileSnapshot<S>>, start: int) -> Seq<FileSnapshot<S>> {
    Seq::new(v.len(), |i: int| FileSnapshot { id: (start + i) as usize, ..v[i] })
}

impl<S> UndoHistory<S> {
    /// The steps that can be undone, oldest first.
    pub closed spec fn past(&self) -> Seq<FileSnapshot<S>> {
        self.history@
    }

    /// The undone steps, the last undone last.
    pub closed spec fn undone(&self) -> Seq<FileSnapshot<S>> {
        self.undone_history@
    }

    /// The snapshots that redo the undone steps, in the same order.
    pub closed spec fn redo_steps(&self) -> Seq<FileSnapshot<S>> {
        self.redo_snapshots@
    }

    pub closed spec fn capacity(&self) -> nat {
        self.history.cap()
    }

    pub closed spec fn next_index(&self) -> nat {
        self.change_index as nat
    }

    /// The path of the file whose change is in progress.
    pub closed spec fn flux_path(&self) -> Option<Seq<char>> {
        match self.flux {
            Some(p) => Some(p@),
            None => None,
        }
    }

    /// The state a file was last seen in.
    pub closed spec fn known_state(&self, path: Seq<char>) -> Option<u64> {
        lookup(self.last_known_state@, path)
    }

    /// Whether a snapshot of the file's last seen content is kept.
    pub closed spec fn has_snapshot(&self, path: Seq<char>) -> bool {
        lookup(self.last_snapshot@, path) is Some
    }

    /// The snapshot kept of the file's last seen content.
    pub closed spec fn snapshot_at(&self, path: Seq<char>) -> Option<S> {
        lookup(self.last_snapshot@, path)
    }

    /// The history keeps at most its capacity of steps; each undone step has
    /// the snapshot that redoes it, with its id and path.
    pub closed spec fn wf(&self) -> bool {
        &&& self.history.wf()
        &&& self.history.cap() == self.settings.history_length
        &&& keys_distinct(self.last_known_state@)
        &&& keys_distinct(self.last_snapshot@)
        &&& paired(self.undone_history@, self.redo_snapshots@)
    }
}

/// Each redo snapshot matches the undone step at its place: same id and
/// path, and it is the undo of that id.
pub open spec fn paired<S>(undone: Seq<FileSnapshot<S>>, redo: Seq<FileSnapshot<S>>) -> bool {
    &&& undone.len() == redo.len()
    &&& forall|i: int|
        0 <= i < undone.len() ==> (#[trigger] redo[i]).id == undone[i].id && redo[i].kind == SnapshotKind::Undo(
            undone[i].id,
        ) && redo[i].path@ == undone[i].path@
}

impl<S> UndoHistory<S> {
    pub fn new(settings: UndoSettings) -> (r: Self)
        ensures
            r.wf(),
            r.past().len() == 0,
            r.undone().len() == 0,
            r.redo_steps().len() == 0,
            r.flux_path() is None,
            r.capacity() == settings.history_length,
            r.next_index() == 0,
            forall|p: Seq<char>| #[trigger] r.known_state(p) is None,
    {
        let history = RingStack::new(settings.history_length);
        UndoHistory {
            settings,
            change_index: 0,
            last_known_state: Vec::new(),
            last_snapshot: Vec::new(),
            history,
            undone_history: Vec::new(),
            redo_snapshots: Vec::new(),
            flux: None,
        }
    }

    /// The steps that can be undone, oldest first.
    pub fn history(&self) -> (r: Vec<&FileSnapshot<S>>)
        ensures
            r@.len() == self.past().len(),
            forall|i: int| 0 <= i < r@.len() ==> *(#[trigger] r@[i]) == self.past()[i],
    {
        let mut out: Vec<&FileSnapshot<S>> = Vec::new();
        let mut i: usize = 0;
        while i < self.history.len()
            invariant
                i <= self.history@.len(),
                out@.len() == i,
                forall|j: int| 0 <= j < i ==> *(#[trigger] out@[j]) == self.history@[j],
            decreases self.history@.len() - i,
        {
            out.push(self.history.get(i));
            i = i + 1;
        }
        out
    }

    /// The undone steps, oldest first (the last undone first).
    pub fn undone_history(&self) -> (r: Vec<&FileSnapshot<S>>)
        ensures
            r@.len() == self.undone().len(),
            forall|i: int| 0 <= i < r@.len() ==> *(#[trigger] r@[i]) == self.undone()[self.undone().len() - 1 - i],
    {
        let mut out: Vec<&FileSnapshot<S>> = Vec::new();
        let n = self.undone_history.len();
        let mut i: usize = 0;
        while i < n
            invariant
                n == self.undone_history@.len(),
                i <= n,
                out@.len() == i,
                forall|j: int| 0 <= j < i ==> *(#[trigger] out@[j]) == self.undone_history@[n - 1 - j],
            decreases n - i,
        {
            out.push(&self.undone_history[n - 1 - i]);
            i = i + 1;
        }
        out
    }

    /// The snapshots that redo the undone steps.
    pub fn future(&self) -> (r: Vec<&FileSnapshot<S>>)
        ensures
            r@.len() == self.redo_steps().len(),
            forall|i: int| 0 <= i < r@.len() ==> *(#[trigger] r@[i]) == self.redo_steps()[i],
    {
        let mut out: Vec<&FileSnapshot<S>> = Vec::new();
        let mut i: usize = 0;
        while i < self.redo_snapshots.len()
            invariant
                i <= self.redo_snapshots@.len(),
                out@.len() == i,
                forall|j: int| 0 <= j < i ==> *(#[trigger] out@[j]) == self.redo_snapshots@[j],
            decreases self.redo_snapshots@.len() - i,
        {
            out.push(&self.redo_snapshots[i]);
            i = i + 1;
        }
        out
    }

    /// The id the next recorded step gets.
    pub fn change_index(&self) -> (r: usize)
        ensures
            r == self.next_index(),
    {
        self.change_index
    }

    pub fn can_undo(&self) -> (r: bool)
        ensures
            r == (self.past().len() > 0),
    {
        !self.history.is_empty()
    }

    pub fn can_redo(&self) -> (r: bool)
        ensures
            r == (self.redo_steps().len() > 0),
    {
        self.redo_snapshots.len() > 0
    }

    /// The path of the file whose change is in progress.
    pub fn flux(&self) -> (r: Option<&String>)
        ensures
            match r {
                Some(p) => self.flux_path() == Some(p@),
                None => self.flux_path() is None,
            },
    {
        match &self.flux {
            Some(p) => Some(p),
            None => None,
        }
    }

    /// Ends the change in progress, if any: the snapshot of its file is
    /// taken anew, so that its next change is recorded.
    pub fn interrupt_flux<F: UndoFiles<S>>(&mut self, files: &F) -> (r: Result<(), UndoError>)
        requires
            old(self).wf(),
        ensures
            final(self).wf(),
            final(self).flux_path() is None,
            same_steps(*old(self), *final(self)),
            forall|p: Seq<char>| #[trigger] final(self).known_state(p) == old(self).known_state(p),
            forall|p: Seq<char>| old(self).has_snapshot(p) ==> #[trigger] final(self).has_snapshot(p),
            old(self).flux_path() is None ==> r is Ok,
            old(self).flux_path() is Some ==> (r is Ok <==> files.undoable(old(self).flux_path()->0)),
            r is Ok ==> (old(self).flux_path() matches Some(f) ==> final(self).snapshot_at(f) == files.content(f)),
            forall|p: Seq<char>|
                (r is Err || old(self).flux_path() != Some(p)) ==> #[trigger] final(self).snapshot_at(p) == old(
                    self,
                ).snapshot_at(p),
    {
        if let Some(path) = self.flux.take() {
            let snapshot = files.snapshot_of(path.as_str())?;
            assign(&mut self.last_snapshot, path, snapshot);
        }
        Ok(())
    }
}

/// `h1` has the same steps, undone steps and redo snapshots as `h0`, and the
/// same capacity and next index.
pub open spec fn same_steps<S>(h0: UndoHistory<S>, h1: UndoHistory<S>) -> bool {
    &&& h1.past() == h0.past()
    &&& h1.undone() == h0.undone()
    &&& h1.redo_steps() == h0.redo_steps()
    &&& h1.capacity() == h0.capacity()
    &&& h1.next_index() == h0.next_index()
}

} // verus!

verus! {

proof fn lemma_bounded_push<T>(a: Seq<T>, x: T, c: nat)
    ensures
        bounded(bounded(a, c).push(x), c) == bounded(a.push(x), c),
{
    if a.len() <= c {
    } else {
        let b = a.subrange(a.len() - c, a.len() as int);
        assert(bounded(b.push(x), c) =~= bounded(a.push(x), c));
    }
}

proof fn lemma_bounded_last<T>(a: Seq<T>, x: T, c: nat)
    requires
        a.len() > 0,
        a.last() == x,
        c > 0,
    ensures
        bounded(a, c).last() == x,
{
}

impl<S> UndoHistory<S> {
    /// Turns the undone steps back into history (undone and redone), then
    /// adds `snapshot`.
    fn push_snapshot(&mut self, snapshot: FileSnapshot<S>)
        requires
            old(self).wf(),
            old(self).next_index() + old(self).redo_steps().len() <= usize::MAX,
        ensures
            final(self).wf(),
            final(self).capacity() == old(self).capacity(),
            final(self).undone().len() == 0,
            final(self).redo_steps().len() == 0,
            final(self).next_index() == old(self).next_index() + old(self).redo_steps().len(),
            final(self).past() == bounded(
                old(self).past() + old(self).undone().reverse() + renumbered(
                    old(self).redo_steps(),
                    old(self).next_index() as int,
                ) + seq![snapshot],
                old(self).capacity(),
            ),
            final(self).flux_path() == old(self).flux_path(),
            forall|p: Seq<char>| #[trigger] final(self).known_state(p) == old(self).known_state(p),
            forall|p: Seq<char>| #[trigger] final(self).has_snapshot(p) == old(self).has_snapshot(p),
    {
        let ghost h0 = self.history@;
        let ghost u0 = self.undone_history@;
        let ghost r0 = self.redo_snapshots@;
        let ghost c0 = self.change_index as int;
        let ghost cap = self.history.cap();
        let mut undone: Vec<FileSnapshot<S>> = Vec::new();
        std::mem::swap(&mut undone, &mut self.undone_history);
        let ghost mut acc: Seq<FileSnapshot<S>> = Seq::empty();
        assert(h0 + acc =~= h0);
        assert(undone@.reverse() =~= u0.reverse());
        while undone.len() > 0
            invariant
                self.history.wf(),
                self.history.cap() == cap,
                self.history@ == bounded(h0 + acc, cap),
                acc + undone@.reverse() == u0.reverse(),
                self.undone_history@.len() == 0,
                self.redo_snapshots@ == r0,
                self.change_index == c0,
                self.flux == old(self).flux,
                self.last_known_state == old(self).last_known_state,
                self.last_snapshot == old(self).last_snapshot,
                self.settings.history_length == old(self).settings.history_length,
                cap == old(self).settings.history_length,
            decreases undone.len(),
        {
            let ghost before = undone@;
            let x = undone.pop().unwrap();
            proof {
                lemma_bounded_push(h0 + acc, x, cap);
                assert((h0 + acc).push(x) =~= h0 + acc.push(x));
                assert(before.reverse() =~= seq![x] + undone@.reverse());
                acc = acc.push(x);
                assert(acc + undone@.reverse() =~= u0.reverse());
            }
            self.history.push(x);
        }
        assert(acc =~= u0.reverse());
        let mut redo: Vec<FileSnapshot<S>> = Vec::new();
        std::mem::swap(&mut redo, &mut self.redo_snapshots);
        let ghost base = h0 + u0.reverse();
        let ghost mut k: int = 0;
        assert(base + renumbered(r0.subrange(0, 0), c0) =~= base);
        assert(redo@ =~= r0.subrange(0, r0.len() as int));
        while redo.len() > 0
            invariant
                self.history.wf(),
                self.history.cap() == cap,
                0 <= k <= r0.len(),
                redo@ == r0.subrange(k, r0.len() as int),
                self.history@ == bounded(base + renumbered(r0.subrange(0, k), c0), cap),
                self.change_index == c0 + k,
                c0 + r0.len() <= usize::MAX,
                self.undone_history@.len() == 0,
                self.redo_snapshots@.len() == 0,
                self.flux == old(self).flux,
                self.last_known_state == old(self).last_known_state,
                self.last_snapshot == old(self).last_snapshot,
                self.settings.history_length == old(self).settings.history_length,
                cap == old(self).settings.history_length,
            decreases redo.len(),
        {
            let mut x = redo.remove(0);
            proof {
                assert(x == r0[k]);
            }
            x.id = self.change_index;
            self.change_index = self.change_index + 1;
            proof {
                lemma_bounded_push(base + renumbered(r0.subrange(0, k), c0), x, cap);
                assert((base + renumbered(r0.subrange(0, k), c0)).push(x) =~= base + renumbered(r0.subrange(0, k + 1), c0));
                k = k + 1;
                assert(redo@ =~= r0.subrange(k, r0.len() as int));
            }
            self.history.push(x);
        }
        proof {
            assert(r0.subrange(0, k) =~= r0);
            lemma_bounded_push(base + renumbered(r0, c0), snapshot, cap);
            assert((base + renumbered(r0, c0)).push(snapshot) =~= base + renumbered(r0, c0) + seq![snapshot]);
        }
        self.history.push(snapshot);
    }

    /// Takes the next change index.
    fn next_change_index(&mut self) -> (r: usize)
        requires
            old(self).next_index() < usize::MAX,
        ensures
            r == old(self).next_index(),
            final(self).next_index() == old(self).next_index() + 1,
            final(self).past() == old(self).past(),
            final(self).undone() == old(self).undone(),
            final(self).redo_steps() == old(self).redo_steps(),
            final(self).capacity() == old(self).capacity(),
            final(self).flux_path() == old(self).flux_path(),
            forall|p: Seq<char>| #[trigger] final(self).known_state(p) == old(self).known_state(p),
            forall|p: Seq<char>| #[trigger] final(self).has_snapshot(p) == old(self).has_snapshot(p),
            old(self).wf() ==> final(self).wf(),
    {
        let index = self.change_index;
        self.change_index = self.change_index + 1;
        index
    }

    /// Takes the state and a snapshot of the file at `path` anew.
    fn update_last_known_state<F: UndoFiles<S>>(&mut self, path: String, files: &F) -> (r: Result<(), UndoError>)
        requires
            old(self).wf(),
        ensures
            final(self).wf(),
            same_steps(*old(self), *final(self)),
            final(self).flux_path() == old(self).flux_path(),
            forall|p: Seq<char>| p != path@ ==> #[trigger] final(self).known_state(p) == old(self).known_state(p),
            r is Ok ==> final(self).known_state(path@) is Some && final(self).has_snapshot(path@),
            r is Ok <==> files.undoable(path@),
    {
        let snapshot = files.snapshot_of(path.as_str())?;
        let state = files.state_of(path.as_str())?;
        assign(&mut self.last_known_state, path.clone(), state);
        assign(&mut self.last_snapshot, path, snapshot);
        Ok(())
    }
}

} // verus!

verus! {

/// What undoing the last step of `h0` gives (`r`) and leaves (`h1`).
pub open spec fn undo_outcome<S>(h0: UndoHistory<S>, h1: UndoHistory<S>, r: Result<String, UndoError>) -> bool {
    let last = h0.past().last();
    let popped = h1.past() == h0.past().drop_last() && h1.undone() == h0.undone() && h1.redo_steps()
        == h0.redo_steps();
    let undone = {
        &&& h1.past() == h0.past().drop_last()
        &&& h1.undone() == h0.undone().push(last)
        &&& h1.redo_steps().len() == h0.redo_steps().len() + 1
        &&& h1.redo_steps().drop_last() == h0.redo_steps()
        &&& shape(h1.redo_steps().last()) == (last.id, SnapshotKind::Undo(last.id), last.path@)
    };
    &&& h1.capacity() == h0.capacity()
    &&& h1.next_index() == h0.next_index()
    &&& h1.flux_path() is None
    &&& h0.past().len() == 0 ==> r is Err && same_steps(h0, h1)
    &&& h0.past().len() == 0 && h0.flux_path() is None ==> r == Err::<String, UndoError>(UndoError::NothingToUndo)
    &&& match r {
        Ok(p) => h0.past().len() > 0 && p@ == last.path@ && undone,
        Err(_) => same_steps(h0, h1) || (h0.past().len() > 0 && (popped || undone)),
    }
}

/// What undoing the last step of `h0` does to the files (`f0` before, `f1`
/// after): it succeeds when the change in progress can be ended and the
/// step's file can be undone; then the file holds the step's snapshot and
/// can be undone again, and the new redo step holds what the file held; no
/// other file changes, and a failed undo changes none.
pub open spec fn undo_files<S, F: UndoFiles<S>>(
    h0: UndoHistory<S>,
    h1: UndoHistory<S>,
    f0: F,
    f1: F,
    r: Result<String, UndoError>,
) -> bool {
    let last = h0.past().last();
    &&& (h0.flux_path() matches Some(f) ==> f0.undoable(f)) && h0.past().len() > 0 && f0.undoable(last.path@) ==> r is Ok
    &&& r is Ok ==> {
        &&& f1.content(last.path@) == Some(last.value)
        &&& f1.undoable(last.path@)
        &&& f0.content(last.path@) == Some(h1.redo_steps().last().value)
        &&& h1.redo_steps().last().state == F::state_spec(h1.redo_steps().last().value)
    }
    &&& forall|q: Seq<char>|
        (r is Err || q != last.path@) ==> #[trigger] f1.content(q) == f0.content(q) && f1.undoable(q) == f0.undoable(q)
}

/// What redoing the last undone step of `h0` does to the files (`f0`
/// before, `f1` after): it succeeds when the change in progress can be ended
/// and the step's file can be undone; then the file holds the redo snapshot
/// and can be undone again, and the new step holds what the file held; no
/// other file changes, and a failed redo changes none.
pub open spec fn redo_files<S, F: UndoFiles<S>>(
    h0: UndoHistory<S>,
    h1: UndoHistory<S>,
    f0: F,
    f1: F,
    r: Result<String, UndoError>,
) -> bool {
    let d = h0.redo_steps().last();
    &&& (h0.flux_path() matches Some(f) ==> f0.undoable(f)) && h0.redo_steps().len() > 0 && f0.undoable(d.path@) ==> r is Ok
    &&& r is Ok ==> {
        &&& f1.content(d.path@) == Some(d.value)
        &&& f1.undoable(d.path@)
        &&& h1.capacity() > 0 ==> f0.content(d.path@) == Some(h1.past().last().value) && h1.past().last().state
            == F::state_spec(h1.past().last().value)
    }
    &&& forall|q: Seq<char>|
        (r is Err || q != d.path@) ==> #[trigger] f1.content(q) == f0.content(q) && f1.undoable(q) == f0.undoable(q)
}

/// What redoing the last undone step of `h0` gives (`r`) and leaves (`h1`).
pub open spec fn redo_outcome<S>(h0: UndoHistory<S>, h1: UndoHistory<S>, r: Result<String, UndoError>) -> bool {
    let u = h0.undone().last();
    let d = h0.redo_steps().last();
    let popped = h1.past() == h0.past() && h1.undone() == h0.undone().drop_last() && h1.redo_steps()
        == h0.redo_steps().drop_last();
    let redone = {
        &&& h1.undone() == h0.undone().drop_last()
        &&& h1.redo_steps() == h0.redo_steps().drop_last()
        &&& exists|s: FileSnapshot<S>|
            #![trigger bounded(h0.past().push(s), h0.capacity())]
            shape(s) == (u.id, u.kind, d.path@) && h1.past() == bounded(h0.past().push(s), h0.capacity())
    };
    &&& h1.capacity() == h0.capacity()
    &&& h1.next_index() == h0.next_index()
    &&& h1.flux_path() is None
    &&& h0.redo_steps().len() == 0 ==> r is Err && same_steps(h0, h1)
    &&& h0.redo_steps().len() == 0 && h0.flux_path() is None ==> r == Err::<String, UndoError>(UndoError::NothingToRedo)
    &&& match r {
        Ok(p) => h0.redo_steps().len() > 0 && p@ == d.path@ && redone,
        Err(_) => same_steps(h0, h1) || (h0.redo_steps().len() > 0 && (popped || redone)),
    }
}

/// The state (hash) of the content of the file at `p`.
pub open spec fn current_state<S, F: UndoFiles<S>>(files: F, p: Seq<char>) -> u64 {
    F::state_spec(files.content(p)->0)
}

/// The file at `p` changed since it was last seen: a state was noted for it,
/// and it is not the state of its content.
pub open spec fn changed_since_seen<S, F: UndoFiles<S>>(h: UndoHistory<S>, files: F, p: Seq<char>) -> bool {
    h.known_state(p) matches Some(k) && k != current_state(files, p)
}

/// What a change of the file at `p` records: the snapshot kept of it; or
/// its content, when none is kept or its change in progress ends first.
pub open spec fn recorded_value<S, F: UndoFiles<S>>(h: UndoHistory<S>, files: F, p: Seq<char>) -> S {
    if h.flux_path() == Some(p) || h.snapshot_at(p) is None {
        files.content(p)->0
    } else {
        h.snapshot_at(p)->0
    }
}

impl<S> UndoHistory<S> {
    /// Notes that the file at `path` may have changed. A change is recorded
    /// as a step of the history, unless it continues the change in progress
    /// of the same file (and `force_snapshot` is not set); then the change
    /// in progress is this file's.
    pub fn check_file<F: UndoFiles<S>>(&mut self, files: &F, path: &str, force_snapshot: bool) -> (r: Result<CheckOutcome, UndoError>)
        requires
            old(self).wf(),
            old(self).next_index() + old(self).redo_steps().len() < usize::MAX,
        ensures
            final(self).wf(),
            final(self).capacity() == old(self).capacity(),
            match r {
                Ok(CheckOutcome::Recorded) => {
                    &&& final(self).undone().len() == 0
                    &&& final(self).redo_steps().len() == 0
                    &&& final(self).flux_path() == Some(path@)
                    &&& final(self).next_index() == old(self).next_index() + 1 + old(self).redo_steps().len()
                    &&& exists|s: FileSnapshot<S>|
                        #![trigger seq![s]]
                        s.id == old(self).next_index() && s.kind == SnapshotKind::Change && s.path@ == path@
                            && s.value == recorded_value(*old(self), *files, path@) && s.state == F::state_spec(s.value)
                            && final(self).past() == bounded(
                            old(self).past() + old(self).undone().reverse() + renumbered(
                                old(self).redo_steps(),
                                old(self).next_index() + 1 as int,
                            ) + seq![s],
                            old(self).capacity(),
                        )
                },
                Ok(CheckOutcome::ConsumedByFlux) => {
                    &&& !force_snapshot
                    &&& old(self).flux_path() == Some(path@)
                    &&& final(self).flux_path() == Some(path@)
                    &&& same_steps(*old(self), *final(self))
                },
                Ok(CheckOutcome::Unchanged) => same_steps(*old(self), *final(self)) && final(self).flux_path()
                    == old(self).flux_path() && final(self).known_state(path@) is Some,
                Err(_) => same_steps(*old(self), *final(self)),
            },
            files.undoable(path@) && (old(self).flux_path() is Some ==> files.undoable(old(self).flux_path()->0))
                ==> r is Ok,
            !files.undoable(path@) ==> r is Err && final(self).flux_path() == old(self).flux_path(),
            r is Ok ==> final(self).known_state(path@) is Some,
            old(self).known_state(path@) is None ==> final(self).flux_path() == old(self).flux_path() && (r is Err
                || r == Ok::<CheckOutcome, UndoError>(CheckOutcome::Unchanged)),
            old(self).known_state(path@) is None && files.undoable(path@) ==> r == Ok::<CheckOutcome, UndoError>(
                CheckOutcome::Unchanged,
            ),
            r is Ok ==> final(self).known_state(path@) == Some(current_state(*files, path@)),
            r == Ok::<CheckOutcome, UndoError>(CheckOutcome::Unchanged) ==> !changed_since_seen(*old(self), *files, path@),
            r == Ok::<CheckOutcome, UndoError>(CheckOutcome::ConsumedByFlux) ==> changed_since_seen(*old(self), *files, path@),
            r == Ok::<CheckOutcome, UndoError>(CheckOutcome::Recorded) ==> changed_since_seen(*old(self), *files, path@)
                && (force_snapshot || old(self).flux_path() != Some(path@)),
            files.undoable(path@) && !changed_since_seen(*old(self), *files, path@) ==> r == Ok::<
                CheckOutcome,
                UndoError,
            >(CheckOutcome::Unchanged),
            files.undoable(path@) && changed_since_seen(*old(self), *files, path@) && !force_snapshot
                && old(self).flux_path() == Some(path@) ==> r == Ok::<CheckOutcome, UndoError>(CheckOutcome::ConsumedByFlux),
            files.undoable(path@) && changed_since_seen(*old(self), *files, path@) && (force_snapshot || old(
                self,
            ).flux_path() != Some(path@)) && (old(self).flux_path() is Some ==> files.undoable(
                old(self).flux_path()->0,
            )) ==> r == Ok::<CheckOutcome, UndoError>(CheckOutcome::Recorded),
            r == Ok::<CheckOutcome, UndoError>(CheckOutcome::Recorded) && old(self).capacity() > 0 ==> {
                &&& final(self).past().len() > 0
                &&& final(self).past().last().kind == SnapshotKind::Change
                &&& final(self).past().last().path@ == path@
                &&& final(self).past().last().value == recorded_value(*old(self), *files, path@)
            },
    {
        let state = files.state_of(path)?;
        let last_state = match position(&self.last_known_state, path) {
            Some(i) => self.last_known_state[i].1,
            None => {
                assign(&mut self.last_known_state, path.to_owned(), state);
                state
            },
        };
        if position(&self.last_snapshot, path).is_none() {
            let snapshot = files.snapshot_of(path)?;
            assign(&mut self.last_snapshot, path.to_owned(), snapshot);
        }
        assert(self.flux_path() == old(self).flux_path());
        assert(old(self).flux_path() != Some(path@) ==> self.snapshot_at(path@) == Some(
            recorded_value(*old(self), *files, path@),
        ));
        if state == last_state {
            return Ok(CheckOutcome::Unchanged);
        }
        assign(&mut self.last_known_state, path.to_owned(), state);
        assert(self.has_snapshot(path@));
        assert(self.known_state(path@) is Some);
        let in_flux = match &self.flux {
            Some(p) => Some(crate::text::str_eq(p.as_str(), path)),
            None => None,
        };
        match in_flux {
            Some(same) => {
                if force_snapshot || !same {
                    self.interrupt_flux(files)?;
                } else {
                    return Ok(CheckOutcome::ConsumedByFlux);
                }
            },
            None => {},
        }
        assert(self.has_snapshot(path@));
        assert(self.known_state(path@) is Some);
        assert(self.snapshot_at(path@) == Some(recorded_value(*old(self), *files, path@)));
        let new_snapshot = files.snapshot_of(path)?;
        let previous = assign(&mut self.last_snapshot, path.to_owned(), new_snapshot);
        let previous = match previous {
            Some(s) => s,
            None => {
                assert(false);
                return Ok(CheckOutcome::Unchanged);
            },
        };
        let id = self.next_change_index();
        let st = files.snapshot_state(&previous);
        let snapshot = FileSnapshot { id, kind: SnapshotKind::Change, path: path.to_owned(), state: st, value: previous };
        assert(self.known_state(path@) is Some);
        let ghost before = self.past() + self.undone().reverse() + renumbered(self.redo_steps(), self.next_index() as int);
        self.push_snapshot(snapshot);
        proof {
            if self.capacity() > 0 {
                lemma_bounded_last(before + seq![snapshot], snapshot, self.capacity());
            }
        }
        assert(self.known_state(path@) is Some);
        self.flux = Some(path.to_owned());
        proof {
            assert(seq![snapshot] == seq![snapshot]);
        }
        Ok(CheckOutcome::Recorded)
    }

    /// Checks the file at `path` (forcing a snapshot) if it was not seen
    /// yet.
    pub fn ensure_file_state<F: UndoFiles<S>>(&mut self, files: &F, path: &str) -> (r: Result<(), UndoError>)
        requires
            old(self).wf(),
            old(self).next_index() + old(self).redo_steps().len() < usize::MAX,
        ensures
            final(self).wf(),
            same_steps(*old(self), *final(self)),
            final(self).flux_path() == old(self).flux_path(),
            old(self).known_state(path@) is Some ==> r is Ok,
            old(self).known_state(path@) is None ==> (r is Ok <==> files.undoable(path@)),
            r is Ok ==> final(self).known_state(path@) is Some,
    {
        if position(&self.last_known_state, path).is_none() {
            self.check_file(files, path, true)?;
        }
        Ok(())
    }

    /// Undoes the last step: its snapshot is restored, and what it replaced
    /// is kept to redo it. The change in progress ends first.
    pub fn undo<F: UndoFiles<S>>(&mut self, files: &mut F) -> (r: Result<String, UndoError>)
        requires
            old(self).wf(),
        ensures
            final(self).wf(),
            undo_outcome(*old(self), *final(self), r),
            undo_files(*old(self), *final(self), *old(files), *final(files), r),
    {
        self.interrupt_flux(&*files)?;
        let last = match self.history.pop() {
            Some(x) => x,
            None => {
                return Err(UndoError::NothingToUndo);
            },
        };
        let redo_snapshot = files.restore(last.path.as_str(), &last.value)?;
        let path = last.path.clone();
        let st = files.snapshot_state(&redo_snapshot);
        self.redo_snapshots.push(
            FileSnapshot { id: last.id, kind: SnapshotKind::Undo(last.id), path: path.clone(), state: st, value: redo_snapshot },
        );
        self.undone_history.push(last);
        proof {
            assert(self.redo_snapshots@.drop_last() =~= old(self).redo_snapshots@);
        }
        self.update_last_known_state(path.clone(), &*files)?;
        Ok(path)
    }

    /// Redoes the last undone step. The change in progress ends first.
    pub fn redo<F: UndoFiles<S>>(&mut self, files: &mut F) -> (r: Result<String, UndoError>)
        requires
            old(self).wf(),
        ensures
            final(self).wf(),
            redo_outcome(*old(self), *final(self), r),
            redo_files(*old(self), *final(self), *old(files), *final(files), r),
    {
        self.interrupt_flux(&*files)?;
        let redo = match self.redo_snapshots.pop() {
            Some(x) => x,
            None => {
                return Err(UndoError::NothingToRedo);
            },
        };
        let undone = match self.undone_history.pop() {
            Some(x) => x,
            None => {
                assert(false);
                return Err(UndoError::NothingToRedo);
            },
        };
        let last_snapshot = files.restore(redo.path.as_str(), &redo.value)?;
        let st = files.snapshot_state(&last_snapshot);
        let snapshot = FileSnapshot { id: undone.id, kind: undone.kind, path: redo.path.clone(), state: st, value: last_snapshot };
        let ghost s = snapshot;
        let ghost h = self.history@;
        self.history.push(snapshot);
        proof {
            if self.history.cap() > 0 {
                lemma_bounded_last(h.push(s), s, self.history.cap());
            }
        }
        self.update_last_known_state(redo.path.clone(), &*files)?;
        Ok(redo.path)
    }
}

/// Undoing a step and redoing it gives back the same history: the same
/// steps (by id, kind and path), undone steps and redo snapshots.
pub proof fn law_undo_then_redo<S>(
    h0: UndoHistory<S>,
    h1: UndoHistory<S>,
    h2: UndoHistory<S>,
    r1: Result<String, UndoError>,
    r2: Result<String, UndoError>,
)
    requires
        h0.wf(),
        undo_outcome(h0, h1, r1),
        r1 is Ok,
        redo_outcome(h1, h2, r2),
        r2 is Ok,
    ensures
        shapes(h2.past()) == shapes(h0.past()),
        h2.undone() == h0.undone(),
        h2.redo_steps() == h0.redo_steps(),
        r1 matches Ok(p1) && r2 matches Ok(p2) && p1@ == p2@,
{
    let last = h0.past().last();
    let s = choose|s: FileSnapshot<S>|
        #![trigger bounded(h1.past().push(s), h1.capacity())]
        shape(s) == (h1.undone().last().id, h1.undone().last().kind, h1.redo_steps().last().path@) && h2.past()
            == bounded(h1.past().push(s), h1.capacity());
    assert(h1.past().push(s).len() <= h1.capacity()) by {
        reveal_wf_len(h0);
    }
    assert(shapes(h2.past()) =~= shapes(h0.past())) by {
        assert(h2.past() == h0.past().drop_last().push(s));
        assert forall|i: int| 0 <= i < h0.past().len() implies shapes(h2.past())[i] == shapes(h0.past())[i] by {
            if i < h0.past().len() - 1 {
                assert(h2.past()[i] == h0.past()[i]);
            }
        }
    }
}

/// Redoing right after an undo succeeds, on the same file, and puts back
/// what the file held before the undo; no other file changes on the way.
pub proof fn law_redo_after_undo_restores_file<S, F: UndoFiles<S>>(
    h0: UndoHistory<S>,
    h1: UndoHistory<S>,
    h2: UndoHistory<S>,
    f0: F,
    f1: F,
    f2: F,
    r1: Result<String, UndoError>,
    r2: Result<String, UndoError>,
)
    requires
        h0.wf(),
        undo_outcome(h0, h1, r1),
        undo_files(h0, h1, f0, f1, r1),
        r1 is Ok,
        redo_outcome(h1, h2, r2),
        redo_files(h1, h2, f1, f2, r2),
    ensures
        r2 is Ok,
        r1 matches Ok(p1) && r2 matches Ok(p2) && p1@ == p2@,
        f2.content(h0.past().last().path@) == f0.content(h0.past().last().path@),
        forall|q: Seq<char>| q != h0.past().last().path@ ==> #[trigger] f2.content(q) == f0.content(q),
{
    let last = h0.past().last();
    assert(h1.redo_steps().len() > 0);
    assert(shape(h1.redo_steps().last()) == (last.id, SnapshotKind::Undo(last.id), last.path@));
    assert(h1.redo_steps().last().path@ == last.path@);
    assert(f1.undoable(last.path@));
    assert(r2 is Ok);
    assert forall|q: Seq<char>| q != last.path@ implies #[trigger] f2.content(q) == f0.content(q) by {
        assert(f1.content(q) == f0.content(q));
    }
}

/// A change that a check recorded is what the next undo takes back: when the
/// newest step is a change of `p` holding `v`, and the file and the change in
/// progress can be undone, undoing names `p` and leaves `v` in the file.
pub proof fn law_undo_restores_recorded_change<S, F: UndoFiles<S>>(
    h1: UndoHistory<S>,
    h2: UndoHistory<S>,
    f1: F,
    f2: F,
    p: Seq<char>,
    v: S,
    r: Result<String, UndoError>,
)
    requires
        h1.wf(),
        h1.past().len() > 0,
        h1.past().last().kind == SnapshotKind::Change,
        h1.past().last().path@ == p,
        h1.past().last().value == v,
        f1.undoable(p),
        h1.flux_path() matches Some(q) ==> f1.undoable(q),
        undo_outcome(h1, h2, r),
        undo_files(h1, h2, f1, f2, r),
    ensures
        r matches Ok(q) && q@ == p,
        f2.content(p) == Some(v),
        f2.undoable(p),
        h2.redo_steps().len() > 0,
        f1.content(p) == Some(h2.redo_steps().last().value),
{
}

proof fn reveal_wf_len<S>(h: UndoHistory<S>)
    requires
        h.wf(),
    ensures
        h.past().len() <= h.capacity(),
{
}

} // verus!

verus! {

/// Files held in memory, each a number that is its own state.
pub struct MemoryFiles {
    files: Vec<(String, u64)>,
}

impl MemoryFiles {
    /// The number stored at `path`.
    pub closed spec fn stored(&self, path: Seq<char>) -> Option<u64> {
        lookup(self.files@, path)
    }

    pub closed spec fn wf(&self) -> bool {
        keys_distinct(self.files@)
    }

    pub fn new() -> (r: Self)
        ensures
            r.wf(),
            forall|p: Seq<char>| #[trigger] r.stored(p) is None,
    {
        MemoryFiles { files: Vec::new() }
    }

    /// Writes `value` to the file at `path`.
    pub fn set(&mut self, path: &str, value: u64)
        requires
            old(self).wf(),
        ensures
            final(self).wf(),
            final(self).stored(path@) == Some(value),
            forall|p: Seq<char>| p != path@ ==> #[trigger] final(self).stored(p) == old(self).stored(p),
    {
        assign(&mut self.files, path.to_owned(), value);
    }

    /// The content of the file at `path`.
    pub fn get(&self, path: &str) -> (r: Option<u64>)
        ensures
            r == self.stored(path@),
    {
        match position(&self.files, path) {
            Some(i) => Some(self.files[i].1),
            None => None,
        }
    }
}

impl UndoFiles<u64> for MemoryFiles {
    open spec fn undoable(&self, path: Seq<char>) -> bool {
        self.stored(path) is Some
    }

    open spec fn content(&self, path: Seq<char>) -> Option<u64> {
        self.stored(path)
    }

    open spec fn state_spec(snapshot: u64) -> u64 {
        snapshot
    }

    fn state_of(&self, path: &str) -> (r: Result<u64, UndoError>)
        ensures
            match self.content(path@) {
                Some(v) => r == Ok::<u64, UndoError>(v),
                None => r matches Err(UndoError::FileNotFound(p)) && p@ == path@,
            },
    {
        match self.get(path) {
            Some(v) => Ok(v),
            None => Err(UndoError::FileNotFound(path.to_owned())),
        }
    }

    fn snapshot_of(&self, path: &str) -> (r: Result<u64, UndoError>)
        ensures
            match self.content(path@) {
                Some(v) => r == Ok::<u64, UndoError>(v),
                None => r matches Err(UndoError::FileNotFound(p)) && p@ == path@,
            },
    {
        match self.get(path) {
            Some(v) => Ok(v),
            None => Err(UndoError::FileNotFound(path.to_owned())),
        }
    }

    fn snapshot_state(&self, snapshot: &u64) -> (r: u64)
        ensures
            r == *snapshot,
    {
        *snapshot
    }

    fn restore(&mut self, path: &str, snapshot: &u64) -> (r: Result<u64, UndoError>)
        ensures
            match old(self).content(path@) {
                Some(v) => {
                    &&& r == Ok::<u64, UndoError>(v)
                    &&& final(self).content(path@) == Some(*snapshot)
                    &&& forall|q: Seq<char>| q != path@ ==> #[trigger] final(self).content(q) == old(self).content(q)
                },
                None => r matches Err(UndoError::FileNotFound(p)) && p@ == path@ && forall|q: Seq<char>|
                    #[trigger] final(self).content(q) == old(self).content(q),
            },
            old(self).wf() ==> final(self).wf(),
    {
        match position(&self.files, path) {
            Some(i) => {
                let previous = self.files[i].1;
                let ghost v0 = self.files@;
                self.files.set(i, (path.to_owned(), *snapshot));
                proof {
                    let v1 = self.files@;
                    lookup_skip_at(v0, v1, i as int, path@);
                    assert forall|q: Seq<char>| q != path@ implies #[trigger] lookup(v1, q) == lookup(v0, q) by {
                        lookup_same_except(v0, v1, i as int, q);
                    }
                    if keys_distinct(v0) {
                        assert forall|a: int, b: int| 0 <= a < b < v1.len() implies v1[a].0@ != v1[b].0@ by {
                            if a != i {
                                assert(v1[a] == v0[a]);
                            }
                            if b != i {
                                assert(v1[b] == v0[b]);
                            }
                        }
                    }
                }
                Ok(previous)
            },
            None => Err(UndoError::FileNotFound(path.to_owned())),
        }
    }
}

} // verus!

verus! {

/// Setting the value at the first entry of key `k` makes the lookup of `k`
/// give it.
proof fn lookup_skip_at<T>(a: Seq<(String, T)>, b: Seq<(String, T)>, i: int, k: Seq<char>)
    requires
        0 <= i < a.len(),
        b.len() == a.len(),
        forall|j: int| 0 <= j < b.len() && j != i ==> (#[trigger] b[j]) == a[j],
        forall|j: int| 0 <= j < i ==> (#[trigger] a[j]).0@ != k,
        b[i].0@ == k,
    ensures
        lookup(b, k) == Some(b[i].1),
{
    assert forall|j: int| 0 <= j < i implies (#[trigger] b[j]).0@ != k by {
        assert(b[j] == a[j]);
    }
    lemma_lookup_skip(b, k, i);
    assert(b.subrange(i, b.len() as int)[0] == b[i]);
}

} // verus!
