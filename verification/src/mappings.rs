//! Links between string ids and numeric ids: a numeric id is taken from the
//! configured ranges the first time a string id is asked for, and stays linked
//! to it.
use vstd::prelude::*;

verus! {

/// A range of ids `start..=end` being handed out, as `RangeInclusive<i64>`
/// does: once its last value is out it is exhausted.
#[derive(Debug, Clone, Copy, PartialEq, Eq)]
pub struct IdRange {
    pub start: i64,
    pub end: i64,
    pub exhausted: bool,
}

impl IdRange {
    /// The values still to come, in order.
    pub open spec fn values(self) -> Seq<i64> {
        if self.exhausted || self.start > self.end {
            Seq::empty()
        } else {
            Seq::new((self.end - self.start + 1) as nat, |k: int| (self.start + k) as i64)
        }
    }

    /// A fresh range.
    pub fn new(start: i64, end: i64) -> (r: Self)
        ensures
            r.start == start,
            r.end == end,
            !r.exhausted,
    {
        IdRange { start, end, exhausted: false }
    }

    /// The next value (`Iterator::next` of `RangeInclusive`).
    pub fn next(&mut self) -> (r: Option<i64>)
        ensures
            old(self).values().len() == 0 ==> r is None && final(self).values().len() == 0,
            old(self).values().len() > 0 ==> r == Some(old(self).values()[0]) && final(self).values()
                == old(self).values().drop_first(),
    {
        if self.exhausted || self.start > self.end {
            return None;
        }
        let ghost v0 = self.values();
        if self.start < self.end {
            let n = self.start;
            self.start = self.start + 1;
            assert(self.values() =~= v0.drop_first());
            Some(n)
        } else {
            self.exhausted = true;
            assert(self.values() =~= v0.drop_first());
            Some(self.start)
        }
    }
}

/// The ids still to come from the ranges, range after range.
pub open spec fn pending(rs: Seq<IdRange>) -> Seq<i64>
    decreases rs.len(),
{
    if rs.len() == 0 {
        Seq::empty()
    } else {
        rs[0].values() + pending(rs.drop_first())
    }
}

/// What a string id is linked to.
#[derive(Debug, Clone, Copy, PartialEq, Eq)]
pub struct MappingEntry {
    pub id: i64,
    /// Whether the link is saved.
    pub persistent: bool,
}

/// Why an id could not be had.
#[derive(Debug, Clone, PartialEq, Eq)]
pub enum MappingError {
    /// No ranges of ids are configured.
    NoRanges,
    /// Every id of the ranges is taken.
    NoFreeIds,
    /// The string id was already created in this session.
    AlreadyTaken(String),
    /// The string id was not created in this session.
    NotCreated(String),
    /// The string id has no numeric id.
    DoesNotExist(String),
}

/// Links between string ids and numeric ids.
pub struct Mappings {
    ids: Vec<(String, MappingEntry)>,
    /// String ids created in this session.
    currently_created: Vec<String>,
    /// Every numeric id in use.
    occupied_ids: Vec<i64>,
    /// The ranges ids are taken from, partly used.
    available_ids: Vec<IdRange>,
    /// The ranges as configured.
    default_ranges: Vec<PackedRange>,
}

/// A configured range of ids, `start..=end`.
#[derive(Debug, Clone, Copy, PartialEq, Eq)]
pub struct PackedRange {
    pub start: i64,
    pub end: i64,
}

/// The ranges as they are first handed out.
pub open spec fn fresh_ranges(rs: Seq<PackedRange>) -> Seq<IdRange> {
    rs.map_values(|r: PackedRange| IdRange { start: r.start, end: r.end, exhausted: false })
}

/// The string ids of a list.
pub open spec fn string_set(v: Seq<String>) -> Set<Seq<char>> {
    Set::new(|t: Seq<char>| exists|i: int| 0 <= i < v.len() && v[i]@ == t)
}

pub open spec fn first_link(ids: Seq<(String, MappingEntry)>, s: Seq<char>) -> Option<MappingEntry>
    decreases ids.len(),
{
    if ids.len() == 0 {
        None
    } else if ids[0].0@ == s {
        Some(ids[0].1)
    } else {
        first_link(ids.drop_first(), s)
    }
}

impl Mappings {
    /// The numeric id linked to string id `s`.
    pub closed spec fn link(&self, s: Seq<char>) -> Option<MappingEntry> {
        first_link(self.ids@, s)
    }

    /// The string ids created in this session.
    pub closed spec fn created(&self) -> Set<Seq<char>> {
        string_set(self.currently_created@)
    }

    /// The numeric ids in use.
    pub closed spec fn occupied(&self) -> Set<i64> {
        self.occupied_ids@.to_set()
    }

    /// The ids still to be handed out, in order.
    pub closed spec fn pending(&self) -> Seq<i64> {
        pending(self.available_ids@)
    }

    /// There are ranges to take ids from (used up or not).
    pub closed spec fn has_ranges(&self) -> bool {
        self.available_ids@.len() > 0
    }

    /// The ranges as configured.
    pub closed spec fn default_ranges(&self) -> Seq<PackedRange> {
        self.default_ranges@
    }

    /// Every string id has one link, and every linked numeric id is in use.
    pub closed spec fn wf(&self) -> bool {
        &&& distinct_keys(self.ids@)
        &&& forall|i: int| 0 <= i < self.ids@.len() ==> self.occupied_ids@.contains(#[trigger] self.ids@[i].1.id)
    }

    /// No two string ids are linked to one numeric id.
    pub closed spec fn injective(&self) -> bool {
        forall|i: int, j: int| 0 <= i < j < self.ids@.len() ==> self.ids@[i].1.id != self.ids@[j].1.id
    }
}

pub open spec fn distinct_keys(ids: Seq<(String, MappingEntry)>) -> bool {
    forall|i: int, j: int| 0 <= i < j < ids.len() ==> ids[i].0@ != ids[j].0@
}

/// Index of the first id of `p` that is not in `occ` (`p.len()` if none).
pub open spec fn first_free(p: Seq<i64>, occ: Set<i64>) -> nat
    decreases p.len(),
{
    if p.len() == 0 {
        0
    } else if !occ.contains(p[0]) {
        0
    } else {
        1 + first_free(p.drop_first(), occ)
    }
}

} // verus!

verus! {

proof fn lemma_pending_skip(rs: Seq<IdRange>, i: int)
    requires
        0 <= i <= rs.len(),
        forall|j: int| 0 <= j < i ==> (#[trigger] rs[j]).values().len() == 0,
    ensures
        pending(rs) == pending(rs.subrange(i, rs.len() as int)),
    decreases i,
{
    if i > 0 {
        let t = rs.drop_first();
        assert forall|j: int| 0 <= j < i - 1 implies (#[trigger] t[j]).values().len() == 0 by {
            assert(t[j] == rs[j + 1]);
        }
        lemma_pending_skip(t, i - 1);
        assert(t.subrange(i - 1, t.len() as int) =~= rs.subrange(i, rs.len() as int));
        assert(rs[0].values() =~= Seq::<i64>::empty());
        assert(pending(rs) == rs[0].values() + pending(t));
        assert(Seq::<i64>::empty() + pending(t) =~= pending(t));
    } else {
        assert(rs.subrange(0, rs.len() as int) =~= rs);
    }
}

/// Takes the next pending id out of the ranges.
fn take_next(ranges: &mut Vec<IdRange>) -> (r: Option<i64>)
    ensures
        final(ranges)@.len() == old(ranges)@.len(),
        pending(old(ranges)@).len() == 0 ==> r is None && pending(final(ranges)@).len() == 0,
        pending(old(ranges)@).len() > 0 ==> r == Some(pending(old(ranges)@)[0]) && pending(final(ranges)@)
            == pending(old(ranges)@).drop_first(),
{
    let ghost p0 = pending(ranges@);
    let mut i: usize = 0;
    while i < ranges.len()
        invariant
            i <= ranges@.len(),
            ranges@.len() == old(ranges)@.len(),
            forall|j: int| 0 <= j < i ==> (#[trigger] ranges@[j]).values().len() == 0,
            pending(ranges@) == p0,
            p0 == pending(old(ranges)@),
        decreases ranges.len() - i,
    {
        let mut r = ranges[i];
        let ghost before = ranges@;
        proof {
            lemma_pending_skip(before, i as int);
            assert(before.subrange(i as int, before.len() as int).drop_first() =~= before.subrange(i + 1, before.len() as int));
        }
        let v = r.next();
        ranges.set(i, r);
        proof {
            let after = ranges@;
            assert forall|j: int| 0 <= j < i implies (#[trigger] after[j]).values().len() == 0 by {
                assert(after[j] == before[j]);
            }
            lemma_pending_skip(after, i as int);
            assert(after.subrange(i as int, after.len() as int).drop_first() =~= after.subrange(i + 1, after.len() as int));
            assert(after.subrange(i + 1, after.len() as int) =~= before.subrange(i + 1, before.len() as int));
            assert(pending(after.subrange(i as int, after.len() as int)) == after[i as int].values() + pending(
                after.subrange(i + 1, after.len() as int),
            ));
            assert(pending(before.subrange(i as int, before.len() as int)) == before[i as int].values() + pending(
                before.subrange(i + 1, before.len() as int),
            ));
        }
        match v {
            Some(x) => {
                proof {
                    let after = ranges@;
                    let rest = pending(before.subrange(i + 1, before.len() as int));
                    assert(p0 == before[i as int].values() + rest);
                    assert(pending(after) == after[i as int].values() + rest);
                    assert(after[i as int].values() == before[i as int].values().drop_first());
                    assert(p0[0] == x);
                    assert(pending(after) =~= p0.drop_first());
                }
                return Some(x);
            },
            None => {
                proof {
                    let after = ranges@;
                    assert(after[i as int].values().len() == 0);
                    assert(pending(after) =~= pending(before)) by {
                        assert(before[i as int].values().len() == 0);
                        assert(before[i as int].values() + pending(before.subrange(i + 1, before.len() as int)) =~= pending(
                            before.subrange(i + 1, before.len() as int),
                        ));
                        assert(after[i as int].values() + pending(after.subrange(i + 1, after.len() as int)) =~= pending(
                            after.subrange(i + 1, after.len() as int),
                        ));
                    }
                }
            },
        }
        i = i + 1;
    }
    proof {
        lemma_pending_skip(ranges@, ranges@.len() as int);
        assert(ranges@.subrange(ranges@.len() as int, ranges@.len() as int) =~= Seq::<IdRange>::empty());
    }
    None
}

fn contains_id(v: &Vec<i64>, x: i64) -> (r: bool)
    ensures
        r == v@.contains(x),
{
    let mut i: usize = 0;
    while i < v.len()
        invariant
            i <= v@.len(),
            forall|j: int| 0 <= j < i ==> v@[j] != x,
        decreases v.len() - i,
    {
        if v[i] == x {
            return true;
        }
        i = i + 1;
    }
    false
}

proof fn lemma_first_free(p: Seq<i64>, occ: Set<i64>, c: int)
    requires
        0 <= c <= p.len(),
        forall|j: int| 0 <= j < c ==> occ.contains(#[trigger] p[j]),
        c < p.len() ==> !occ.contains(p[c]),
    ensures
        first_free(p, occ) == c,
    decreases c,
{
    if c > 0 {
        let t = p.drop_first();
        assert forall|j: int| 0 <= j < c - 1 implies occ.contains(#[trigger] t[j]) by {
            assert(t[j] == p[j + 1]);
        }
        if c - 1 < t.len() {
            assert(t[c - 1] == p[c]);
        }
        lemma_first_free(t, occ, c - 1);
    }
}

proof fn lemma_first_free_bound(p: Seq<i64>, occ: Set<i64>)
    ensures
        first_free(p, occ) <= p.len(),
        forall|j: int| 0 <= j < first_free(p, occ) ==> occ.contains(#[trigger] p[j]),
        first_free(p, occ) < p.len() ==> !occ.contains(p[first_free(p, occ) as int]),
    decreases p.len(),
{
    if p.len() > 0 && occ.contains(p[0]) {
        let t = p.drop_first();
        lemma_first_free_bound(t, occ);
        assert forall|j: int| 0 <= j < first_free(p, occ) implies occ.contains(#[trigger] p[j]) by {
            if j > 0 {
                assert(p[j] == t[j - 1]);
            }
        }
        if first_free(p, occ) < p.len() {
            assert(p[first_free(p, occ) as int] == t[first_free(t, occ) as int]);
        }
    }
}

/// Takes the first pending id that is not in use, and marks it used; the ids
/// passed over (in use) are used up too.
pub fn next_id_raw(available_ids: &mut Vec<IdRange>, occupied_ids: &mut Vec<i64>) -> (r: Result<i64, MappingError>)
    ensures
        final(available_ids)@.len() == old(available_ids)@.len(),
        ({
            let p = pending(old(available_ids)@);
            let k = first_free(p, old(occupied_ids)@.to_set()) as int;
            &&& k <= p.len()
            &&& old(available_ids)@.len() == 0 ==> r == Err::<i64, MappingError>(MappingError::NoRanges)
                && final(available_ids)@ == old(available_ids)@ && final(occupied_ids)@ == old(occupied_ids)@
            &&& old(available_ids)@.len() > 0 && k < p.len() ==> r == Ok::<i64, MappingError>(p[k])
                && !old(occupied_ids)@.contains(p[k])
                && pending(final(available_ids)@) == p.subrange(k + 1, p.len() as int)
                && final(occupied_ids)@ == old(occupied_ids)@.push(p[k])
            &&& old(available_ids)@.len() > 0 && k == p.len() ==> r == Err::<i64, MappingError>(MappingError::NoFreeIds)
                && pending(final(available_ids)@).len() == 0 && final(occupied_ids)@ == old(occupied_ids)@
        }),
{
    proof {
        lemma_first_free_bound(pending(available_ids@), occupied_ids@.to_set());
    }
    if available_ids.len() == 0 {
        return Err(MappingError::NoRanges);
    }
    let ghost p0 = pending(available_ids@);
    let ghost c: int = 0;
    loop
        invariant
            available_ids@.len() == old(available_ids)@.len(),
            old(available_ids)@.len() > 0,
            p0 == pending(old(available_ids)@),
            0 <= c <= p0.len(),
            pending(available_ids@) == p0.subrange(c, p0.len() as int),
            forall|j: int| 0 <= j < c ==> occupied_ids@.contains(#[trigger] p0[j]),
            occupied_ids@ == old(occupied_ids)@,
        decreases p0.len() - c,
    {
        let ghost before = pending(available_ids@);
        match take_next(available_ids) {
            None => {
                assert(c == p0.len());
                proof {
                    lemma_first_free(p0, occupied_ids@.to_set(), c);
                }
                return Err(MappingError::NoFreeIds);
            },
            Some(id) => {
                proof {
                    assert(before[0] == p0[c]);
                    assert(pending(available_ids@) =~= p0.subrange(c + 1, p0.len() as int));
                }
                if !contains_id(occupied_ids, id) {
                    proof {
                        lemma_first_free(p0, occupied_ids@.to_set(), c);
                    }
                    occupied_ids.push(id);
                    return Ok(id);
                }
                proof {
                    c = c + 1;
                }
            },
        }
    }
}

} // verus!

verus! {

proof fn lemma_link_skip(ids: Seq<(String, MappingEntry)>, s: Seq<char>, i: int)
    requires
        0 <= i <= ids.len(),
        forall|j: int| 0 <= j < i ==> (#[trigger] ids[j]).0@ != s,
    ensures
        first_link(ids, s) == first_link(ids.subrange(i, ids.len() as int), s),
    decreases i,
{
    if i > 0 {
        let t = ids.drop_first();
        assert forall|j: int| 0 <= j < i - 1 implies (#[trigger] t[j]).0@ != s by {
            assert(t[j] == ids[j + 1]);
        }
        lemma_link_skip(t, s, i - 1);
        assert(t.subrange(i - 1, t.len() as int) =~= ids.subrange(i, ids.len() as int));
    } else {
        assert(ids.subrange(0, ids.len() as int) =~= ids);
    }
}

proof fn lemma_link_none(ids: Seq<(String, MappingEntry)>, s: Seq<char>)
    ensures
        (first_link(ids, s) is None) <==> (forall|j: int| 0 <= j < ids.len() ==> (#[trigger] ids[j]).0@ != s),
    decreases ids.len(),
{
    if ids.len() > 0 {
        let t = ids.drop_first();
        lemma_link_none(t, s);
        if ids[0].0@ != s {
            assert forall|j: int| 0 <= j < t.len() implies (#[trigger] t[j]).0@ == ids[j + 1].0@ by {}
            if first_link(t, s) is None {
                assert forall|j: int| 0 <= j < ids.len() implies (#[trigger] ids[j]).0@ != s by {
                    if j > 0 {
                        assert(ids[j] == t[j - 1]);
                    }
                }
            } else {
                let j = choose|j: int| 0 <= j < t.len() && (#[trigger] t[j]).0@ == s;
                assert(ids[j + 1] == t[j]);
            }
        }
    }
}

proof fn lemma_link_at(ids: Seq<(String, MappingEntry)>, i: int)
    requires
        distinct_keys(ids),
        0 <= i < ids.len(),
    ensures
        first_link(ids, ids[i].0@) == Some(ids[i].1),
{
    let s = ids[i].0@;
    lemma_link_skip(ids, s, i);
    let t = ids.subrange(i, ids.len() as int);
    assert(t[0] == ids[i]);
}

proof fn lemma_link_some(ids: Seq<(String, MappingEntry)>, s: Seq<char>) -> (i: int)
    requires
        first_link(ids, s) is Some,
    ensures
        0 <= i < ids.len(),
        ids[i].0@ == s,
        first_link(ids, s) == Some(ids[i].1),
    decreases ids.len(),
{
    if ids[0].0@ == s {
        0
    } else {
        let t = ids.drop_first();
        let k = lemma_link_some(t, s);
        assert(t[k] == ids[k + 1]);
        k + 1
    }
}

proof fn lemma_link_push(ids: Seq<(String, MappingEntry)>, x: (String, MappingEntry), s: Seq<char>)
    ensures
        first_link(ids.push(x), s) == (if first_link(ids, s) is Some {
            first_link(ids, s)
        } else if x.0@ == s {
            Some(x.1)
        } else {
            None
        }),
    decreases ids.len(),
{
    if ids.len() == 0 {
        assert(ids.push(x).drop_first() =~= Seq::<(String, MappingEntry)>::empty());
        assert(ids.push(x)[0] == x);
        assert(first_link(ids.push(x).drop_first(), s) is None);
    } else {
        assert(ids.push(x).drop_first() =~= ids.drop_first().push(x));
        assert(ids.push(x)[0] == ids[0]);
        lemma_link_push(ids.drop_first(), x, s);
    }
}

/// Whether `s` is among the string ids of `v`.
fn has_string(v: &Vec<String>, s: &String) -> (r: bool)
    ensures
        r == string_set(v@).contains(s@),
{
    let mut i: usize = 0;
    while i < v.len()
        invariant
            i <= v@.len(),
            forall|j: int| 0 <= j < i ==> (#[trigger] v@[j])@ != s@,
        decreases v.len() - i,
    {
        if v[i] == *s {
            assert(string_set(v@).contains(s@));
            return true;
        }
        i = i + 1;
    }
    false
}

/// The index of the link of `s`, if it has one.
fn find_link(ids: &Vec<(String, MappingEntry)>, s: &String) -> (r: Option<usize>)
    ensures
        match r {
            Some(i) => i < ids@.len() && ids@[i as int].0@ == s@ && first_link(ids@, s@) == Some(ids@[i as int].1),
            None => first_link(ids@, s@) is None,
        },
{
    let mut i: usize = 0;
    while i < ids.len()
        invariant
            i <= ids@.len(),
            forall|j: int| 0 <= j < i ==> (#[trigger] ids@[j]).0@ != s@,
        decreases ids.len() - i,
    {
        if ids[i].0 == *s {
            proof {
                lemma_link_skip(ids@, s@, i as int);
                assert(ids@.subrange(i as int, ids@.len() as int)[0] == ids@[i as int]);
            }
            return Some(i);
        }
        i = i + 1;
    }
    proof {
        lemma_link_none(ids@, s@);
    }
    None
}

} // verus!

verus! {

/// An entry that is there and saved.
pub open spec fn is_persistent(o: Option<MappingEntry>) -> bool {
    o matches Some(e) && e.persistent
}

/// `m1` links, uses and has pending the same ids as `m0`.
pub open spec fn same_ids(m0: Mappings, m1: Mappings) -> bool {
    &&& forall|t: Seq<char>| #[trigger] m1.link(t) == m0.link(t)
    &&& m1.occupied() == m0.occupied()
    &&& m1.pending() == m0.pending()
}

/// What asking `m0` for the numeric id of `s` gives (`r`) and leaves (`m1`):
/// the id `s` is linked to; else the first pending id that is not in use,
/// now linked to `s` and in use (the pending ids before it, all in use, are
/// used up); else an error, when no ranges are configured or no pending id
/// is free.
pub open spec fn id_outcome(m0: Mappings, m1: Mappings, s: Seq<char>, persistent: bool, r: Result<i64, MappingError>) -> bool {
    let p = m0.pending();
    let k = first_free(p, m0.occupied()) as int;
    &&& m1.default_ranges() == m0.default_ranges()
    &&& m1.has_ranges() == m0.has_ranges()
    &&& match m0.link(s) {
        Some(e) => r == Ok::<i64, MappingError>(e.id) && same_ids(m0, m1),
        None => if !m0.has_ranges() {
            r == Err::<i64, MappingError>(MappingError::NoRanges) && same_ids(m0, m1)
        } else if k < p.len() {
            &&& r == Ok::<i64, MappingError>(p[k])
            &&& !m0.occupied().contains(p[k])
            &&& m1.link(s) == Some(MappingEntry { id: p[k], persistent })
            &&& forall|t: Seq<char>| t != s ==> #[trigger] m1.link(t) == m0.link(t)
            &&& m1.occupied() == m0.occupied().insert(p[k])
            &&& m1.pending() == p.subrange(k + 1, p.len() as int)
        } else {
            &&& r == Err::<i64, MappingError>(MappingError::NoFreeIds)
            &&& forall|t: Seq<char>| #[trigger] m1.link(t) == m0.link(t)
            &&& m1.occupied() == m0.occupied()
            &&& m1.pending().len() == 0
        },
    }
}

proof fn lemma_string_set_push(v: Seq<String>, x: String)
    ensures
        string_set(v.push(x)) == string_set(v).insert(x@),
{
    let a = string_set(v.push(x));
    let b = string_set(v).insert(x@);
    assert forall|t: Seq<char>| a.contains(t) implies b.contains(t) by {
        let i = choose|i: int| 0 <= i < v.push(x).len() && v.push(x)[i]@ == t;
        if i < v.len() {
            assert(v.push(x)[i] == v[i]);
        }
    }
    assert forall|t: Seq<char>| b.contains(t) implies a.contains(t) by {
        if t == x@ {
            assert(v.push(x)[v.len() as int] == x);
        } else {
            let i = choose|i: int| 0 <= i < v.len() && v[i]@ == t;
            assert(v.push(x)[i] == v[i]);
        }
    }
    assert(a =~= b);
}

impl Mappings {
    /// Mappings with no links, handing out ids from `ranges` in order.
    pub fn new(ranges: Vec<PackedRange>) -> (m: Self)
        ensures
            m.wf(),
            m.injective(),
            forall|t: Seq<char>| #[trigger] m.link(t) is None,
            m.created() == Set::<Seq<char>>::empty(),
            m.occupied() == Set::<i64>::empty(),
            m.pending() == pending(fresh_ranges(ranges@)),
            m.default_ranges() == ranges@,
            m.has_ranges() == (ranges@.len() > 0),
    {
        let mut available: Vec<IdRange> = Vec::new();
        let mut i: usize = 0;
        while i < ranges.len()
            invariant
                i <= ranges@.len(),
                available@ == fresh_ranges(ranges@).subrange(0, i as int),
            decreases ranges.len() - i,
        {
            available.push(IdRange::new(ranges[i].start, ranges[i].end));
            i = i + 1;
            assert(available@ =~= fresh_ranges(ranges@).subrange(0, i as int));
        }
        assert(available@ =~= fresh_ranges(ranges@));
        let m = Mappings {
            ids: Vec::new(),
            currently_created: Vec::new(),
            occupied_ids: Vec::new(),
            available_ids: available,
            default_ranges: ranges,
        };
        assert(m.created() =~= Set::<Seq<char>>::empty());
        assert(m.occupied() =~= Set::<i64>::empty());
        m
    }

    /// The numeric id linked to `id`; if there is none, the first pending id
    /// that is not in use is linked to it.
    pub fn get_id_raw(&mut self, id: String, persistent: bool) -> (r: Result<i64, MappingError>)
        requires
            old(self).wf(),
        ensures
            final(self).wf(),
            old(self).injective() ==> final(self).injective(),
            final(self).created() == old(self).created(),
            id_outcome(*old(self), *final(self), id@, persistent, r),
    {
        match find_link(&self.ids, &id) {
            Some(i) => Ok(self.ids[i].1.id),
            None => {
                proof {
                    lemma_link_none(self.ids@, id@);
                }
                let ghost ids0 = self.ids@;
                let ghost occ0 = self.occupied_ids@;
                match next_id_raw(&mut self.available_ids, &mut self.occupied_ids) {
                    Ok(v) => {
                        let entry = MappingEntry { id: v, persistent };
                        let ghost key = id@;
                        self.ids.push((id, entry));
                        proof {
                            occ0.lemma_push_to_set_commute(v);
                            assert forall|t: Seq<char>| #[trigger] self.link(t) == (if first_link(ids0, t) is Some {
                                first_link(ids0, t)
                            } else if key == t {
                                Some(entry)
                            } else {
                                None
                            }) by {
                                lemma_link_push(ids0, self.ids@.last(), t);
                                assert(ids0.push(self.ids@.last()) =~= self.ids@);
                            }
                            assert forall|t: Seq<char>| t != key implies #[trigger] self.link(t) == first_link(ids0, t) by {
                                if first_link(ids0, t) is None {
                                    assert(self.link(t) is None);
                                }
                            }
                            assert(self.link(key) == Some(entry));
                            assert forall|j: int| 0 <= j < self.ids@.len() implies self.occupied_ids@.contains(
                                #[trigger] self.ids@[j].1.id,
                            ) by {
                                if j < ids0.len() {
                                    assert(self.ids@[j] == ids0[j]);
                                    assert(occ0.contains(ids0[j].1.id));
                                    assert(self.occupied_ids@ == occ0.push(v));
                                    assert(self.occupied_ids@[occ0.len() as int] == v);
                                    let w = choose|w: int| 0 <= w < occ0.len() && occ0[w] == ids0[j].1.id;
                                    assert(self.occupied_ids@[w] == occ0[w]);
                                } else {
                                    assert(self.occupied_ids@[occ0.len() as int] == v);
                                }
                            }
                            assert forall|a: int, b: int| 0 <= a < b < self.ids@.len() implies self.ids@[a].0@
                                != self.ids@[b].0@ by {
                                if b == ids0.len() {
                                    assert(self.ids@[a] == ids0[a]);
                                } else {
                                    assert(self.ids@[a] == ids0[a]);
                                    assert(self.ids@[b] == ids0[b]);
                                }
                            }
                            if forall|a: int, b: int| 0 <= a < b < ids0.len() ==> ids0[a].1.id != ids0[b].1.id {
                                assert forall|a: int, b: int| 0 <= a < b < self.ids@.len() implies self.ids@[a].1.id
                                    != self.ids@[b].1.id by {
                                    assert(self.ids@[a] == ids0[a]);
                                    if b == ids0.len() {
                                        assert(occ0.contains(ids0[a].1.id));
                                    } else {
                                        assert(self.ids@[b] == ids0[b]);
                                    }
                                }
                            }
                        }
                        Ok(v)
                    },
                    Err(e) => Err(e),
                }
            },
        }
    }

    /// Links `id` as `get_id_raw` does, once per session: a string id that
    /// was already created in this session is refused.
    pub fn new_id(&mut self, id: String, persistent: bool) -> (r: Result<i64, MappingError>)
        requires
            old(self).wf(),
        ensures
            final(self).wf(),
            old(self).injective() ==> final(self).injective(),
            old(self).created().contains(id@) ==> (r matches Err(MappingError::AlreadyTaken(t)) && t@ == id@)
                && same_ids(*old(self), *final(self)) && final(self).created() == old(self).created()
                && final(self).default_ranges() == old(self).default_ranges() && final(self).has_ranges()
                == old(self).has_ranges(),
            !old(self).created().contains(id@) ==> final(self).created() == old(self).created().insert(id@)
                && id_outcome(*old(self), *final(self), id@, persistent, r),
    {
        if has_string(&self.currently_created, &id) {
            return Err(MappingError::AlreadyTaken(id));
        }
        let ghost created0 = self.currently_created@;
        self.currently_created.push(id.clone());
        proof {
            lemma_string_set_push(created0, id);
        }
        self.get_id_raw(id, persistent)
    }

    /// The numeric id linked to `id`, which must have been created in this
    /// session.
    pub fn existing_id(&self, id: &str) -> (r: Result<i64, MappingError>)
        ensures
            !self.created().contains(id@) ==> (r matches Err(MappingError::NotCreated(t)) && t@ == id@),
            self.created().contains(id@) ==> match self.link(id@) {
                Some(e) => r == Ok::<i64, MappingError>(e.id),
                None => r matches Err(MappingError::DoesNotExist(t)) && t@ == id@,
            },
    {
        let owned = id.to_owned();
        if !has_string(&self.currently_created, &owned) {
            return Err(MappingError::NotCreated(owned));
        }
        match find_link(&self.ids, &owned) {
            Some(i) => Ok(self.ids[i].1.id),
            None => Err(MappingError::DoesNotExist(owned)),
        }
    }

    /// Whether any link is saved.
    pub fn has_persistent_ids(&self) -> (r: bool)
        requires
            self.wf(),
        ensures
            r == exists|t: Seq<char>| is_persistent(#[trigger] self.link(t)),
    {
        let mut i: usize = 0;
        while i < self.ids.len()
            invariant
                i <= self.ids@.len(),
                self.wf(),
                forall|j: int| 0 <= j < i ==> !(#[trigger] self.ids@[j]).1.persistent,
            decreases self.ids.len() - i,
        {
            if self.ids[i].1.persistent {
                proof {
                    lemma_link_at(self.ids@, i as int);
                    assert(is_persistent(self.link(self.ids@[i as int].0@)));
                }
                return true;
            }
            i = i + 1;
        }
        proof {
            assert forall|t: Seq<char>| !is_persistent(#[trigger] self.link(t)) by {
                if self.link(t) is Some {
                    let j = lemma_link_some(self.ids@, t);
                }
            }
        }
        false
    }
}

} // verus!

verus! {

/// The saved form of mappings: the saved links and the configured ranges.
pub struct PackedMappings {
    pub values: Vec<(String, i64)>,
    pub ranges: Vec<PackedRange>,
}

/// No string id occurs twice.
pub open spec fn distinct_names(v: Seq<(String, i64)>) -> bool {
    forall|i: int, j: int| 0 <= i < j < v.len() ==> v[i].0@ != v[j].0@
}

/// The numeric ids of the saved links.
pub open spec fn saved_ids(v: Seq<(String, i64)>) -> Set<i64> {
    Set::new(|x: i64| exists|i: int| 0 <= i < v.len() && v[i].1 == x)
}

/// `p` is what `m` saves: its configured ranges, and its saved links, each
/// once.
pub open spec fn saves(m: Mappings, p: PackedMappings) -> bool {
    &&& p.ranges@ == m.default_ranges()
    &&& distinct_names(p.values@)
    &&& forall|i: int|
        0 <= i < p.values@.len() ==> m.link(#[trigger] p.values@[i].0@) == Some(
            MappingEntry { id: p.values@[i].1, persistent: true },
        )
    &&& forall|t: Seq<char>|
        is_persistent(#[trigger] m.link(t)) ==> exists|i: int|
            0 <= i < p.values@.len() && (#[trigger] p.values@[i]).0@ == t
}

/// `m` is what loading `p` gives: the saved links, all saved and all in use,
/// nothing created yet, ids pending from the configured ranges afresh.
pub open spec fn loads(p: PackedMappings, m: Mappings) -> bool {
    &&& m.wf()
    &&& m.injective() <==> (forall|i: int, j: int|
        0 <= i < j < p.values@.len() ==> p.values@[i].1 != p.values@[j].1)
    &&& forall|i: int|
        0 <= i < p.values@.len() ==> m.link(#[trigger] p.values@[i].0@) == Some(
            MappingEntry { id: p.values@[i].1, persistent: true },
        )
    &&& forall|t: Seq<char>|
        (forall|i: int| 0 <= i < p.values@.len() ==> (#[trigger] p.values@[i]).0@ != t) ==> (
        #[trigger] m.link(t)) is None
    &&& m.created() == Set::<Seq<char>>::empty()
    &&& m.occupied() == saved_ids(p.values@)
    &&& m.pending() == pending(fresh_ranges(p.ranges@))
    &&& m.default_ranges() == p.ranges@
    &&& m.has_ranges() == (p.ranges@.len() > 0)
}

impl PackedMappings {
    /// Mappings whose links are the saved ones, all saved, with nothing
    /// created yet and every saved id in use.
    pub fn into_mappings(self) -> (m: Mappings)
        requires
            distinct_names(self.values@),
        ensures
            loads(self, m),
    {
        let values = self.values;
        let mut ids: Vec<(String, MappingEntry)> = Vec::new();
        let mut occupied: Vec<i64> = Vec::new();
        let mut i: usize = 0;
        while i < values.len()
            invariant
                i <= values@.len(),
                ids@.len() == i,
                occupied@.len() == i,
                forall|j: int|
                    0 <= j < i ==> (#[trigger] ids@[j]).0 == values@[j].0 && ids@[j].1 == (MappingEntry {
                        id: values@[j].1,
                        persistent: true,
                    }) && occupied@[j] == values@[j].1,
            decreases values.len() - i,
        {
            let name = values[i].0.clone();
            ids.push((name, MappingEntry { id: values[i].1, persistent: true }));
            occupied.push(values[i].1);
            i = i + 1;
        }
        let base = Mappings::new(self.ranges);
        let ghost ids_g = ids@;
        let ghost occ_g = occupied@;
        assert(forall|j: int| 0 <= j < values@.len() ==> ids_g[j].0 == values@[j].0 && ids_g[j].1 == (MappingEntry {
            id: values@[j].1,
            persistent: true,
        }) && occ_g[j] == values@[j].1);
        let m = Mappings {
            ids,
            currently_created: Vec::new(),
            occupied_ids: occupied,
            available_ids: base.available_ids,
            default_ranges: base.default_ranges,
        };
        proof {
            assert forall|a: int, b: int| 0 <= a < b < m.ids@.len() implies m.ids@[a].0@ != m.ids@[b].0@ by {
                assert(m.ids@[a].0 == values@[a].0);
                assert(m.ids@[b].0 == values@[b].0);
            }
            assert forall|j: int| 0 <= j < m.ids@.len() implies m.occupied_ids@.contains(#[trigger] m.ids@[j].1.id) by {
                assert(m.occupied_ids@[j] == values@[j].1);
            }
            assert forall|j: int| 0 <= j < values@.len() implies m.link(#[trigger] values@[j].0@) == Some(
                MappingEntry { id: values@[j].1, persistent: true },
            ) by {
                lemma_link_at(m.ids@, j);
                assert(m.ids@[j].0 == values@[j].0);
            }
            assert forall|t: Seq<char>|
                (forall|j: int| 0 <= j < values@.len() ==> (#[trigger] values@[j]).0@ != t) implies (
                #[trigger] m.link(t)) is None by {
                lemma_link_none(m.ids@, t);
                assert forall|j: int| 0 <= j < m.ids@.len() implies (#[trigger] m.ids@[j]).0@ != t by {
                    assert(m.ids@[j].0 == values@[j].0);
                    assert(values@[j].0@ != t);
                }
            }
            if forall|a: int, b: int| 0 <= a < b < values@.len() ==> values@[a].1 != values@[b].1 {
                assert forall|a: int, b: int| 0 <= a < b < m.ids@.len() implies m.ids@[a].1.id != m.ids@[b].1.id by {
                    assert(m.ids@[a].1.id == values@[a].1);
                    assert(m.ids@[b].1.id == values@[b].1);
                }
            }
            if m.injective() {
                assert forall|a: int, b: int| 0 <= a < b < values@.len() implies values@[a].1 != values@[b].1 by {
                    assert(m.ids@[a].1.id == values@[a].1);
                    assert(m.ids@[b].1.id == values@[b].1);
                }
            }
            assert forall|x: i64| m.occupied().contains(x) <==> saved_ids(values@).contains(x) by {
                if m.occupied().contains(x) {
                    let j = choose|j: int| 0 <= j < m.occupied_ids@.len() && m.occupied_ids@[j] == x;
                    assert(values@[j].1 == x);
                }
                if saved_ids(values@).contains(x) {
                    let j = choose|j: int| 0 <= j < values@.len() && values@[j].1 == x;
                    assert(m.occupied_ids@[j] == x);
                }
            }
            assert(m.occupied() =~= saved_ids(values@));
            assert(m.created() =~= Set::<Seq<char>>::empty());
        }
        m
    }

    /// The saved links of `m` and its configured ranges.
    pub fn from_mappings(m: &Mappings) -> (p: Self)
        requires
            m.wf(),
        ensures
            saves(*m, p),
    {
        let mut values: Vec<(String, i64)> = Vec::new();
        let ghost mut src: Seq<int> = Seq::empty();
        let mut i: usize = 0;
        while i < m.ids.len()
            invariant
                i <= m.ids@.len(),
                m.wf(),
                src.len() == values@.len(),
                forall|k: int| 0 <= k < src.len() ==> 0 <= #[trigger] src[k] < i,
                forall|a: int, b: int| 0 <= a < b < src.len() ==> src[a] < src[b],
                forall|k: int|
                    0 <= k < src.len() ==> (#[trigger] values@[k]).0 == m.ids@[src[k]].0 && values@[k].1
                        == m.ids@[src[k]].1.id && m.ids@[src[k]].1.persistent,
                forall|j: int|
                    0 <= j < i && (#[trigger] m.ids@[j]).1.persistent ==> exists|k: int|
                        0 <= k < values@.len() && (#[trigger] values@[k]).0@ == m.ids@[j].0@,
            decreases m.ids.len() - i,
        {
            if m.ids[i].1.persistent {
                let name = m.ids[i].0.clone();
                let ghost v0 = values@;
                values.push((name, m.ids[i].1.id));
                proof {
                    src = src.push(i as int);
                    let k = values@.len() - 1;
                    assert(values@[k].0@ == m.ids@[i as int].0@);
                    assert forall|j: int|
                        0 <= j < i + 1 && (#[trigger] m.ids@[j]).1.persistent implies exists|k: int|
                        0 <= k < values@.len() && (#[trigger] values@[k]).0@ == m.ids@[j].0@ by {
                        if j < i {
                            let k2 = choose|k2: int| 0 <= k2 < v0.len() && (#[trigger] v0[k2]).0@ == m.ids@[j].0@;
                            assert(values@[k2] == v0[k2]);
                        } else {
                            assert(values@[k].0@ == m.ids@[j].0@);
                        }
                    }
                }
            }
            i = i + 1;
        }
        proof {
            assert forall|a: int, b: int| 0 <= a < b < values@.len() implies values@[a].0@ != values@[b].0@ by {
                assert(values@[a].0 == m.ids@[src[a]].0);
                assert(values@[b].0 == m.ids@[src[b]].0);
            }
            assert forall|k: int| 0 <= k < values@.len() implies m.link(#[trigger] values@[k].0@) == Some(
                MappingEntry { id: values@[k].1, persistent: true },
            ) by {
                lemma_link_at(m.ids@, src[k]);
                assert(values@[k].0 == m.ids@[src[k]].0);
            }
            assert forall|t: Seq<char>| is_persistent(#[trigger] m.link(t)) implies exists|k: int|
                0 <= k < values@.len() && (#[trigger] values@[k]).0@ == t by {
                let j = lemma_link_some(m.ids@, t);
                assert(m.ids@[j].1.persistent);
            }
        }
        PackedMappings { values, ranges: m.default_ranges.clone() }
    }
}

} // verus!

verus! {

/// Asking twice for the numeric id of one string id gives the same answer
/// the second time, and the second request changes nothing.
pub proof fn law_id_is_stable(
    m0: Mappings,
    m1: Mappings,
    m2: Mappings,
    s: Seq<char>,
    persistent1: bool,
    persistent2: bool,
    r1: Result<i64, MappingError>,
    r2: Result<i64, MappingError>,
)
    requires
        id_outcome(m0, m1, s, persistent1, r1),
        r1 is Ok,
        id_outcome(m1, m2, s, persistent2, r2),
    ensures
        r2 == r1,
        same_ids(m1, m2),
{
    assert(m1.link(s) is Some);
}

proof fn lemma_links_distinct(m: Mappings, t1: Seq<char>, t2: Seq<char>)
    requires
        m.wf(),
        m.injective(),
        t1 != t2,
        m.link(t1) is Some,
        m.link(t2) is Some,
    ensures
        m.link(t1)->0.id != m.link(t2)->0.id,
{
    let a = lemma_link_some(m.ids@, t1);
    let b = lemma_link_some(m.ids@, t2);
    assert(a != b);
    if a < b {
    } else {
    }
}

/// One step of a run of requests: `m1` is what asking `m0` for `s` leaves.
pub open spec fn id_step(m0: Mappings, m1: Mappings, s: Seq<char>, persistent: bool, r: Result<i64, MappingError>) -> bool {
    &&& id_outcome(m0, m1, s, persistent, r)
    &&& m1.wf()
    &&& m0.injective() ==> m1.injective()
}

/// What a run of requests, each made to what the one before left, has given
/// up to step `i`: each string answered so far stays linked to its answer,
/// the ids in use only grew, and the pending ids are a tail of the first.
pub open spec fn run_so_far(ms: Seq<Mappings>, ss: Seq<Seq<char>>, rs: Seq<Result<i64, MappingError>>, i: int) -> bool {
    &&& forall|a: int|
        0 <= a < i && rs[a] is Ok ==> (#[trigger] ms[i].link(ss[a])) is Some && rs[a] == Ok::<i64, MappingError>(
            ms[i].link(ss[a])->0.id,
        )
    &&& ms[0].occupied().subset_of(ms[i].occupied())
    &&& exists|c: int| 0 <= c <= ms[0].pending().len() && ms[i].pending() == ms[0].pending().subrange(c, ms[0].pending().len() as int)
    &&& ms[i].wf() && ms[i].injective()
}

proof fn lemma_run(
    ms: Seq<Mappings>,
    ss: Seq<Seq<char>>,
    ps: Seq<bool>,
    rs: Seq<Result<i64, MappingError>>,
    i: int,
)
    requires
        ms.len() == ss.len() + 1,
        ps.len() == ss.len(),
        rs.len() == ss.len(),
        ms[0].wf(),
        ms[0].injective(),
        forall|j: int| 0 <= j < ss.len() ==> id_step(#[trigger] ms[j], ms[j + 1], ss[j], ps[j], rs[j]),
        0 <= i <= ss.len(),
    ensures
        run_so_far(ms, ss, rs, i),
    decreases i,
{
    if i == 0 {
        assert(ms[0].pending() == ms[0].pending().subrange(0, ms[0].pending().len() as int));
        return;
    }
    let j = i - 1;
    lemma_run(ms, ss, ps, rs, j);
    assert(id_step(ms[j], ms[j + 1], ss[j], ps[j], rs[j]));
    let m0 = ms[j];
    let m1 = ms[i];
    let c = choose|c: int|
        0 <= c <= ms[0].pending().len() && m0.pending() == ms[0].pending().subrange(c, ms[0].pending().len() as int);
    match m0.link(ss[j]) {
        Some(e) => {
            assert(same_ids(m0, m1));
        },
        None => {
            if m0.has_ranges() {
                let p = m0.pending();
                let k = first_free(p, m0.occupied()) as int;
                if k < p.len() {
                    assert(m1.pending() =~= ms[0].pending().subrange(c + k + 1, ms[0].pending().len() as int));
                    assert forall|a: int| 0 <= a < i && rs[a] is Ok implies (#[trigger] ms[i].link(ss[a])) is Some
                        && rs[a] == Ok::<i64, MappingError>(ms[i].link(ss[a])->0.id) by {
                        if a < j {
                            assert(m0.link(ss[a]) is Some);
                            assert(ss[a] != ss[j]);
                        }
                    }
                } else {
                    assert(m1.pending() =~= ms[0].pending().subrange(
                        ms[0].pending().len() as int,
                        ms[0].pending().len() as int,
                    ));
                }
            }
        },
    }
}

/// Over a run of requests for numeric ids, each made to what the one before
/// left: equal strings get equal ids and distinct strings distinct ids; an
/// id linked anew was pending and not in use when the run began.
pub proof fn law_id_run(
    ms: Seq<Mappings>,
    ss: Seq<Seq<char>>,
    ps: Seq<bool>,
    rs: Seq<Result<i64, MappingError>>,
)
    requires
        ms.len() == ss.len() + 1,
        ps.len() == ss.len(),
        rs.len() == ss.len(),
        ms[0].wf(),
        ms[0].injective(),
        forall|j: int| 0 <= j < ss.len() ==> id_step(#[trigger] ms[j], ms[j + 1], ss[j], ps[j], rs[j]),
    ensures
        forall|a: int, b: int|
            0 <= a < b < ss.len() && rs[a] is Ok && rs[b] is Ok ==> (#[trigger] ss[a] == #[trigger] ss[b] <==> rs[a]
                == rs[b]),
        forall|a: int|
            0 <= a < ss.len() && #[trigger] rs[a] is Ok && ms[a].link(ss[a]) is None ==> ms[0].pending().contains(
                rs[a]->Ok_0,
            ) && !ms[0].occupied().contains(rs[a]->Ok_0),
{
    assert forall|a: int, b: int|
        0 <= a < b < ss.len() && rs[a] is Ok && rs[b] is Ok implies (#[trigger] ss[a] == #[trigger] ss[b] <==> rs[a]
        == rs[b]) by {
        lemma_run(ms, ss, ps, rs, b);
        lemma_run(ms, ss, ps, rs, b + 1);
        assert(id_step(ms[b], ms[b + 1], ss[b], ps[b], rs[b]));
        assert(ms[b].link(ss[a]) is Some);
        if ss[a] != ss[b] {
            assert(ms[b + 1].link(ss[a]) is Some);
            assert(ms[b + 1].link(ss[b]) is Some);
            lemma_links_distinct(ms[b + 1], ss[a], ss[b]);
        }
    }
    assert forall|a: int|
        0 <= a < ss.len() && #[trigger] rs[a] is Ok && ms[a].link(ss[a]) is None implies ms[0].pending().contains(
        rs[a]->Ok_0,
    ) && !ms[0].occupied().contains(rs[a]->Ok_0) by {
        lemma_run(ms, ss, ps, rs, a);
        assert(id_step(ms[a], ms[a + 1], ss[a], ps[a], rs[a]));
        let p = ms[a].pending();
        let k = first_free(p, ms[a].occupied()) as int;
        let c = choose|c: int|
            0 <= c <= ms[0].pending().len() && p == ms[0].pending().subrange(c, ms[0].pending().len() as int);
        assert(ms[0].pending()[c + k] == p[k]);
    }
}

/// A link that is made anew never shares its numeric id with another link.
pub proof fn law_new_link_is_unshared(
    m0: Mappings,
    m1: Mappings,
    s: Seq<char>,
    persistent: bool,
    r: Result<i64, MappingError>,
    t: Seq<char>,
)
    requires
        m0.wf(),
        m0.link(s) is None,
        id_outcome(m0, m1, s, persistent, r),
        r is Ok,
        t != s,
        m1.link(t) is Some,
    ensures
        m1.link(t)->0.id != r->Ok_0,
{
    let j = lemma_link_some(m0.ids@, t);
    assert(m0.occupied_ids@.contains(m0.ids@[j].1.id));
}

/// Saving mappings and loading what was saved gives back exactly the saved
/// links, and the configured ranges.
pub proof fn law_save_then_load(m: Mappings, p: PackedMappings, m2: Mappings)
    requires
        saves(m, p),
        loads(p, m2),
    ensures
        forall|t: Seq<char>| #[trigger] m2.link(t) == (if is_persistent(m.link(t)) { m.link(t) } else { None }),
        m2.default_ranges() == m.default_ranges(),
{
    assert forall|t: Seq<char>| #[trigger] m2.link(t) == (if is_persistent(m.link(t)) {
        m.link(t)
    } else {
        None
    }) by {
        if is_persistent(m.link(t)) {
            let i = choose|i: int| 0 <= i < p.values@.len() && (#[trigger] p.values@[i]).0@ == t;
            assert(m2.link(p.values@[i].0@) == Some(MappingEntry { id: p.values@[i].1, persistent: true }));
        } else {
            assert forall|i: int| 0 <= i < p.values@.len() implies (#[trigger] p.values@[i]).0@ != t by {
                assert(m.link(p.values@[i].0@) == Some(MappingEntry { id: p.values@[i].1, persistent: true }));
            }
        }
    }
}

} // verus!
