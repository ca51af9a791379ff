//! Numeric ids: which ids are reserved or taken for a type, which types may
//! stand for which, and where an id is defined.
//!
//! A type is named by its text. An id is the number key that the caller gives
//! for an id value (equal values, equal keys).
use vstd::prelude::*;

verus! {

/// The id rules of one type.
pub struct TypeIdConfig {
    /// Ids that may not be defined for the type.
    pub reserved_ids: Vec<u64>,
    /// Types that may not share ids with this type.
    pub conflicting_types: Vec<String>,
    /// Types whose ids may be used where an id of this type is asked for.
    pub satisfied_by_types: Vec<String>,
}

/// The id rules of all types; the first entry for a type name counts.
pub struct ReservedIdConfig {
    pub types: Vec<(String, TypeIdConfig)>,
}

/// The places (paths) where one id of one type is defined, in ascending order.
pub struct IdEntry {
    pub ty: String,
    pub id: u64,
    pub paths: Vec<String>,
}

/// All ids defined so far, with the places where they are defined.
pub struct NumericIDsRegistry {
    entries: Vec<IdEntry>,
}

/// Which types' rules apply at each step of a search.
#[derive(Debug, Clone, Copy, PartialEq, Eq, Structural)]
pub enum Edges {
    SatisfiedBy,
    Conflicting,
}

pub open spec fn names(v: Seq<String>) -> Seq<Seq<char>> {
    v.map_values(|s: String| s@)
}

/// The rules for `ty`, from entry `i` on.
pub open spec fn lookup_from(types: Seq<(String, TypeIdConfig)>, ty: Seq<char>, i: int) -> Option<TypeIdConfig>
    decreases types.len() - i,
{
    if i < 0 || i >= types.len() {
        None
    } else if types[i].0@ == ty {
        Some(types[i].1)
    } else {
        lookup_from(types, ty, i + 1)
    }
}

pub open spec fn lookup(cfg: ReservedIdConfig, ty: Seq<char>) -> Option<TypeIdConfig> {
    lookup_from(cfg.types@, ty, 0)
}

/// The types one step away from `ty`.
pub open spec fn succ(cfg: ReservedIdConfig, edges: Edges, ty: Seq<char>) -> Seq<Seq<char>> {
    match lookup(cfg, ty) {
        None => Seq::empty(),
        Some(c) => match edges {
            Edges::SatisfiedBy => names(c.satisfied_by_types@),
            Edges::Conflicting => names(c.conflicting_types@),
        },
    }
}

/// `p` is a walk along the edges.
pub open spec fn is_walk(cfg: ReservedIdConfig, edges: Edges, p: Seq<Seq<char>>) -> bool {
    p.len() >= 1 && forall|k: int| 0 <= k < p.len() - 1 ==> succ(cfg, edges, p[k]).contains(#[trigger] p[k + 1])
}

/// `b` can be reached from `a` along the edges (`a` itself included).
pub open spec fn reaches(cfg: ReservedIdConfig, edges: Edges, a: Seq<char>, b: Seq<char>) -> bool {
    exists|p: Seq<Seq<char>>| is_walk(cfg, edges, p) && p[0] == a && p.last() == b
}

/// Every type name that the rules mention.
pub open spec fn cfg_names(types: Seq<(String, TypeIdConfig)>) -> Seq<Seq<char>>
    decreases types.len(),
{
    if types.len() == 0 {
        Seq::empty()
    } else {
        let last = types.last();
        cfg_names(types.drop_last()) + seq![last.0@] + names(last.1.satisfied_by_types@) + names(
            last.1.conflicting_types@,
        )
    }
}

pub proof fn lemma_lookup_in_names(types: Seq<(String, TypeIdConfig)>, ty: Seq<char>, i: int)
    requires
        0 <= i,
    ensures
        lookup_from(types, ty, i) matches Some(c) ==> (forall|y: Seq<char>|
            names(c.satisfied_by_types@).contains(y) ==> cfg_names(types).contains(y)) && (forall|
            y: Seq<char>,
        | names(c.conflicting_types@).contains(y) ==> cfg_names(types).contains(y)),
    decreases types.len() - i,
{
    if 0 <= i < types.len() {
        if types[i].0@ == ty {
            lemma_entry_in_names(types, i);
        } else {
            lemma_lookup_in_names(types, ty, i + 1);
        }
    }
}

proof fn lemma_entry_in_names(types: Seq<(String, TypeIdConfig)>, i: int)
    requires
        0 <= i < types.len(),
    ensures
        forall|y: Seq<char>| names(types[i].1.satisfied_by_types@).contains(y) ==> cfg_names(types).contains(y),
        forall|y: Seq<char>| names(types[i].1.conflicting_types@).contains(y) ==> cfg_names(types).contains(y),
    decreases types.len(),
{
    let last = types.last();
    let a = cfg_names(types.drop_last());
    let b = seq![last.0@];
    let c = names(last.1.satisfied_by_types@);
    let d = names(last.1.conflicting_types@);
    assert(cfg_names(types) == a + b + c + d);
    assert forall|y: Seq<char>| a.contains(y) implies cfg_names(types).contains(y) by {
        let k = choose|k: int| 0 <= k < a.len() && a[k] == y;
        assert((a + b + c + d)[k] == y);
    }
    assert forall|y: Seq<char>| c.contains(y) implies cfg_names(types).contains(y) by {
        let k = choose|k: int| 0 <= k < c.len() && c[k] == y;
        assert((a + b + c + d)[a.len() + 1 + k] == y);
    }
    assert forall|y: Seq<char>| d.contains(y) implies cfg_names(types).contains(y) by {
        let k = choose|k: int| 0 <= k < d.len() && d[k] == y;
        assert((a + b + c + d)[a.len() + 1 + c.len() + k] == y);
    }
    if i < types.len() - 1 {
        lemma_entry_in_names(types.drop_last(), i);
        assert(types.drop_last()[i] == types[i]);
        assert forall|y: Seq<char>| names(types[i].1.satisfied_by_types@).contains(y) implies cfg_names(
            types,
        ).contains(y) by {
            assert(a.contains(y));
        }
        assert forall|y: Seq<char>| names(types[i].1.conflicting_types@).contains(y) implies cfg_names(
            types,
        ).contains(y) by {
            assert(a.contains(y));
        }
    } else {
        assert(types[i] == last);
    }
}

/// The successors of a type are names of the rules.
pub proof fn lemma_succ_in_names(cfg: ReservedIdConfig, edges: Edges, ty: Seq<char>)
    ensures
        forall|y: Seq<char>| succ(cfg, edges, ty).contains(y) ==> cfg_names(cfg.types@).contains(y),
{
    lemma_lookup_in_names(cfg.types@, ty, 0);
}

/// A duplicate-free sequence drawn from `u` is no longer than `u`.
pub proof fn lemma_distinct_bound(v: Seq<Seq<char>>, u: Seq<Seq<char>>)
    requires
        v.no_duplicates(),
        forall|x: Seq<char>| v.contains(x) ==> u.contains(x),
    ensures
        v.len() <= u.len(),
{
    v.unique_seq_to_set();
    u.lemma_cardinality_of_set();
    assert(v.to_set().subset_of(u.to_set()));
    vstd::set_lib::lemma_len_subset(v.to_set(), u.to_set());
}

} // verus!

verus! {

pub open spec fn paths_from(entries: Seq<IdEntry>, ty: Seq<char>, id: u64, i: int) -> Seq<Seq<char>>
    decreases entries.len() - i,
{
    if i < 0 || i >= entries.len() {
        Seq::empty()
    } else if entries[i].ty@ == ty && entries[i].id == id {
        names(entries[i].paths@)
    } else {
        paths_from(entries, ty, id, i + 1)
    }
}

impl NumericIDsRegistry {
    /// The places where id `id` of type `ty` is defined, in ascending order.
    pub closed spec fn paths(&self, ty: Seq<char>, id: u64) -> Seq<Seq<char>> {
        paths_from(self.entries@, ty, id, 0)
    }

    /// An empty registry.
    pub fn new() -> (r: Self)
        ensures
            r.wf(),
            forall|ty: Seq<char>, id: u64| r.paths(ty, id).len() == 0,
    {
        NumericIDsRegistry { entries: Vec::new() }
    }

    /// Forgets every id.
    pub fn clear(&mut self)
        ensures
            final(self).wf(),
            forall|ty: Seq<char>, id: u64| final(self).paths(ty, id).len() == 0,
    {
        self.entries.clear();
    }
}

fn find_config<'a>(cfg: &'a ReservedIdConfig, ty: &String) -> (r: Option<&'a TypeIdConfig>)
    ensures
        match lookup(*cfg, ty@) {
            None => r is None,
            Some(c) => r == Some(&c),
        },
{
    let mut i: usize = 0;
    while i < cfg.types.len()
        invariant
            i <= cfg.types@.len(),
            lookup(*cfg, ty@) == lookup_from(cfg.types@, ty@, i as int),
        decreases cfg.types.len() - i,
    {
        if cfg.types[i].0 == *ty {
            return Some(&cfg.types[i].1);
        }
        i = i + 1;
    }
    None
}

fn find_entry(reg: &NumericIDsRegistry, ty: &String, id: u64) -> (r: Option<usize>)
    ensures
        match r {
            None => reg.paths(ty@, id).len() == 0 && forall|k: int| 0 <= k < reg.entries@.len() ==>
                !(reg.entries@[k].ty@ == ty@ && reg.entries@[k].id == id),
            Some(k) => k < reg.entries@.len() && reg.paths(ty@, id) == names(reg.entries@[k as int].paths@)
                && reg.entries@[k as int].ty@ == ty@ && reg.entries@[k as int].id == id
                && forall|j: int| 0 <= j < k ==> !(reg.entries@[j].ty@ == ty@ && reg.entries@[j].id == id),
        },
{
    let mut i: usize = 0;
    while i < reg.entries.len()
        invariant
            i <= reg.entries@.len(),
            reg.paths(ty@, id) == paths_from(reg.entries@, ty@, id, i as int),
            forall|j: int| 0 <= j < i ==> !(reg.entries@[j].ty@ == ty@ && reg.entries@[j].id == id),
        decreases reg.entries.len() - i,
    {
        if reg.entries[i].ty == *ty && reg.entries[i].id == id {
            return Some(i);
        }
        i = i + 1;
    }
    None
}

fn contains_id(v: &Vec<u64>, id: u64) -> (r: bool)
    ensures
        r == v@.contains(id),
{
    let mut i: usize = 0;
    while i < v.len()
        invariant
            i <= v@.len(),
            forall|j: int| 0 <= j < i ==> v@[j] != id,
        decreases v.len() - i,
    {
        if v[i] == id {
            return true;
        }
        i = i + 1;
    }
    false
}

fn contains_name(v: &Vec<String>, name: &String) -> (r: bool)
    ensures
        r == names(v@).contains(name@),
{
    let mut i: usize = 0;
    while i < v.len()
        invariant
            i <= v@.len(),
            forall|j: int| 0 <= j < i ==> v@[j]@ != name@,
        decreases v.len() - i,
    {
        if v[i] == *name {
            assert(names(v@)[i as int] == name@);
            return true;
        }
        i = i + 1;
    }
    proof {
        if names(v@).contains(name@) {
            let k = choose|k: int| 0 <= k < names(v@).len() && names(v@)[k] == name@;
            assert(v@[k]@ == name@);
        }
    }
    false
}

/// What a search looks for.
pub enum Goal {
    /// The given type itself.
    AssignableFrom(String),
    /// A type for which the given id is reserved or defined.
    Known(u64),
    /// A type for which the given id is defined.
    Located(u64),
}

/// `ty` is what the search looks for.
pub open spec fn holds(cfg: ReservedIdConfig, reg: NumericIDsRegistry, goal: Goal, ty: Seq<char>) -> bool {
    match goal {
        Goal::AssignableFrom(from) => ty == from@,
        Goal::Known(id) => (match lookup(cfg, ty) {
            Some(c) => c.reserved_ids@.contains(id),
            None => false,
        }) || reg.paths(ty, id).len() > 0,
        Goal::Located(id) => reg.paths(ty, id).len() > 0,
    }
}

/// What a search gives for a found type: the first place of the id for
/// `Located`, the type's name otherwise.
pub open spec fn witness(reg: NumericIDsRegistry, goal: Goal, ty: Seq<char>, w: Seq<char>) -> bool {
    match goal {
        Goal::Located(id) => w == reg.paths(ty, id)[0],
        _ => w == ty,
    }
}

fn holds_at(cfg: &ReservedIdConfig, reg: &NumericIDsRegistry, goal: &Goal, ty: &String) -> (r: Option<String>)
    ensures
        r is Some == holds(*cfg, *reg, *goal, ty@),
        r matches Some(w) ==> witness(*reg, *goal, ty@, w@),
{
    match goal {
        Goal::AssignableFrom(from) => if *ty == *from {
            Some(ty.clone())
        } else {
            None
        },
        Goal::Known(id) => {
            let reserved = match find_config(cfg, ty) {
                Some(c) => contains_id(&c.reserved_ids, *id),
                None => false,
            };
            if reserved {
                return Some(ty.clone());
            }
            match find_entry(reg, ty, *id) {
                Some(k) => if reg.entries[k].paths.len() > 0 {
                    Some(ty.clone())
                } else {
                    None
                },
                None => None,
            }
        },
        Goal::Located(id) => match find_entry(reg, ty, *id) {
            Some(k) => if reg.entries[k].paths.len() > 0 {
                Some(reg.entries[k].paths[0].clone())
            } else {
                None
            },
            None => None,
        },
    }
}

/// The universe of a search from `root`: the root and every name of the rules.
pub open spec fn universe(cfg: ReservedIdConfig, root: Seq<char>) -> Seq<Seq<char>> {
    seq![root] + cfg_names(cfg.types@)
}

proof fn lemma_in_universe(cfg: ReservedIdConfig, root: Seq<char>, edges: Edges, ty: Seq<char>)
    ensures
        universe(cfg, root).contains(root),
        forall|y: Seq<char>| succ(cfg, edges, ty).contains(y) ==> universe(cfg, root).contains(y),
{
    let u = universe(cfg, root);
    assert(u[0] == root);
    lemma_succ_in_names(cfg, edges, ty);
    assert forall|y: Seq<char>| succ(cfg, edges, ty).contains(y) implies u.contains(y) by {
        let c = cfg_names(cfg.types@);
        let k = choose|k: int| 0 <= k < c.len() && c[k] == y;
        assert(u[k + 1] == y);
    }
}

/// Depth-first search along satisfied-by rules from `ty`, skipping visited types.
fn dfs(
    cfg: &ReservedIdConfig,
    reg: &NumericIDsRegistry,
    goal: &Goal,
    ty: &String,
    visited: &mut Vec<String>,
    Ghost(root): Ghost<Seq<char>>,
) -> (r: Option<String>)
    requires
        names(old(visited)@).no_duplicates(),
        forall|x: Seq<char>| names(old(visited)@).contains(x) ==> universe(*cfg, root).contains(x),
        universe(*cfg, root).contains(ty@),
    ensures
        names(final(visited)@).no_duplicates(),
        forall|x: Seq<char>| names(final(visited)@).contains(x) ==> universe(*cfg, root).contains(x),
        old(visited)@.len() <= final(visited)@.len(),
        final(visited)@.subrange(0, old(visited)@.len() as int) == old(visited)@,
        r matches Some(w) ==> exists|z: Seq<char>| reaches(*cfg, Edges::SatisfiedBy, ty@, z) && holds(*cfg, *reg, *goal, z)
            && witness(*reg, *goal, z, w@),
        r is None ==> names(final(visited)@).contains(ty@),
        r is None ==> forall|k: int| old(visited)@.len() <= k < final(visited)@.len() ==> {
            &&& !holds(*cfg, *reg, *goal, #[trigger] final(visited)@[k]@)
            &&& forall|y: Seq<char>| succ(*cfg, Edges::SatisfiedBy, final(visited)@[k]@).contains(y)
                ==> names(final(visited)@).contains(y)
        },
    decreases universe(*cfg, root).len() - old(visited)@.len(),
{
    let ghost u = universe(*cfg, root);
    let ghost v0 = visited@;
    if contains_name(visited, ty) {
        assert(visited@.subrange(0, v0.len() as int) =~= v0);
        return None;
    }
    proof {
        lemma_distinct_bound(names(v0), u);
    }
    let tyc = ty.clone();
    let ghost tyg = tyc;
    visited.push(tyc);
    proof {
        assert(names(visited@) =~= names(v0).push(ty@));
        lemma_in_universe(*cfg, root, Edges::SatisfiedBy, ty@);
    }
    let here = holds_at(cfg, reg, goal, ty);
    if here.is_some() {
        proof {
            let p = seq![ty@];
            assert(is_walk(*cfg, Edges::SatisfiedBy, p));
            assert(p[0] == ty@ && p.last() == ty@);
            assert(reaches(*cfg, Edges::SatisfiedBy, ty@, ty@));
        }
        return here;
    }
    let ghost v1 = visited@;
    match find_config(cfg, ty) {
        None => {
            assert(visited@.subrange(0, v0.len() as int) =~= v0);
            assert(succ(*cfg, Edges::SatisfiedBy, ty@) =~= Seq::<Seq<char>>::empty());
            assert(visited@[v0.len() as int] == tyg);
            assert(names(visited@)[v0.len() as int] == ty@);
            None
        },
        Some(c) => {
            let n = c.satisfied_by_types.len();
            let mut i: usize = 0;
            while i < n
                invariant
                    lookup(*cfg, ty@) == Some(*c),
                    n == c.satisfied_by_types@.len(),
                    i <= n,
                    u == universe(*cfg, root),
                    names(visited@).no_duplicates(),
                    forall|x: Seq<char>| names(visited@).contains(x) ==> u.contains(x),
                    v1.len() <= visited@.len(),
                    visited@.subrange(0, v1.len() as int) == v1,
                    v1 == v0.push(tyg),
                    v0 == old(visited)@,
                    v1[v0.len() as int]@ == ty@,
                    !holds(*cfg, *reg, *goal, ty@),
                    forall|j: int| 0 <= j < i ==> names(visited@).contains(#[trigger] c.satisfied_by_types@[j]@),
                    forall|k: int| v1.len() <= k < visited@.len() ==> {
                        &&& !holds(*cfg, *reg, *goal, #[trigger] visited@[k]@)
                        &&& forall|y: Seq<char>| succ(*cfg, Edges::SatisfiedBy, visited@[k]@).contains(y)
                            ==> names(visited@).contains(y)
                    },
                decreases n - i,
            {
                let y = &c.satisfied_by_types[i];
                proof {
                    assert(succ(*cfg, Edges::SatisfiedBy, ty@)[i as int] == y@);
                    assert(succ(*cfg, Edges::SatisfiedBy, ty@).contains(y@));
                    lemma_in_universe(*cfg, root, Edges::SatisfiedBy, ty@);
                    assert(u.contains(y@));
                    lemma_distinct_bound(names(visited@), u);
                    assert(names(visited@).len() == visited@.len());
                    assert(visited@.len() >= v0.len() + 1);
                }
                let ghost before = visited@;
                let found = dfs(cfg, reg, goal, y, visited, Ghost(root));
                if found.is_some() {
                    proof {
                        let w = found->Some_0;
                        let z = choose|z: Seq<char>| reaches(*cfg, Edges::SatisfiedBy, y@, z) && holds(*cfg, *reg, *goal, z)
                            && witness(*reg, *goal, z, w@);
                        let p = choose|p: Seq<Seq<char>>| is_walk(*cfg, Edges::SatisfiedBy, p) && p[0] == y@ && p.last() == z;
                        let q = seq![ty@] + p;
                        assert(succ(*cfg, Edges::SatisfiedBy, ty@).contains(y@));
                        assert forall|k: int| 0 <= k < q.len() - 1 implies succ(*cfg, Edges::SatisfiedBy, q[k]).contains(#[trigger] q[k + 1]) by {
                            if k > 0 {
                                assert(q[k] == p[k - 1]);
                                assert(q[k + 1] == p[(k - 1) + 1]);
                            }
                        }
                        assert(q.last() == z);
                        assert(reaches(*cfg, Edges::SatisfiedBy, ty@, z));
                        assert(visited@.subrange(0, v0.len() as int) =~= v0) by {
                            assert forall|k: int| 0 <= k < v0.len() implies visited@[k] == v0[k] by {
                                assert(before[k] == v1[k]);
                                assert(visited@.subrange(0, before.len() as int)[k] == before[k]);
                            }
                        }
                    }
                    return found;
                }
                proof {
                    assert forall|j: int| 0 <= j < i + 1 implies names(visited@).contains(#[trigger] c.satisfied_by_types@[j]@) by {
                        if j < i {
                            assert(names(before).contains(c.satisfied_by_types@[j]@));
                            let m = choose|m: int| 0 <= m < names(before).len() && names(before)[m] == c.satisfied_by_types@[j]@;
                            assert(visited@.subrange(0, before.len() as int) == before);
                            assert(visited@[m] == before[m]);
                            assert(names(visited@)[m] == c.satisfied_by_types@[j]@);
                        }
                    }
                    assert(visited@.subrange(0, v1.len() as int) =~= v1) by {
                        assert(visited@.subrange(0, before.len() as int) == before);
                        assert forall|k: int| 0 <= k < v1.len() implies visited@[k] == v1[k] by {
                            assert(before[k] == v1[k]);
                            assert(visited@[k] == before[k]);
                        }
                    }
                    assert forall|k: int| v1.len() <= k < visited@.len() implies {
                        &&& !holds(*cfg, *reg, *goal, #[trigger] visited@[k]@)
                        &&& forall|y2: Seq<char>| succ(*cfg, Edges::SatisfiedBy, visited@[k]@).contains(y2)
                            ==> names(visited@).contains(y2)
                    } by {
                        if k < before.len() {
                            assert(visited@[k] == before[k]);
                            assert forall|y2: Seq<char>| succ(*cfg, Edges::SatisfiedBy, visited@[k]@).contains(y2)
                                implies names(visited@).contains(y2) by {
                                assert(names(before).contains(y2));
                                let m = choose|m: int| 0 <= m < names(before).len() && names(before)[m] == y2;
                                assert(visited@[m] == before[m]);
                                assert(names(visited@)[m] == y2);
                            }
                        }
                    }
                }
                i = i + 1;
            }
            proof {
                assert(visited@.subrange(0, v0.len() as int) =~= v0) by {
                    assert forall|k: int| 0 <= k < v0.len() implies visited@[k] == v0[k] by {
                        assert(visited@[k] == v1[k]);
                    }
                }
                assert(visited@[v0.len() as int] == v1[v0.len() as int]);
                assert(names(visited@)[v0.len() as int] == ty@);
                assert forall|y2: Seq<char>| succ(*cfg, Edges::SatisfiedBy, ty@).contains(y2)
                    implies names(visited@).contains(y2) by {
                    let j = choose|j: int| 0 <= j < succ(*cfg, Edges::SatisfiedBy, ty@).len()
                        && succ(*cfg, Edges::SatisfiedBy, ty@)[j] == y2;
                    assert(c.satisfied_by_types@[j]@ == y2);
                }
            }
            None
        },
    }
}

} // verus!

verus! {

/// A search that found nothing has seen every type reachable from its start.
proof fn lemma_closed_search(
    cfg: ReservedIdConfig,
    reg: NumericIDsRegistry,
    goal: Goal,
    ty: Seq<char>,
    vis: Seq<Seq<char>>,
)
    requires
        vis.contains(ty),
        forall|k: int| 0 <= k < vis.len() ==> {
            &&& !holds(cfg, reg, goal, #[trigger] vis[k])
            &&& forall|y: Seq<char>| succ(cfg, Edges::SatisfiedBy, vis[k]).contains(y) ==> vis.contains(y)
        },
    ensures
        forall|z: Seq<char>| reaches(cfg, Edges::SatisfiedBy, ty, z) ==> !holds(cfg, reg, goal, z),
{
    assert forall|z: Seq<char>| reaches(cfg, Edges::SatisfiedBy, ty, z) implies !holds(cfg, reg, goal, z) by {
        let p = choose|p: Seq<Seq<char>>| is_walk(cfg, Edges::SatisfiedBy, p) && p[0] == ty && p.last() == z;
        lemma_walk_inside(cfg, reg, goal, vis, p, p.len() - 1);
        let k = choose|k: int| 0 <= k < vis.len() && vis[k] == z;
        assert(!holds(cfg, reg, goal, vis[k]));
    }
}

proof fn lemma_walk_inside(
    cfg: ReservedIdConfig,
    reg: NumericIDsRegistry,
    goal: Goal,
    vis: Seq<Seq<char>>,
    p: Seq<Seq<char>>,
    k: int,
)
    requires
        is_walk(cfg, Edges::SatisfiedBy, p),
        vis.contains(p[0]),
        0 <= k < p.len(),
        forall|k: int| 0 <= k < vis.len() ==> {
            &&& !holds(cfg, reg, goal, #[trigger] vis[k])
            &&& forall|y: Seq<char>| succ(cfg, Edges::SatisfiedBy, vis[k]).contains(y) ==> vis.contains(y)
        },
    ensures
        vis.contains(p[k]),
    decreases k,
{
    if k > 0 {
        lemma_walk_inside(cfg, reg, goal, vis, p, k - 1);
        let j = k - 1;
        assert(succ(cfg, Edges::SatisfiedBy, p[j]).contains(p[j + 1]));
        let m = choose|m: int| 0 <= m < vis.len() && vis[m] == p[j];
        assert(!holds(cfg, reg, goal, vis[m]));
    }
}

/// Runs a search from `start` and says whether something was found.
fn search(cfg: &ReservedIdConfig, reg: &NumericIDsRegistry, goal: &Goal, start: &String) -> (r: Option<String>)
    ensures
        r is None <==> !exists|z: Seq<char>| reaches(*cfg, Edges::SatisfiedBy, start@, z) && holds(*cfg, *reg, *goal, z),
        r matches Some(w) ==> exists|z: Seq<char>| reaches(*cfg, Edges::SatisfiedBy, start@, z) && holds(*cfg, *reg, *goal, z)
            && witness(*reg, *goal, z, w@),
{
    let mut visited: Vec<String> = Vec::new();
    proof {
        let u = universe(*cfg, start@);
        assert(u[0] == start@);
        assert(names(visited@) =~= Seq::<Seq<char>>::empty());
    }
    let r = dfs(cfg, reg, goal, start, &mut visited, Ghost(start@));
    proof {
        if r is None {
            let vis = names(visited@);
            assert forall|k: int| 0 <= k < vis.len() implies {
                &&& !holds(*cfg, *reg, *goal, #[trigger] vis[k])
                &&& forall|y: Seq<char>| succ(*cfg, Edges::SatisfiedBy, vis[k]).contains(y) ==> vis.contains(y)
            } by {
                assert(vis[k] == visited@[k]@);
            }
            lemma_closed_search(*cfg, *reg, *goal, start@, vis);
        }
    }
    r
}

/// The id rules and the ids defined so far, seen together.
pub struct NumericIDRegistry<'a> {
    config: &'a ReservedIdConfig,
    ids: &'a NumericIDsRegistry,
}

impl<'a> NumericIDRegistry<'a> {
    pub closed spec fn config(&self) -> ReservedIdConfig {
        *self.config
    }

    pub closed spec fn ids(&self) -> NumericIDsRegistry {
        *self.ids
    }

    pub fn of(config: &'a ReservedIdConfig, ids: &'a NumericIDsRegistry) -> (r: Self)
        ensures
            r.config() == *config,
            r.ids() == *ids,
    {
        NumericIDRegistry { config, ids }
    }

    /// Whether an id of type `from` can be given where an id of type `to` is
    /// asked for: `from` is `to`, or is reached from `to` through the
    /// satisfied-by rules.
    pub fn is_id_assignable(&self, from: &String, to: &String) -> (r: bool)
        ensures
            r == reaches(self.config(), Edges::SatisfiedBy, to@, from@),
    {
        let goal = Goal::AssignableFrom(from.clone());
        let found = search(self.config, self.ids, &goal, to);
        proof {
            if reaches(self.config(), Edges::SatisfiedBy, to@, from@) {
                assert(holds(*self.config, *self.ids, goal, from@));
            }
        }
        found.is_some()
    }

    /// A place where id `id` is defined, for type `category` or a type that
    /// satisfies it: the first place of the first such type found.
    pub fn location_for_id(&self, category: &String, id: u64) -> (r: Option<String>)
        ensures
            r is None <==> !exists|z: Seq<char>| reaches(self.config(), Edges::SatisfiedBy, category@, z)
                && self.ids().paths(z, id).len() > 0,
            r matches Some(p) ==> exists|z: Seq<char>| reaches(self.config(), Edges::SatisfiedBy, category@, z)
                && self.ids().paths(z, id).len() > 0 && p@ == self.ids().paths(z, id)[0],
    {
        let r = search(self.config, self.ids, &Goal::Located(id), category);
        proof {
            let goal = Goal::Located(id);
            if exists|z: Seq<char>| reaches(self.config(), Edges::SatisfiedBy, category@, z)
                && self.ids().paths(z, id).len() > 0 {
                let z = choose|z: Seq<char>| reaches(self.config(), Edges::SatisfiedBy, category@, z)
                    && self.ids().paths(z, id).len() > 0;
                assert(holds(*self.config, *self.ids, goal, z));
            }
            if r is Some {
                let z = choose|z: Seq<char>| reaches(*self.config, Edges::SatisfiedBy, category@, z)
                    && holds(*self.config, *self.ids, goal, z) && witness(*self.ids, goal, z, r->Some_0@);
                assert(self.ids().paths(z, id).len() > 0);
            }
        }
        r
    }

    /// Whether id `id` exists for type `ty`: it is reserved or defined for
    /// `ty` or for a type that satisfies it.
    pub fn is_id_defined(&self, ty: &String, id: u64) -> (r: bool)
        ensures
            r == exists|z: Seq<char>| reaches(self.config(), Edges::SatisfiedBy, ty@, z)
                && holds(self.config(), self.ids(), Goal::Known(id), z),
    {
        let goal = Goal::Known(id);
        let r = search(self.config, self.ids, &goal, ty);
        proof {
            if exists|z: Seq<char>| reaches(self.config(), Edges::SatisfiedBy, ty@, z)
                && holds(self.config(), self.ids(), Goal::Known(id), z) {
                let z = choose|z: Seq<char>| reaches(self.config(), Edges::SatisfiedBy, ty@, z)
                    && holds(self.config(), self.ids(), Goal::Known(id), z);
                assert(holds(*self.config, *self.ids, goal, z));
            }
            if r is Some {
                let z = choose|z: Seq<char>| reaches(*self.config, Edges::SatisfiedBy, ty@, z)
                    && holds(*self.config, *self.ids, goal, z) && witness(*self.ids, goal, z, r->Some_0@);
                assert(holds(self.config(), self.ids(), Goal::Known(id), z));
            }
        }
        r.is_some()
    }
}

/// A reference to an id that no rule reserves and no place defines.
#[derive(Debug, Clone, PartialEq, Eq)]
pub struct UndefinedId {
    pub ty: String,
    pub id: u64,
}

/// The validator of id references.
#[derive(Debug)]
pub struct Ref;

impl Ref {
    /// Checks a reference to id `id` of type `ty`.
    pub fn validate(&self, registry: &NumericIDRegistry, ty: &String, id: u64) -> (r: Result<(), UndefinedId>)
        ensures
            r is Ok == exists|z: Seq<char>| reaches(registry.config(), Edges::SatisfiedBy, ty@, z)
                && holds(registry.config(), registry.ids(), Goal::Known(id), z),
            r matches Err(e) ==> e.ty@ == ty@ && e.id == id,
    {
        if registry.is_id_defined(ty, id) {
            Ok(())
        } else {
            Err(UndefinedId { ty: ty.clone(), id })
        }
    }
}

/// Every type reaches itself.
pub proof fn law_reaches_reflexive(cfg: ReservedIdConfig, edges: Edges, a: Seq<char>)
    ensures
        reaches(cfg, edges, a, a),
{
    let p = seq![a];
    assert(is_walk(cfg, edges, p));
    assert(p[0] == a && p.last() == a);
}

/// Assignability chains: if `a` reaches `b` and `b` reaches `c`, then `a` reaches `c`.
pub proof fn law_reaches_transitive(cfg: ReservedIdConfig, edges: Edges, a: Seq<char>, b: Seq<char>, c: Seq<char>)
    requires
        reaches(cfg, edges, a, b),
        reaches(cfg, edges, b, c),
    ensures
        reaches(cfg, edges, a, c),
{
    let p = choose|p: Seq<Seq<char>>| is_walk(cfg, edges, p) && p[0] == a && p.last() == b;
    let q = choose|q: Seq<Seq<char>>| is_walk(cfg, edges, q) && q[0] == b && q.last() == c;
    let r = p + q.drop_first();
    assert forall|k: int| 0 <= k < r.len() - 1 implies succ(cfg, edges, r[k]).contains(#[trigger] r[k + 1]) by {
        if k < p.len() - 1 {
            assert(r[k] == p[k] && r[k + 1] == p[k + 1]);
        } else if k == p.len() - 1 {
            assert(r[k] == b);
            assert(r[k + 1] == q[1]);
            assert(q[0] == b);
            assert(succ(cfg, edges, q[0int]).contains(q[0int + 1]));
        } else {
            let j = k - p.len() + 1;
            assert(r[k] == q[j]);
            assert(r[k + 1] == q[j + 1]);
        }
    }
    if q.len() == 1 {
        assert(r =~= p);
    } else {
        assert(r.last() == q.last());
    }
}

} // verus!

verus! {

/// `a` comes before `b`: character by character, a proper prefix first.
pub open spec fn seq_lt(a: Seq<char>, b: Seq<char>) -> bool
    decreases a.len(),
{
    if a.len() == 0 {
        b.len() > 0
    } else if b.len() == 0 {
        false
    } else if a[0] != b[0] {
        a[0] < b[0]
    } else {
        seq_lt(a.drop_first(), b.drop_first())
    }
}

/// `s` is in strictly ascending order.
pub open spec fn ascending(s: Seq<Seq<char>>) -> bool {
    forall|i: int, j: int| 0 <= i < j < s.len() ==> seq_lt(#[trigger] s[i], #[trigger] s[j])
}

fn chars_lt(a: &Vec<char>, b: &Vec<char>) -> (r: bool)
    ensures
        r == seq_lt(a@, b@),
{
    let mut i: usize = 0;
    assert(a@.subrange(0, a@.len() as int) =~= a@);
    assert(b@.subrange(0, b@.len() as int) =~= b@);
    while i < a.len() && i < b.len() && a[i] == b[i]
        invariant
            i <= a@.len(),
            i <= b@.len(),
            seq_lt(a@, b@) == seq_lt(a@.subrange(i as int, a@.len() as int), b@.subrange(i as int, b@.len() as int)),
        decreases a.len() - i,
    {
        proof {
            let sa = a@.subrange(i as int, a@.len() as int);
            let sb = b@.subrange(i as int, b@.len() as int);
            assert(sa.drop_first() =~= a@.subrange(i + 1, a@.len() as int));
            assert(sb.drop_first() =~= b@.subrange(i + 1, b@.len() as int));
        }
        i = i + 1;
    }
    let ghost sa = a@.subrange(i as int, a@.len() as int);
    let ghost sb = b@.subrange(i as int, b@.len() as int);
    if i == a.len() {
        i < b.len()
    } else if i == b.len() {
        false
    } else {
        assert(sa[0] == a@[i as int] && sb[0] == b@[i as int]);
        a[i] < b[i]
    }
}

pub(crate) fn string_lt(a: &String, b: &String) -> (r: bool)
    ensures
        r == seq_lt(a@, b@),
{
    let va = crate::text::chars_of(a.as_str());
    let vb = crate::text::chars_of(b.as_str());
    chars_lt(&va, &vb)
}

} // verus!

verus! {

pub proof fn lemma_seq_lt_irreflexive(a: Seq<char>)
    ensures
        !seq_lt(a, a),
    decreases a.len(),
{
    if a.len() > 0 {
        lemma_seq_lt_irreflexive(a.drop_first());
    }
}

pub proof fn lemma_seq_lt_transitive(a: Seq<char>, b: Seq<char>, c: Seq<char>)
    requires
        seq_lt(a, b),
        seq_lt(b, c),
    ensures
        seq_lt(a, c),
    decreases a.len(),
{
    if a.len() > 0 && b.len() > 0 && c.len() > 0 && a[0] == b[0] && b[0] == c[0] {
        lemma_seq_lt_transitive(a.drop_first(), b.drop_first(), c.drop_first());
    }
}

pub proof fn lemma_seq_lt_total(a: Seq<char>, b: Seq<char>)
    requires
        a != b,
    ensures
        seq_lt(a, b) || seq_lt(b, a),
    decreases a.len(),
{
    if a.len() > 0 && b.len() > 0 && a[0] == b[0] {
        if a.drop_first() == b.drop_first() {
            assert(a =~= seq![a[0]] + a.drop_first());
            assert(b =~= seq![b[0]] + b.drop_first());
        }
        lemma_seq_lt_total(a.drop_first(), b.drop_first());
    } else if a.len() == 0 && b.len() == 0 {
        assert(a =~= b);
    }
}

/// `s` with `x` added at its place in ascending order, if it is not there yet.
pub open spec fn insert_sorted(s: Seq<Seq<char>>, x: Seq<char>) -> Seq<Seq<char>>
    decreases s.len(),
{
    if s.len() == 0 {
        seq![x]
    } else if s[0] == x {
        s
    } else if seq_lt(x, s[0]) {
        seq![x] + s
    } else {
        seq![s[0]] + insert_sorted(s.drop_first(), x)
    }
}

/// `s` without `x`.
pub open spec fn without(s: Seq<Seq<char>>, x: Seq<char>) -> Seq<Seq<char>>
    decreases s.len(),
{
    if s.len() == 0 {
        Seq::empty()
    } else if s[0] == x {
        without(s.drop_first(), x)
    } else {
        seq![s[0]] + without(s.drop_first(), x)
    }
}

proof fn lemma_insert_sorted_at(s: Seq<Seq<char>>, x: Seq<char>, k: int)
    requires
        ascending(s),
        0 <= k <= s.len(),
        forall|j: int| 0 <= j < k ==> seq_lt(#[trigger] s[j], x),
        k == s.len() || !seq_lt(s[k], x),
    ensures
        insert_sorted(s, x) == if k < s.len() && s[k] == x { s } else { s.insert(k, x) },
    decreases k,
{
    if k == 0 {
        if s.len() > 0 && s[0] != x {
            lemma_seq_lt_total(s[0], x);
            assert(seq![x] + s =~= s.insert(0, x));
        } else if s.len() == 0 {
            assert(seq![x] =~= s.insert(0, x));
        }
    } else {
        let t = s.drop_first();
        assert(seq_lt(s[0], x));
        lemma_seq_lt_irreflexive(x);
        if seq_lt(x, s[0]) {
            lemma_seq_lt_transitive(s[0], x, s[0]);
            lemma_seq_lt_irreflexive(s[0]);
        }
        assert forall|i: int, j: int| 0 <= i < j < t.len() implies seq_lt(#[trigger] t[i], #[trigger] t[j]) by {
            assert(seq_lt(s[i + 1], s[j + 1]));
        }
        assert forall|j: int| 0 <= j < k - 1 implies seq_lt(#[trigger] t[j], x) by {
            assert(seq_lt(s[j + 1], x));
        }
        if k < s.len() {
            assert(t[k - 1] == s[k]);
        }
        lemma_insert_sorted_at(t, x, k - 1);
        if k < s.len() && s[k] == x {
            assert(s =~= seq![s[0]] + t);
        } else {
            assert(seq![s[0]] + t.insert(k - 1, x) =~= s.insert(k, x));
        }
    }
}

proof fn lemma_insert_ascending(s: Seq<Seq<char>>, x: Seq<char>, k: int)
    requires
        ascending(s),
        0 <= k <= s.len(),
        forall|j: int| 0 <= j < k ==> seq_lt(#[trigger] s[j], x),
        k == s.len() || seq_lt(x, s[k]),
    ensures
        ascending(s.insert(k, x)),
{
    let r = s.insert(k, x);
    assert forall|i: int, j: int| 0 <= i < j < r.len() implies seq_lt(#[trigger] r[i], #[trigger] r[j]) by {
        if j < k {
            assert(r[i] == s[i] && r[j] == s[j]);
        } else if j == k {
            assert(r[i] == s[i]);
        } else if i < k {
            assert(r[i] == s[i] && r[j] == s[j - 1]);
            if k < s.len() {
                assert(seq_lt(x, s[k]));
                if j - 1 > k {
                    assert(seq_lt(s[k], s[j - 1]));
                    lemma_seq_lt_transitive(x, s[k], s[j - 1]);
                }
                lemma_seq_lt_transitive(s[i], x, s[j - 1]);
            }
        } else if i == k {
            assert(r[j] == s[j - 1]);
            if j - 1 > k {
                assert(seq_lt(s[k], s[j - 1]));
                lemma_seq_lt_transitive(x, s[k], s[j - 1]);
            }
        } else {
            assert(r[i] == s[i - 1] && r[j] == s[j - 1]);
        }
    }
}

} // verus!

verus! {

proof fn lemma_paths_update(entries: Seq<IdEntry>, k: int, e2: IdEntry, t: Seq<char>, i: u64, j: int)
    requires
        0 <= j <= k < entries.len(),
        e2.ty@ == entries[k].ty@,
        e2.id == entries[k].id,
        forall|m: int| 0 <= m < k ==> !(entries[m].ty@ == e2.ty@ && entries[m].id == e2.id),
    ensures
        paths_from(entries.update(k, e2), t, i, j) == if t == e2.ty@ && i == e2.id {
            names(e2.paths@)
        } else {
            paths_from(entries, t, i, j)
        },
    decreases k - j,
{
    let u = entries.update(k, e2);
    if j < k {
        assert(u[j] == entries[j]);
        lemma_paths_update(entries, k, e2, t, i, j + 1);
    } else {
        assert(u[k] == e2);
        if !(t == e2.ty@ && i == e2.id) {
            lemma_paths_same_after(entries, u, k + 1, t, i);
        }
    }
}

proof fn lemma_paths_same_after(a: Seq<IdEntry>, b: Seq<IdEntry>, j: int, t: Seq<char>, i: u64)
    requires
        a.len() == b.len(),
        0 <= j,
        forall|m: int| j <= m < a.len() ==> a[m] == b[m],
    ensures
        paths_from(a, t, i, j) == paths_from(b, t, i, j),
    decreases a.len() - j,
{
    if j < a.len() {
        lemma_paths_same_after(a, b, j + 1, t, i);
    }
}

proof fn lemma_paths_push(entries: Seq<IdEntry>, e: IdEntry, t: Seq<char>, i: u64, j: int)
    requires
        0 <= j <= entries.len(),
        forall|m: int| 0 <= m < entries.len() ==> !(entries[m].ty@ == e.ty@ && entries[m].id == e.id),
    ensures
        paths_from(entries.push(e), t, i, j) == if t == e.ty@ && i == e.id {
            names(e.paths@)
        } else {
            paths_from(entries, t, i, j)
        },
    decreases entries.len() - j,
{
    let p = entries.push(e);
    if j < entries.len() {
        assert(p[j] == entries[j]);
        lemma_paths_push(entries, e, t, i, j + 1);
    } else {
        assert(p[j] == e);
        assert(paths_from(p, t, i, j + 1) == Seq::<Seq<char>>::empty());
    }
}

impl NumericIDsRegistry {
    /// Every list of places is in ascending order.
    pub closed spec fn wf(&self) -> bool {
        forall|k: int| 0 <= k < self.entries@.len() ==> ascending(names(#[trigger] self.entries@[k].paths@))
    }

    /// In a well-formed registry the places of an id are in ascending order.
    pub proof fn lemma_paths_ascending(&self, ty: Seq<char>, id: u64)
        requires
            self.wf(),
        ensures
            ascending(self.paths(ty, id)),
    {
        self.lemma_paths_from_ascending(ty, id, 0);
    }

    proof fn lemma_paths_from_ascending(&self, ty: Seq<char>, id: u64, j: int)
        requires
            self.wf(),
            0 <= j,
        ensures
            ascending(paths_from(self.entries@, ty, id, j)),
        decreases self.entries@.len() - j,
    {
        if j < self.entries@.len() {
            assert(ascending(names(self.entries@[j].paths@)));
            self.lemma_paths_from_ascending(ty, id, j + 1);
        }
    }

    /// Records that id `id` of type `ty` is defined at `path`.
    pub fn insert_path(&mut self, ty: &String, id: u64, path: &String)
        requires
            old(self).wf(),
        ensures
            final(self).wf(),
            forall|t: Seq<char>, i: u64| #[trigger] final(self).paths(t, i) == if t == ty@ && i == id {
                insert_sorted(old(self).paths(ty@, id), path@)
            } else {
                old(self).paths(t, i)
            },
    {
        match find_entry(self, ty, id) {
            None => {
                let mut paths: Vec<String> = Vec::new();
                paths.push(path.clone());
                let e = IdEntry { ty: ty.clone(), id, paths };
                proof {
                    assert(names(e.paths@) =~= seq![path@]);
                    assert forall|t: Seq<char>, i: u64| #[trigger] paths_from(self.entries@.push(e), t, i, 0)
                        == if t == ty@ && i == id { names(e.paths@) } else { paths_from(self.entries@, t, i, 0) } by {
                        lemma_paths_push(self.entries@, e, t, i, 0);
                    }
                }
                let ghost before = self.entries@;
                self.entries.push(e);
                proof {
                    assert forall|k: int| 0 <= k < self.entries@.len() implies ascending(names(#[trigger] self.entries@[k].paths@)) by {
                        if k < before.len() {
                            assert(self.entries@[k] == before[k]);
                        }
                    }
                }
            },
            Some(k) => {
                let ghost old_paths = names(self.entries@[k as int].paths@);
                proof {
                    assert(ascending(names(self.entries@[k as int].paths@)));
                }
                let old = &self.entries[k].paths;
                let n = old.len();
                let mut pos: usize = 0;
                while pos < n && string_lt(&old[pos], path)
                    invariant
                        n == old@.len(),
                        pos <= n,
                        old_paths == names(old@),
                        forall|j: int| 0 <= j < pos ==> seq_lt(#[trigger] old_paths[j], path@),
                    decreases n - pos,
                {
                    pos = pos + 1;
                }
                proof {
                    lemma_insert_sorted_at(old_paths, path@, pos as int);
                }
                if pos < n && old[pos] == *path {
                    return;
                }
                let mut new_paths: Vec<String> = Vec::new();
                let mut j: usize = 0;
                while j < n
                    invariant
                        n == old@.len(),
                        pos <= n,
                        j <= n,
                        old_paths == names(old@),
                        names(new_paths@) == if j <= pos {
                            old_paths.subrange(0, j as int)
                        } else {
                            old_paths.insert(pos as int, path@).subrange(0, j + 1)
                        },
                    decreases n - j,
                {
                    let ghost prev = new_paths@;
                    proof {
                        assert(names(prev).len() == prev.len());
                        if j <= pos {
                            assert(prev.len() == j);
                        } else {
                            assert(prev.len() == j + 1);
                        }
                    }
                    if j == pos {
                        new_paths.push(path.clone());
                    }
                    let ghost mid = new_paths@;
                    new_paths.push(old[j].clone());
                    proof {
                        let ins = old_paths.insert(pos as int, path@);
                        assert(names(old@)[j as int] == old@[j as int]@);
                        if j < pos {
                            assert(mid == prev);
                            assert forall|m: int| 0 <= m < j + 1 implies names(new_paths@)[m] == old_paths.subrange(0, j + 1)[m] by {
                                if m < j {
                                    assert(new_paths@[m] == prev[m]);
                                    assert(names(prev)[m] == old_paths[m]);
                                }
                            }
                            assert(names(new_paths@) =~= old_paths.subrange(0, j + 1));
                        } else {
                            assert forall|m: int| 0 <= m < j + 2 implies names(new_paths@)[m] == ins.subrange(0, j + 2)[m] by {
                                if m < j + 1 {
                                    assert(new_paths@[m] == mid[m]);
                                    if j == pos {
                                        if m < j {
                                            assert(mid[m] == prev[m]);
                                            assert(names(prev)[m] == old_paths[m]);
                                        }
                                    } else {
                                        assert(mid == prev);
                                        assert(names(prev)[m] == ins[m]);
                                    }
                                }
                            }
                            assert(names(new_paths@) =~= ins.subrange(0, j + 2));
                        }
                    }
                    j = j + 1;
                }
                if pos == n {
                    new_paths.push(path.clone());
                }
                proof {
                    let ins = old_paths.insert(pos as int, path@);
                    assert(names(new_paths@) =~= ins);
                    if pos < n {
                        lemma_seq_lt_total(old_paths[pos as int], path@);
                    }
                    lemma_insert_ascending(old_paths, path@, pos as int);
                }
                let e2 = IdEntry { ty: ty.clone(), id, paths: new_paths };
                proof {
                    assert forall|t: Seq<char>, i: u64| #[trigger] paths_from(self.entries@.update(k as int, e2), t, i, 0)
                        == if t == ty@ && i == id { names(e2.paths@) } else { paths_from(self.entries@, t, i, 0) } by {
                        lemma_paths_update(self.entries@, k as int, e2, t, i, 0);
                    }
                }
                let ghost before = self.entries@;
                self.entries.set(k, e2);
                proof {
                    assert forall|m: int| 0 <= m < self.entries@.len() implies ascending(names(#[trigger] self.entries@[m].paths@)) by {
                        if m != k {
                            assert(self.entries@[m] == before[m]);
                        }
                    }
                }
            },
        }
    }
}

} // verus!

verus! {

/// A problem found when an id is defined.
#[derive(Debug, PartialEq, Eq)]
pub enum IdValidationError {
    /// The id is defined elsewhere too (the other places are given).
    DuplicateId { ty: String, others: Vec<String> },
    /// The id is reserved for the type.
    ReservedId { ty: String, id: u64 },
    /// A problem found in a type that `ty` may not share ids with.
    FromConflicting { ty: String, conflicting: String, error: Box<IdValidationError> },
}

pub enum SIdErr {
    Duplicate(Seq<char>, Seq<Seq<char>>),
    Reserved(Seq<char>, u64),
    From(Seq<char>, Seq<char>, Box<SIdErr>),
}

impl IdValidationError {
    pub open spec fn view(&self) -> SIdErr
        decreases self,
    {
        match self {
            IdValidationError::DuplicateId { ty, others } => SIdErr::Duplicate(ty@, names(others@)),
            IdValidationError::ReservedId { ty, id } => SIdErr::Reserved(ty@, *id),
            IdValidationError::FromConflicting { ty, conflicting, error } => SIdErr::From(
                ty@,
                conflicting@,
                Box::new(error.view()),
            ),
        }
    }
}

/// Each problem of `e`, marked as coming from the conflicting type `c` of `ty`.
pub open spec fn wrap_all(ty: Seq<char>, c: Seq<char>, e: Seq<SIdErr>) -> Seq<SIdErr> {
    e.map_values(|x: SIdErr| SIdErr::From(ty, c, Box::new(x)))
}

pub open spec fn views(v: Seq<IdValidationError>) -> Seq<SIdErr> {
    v.map_values(|e: IdValidationError| e.view())
}

/// The problems found when id `id` of type `ty` is checked, walking the
/// conflicting-type rules depth first and skipping visited types; with the
/// types visited afterwards. The first call (`top`) also counts `path` as a
/// place of the id.
pub open spec fn conflicts(
    cfg: ReservedIdConfig,
    reg: NumericIDsRegistry,
    fuel: nat,
    ty: Seq<char>,
    id: u64,
    visited: Seq<Seq<char>>,
    top: bool,
    path: Seq<char>,
) -> (Seq<SIdErr>, Seq<Seq<char>>)
    decreases fuel, 0nat,
{
    if fuel == 0 || visited.contains(ty) {
        (Seq::empty(), visited)
    } else {
        let v1 = visited.push(ty);
        let (e1, v2) = match lookup(cfg, ty) {
            None => (Seq::<SIdErr>::empty(), v1),
            Some(c) => {
                let r = if c.reserved_ids@.contains(id) {
                    seq![SIdErr::Reserved(ty, id)]
                } else {
                    Seq::empty()
                };
                let (e, v) = conflicts_list(
                    cfg,
                    reg,
                    (fuel - 1) as nat,
                    ty,
                    id,
                    names(c.conflicting_types@),
                    0,
                    v1,
                    path,
                );
                (r + e, v)
            },
        };
        let old_paths = reg.paths(ty, id);
        let dup = if top {
            let ps = insert_sorted(old_paths, path);
            if ps.len() > 1 {
                seq![SIdErr::Duplicate(ty, without(ps, path))]
            } else {
                Seq::empty()
            }
        } else {
            if old_paths.len() > 0 {
                seq![SIdErr::Duplicate(ty, old_paths)]
            } else {
                Seq::empty()
            }
        };
        (e1 + dup, v2)
    }
}

/// The problems found in the conflicting types `list[i..]` of `ty`, each
/// wrapped as coming from that type.
pub open spec fn conflicts_list(
    cfg: ReservedIdConfig,
    reg: NumericIDsRegistry,
    fuel: nat,
    ty: Seq<char>,
    id: u64,
    list: Seq<Seq<char>>,
    i: int,
    visited: Seq<Seq<char>>,
    path: Seq<char>,
) -> (Seq<SIdErr>, Seq<Seq<char>>)
    decreases fuel, if 0 <= i < list.len() { (list.len() - i + 1) as nat } else { 0nat },
{
    if i < 0 || i >= list.len() {
        (Seq::empty(), visited)
    } else {
        let (e, v) = conflicts(cfg, reg, fuel, list[i], id, visited, false, path);
        let wrapped = wrap_all(ty, list[i], e);
        let (rest, v2) = conflicts_list(cfg, reg, fuel, ty, id, list, i + 1, v, path);
        (wrapped + rest, v2)
    }
}

pub proof fn lemma_insert_sorted_facts(s: Seq<Seq<char>>, x: Seq<char>)
    requires
        ascending(s),
    ensures
        without(insert_sorted(s, x), x) == without(s, x),
        insert_sorted(s, x).len() == s.len() + if s.contains(x) { 0int } else { 1int },
    decreases s.len(),
{
    if s.len() == 0 {
        assert(without(seq![x], x) == without(seq![x].drop_first(), x));
        assert(seq![x].drop_first() =~= Seq::<Seq<char>>::empty());
    } else if s[0] == x {
        assert(s.contains(x));
    } else if seq_lt(x, s[0]) {
        let r = seq![x] + s;
        assert(r.drop_first() =~= s);
        assert(r[0] == x);
        lemma_ascending_absent(s, x);
    } else {
        let t = s.drop_first();
        assert forall|i: int, j: int| 0 <= i < j < t.len() implies seq_lt(#[trigger] t[i], #[trigger] t[j]) by {
            assert(seq_lt(s[i + 1], s[j + 1]));
        }
        lemma_insert_sorted_facts(t, x);
        let r = seq![s[0]] + insert_sorted(t, x);
        assert(r.drop_first() =~= insert_sorted(t, x));
        assert(r[0] == s[0]);
        assert(s.contains(x) == t.contains(x)) by {
            if s.contains(x) {
                let k = choose|k: int| 0 <= k < s.len() && s[k] == x;
                assert(t[k - 1] == x);
            }
            if t.contains(x) {
                let k = choose|k: int| 0 <= k < t.len() && t[k] == x;
                assert(s[k + 1] == x);
            }
        }
    }
}

/// In an ascending list, nothing before the head is in the list.
proof fn lemma_ascending_absent(s: Seq<Seq<char>>, x: Seq<char>)
    requires
        ascending(s),
        s.len() > 0,
        seq_lt(x, s[0]),
    ensures
        !s.contains(x),
{
    if s.contains(x) {
        let k = choose|k: int| 0 <= k < s.len() && s[k] == x;
        if k == 0 {
            lemma_seq_lt_irreflexive(x);
        } else {
            assert(seq_lt(s[0], s[k]));
            lemma_seq_lt_transitive(s[0], x, s[0]);
            lemma_seq_lt_irreflexive(s[0]);
        }
    }
}

} // verus!

verus! {

/// `without` distributes over concatenation.
proof fn lemma_without_append(a: Seq<Seq<char>>, b: Seq<Seq<char>>, x: Seq<char>)
    ensures
        without(a + b, x) == without(a, x) + without(b, x),
    decreases a.len(),
{
    if a.len() == 0 {
        assert(a + b =~= b);
    } else {
        assert((a + b).drop_first() =~= a.drop_first() + b);
        assert((a + b)[0] == a[0]);
        lemma_without_append(a.drop_first(), b, x);
        if a[0] != x {
            assert(seq![a[0]] + (without(a.drop_first(), x) + without(b, x)) =~= (seq![a[0]] + without(
                a.drop_first(),
                x,
            )) + without(b, x));
        }
    }
}

/// Taking `x` out of an ascending list shortens it by one exactly when `x` is in it.
proof fn lemma_without_len(s: Seq<Seq<char>>, x: Seq<char>)
    requires
        ascending(s),
    ensures
        without(s, x).len() == s.len() - if s.contains(x) { 1int } else { 0int },
    decreases s.len(),
{
    if s.len() > 0 {
        let t = s.drop_first();
        assert forall|i: int, j: int| 0 <= i < j < t.len() implies seq_lt(#[trigger] t[i], #[trigger] t[j]) by {
            assert(seq_lt(s[i + 1], s[j + 1]));
        }
        lemma_without_len(t, x);
        if s[0] == x {
            assert(s.contains(x));
            if t.contains(x) {
                let k = choose|k: int| 0 <= k < t.len() && t[k] == x;
                assert(seq_lt(s[0], s[k + 1]));
                lemma_seq_lt_irreflexive(x);
            }
        } else {
            assert(s.contains(x) == t.contains(x)) by {
                if s.contains(x) {
                    let k = choose|k: int| 0 <= k < s.len() && s[k] == x;
                    assert(t[k - 1] == x);
                }
                if t.contains(x) {
                    let k = choose|k: int| 0 <= k < t.len() && t[k] == x;
                    assert(s[k + 1] == x);
                }
            }
        }
    }
}

proof fn lemma_without_single(a: Seq<char>, x: Seq<char>)
    ensures
        without(seq![a], x) == if a == x { Seq::<Seq<char>>::empty() } else { seq![a] },
{
    let q = seq![a];
    assert(q.drop_first() =~= Seq::<Seq<char>>::empty());
    assert(without(q.drop_first(), x) == Seq::<Seq<char>>::empty());
    if a != x {
        assert(seq![a] + Seq::<Seq<char>>::empty() =~= seq![a]);
    }
}

/// Copies of the places of id `id` of type `ty`.
fn paths_of(reg: &NumericIDsRegistry, ty: &String, id: u64) -> (r: Vec<String>)
    ensures
        names(r@) == reg.paths(ty@, id),
{
    let mut r: Vec<String> = Vec::new();
    match find_entry(reg, ty, id) {
        None => {
            assert(names(r@) =~= reg.paths(ty@, id));
        },
        Some(k) => {
            let src = &reg.entries[k].paths;
            let mut i: usize = 0;
            while i < src.len()
                invariant
                    i <= src@.len(),
                    names(r@) == names(src@).subrange(0, i as int),
                decreases src.len() - i,
            {
                let ghost prev = r@;
                let c = src[i].clone();
                r.push(c);
                assert(names(r@) =~= names(prev).push(src@[i as int]@));
                i = i + 1;
                assert(names(r@) =~= names(src@).subrange(0, i as int));
            }
            assert(names(r@) =~= names(src@));
        },
    }
    r
}

/// The strings of `v` other than `x`, in order.
fn without_path(v: &Vec<String>, x: &String) -> (r: Vec<String>)
    ensures
        names(r@) == without(names(v@), x@),
{
    let mut r: Vec<String> = Vec::new();
    let mut i: usize = 0;
    while i < v.len()
        invariant
            i <= v@.len(),
            names(r@) == without(names(v@).subrange(0, i as int), x@),
        decreases v.len() - i,
    {
        let ghost s = names(v@);
        proof {
            assert(s.subrange(0, i + 1) =~= s.subrange(0, i as int) + seq![s[i as int]]);
            lemma_without_append(s.subrange(0, i as int), seq![s[i as int]], x@);
            lemma_without_single(s[i as int], x@);
            assert(s[i as int] == v@[i as int]@);
        }
        if v[i] != *x {
            r.push(v[i].clone());
            assert(names(r@) =~= without(s.subrange(0, i as int), x@) + seq![s[i as int]]);
        } else {
            assert(without(s.subrange(0, i as int), x@) + Seq::<Seq<char>>::empty() =~= without(
                s.subrange(0, i as int),
                x@,
            ));
        }
        i = i + 1;
    }
    assert(names(v@).subrange(0, v@.len() as int) =~= names(v@));
    r
}

/// Moves the problems of `sub` to the end of `out`, each wrapped as coming
/// from the conflicting type `conflicting` of `ty`.
fn wrap_into(out: &mut Vec<IdValidationError>, sub: Vec<IdValidationError>, ty: &String, conflicting: &String)
    ensures
        views(final(out)@) == views(old(out)@) + wrap_all(ty@, conflicting@, views(sub@)),
{
    let ghost o = views(out@);
    let ghost all = views(sub@);
    let mut sub = sub;
    let ghost n = sub@.len();
    while sub.len() > 0
        invariant
            sub@.len() <= n,
            all.len() == n,
            views(sub@) == all.subrange(n - sub@.len(), n as int),
            views(out@) == o + wrap_all(ty@, conflicting@, all.subrange(0, n - sub@.len())),
        decreases sub.len(),
    {
        let ghost before = sub@;
        let e = sub.remove(0);
        proof {
            assert(views(before)[0] == e.view());
            assert(views(sub@) =~= views(before).drop_first());
        }
        let ghost k = n - before.len();
        let ghost prev_out = out@;
        let ghost ev = e.view();
        let w = IdValidationError::FromConflicting { ty: ty.clone(), conflicting: conflicting.clone(), error: Box::new(e) };
        assert(w.view() == SIdErr::From(ty@, conflicting@, Box::new(ev)));
        out.push(w);
        proof {
            assert(all[k] == ev);
            assert(wrap_all(ty@, conflicting@, all.subrange(0, k + 1)) =~= wrap_all(ty@, conflicting@, all.subrange(0, k)).push(
                SIdErr::From(ty@, conflicting@, Box::new(ev)),
            ));
            assert(views(out@) =~= views(prev_out).push(w.view()));
            assert(views(sub@) =~= all.subrange(n - sub@.len(), n as int));
        }
    }
    assert(all.subrange(0, n as int) =~= all);
}

} // verus!

verus! {

/// Checks id `id` of type `ty`: whether it is reserved, what the conflicting
/// types report, and where else it is defined. Visited types are skipped.
fn check_conflicts(
    cfg: &ReservedIdConfig,
    reg: &NumericIDsRegistry,
    ty: &String,
    id: u64,
    visited: &mut Vec<String>,
    top: bool,
    path: &String,
    Ghost(fuel): Ghost<nat>,
    Ghost(root): Ghost<Seq<char>>,
) -> (r: Vec<IdValidationError>)
    requires
        reg.wf(),
        names(old(visited)@).no_duplicates(),
        forall|x: Seq<char>| names(old(visited)@).contains(x) ==> universe(*cfg, root).contains(x),
        universe(*cfg, root).contains(ty@),
        fuel > universe(*cfg, root).len() - old(visited)@.len(),
    ensures
        names(final(visited)@).no_duplicates(),
        forall|x: Seq<char>| names(final(visited)@).contains(x) ==> universe(*cfg, root).contains(x),
        old(visited)@.len() <= final(visited)@.len(),
        (views(r@), names(final(visited)@)) == conflicts(*cfg, *reg, fuel, ty@, id, names(old(visited)@), top, path@),
    decreases universe(*cfg, root).len() - old(visited)@.len(),
{
    let ghost u = universe(*cfg, root);
    let ghost v0 = names(visited@);
    proof {
        lemma_distinct_bound(v0, u);
    }
    if contains_name(visited, ty) {
        let r: Vec<IdValidationError> = Vec::new();
        assert(views(r@) =~= Seq::<SIdErr>::empty());
        return r;
    }
    let tyc = ty.clone();
    visited.push(tyc);
    proof {
        assert(names(visited@) =~= v0.push(ty@));
        lemma_in_universe(*cfg, root, Edges::Conflicting, ty@);
    }
    let ghost v1 = names(visited@);
    let mut errors: Vec<IdValidationError> = Vec::new();
    match find_config(cfg, ty) {
        None => {
            assert(views(errors@) =~= Seq::<SIdErr>::empty());
        },
        Some(c) => {
            if contains_id(&c.reserved_ids, id) {
                errors.push(IdValidationError::ReservedId { ty: ty.clone(), id });
            }
            let ghost r0 = views(errors@);
            proof {
                assert(r0 =~= if c.reserved_ids@.contains(id) {
                    seq![SIdErr::Reserved(ty@, id)]
                } else {
                    Seq::<SIdErr>::empty()
                });
            }
            let ghost list = names(c.conflicting_types@);
            let ghost f1 = (fuel - 1) as nat;
            let ghost full = conflicts_list(*cfg, *reg, f1, ty@, id, list, 0, v1, path@);
            let n = c.conflicting_types.len();
            let mut i: usize = 0;
            while i < n
                invariant
                    reg.wf(),
                    lookup(*cfg, ty@) == Some(*c),
                    n == c.conflicting_types@.len(),
                    list == names(c.conflicting_types@),
                    i <= n,
                    u == universe(*cfg, root),
                    f1 == fuel - 1,
                    fuel > u.len() - v0.len(),
                    v0.len() + 1 <= visited@.len(),
                    v0.len() == old(visited)@.len(),
                    names(visited@).no_duplicates(),
                    forall|x: Seq<char>| names(visited@).contains(x) ==> u.contains(x),
                    views(errors@) + conflicts_list(*cfg, *reg, f1, ty@, id, list, i as int, names(visited@), path@).0
                        == r0 + full.0,
                    conflicts_list(*cfg, *reg, f1, ty@, id, list, i as int, names(visited@), path@).1 == full.1,
                decreases n - i,
            {
                let y = &c.conflicting_types[i];
                proof {
                    assert(list[i as int] == y@);
                    assert(succ(*cfg, Edges::Conflicting, ty@) == list);
                    assert(succ(*cfg, Edges::Conflicting, ty@).contains(y@));
                    lemma_in_universe(*cfg, root, Edges::Conflicting, ty@);
                    lemma_distinct_bound(names(visited@), u);
                    assert(names(visited@).len() == visited@.len());
                }
                let ghost vis = names(visited@);
                let ghost before = views(errors@);
                let sub = check_conflicts(cfg, reg, y, id, visited, false, path, Ghost(f1), Ghost(root));
                let ghost se = views(sub@);
                wrap_into(&mut errors, sub, ty, y);
                proof {
                    let here = conflicts(*cfg, *reg, f1, list[i as int], id, vis, false, path@);
                    assert(here.0 == se);
                    assert(here.1 == names(visited@));
                    let rest = conflicts_list(*cfg, *reg, f1, ty@, id, list, i + 1, names(visited@), path@);
                    assert(conflicts_list(*cfg, *reg, f1, ty@, id, list, i as int, vis, path@) == (
                        wrap_all(ty@, list[i as int], here.0) + rest.0,
                        rest.1,
                    ));
                    assert(views(errors@) == before + wrap_all(ty@, y@, se));
                    assert(views(errors@) + rest.0 =~= before + (wrap_all(ty@, list[i as int], here.0) + rest.0));
                }
                i = i + 1;
            }
            proof {
                assert(conflicts_list(*cfg, *reg, f1, ty@, id, list, i as int, names(visited@), path@).0
                    =~= Seq::<SIdErr>::empty());
                assert(views(errors@) =~= r0 + full.0);
            }
        },
    }
    let ghost e1 = views(errors@);
    let ghost v2 = names(visited@);
    let old_paths = paths_of(reg, ty, id);
    let ghost op = reg.paths(ty@, id);
    proof {
        reg.lemma_paths_ascending(ty@, id);
        lemma_insert_sorted_facts(op, path@);
        lemma_without_len(op, path@);
    }
    if top {
        let others = without_path(&old_paths, path);
        if others.len() > 0 {
            errors.push(IdValidationError::DuplicateId { ty: ty.clone(), others });
        }
    } else if old_paths.len() > 0 {
        errors.push(IdValidationError::DuplicateId { ty: ty.clone(), others: old_paths });
    }
    proof {
        let dup = if top {
            let ps = insert_sorted(op, path@);
            if ps.len() > 1 {
                seq![SIdErr::Duplicate(ty@, without(ps, path@))]
            } else {
                Seq::empty()
            }
        } else {
            if op.len() > 0 {
                seq![SIdErr::Duplicate(ty@, op)]
            } else {
                Seq::empty()
            }
        };
        assert(views(errors@) =~= e1 + dup);
    }
    errors
}

/// What checking id `id` of type `ty`, defined at `path`, reports.
pub open spec fn id_problems(
    cfg: ReservedIdConfig,
    reg: NumericIDsRegistry,
    ty: Seq<char>,
    id: u64,
    path: Seq<char>,
) -> Seq<SIdErr> {
    conflicts(cfg, reg, (universe(cfg, ty).len() + 1) as nat, ty, id, Seq::empty(), true, path).0
}

/// The validator of id definitions.
#[derive(Debug)]
pub struct Id;

impl Id {
    /// Checks the definition of id `id` of type `ty` at `path`, and records it.
    pub fn validate(
        &self,
        config: &ReservedIdConfig,
        ids: &mut NumericIDsRegistry,
        ty: &String,
        id: u64,
        path: &String,
    ) -> (r: Vec<IdValidationError>)
        requires
            old(ids).wf(),
        ensures
            views(r@) == id_problems(*config, *old(ids), ty@, id, path@),
            final(ids).wf(),
            forall|t: Seq<char>, i: u64| #[trigger] final(ids).paths(t, i) == if t == ty@ && i == id {
                insert_sorted(old(ids).paths(ty@, id), path@)
            } else {
                old(ids).paths(t, i)
            },
    {
        let mut visited: Vec<String> = Vec::new();
        proof {
            let u = universe(*config, ty@);
            assert(u[0] == ty@);
            assert(names(visited@) =~= Seq::<Seq<char>>::empty());
        }
        let errors = check_conflicts(
            config,
            ids,
            ty,
            id,
            &mut visited,
            true,
            path,
            Ghost((universe(*config, ty@).len() + 1) as nat),
            Ghost(ty@),
        );
        ids.insert_path(ty, id, path);
        errors
    }

    /// Forgets every id recorded so far.
    pub fn clear_cache(&self, ids: &mut NumericIDsRegistry)
        ensures
            final(ids).wf(),
            forall|t: Seq<char>, i: u64| final(ids).paths(t, i).len() == 0,
    {
        ids.clear();
    }
}

/// Forgets what the validators recorded: every id defined so far.
pub fn clear_validation_cache(ids: &mut NumericIDsRegistry)
    ensures
        final(ids).wf(),
        forall|t: Seq<char>, i: u64| final(ids).paths(t, i).len() == 0,
{
    Id.clear_cache(ids);
}

} // verus!

verus! {

/// Once an id has been checked at a place, a reference to it is accepted:
/// the registry that `Id::validate` leaves holds a place for it.
pub proof fn law_defined_after_validate(
    cfg: ReservedIdConfig,
    before: NumericIDsRegistry,
    after: NumericIDsRegistry,
    ty: Seq<char>,
    id: u64,
    path: Seq<char>,
)
    requires
        forall|t: Seq<char>, i: u64| #[trigger] after.paths(t, i) == if t == ty && i == id {
            insert_sorted(before.paths(ty, id), path)
        } else {
            before.paths(t, i)
        },
    ensures
        after.paths(ty, id).contains(path),
        exists|z: Seq<char>| reaches(cfg, Edges::SatisfiedBy, ty, z) && holds(cfg, after, Goal::Known(id), z),
        exists|z: Seq<char>| reaches(cfg, Edges::SatisfiedBy, ty, z) && after.paths(z, id).len() > 0,
{
    lemma_insert_sorted_contains(before.paths(ty, id), path);
    law_reaches_reflexive(cfg, Edges::SatisfiedBy, ty);
    assert(holds(cfg, after, Goal::Known(id), ty));
}

proof fn lemma_insert_sorted_contains(s: Seq<Seq<char>>, x: Seq<char>)
    ensures
        insert_sorted(s, x).contains(x),
    decreases s.len(),
{
    if s.len() == 0 {
        assert(seq![x][0] == x);
    } else if s[0] == x {
        assert(s[0] == x);
    } else if seq_lt(x, s[0]) {
        assert((seq![x] + s)[0] == x);
    } else {
        lemma_insert_sorted_contains(s.drop_first(), x);
        let t = insert_sorted(s.drop_first(), x);
        let k = choose|k: int| 0 <= k < t.len() && t[k] == x;
        assert((seq![s[0]] + t)[k + 1] == x);
    }
}

/// Recording the same place twice records it once.
pub proof fn law_insert_idempotent(s: Seq<Seq<char>>, x: Seq<char>)
    ensures
        insert_sorted(insert_sorted(s, x), x) == insert_sorted(s, x),
    decreases s.len(),
{
    if s.len() == 0 {
        assert(seq![x][0] == x);
    } else if s[0] == x {
    } else if seq_lt(x, s[0]) {
        assert((seq![x] + s)[0] == x);
    } else {
        let t = s.drop_first();
        law_insert_idempotent(t, x);
        let r = seq![s[0]] + insert_sorted(t, x);
        assert(r[0] == s[0]);
        assert(r.drop_first() =~= insert_sorted(t, x));
    }
}

/// `without` leaves a list that does not hold `x` as it is.
proof fn lemma_without_absent(s: Seq<Seq<char>>, x: Seq<char>)
    requires
        !s.contains(x),
    ensures
        without(s, x) == s,
    decreases s.len(),
{
    if s.len() > 0 {
        assert(s[0] != x);
        assert(!s.drop_first().contains(x)) by {
            if s.drop_first().contains(x) {
                let k = choose|k: int| 0 <= k < s.drop_first().len() && s.drop_first()[k] == x;
                assert(s[k + 1] == x);
            }
        }
        lemma_without_absent(s.drop_first(), x);
        assert(seq![s[0]] + s.drop_first() =~= s);
    }
}

/// An id already defined at another place is reported as a duplicate, with
/// every other place of it, as the last problem found.
pub proof fn law_duplicate_reported(cfg: ReservedIdConfig, reg: NumericIDsRegistry, ty: Seq<char>, id: u64, path: Seq<char>)
    requires
        reg.wf(),
        exists|q: Seq<char>| reg.paths(ty, id).contains(q) && q != path,
    ensures
        id_problems(cfg, reg, ty, id, path).len() > 0,
        id_problems(cfg, reg, ty, id, path).last() == SIdErr::Duplicate(ty, without(reg.paths(ty, id), path)),
        !reg.paths(ty, id).contains(path) ==> id_problems(cfg, reg, ty, id, path).last() == SIdErr::Duplicate(
            ty,
            reg.paths(ty, id),
        ),
{
    let op = reg.paths(ty, id);
    reg.lemma_paths_ascending(ty, id);
    lemma_insert_sorted_facts(op, path);
    lemma_without_len(op, path);
    let q = choose|q: Seq<char>| op.contains(q) && q != path;
    if op.contains(path) {
        assert(op.len() >= 2) by {
            let a = choose|a: int| 0 <= a < op.len() && op[a] == q;
            let b = choose|b: int| 0 <= b < op.len() && op[b] == path;
            assert(a != b);
        }
    }
    let fuel = (universe(cfg, ty).len() + 1) as nat;
    let full = conflicts(cfg, reg, fuel, ty, id, Seq::empty(), true, path);
    assert(!Seq::<Seq<char>>::empty().contains(ty));
    if !op.contains(path) {
        lemma_without_absent(op, path);
    }
}

} // verus!
