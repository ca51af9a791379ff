//! Regions of a node graph: a region starts at one node and ends at another;
//! each node belongs to the innermost region that reaches it, and regions
//! nest into a hierarchy.
//!
//! Nodes are named by their id; regions by their number. Inside, a node is
//! named by its place in the list of nodes.
use crate::dag::{dag_new, dag_add_node, dag_try_add_edge, dag_toposort, dag_ranked, dag_tred, ranked_successors, dag_len, dag_edges, dag_path, edge_walk, toposort_of, ranked_adj, ranked_path, ranked, increasing, ints, is_topo_order, Dag, RankedList};
use vstd::prelude::*;

verus! {

/// A node of the graph, as far as regions are concerned.
#[derive(Debug, Clone, Copy, PartialEq, Eq)]
pub struct GraphNode {
    pub id: usize,
    /// The region that this node starts, if any.
    pub region_source: Option<u128>,
    /// The region that this node ends, if any.
    pub region_end: Option<u128>,
    pub has_side_effects: bool,
}

/// A wire from an output of node `from` to an input of node `to` (node ids).
#[derive(Debug, Clone, Copy, PartialEq, Eq)]
pub struct Wire {
    pub from: usize,
    pub to: usize,
}

/// The nodes and wires of a graph.
pub struct NodeGraph {
    pub nodes: Vec<GraphNode>,
    pub wires: Vec<Wire>,
}

/// Why regions could not be worked out.
#[derive(Debug, PartialEq, Eq)]
pub enum GraphRegionBuildError {
    NotReady,
    Dirty,
    NodeCycle(usize, usize),
    NodeSelfLoop(usize),
    MultipleEndpoints(u128, usize, usize),
    MultipleSources(u128, usize, usize),
    MissingEndpoint(u128, usize),
    MissingSource(u128, usize),
    SameSourceAndEndpoint(u128, usize),
    AmbiguousNodeRegion { node: usize, regions: Vec<(u128, usize)> },
    CyclicalDependency { a: (u128, usize), b: (u128, usize) },
    MultipleParentRegions { region: (u128, usize), parents: Vec<(u128, usize)> },
}

/// `GraphRegionBuildError` with its lists as sequences.
pub enum SBuildErr {
    NotReady,
    Dirty,
    NodeCycle(usize, usize),
    NodeSelfLoop(usize),
    MultipleEndpoints(u128, usize, usize),
    MultipleSources(u128, usize, usize),
    MissingEndpoint(u128, usize),
    MissingSource(u128, usize),
    SameSourceAndEndpoint(u128, usize),
    AmbiguousNodeRegion(usize, Seq<(u128, usize)>),
    CyclicalDependency((u128, usize), (u128, usize)),
    MultipleParentRegions((u128, usize), Seq<(u128, usize)>),
}

impl GraphRegionBuildError {
    pub open spec fn view(&self) -> SBuildErr {
        match self {
            GraphRegionBuildError::NotReady => SBuildErr::NotReady,
            GraphRegionBuildError::Dirty => SBuildErr::Dirty,
            GraphRegionBuildError::NodeCycle(a, b) => SBuildErr::NodeCycle(*a, *b),
            GraphRegionBuildError::NodeSelfLoop(a) => SBuildErr::NodeSelfLoop(*a),
            GraphRegionBuildError::MultipleEndpoints(r, a, b) => SBuildErr::MultipleEndpoints(*r, *a, *b),
            GraphRegionBuildError::MultipleSources(r, a, b) => SBuildErr::MultipleSources(*r, *a, *b),
            GraphRegionBuildError::MissingEndpoint(r, a) => SBuildErr::MissingEndpoint(*r, *a),
            GraphRegionBuildError::MissingSource(r, a) => SBuildErr::MissingSource(*r, *a),
            GraphRegionBuildError::SameSourceAndEndpoint(r, a) => SBuildErr::SameSourceAndEndpoint(*r, *a),
            GraphRegionBuildError::AmbiguousNodeRegion { node, regions } => SBuildErr::AmbiguousNodeRegion(
                *node,
                regions@,
            ),
            GraphRegionBuildError::CyclicalDependency { a, b } => SBuildErr::CyclicalDependency(*a, *b),
            GraphRegionBuildError::MultipleParentRegions { region, parents } => SBuildErr::MultipleParentRegions(
                *region,
                parents@,
            ),
        }
    }
}

/// The place in `nodes` of the node with this id.
pub open spec fn place_of(nodes: Seq<GraphNode>, id: usize) -> int {
    choose|i: int| 0 <= i < nodes.len() && nodes[i].id == id
}

impl NodeGraph {
    /// Node ids are distinct and every wire joins two nodes of the graph.
    pub open spec fn wf(&self) -> bool {
        &&& forall|i: int, j: int| 0 <= i < j < self.nodes@.len() ==> self.nodes@[i].id != self.nodes@[j].id
        &&& forall|k: int| 0 <= k < self.wires@.len() ==> (exists|i: int| 0 <= i < self.nodes@.len()
            && self.nodes@[i].id == #[trigger] self.wires@[k].from)
        &&& forall|k: int| 0 <= k < self.wires@.len() ==> (exists|i: int| 0 <= i < self.nodes@.len()
            && self.nodes@[i].id == #[trigger] self.wires@[k].to)
    }

    /// The wires, each as the places of the nodes it joins.
    pub open spec fn edges(&self) -> Seq<(int, int)> {
        self.wires@.map_values(|w: Wire| (place_of(self.nodes@, w.from), place_of(self.nodes@, w.to)))
    }
}

/// A region as first found: its id and the places of its start and end nodes.
pub struct SReg {
    pub id: u128,
    pub source: Option<int>,
    pub endpoint: Option<int>,
}

/// The number of the region with id `id` among `regs[k..]`.
pub open spec fn reg_index(regs: Seq<SReg>, id: u128, k: int) -> Option<int>
    decreases regs.len() - k,
{
    if k < 0 || k >= regs.len() {
        None
    } else if regs[k].id == id {
        Some(k)
    } else {
        reg_index(regs, id, k + 1)
    }
}

/// Records that node `i` ends a region, if it does.
pub open spec fn end_step(nodes: Seq<GraphNode>, regs: Seq<SReg>, i: int) -> Result<Seq<SReg>, SBuildErr> {
    match nodes[i].region_end {
        None => Ok(regs),
        Some(r) => match reg_index(regs, r, 0) {
            Some(k) => match regs[k].endpoint {
                Some(e) => Err(SBuildErr::MultipleEndpoints(r, nodes[e].id, nodes[i].id)),
                None => Ok(regs.update(k, SReg { id: r, source: regs[k].source, endpoint: Some(i) })),
            },
            None => Ok(regs.push(SReg { id: r, source: None, endpoint: Some(i) })),
        },
    }
}

/// Records that node `i` starts a region, if it does.
pub open spec fn source_step(nodes: Seq<GraphNode>, regs: Seq<SReg>, i: int) -> Result<Seq<SReg>, SBuildErr> {
    match nodes[i].region_source {
        None => Ok(regs),
        Some(r) => match reg_index(regs, r, 0) {
            Some(k) => match regs[k].source {
                Some(e) => Err(SBuildErr::MultipleSources(r, nodes[e].id, nodes[i].id)),
                None => Ok(regs.update(k, SReg { id: r, source: Some(i), endpoint: regs[k].endpoint })),
            },
            None => Ok(regs.push(SReg { id: r, source: Some(i), endpoint: None })),
        },
    }
}

/// The regions that the first `n` nodes start or end, in the order first met.
pub open spec fn scan_regions(nodes: Seq<GraphNode>, n: int) -> Result<Seq<SReg>, SBuildErr>
    decreases n,
{
    if n <= 0 {
        Ok(Seq::empty())
    } else {
        match scan_regions(nodes, n - 1) {
            Err(e) => Err(e),
            Ok(regs) => match end_step(nodes, regs, n - 1) {
                Err(e) => Err(e),
                Ok(r1) => source_step(nodes, r1, n - 1),
            },
        }
    }
}

/// The first region from `k` on that lacks a start or an end, or starts and
/// ends at one node.
pub open spec fn first_incomplete(nodes: Seq<GraphNode>, regs: Seq<SReg>, k: int) -> Option<SBuildErr>
    decreases regs.len() - k,
{
    if k < 0 || k >= regs.len() {
        None
    } else {
        let g = regs[k];
        match (g.source, g.endpoint) {
            (None, Some(e)) => Some(SBuildErr::MissingSource(g.id, nodes[e].id)),
            (Some(s), None) => Some(SBuildErr::MissingEndpoint(g.id, nodes[s].id)),
            (Some(s), Some(e)) => if s == e {
                Some(SBuildErr::SameSourceAndEndpoint(g.id, nodes[s].id))
            } else {
                first_incomplete(nodes, regs, k + 1)
            },
            (None, None) => first_incomplete(nodes, regs, k + 1),
        }
    }
}

/// The regions of the graph, each with its start and end, or the first
/// problem found with them.
pub open spec fn initial_regions(nodes: Seq<GraphNode>) -> Result<Seq<SReg>, SBuildErr> {
    match scan_regions(nodes, nodes.len() as int) {
        Err(e) => Err(e),
        Ok(regs) => match first_incomplete(nodes, regs, 0) {
            Some(e) => Err(e),
            None => Ok(regs),
        },
    }
}

} // verus!

verus! {

/// A region while the graph is worked out.
struct RegionBuilderData {
    id: u128,
    source: Option<usize>,
    endpoint: Option<usize>,
    parents: Vec<usize>,
    toposort_index: Option<usize>,
}

pub open spec fn opt_int(o: Option<usize>) -> Option<int> {
    match o {
        Some(x) => Some(x as int),
        None => None,
    }
}

spec fn sreg(d: RegionBuilderData) -> SReg {
    SReg { id: d.id, source: opt_int(d.source), endpoint: opt_int(d.endpoint) }
}

spec fn sregs(v: Seq<RegionBuilderData>) -> Seq<SReg> {
    v.map_values(|d: RegionBuilderData| sreg(d))
}

fn find_region(regs: &Vec<RegionBuilderData>, id: u128) -> (r: Option<usize>)
    ensures
        opt_int(r) == reg_index(sregs(regs@), id, 0),
        r matches Some(k) ==> k < regs@.len(),
{
    let mut k: usize = 0;
    while k < regs.len()
        invariant
            k <= regs@.len(),
            reg_index(sregs(regs@), id, 0) == reg_index(sregs(regs@), id, k as int),
        decreases regs.len() - k,
    {
        if regs[k].id == id {
            return Some(k);
        }
        k = k + 1;
    }
    None
}

fn new_region(id: u128, source: Option<usize>, endpoint: Option<usize>) -> (d: RegionBuilderData)
    ensures
        d.id == id,
        d.source == source,
        d.endpoint == endpoint,
        d.parents@.len() == 0,
        d.toposort_index is None,
{
    RegionBuilderData { id, source, endpoint, parents: Vec::new(), toposort_index: None }
}

/// Region ids are distinct, and the start and end of a region are nodes
/// that say they start and end it.
pub open spec fn regions_consistent(nodes: Seq<GraphNode>, regs: Seq<SReg>) -> bool {
    &&& forall|a: int, b: int| 0 <= a < b < regs.len() ==> regs[a].id != regs[b].id
    &&& forall|k: int| 0 <= k < regs.len() ==> ((#[trigger] regs[k]).source matches Some(s) ==> 0 <= s < nodes.len()
        && nodes[s].region_source == Some(regs[k].id))
    &&& forall|k: int| 0 <= k < regs.len() ==> ((#[trigger] regs[k]).endpoint matches Some(e) ==> 0 <= e < nodes.len()
        && nodes[e].region_end == Some(regs[k].id))
    &&& forall|k: int| 0 <= k < regs.len() ==> !((#[trigger] regs[k]).source is None && regs[k].endpoint is None)
}

proof fn lemma_reg_index(regs: Seq<SReg>, id: u128, k: int)
    requires
        0 <= k,
    ensures
        reg_index(regs, id, k) matches Some(j) ==> k <= j < regs.len() && regs[j].id == id,
        reg_index(regs, id, k) is None ==> forall|j: int| k <= j < regs.len() ==> regs[j].id != id,
    decreases regs.len() - k,
{
    if k < regs.len() && regs[k].id != id {
        lemma_reg_index(regs, id, k + 1);
    }
}

/// Once the scan has failed, it stays failed with the same problem.
proof fn lemma_scan_err(nodes: Seq<GraphNode>, i: int, j: int)
    requires
        1 <= i <= j,
        scan_regions(nodes, i) is Err,
    ensures
        scan_regions(nodes, j) == scan_regions(nodes, i),
    decreases j - i,
{
    if j > i {
        lemma_scan_err(nodes, i, j - 1);
    }
}

/// Node `j`, if it starts a region, is the start recorded for a region with
/// that id.
pub open spec fn src_covered(nodes: Seq<GraphNode>, regs: Seq<SReg>, j: int) -> bool {
    nodes[j].region_source matches Some(r) ==> exists|k: int|
        0 <= k < regs.len() && #[trigger] regs[k].id == r && regs[k].source == Some(j)
}

/// Node `j`, if it ends a region, is the end recorded for a region with that
/// id.
pub open spec fn end_covered(nodes: Seq<GraphNode>, regs: Seq<SReg>, j: int) -> bool {
    nodes[j].region_end matches Some(r) ==> exists|k: int|
        0 <= k < regs.len() && #[trigger] regs[k].id == r && regs[k].endpoint == Some(j)
}

/// The starts among the first `ns` nodes and the ends among the first `ne`
/// are recorded.
pub open spec fn regions_cover(nodes: Seq<GraphNode>, regs: Seq<SReg>, ns: int, ne: int) -> bool {
    &&& forall|j: int| 0 <= j < ns ==> #[trigger] src_covered(nodes, regs, j)
    &&& forall|j: int| 0 <= j < ne ==> #[trigger] end_covered(nodes, regs, j)
}

proof fn lemma_cover_end(nodes: Seq<GraphNode>, s0: Seq<SReg>, i: int)
    requires
        0 <= i < nodes.len(),
        regions_cover(nodes, s0, i, i),
        forall|k: int| 0 <= k < s0.len() ==> ((#[trigger] s0[k]).endpoint matches Some(e) ==> e < i),
        end_step(nodes, s0, i) is Ok,
    ensures
        regions_cover(nodes, end_step(nodes, s0, i)->Ok_0, i, i + 1),
{
    let s1 = end_step(nodes, s0, i)->Ok_0;
    if let Some(r) = nodes[i].region_end {
        lemma_reg_index(s0, r, 0);
        assert forall|j: int| 0 <= j < i implies #[trigger] src_covered(nodes, s1, j) by {
            assert(src_covered(nodes, s0, j));
            if let Some(q) = nodes[j].region_source {
                let k0 = choose|k: int| 0 <= k < s0.len() && #[trigger] s0[k].id == q && s0[k].source == Some(j);
                assert(s1[k0].id == q && s1[k0].source == Some(j));
            }
        }
        assert forall|j: int| 0 <= j < i + 1 implies #[trigger] end_covered(nodes, s1, j) by {
            if j < i {
                assert(end_covered(nodes, s0, j));
                if let Some(q) = nodes[j].region_end {
                    let k0 = choose|k: int| 0 <= k < s0.len() && #[trigger] s0[k].id == q && s0[k].endpoint == Some(j);
                    assert(s1[k0].id == q && s1[k0].endpoint == Some(j));
                }
            } else {
                match reg_index(s0, r, 0) {
                    Some(k) => {
                        assert(s1[k].id == r && s1[k].endpoint == Some(i));
                    },
                    None => {
                        assert(s1[s0.len() as int].id == r && s1[s0.len() as int].endpoint == Some(i));
                    },
                }
            }
        }
    } else {
        assert forall|j: int| 0 <= j < i + 1 implies #[trigger] end_covered(nodes, s1, j) by {
            if j < i {
                assert(end_covered(nodes, s0, j));
            }
        }
    }
}

proof fn lemma_cover_source(nodes: Seq<GraphNode>, s1: Seq<SReg>, i: int)
    requires
        0 <= i < nodes.len(),
        regions_cover(nodes, s1, i, i + 1),
        forall|k: int| 0 <= k < s1.len() ==> ((#[trigger] s1[k]).source matches Some(e) ==> e < i),
        source_step(nodes, s1, i) is Ok,
    ensures
        regions_cover(nodes, source_step(nodes, s1, i)->Ok_0, i + 1, i + 1),
{
    let s2 = source_step(nodes, s1, i)->Ok_0;
    if let Some(r) = nodes[i].region_source {
        lemma_reg_index(s1, r, 0);
        assert forall|j: int| 0 <= j < i + 1 implies #[trigger] end_covered(nodes, s2, j) by {
            assert(end_covered(nodes, s1, j));
            if let Some(q) = nodes[j].region_end {
                let k0 = choose|k: int| 0 <= k < s1.len() && #[trigger] s1[k].id == q && s1[k].endpoint == Some(j);
                assert(s2[k0].id == q && s2[k0].endpoint == Some(j));
            }
        }
        assert forall|j: int| 0 <= j < i + 1 implies #[trigger] src_covered(nodes, s2, j) by {
            if j < i {
                assert(src_covered(nodes, s1, j));
                if let Some(q) = nodes[j].region_source {
                    let k0 = choose|k: int| 0 <= k < s1.len() && #[trigger] s1[k].id == q && s1[k].source == Some(j);
                    assert(s2[k0].id == q && s2[k0].source == Some(j));
                }
            } else {
                match reg_index(s1, r, 0) {
                    Some(k) => {
                        assert(s2[k].id == r && s2[k].source == Some(i));
                    },
                    None => {
                        assert(s2[s1.len() as int].id == r && s2[s1.len() as int].source == Some(i));
                    },
                }
            }
        }
    } else {
        assert forall|j: int| 0 <= j < i + 1 implies #[trigger] src_covered(nodes, s2, j) by {
            if j < i {
                assert(src_covered(nodes, s1, j));
            }
        }
    }
}

/// Finds the start and end of each region (the first half of
/// `calculate_initial_regions`).
fn scan_nodes(nodes: &Vec<GraphNode>) -> (r: Result<Vec<RegionBuilderData>, GraphRegionBuildError>)
    ensures
        match (r, scan_regions(nodes@, nodes@.len() as int)) {
            (Ok(v), Ok(s)) => sregs(v@) == s && forall|k: int| 0 <= k < v@.len() ==> (#[trigger] v@[k]).parents@.len() == 0
                && v@[k].toposort_index is None,
            (Err(e), Err(s)) => e@ == s,
            _ => false,
        },
        r matches Ok(v) ==> regions_consistent(nodes@, sregs(v@)),
        r matches Ok(v) ==> regions_cover(nodes@, sregs(v@), nodes@.len() as int, nodes@.len() as int),
{
    let mut regs: Vec<RegionBuilderData> = Vec::new();
    let mut i: usize = 0;
    assert(sregs(regs@) =~= Seq::<SReg>::empty());
    while i < nodes.len()
        invariant
            i <= nodes@.len(),
            scan_regions(nodes@, i as int) == Ok::<Seq<SReg>, SBuildErr>(sregs(regs@)),
            forall|k: int| 0 <= k < regs@.len() ==> (#[trigger] regs@[k]).parents@.len() == 0
                && regs@[k].toposort_index is None,
            forall|k: int| 0 <= k < regs@.len() ==> ((#[trigger] regs@[k]).source matches Some(s) ==> s < i),
            forall|k: int| 0 <= k < regs@.len() ==> ((#[trigger] regs@[k]).endpoint matches Some(s) ==> s < i),
            regions_consistent(nodes@, sregs(regs@)),
            regions_cover(nodes@, sregs(regs@), i as int, i as int),
        decreases nodes.len() - i,
    {
        let node = nodes[i];
        let ghost s0 = sregs(regs@);
        proof {
            assert forall|k: int| 0 <= k < s0.len() implies ((#[trigger] s0[k]).endpoint matches Some(e) ==> e < i) by {
                assert(s0[k] == sreg(regs@[k]));
            }
        }
        proof {
            if let Some(r) = node.region_end {
                lemma_reg_index(s0, r, 0);
            }
        }
        if let Some(region) = node.region_end {
            match find_region(&regs, region) {
                Some(k) => {
                    if let Some(e) = regs[k].endpoint {
                        let err = GraphRegionBuildError::MultipleEndpoints(region, nodes[e].id, node.id);
                        proof {
                            assert(s0[k as int].endpoint == Some(e as int));
                            assert(scan_regions(nodes@, i + 1) == Err::<Seq<SReg>, SBuildErr>(err@));
                            lemma_scan_err(nodes@, i + 1, nodes@.len() as int);
                        }
                        return Err(err);
                    }
                    let ghost before = regs@;
                    let d = new_region(region, regs[k].source, Some(i));
                    regs.set(k, d);
                    proof {
                        assert(sregs(regs@) =~= s0.update(k as int, SReg { id: region, source: s0[k as int].source, endpoint: Some(i as int) }));
                    }
                },
                None => {
                    regs.push(new_region(region, None, Some(i)));
                    assert(sregs(regs@) =~= s0.push(SReg { id: region, source: None, endpoint: Some(i as int) }));
                },
            }
        }
        assert(end_step(nodes@, s0, i as int) == Ok::<Seq<SReg>, SBuildErr>(sregs(regs@)));
        let ghost s1 = sregs(regs@);
        proof {
            lemma_cover_end(nodes@, s0, i as int);
            assert forall|k: int| 0 <= k < s1.len() implies ((#[trigger] s1[k]).source matches Some(e) ==> e < i) by {
                assert(s1[k] == sreg(regs@[k]));
            }
            if let Some(r) = node.region_source {
                lemma_reg_index(s1, r, 0);
            }
        }
        if let Some(region) = node.region_source {
            match find_region(&regs, region) {
                Some(k) => {
                    if let Some(e) = regs[k].source {
                        let err = GraphRegionBuildError::MultipleSources(region, nodes[e].id, node.id);
                        proof {
                            assert(s1[k as int].source == Some(e as int));
                            assert(scan_regions(nodes@, i + 1) == Err::<Seq<SReg>, SBuildErr>(err@));
                            lemma_scan_err(nodes@, i + 1, nodes@.len() as int);
                        }
                        return Err(err);
                    }
                    let d = new_region(region, Some(i), regs[k].endpoint);
                    regs.set(k, d);
                    proof {
                        assert(sregs(regs@) =~= s1.update(k as int, SReg { id: region, source: Some(i as int), endpoint: s1[k as int].endpoint }));
                    }
                },
                None => {
                    regs.push(new_region(region, Some(i), None));
                    assert(sregs(regs@) =~= s1.push(SReg { id: region, source: Some(i as int), endpoint: None }));
                },
            }
        }
        assert(source_step(nodes@, s1, i as int) == Ok::<Seq<SReg>, SBuildErr>(sregs(regs@)));
        proof {
            lemma_cover_source(nodes@, s1, i as int);
        }
        i = i + 1;
    }
    Ok(regs)
}

} // verus!

verus! {

/// The first region that lacks a start or an end, or starts and ends at one
/// node (the second half of `calculate_initial_regions`).
fn check_regions(nodes: &Vec<GraphNode>, regs: &Vec<RegionBuilderData>) -> (r: Option<GraphRegionBuildError>)
    requires
        regions_consistent(nodes@, sregs(regs@)),
    ensures
        match (r, first_incomplete(nodes@, sregs(regs@), 0)) {
            (Some(e), Some(s)) => e@ == s,
            (None, None) => true,
            _ => false,
        },
{
    let ghost s = sregs(regs@);
    let mut k: usize = 0;
    while k < regs.len()
        invariant
            k <= regs@.len(),
            s == sregs(regs@),
            regions_consistent(nodes@, s),
            first_incomplete(nodes@, s, 0) == first_incomplete(nodes@, s, k as int),
        decreases regs.len() - k,
    {
        let d = &regs[k];
        assert(s[k as int] == sreg(*d));
        match (d.source, d.endpoint) {
            (None, Some(e)) => {
                return Some(GraphRegionBuildError::MissingSource(d.id, nodes[e].id));
            },
            (Some(src), None) => {
                return Some(GraphRegionBuildError::MissingEndpoint(d.id, nodes[src].id));
            },
            (Some(src), Some(e)) => {
                if src == e {
                    return Some(GraphRegionBuildError::SameSourceAndEndpoint(d.id, nodes[src].id));
                }
            },
            (None, None) => {},
        }
        k = k + 1;
    }
    None
}

/// The regions of the graph with the start and end of each
/// (`calculate_initial_regions`).
fn calculate_initial_regions(nodes: &Vec<GraphNode>) -> (r: Result<Vec<RegionBuilderData>, GraphRegionBuildError>)
    ensures
        match (r, initial_regions(nodes@)) {
            (Ok(v), Ok(s)) => sregs(v@) == s && forall|k: int| 0 <= k < v@.len() ==> (#[trigger] v@[k]).parents@.len() == 0
                && v@[k].toposort_index is None,
            (Err(e), Err(s)) => e@ == s,
            _ => false,
        },
        r matches Ok(v) ==> regions_consistent(nodes@, sregs(v@)),
        r matches Ok(v) ==> regions_complete(sregs(v@)),
        r matches Ok(v) ==> regions_cover(nodes@, sregs(v@), nodes@.len() as int, nodes@.len() as int),
{
    let regs = scan_nodes(nodes)?;
    match check_regions(nodes, &regs) {
        Some(e) => Err(e),
        None => {
            proof {
                lemma_complete(nodes@, sregs(regs@), 0);
            }
            Ok(regs)
        },
    }
}

/// Every region has a start and an end, at different nodes.
pub open spec fn regions_complete(regs: Seq<SReg>) -> bool {
    forall|k: int| 0 <= k < regs.len() ==> (#[trigger] regs[k]).source is Some && regs[k].endpoint is Some
        && regs[k].source != regs[k].endpoint
}

proof fn lemma_complete(nodes: Seq<GraphNode>, regs: Seq<SReg>, k: int)
    requires
        0 <= k,
        first_incomplete(nodes, regs, k) is None,
        forall|j: int| 0 <= j < regs.len() ==> !((#[trigger] regs[j]).source is None && regs[j].endpoint is None),
    ensures
        forall|j: int| k <= j < regs.len() ==> (#[trigger] regs[j]).source is Some && regs[j].endpoint is Some
            && regs[j].source != regs[j].endpoint,
    decreases regs.len() - k,
{
    if k < regs.len() {
        lemma_complete(nodes, regs, k + 1);
    }
}

} // verus!

verus! {

/// Node `n` is reached from the start `src` of a region along wires, without
/// going on past its end `ep`.
#[verifier::opaque]
pub open spec fn region_reaches(edges: Seq<(int, int)>, src: int, ep: int, n: int) -> bool {
    exists|p: Seq<int>| #[trigger] edge_walk(edges, p) && p[0] == src && p.last() == n && forall|k: int|
        0 <= k < p.len() - 1 ==> #[trigger] p[k] != ep
}

pub open spec fn count_false(s: Seq<bool>) -> nat
    decreases s.len(),
{
    if s.len() == 0 {
        0
    } else {
        count_false(s.drop_last()) + if s.last() { 0nat } else { 1nat }
    }
}

proof fn lemma_count_false_set(s: Seq<bool>, i: int)
    requires
        0 <= i < s.len(),
        !s[i],
    ensures
        count_false(s.update(i, true)) + 1 == count_false(s),
    decreases s.len(),
{
    let t = s.update(i, true);
    if i < s.len() - 1 {
        assert(t.drop_last() =~= s.drop_last().update(i, true));
        lemma_count_false_set(s.drop_last(), i);
    } else {
        assert(t.drop_last() =~= s.drop_last());
    }
}

/// The successors of each node are exactly the targets of its wires, all nodes
/// of the graph.
pub open spec fn successors_of(succ: Seq<Seq<int>>, edges: Seq<(int, int)>) -> bool {
    &&& forall|p: int, m: int| 0 <= p < succ.len() ==> (succ[p].contains(m) <==> edges.contains((p, m)))
    &&& forall|p: int, m: int| 0 <= p < succ.len() && #[trigger] succ[p].contains(m) ==> 0 <= m < succ.len()
}

pub open spec fn rows(v: Seq<Vec<usize>>) -> Seq<Seq<int>> {
    v.map_values(|r: Vec<usize>| ints(r@))
}

proof fn lemma_walk_seen(edges: Seq<(int, int)>, seen: Seq<bool>, src: int, ep: int, p: Seq<int>, k: int)
    requires
        edge_walk(edges, p),
        p[0] == src,
        0 <= src < seen.len(),
        seen[src],
        forall|j: int| 0 <= j < p.len() - 1 ==> #[trigger] p[j] != ep,
        0 <= k < p.len(),
        forall|n: int, m: int| 0 <= n < seen.len() && seen[n] && n != ep && #[trigger] edges.contains((n, m)) ==> 0 <= m
            < seen.len() && seen[m],
    ensures
        0 <= p[k] < seen.len() && seen[p[k]],
    decreases k,
{
    if k > 0 {
        lemma_walk_seen(edges, seen, src, ep, p, k - 1);
        assert(edges.contains((p[k - 1], p[(k - 1) + 1])));
    }
}

/// One more step from a reached node that is not the end reaches its successor.
proof fn lemma_extend_reach(edges: Seq<(int, int)>, src: int, ep: int, n: int, m: int)
    requires
        region_reaches(edges, src, ep, n),
        n != ep,
        edges.contains((n, m)),
    ensures
        region_reaches(edges, src, ep, m),
{
    reveal(region_reaches);
    let w = choose|p: Seq<int>| #[trigger] edge_walk(edges, p) && p[0] == src && p.last() == n
        && forall|j: int| 0 <= j < p.len() - 1 ==> #[trigger] p[j] != ep;
    let w2 = w.push(m);
    assert forall|j: int| 0 <= j < w2.len() - 1 implies edges.contains((#[trigger] w2[j], w2[j + 1])) by {
        if j < w.len() - 1 {
            assert(w2[j] == w[j] && w2[j + 1] == w[j + 1]);
        } else {
            assert(w2[j] == n);
        }
    }
    assert forall|j: int| 0 <= j < w2.len() - 1 implies #[trigger] w2[j] != ep by {
        if j < w.len() - 1 {
            assert(w2[j] == w[j]);
        }
    }
    assert(edge_walk(edges, w2));
}

/// Marks the successors `row` of node `n` as seen; says whether any was new.
fn mark_successors(
    row: &Vec<usize>,
    n: usize,
    seen: &mut Vec<bool>,
    Ghost(edges): Ghost<Seq<(int, int)>>,
    Ghost(src): Ghost<int>,
    Ghost(ep): Ghost<int>,
) -> (changed: bool)
    requires
        n < old(seen)@.len(),
        n != ep,
        old(seen)@[n as int],
        forall|m: int| ints(row@).contains(m) <==> edges.contains((n as int, m)),
        forall|j: int| 0 <= j < row@.len() ==> #[trigger] row@[j] < old(seen)@.len(),
        forall|x: int| 0 <= x < old(seen)@.len() && #[trigger] old(seen)@[x] ==> region_reaches(edges, src, ep, x),
    ensures
        final(seen)@.len() == old(seen)@.len(),
        forall|x: int| 0 <= x < final(seen)@.len() && #[trigger] final(seen)@[x] ==> region_reaches(edges, src, ep, x),
        forall|x: int| 0 <= x < old(seen)@.len() && #[trigger] old(seen)@[x] ==> final(seen)@[x],
        forall|m: int| #[trigger] edges.contains((n as int, m)) ==> 0 <= m < final(seen)@.len() && final(seen)@[m],
        !changed ==> final(seen)@ == old(seen)@,
        changed ==> count_false(final(seen)@) < count_false(old(seen)@),
{
    let ghost s0 = seen@;
    let mut changed = false;
    let mut k: usize = 0;
    while k < row.len()
        invariant
            forall|j: int| 0 <= j < row@.len() ==> #[trigger] row@[j] < s0.len(),
            k <= row@.len(),
            seen@.len() == s0.len(),
            n != ep,
            region_reaches(edges, src, ep, n as int),
            forall|m: int| ints(row@).contains(m) <==> edges.contains((n as int, m)),
            forall|x: int| 0 <= x < s0.len() && #[trigger] seen@[x] ==> region_reaches(edges, src, ep, x),
            forall|x: int| 0 <= x < s0.len() && #[trigger] s0[x] ==> seen@[x],
            forall|j: int| 0 <= j < k ==> seen@[#[trigger] row@[j] as int],
            !changed ==> seen@ == s0,
            changed ==> count_false(seen@) < count_false(s0),
        decreases row.len() - k,
    {
        let m = row[k];
        if !seen[m] {
            proof {
                assert(ints(row@)[k as int] == m as int);
                assert(ints(row@).contains(m as int));
                lemma_extend_reach(edges, src, ep, n as int, m as int);
                lemma_count_false_set(seen@, m as int);
            }
            seen.set(m, true);
            changed = true;
        }
        k = k + 1;
    }
    proof {
        assert forall|y: int| #[trigger] edges.contains((n as int, y)) implies 0 <= y < seen@.len() && seen@[y] by {
            assert(ints(row@).contains(y));
            let j = choose|j: int| 0 <= j < ints(row@).len() && ints(row@)[j] == y;
            assert(seen@[row@[j] as int]);
        }
    }
    changed
}

/// The nodes that region with start `src` and end `ep` reaches.
fn mark_region(succ: &Vec<Vec<usize>>, src: usize, ep: usize, Ghost(edges): Ghost<Seq<(int, int)>>) -> (seen: Vec<bool>)
    requires
        src < succ@.len(),
        successors_of(rows(succ@), edges),
    ensures
        seen@.len() == succ@.len(),
        forall|n: int| 0 <= n < succ@.len() ==> (seen@[n] <==> region_reaches(edges, src as int, ep as int, n)),
{
    let n_nodes = succ.len();
    let mut seen: Vec<bool> = Vec::new();
    let mut i: usize = 0;
    while i < n_nodes
        invariant
            i <= n_nodes,
            seen@.len() == i,
            forall|j: int| 0 <= j < i ==> !seen@[j],
        decreases n_nodes - i,
    {
        seen.push(false);
        i = i + 1;
    }
    proof {
        reveal(region_reaches);
        let p = seq![src as int];
        assert(edge_walk(edges, p));
        assert(region_reaches(edges, src as int, ep as int, src as int));
    }
    seen.set(src, true);
    let mut changed = true;
    while changed
        invariant
            n_nodes == succ@.len(),
            successors_of(rows(succ@), edges),
            seen@.len() == n_nodes,
            0 <= src < n_nodes,
            seen@[src as int],
            forall|n: int| 0 <= n < n_nodes && #[trigger] seen@[n] ==> region_reaches(edges, src as int, ep as int, n),
            !changed ==> forall|n: int, m: int| 0 <= n < n_nodes && seen@[n] && n != ep && #[trigger] edges.contains(
                (n, m),
            ) ==> 0 <= m < n_nodes && seen@[m],
        decreases count_false(seen@), if changed { 1int } else { 0int },
    {
        let ghost start = seen@;
        changed = false;
        let mut n: usize = 0;
        while n < n_nodes
            invariant
                n_nodes == succ@.len(),
                successors_of(rows(succ@), edges),
                seen@.len() == n_nodes,
                0 <= src < n_nodes,
                n <= n_nodes,
                seen@[src as int],
                forall|x: int| 0 <= x < n_nodes && #[trigger] seen@[x] ==> region_reaches(edges, src as int, ep as int, x),
                !changed ==> seen@ == start,
                changed ==> count_false(seen@) < count_false(start),
                !changed ==> forall|x: int, m: int| 0 <= x < n && seen@[x] && x != ep && #[trigger] edges.contains((x, m))
                    ==> 0 <= m < n_nodes && seen@[m],
            decreases n_nodes - n,
        {
            if seen[n] && n != ep {
                let ghost before = seen@;
                proof {
                    assert(rows(succ@)[n as int] == ints(succ@[n as int]@));
                    assert forall|j: int| 0 <= j < succ@[n as int]@.len() implies #[trigger] succ@[n as int]@[j] < n_nodes by {
                        assert(ints(succ@[n as int]@)[j] == succ@[n as int]@[j] as int);
                        assert(rows(succ@)[n as int].contains(succ@[n as int]@[j] as int));
                    }
                }
                let c = mark_successors(&succ[n], n, &mut seen, Ghost(edges), Ghost(src as int), Ghost(ep as int));
                if c {
                    changed = true;
                }
                proof {
                    if changed && !c {
                        assert(seen@ == before);
                    }
                }
            }
            n = n + 1;
        }
    }
    proof {
        assert forall|x: int| 0 <= x < n_nodes implies (seen@[x] <==> region_reaches(edges, src as int, ep as int, x)) by {
            if region_reaches(edges, src as int, ep as int, x) {
                reveal(region_reaches);
                let p = choose|p: Seq<int>| #[trigger] edge_walk(edges, p) && p[0] == src as int && p.last() == x
                    && forall|j: int| 0 <= j < p.len() - 1 ==> #[trigger] p[j] != ep;
                lemma_walk_seen(edges, seen@, src as int, ep as int, p, p.len() - 1);
            }
        }
    }
    seen
}

} // verus!

verus! {

fn place_of_id(nodes: &Vec<GraphNode>, id: usize) -> (r: usize)
    requires
        exists|i: int| 0 <= i < nodes@.len() && nodes@[i].id == id,
        forall|i: int, j: int| 0 <= i < j < nodes@.len() ==> nodes@[i].id != nodes@[j].id,
    ensures
        r < nodes@.len(),
        nodes@[r as int].id == id,
        r as int == place_of(nodes@, id),
{
    let mut i: usize = 0;
    while i < nodes.len()
        invariant
            i <= nodes@.len(),
            forall|j: int| 0 <= j < i ==> nodes@[j].id != id,
            exists|j: int| 0 <= j < nodes@.len() && nodes@[j].id == id,
            forall|a: int, b: int| 0 <= a < b < nodes@.len() ==> nodes@[a].id != nodes@[b].id,
        decreases nodes.len() - i,
    {
        if nodes[i].id == id {
            proof {
                let c = place_of(nodes@, id);
                assert(0 <= c < nodes@.len() && nodes@[c].id == id);
                if c != i {
                    if c < i {
                        assert(nodes@[c].id != nodes@[i as int].id);
                    } else {
                        assert(nodes@[i as int].id != nodes@[c].id);
                    }
                }
            }
            return i;
        }
        i = i + 1;
    }
    proof {
        let j = choose|j: int| 0 <= j < nodes@.len() && nodes@[j].id == id;
        assert(nodes@[j].id != id);
    }
    0
}

/// The places of the two nodes of each wire.
fn wire_places(g: &NodeGraph) -> (r: (Vec<usize>, Vec<usize>))
    requires
        g.wf(),
    ensures
        r.0@.len() == g.edges().len(),
        r.1@.len() == g.edges().len(),
        forall|j: int| 0 <= j < g.edges().len() ==> #[trigger] r.0@[j] < g.nodes@.len() && r.1@[j] < g.nodes@.len()
            && g.edges()[j] == (r.0@[j] as int, r.1@[j] as int),
{
    let n_nodes = g.nodes.len();
    let mut from_p: Vec<usize> = Vec::new();
    let mut to_p: Vec<usize> = Vec::new();
    let mut k: usize = 0;
    while k < g.wires.len()
        invariant
            g.wf(),
            k <= g.wires@.len(),
            n_nodes == g.nodes@.len(),
            from_p@.len() == k,
            to_p@.len() == k,
            forall|j: int| 0 <= j < k ==> #[trigger] from_p@[j] < n_nodes && to_p@[j] < n_nodes && g.edges()[j] == (
                from_p@[j] as int,
                to_p@[j] as int,
            ),
        decreases g.wires.len() - k,
    {
        let w = g.wires[k];
        proof {
            assert(g.wires@[k as int] == w);
            assert(g.edges()[k as int] == (place_of(g.nodes@, w.from), place_of(g.nodes@, w.to)));
        }
        let a = place_of_id(&g.nodes, w.from);
        let b = place_of_id(&g.nodes, w.to);
        let ghost f0 = from_p@;
        let ghost t0 = to_p@;
        assert(g.edges()[k as int] == (a as int, b as int));
        assert(a < n_nodes && b < n_nodes);
        from_p.push(a);
        to_p.push(b);
        proof {
            assert forall|j: int| 0 <= j < k + 1 implies from_p@[j] < n_nodes && to_p@[j] < n_nodes && g.edges()[j] == (
                from_p@[j] as int,
                to_p@[j] as int,
            ) by {
                if j < k {
                    assert(from_p@[j] == f0[j] && to_p@[j] == t0[j]);
                    assert(f0[j] < n_nodes && t0[j] < n_nodes && g.edges()[j] == (f0[j] as int, t0[j] as int));
                }
            }
        }
        k = k + 1;
    }
    assert(g.edges().len() == from_p@.len());
    (from_p, to_p)
}

/// The places of the successors of each node, in the order of the wires.
fn successor_lists(g: &NodeGraph) -> (succ: Vec<Vec<usize>>)
    requires
        g.wf(),
    ensures
        succ@.len() == g.nodes@.len(),
        successors_of(rows(succ@), g.edges()),
{
    let n_nodes = g.nodes.len();
    let (from_p, to_p) = wire_places(g);
    let ghost edges = g.edges();
    let mut succ: Vec<Vec<usize>> = Vec::new();
    let mut p: usize = 0;
    while p < n_nodes
        invariant
            p <= n_nodes,
            n_nodes == g.nodes@.len(),
            edges == g.edges(),
            edges.len() == from_p@.len(),
            from_p@.len() == to_p@.len(),
            forall|j: int| 0 <= j < edges.len() ==> #[trigger] from_p@[j] < n_nodes && to_p@[j] < n_nodes && edges[j] == (
                from_p@[j] as int,
                to_p@[j] as int,
            ),
            succ@.len() == p,
            forall|q: int, m: int| 0 <= q < p ==> (rows(succ@)[q].contains(m) <==> edges.contains((q, m))),
            forall|q: int, m: int| 0 <= q < p && #[trigger] rows(succ@)[q].contains(m) ==> 0 <= m < n_nodes,
        decreases n_nodes - p,
    {
        let mut row: Vec<usize> = Vec::new();
        let mut j: usize = 0;
        while j < from_p.len()
            invariant
                j <= from_p@.len(),
                p < n_nodes,
                edges.len() == from_p@.len(),
                from_p@.len() == to_p@.len(),
                forall|i: int| 0 <= i < edges.len() ==> #[trigger] from_p@[i] < n_nodes && to_p@[i] < n_nodes && edges[i] == (
                    from_p@[i] as int,
                    to_p@[i] as int,
                ),
                forall|m: int| ints(row@).contains(m) <==> exists|i: int| 0 <= i < j && #[trigger] edges[i] == (p as int, m),
                forall|m: int| #[trigger] ints(row@).contains(m) ==> 0 <= m < n_nodes,
            decreases from_p.len() - j,
        {
            if from_p[j] == p {
                let ghost before = ints(row@);
                row.push(to_p[j]);
                proof {
                    assert(ints(row@) =~= before.push(to_p@[j as int] as int));
                    assert forall|m: int| ints(row@).contains(m) <==> exists|i: int| 0 <= i < j + 1 && #[trigger] edges[i] == (
                        p as int,
                        m,
                    ) by {
                        if ints(row@).contains(m) {
                            let x = choose|x: int| 0 <= x < ints(row@).len() && ints(row@)[x] == m;
                            if x == before.len() {
                                assert(edges[j as int] == (p as int, m));
                            } else {
                                assert(before[x] == m);
                                assert(before.contains(m));
                            }
                        }
                        if exists|i: int| 0 <= i < j + 1 && #[trigger] edges[i] == (p as int, m) {
                            let i = choose|i: int| 0 <= i < j + 1 && #[trigger] edges[i] == (p as int, m);
                            if i < j {
                                assert(before.contains(m));
                                let x = choose|x: int| 0 <= x < before.len() && before[x] == m;
                                assert(ints(row@)[x] == m);
                            } else {
                                assert(ints(row@)[before.len() as int] == m);
                            }
                        }
                    }
                    assert forall|m: int| #[trigger] ints(row@).contains(m) implies 0 <= m < n_nodes by {
                        let x = choose|x: int| 0 <= x < ints(row@).len() && ints(row@)[x] == m;
                        if x < before.len() {
                            assert(before[x] == m);
                            assert(before.contains(m));
                        }
                    }
                }
            } else {
                proof {
                    assert forall|m: int| ints(row@).contains(m) <==> exists|i: int| 0 <= i < j + 1 && #[trigger] edges[i] == (
                        p as int,
                        m,
                    ) by {
                        if exists|i: int| 0 <= i < j + 1 && #[trigger] edges[i] == (p as int, m) {
                            let i = choose|i: int| 0 <= i < j + 1 && #[trigger] edges[i] == (p as int, m);
                            assert(i != j);
                        }
                    }
                }
            }
            j = j + 1;
        }
        let ghost before = succ@;
        succ.push(row);
        proof {
            assert forall|q: int, m: int| 0 <= q < p + 1 implies (rows(succ@)[q].contains(m) <==> edges.contains((q, m))) by {
                if q < p {
                    assert(rows(succ@)[q] == rows(before)[q]);
                } else {
                    assert(rows(succ@)[q] == ints(row@));
                    if edges.contains((q, m)) {
                        let i = choose|i: int| 0 <= i < edges.len() && edges[i] == (q, m);
                        assert(edges[i] == (p as int, m));
                    }
                }
            }
            assert forall|q: int, m: int| 0 <= q < p + 1 && #[trigger] rows(succ@)[q].contains(m) implies 0 <= m < n_nodes by {
                if q < p {
                    assert(rows(succ@)[q] == rows(before)[q]);
                } else {
                    assert(rows(succ@)[q] == ints(row@));
                }
            }
        }
        p = p + 1;
    }
    succ
}

} // verus!

verus! {

/// The start of region `r` (a place).
pub open spec fn src_of(regs: Seq<SReg>, r: int) -> int {
    regs[r].source.unwrap()
}

/// The end of region `r` (a place).
pub open spec fn ep_of(regs: Seq<SReg>, r: int) -> int {
    regs[r].endpoint.unwrap()
}

/// The regions among the first `r` that reach node `n`, in order.
pub open spec fn reached_regions(edges: Seq<(int, int)>, regs: Seq<SReg>, n: int, r: int) -> Seq<int>
    decreases r,
{
    if r <= 0 {
        Seq::empty()
    } else {
        reached_regions(edges, regs, n, r - 1) + if region_reaches(edges, src_of(regs, r - 1), ep_of(regs, r - 1), n) {
            seq![r - 1]
        } else {
            Seq::empty()
        }
    }
}

/// `s` with each of `xs` added at the end, unless it is there already.
pub open spec fn add_missing(s: Seq<int>, xs: Seq<int>) -> Seq<int>
    decreases xs.len(),
{
    if xs.len() == 0 {
        s
    } else {
        let t = add_missing(s, xs.drop_last());
        if t.contains(xs.last()) {
            t
        } else {
            t.push(xs.last())
        }
    }
}

/// The end of each of the first `k` regions also gets the region itself and
/// the regions of its start, in turn.
pub open spec fn paint(inputs: Seq<Seq<int>>, regs: Seq<SReg>, k: int) -> Seq<Seq<int>>
    decreases k,
{
    if k <= 0 {
        inputs
    } else {
        let prev = paint(inputs, regs, k - 1);
        let s = src_of(regs, k - 1);
        let e = ep_of(regs, k - 1);
        prev.update(e, add_missing(prev[e], seq![k - 1] + prev[s]))
    }
}

/// The regions of each node: those that reach it, and at the end of a region
/// that region and those of its start.
pub open spec fn node_inputs(edges: Seq<(int, int)>, n_nodes: nat, regs: Seq<SReg>) -> Seq<Seq<int>> {
    paint(Seq::new(n_nodes, |n: int| reached_regions(edges, regs, n, regs.len() as int)), regs, regs.len() as int)
}

/// The starts and ends of the regions are nodes of the graph.
pub open spec fn regions_within(regs: Seq<SReg>, n_nodes: nat) -> bool {
    forall|k: int| 0 <= k < regs.len() ==> ((#[trigger] regs[k]).source is Some && regs[k].endpoint is Some
        && 0 <= regs[k].source.unwrap() < n_nodes && 0 <= regs[k].endpoint.unwrap() < n_nodes
        && regs[k].source.unwrap() != regs[k].endpoint.unwrap())
}

fn contains_usize(v: &Vec<usize>, x: usize) -> (r: bool)
    ensures
        r == ints(v@).contains(x as int),
{
    let mut i: usize = 0;
    while i < v.len()
        invariant
            i <= v@.len(),
            forall|j: int| 0 <= j < i ==> v@[j] != x,
        decreases v.len() - i,
    {
        if v[i] == x {
            assert(ints(v@)[i as int] == x as int);
            return true;
        }
        i = i + 1;
    }
    proof {
        if ints(v@).contains(x as int) {
            let j = choose|j: int| 0 <= j < ints(v@).len() && ints(v@)[j] == x as int;
            assert(v@[j] == x);
        }
    }
    false
}

/// The regions that each node belongs to, before the hierarchy is known
/// (`calculate_node_inputs`).
fn calculate_node_inputs(succ: &Vec<Vec<usize>>, regs: &Vec<RegionBuilderData>, Ghost(edges): Ghost<Seq<(int, int)>>) -> (inputs: Vec<Vec<usize>>)
    requires
        successors_of(rows(succ@), edges),
        regions_within(sregs(regs@), succ@.len()),
    ensures
        rows(inputs@) == node_inputs(edges, succ@.len(), sregs(regs@)),
{
    let ghost sr = sregs(regs@);
    let n_nodes = succ.len();
    let mut inputs: Vec<Vec<usize>> = Vec::new();
    let mut i: usize = 0;
    while i < n_nodes
        invariant
            i <= n_nodes,
            inputs@.len() == i,
            forall|j: int| 0 <= j < i ==> (#[trigger] inputs@[j])@.len() == 0,
        decreases n_nodes - i,
    {
        inputs.push(Vec::new());
        i = i + 1;
    }
    let mut idx: usize = 0;
    while idx < regs.len()
        invariant
            n_nodes == succ@.len(),
            sr == sregs(regs@),
            successors_of(rows(succ@), edges),
            regions_within(sr, n_nodes as nat),
            idx <= regs@.len(),
            inputs@.len() == n_nodes,
            forall|n: int| 0 <= n < n_nodes ==> rows(inputs@)[n] == reached_regions(edges, sr, n, idx as int),
        decreases regs.len() - idx,
    {
        assert(sr[idx as int] == sreg(regs@[idx as int]));
        let src = regs[idx].source.unwrap();
        let ep = regs[idx].endpoint.unwrap();
        let seen = mark_region(succ, src, ep, Ghost(edges));
        let mut n: usize = 0;
        while n < n_nodes
            invariant
                n_nodes == succ@.len(),
                seen@.len() == n_nodes,
                sr == sregs(regs@),
                idx < regs@.len(),
                src as int == src_of(sr, idx as int),
                ep as int == ep_of(sr, idx as int),
                forall|x: int| 0 <= x < n_nodes ==> (seen@[x] <==> region_reaches(edges, src as int, ep as int, x)),
                n <= n_nodes,
                inputs@.len() == n_nodes,
                forall|x: int| 0 <= x < n ==> rows(inputs@)[x] == reached_regions(edges, sr, x, idx + 1),
                forall|x: int| n <= x < n_nodes ==> rows(inputs@)[x] == reached_regions(edges, sr, x, idx as int),
            decreases n_nodes - n,
        {
            let ghost before = inputs@;
            if seen[n] {
                inputs[n].push(idx);
                proof {
                    assert(ints(inputs@[n as int]@) =~= ints(before[n as int]@).push(idx as int));
                }
            }
            proof {
                assert(reached_regions(edges, sr, n as int, idx + 1) == reached_regions(edges, sr, n as int, idx as int)
                    + if region_reaches(edges, src_of(sr, idx as int), ep_of(sr, idx as int), n as int) {
                    seq![idx as int]
                } else {
                    Seq::<int>::empty()
                });
                assert forall|x: int| 0 <= x < n + 1 implies rows(inputs@)[x] == reached_regions(edges, sr, x, idx + 1) by {
                    assert(rows(before)[x] == ints(before[x]@));
                    assert(rows(inputs@)[x] == ints(inputs@[x]@));
                    if x < n {
                        assert(inputs@[x] == before[x]);
                    } else if seen@[n as int] {
                        assert(rows(before)[x] == ints(before[x]@));
                        assert(rows(inputs@)[x] == ints(inputs@[x]@));
                        assert(rows(before)[x] == reached_regions(edges, sr, x, idx as int));
                        assert(region_reaches(edges, src_of(sr, idx as int), ep_of(sr, idx as int), n as int));
                        assert(rows(inputs@)[x] =~= reached_regions(edges, sr, x, idx as int) + seq![idx as int]);
                    } else {
                        assert(inputs@[x] == before[x]);
                        assert(rows(before)[x] == reached_regions(edges, sr, x, idx as int));
                        assert(reached_regions(edges, sr, x, idx as int) + Seq::<int>::empty() =~= reached_regions(
                            edges,
                            sr,
                            x,
                            idx as int,
                        ));
                    }
                }
                assert forall|x: int| n + 1 <= x < n_nodes implies rows(inputs@)[x] == reached_regions(edges, sr, x, idx as int) by {
                    assert(rows(before)[x] == ints(before[x]@));
                    assert(rows(inputs@)[x] == ints(inputs@[x]@));
                    assert(inputs@[x] == before[x]);
                }
            }
            n = n + 1;
        }
        idx = idx + 1;
    }
    let ghost phase_a = rows(inputs@);
    proof {
        assert(phase_a =~= Seq::new(n_nodes as nat, |x: int| reached_regions(edges, sr, x, sr.len() as int)));
    }
    let mut k: usize = 0;
    while k < regs.len()
        invariant
            n_nodes == succ@.len(),
            sr == sregs(regs@),
            regions_within(sr, n_nodes as nat),
            k <= regs@.len(),
            inputs@.len() == n_nodes,
            rows(inputs@) == paint(phase_a, sr, k as int),
            phase_a.len() == n_nodes,
        decreases regs.len() - k,
    {
        assert(sr[k as int] == sreg(regs@[k as int]));
        let src = regs[k].source.unwrap();
        let ep = regs[k].endpoint.unwrap();
        let ghost prev = rows(inputs@);
        let src_regions = inputs[src].clone();
        proof {
            assert(ints(src_regions@) == prev[src as int]);
        }
        let ghost xs = seq![k as int] + prev[src as int];
        let ghost row0 = prev[ep as int];
        proof {
            assert(xs.subrange(0, 0) =~= Seq::<int>::empty());
        }
        let ghost before0 = inputs@;
        proof {
            assert(xs.subrange(0, 1).drop_last() =~= xs.subrange(0, 0));
            assert(xs.subrange(0, 0).len() == 0);
            assert(add_missing(row0, xs.subrange(0, 0)) == row0);
            assert(rows(before0)[ep as int] == ints(before0[ep as int]@));
            assert(xs.subrange(0, 1).last() == k as int);
        }
        if !contains_usize(&inputs[ep], k) {
            inputs[ep].push(k);
            assert(ints(inputs@[ep as int]@) =~= ints(before0[ep as int]@).push(k as int));
        }
        proof {
            assert forall|x: int| 0 <= x < n_nodes && x != ep implies rows(inputs@)[x] == prev[x] by {
                assert(inputs@[x] == before0[x]);
            }
        }
        let mut j: usize = 0;
        while j < src_regions.len()
            invariant
                xs.len() == src_regions@.len() + 1,
                xs == seq![k as int] + ints(src_regions@),
                n_nodes == succ@.len(),
                inputs@.len() == n_nodes,
                ep < n_nodes,
                src < n_nodes,
                src != ep,
                j <= src_regions@.len(),
                rows(inputs@)[ep as int] == add_missing(row0, xs.subrange(0, j + 1)),
                forall|x: int| 0 <= x < n_nodes && x != ep ==> rows(inputs@)[x] == prev[x],
            decreases src_regions.len() - j,
        {
            let reg = src_regions[j];
            assert(xs[j + 1] == reg as int);
            let ghost before = inputs@;
            proof {
                assert(xs.subrange(0, j + 2).drop_last() =~= xs.subrange(0, j + 1));
                assert(xs.subrange(0, j + 2).last() == reg as int);
            }
            if !contains_usize(&inputs[ep], reg) {
                inputs[ep].push(reg);
                assert(ints(inputs@[ep as int]@) =~= ints(before[ep as int]@).push(reg as int));
            }
            proof {
                assert forall|x: int| 0 <= x < n_nodes && x != ep implies rows(inputs@)[x] == prev[x] by {
                    assert(inputs@[x] == before[x]);
                }
            }
            j = j + 1;
        }
        proof {
            assert(xs.subrange(0, src_regions@.len() as int + 1) =~= xs);
            assert(rows(inputs@) =~= prev.update(ep as int, add_missing(prev[ep as int], xs)));
        }
        k = k + 1;
    }
    inputs
}

} // verus!

verus! {

/// The regions of every node are distinct region numbers.
pub open spec fn rows_within(s: Seq<Seq<int>>, bound: int) -> bool {
    &&& forall|n: int| 0 <= n < s.len() ==> (#[trigger] s[n]).no_duplicates()
    &&& forall|n: int, x: int| 0 <= n < s.len() && #[trigger] s[n].contains(x) ==> 0 <= x < bound
}

proof fn lemma_reached_props(edges: Seq<(int, int)>, regs: Seq<SReg>, n: int, r: int)
    ensures
        increasing(reached_regions(edges, regs, n, r)),
        forall|x: int| #[trigger] reached_regions(edges, regs, n, r).contains(x) ==> 0 <= x < r,
    decreases r,
{
    if r > 0 {
        lemma_reached_props(edges, regs, n, r - 1);
        let a = reached_regions(edges, regs, n, r - 1);
        let b: Seq<int> = if region_reaches(edges, src_of(regs, r - 1), ep_of(regs, r - 1), n) {
            seq![r - 1]
        } else {
            Seq::empty()
        };
        let c = a + b;
        assert forall|i: int, j: int| 0 <= i < j < c.len() implies c[i] < c[j] by {
            if j < a.len() {
            } else {
                assert(a.contains(c[i]));
            }
        }
        assert forall|x: int| #[trigger] c.contains(x) implies 0 <= x < r by {
            let i = choose|i: int| 0 <= i < c.len() && c[i] == x;
            if i < a.len() {
                assert(a.contains(c[i]));
            }
        }
    }
}

proof fn lemma_add_missing_props(s: Seq<int>, xs: Seq<int>, bound: int)
    requires
        s.no_duplicates(),
        forall|x: int| #[trigger] s.contains(x) ==> 0 <= x < bound,
        forall|x: int| #[trigger] xs.contains(x) ==> 0 <= x < bound,
    ensures
        add_missing(s, xs).no_duplicates(),
        forall|x: int| #[trigger] add_missing(s, xs).contains(x) ==> 0 <= x < bound,
    decreases xs.len(),
{
    if xs.len() > 0 {
        assert forall|x: int| #[trigger] xs.drop_last().contains(x) implies 0 <= x < bound by {
            let i = choose|i: int| 0 <= i < xs.drop_last().len() && xs.drop_last()[i] == x;
            assert(xs[i] == x);
            assert(xs.contains(x));
        }
        lemma_add_missing_props(s, xs.drop_last(), bound);
        let t = add_missing(s, xs.drop_last());
        assert(xs.contains(xs.last()));
        if !t.contains(xs.last()) {
            let u = t.push(xs.last());
            assert forall|x: int| #[trigger] u.contains(x) implies 0 <= x < bound by {
                let i = choose|i: int| 0 <= i < u.len() && u[i] == x;
                if i < t.len() {
                    assert(t.contains(u[i]));
                }
            }
            assert forall|i: int, j: int| 0 <= i < j < u.len() implies u[i] != u[j] by {
                if j == t.len() {
                    assert(t.contains(u[i]));
                }
            }
        }
    }
}

proof fn lemma_paint_props(inputs: Seq<Seq<int>>, regs: Seq<SReg>, k: int)
    requires
        0 <= k <= regs.len(),
        rows_within(inputs, regs.len() as int),
        regions_within(regs, inputs.len()),
    ensures
        paint(inputs, regs, k).len() == inputs.len(),
        rows_within(paint(inputs, regs, k), regs.len() as int),
    decreases k,
{
    if k > 0 {
        lemma_paint_props(inputs, regs, k - 1);
        let prev = paint(inputs, regs, k - 1);
        let s = src_of(regs, k - 1);
        let e = ep_of(regs, k - 1);
        assert(regs[k - 1].source is Some && regs[k - 1].endpoint is Some);
        let xs = seq![k - 1] + prev[s];
        assert(prev[e].no_duplicates());
        assert forall|x: int| #[trigger] xs.contains(x) implies 0 <= x < regs.len() by {
            let i = choose|i: int| 0 <= i < xs.len() && xs[i] == x;
            if i > 0 {
                assert(prev[s].contains(xs[i]));
            }
        }
        lemma_add_missing_props(prev[e], xs, regs.len() as int);
        let r = paint(inputs, regs, k);
        assert forall|n: int| 0 <= n < r.len() implies (#[trigger] r[n]).no_duplicates() by {
            if n != e {
                assert(r[n] == prev[n]);
            }
        }
        assert forall|n: int, x: int| 0 <= n < r.len() && #[trigger] r[n].contains(x) implies 0 <= x < regs.len() by {
            if n != e {
                assert(r[n] == prev[n]);
            }
        }
    }
}

/// The regions of each node are distinct region numbers.
proof fn lemma_node_inputs_props(edges: Seq<(int, int)>, n_nodes: nat, regs: Seq<SReg>)
    requires
        regions_within(regs, n_nodes),
    ensures
        node_inputs(edges, n_nodes, regs).len() == n_nodes,
        rows_within(node_inputs(edges, n_nodes, regs), regs.len() as int),
{
    let a = Seq::new(n_nodes, |n: int| reached_regions(edges, regs, n, regs.len() as int));
    assert forall|n: int| 0 <= n < a.len() implies (#[trigger] a[n]).no_duplicates() by {
        lemma_reached_props(edges, regs, n, regs.len() as int);
    }
    assert forall|n: int, x: int| 0 <= n < a.len() && #[trigger] a[n].contains(x) implies 0 <= x < regs.len() by {
        lemma_reached_props(edges, regs, n, regs.len() as int);
    }
    lemma_paint_props(a, regs, regs.len() as int);
}

} // verus!

verus! {

/// A region in problem reports: its id and the id of its start node.
pub open spec fn reg_key(nodes: Seq<GraphNode>, regs: Seq<SReg>, r: int) -> (u128, usize) {
    (regs[r].id, nodes[src_of(regs, r)].id)
}

/// The dependencies of region `idx` on the regions `row[j..]` of its end
/// node, added after `acc`; a dependency that closes a cycle is a problem.
pub open spec fn deps_row(
    nodes: Seq<GraphNode>,
    regs: Seq<SReg>,
    idx: int,
    row: Seq<int>,
    j: int,
    acc: Seq<(int, int)>,
) -> Result<Seq<(int, int)>, SBuildErr>
    decreases row.len() - j,
{
    if j < 0 || j >= row.len() {
        Ok(acc)
    } else if row[j] == idx {
        deps_row(nodes, regs, idx, row, j + 1, acc)
    } else if dag_path(acc, row[j], idx) {
        Err(SBuildErr::CyclicalDependency(reg_key(nodes, regs, idx), reg_key(nodes, regs, row[j])))
    } else {
        deps_row(nodes, regs, idx, row, j + 1, acc.push((idx, row[j])))
    }
}

/// The dependencies of the first `idx` regions, each on the regions of its
/// end node (an edge from a region to one that encloses it).
pub open spec fn deps(nodes: Seq<GraphNode>, regs: Seq<SReg>, inputs: Seq<Seq<int>>, idx: int) -> Result<
    Seq<(int, int)>,
    SBuildErr,
>
    decreases idx,
{
    if idx <= 0 {
        Ok(Seq::empty())
    } else {
        match deps(nodes, regs, inputs, idx - 1) {
            Err(e) => Err(e),
            Ok(acc) => deps_row(nodes, regs, idx - 1, inputs[ep_of(regs, idx - 1)], 0, acc),
        }
    }
}

proof fn lemma_deps_err(nodes: Seq<GraphNode>, regs: Seq<SReg>, inputs: Seq<Seq<int>>, i: int, j: int)
    requires
        1 <= i <= j,
        deps(nodes, regs, inputs, i) is Err,
    ensures
        deps(nodes, regs, inputs, j) == deps(nodes, regs, inputs, i),
    decreases j - i,
{
    if j > i {
        lemma_deps_err(nodes, regs, inputs, i, j - 1);
    }
}

proof fn lemma_deps_row_err(
    nodes: Seq<GraphNode>,
    regs: Seq<SReg>,
    idx: int,
    row: Seq<int>,
    j: int,
    acc: Seq<(int, int)>,
)
    requires
        0 <= j < row.len(),
        row[j] != idx,
        dag_path(acc, row[j], idx),
    ensures
        deps_row(nodes, regs, idx, row, j, acc) == Err::<Seq<(int, int)>, SBuildErr>(
            SBuildErr::CyclicalDependency(reg_key(nodes, regs, idx), reg_key(nodes, regs, row[j])),
        ),
{
}

fn reg_key_of(nodes: &Vec<GraphNode>, regs: &Vec<RegionBuilderData>, r: usize) -> (k: (u128, usize))
    requires
        r < regs@.len(),
        regions_within(sregs(regs@), nodes@.len()),
    ensures
        k == reg_key(nodes@, sregs(regs@), r as int),
{
    assert(sregs(regs@)[r as int] == sreg(regs@[r as int]));
    let s = regs[r].source.unwrap();
    (regs[r].id, nodes[s].id)
}

/// The graph of dependencies between regions (the first half of
/// `calculate_hierarchy`).
#[verifier::rlimit(50)]
fn build_region_dag(nodes: &Vec<GraphNode>, regs: &Vec<RegionBuilderData>, inputs: &Vec<Vec<usize>>) -> (r: Result<Dag, GraphRegionBuildError>)
    requires
        regions_within(sregs(regs@), nodes@.len()),
        regs@.len() + 1 < 0xffff_ffff,
        inputs@.len() == nodes@.len(),
        rows_within(rows(inputs@), regs@.len() as int),
        deps_fit(nodes@, sregs(regs@), rows(inputs@)),
    ensures
        match (r, deps(nodes@, sregs(regs@), rows(inputs@), regs@.len() as int)) {
            (Ok(g), Ok(e)) => dag_len(g) == regs@.len() && dag_edges(g) == e && e.no_duplicates(),
            (Err(x), Err(s)) => x@ == s,
            _ => false,
        },
{
    let ghost sr = sregs(regs@);
    let ghost ins = rows(inputs@);
    let mut g = dag_new();
    let mut i: usize = 0;
    while i < regs.len()
        invariant
            i <= regs@.len(),
            regs@.len() + 1 < 0xffff_ffff,
            dag_len(g) == i,
            dag_edges(g) == Seq::<(int, int)>::empty(),
        decreases regs.len() - i,
    {
        dag_add_node(&mut g, i);
        i = i + 1;
    }
    let mut idx: usize = 0;
    while idx < regs.len()
        invariant
            sr == sregs(regs@),
            ins == rows(inputs@),
            regions_within(sr, nodes@.len()),
            inputs@.len() == nodes@.len(),
            rows_within(ins, regs@.len() as int),
            idx <= regs@.len(),
            dag_len(g) == regs@.len(),
            deps(nodes@, sr, ins, idx as int) == Ok::<Seq<(int, int)>, SBuildErr>(dag_edges(g)),
            dag_edges(g).no_duplicates(),
            forall|k: int| 0 <= k < dag_edges(g).len() ==> (#[trigger] dag_edges(g)[k]).0 < idx,
            deps_fit(nodes@, sr, ins),
        decreases regs.len() - idx,
    {
        assert(sr[idx as int] == sreg(regs@[idx as int]));
        let ep = regs[idx].endpoint.unwrap();
        let row = &inputs[ep];
        let ghost acc0 = dag_edges(g);
        proof {
            assert(ins[ep as int] == ints(row@));
            assert(deps(nodes@, sr, ins, idx as int) matches Ok(acc) ==> acc.len() + ins[ep_of(sr, idx as int)].len()
                <= 0xffff_ffff);
            assert(acc0.len() + row@.len() <= 0xffff_ffff);
        }
        let mut j: usize = 0;
        while j < row.len()
            invariant
                sr == sregs(regs@),
                ins == rows(inputs@),
                regions_within(sr, nodes@.len()),
                idx < regs@.len(),
                ep < nodes@.len(),
                ep as int == ep_of(sr, idx as int),
                inputs@.len() == nodes@.len(),
                row == &inputs@[ep as int],
                ins[ep as int] == ints(row@),
                deps(nodes@, sr, ins, idx as int) == Ok::<Seq<(int, int)>, SBuildErr>(acc0),
                rows_within(ins, regs@.len() as int),
                j <= row@.len(),
                dag_len(g) == regs@.len(),
                deps_row(nodes@, sr, idx as int, ints(row@), 0, acc0) == deps_row(
                    nodes@,
                    sr,
                    idx as int,
                    ints(row@),
                    j as int,
                    dag_edges(g),
                ),
                dag_edges(g).no_duplicates(),
                forall|k: int| 0 <= k < dag_edges(g).len() ==> (#[trigger] dag_edges(g)[k]).0 < idx || (
                dag_edges(g)[k].0 == idx && ints(row@).subrange(0, j as int).contains(dag_edges(g)[k].1)),
                acc0.len() + row@.len() <= 0xffff_ffff,
                dag_edges(g).len() <= acc0.len() + j,
            decreases row.len() - j,
        {
            let reg = row[j];
            proof {
                assert(ints(row@)[j as int] == reg as int);
                assert(ins[ep as int].contains(reg as int));
                assert(row@.len() == ints(row@).len());
            }
            if reg != idx {
                let ghost before = dag_edges(g);
                match dag_try_add_edge(&mut g, idx, reg) {
                    Ok(()) => {
                        proof {
                            assert(!before.contains((idx as int, reg as int))) by {
                                if before.contains((idx as int, reg as int)) {
                                    let k = choose|k: int| 0 <= k < before.len() && before[k] == (idx as int, reg as int);
                                    assert(ints(row@).subrange(0, j as int).contains(reg as int));
                                    let m = choose|m: int| 0 <= m < j && ints(row@).subrange(0, j as int)[m] == reg as int;
                                    assert(ints(row@)[m] == ints(row@)[j as int]);
                                    assert(ins[ep as int].no_duplicates());
                                }
                            }
                            assert(dag_edges(g).no_duplicates()) by {
                                assert forall|a: int, b: int| 0 <= a < b < dag_edges(g).len() implies dag_edges(g)[a] != dag_edges(g)[b] by {
                                    if b == before.len() {
                                        assert(dag_edges(g)[a] == before[a]);
                                    } else {
                                        assert(dag_edges(g)[a] == before[a] && dag_edges(g)[b] == before[b]);
                                    }
                                }
                            }
                            assert forall|k: int| 0 <= k < dag_edges(g).len() implies (#[trigger] dag_edges(g)[k]).0 < idx || (
                            dag_edges(g)[k].0 == idx && ints(row@).subrange(0, j + 1).contains(dag_edges(g)[k].1)) by {
                                if k < before.len() {
                                    assert(dag_edges(g)[k] == before[k]);
                                    if before[k].0 == idx {
                                        let m = choose|m: int| 0 <= m < j && ints(row@).subrange(0, j as int)[m] == before[k].1;
                                        assert(ints(row@).subrange(0, j + 1)[m] == before[k].1);
                                    }
                                } else {
                                    assert(ints(row@).subrange(0, j + 1)[j as int] == reg as int);
                                }
                            }
                        }
                    },
                    Err(_) => {
                        let a = reg_key_of(nodes, regs, idx);
                        let b = reg_key_of(nodes, regs, reg);
                        let err = GraphRegionBuildError::CyclicalDependency { a, b };
                        proof {
                            assert(dag_path(before, reg as int, idx as int));
                            lemma_deps_row_err(nodes@, sr, idx as int, ints(row@), j as int, before);
                            assert(deps(nodes@, sr, ins, idx as int) == Ok::<Seq<(int, int)>, SBuildErr>(acc0));
                            assert(deps(nodes@, sr, ins, idx + 1) == deps_row(nodes@, sr, idx as int, ins[ep as int], 0, acc0));
                            assert(deps(nodes@, sr, ins, idx + 1) == Err::<Seq<(int, int)>, SBuildErr>(err@));
                            lemma_deps_err(nodes@, sr, ins, idx + 1, regs@.len() as int);
                        }
                        return Err(err);
                    },
                }
            } else {
                proof {
                    assert forall|k: int| 0 <= k < dag_edges(g).len() implies (#[trigger] dag_edges(g)[k]).0 < idx || (
                    dag_edges(g)[k].0 == idx && ints(row@).subrange(0, j + 1).contains(dag_edges(g)[k].1)) by {
                        if dag_edges(g)[k].0 == idx {
                            let m = choose|m: int| 0 <= m < j && ints(row@).subrange(0, j as int)[m] == dag_edges(g)[k].1;
                            assert(ints(row@).subrange(0, j + 1)[m] == dag_edges(g)[k].1);
                        }
                    }
                }
            }
            j = j + 1;
        }
        proof {
            assert(deps(nodes@, sr, ins, idx + 1) == deps_row(nodes@, sr, idx as int, ins[ep as int], 0, acc0));
        }
        idx = idx + 1;
    }
    Ok(g)
}

} // verus!

verus! {

/// Two increasing sequences with the same elements are equal.
proof fn lemma_increasing_eq(a: Seq<int>, b: Seq<int>)
    requires
        increasing(a),
        increasing(b),
        forall|x: int| a.contains(x) <==> b.contains(x),
    ensures
        a == b,
    decreases a.len(),
{
    if a.len() == 0 {
        if b.len() > 0 {
            assert(b.contains(b[0]));
        }
        assert(a =~= b);
    } else {
        assert(a.contains(a[0]));
        assert(b.len() > 0);
        assert(b.contains(b[0]));
        let j = choose|j: int| 0 <= j < b.len() && b[j] == a[0];
        let i = choose|i: int| 0 <= i < a.len() && a[i] == b[0];
        assert(a[0] == b[0]) by {
            if i > 0 {
                assert(a[0] < a[i]);
            }
            if j > 0 {
                assert(b[0] < b[j]);
            }
        }
        let a1 = a.drop_first();
        let b1 = b.drop_first();
        assert forall|x: int| a1.contains(x) <==> b1.contains(x) by {
            if a1.contains(x) {
                let k = choose|k: int| 0 <= k < a1.len() && a1[k] == x;
                assert(a[k + 1] == x);
                assert(a.contains(x));
                let m = choose|m: int| 0 <= m < b.len() && b[m] == x;
                assert(a[0] < a[k + 1]);
                assert(m != 0);
                assert(b1[m - 1] == x);
            }
            if b1.contains(x) {
                let k = choose|k: int| 0 <= k < b1.len() && b1[k] == x;
                assert(b[k + 1] == x);
                assert(b.contains(x));
                let m = choose|m: int| 0 <= m < a.len() && a[m] == x;
                assert(b[0] < b[k + 1]);
                assert(m != 0);
                assert(a1[m - 1] == x);
            }
        }
        lemma_increasing_eq(a1, b1);
        assert(a =~= seq![a[0]] + a1);
        assert(b =~= seq![b[0]] + b1);
    }
}

/// A topological order lists every node.
proof fn lemma_topo_onto(n: nat, edges: Seq<(int, int)>, t: Seq<int>, r: int)
    requires
        is_topo_order(n, edges, t),
        0 <= r < n,
    ensures
        exists|p: int| 0 <= p < n && t[p] == r,
{
    let s = t.to_set();
    let u = vstd::set_lib::set_int_range(0, n as int);
    t.unique_seq_to_set();
    vstd::set_lib::lemma_int_range(0, n as int);
    assert(s.subset_of(u)) by {
        assert forall|x: int| s.contains(x) implies u.contains(x) by {
            let p = choose|p: int| 0 <= p < t.len() && t[p] == x;
        }
    }
    vstd::set_lib::lemma_subset_equality(s, u);
    assert(u.contains(r));
    assert(s.contains(r));
}

/// The place of each node in the order `t`.
pub open spec fn inverse(t: Seq<int>) -> Seq<int> {
    Seq::new(t.len(), |r: int| choose|p: int| 0 <= p < t.len() && t[p] == r)
}

/// Node `p` of the graph renamed by `topo`: its successors, in ascending order.
pub open spec fn is_ranked_row(n: nat, edges: Seq<(int, int)>, topo: Seq<int>, p: int, row: Seq<int>) -> bool {
    increasing(row) && forall|x: int| row.contains(x) <==> (0 <= x < n && edges.contains((topo[p], topo[x])))
}

pub open spec fn ranked_rows_of(n: nat, edges: Seq<(int, int)>, topo: Seq<int>) -> Seq<Seq<int>> {
    Seq::new(n, |p: int| choose|row: Seq<int>| is_ranked_row(n, edges, topo, p, row))
}

/// The successors of `p` that no other successor reaches, in ascending order.
pub open spec fn is_reduced_row(adj: Seq<Seq<int>>, p: int, row: Seq<int>) -> bool {
    increasing(row) && forall|x: int| row.contains(x) <==> (adj[p].contains(x) && !exists|y: int| adj[p].contains(y)
        && y != x && ranked_path(adj, y, x))
}

pub open spec fn reduced_rows_of(adj: Seq<Seq<int>>) -> Seq<Seq<int>> {
    Seq::new(adj.len(), |p: int| choose|row: Seq<int>| is_reduced_row(adj, p, row))
}

/// The regions' parents as the hierarchy is filled in, and the place of each
/// region in the order.
pub struct SHier {
    pub parents: Seq<Seq<int>>,
    pub topo_index: Seq<Option<int>>,
}

/// The hierarchy after the first `p` places of the reduced graph `red`, whose
/// place `q` stands for region `rev[q]`: a region with one parent gets it,
/// and so does every region whose last parent so far is that region; more
/// than one parent is a problem.
pub open spec fn hier(nodes: Seq<GraphNode>, regs: Seq<SReg>, red: Seq<Seq<int>>, rev: Seq<int>, p: int) -> Result<SHier, SBuildErr>
    decreases p,
{
    if p <= 0 {
        Ok(SHier {
            parents: Seq::new(regs.len(), |r: int| Seq::<int>::empty()),
            topo_index: Seq::new(regs.len(), |r: int| None::<int>),
        })
    } else {
        match hier(nodes, regs, red, rev, p - 1) {
            Err(e) => Err(e),
            Ok(h) => {
                let q = p - 1;
                let cur = rev[q];
                let ti = h.topo_index.update(cur, Some(q));
                let row = red[q];
                if row.len() == 0 {
                    Ok(SHier { parents: h.parents, topo_index: ti })
                } else if row.len() > 1 {
                    Err(SBuildErr::MultipleParentRegions(
                        reg_key(nodes, regs, cur),
                        row.map_values(|x: int| reg_key(nodes, regs, rev[x])),
                    ))
                } else {
                    let par = rev[row[0]];
                    let ps = h.parents.update(cur, h.parents[cur].push(par));
                    Ok(SHier {
                        parents: Seq::new(
                            ps.len(),
                            |d: int| if ps[d].len() > 0 && ps[d].last() == cur { ps[d].push(par) } else { ps[d] },
                        ),
                        topo_index: ti,
                    })
                }
            },
        }
    }
}

/// The hierarchy of regions whose dependencies are `edges`.
pub open spec fn hierarchy(nodes: Seq<GraphNode>, regs: Seq<SReg>, edges: Seq<(int, int)>) -> Result<SHier, SBuildErr> {
    let n = regs.len();
    let topo = toposort_of(n, edges);
    hier(nodes, regs, reduced_rows_of(ranked_rows_of(n, edges, topo)), inverse(topo), n as int)
}

} // verus!

verus! {

pub open spec fn opts(v: Seq<Option<usize>>) -> Seq<Option<int>> {
    v.map_values(|o: Option<usize>| opt_int(o))
}

/// The regions `rows` stand for, each as its id and start node id.
fn region_keys(nodes: &Vec<GraphNode>, regs: &Vec<RegionBuilderData>, rev: &Vec<usize>, row: &Vec<usize>) -> (r: Vec<(u128, usize)>)
    requires
        regions_within(sregs(regs@), nodes@.len()),
        forall|j: int| 0 <= j < row@.len() ==> (#[trigger] row@[j]) < rev@.len(),
        forall|j: int| 0 <= j < rev@.len() ==> (#[trigger] rev@[j]) < regs@.len(),
    ensures
        r@ == ints(row@).map_values(|x: int| reg_key(nodes@, sregs(regs@), ints(rev@)[x])),
{
    let mut r: Vec<(u128, usize)> = Vec::new();
    let mut k: usize = 0;
    while k < row.len()
        invariant
            regions_within(sregs(regs@), nodes@.len()),
            forall|j: int| 0 <= j < row@.len() ==> (#[trigger] row@[j]) < rev@.len(),
            forall|j: int| 0 <= j < rev@.len() ==> (#[trigger] rev@[j]) < regs@.len(),
            k <= row@.len(),
            r@ == ints(row@).subrange(0, k as int).map_values(|x: int| reg_key(nodes@, sregs(regs@), ints(rev@)[x])),
        decreases row.len() - k,
    {
        let q = row[k];
        let key = reg_key_of(nodes, regs, rev[q]);
        let ghost before = r@;
        r.push(key);
        proof {
            assert(ints(rev@)[q as int] == rev@[q as int] as int);
            assert(r@ =~= ints(row@).subrange(0, k + 1).map_values(|x: int| reg_key(nodes@, sregs(regs@), ints(rev@)[x])));
        }
        k = k + 1;
    }
    assert(ints(row@).subrange(0, row@.len() as int) =~= ints(row@));
    r
}

/// Nests the regions: each gets its chain of enclosing regions, innermost
/// first (the second half of `calculate_hierarchy`).
fn calculate_hierarchy(nodes: &Vec<GraphNode>, regs: &Vec<RegionBuilderData>, g: &Dag) -> (r: Result<
    (Vec<Vec<usize>>, Vec<Option<usize>>),
    GraphRegionBuildError,
>)
    requires
        regions_within(sregs(regs@), nodes@.len()),
        dag_len(*g) == regs@.len(),
        dag_edges(*g).no_duplicates(),
    ensures
        match (r, hierarchy(nodes@, sregs(regs@), dag_edges(*g))) {
            (Ok((ps, ti)), Ok(h)) => rows(ps@) == h.parents && opts(ti@) == h.topo_index,
            (Err(e), Err(s)) => e@ == s,
            _ => false,
        },
        r matches Ok((ps, ti)) ==> ps@.len() == regs@.len() && ti@.len() == regs@.len()
            && (forall|d: int, x: int| 0 <= d < regs@.len() && #[trigger] rows(ps@)[d].contains(x) ==> 0 <= x < regs@.len())
            && (forall|c: int| 0 <= c < regs@.len() ==> #[trigger] opts(ti@)[c] == Some(
            toposort_of(regs@.len() as nat, dag_edges(*g))[c],
        )),
        r is Ok ==> is_topo_order(regs@.len() as nat, dag_edges(*g), toposort_of(regs@.len() as nat, dag_edges(*g))),
        r matches Ok((ps, ti)) ==> forall|d: int, x: int| 0 <= d < regs@.len() && #[trigger] rows(ps@)[d].contains(x)
            ==> toposort_of(regs@.len() as nat, dag_edges(*g))[x] > toposort_of(regs@.len() as nat, dag_edges(*g))[d],
        r matches Ok((ps, ti)) ==> chains(rows(ps@)) && forall|d: int|
            0 <= d < regs@.len() ==> rising(toposort_of(regs@.len() as nat, dag_edges(*g)), d, #[trigger] rows(ps@)[d]),
{
    let ghost sr = sregs(regs@);
    let ghost edges = dag_edges(*g);
    let n = regs.len();
    let topo = dag_toposort(g).unwrap();
    let ghost t = ints(topo@);
    assert(t == toposort_of(n as nat, edges));
    let (ranked_list, revmap) = dag_ranked(g, &topo);
    let ghost adj = ranked_adj(ranked_list);
    proof {
        assert forall|p: int| 0 <= p < n implies #[trigger] adj[p] == ranked_rows_of(n as nat, edges, t)[p] by {
            assert(topo@[p] as int == t[p]);
            assert(is_ranked_row(n as nat, edges, t, p, adj[p])) by {
                assert forall|x: int| adj[p].contains(x) <==> (0 <= x < n && edges.contains((t[p], t[x]))) by {
                    if 0 <= x < n {
                        assert(topo@[x] as int == t[x]);
                    }
                }
            }
            let c = choose|row: Seq<int>| is_ranked_row(n as nat, edges, t, p, row);
            lemma_increasing_eq(adj[p], c);
        }
        assert(adj =~= ranked_rows_of(n as nat, edges, t));
        assert forall|p: int, x: int| 0 <= p < adj.len() && adj[p].contains(x) implies p < x < adj.len() by {
            assert(topo@[p] as int == t[p]);
            assert(topo@[x] as int == t[x]);
        }
    }
    let reduced = dag_tred(&ranked_list);
    let ghost red = ranked_adj(reduced);
    proof {
        assert forall|p: int| 0 <= p < n implies #[trigger] red[p] == reduced_rows_of(adj)[p] by {
            assert(is_reduced_row(adj, p, red[p]));
            let c = choose|row: Seq<int>| is_reduced_row(adj, p, row);
            lemma_increasing_eq(red[p], c);
        }
        assert(red =~= reduced_rows_of(adj));
    }
    let ghost rev = ints(revmap@);
    proof {
        assert forall|x: int| 0 <= x < n implies #[trigger] rev[x] == inverse(t)[x] && 0 <= rev[x] < n by {
            lemma_topo_onto(n as nat, edges, t, x);
            let p = choose|p: int| 0 <= p < n && t[p] == x;
            assert(topo@[p] as int == x);
            assert(revmap@[topo@[p] as int] == p);
            let c = choose|c: int| 0 <= c < t.len() && t[c] == x;
            assert(c == p) by {
                if c != p {
                    assert(t[c] != t[p]);
                }
            }
        }
        assert(rev =~= inverse(t));
        assert forall|q: int| 0 <= q < n implies t[#[trigger] rev[q]] == q by {
            lemma_topo_onto(n as nat, edges, t, q);
        }
        assert forall|q: int, x: int| 0 <= q < n && #[trigger] red[q].contains(x) implies q < x < n by {
            assert(adj[q].contains(x));
        }
    }
    let mut parents: Vec<Vec<usize>> = Vec::new();
    let mut topo_index: Vec<Option<usize>> = Vec::new();
    let mut i: usize = 0;
    while i < n
        invariant
            i <= n,
            parents@.len() == i,
            topo_index@.len() == i,
            forall|j: int| 0 <= j < i ==> (#[trigger] parents@[j])@.len() == 0,
            forall|j: int| 0 <= j < i ==> (#[trigger] topo_index@[j]) is None,
        decreases n - i,
    {
        parents.push(Vec::new());
        topo_index.push(None);
        i = i + 1;
    }
    proof {
        assert forall|j: int| 0 <= j < n implies #[trigger] rows(parents@)[j] == Seq::<int>::empty() by {
            assert(rows(parents@)[j] == ints(parents@[j]@));
            assert(ints(parents@[j]@) =~= Seq::<int>::empty());
        }
        assert(rows(parents@) =~= Seq::new(sr.len(), |r: int| Seq::<int>::empty()));
        assert(hierarchy(nodes@, sr, edges) == hier(nodes@, sr, red, rev, n as int));
        assert(opts(topo_index@) =~= Seq::new(sr.len(), |r: int| None::<int>));
    }
    let mut p: usize = 0;
    while p < n
        invariant
            n == regs@.len(),
            sr == sregs(regs@),
            regions_within(sr, nodes@.len()),
            red.len() == n,
            red == ranked_adj(reduced),
            rev == ints(revmap@),
            revmap@.len() == n,
            forall|x: int| 0 <= x < n ==> 0 <= #[trigger] rev[x] < n,
            forall|q: int, x: int| 0 <= q < n && #[trigger] red[q].contains(x) ==> q < x < n,
            forall|q: int| 0 <= q < n ==> t[#[trigger] rev[q]] == q,
            forall|d: int, x: int| 0 <= d < n && #[trigger] rows(parents@)[d].contains(x) ==> t[x] > t[d],
            p <= n,
            parents@.len() == n,
            topo_index@.len() == n,
            hier(nodes@, sr, red, rev, p as int) == Ok::<SHier, SBuildErr>(
                SHier { parents: rows(parents@), topo_index: opts(topo_index@) },
            ),
            hierarchy(nodes@, sr, edges) == hier(nodes@, sr, red, rev, n as int),
            edges == dag_edges(*g),
            t == toposort_of(n as nat, edges),
            is_topo_order(n as nat, edges, t),
            rev == inverse(t),
            forall|d: int, x: int| 0 <= d < n && #[trigger] rows(parents@)[d].contains(x) ==> 0 <= x < n,
            forall|c: int| 0 <= c < n ==> #[trigger] opts(topo_index@)[c] == if t[c] < p {
                Some(t[c])
            } else {
                None::<int>
            },
        decreases n - p,
    {
        let row = ranked_successors(&reduced, p);
        assert(ints(row@) == red[p as int]);
        let cur = revmap[p];
        assert(rev[p as int] == cur as int);
        let ghost h = SHier { parents: rows(parents@), topo_index: opts(topo_index@) };
        let ghost ti0 = opts(topo_index@);
        topo_index.set(cur, Some(p));
        proof {
            assert(opts(topo_index@) =~= h.topo_index.update(cur as int, Some(p as int)));
            lemma_topo_onto(n as nat, edges, t, p as int);
            let c0 = choose|c: int| 0 <= c < t.len() && t[c] == p as int;
            assert(inverse(t)[p as int] == c0);
            assert(cur as int == c0);
            assert forall|c: int| 0 <= c < n implies #[trigger] opts(topo_index@)[c] == if t[c] < p + 1 {
                Some(t[c])
            } else {
                None::<int>
            } by {
                if c != cur {
                    assert(opts(topo_index@)[c] == ti0[c]);
                    assert(t[c] != t[c0]);
                }
            }
            assert forall|j: int| 0 <= j < row@.len() implies (#[trigger] row@[j]) < revmap@.len() by {
                assert(ints(row@)[j] == row@[j] as int);
                assert(red[p as int].contains(row@[j] as int));
            }
            assert forall|j: int| 0 <= j < revmap@.len() implies (#[trigger] revmap@[j]) < regs@.len() by {
                assert(rev[j] == revmap@[j] as int);
            }
        }
        if row.len() > 1 {
            let region = reg_key_of(nodes, regs, cur);
            let keys = region_keys(nodes, regs, &revmap, &row);
            let err = GraphRegionBuildError::MultipleParentRegions { region, parents: keys };
            proof {
                assert(hier(nodes@, sr, red, rev, p + 1) == Err::<SHier, SBuildErr>(err@));
                lemma_hier_err(nodes@, sr, red, rev, p + 1, n as int);
            }
            return Err(err);
        }
        if row.len() == 1 {
            let par = revmap[row[0]];
            proof {
                assert(ints(row@)[0] == row@[0] as int);
                assert(red[p as int].contains(row@[0] as int));
                assert(rev[row@[0] as int] == par as int);
            }
            let ghost before = parents@;
            parents[cur].push(par);
            let ghost ps = rows(parents@);
            proof {
                assert(ints(parents@[cur as int]@) =~= ints(before[cur as int]@).push(par as int));
                assert forall|j: int| 0 <= j < n && j != cur implies parents@[j] == before[j] by {}
                assert(ps =~= h.parents.update(cur as int, h.parents[cur as int].push(par as int)));
            }
            proof {
                assert(t[cur as int] == p);
                assert(red[p as int].contains(row@[0] as int));
                assert(t[par as int] == row@[0] as int);
                assert forall|d2: int, x: int| 0 <= d2 < n && #[trigger] ps[d2].contains(x) implies t[x] > t[d2] by {
                    if d2 == cur {
                        if x != par {
                            let k = choose|k: int| 0 <= k < ps[d2].len() && ps[d2][k] == x;
                            assert(h.parents[cur as int][k] == x);
                            assert(h.parents[cur as int].contains(x));
                        }
                    } else {
                        assert(ps[d2] == h.parents[d2]);
                    }
                }
                assert forall|d2: int, x: int| 0 <= d2 < n && #[trigger] ps[d2].contains(x) implies 0 <= x < n by {
                    if d2 == cur {
                        if x != par {
                            assert(h.parents[cur as int].contains(x)) by {
                                let k = choose|k: int| 0 <= k < ps[d2].len() && ps[d2][k] == x;
                                assert(h.parents[cur as int][k] == x);
                            }
                        }
                    } else {
                        assert(ps[d2] == h.parents[d2]);
                    }
                }
            }
            let mut d: usize = 0;
            while d < n
                invariant
                    n == regs@.len(),
                    parents@.len() == n,
                    d <= n,
                    ps.len() == n,
                    par < n,
                    forall|d2: int, x: int| 0 <= d2 < n && #[trigger] ps[d2].contains(x) ==> 0 <= x < n,
                    forall|d2: int, x: int| 0 <= d2 < n && #[trigger] ps[d2].contains(x) ==> t[x] > t[d2],
                    forall|j: int| 0 <= j < d ==> rows(parents@)[j] == (if ps[j].len() > 0 && ps[j].last() == cur as int {
                        ps[j].push(par as int)
                    } else {
                        ps[j]
                    }),
                    forall|j: int| d <= j < n ==> rows(parents@)[j] == ps[j],
                decreases n - d,
            {
                let ghost b2 = parents@;
                assert(rows(b2)[d as int] == ints(b2[d as int]@));
                let len = parents[d].len();
                if len > 0 && parents[d][len - 1] == cur {
                    assert(ints(b2[d as int]@).last() == cur as int);
                    parents[d].push(par);
                    assert(ints(parents@[d as int]@) =~= ints(b2[d as int]@).push(par as int));
                } else {
                    proof {
                        if len > 0 {
                            assert(ints(b2[d as int]@).last() == b2[d as int]@[len - 1] as int);
                        }
                    }
                }
                proof {
                    assert forall|j: int| 0 <= j < n && j != d implies parents@[j] == b2[j] by {}
                    assert forall|j: int| 0 <= j < d + 1 implies rows(parents@)[j] == (if ps[j].len() > 0 && ps[j].last() == cur as int {
                        ps[j].push(par as int)
                    } else {
                        ps[j]
                    }) by {
                        assert(rows(parents@)[j] == ints(parents@[j]@));
                        assert(rows(b2)[j] == ints(b2[j]@));
                    }
                    assert forall|j: int| d + 1 <= j < n implies rows(parents@)[j] == ps[j] by {
                        assert(rows(parents@)[j] == ints(parents@[j]@));
                        assert(rows(b2)[j] == ints(b2[j]@));
                    }
                }
                d = d + 1;
            }
            proof {
                assert(rows(parents@) =~= Seq::new(
                    ps.len(),
                    |j: int| if ps[j].len() > 0 && ps[j].last() == cur as int { ps[j].push(par as int) } else { ps[j] },
                ));
                assert forall|d2: int, x: int| 0 <= d2 < n && #[trigger] rows(parents@)[d2].contains(x) implies 0 <= x < n by {
                    let k = choose|k: int| 0 <= k < rows(parents@)[d2].len() && rows(parents@)[d2][k] == x;
                    if k < ps[d2].len() {
                        assert(ps[d2][k] == x);
                        assert(ps[d2].contains(x));
                    }
                }
                assert forall|d2: int, x: int| 0 <= d2 < n && #[trigger] rows(parents@)[d2].contains(x) implies t[x] > t[d2] by {
                    let k = choose|k: int| 0 <= k < rows(parents@)[d2].len() && rows(parents@)[d2][k] == x;
                    if k < ps[d2].len() {
                        assert(ps[d2][k] == x);
                        assert(ps[d2].contains(x));
                    } else {
                        assert(x == par);
                        assert(ps[d2].contains(ps[d2].last()));
                    }
                }
            }
        }
        p = p + 1;
    }
    proof {
        assert forall|x: int| 0 <= x < n implies 0 <= #[trigger] t[x] < n && rev[t[x]] == x by {
            let y = rev[t[x]];
            assert(t[y] == t[x]);
            if y != x {
                assert(t[y] != t[x]);
            }
        }
        lemma_hier_chains(nodes@, sr, red, rev, t, n as int);
    }
    Ok((parents, topo_index))
}

/// Ranks `t` rise along the chain `[d] + c`, whose regions lie below
/// `t.len()`.
pub open spec fn rising(t: Seq<int>, d: int, c: Seq<int>) -> bool {
    &&& forall|k: int| 0 <= k < c.len() ==> 0 <= #[trigger] c[k] < t.len()
    &&& c.len() > 0 ==> t[c[0]] > t[d]
    &&& forall|k: int| 0 <= k < c.len() - 1 ==> t[#[trigger] c[k + 1]] > t[c[k]]
}

/// The parents of each region form its chain of ancestors: the parents of
/// its `k`-th parent are the parents after it.
pub open spec fn chains(ps: Seq<Seq<int>>) -> bool {
    forall|d: int, k: int|
        0 <= d < ps.len() && 0 <= k < ps[d].len() ==> #[trigger] ps[ps[d][k]] == ps[d].subrange(
            k + 1,
            ps[d].len() as int,
        )
}

/// The parents as the hierarchy is filled in up to rank `p`: chains of
/// rising rank; a region not reached yet has none; a chain ends at a region
/// not reached yet or without parent.
pub open spec fn hier_inv(red: Seq<Seq<int>>, t: Seq<int>, ps: Seq<Seq<int>>, n: int, p: int) -> bool {
    &&& ps.len() == n
    &&& forall|d: int| 0 <= d < n ==> rising(t, d, #[trigger] ps[d])
    &&& chains(ps)
    &&& forall|d: int| 0 <= d < n && t[d] >= p ==> (#[trigger] ps[d]).len() == 0
    &&& forall|d: int|
        0 <= d < n && (#[trigger] ps[d]).len() > 0 ==> (t[ps[d].last()] >= p || red[t[ps[d].last()]].len() == 0)
}

proof fn lemma_rising_order(t: Seq<int>, d: int, c: Seq<int>)
    requires
        rising(t, d, c),
    ensures
        forall|a: int, b: int| 0 <= a < b < c.len() ==> t[c[a]] < t[c[b]],
        forall|a: int| 0 <= a < c.len() ==> t[d] < t[c[a]],
    decreases c.len(),
{
    if c.len() > 1 {
        let e = c.drop_last();
        assert forall|k: int| 0 <= k < e.len() - 1 implies t[#[trigger] e[k + 1]] > t[e[k]] by {
            assert(e[k + 1] == c[k + 1] && e[k] == c[k]);
        }
        assert(rising(t, d, e));
        lemma_rising_order(t, d, e);
        assert forall|a: int, b: int| 0 <= a < b < c.len() implies t[c[a]] < t[c[b]] by {
            if b < c.len() - 1 {
                assert(e[a] == c[a] && e[b] == c[b]);
            } else {
                let k = b - 1;
                assert(c[k + 1] == c[b]);
                assert(t[c[b]] > t[c[b - 1]]);
                if a < b - 1 {
                    assert(e[a] == c[a] && e[b - 1] == c[b - 1]);
                }
            }
        }
        assert forall|a: int| 0 <= a < c.len() implies t[d] < t[c[a]] by {
            if a > 0 {
                assert(t[c[0]] < t[c[a]]);
            }
        }
    }
}

proof fn lemma_hier_chains(nodes: Seq<GraphNode>, regs: Seq<SReg>, red: Seq<Seq<int>>, rev: Seq<int>, t: Seq<int>, p: int)
    requires
        0 <= p <= regs.len(),
        t.len() == regs.len(),
        forall|x: int| 0 <= x < regs.len() ==> 0 <= #[trigger] t[x] < regs.len() && rev[t[x]] == x,
        forall|q: int| 0 <= q < regs.len() ==> 0 <= #[trigger] rev[q] < regs.len() && t[rev[q]] == q,
        forall|q: int, y: int| 0 <= q < regs.len() && #[trigger] red[q].contains(y) ==> q < y < regs.len(),
    ensures
        hier(nodes, regs, red, rev, p) matches Ok(h) ==> hier_inv(red, t, h.parents, regs.len() as int, p),
    decreases p,
{
    let n = regs.len() as int;
    if p == 0 {
        let ps = Seq::new(regs.len(), |r: int| Seq::<int>::empty());
        assert(chains(ps));
        assert forall|d: int| 0 <= d < n implies rising(t, d, #[trigger] ps[d]) by {}
        return;
    }
    lemma_hier_chains(nodes, regs, red, rev, t, p - 1);
    if let Ok(h) = hier(nodes, regs, red, rev, p - 1) {
        let q = p - 1;
        let cur = rev[q];
        let row = red[q];
        let pp = h.parents;
        assert(t[cur] == q);
        assert(pp[cur].len() == 0);
        if row.len() == 0 {
            assert forall|d: int| 0 <= d < n && (#[trigger] pp[d]).len() > 0 implies (t[pp[d].last()] >= p || red[t[
                pp[d].last()
            ]].len() == 0) by {
                let e = pp[d].last();
                assert(pp[d][pp[d].len() - 1] == e);
                assert(0 <= e < n);
                if t[e] == q {
                    assert(rev[t[e]] == e);
                }
            }
        } else if row.len() == 1 {
            let y = row[0];
            assert(red[q].contains(y));
            let par = rev[y];
            assert(t[par] == y);
            assert(par != cur);
            let ps1 = pp.update(cur, pp[cur].push(par));
            let p2 = Seq::new(
                ps1.len(),
                |d: int| if ps1[d].len() > 0 && ps1[d].last() == cur { ps1[d].push(par) } else { ps1[d] },
            );
            assert(hier(nodes, regs, red, rev, p) == Ok::<SHier, SBuildErr>(
                SHier { parents: p2, topo_index: h.topo_index.update(cur, Some(q)) },
            ));
            assert(ps1[cur] =~= seq![par]);
            assert(p2[cur] =~= seq![par]);
            assert(pp[par].len() == 0);
            assert(p2[par] == pp[par]);
            // each chain, extended when it ended at `cur`
            assert forall|d: int| 0 <= d < n && d != cur implies #[trigger] p2[d] == (if pp[d].len() > 0
                && pp[d].last() == cur {
                pp[d].push(par)
            } else {
                pp[d]
            }) by {
                assert(ps1[d] == pp[d]);
            }
            assert forall|d: int| 0 <= d < n implies rising(t, d, #[trigger] p2[d]) by {
                assert(rising(t, d, pp[d]));
                if d != cur && pp[d].len() > 0 && pp[d].last() == cur {
                    let c = pp[d].push(par);
                    assert forall|k: int| 0 <= k < c.len() - 1 implies t[#[trigger] c[k + 1]] > t[c[k]] by {
                        if k < pp[d].len() - 1 {
                            assert(c[k + 1] == pp[d][k + 1] && c[k] == pp[d][k]);
                        } else {
                            assert(c[k] == pp[d][pp[d].len() - 1]);
                        }
                    }
                    assert forall|k: int| 0 <= k < c.len() implies 0 <= #[trigger] c[k] < t.len() by {
                        if k < pp[d].len() {
                            assert(c[k] == pp[d][k]);
                        }
                    }
                }
            }
            assert forall|d: int| 0 <= d < n && t[d] >= p implies (#[trigger] p2[d]).len() == 0 by {
                assert(pp[d].len() == 0);
            }
            assert forall|d: int| 0 <= d < n && (#[trigger] p2[d]).len() > 0 implies (t[p2[d].last()] >= p
                || red[t[p2[d].last()]].len() == 0) by {
                if d != cur && !(pp[d].len() > 0 && pp[d].last() == cur) {
                    let e = pp[d].last();
                    assert(pp[d][pp[d].len() - 1] == e);
                    assert(rising(t, d, pp[d]));
                    assert(0 <= e < n);
                    if t[e] == q {
                        assert(rev[t[e]] == e);
                    }
                }
            }
            assert forall|d: int, k: int| 0 <= d < p2.len() && 0 <= k < p2[d].len() implies #[trigger] p2[p2[d][k]]
                == p2[d].subrange(k + 1, p2[d].len() as int) by {
                if d == cur {
                    assert(p2[d][k] == par);
                    assert(p2[d].subrange(1, 1) =~= Seq::<int>::empty());
                } else {
                    assert(rising(t, d, pp[d]));
                    if pp[d].len() > 0 && pp[d].last() == cur {
                        let l = pp[d].len() as int;
                        if k < l - 1 {
                            let e = pp[d][k];
                            assert(p2[d][k] == e);
                            assert(pp[e] == pp[d].subrange(k + 1, l));
                            assert(e != cur) by {
                                if e == cur {
                                    assert(pp[d].subrange(k + 1, l).len() > 0);
                                }
                            }
                            assert(pp[e].last() == pp[d][l - 1]);
                            assert(p2[e] == pp[e].push(par));
                            assert(p2[e] =~= p2[d].subrange(k + 1, p2[d].len() as int));
                        } else if k == l - 1 {
                            assert(p2[d][k] == pp[d][l - 1]);
                            assert(p2[d].subrange(l, l + 1) =~= seq![par]);
                        } else {
                            assert(p2[d][k] == par);
                            assert(p2[d].subrange(l + 1, l + 1) =~= Seq::<int>::empty());
                        }
                    } else {
                        let e = pp[d][k];
                        assert(p2[d][k] == e);
                        assert(pp[e] == pp[d].subrange(k + 1, pp[d].len() as int));
                        assert(e != cur) by {
                            if e == cur {
                                assert(pp[d].subrange(k + 1, pp[d].len() as int).len() == 0);
                                assert(k == pp[d].len() - 1);
                            }
                        }
                        if pp[e].len() > 0 {
                            assert(pp[e].last() == pp[d].last());
                        }
                        assert(p2[e] == pp[e]);
                    }
                }
            }
        }
    }
}

proof fn lemma_hier_err(nodes: Seq<GraphNode>, regs: Seq<SReg>, red: Seq<Seq<int>>, rev: Seq<int>, i: int, j: int)
    requires
        1 <= i <= j,
        hier(nodes, regs, red, rev, i) is Err,
    ensures
        hier(nodes, regs, red, rev, j) == hier(nodes, regs, red, rev, i),
    decreases j - i,
{
    if j > i {
        lemma_hier_err(nodes, regs, red, rev, i, j - 1);
    }
}

} // verus!

verus! {

/// `r` holds the elements of `s`, in ascending order of `key`.
pub open spec fn is_sorted_by(r: Seq<int>, s: Seq<int>, key: Seq<int>) -> bool {
    &&& forall|x: int| r.contains(x) <==> s.contains(x)
    &&& forall|i: int, j: int| 0 <= i < j < r.len() ==> key[r[i]] < key[r[j]]
}

/// The elements of `s` in ascending order of `key`.
pub open spec fn sorted_by_key(s: Seq<int>, key: Seq<int>) -> Seq<int> {
    choose|r: Seq<int>| is_sorted_by(r, s, key)
}

/// `key` gives distinct values to `0..n`.
pub open spec fn key_injective(key: Seq<int>) -> bool {
    forall|a: int, b: int| 0 <= a < key.len() && 0 <= b < key.len() && a != b ==> key[a] != key[b]
}

proof fn lemma_sorted_unique(r1: Seq<int>, r2: Seq<int>, s: Seq<int>, key: Seq<int>)
    requires
        is_sorted_by(r1, s, key),
        is_sorted_by(r2, s, key),
        key_injective(key),
        forall|x: int| s.contains(x) ==> 0 <= x < key.len(),
    ensures
        r1 == r2,
{
    let k1 = r1.map_values(|x: int| key[x]);
    let k2 = r2.map_values(|x: int| key[x]);
    assert forall|v: int| k1.contains(v) <==> k2.contains(v) by {
        if k1.contains(v) {
            let i = choose|i: int| 0 <= i < k1.len() && k1[i] == v;
            assert(r1.contains(r1[i]));
            assert(r2.contains(r1[i]));
            let j = choose|j: int| 0 <= j < r2.len() && r2[j] == r1[i];
            assert(k2[j] == v);
        }
        if k2.contains(v) {
            let i = choose|i: int| 0 <= i < k2.len() && k2[i] == v;
            assert(r2.contains(r2[i]));
            assert(r1.contains(r2[i]));
            let j = choose|j: int| 0 <= j < r1.len() && r1[j] == r2[i];
            assert(k1[j] == v);
        }
    }
    lemma_increasing_eq(k1, k2);
    assert(k1.len() == r1.len() && k2.len() == r2.len());
    assert forall|i: int| 0 <= i < r1.len() implies r1[i] == r2[i] by {
        assert(k1[i] == k2[i]);
        assert(r1.contains(r1[i]));
        assert(r2.contains(r2[i]));
    }
    assert(r1 =~= r2);
}

/// Sorts the regions `row` by `key` (`sort_unstable_by_key`; the keys are
/// distinct, so the order is fixed).
fn sort_by_key(row: &Vec<usize>, key: &Vec<usize>) -> (r: Vec<usize>)
    requires
        ints(row@).no_duplicates(),
        forall|j: int| 0 <= j < row@.len() ==> (#[trigger] row@[j]) < key@.len(),
        key_injective(ints(key@)),
    ensures
        is_sorted_by(ints(r@), ints(row@), ints(key@)),
        ints(r@) == sorted_by_key(ints(row@), ints(key@)),
        forall|j: int| 0 <= j < r@.len() ==> (#[trigger] r@[j]) < key@.len(),
{
    let ghost kk = ints(key@);
    let mut out: Vec<usize> = Vec::new();
    let mut i: usize = 0;
    while i < row.len()
        invariant
            i <= row@.len(),
            kk == ints(key@),
            key_injective(kk),
            ints(row@).no_duplicates(),
            forall|j: int| 0 <= j < row@.len() ==> (#[trigger] row@[j]) < key@.len(),
            forall|j: int| 0 <= j < out@.len() ==> (#[trigger] out@[j]) < key@.len(),
            is_sorted_by(ints(out@), ints(row@).subrange(0, i as int), kk),
        decreases row.len() - i,
    {
        let x = row[i];
        let kx = key[x];
        let mut next: Vec<usize> = Vec::new();
        let mut j: usize = 0;
        while j < out.len() && key[out[j]] < kx
            invariant
                j <= out@.len(),
                forall|m: int| 0 <= m < out@.len() ==> (#[trigger] out@[m]) < key@.len(),
                next@ == out@.subrange(0, j as int),
                forall|m: int| 0 <= m < j ==> key@[out@[m] as int] < kx,
            decreases out.len() - j,
        {
            next.push(out[j]);
            j = j + 1;
            assert(next@ =~= out@.subrange(0, j as int));
        }
        let pos = j;
        next.push(x);
        while j < out.len()
            invariant
                pos <= j <= out@.len(),
                next@ == out@.subrange(0, pos as int).push(x) + out@.subrange(pos as int, j as int),
            decreases out.len() - j,
        {
            next.push(out[j]);
            j = j + 1;
            assert(next@ =~= out@.subrange(0, pos as int).push(x) + out@.subrange(pos as int, j as int));
        }
        proof {
            let o = ints(out@);
            let nx = ints(next@);
            assert(next@ =~= out@.insert(pos as int, x));
            assert(nx =~= o.insert(pos as int, x as int));
            let pre = ints(row@).subrange(0, i as int);
            let pre1 = ints(row@).subrange(0, i + 1);
            assert(pre1 =~= pre.push(x as int));
            assert forall|y: int| nx.contains(y) <==> pre1.contains(y) by {
                if nx.contains(y) {
                    let k = choose|k: int| 0 <= k < nx.len() && nx[k] == y;
                    if k < pos {
                        assert(o[k] == y);
                        assert(o.contains(y));
                    } else if k > pos {
                        assert(o[k - 1] == y);
                        assert(o.contains(y));
                    } else {
                        assert(pre1[i as int] == y);
                    }
                    if y != x as int {
                        assert(pre.contains(y));
                        let m = choose|m: int| 0 <= m < pre.len() && pre[m] == y;
                        assert(pre1[m] == y);
                    }
                }
                if pre1.contains(y) {
                    if y == x as int {
                        assert(nx[pos as int] == y);
                    } else {
                        let m = choose|m: int| 0 <= m < pre1.len() && pre1[m] == y;
                        assert(pre[m] == y);
                        assert(o.contains(y));
                        let k = choose|k: int| 0 <= k < o.len() && o[k] == y;
                        if k < pos {
                            assert(nx[k] == y);
                        } else {
                            assert(nx[k + 1] == y);
                        }
                    }
                }
            }
            assert(kk[x as int] == kx as int);
            assert forall|a: int, b: int| 0 <= a < b < nx.len() implies kk[nx[a]] < kk[nx[b]] by {
                if b < pos {
                    assert(nx[a] == o[a] && nx[b] == o[b]);
                } else if b == pos {
                    assert(nx[a] == o[a]);
                    assert(key@[out@[a] as int] < kx);
                } else if a < pos {
                    assert(nx[a] == o[a] && nx[b] == o[b - 1]);
                    if pos < o.len() {
                        assert(!(key@[out@[pos as int] as int] < kx));
                        assert(kk[o[pos as int]] != kx as int) by {
                            assert(x as int != o[pos as int]) by {
                                assert(o.contains(o[pos as int]));
                                assert(pre.contains(o[pos as int]));
                                let m = choose|m: int| 0 <= m < pre.len() && pre[m] == o[pos as int];
                                assert(ints(row@)[m] == o[pos as int]);
                                assert(ints(row@)[i as int] == x as int);
                            }
                        }
                        if b - 1 > pos {
                            assert(kk[o[pos as int]] < kk[o[b - 1]]);
                        }
                    }
                } else if a == pos {
                    assert(nx[b] == o[b - 1]);
                    assert(!(key@[out@[pos as int] as int] < kx));
                    assert(kk[o[pos as int]] != kx as int) by {
                        assert(x as int != o[pos as int]) by {
                            assert(o.contains(o[pos as int]));
                            assert(pre.contains(o[pos as int]));
                            let m = choose|m: int| 0 <= m < pre.len() && pre[m] == o[pos as int];
                            assert(ints(row@)[m] == o[pos as int]);
                            assert(ints(row@)[i as int] == x as int);
                        }
                    }
                    if b - 1 > pos {
                        assert(kk[o[pos as int]] < kk[o[b - 1]]);
                    }
                } else {
                    assert(nx[a] == o[a - 1] && nx[b] == o[b - 1]);
                }
            }
            assert forall|m: int| 0 <= m < next@.len() implies (#[trigger] next@[m]) < key@.len() by {
                if m < pos {
                    assert(next@[m] == out@[m]);
                } else if m > pos {
                    assert(next@[m] == out@[m - 1]);
                }
            }
        }
        out = next;
        i = i + 1;
    }
    proof {
        assert(ints(row@).subrange(0, row@.len() as int) =~= ints(row@));
        let c = sorted_by_key(ints(row@), kk);
        assert(is_sorted_by(c, ints(row@), kk));
        assert forall|y: int| ints(row@).contains(y) implies 0 <= y < kk.len() by {
            let m = choose|m: int| 0 <= m < ints(row@).len() && ints(row@)[m] == y;
        }
        lemma_sorted_unique(ints(out@), c, ints(row@), kk);
    }
    out
}

} // verus!

verus! {

/// The mark of a region struck from a node's list.
pub open spec fn deleted() -> int {
    usize::MAX as int
}

/// Strikes, from place `j` on, the entries of `s` that match the ancestors
/// `anc[a..]` one after the other (an ancestor that does not match the
/// current entry is passed over).
pub open spec fn del_inner(s: Seq<int>, anc: Seq<int>, a: int, j: int) -> Seq<int>
    decreases anc.len() - a,
{
    if a < 0 || a >= anc.len() || j < 0 || j >= s.len() {
        s
    } else if anc[a] == s[j] {
        del_inner(s.update(j, deleted()), anc, a + 1, j + 1)
    } else {
        del_inner(s, anc, a + 1, j)
    }
}

/// For each entry from `i` on that is not struck, strikes the ancestors of its
/// region that follow it.
pub open spec fn del_outer(s: Seq<int>, parents: Seq<Seq<int>>, i: int, n: int) -> Seq<int>
    decreases n - i,
{
    if i < 0 || i >= n {
        s
    } else if s[i] == deleted() {
        del_outer(s, parents, i + 1, n)
    } else {
        del_outer(del_inner(s, parents[s[i]], 0, i + 1), parents, i + 1, n)
    }
}

/// `s` without the struck entries.
pub open spec fn without_deleted(s: Seq<int>) -> Seq<int>
    decreases s.len(),
{
    if s.len() == 0 {
        s
    } else {
        without_deleted(s.drop_last()) + if s.last() == deleted() {
            Seq::<int>::empty()
        } else {
            seq![s.last()]
        }
    }
}

/// The regions of a node once those that enclose another of its regions are
/// struck (a node with one region keeps it).
pub open spec fn settle(row: Seq<int>, key: Seq<int>, parents: Seq<Seq<int>>) -> Seq<int> {
    if row.len() > 1 {
        let s = sorted_by_key(row, key);
        without_deleted(del_outer(s, parents, 0, s.len() as int))
    } else {
        row
    }
}

proof fn lemma_del_inner_len(s: Seq<int>, anc: Seq<int>, a: int, j: int)
    ensures
        del_inner(s, anc, a, j).len() == s.len(),
    decreases anc.len() - a,
{
    if !(a < 0 || a >= anc.len() || j < 0 || j >= s.len()) {
        if anc[a] == s[j] {
            lemma_del_inner_len(s.update(j, deleted()), anc, a + 1, j + 1);
        } else {
            lemma_del_inner_len(s, anc, a + 1, j);
        }
    }
}

/// Strikes, after place `i`, the ancestors in `anc` of the region at `i`.
fn strike_ancestors(s: &mut Vec<usize>, anc: &Vec<usize>, i: usize)
    requires
        i < old(s)@.len(),
    ensures
        ints(final(s)@) == del_inner(ints(old(s)@), ints(anc@), 0, i + 1),
        final(s)@.len() == old(s)@.len(),
        forall|m: int| 0 <= m <= i ==> final(s)@[m] == old(s)@[m],
        forall|m: int| 0 <= m < final(s)@.len() ==> final(s)@[m] == old(s)@[m] || final(s)@[m] == usize::MAX,
{
    let ghost s0 = ints(s@);
    let ghost v0 = s@;
    let len = s.len();
    let mut j: usize = i + 1;
    let mut a: usize = 0;
    while a < anc.len()
        invariant
            len == s@.len(),
            s@.len() == v0.len(),
            i < len,
            i + 1 <= j,
            a <= anc@.len(),
            del_inner(s0, ints(anc@), 0, i + 1) == del_inner(ints(s@), ints(anc@), a as int, j as int),
            forall|m: int| 0 <= m <= i ==> s@[m] == v0[m],
            forall|m: int| 0 <= m < s@.len() ==> s@[m] == v0[m] || s@[m] == usize::MAX,
        ensures
            s@.len() == v0.len(),
            del_inner(s0, ints(anc@), 0, i + 1) == ints(s@),
            forall|m: int| 0 <= m <= i ==> s@[m] == v0[m],
            forall|m: int| 0 <= m < s@.len() ==> s@[m] == v0[m] || s@[m] == usize::MAX,
        decreases anc.len() - a,
    {
        if j >= len {
            break;
        }
        let ghost before = ints(s@);
        assert(ints(anc@)[a as int] == anc@[a as int] as int);
        assert(before[j as int] == s@[j as int] as int);
        if anc[a] == s[j] {
            s.set(j, usize::MAX);
            assert(ints(s@) =~= before.update(j as int, deleted()));
            j = j + 1;
        }
        a = a + 1;
    }
}

/// Strikes, for each region of a node in order, the ancestors that follow it.
fn strike_enclosing(s: &mut Vec<usize>, parents: &Vec<Vec<usize>>)
    requires
        forall|m: int| 0 <= m < old(s)@.len() ==> (#[trigger] old(s)@[m]) < parents@.len(),
    ensures
        ints(final(s)@) == del_outer(ints(old(s)@), rows(parents@), 0, old(s)@.len() as int),
        final(s)@.len() == old(s)@.len(),
        old(s)@.len() > 0 ==> final(s)@[0] == old(s)@[0],
        forall|m: int| 0 <= m < final(s)@.len() ==> (#[trigger] final(s)@[m]) < parents@.len() || final(s)@[m]
            == usize::MAX,
{
    let ghost s0 = ints(s@);
    let ghost v0 = s@;
    let len = s.len();
    let mut i: usize = 0;
    while i < len
        invariant
            len == s@.len(),
            v0.len() == len,
            i <= len,
            del_outer(s0, rows(parents@), 0, len as int) == del_outer(ints(s@), rows(parents@), i as int, len as int),
            len > 0 ==> s@[0] == v0[0],
            forall|m: int| 0 <= m < len ==> (#[trigger] s@[m]) < parents@.len() || s@[m] == usize::MAX,
        decreases len - i,
    {
        let r = s[i];
        let ghost before = ints(s@);
        assert(before[i as int] == r as int);
        if r != usize::MAX {
            assert(rows(parents@)[r as int] == ints(parents@[r as int]@));
            strike_ancestors(s, &parents[r], i);
            proof {
                assert forall|m: int| 0 <= m < len implies (#[trigger] s@[m]) < parents@.len() || s@[m] == usize::MAX by {
                }
            }
        }
        i = i + 1;
    }
}

/// The entries of `s` that are not struck, in order.
fn drop_struck(s: &Vec<usize>) -> (r: Vec<usize>)
    ensures
        ints(r@) == without_deleted(ints(s@)),
        forall|m: int| 0 <= m < r@.len() ==> (#[trigger] r@[m]) != usize::MAX && ints(s@).contains(r@[m] as int),
        s@.len() > 0 && s@[0] != usize::MAX ==> r@.len() > 0 && r@[0] == s@[0],
{
    let mut r: Vec<usize> = Vec::new();
    let mut i: usize = 0;
    while i < s.len()
        invariant
            i <= s@.len(),
            ints(r@) == without_deleted(ints(s@).subrange(0, i as int)),
            forall|m: int| 0 <= m < r@.len() ==> (#[trigger] r@[m]) != usize::MAX && ints(s@).contains(r@[m] as int),
            i > 0 && s@.len() > 0 && s@[0] != usize::MAX ==> r@.len() > 0 && r@[0] == s@[0],
        decreases s.len() - i,
    {
        let ghost pre = ints(s@).subrange(0, i as int);
        let ghost pre1 = ints(s@).subrange(0, i + 1);
        assert(pre1.drop_last() =~= pre);
        assert(pre1.last() == s@[i as int] as int);
        let ghost before = r@;
        if s[i] != usize::MAX {
            r.push(s[i]);
            assert(ints(r@) =~= ints(before) + seq![s@[i as int] as int]);
            proof {
                assert forall|m: int| 0 <= m < r@.len() implies (#[trigger] r@[m]) != usize::MAX && ints(s@).contains(r@[m] as int) by {
                    if m == before.len() {
                        assert(ints(s@)[i as int] == s@[i as int] as int);
                    } else {
                        assert(r@[m] == before[m]);
                    }
                }
                if i == 0 {
                    assert(without_deleted(ints(s@).subrange(0, 0)) =~= Seq::<int>::empty()) by {
                        assert(ints(s@).subrange(0, 0).len() == 0);
                    }
                    assert(before.len() == 0);
                }
            }
        } else {
            assert(ints(r@) =~= ints(before) + Seq::<int>::empty());
        }
        i = i + 1;
    }
    assert(ints(s@).subrange(0, s@.len() as int) =~= ints(s@));
    r
}

} // verus!

verus! {

/// A node of a region, `separation` levels of nesting below it (0: directly
/// in the region, 1: in a region directly inside it, ...).
#[derive(Debug, Clone, Copy, PartialEq, Eq)]
pub struct NodeWithSeparation {
    pub node: usize,
    pub separation: usize,
}

pub open spec fn seps(v: Seq<NodeWithSeparation>) -> Seq<(usize, usize)> {
    v.map_values(|x: NodeWithSeparation| (x.node, x.separation))
}

/// What is known of the nodes as they are assigned: the region of each node,
/// the nodes of each region (with their separation), and which regions hold
/// a node with side effects.
pub struct SAssign {
    pub by_node: Seq<(usize, u128)>,
    pub members: Seq<Seq<(usize, usize)>>,
    pub side: Seq<bool>,
}

/// Adds `node` to each region of `chain`, at its place in the chain as
/// separation.
pub open spec fn add_chain(m: Seq<Seq<(usize, usize)>>, chain: Seq<int>, node: usize) -> Seq<Seq<(usize, usize)>>
    decreases chain.len(),
{
    if chain.len() == 0 {
        m
    } else {
        let m1 = add_chain(m, chain.drop_last(), node);
        let r = chain.last();
        m1.update(r, m1[r].push((node, (chain.len() - 1) as usize)))
    }
}

/// The nodes among the first `i` assigned to regions: a node goes to the one
/// region left once enclosing regions are struck, and to all that region's
/// ancestors; a node left with several regions is a problem.
pub open spec fn assign(
    nodes: Seq<GraphNode>,
    regs: Seq<SReg>,
    inputs: Seq<Seq<int>>,
    parents: Seq<Seq<int>>,
    key: Seq<int>,
    i: int,
) -> Result<SAssign, SBuildErr>
    decreases i,
{
    if i <= 0 {
        Ok(SAssign {
            by_node: Seq::empty(),
            members: Seq::new(regs.len(), |r: int| Seq::<(usize, usize)>::empty()),
            side: Seq::new(regs.len(), |r: int| false),
        })
    } else {
        match assign(nodes, regs, inputs, parents, key, i - 1) {
            Err(e) => Err(e),
            Ok(a) => {
                let n = i - 1;
                let row = inputs[n];
                if row.len() == 0 {
                    Ok(a)
                } else {
                    let s = settle(row, key, parents);
                    if s.len() > 1 {
                        Err(SBuildErr::AmbiguousNodeRegion(
                            nodes[n].id,
                            s.map_values(|r: int| reg_key(nodes, regs, r)),
                        ))
                    } else {
                        let r0 = s[0];
                        let chain = seq![r0] + parents[r0];
                        Ok(SAssign {
                            by_node: a.by_node.push((nodes[n].id, regs[r0].id)),
                            members: add_chain(a.members, chain, nodes[n].id),
                            side: Seq::new(
                                regs.len(),
                                |r: int| a.side[r] || (nodes[n].has_side_effects && chain.contains(r)),
                            ),
                        })
                    }
                }
            },
        }
    }
}

proof fn lemma_assign_err(
    nodes: Seq<GraphNode>,
    regs: Seq<SReg>,
    inputs: Seq<Seq<int>>,
    parents: Seq<Seq<int>>,
    key: Seq<int>,
    i: int,
    j: int,
)
    requires
        1 <= i <= j,
        assign(nodes, regs, inputs, parents, key, i) is Err,
    ensures
        assign(nodes, regs, inputs, parents, key, j) == assign(nodes, regs, inputs, parents, key, i),
    decreases j - i,
{
    if j > i {
        lemma_assign_err(nodes, regs, inputs, parents, key, i, j - 1);
    }
}

/// The regions left to a node once enclosing regions are struck.
fn settle_row(row: &Vec<usize>, key: &Vec<usize>, parents: &Vec<Vec<usize>>) -> (r: Vec<usize>)
    requires
        row@.len() > 0,
        ints(row@).no_duplicates(),
        key@.len() == parents@.len(),
        forall|j: int| 0 <= j < row@.len() ==> (#[trigger] row@[j]) < key@.len(),
        key_injective(ints(key@)),
    ensures
        ints(r@) == settle(ints(row@), ints(key@), rows(parents@)),
        r@.len() > 0,
        forall|j: int| 0 <= j < r@.len() ==> (#[trigger] r@[j]) < key@.len(),
{
    if row.len() > 1 {
        let mut s = sort_by_key(row, key);
        proof {
            assert(ints(row@).contains(ints(row@)[0]));
            assert(ints(s@).contains(ints(row@)[0]));
            assert(s@.len() > 0);
        }
        let ghost s0 = s@;
        strike_enclosing(&mut s, parents);
        assert(s@.len() > 0);
        assert(s@[0] == s0[0]);
        let kl = key.len();
        assert(s0[0] < kl);
        assert(s@[0] != usize::MAX);
        let r = drop_struck(&s);
        proof {
            assert(s@[0] == s0[0]);
            assert(s0[0] < key@.len());
            assert forall|j: int| 0 <= j < r@.len() implies (#[trigger] r@[j]) < key@.len() by {
                assert(ints(s@).contains(r@[j] as int));
                let m = choose|m: int| 0 <= m < ints(s@).len() && ints(s@)[m] == r@[j] as int;
                assert(s@[m] == r@[j]);
            }
        }
        r
    } else {
        let mut r: Vec<usize> = Vec::new();
        r.push(row[0]);
        assert(ints(r@) =~= ints(row@));
        r
    }
}

} // verus!

verus! {

pub open spec fn members_view(m: Seq<Vec<NodeWithSeparation>>) -> Seq<Seq<(usize, usize)>> {
    m.map_values(|v: Vec<NodeWithSeparation>| seps(v@))
}

/// The regions of `row`, each as its id and start node id.
fn keys_of(nodes: &Vec<GraphNode>, regs: &Vec<RegionBuilderData>, row: &Vec<usize>) -> (r: Vec<(u128, usize)>)
    requires
        regions_within(sregs(regs@), nodes@.len()),
        forall|j: int| 0 <= j < row@.len() ==> (#[trigger] row@[j]) < regs@.len(),
    ensures
        r@ == ints(row@).map_values(|x: int| reg_key(nodes@, sregs(regs@), x)),
{
    let mut r: Vec<(u128, usize)> = Vec::new();
    let mut k: usize = 0;
    while k < row.len()
        invariant
            regions_within(sregs(regs@), nodes@.len()),
            forall|j: int| 0 <= j < row@.len() ==> (#[trigger] row@[j]) < regs@.len(),
            k <= row@.len(),
            r@ == ints(row@).subrange(0, k as int).map_values(|x: int| reg_key(nodes@, sregs(regs@), x)),
        decreases row.len() - k,
    {
        let key = reg_key_of(nodes, regs, row[k]);
        r.push(key);
        assert(r@ =~= ints(row@).subrange(0, k + 1).map_values(|x: int| reg_key(nodes@, sregs(regs@), x)));
        k = k + 1;
    }
    assert(ints(row@).subrange(0, row@.len() as int) =~= ints(row@));
    r
}

/// Node `nid` is listed in each region of the chain `c`, at its place in
/// the chain as separation.
pub open spec fn listed_along(mv: Seq<Seq<(usize, usize)>>, c: Seq<int>, nid: usize) -> bool {
    forall|j: int| 0 <= j < c.len() ==> #[trigger] mv[c[j]].contains((nid, j as usize))
}

/// Each node placed in a region is listed along the chain of that region
/// and its parents.
pub open spec fn by_node_listed(
    mv: Seq<Seq<(usize, usize)>>,
    by_node: Seq<(usize, u128)>,
    sr: Seq<SReg>,
    ps: Seq<Seq<int>>,
) -> bool {
    forall|e: int| 0 <= e < by_node.len() ==> placed_listed(mv, sr, ps, #[trigger] by_node[e])
}

/// The node of `entry` is listed along the chain of a region with the id of
/// `entry`.
pub open spec fn placed_listed(mv: Seq<Seq<(usize, usize)>>, sr: Seq<SReg>, ps: Seq<Seq<int>>, entry: (usize, u128)) -> bool {
    exists|r0: int| 0 <= r0 < sr.len() && #[trigger] sr[r0].id == entry.1 && listed_along(mv, seq![r0] + ps[r0], entry.0)
}

/// What each region lists stays listed in `mv1`.
pub open spec fn grows(mv0: Seq<Seq<(usize, usize)>>, mv1: Seq<Seq<(usize, usize)>>) -> bool {
    &&& mv1.len() == mv0.len()
    &&& forall|x: int, y: (usize, usize)| 0 <= x < mv0.len() && #[trigger] mv0[x].contains(y) ==> mv1[x].contains(y)
}

proof fn lemma_listed_grows(
    mv0: Seq<Seq<(usize, usize)>>,
    mv1: Seq<Seq<(usize, usize)>>,
    by_node: Seq<(usize, u128)>,
    sr: Seq<SReg>,
    ps: Seq<Seq<int>>,
)
    requires
        by_node_listed(mv0, by_node, sr, ps),
        grows(mv0, mv1),
        forall|r: int, x: int| 0 <= r < sr.len() && #[trigger] ps[r].contains(x) ==> 0 <= x < sr.len(),
        mv0.len() == sr.len(),
    ensures
        by_node_listed(mv1, by_node, sr, ps),
{
    assert forall|e: int| 0 <= e < by_node.len() implies placed_listed(mv1, sr, ps, #[trigger] by_node[e]) by {
        assert(placed_listed(mv0, sr, ps, by_node[e]));
        let r0 = choose|r0: int|
            0 <= r0 < sr.len() && #[trigger] sr[r0].id == by_node[e].1 && listed_along(mv0, seq![r0] + ps[r0], by_node[e].0);
        let c = seq![r0] + ps[r0];
        assert forall|j: int| 0 <= j < c.len() implies #[trigger] mv1[c[j]].contains((by_node[e].0, j as usize)) by {
            assert(mv0[c[j]].contains((by_node[e].0, j as usize)));
            if j > 0 {
                assert(c[j] == ps[r0][j - 1]);
                assert(ps[r0].contains(c[j]));
            }
        }
        assert(listed_along(mv1, c, by_node[e].0));
        assert(0 <= r0 < sr.len() && sr[r0].id == by_node[e].1);
    }
}

/// A node placed in region `r0` and listed along its chain keeps the
/// listing of the nodes placed before.
proof fn lemma_listed_push(
    m0: Seq<Seq<(usize, usize)>>,
    mv: Seq<Seq<(usize, usize)>>,
    bn0: Seq<(usize, u128)>,
    sr: Seq<SReg>,
    ps: Seq<Seq<int>>,
    r0: int,
    id: usize,
)
    requires
        by_node_listed(m0, bn0, sr, ps),
        grows(m0, mv),
        forall|r: int, x: int| 0 <= r < sr.len() && #[trigger] ps[r].contains(x) ==> 0 <= x < sr.len(),
        m0.len() == sr.len(),
        0 <= r0 < sr.len(),
        listed_along(mv, seq![r0] + ps[r0], id),
    ensures
        by_node_listed(mv, bn0.push((id, sr[r0].id)), sr, ps),
{
    lemma_listed_grows(m0, mv, bn0, sr, ps);
    let bn = bn0.push((id, sr[r0].id));
    assert forall|e: int| 0 <= e < bn.len() implies placed_listed(mv, sr, ps, #[trigger] bn[e]) by {
        if e < bn0.len() {
            assert(bn[e] == bn0[e]);
            assert(placed_listed(mv, sr, ps, bn0[e]));
        } else {
            assert(bn[e] == (id, sr[r0].id));
            assert(0 <= r0 < sr.len() && sr[r0].id == bn[e].1 && listed_along(mv, seq![r0] + ps[r0], bn[e].0));
        }
    }
}

proof fn lemma_grows_add(mv0: Seq<Seq<(usize, usize)>>, mv: Seq<Seq<(usize, usize)>>, r: int, y: (usize, usize))
    requires
        grows(mv0, mv),
        0 <= r < mv.len(),
    ensures
        grows(mv0, mv.update(r, mv[r].push(y))),
        mv.update(r, mv[r].push(y))[r].contains(y),
        forall|x: int, z: (usize, usize)| 0 <= x < mv.len() && #[trigger] mv[x].contains(z) ==> mv.update(r, mv[r].push(y))[x].contains(z),
{
    let m1 = mv.update(r, mv[r].push(y));
    assert(m1[r][mv[r].len() as int] == y);
    assert forall|x: int, z: (usize, usize)| 0 <= x < mv.len() && #[trigger] mv[x].contains(z) implies m1[x].contains(z) by {
        let p = choose|p: int| 0 <= p < mv[x].len() && mv[x][p] == z;
        assert(m1[x][p] == z);
    }
    assert forall|x: int, z: (usize, usize)| 0 <= x < mv0.len() && #[trigger] mv0[x].contains(z) implies m1[x].contains(z) by {
        assert(mv[x].contains(z));
    }
}

/// The listing `item` of region `x` comes from a node placed in a region
/// `r0`, listed at the place of `x` in the chain of `r0` and its parents.
pub open spec fn entry_sound(bn: Seq<(usize, u128)>, sr: Seq<SReg>, ps: Seq<Seq<int>>, x: int, item: (usize, usize)) -> bool {
    exists|e: int, r0: int|
        0 <= e < bn.len() && 0 <= r0 < sr.len() && #[trigger] bn[e] == (item.0, #[trigger] sr[r0].id) && item.1
            < 1 + ps[r0].len() && (seq![r0] + ps[r0])[item.1 as int] == x
}

/// Every listing of every region comes from a placed node.
pub open spec fn members_sound(mv: Seq<Seq<(usize, usize)>>, bn: Seq<(usize, u128)>, sr: Seq<SReg>, ps: Seq<Seq<int>>) -> bool {
    forall|x: int, p: int| 0 <= x < mv.len() && 0 <= p < mv[x].len() ==> entry_sound(bn, sr, ps, x, #[trigger] mv[x][p])
}

proof fn lemma_sound_bn_push(mv: Seq<Seq<(usize, usize)>>, bn: Seq<(usize, u128)>, sr: Seq<SReg>, ps: Seq<Seq<int>>, v: (usize, u128))
    requires
        members_sound(mv, bn, sr, ps),
    ensures
        members_sound(mv, bn.push(v), sr, ps),
{
    assert forall|x: int, p: int| 0 <= x < mv.len() && 0 <= p < mv[x].len() implies entry_sound(
        bn.push(v),
        sr,
        ps,
        x,
        #[trigger] mv[x][p],
    ) by {
        assert(entry_sound(bn, sr, ps, x, mv[x][p]));
        let (e, r0) = choose|e: int, r0: int|
            0 <= e < bn.len() && 0 <= r0 < sr.len() && #[trigger] bn[e] == (mv[x][p].0, #[trigger] sr[r0].id) && mv[x][p].1
                < 1 + ps[r0].len() && (seq![r0] + ps[r0])[mv[x][p].1 as int] == x;
        assert(bn.push(v)[e] == bn[e]);
    }
}

proof fn lemma_sound_add(
    mv: Seq<Seq<(usize, usize)>>,
    bn: Seq<(usize, u128)>,
    sr: Seq<SReg>,
    ps: Seq<Seq<int>>,
    r: int,
    id: usize,
    j: int,
    r0: int,
)
    requires
        members_sound(mv, bn, sr, ps),
        0 <= r < mv.len(),
        bn.len() > 0,
        0 <= r0 < sr.len(),
        bn.last() == (id, sr[r0].id),
        0 <= j < 1 + ps[r0].len(),
        (seq![r0] + ps[r0])[j] == r,
        j <= usize::MAX,
    ensures
        members_sound(mv.update(r, mv[r].push((id, j as usize))), bn, sr, ps),
{
    let m1 = mv.update(r, mv[r].push((id, j as usize)));
    assert forall|x: int, p: int| 0 <= x < m1.len() && 0 <= p < m1[x].len() implies entry_sound(
        bn,
        sr,
        ps,
        x,
        #[trigger] m1[x][p],
    ) by {
        if x == r && p == mv[r].len() {
            assert(m1[x][p] == (id, j as usize));
            assert(bn[bn.len() - 1] == (id, sr[r0].id));
        } else {
            assert(m1[x][p] == mv[x][p]);
            assert(entry_sound(bn, sr, ps, x, mv[x][p]));
        }
    }
}

/// Node id `nid` is that of one of the first `n` nodes.
pub open spec fn among_first(nodes: Seq<GraphNode>, n: int, nid: usize) -> bool {
    exists|m: int| 0 <= m < n && #[trigger] nodes[m].id == nid
}

/// Each node is placed at most once, and only the first `n` are.
pub open spec fn placed_once(nodes: Seq<GraphNode>, bn: Seq<(usize, u128)>, n: int) -> bool {
    &&& forall|a: int, b: int| 0 <= a < b < bn.len() ==> #[trigger] bn[a].0 != #[trigger] bn[b].0
    &&& forall|e: int| 0 <= e < bn.len() ==> among_first(nodes, n, #[trigger] bn[e].0)
}

/// Each region lists a node at most once; what it lists is one of the
/// first `n` nodes, or node `id` in the regions of `done`.
pub open spec fn listed_once_but(
    nodes: Seq<GraphNode>,
    mv: Seq<Seq<(usize, usize)>>,
    n: int,
    id: usize,
    done: Seq<int>,
) -> bool {
    &&& forall|x: int, p: int, q: int|
        #![trigger mv[x][p], mv[x][q]]
        0 <= x < mv.len() && 0 <= p < q < mv[x].len() ==> mv[x][p].0 != mv[x][q].0
    &&& forall|x: int, p: int|
        0 <= x < mv.len() && 0 <= p < mv[x].len() ==> among_first(nodes, n, (#[trigger] mv[x][p]).0) || (mv[x][p].0 == id
            && done.contains(x))
}

/// Each region lists a node at most once, and only the first `n` nodes.
pub open spec fn listed_once(nodes: Seq<GraphNode>, mv: Seq<Seq<(usize, usize)>>, n: int) -> bool {
    &&& forall|x: int, p: int, q: int|
        #![trigger mv[x][p], mv[x][q]]
        0 <= x < mv.len() && 0 <= p < q < mv[x].len() ==> mv[x][p].0 != mv[x][q].0
    &&& forall|x: int, p: int| 0 <= x < mv.len() && 0 <= p < mv[x].len() ==> among_first(nodes, n, (#[trigger] mv[x][p]).0)
}

proof fn lemma_first_grow(nodes: Seq<GraphNode>, n: int)
    ensures
        forall|x: usize| among_first(nodes, n, x) ==> #[trigger] among_first(nodes, n + 1, x),
{
    assert forall|x: usize| among_first(nodes, n, x) implies #[trigger] among_first(nodes, n + 1, x) by {
        let m = choose|m: int| 0 <= m < n && #[trigger] nodes[m].id == x;
        assert(nodes[m].id == x);
    }
}

proof fn lemma_once_close(nodes: Seq<GraphNode>, mv: Seq<Seq<(usize, usize)>>, n: int, done: Seq<int>)
    requires
        0 <= n < nodes.len(),
        listed_once_but(nodes, mv, n, nodes[n].id, done),
    ensures
        listed_once(nodes, mv, n + 1),
{
    lemma_first_grow(nodes, n);
    assert forall|x: int, p: int| 0 <= x < mv.len() && 0 <= p < mv[x].len() implies among_first(
        nodes,
        n + 1,
        (#[trigger] mv[x][p]).0,
    ) by {
        if !among_first(nodes, n, mv[x][p].0) {
            assert(nodes[n].id == mv[x][p].0);
        }
    }
}

proof fn lemma_chain_distinct(t: Seq<int>, r0: int, p: Seq<int>)
    requires
        rising(t, r0, p),
    ensures
        (seq![r0] + p).no_duplicates(),
{
    lemma_rising_order(t, r0, p);
    let c = seq![r0] + p;
    assert forall|a: int, b: int| 0 <= a < c.len() && 0 <= b < c.len() && a != b implies c[a] != c[b] by {
        let (lo, hi) = if a < b { (a, b) } else { (b, a) };
        assert(c[hi] == p[hi - 1]);
        if lo == 0 {
            assert(t[r0] < t[p[hi - 1]]);
        } else {
            assert(c[lo] == p[lo - 1]);
            assert(t[p[lo - 1]] < t[p[hi - 1]]);
        }
    }
}

proof fn lemma_once_add(
    nodes: Seq<GraphNode>,
    mv: Seq<Seq<(usize, usize)>>,
    n: int,
    id: usize,
    c: Seq<int>,
    j: int,
    sep: usize,
)
    requires
        listed_once_but(nodes, mv, n, id, c.subrange(0, j)),
        c.no_duplicates(),
        0 <= j < c.len(),
        0 <= c[j] < mv.len(),
        !among_first(nodes, n, id),
    ensures
        listed_once_but(nodes, mv.update(c[j], mv[c[j]].push((id, sep))), n, id, c.subrange(0, j + 1)),
{
    let r = c[j];
    let m1 = mv.update(r, mv[r].push((id, sep)));
    let d0 = c.subrange(0, j);
    let d1 = c.subrange(0, j + 1);
    assert(!d0.contains(r)) by {
        if d0.contains(r) {
            let a = choose|a: int| 0 <= a < d0.len() && d0[a] == r;
            assert(c[a] == c[j]);
        }
    }
    assert forall|x: int, p: int| 0 <= x < m1.len() && 0 <= p < m1[x].len() implies among_first(
        nodes,
        n,
        (#[trigger] m1[x][p]).0,
    ) || (m1[x][p].0 == id && d1.contains(x)) by {
        if x == r && p == mv[r].len() {
            assert(d1[j] == r);
        } else {
            assert(m1[x][p] == mv[x][p]);
            if mv[x][p].0 == id && d0.contains(x) {
                let a = choose|a: int| 0 <= a < d0.len() && d0[a] == x;
                assert(d1[a] == x);
            }
        }
    }
    assert forall|x: int, p: int, q: int|
        #![trigger m1[x][p], m1[x][q]]
        0 <= x < m1.len() && 0 <= p < q < m1[x].len() implies m1[x][p].0 != m1[x][q].0 by {
        if x == r && q == mv[r].len() {
            assert(m1[x][p] == mv[x][p]);
            assert(among_first(nodes, n, mv[x][p].0) || (mv[x][p].0 == id && d0.contains(x)));
        } else {
            assert(m1[x][p] == mv[x][p]);
            assert(m1[x][q] == mv[x][q]);
        }
    }
}

/// A node with side effects has the id `id`.
pub open spec fn side_id(nodes: Seq<GraphNode>, id: usize) -> bool {
    exists|m: int| 0 <= m < nodes.len() && nodes[m].id == id && nodes[m].has_side_effects
}

/// Each region has side effects exactly when one of its members does.
pub open spec fn side_matches(nodes: Seq<GraphNode>, members: Seq<Seq<(usize, usize)>>, side: Seq<bool>) -> bool {
    &&& members.len() == side.len()
    &&& forall|r: int|
        0 <= r < side.len() ==> (#[trigger] side[r] <==> exists|p: int|
            0 <= p < members[r].len() && side_id(nodes, members[r][p].0))
}

proof fn lemma_side_add(
    nodes: Seq<GraphNode>,
    m: Seq<Seq<(usize, usize)>>,
    s: Seq<bool>,
    r: int,
    id: usize,
    sep: usize,
    has: bool,
)
    requires
        side_matches(nodes, m, s),
        0 <= r < s.len(),
        has == side_id(nodes, id),
    ensures
        side_matches(nodes, m.update(r, m[r].push((id, sep))), s.update(r, s[r] || has)),
{
    let m1 = m.update(r, m[r].push((id, sep)));
    let s1 = s.update(r, s[r] || has);
    assert forall|x: int| 0 <= x < s1.len() implies (#[trigger] s1[x] <==> exists|p: int|
        0 <= p < m1[x].len() && side_id(nodes, m1[x][p].0)) by {
        assert(s[x] <==> exists|p: int| 0 <= p < m[x].len() && side_id(nodes, m[x][p].0));
        if x != r {
            assert(s1[x] == s[x]);
            assert(m1[x] == m[x]);
        }
        if x == r {
            if s[r] {
                let p = choose|p: int| 0 <= p < m[r].len() && side_id(nodes, m[r][p].0);
                assert(m1[r][p] == m[r][p]);
            }
            if has {
                assert(m1[r][m[r].len() as int] == (id, sep));
            }
            if exists|p: int| 0 <= p < m1[x].len() && side_id(nodes, m1[x][p].0) {
                let p = choose|p: int| 0 <= p < m1[x].len() && side_id(nodes, m1[x][p].0);
                if p < m[r].len() {
                    assert(m1[r][p] == m[r][p]);
                } else {
                    assert(m1[r][p] == (id, sep));
                }
            }
        }
    }
}

/// Adds node `id` to region `r` at separation `sep`, and marks side effects.
fn add_member(
    members: &mut Vec<Vec<NodeWithSeparation>>,
    side: &mut Vec<bool>,
    r: usize,
    id: usize,
    sep: usize,
    has_side_effects: bool,
)
    requires
        r < old(members)@.len(),
        r < old(side)@.len(),
    ensures
        members_view(final(members)@) == members_view(old(members)@).update(
            r as int,
            members_view(old(members)@)[r as int].push((id, sep)),
        ),
        final(side)@ == old(side)@.update(r as int, old(side)@[r as int] || has_side_effects),
        final(members)@.len() == old(members)@.len(),
        final(side)@.len() == old(side)@.len(),
{
    let ghost m0 = members@;
    members[r].push(NodeWithSeparation { node: id, separation: sep });
    proof {
        assert(seps(members@[r as int]@) =~= seps(m0[r as int]@).push((id, sep)));
        assert(members_view(members@) =~= members_view(m0).update(r as int, members_view(m0)[r as int].push((id, sep))));
    }
    if has_side_effects {
        side.set(r, true);
    } else {
        assert(side@ =~= side@.update(r as int, side@[r as int] || has_side_effects));
    }
}

/// Assigns every node to its region and the region's ancestors
/// (`assign_nodes`). Nodes are taken in the order of the graph.
#[verifier::rlimit(40)]
fn assign_nodes(
    nodes: &Vec<GraphNode>,
    regs: &Vec<RegionBuilderData>,
    inputs: &Vec<Vec<usize>>,
    parents: &Vec<Vec<usize>>,
    key: &Vec<usize>,
) -> (r: Result<(Vec<(usize, u128)>, Vec<Vec<NodeWithSeparation>>, Vec<bool>), GraphRegionBuildError>)
    requires
        regions_within(sregs(regs@), nodes@.len()),
        inputs@.len() == nodes@.len(),
        rows_within(rows(inputs@), regs@.len() as int),
        parents@.len() == regs@.len(),
        key@.len() == regs@.len(),
        forall|d: int, x: int| 0 <= d < regs@.len() && #[trigger] rows(parents@)[d].contains(x) ==> 0 <= x < regs@.len(),
        key_injective(ints(key@)),
        forall|a: int, b: int| 0 <= a < b < nodes@.len() ==> nodes@[a].id != nodes@[b].id,
        forall|d: int| 0 <= d < regs@.len() ==> rising(ints(key@), d, #[trigger] rows(parents@)[d]),
    ensures
        match (r, assign(nodes@, sregs(regs@), rows(inputs@), rows(parents@), ints(key@), nodes@.len() as int)) {
            (Ok((b, m, s)), Ok(a)) => b@ == a.by_node && members_view(m@) == a.members && s@ == a.side,
            (Err(e), Err(x)) => e@ == x,
            _ => false,
        },
        r matches Ok((b, m, s)) ==> m@.len() == regs@.len() && s@.len() == regs@.len(),
        r matches Ok((b, m, s)) ==> side_matches(nodes@, members_view(m@), s@),
        r matches Ok((b, m, s)) ==> by_node_listed(members_view(m@), b@, sregs(regs@), rows(parents@)),
        r matches Ok((b, m, s)) ==> members_sound(members_view(m@), b@, sregs(regs@), rows(parents@)),
        r matches Ok((b, m, s)) ==> placed_once(nodes@, b@, nodes@.len() as int) && listed_once(
            nodes@,
            members_view(m@),
            nodes@.len() as int,
        ),
{
    let ghost sr = sregs(regs@);
    let ghost ins = rows(inputs@);
    let ghost ps = rows(parents@);
    let ghost kk = ints(key@);
    let n_regs = regs.len();
    let mut by_node: Vec<(usize, u128)> = Vec::new();
    let mut members: Vec<Vec<NodeWithSeparation>> = Vec::new();
    let mut side: Vec<bool> = Vec::new();
    let mut i: usize = 0;
    while i < n_regs
        invariant
            i <= n_regs,
            members@.len() == i,
            side@.len() == i,
            forall|j: int| 0 <= j < i ==> (#[trigger] members@[j])@.len() == 0,
            forall|j: int| 0 <= j < i ==> !(#[trigger] side@[j]),
        decreases n_regs - i,
    {
        members.push(Vec::new());
        side.push(false);
        i = i + 1;
    }
    proof {
        assert forall|j: int| 0 <= j < n_regs implies #[trigger] members_view(members@)[j] == Seq::<(usize, usize)>::empty() by {
            assert(seps(members@[j]@) =~= Seq::<(usize, usize)>::empty());
        }
        assert(members_view(members@) =~= Seq::new(sr.len(), |r: int| Seq::<(usize, usize)>::empty()));
        assert(side@ =~= Seq::new(sr.len(), |r: int| false));
        assert(side_matches(nodes@, members_view(members@), side@));
        assert(members_sound(members_view(members@), by_node@, sr, ps));
        assert(listed_once(nodes@, members_view(members@), 0));
    }
    let mut n: usize = 0;
    while n < nodes.len()
        invariant
            sr == sregs(regs@),
            ins == rows(inputs@),
            ps == rows(parents@),
            kk == ints(key@),
            n_regs == regs@.len(),
            regions_within(sr, nodes@.len()),
            inputs@.len() == nodes@.len(),
            rows_within(ins, n_regs as int),
            parents@.len() == n_regs,
            key@.len() == n_regs,
            forall|d: int, x: int| 0 <= d < n_regs && #[trigger] ps[d].contains(x) ==> 0 <= x < n_regs,
            key_injective(kk),
            n <= nodes@.len(),
            members@.len() == n_regs,
            side@.len() == n_regs,
            assign(nodes@, sr, ins, ps, kk, n as int) == Ok::<SAssign, SBuildErr>(
                SAssign { by_node: by_node@, members: members_view(members@), side: side@ },
            ),
            forall|a: int, b: int| 0 <= a < b < nodes@.len() ==> nodes@[a].id != nodes@[b].id,
            side_matches(nodes@, members_view(members@), side@),
            by_node_listed(members_view(members@), by_node@, sr, ps),
            members_sound(members_view(members@), by_node@, sr, ps),
            placed_once(nodes@, by_node@, n as int),
            listed_once(nodes@, members_view(members@), n as int),
            forall|d: int| 0 <= d < n_regs ==> rising(kk, d, #[trigger] ps[d]),
        decreases nodes.len() - n,
    {
        let row = &inputs[n];
        proof {
            assert(ins[n as int] == ints(row@));
            assert(row@.len() == ints(row@).len());
        }
        if row.len() > 0 {
            proof {
                assert(ins[n as int].no_duplicates());
                assert forall|j: int| 0 <= j < row@.len() implies (#[trigger] row@[j]) < key@.len() by {
                    assert(ints(row@)[j] == row@[j] as int);
                    assert(ins[n as int].contains(row@[j] as int));
                }
            }
            let settled = settle_row(row, key, parents);
            if settled.len() > 1 {
                let regions = keys_of(nodes, regs, &settled);
                let err = GraphRegionBuildError::AmbiguousNodeRegion { node: nodes[n].id, regions };
                proof {
                    assert(assign(nodes@, sr, ins, ps, kk, n + 1) == Err::<SAssign, SBuildErr>(err@));
                    lemma_assign_err(nodes@, sr, ins, ps, kk, n + 1, nodes@.len() as int);
                }
                return Err(err);
            }
            let r0 = settled[0];
            let id = nodes[n].id;
            let has = nodes[n].has_side_effects;
            proof {
                assert(ints(settled@)[0] == r0 as int);
                if side_id(nodes@, id) {
                    let m = choose|m: int| 0 <= m < nodes@.len() && nodes@[m].id == id && nodes@[m].has_side_effects;
                    if m != n {
                        if m < n {
                            assert(nodes@[m].id != nodes@[n as int].id);
                        } else {
                            assert(nodes@[n as int].id != nodes@[m].id);
                        }
                    }
                }
                assert(has == side_id(nodes@, id));
            }
            let ghost bn0 = by_node@;
            proof {
                assert(!among_first(nodes@, n as int, id)) by {
                    if among_first(nodes@, n as int, id) {
                        let m = choose|m: int| 0 <= m < n && #[trigger] nodes@[m].id == id;
                        assert(nodes@[m].id != nodes@[n as int].id);
                    }
                }
                lemma_first_grow(nodes@, n as int);
            }
            by_node.push((id, regs[r0].id));
            proof {
                assert forall|a: int, b: int| 0 <= a < b < by_node@.len() implies #[trigger] by_node@[a].0
                    != #[trigger] by_node@[b].0 by {
                    if b == bn0.len() {
                        assert(by_node@[a] == bn0[a]);
                        assert(among_first(nodes@, n as int, bn0[a].0));
                    } else {
                        assert(by_node@[a] == bn0[a] && by_node@[b] == bn0[b]);
                    }
                }
                assert forall|e: int| 0 <= e < by_node@.len() implies among_first(nodes@, n + 1, #[trigger] by_node@[e].0) by {
                    if e < bn0.len() {
                        assert(by_node@[e] == bn0[e]);
                        assert(among_first(nodes@, n as int, bn0[e].0));
                    } else {
                        assert(nodes@[n as int].id == id);
                    }
                }
                assert(placed_once(nodes@, by_node@, n + 1));
                assert(sr[r0 as int] == sreg(regs@[r0 as int]));
                lemma_sound_bn_push(members_view(members@), bn0, sr, ps, (id, sr[r0 as int].id));
                assert(by_node@ == bn0.push((id, sr[r0 as int].id)));
            }
            assert(sr[r0 as int] == sreg(regs@[r0 as int]));
            let ghost m0 = members_view(members@);
            let ghost s0 = side@;
            let ghost chain = seq![r0 as int] + ps[r0 as int];
            let anc = &parents[r0];
            proof {
                assert(ps[r0 as int] == ints(anc@));
                assert(chain.subrange(0, 1) =~= seq![r0 as int]);
                assert(chain.subrange(0, 1).drop_last() =~= Seq::<int>::empty());
                assert(add_chain(m0, Seq::<int>::empty(), id) == m0);
            }
            let ghost mm0 = members@;
            let ghost ss0 = side@;
            proof {
                assert(rising(kk, r0 as int, ps[r0 as int]));
                lemma_chain_distinct(kk, r0 as int, ps[r0 as int]);
                assert(chain.subrange(0, 0) =~= Seq::<int>::empty());
                assert(listed_once_but(nodes@, m0, n as int, id, chain.subrange(0, 0)));
                assert(chain[0] == r0 as int);
                lemma_once_add(nodes@, m0, n as int, id, chain, 0, 0);
            }
            add_member(&mut members, &mut side, r0, id, 0, has);
            proof {
                lemma_side_add(nodes@, members_view(mm0), ss0, r0 as int, id, 0, has);
                assert(grows(m0, m0));
                lemma_grows_add(m0, m0, r0 as int, (id, 0usize));
                assert(listed_along(members_view(members@), chain.subrange(0, 1), id)) by {
                    assert(chain.subrange(0, 1)[0] == r0 as int);
                }
                assert(by_node@.last() == (id, sr[r0 as int].id));
                assert(chain[0] == r0 as int);
                lemma_sound_add(m0, by_node@, sr, ps, r0 as int, id, 0, r0 as int);
                assert(add_chain(m0, chain.subrange(0, 1), id) == m0.update(r0 as int, m0[r0 as int].push((id, 0usize))));
                assert(side@ =~= Seq::new(n_regs as nat, |r: int| s0[r] || (has && chain.subrange(0, 1).contains(r)))) by {
                    let sub = chain.subrange(0, 1);
                    assert forall|r: int| 0 <= r < n_regs implies side@[r] == (s0[r] || (has && sub.contains(r))) by {
                        if sub.contains(r) {
                            let q = choose|q: int| 0 <= q < sub.len() && sub[q] == r;
                        }
                        if r == r0 {
                            assert(sub[0] == r);
                        }
                    }
                }
            }
            let mut k: usize = 0;
            while k < anc.len()
                invariant
                    n_regs == regs@.len(),
                    members@.len() == n_regs,
                    side@.len() == n_regs,
                    r0 < n_regs,
                    anc == &parents@[r0 as int],
                    ps == rows(parents@),
                    ps[r0 as int] == ints(anc@),
                    chain == seq![r0 as int] + ps[r0 as int],
                    forall|d: int, x: int| 0 <= d < n_regs && #[trigger] ps[d].contains(x) ==> 0 <= x < n_regs,
                    k <= anc@.len(),
                    members_view(members@) == add_chain(m0, chain.subrange(0, k + 1), id),
                    side@ == Seq::new(n_regs as nat, |r: int| s0[r] || (has && chain.subrange(0, k + 1).contains(r))),
                    side_matches(nodes@, members_view(members@), side@),
                    has == side_id(nodes@, id),
                    grows(m0, members_view(members@)),
                    m0.len() == n_regs,
                    listed_along(members_view(members@), chain.subrange(0, k + 1), id),
                    members_sound(members_view(members@), by_node@, sr, ps),
                    by_node@ == bn0.push((id, sr[r0 as int].id)),
                    r0 < sr.len(),
                    listed_once_but(nodes@, members_view(members@), n as int, id, chain.subrange(0, k + 1)),
                    chain.no_duplicates(),
                    !among_first(nodes@, n as int, id),
                decreases anc.len() - k,
            {
                let r = anc[k];
                proof {
                    assert(ints(anc@)[k as int] == r as int);
                    assert(ps[r0 as int].contains(r as int));
                    assert(chain[k + 1] == r as int);
                    assert(chain.subrange(0, k + 2).drop_last() =~= chain.subrange(0, k + 1));
                    assert(chain.subrange(0, k + 2).last() == r as int);
                }
                let ghost mb = members_view(members@);
                let ghost sb = side@;
                let ghost mm1 = members@;
                add_member(&mut members, &mut side, r, id, k + 1, has);
                proof {
                    lemma_side_add(nodes@, members_view(mm1), sb, r as int, id, (k + 1) as usize, has);
                    lemma_grows_add(m0, mb, r as int, (id, (k + 1) as usize));
                    assert(by_node@.last() == (id, sr[r0 as int].id));
                    lemma_sound_add(mb, by_node@, sr, ps, r as int, id, k + 1, r0 as int);
                    lemma_once_add(nodes@, mb, n as int, id, chain, k + 1, (k + 1) as usize);
                    let sub1 = chain.subrange(0, k + 1);
                    let sub2 = chain.subrange(0, k + 2);
                    let y = (id, (k + 1) as usize);
                    assert(members_view(members@) == mb.update(r as int, mb[r as int].push(y)));
                    assert forall|j: int| 0 <= j < sub2.len() implies #[trigger] members_view(members@)[sub2[j]].contains(
                        (id, j as usize),
                    ) by {
                        if j < k + 1 {
                            assert(sub2[j] == sub1[j]);
                            assert(sub1[j] == chain[j]);
                            if j > 0 {
                                assert(chain[j] == ps[r0 as int][j - 1]);
                                assert(ps[r0 as int].contains(chain[j]));
                            }
                            assert(0 <= sub1[j] < mb.len());
                            assert(mb[sub1[j]].contains((id, j as usize)));
                        } else {
                            assert(sub2[j] == r as int);
                            assert((id, j as usize) == y);
                        }
                    }
                    assert(add_chain(m0, chain.subrange(0, k + 2), id) == mb.update(r as int, mb[r as int].push((id, (k + 1) as usize))));
                    let sub1 = chain.subrange(0, k + 1);
                    let sub2 = chain.subrange(0, k + 2);
                    assert forall|x: int| 0 <= x < n_regs implies side@[x] == (s0[x] || (has && sub2.contains(x))) by {
                        if sub2.contains(x) && x != r {
                            let q = choose|q: int| 0 <= q < sub2.len() && sub2[q] == x;
                            assert(sub1[q] == x);
                        }
                        if sub1.contains(x) {
                            let q = choose|q: int| 0 <= q < sub1.len() && sub1[q] == x;
                            assert(sub2[q] == x);
                        }
                        if x == r {
                            assert(sub2[k + 1] == x);
                        }
                    }
                    assert(side@ =~= Seq::new(n_regs as nat, |x: int| s0[x] || (has && chain.subrange(0, k + 2).contains(x))));
                }
                k = k + 1;
            }
            proof {
                assert(chain.subrange(0, anc@.len() as int + 1) =~= chain);
                let mv = members_view(members@);
                assert(listed_along(mv, chain, id));
                lemma_listed_push(m0, mv, bn0, sr, ps, r0 as int, id);
                assert(by_node@ == bn0.push((id, sr[r0 as int].id)));
                lemma_once_close(nodes@, mv, n as int, chain);
            }
        }
        proof {
            lemma_first_grow(nodes@, n as int);
            assert(placed_once(nodes@, by_node@, n + 1));
            assert(listed_once(nodes@, members_view(members@), n + 1));
        }
        n = n + 1;
    }
    Ok((by_node, members, side))
}

} // verus!

verus! {

/// The wires among the first `k` added to a graph of the nodes, or the first
/// that loops back: onto its own node, or to a node that reaches its start.
pub open spec fn node_cycles(nodes: Seq<GraphNode>, edges: Seq<(int, int)>, k: int) -> Result<Seq<(int, int)>, SBuildErr>
    decreases k,
{
    if k <= 0 {
        Ok(Seq::empty())
    } else {
        match node_cycles(nodes, edges, k - 1) {
            Err(e) => Err(e),
            Ok(acc) => {
                let a = edges[k - 1].0;
                let b = edges[k - 1].1;
                if a == b {
                    Err(SBuildErr::NodeSelfLoop(nodes[a].id))
                } else if dag_path(acc, b, a) {
                    Err(SBuildErr::NodeCycle(nodes[a].id, nodes[b].id))
                } else {
                    Ok(acc.push((a, b)))
                }
            },
        }
    }
}

proof fn lemma_node_cycles_err(nodes: Seq<GraphNode>, edges: Seq<(int, int)>, i: int, j: int)
    requires
        1 <= i <= j,
        node_cycles(nodes, edges, i) is Err,
    ensures
        node_cycles(nodes, edges, j) == node_cycles(nodes, edges, i),
    decreases j - i,
{
    if j > i {
        lemma_node_cycles_err(nodes, edges, i, j - 1);
    }
}

/// Checks that the wires form no loop (the first half of `build_regions_graph`).
fn check_node_cycles(g: &NodeGraph) -> (r: Option<GraphRegionBuildError>)
    requires
        g.wf(),
        g.nodes@.len() + 1 < 0xffff_ffff,
        cycles_fit(g.nodes@, g.edges()),
    ensures
        match (r, node_cycles(g.nodes@, g.edges(), g.edges().len() as int)) {
            (None, Ok(_)) => true,
            (Some(e), Err(s)) => e@ == s,
            _ => false,
        },
{
    let (from_p, to_p) = wire_places(g);
    let ghost edges = g.edges();
    let mut dag = dag_new();
    let mut i: usize = 0;
    while i < g.nodes.len()
        invariant
            i <= g.nodes@.len(),
            g.nodes@.len() + 1 < 0xffff_ffff,
            dag_len(dag) == i,
            dag_edges(dag) == Seq::<(int, int)>::empty(),
        decreases g.nodes.len() - i,
    {
        dag_add_node(&mut dag, i);
        i = i + 1;
    }
    let mut k: usize = 0;
    while k < from_p.len()
        invariant
            edges == g.edges(),
            from_p@.len() == edges.len(),
            to_p@.len() == edges.len(),
            forall|j: int| 0 <= j < edges.len() ==> #[trigger] from_p@[j] < g.nodes@.len() && to_p@[j] < g.nodes@.len()
                && edges[j] == (from_p@[j] as int, to_p@[j] as int),
            k <= edges.len(),
            dag_len(dag) == g.nodes@.len(),
            node_cycles(g.nodes@, edges, k as int) == Ok::<Seq<(int, int)>, SBuildErr>(dag_edges(dag)),
            cycles_fit(g.nodes@, edges),
        decreases from_p.len() - k,
    {
        let a = from_p[k];
        let b = to_p[k];
        assert(edges[k as int] == (a as int, b as int));
        assert(node_cycles(g.nodes@, edges, k as int) matches Ok(acc) ==> acc.len() < 0xffff_ffff);
        let ghost acc = dag_edges(dag);
        match dag_try_add_edge(&mut dag, a, b) {
            Ok(()) => {},
            Err(c) => {
                let err = if a == b {
                    GraphRegionBuildError::NodeSelfLoop(g.nodes[a].id)
                } else {
                    GraphRegionBuildError::NodeCycle(g.nodes[a].id, g.nodes[b].id)
                };
                proof {
                    assert(node_cycles(g.nodes@, edges, k + 1) == Err::<Seq<(int, int)>, SBuildErr>(err@));
                    lemma_node_cycles_err(g.nodes@, edges, k + 1, edges.len() as int);
                }
                return Some(err);
            },
        }
        k = k + 1;
    }
    None
}

/// A sequence of distinct numbers below `n` has at most `n` of them.
proof fn lemma_distinct_below(s: Seq<int>, n: int)
    requires
        s.no_duplicates(),
        0 <= n,
        forall|i: int| 0 <= i < s.len() ==> 0 <= #[trigger] s[i] < n,
    ensures
        s.len() <= n,
{
    s.unique_seq_to_set();
    vstd::set_lib::lemma_int_range(0, n);
    assert(s.to_set().subset_of(vstd::set_lib::set_int_range(0, n)));
    vstd::set_lib::lemma_len_subset(s.to_set(), vstd::set_lib::set_int_range(0, n));
}

/// There are no more regions than nodes: each starts at a node of its own.
proof fn lemma_regions_fewer(nodes: Seq<GraphNode>, regs: Seq<SReg>)
    requires
        regions_consistent(nodes, regs),
        regions_complete(regs),
    ensures
        regs.len() <= nodes.len(),
{
    let s = regs.map_values(|g: SReg| g.source.unwrap());
    assert forall|i: int, j: int| 0 <= i < j < s.len() implies s[i] != s[j] by {
        assert(regs[i].source is Some && regs[j].source is Some);
        assert(nodes[s[i]].region_source == Some(regs[i].id));
        assert(nodes[s[j]].region_source == Some(regs[j].id));
    }
    assert forall|i: int| 0 <= i < s.len() implies 0 <= #[trigger] s[i] < nodes.len() by {
        assert(regs[i].source is Some);
    }
    lemma_distinct_below(s, nodes.len() as int);
}

} // verus!

verus! {

/// What is known of one region once the graph is built.
pub struct RegionGraphRegionData {
    pub id: u128,
    /// The enclosing regions, innermost first.
    pub parents: Vec<u128>,
    /// The nodes of the region and of the regions inside it.
    pub nodes: Vec<NodeWithSeparation>,
    pub has_side_effects: bool,
    pub start_node: usize,
    pub end_node: usize,
}

/// The regions of a graph.
pub struct RegionGraphData {
    topological_order: Vec<u128>,
    regions: Vec<RegionGraphRegionData>,
    regions_by_node: Vec<(usize, u128)>,
}

/// `RegionGraphRegionData` as plain values.
pub struct SRegionData {
    pub id: u128,
    pub parents: Seq<u128>,
    pub nodes: Seq<(usize, usize)>,
    pub has_side_effects: bool,
    pub start_node: usize,
    pub end_node: usize,
}

/// `RegionGraphData` as plain values.
pub struct SRegionGraph {
    pub topological_order: Seq<u128>,
    pub regions: Seq<SRegionData>,
    pub regions_by_node: Seq<(usize, u128)>,
}

impl RegionGraphRegionData {
    pub open spec fn view(&self) -> SRegionData {
        SRegionData {
            id: self.id,
            parents: self.parents@,
            nodes: seps(self.nodes@),
            has_side_effects: self.has_side_effects,
            start_node: self.start_node,
            end_node: self.end_node,
        }
    }
}

pub open spec fn region_views(v: Seq<RegionGraphRegionData>) -> Seq<SRegionData> {
    v.map_values(|d: RegionGraphRegionData| d.view())
}

impl RegionGraphData {
    pub closed spec fn view(&self) -> SRegionGraph {
        SRegionGraph {
            topological_order: self.topological_order@,
            regions: region_views(self.regions@),
            regions_by_node: self.regions_by_node@,
        }
    }
}

/// A region's start and end node are the one node that starts it and the
/// one node that ends it.
pub open spec fn sole_start_and_end(nodes: Seq<GraphNode>, d: SRegionData) -> bool {
    &&& exists|s: int| 0 <= s < nodes.len() && #[trigger] nodes[s].region_source == Some(d.id) && nodes[s].id == d.start_node
    &&& forall|j: int| 0 <= j < nodes.len() && #[trigger] nodes[j].region_source == Some(d.id) ==> nodes[j].id == d.start_node
    &&& exists|e: int| 0 <= e < nodes.len() && #[trigger] nodes[e].region_end == Some(d.id) && nodes[e].id == d.end_node
    &&& forall|j: int| 0 <= j < nodes.len() && #[trigger] nodes[j].region_end == Some(d.id) ==> nodes[j].id == d.end_node
}

/// A region has side effects exactly when a node listed in it has.
pub open spec fn side_effects_from_members(nodes: Seq<GraphNode>, g: SRegionGraph) -> bool {
    forall|i: int|
        0 <= i < g.regions.len() ==> ((#[trigger] g.regions[i]).has_side_effects <==> exists|p: int|
            0 <= p < g.regions[i].nodes.len() && side_id(nodes, g.regions[i].nodes[p].0))
}

/// The parents of region `d` are its chain of ancestors, innermost first:
/// none twice, not the region itself, and the parents of its `k`-th parent
/// are the parents after it.
pub open spec fn ancestor_chain(g: SRegionGraph, d: SRegionData) -> bool {
    &&& d.parents.no_duplicates()
    &&& !d.parents.contains(d.id)
    &&& forall|k: int|
        #![trigger d.parents[k]]
        0 <= k < d.parents.len() ==> exists|j: int|
            0 <= j < g.regions.len() && #[trigger] g.regions[j].id == d.parents[k] && g.regions[j].parents
                == d.parents.subrange(k + 1, d.parents.len() as int)
}

/// The parents of every region of `g` are its chain of ancestors.
pub open spec fn parents_are_ancestor_chains(g: SRegionGraph) -> bool {
    forall|i: int| 0 <= i < g.regions.len() ==> ancestor_chain(g, #[trigger] g.regions[i])
}

/// Every region of `g` has its one start and its one end node.
pub open spec fn starts_and_ends_sole(nodes: Seq<GraphNode>, g: SRegionGraph) -> bool {
    forall|i: int| 0 <= i < g.regions.len() ==> sole_start_and_end(nodes, #[trigger] g.regions[i])
}

/// Each node is placed in at most one region.
pub open spec fn nodes_placed_once(g: SRegionGraph) -> bool {
    forall|a: int, b: int|
        0 <= a < b < g.regions_by_node.len() ==> #[trigger] g.regions_by_node[a].0 != #[trigger] g.regions_by_node[b].0
}

/// Each region lists a node at most once.
pub open spec fn nodes_listed_once(g: SRegionGraph) -> bool {
    forall|i: int, p: int, q: int|
        #![trigger g.regions[i].nodes[p], g.regions[i].nodes[q]]
        0 <= i < g.regions.len() && 0 <= p < q < g.regions[i].nodes.len() ==> g.regions[i].nodes[p].0
            != g.regions[i].nodes[q].0
}

/// No two regions share an id.
pub open spec fn region_ids_distinct(g: SRegionGraph) -> bool {
    forall|a: int, b: int| 0 <= a < b < g.regions.len() ==> g.regions[a].id != g.regions[b].id
}

/// The order lists each region once and nothing else.
pub open spec fn lists_each_region_once(g: SRegionGraph) -> bool {
    &&& g.topological_order.len() == g.regions.len()
    &&& g.topological_order.no_duplicates()
    &&& forall|i: int| 0 <= i < g.regions.len() ==> g.topological_order.contains(#[trigger] g.regions[i].id)
}

/// A node placed in the region with the id of `entry` is listed in it at
/// separation 0, and in the region's `k`-th parent at separation `k + 1`.
pub open spec fn placed_node_listed(g: SRegionGraph, entry: (usize, u128)) -> bool {
    exists|j: int|
        0 <= j < g.regions.len() && #[trigger] g.regions[j].id == entry.1 && g.regions[j].nodes.contains((entry.0, 0usize))
            && forall|k: int|
            #![trigger g.regions[j].parents[k]]
            0 <= k < g.regions[j].parents.len() ==> exists|i: int|
                0 <= i < g.regions.len() && #[trigger] g.regions[i].id == g.regions[j].parents[k]
                    && g.regions[i].nodes.contains((entry.0, (k + 1) as usize))
}

/// Every node placed in a region is listed along the region and its parents.
pub open spec fn placed_nodes_listed(g: SRegionGraph) -> bool {
    forall|e: int| 0 <= e < g.regions_by_node.len() ==> placed_node_listed(g, #[trigger] g.regions_by_node[e])
}

/// The node of `item`, listed in region `d`, was placed in a region: `d`
/// itself when listed at separation 0, else a region whose parent at place
/// `separation - 1` is `d`.
pub open spec fn listed_node_placed(g: SRegionGraph, d: SRegionData, item: (usize, usize)) -> bool {
    exists|e: int, j: int|
        0 <= e < g.regions_by_node.len() && 0 <= j < g.regions.len() && #[trigger] g.regions_by_node[e] == (
            item.0,
            #[trigger] g.regions[j].id,
        ) && if item.1 == 0 {
            g.regions[j].id == d.id
        } else {
            item.1 - 1 < g.regions[j].parents.len() && g.regions[j].parents[item.1 - 1] == d.id
        }
}

/// Every node listed in a region was placed in it or in a region it
/// encloses, at the separation between the two.
pub open spec fn listed_nodes_placed(g: SRegionGraph) -> bool {
    forall|i: int, p: int|
        0 <= i < g.regions.len() && 0 <= p < g.regions[i].nodes.len() ==> listed_node_placed(
            g,
            g.regions[i],
            #[trigger] g.regions[i].nodes[p],
        )
}

/// Every region comes after each region that encloses it.
pub open spec fn parents_come_first(g: SRegionGraph) -> bool {
    forall|i: int, a: u128|
        0 <= i < g.regions.len() && #[trigger] g.regions[i].parents.contains(a) ==> exists|ka: int, kb: int|
            0 <= ka < kb < g.topological_order.len() && g.topological_order[ka] == a && g.topological_order[kb]
                == g.regions[i].id
}

/// Every wire that the loop check takes finds room for its index: at no
/// step does the check already hold `u32::MAX` wires.
pub open spec fn cycles_fit(nodes: Seq<GraphNode>, edges: Seq<(int, int)>) -> bool {
    forall|k: int| 0 <= k < edges.len() ==> (#[trigger] node_cycles(nodes, edges, k) matches Ok(acc) ==> acc.len()
        < 0xffff_ffff)
}

/// The dependencies of regions find room for their indexes: when region `i`
/// is reached, the dependencies taken so far and those its end node may add
/// stay within `u32::MAX`.
pub open spec fn deps_fit(nodes: Seq<GraphNode>, regs: Seq<SReg>, ins: Seq<Seq<int>>) -> bool {
    forall|i: int| 0 <= i < regs.len() ==> (#[trigger] deps(nodes, regs, ins, i) matches Ok(acc) ==> acc.len()
        + ins[ep_of(regs, i)].len() <= 0xffff_ffff)
}

/// A graph whose regions can be worked out within the index limits of the
/// dependency graphs (`u32` node and edge indexes).
pub open spec fn graph_fits(nodes: Seq<GraphNode>, edges: Seq<(int, int)>) -> bool {
    &&& nodes.len() + 1 < 0xffff_ffff
    &&& cycles_fit(nodes, edges)
    &&& (initial_regions(nodes) matches Ok(regs) ==> deps_fit(nodes, regs, node_inputs(edges, nodes.len(), regs)))
}

/// The regions of a graph: which regions there are, how they nest, and which
/// nodes belong to each; or the first problem found, in the order of the
/// steps: a loop of wires, a region with a missing, doubled or shared start or
/// end, regions that enclose each other, a region with two parents, a node in
/// two unrelated regions.
pub open spec fn region_graph_of(nodes: Seq<GraphNode>, edges: Seq<(int, int)>) -> Result<SRegionGraph, SBuildErr> {
    match node_cycles(nodes, edges, edges.len() as int) {
        Err(e) => Err(e),
        Ok(_) => match initial_regions(nodes) {
            Err(e) => Err(e),
            Ok(regs) => {
                let ins = node_inputs(edges, nodes.len(), regs);
                match deps(nodes, regs, ins, regs.len() as int) {
                    Err(e) => Err(e),
                    Ok(dep) => match hierarchy(nodes, regs, dep) {
                        Err(e) => Err(e),
                        Ok(h) => {
                            let n = regs.len();
                            let t = toposort_of(n, dep);
                            match assign(nodes, regs, ins, h.parents, t, nodes.len() as int) {
                                Err(e) => Err(e),
                                Ok(a) => Ok(SRegionGraph {
                                    topological_order: Seq::new(n, |k: int| regs[inverse(t)[n - 1 - k]].id),
                                    regions: Seq::new(
                                        n,
                                        |r: int| SRegionData {
                                            id: regs[r].id,
                                            parents: h.parents[r].map_values(|x: int| regs[x].id),
                                            nodes: a.members[r],
                                            has_side_effects: a.side[r],
                                            start_node: nodes[src_of(regs, r)].id,
                                            end_node: nodes[ep_of(regs, r)].id,
                                        },
                                    ),
                                    regions_by_node: a.by_node,
                                }),
                            }
                        },
                    },
                }
            },
        },
    }
}

} // verus!

verus! {

proof fn lemma_within(nodes: Seq<GraphNode>, regs: Seq<SReg>)
    requires
        regions_consistent(nodes, regs),
        regions_complete(regs),
    ensures
        regions_within(regs, nodes.len()),
{
    assert forall|k: int| 0 <= k < regs.len() implies ((#[trigger] regs[k]).source is Some && regs[k].endpoint is Some
        && 0 <= regs[k].source.unwrap() < nodes.len() && 0 <= regs[k].endpoint.unwrap() < nodes.len()
        && regs[k].source.unwrap() != regs[k].endpoint.unwrap()) by {
        assert(regs[k].source is Some && regs[k].endpoint is Some);
    }
}

/// The ids of the regions `row` names.
fn region_ids_of(regs: &Vec<RegionBuilderData>, row: &Vec<usize>) -> (r: Vec<u128>)
    requires
        forall|j: int| 0 <= j < row@.len() ==> (#[trigger] row@[j]) < regs@.len(),
    ensures
        r@ == ints(row@).map_values(|x: int| sregs(regs@)[x].id),
{
    let mut r: Vec<u128> = Vec::new();
    let mut k: usize = 0;
    while k < row.len()
        invariant
            forall|j: int| 0 <= j < row@.len() ==> (#[trigger] row@[j]) < regs@.len(),
            k <= row@.len(),
            r@ == ints(row@).subrange(0, k as int).map_values(|x: int| sregs(regs@)[x].id),
        decreases row.len() - k,
    {
        let x = row[k];
        assert(sregs(regs@)[x as int] == sreg(regs@[x as int]));
        r.push(regs[x].id);
        assert(r@ =~= ints(row@).subrange(0, k + 1).map_values(|x: int| sregs(regs@)[x].id));
        k = k + 1;
    }
    assert(ints(row@).subrange(0, row@.len() as int) =~= ints(row@));
    r
}

proof fn lemma_ancestor_chains(sg: SRegionGraph, sr: Seq<SReg>, hp: Seq<Seq<int>>, t: Seq<int>)
    requires
        sg.regions.len() == sr.len(),
        hp.len() == sr.len(),
        t.len() == sr.len(),
        forall|a: int, b: int| 0 <= a < b < sr.len() ==> sr[a].id != sr[b].id,
        forall|i: int| 0 <= i < sr.len() ==> (#[trigger] sg.regions[i]).id == sr[i].id && sg.regions[i].parents
            == hp[i].map_values(|x: int| sr[x].id),
        chains(hp),
        forall|i: int| 0 <= i < sr.len() ==> rising(t, i, #[trigger] hp[i]),
    ensures
        parents_are_ancestor_chains(sg),
{
    assert forall|i: int| 0 <= i < sg.regions.len() implies ancestor_chain(sg, #[trigger] sg.regions[i]) by {
        let c = hp[i];
        let pl = c.map_values(|x: int| sr[x].id);
        assert(sg.regions[i].parents == pl);
        assert(sg.regions[i].id == sr[i].id);
        assert(rising(t, i, c));
        lemma_rising_order(t, i, c);
        assert forall|a: int, b: int| 0 <= a < b < pl.len() implies pl[a] != pl[b] by {
            assert(c[a] != c[b]);
            if c[a] < c[b] {
                assert(sr[c[a]].id != sr[c[b]].id);
            } else {
                assert(sr[c[b]].id != sr[c[a]].id);
            }
        }
        assert(!pl.contains(sr[i].id)) by {
            if pl.contains(sr[i].id) {
                let k = choose|k: int| 0 <= k < pl.len() && pl[k] == sr[i].id;
                assert(c[k] != i);
                if c[k] < i {
                    assert(sr[c[k]].id != sr[i].id);
                } else {
                    assert(sr[i].id != sr[c[k]].id);
                }
            }
        }
        assert forall|k: int| #![trigger pl[k]] 0 <= k < pl.len() implies exists|j: int|
            0 <= j < sg.regions.len() && #[trigger] sg.regions[j].id == pl[k] && sg.regions[j].parents
                == pl.subrange(k + 1, pl.len() as int) by {
            let j = c[k];
            assert(hp[j] == c.subrange(k + 1, c.len() as int));
            assert(sg.regions[j].parents == hp[j].map_values(|x: int| sr[x].id));
            assert(hp[j].map_values(|x: int| sr[x].id) =~= pl.subrange(k + 1, pl.len() as int));
            assert(sg.regions[j].id == pl[k]);
        }
    }
}

proof fn lemma_placed_listed(sg: SRegionGraph, sr: Seq<SReg>, hp: Seq<Seq<int>>, mv: Seq<Seq<(usize, usize)>>)
    requires
        sg.regions.len() == sr.len(),
        hp.len() == sr.len(),
        mv.len() == sr.len(),
        forall|i: int| 0 <= i < sr.len() ==> (#[trigger] sg.regions[i]).id == sr[i].id && sg.regions[i].parents
            == hp[i].map_values(|x: int| sr[x].id) && sg.regions[i].nodes == mv[i],
        forall|d: int, x: int| 0 <= d < sr.len() && #[trigger] hp[d].contains(x) ==> 0 <= x < sr.len(),
        by_node_listed(mv, sg.regions_by_node, sr, hp),
    ensures
        placed_nodes_listed(sg),
{
    assert forall|e: int| 0 <= e < sg.regions_by_node.len() implies placed_node_listed(
        sg,
        #[trigger] sg.regions_by_node[e],
    ) by {
        let entry = sg.regions_by_node[e];
        assert(placed_listed(mv, sr, hp, entry));
        let r0 = choose|r0: int|
            0 <= r0 < sr.len() && #[trigger] sr[r0].id == entry.1 && listed_along(mv, seq![r0] + hp[r0], entry.0);
        let c = seq![r0] + hp[r0];
        let z: int = 0;
        assert(mv[c[z]].contains((entry.0, z as usize)));
        assert((entry.0, z as usize) == (entry.0, 0usize));
        assert(c[z] == r0);
        assert(sg.regions[r0].nodes.contains((entry.0, 0usize)));
        assert(sg.regions[r0].id == entry.1);
        let pl = sg.regions[r0].parents;
        assert(pl == hp[r0].map_values(|x: int| sr[x].id));
        assert forall|k: int| #![trigger pl[k]] 0 <= k < pl.len() implies exists|i: int|
            0 <= i < sg.regions.len() && #[trigger] sg.regions[i].id == pl[k] && sg.regions[i].nodes.contains(
                (entry.0, (k + 1) as usize),
            ) by {
            let i = hp[r0][k];
            assert(hp[r0].contains(i));
            assert(c[k + 1] == i);
            assert(mv[c[k + 1]].contains((entry.0, (k + 1) as usize)));
            assert(sg.regions[i].id == pl[k]);
        }
    }
}

proof fn lemma_listed_placed(sg: SRegionGraph, sr: Seq<SReg>, hp: Seq<Seq<int>>, mv: Seq<Seq<(usize, usize)>>)
    requires
        sg.regions.len() == sr.len(),
        hp.len() == sr.len(),
        mv.len() == sr.len(),
        forall|i: int| 0 <= i < sr.len() ==> (#[trigger] sg.regions[i]).id == sr[i].id && sg.regions[i].parents
            == hp[i].map_values(|x: int| sr[x].id) && sg.regions[i].nodes == mv[i],
        members_sound(mv, sg.regions_by_node, sr, hp),
    ensures
        listed_nodes_placed(sg),
{
    assert forall|i: int, p: int| 0 <= i < sg.regions.len() && 0 <= p < sg.regions[i].nodes.len() implies listed_node_placed(
        sg,
        sg.regions[i],
        #[trigger] sg.regions[i].nodes[p],
    ) by {
        let item = mv[i][p];
        assert(sg.regions[i].nodes[p] == item);
        assert(entry_sound(sg.regions_by_node, sr, hp, i, item));
        let (e, r0) = choose|e: int, r0: int|
            0 <= e < sg.regions_by_node.len() && 0 <= r0 < sr.len() && #[trigger] sg.regions_by_node[e] == (
                item.0,
                #[trigger] sr[r0].id,
            ) && item.1 < 1 + hp[r0].len() && (seq![r0] + hp[r0])[item.1 as int] == i;
        assert(sg.regions[r0].id == sr[r0].id);
        if item.1 == 0 {
            assert(r0 == i);
        } else {
            let pl = sg.regions[r0].parents;
            assert(pl == hp[r0].map_values(|x: int| sr[x].id));
            assert(hp[r0][item.1 - 1] == i);
            assert(pl[item.1 - 1] == sr[i].id);
        }
        assert(sg.regions_by_node[e] == (item.0, sg.regions[r0].id));
    }
}

/// Works out the regions of a graph whose wires form no loop
/// (`RegionGraphBuilder::build`).
fn build_regions(g: &NodeGraph) -> (r: Result<RegionGraphData, GraphRegionBuildError>)
    requires
        g.wf(),
        graph_fits(g.nodes@, g.edges()),
        node_cycles(g.nodes@, g.edges(), g.edges().len() as int) is Ok,
    ensures
        match (r, region_graph_of(g.nodes@, g.edges())) {
            (Ok(d), Ok(s)) => d@ == s,
            (Err(e), Err(s)) => e@ == s,
            _ => false,
        },
        r matches Ok(d) ==> d.wf(),
        r matches Ok(d) ==> parents_come_first(d@),
        r matches Ok(d) ==> lists_each_region_once(d@),
        r matches Ok(d) ==> starts_and_ends_sole(g.nodes@, d@),
        r matches Ok(d) ==> side_effects_from_members(g.nodes@, d@),
        r matches Ok(d) ==> parents_are_ancestor_chains(d@),
        r matches Ok(d) ==> placed_nodes_listed(d@),
        r matches Ok(d) ==> listed_nodes_placed(d@),
        r matches Ok(d) ==> nodes_placed_once(d@) && nodes_listed_once(d@),
{
    let ghost nodes = g.nodes@;
    let ghost edges = g.edges();
    let regs = match calculate_initial_regions(&g.nodes) {
        Ok(v) => v,
        Err(e) => {
            return Err(e);
        },
    };
    let ghost sr = sregs(regs@);
    proof {
        lemma_regions_fewer(nodes, sr);
        lemma_within(nodes, sr);
    }
    let succ = successor_lists(g);
    let inputs = calculate_node_inputs(&succ, &regs, Ghost(edges));
    let ghost ins = rows(inputs@);
    proof {
        lemma_node_inputs_props(edges, nodes.len(), sr);
    }
    let dag = match build_region_dag(&g.nodes, &regs, &inputs) {
        Ok(d) => d,
        Err(e) => {
            return Err(e);
        },
    };
    let ghost dep = dag_edges(dag);
    let (parents, ti) = match calculate_hierarchy(&g.nodes, &regs, &dag) {
        Ok(x) => x,
        Err(e) => {
            return Err(e);
        },
    };
    let n = regs.len();
    let ghost t = toposort_of(n as nat, dep);
    let mut key: Vec<usize> = Vec::new();
    let mut c: usize = 0;
    while c < n
        invariant
            c <= n,
            n == regs@.len(),
            ti@.len() == n,
            forall|x: int| 0 <= x < n ==> #[trigger] opts(ti@)[x] == Some(t[x]),
            key@.len() == c,
            forall|x: int| 0 <= x < c ==> (#[trigger] key@[x]) as int == t[x],
        decreases n - c,
    {
        assert(opts(ti@)[c as int] == opt_int(ti@[c as int]));
        let v = match ti[c] {
            Some(v) => v,
            None => 0,
        };
        key.push(v);
        c = c + 1;
    }
    proof {
        assert(ints(key@) =~= t);
        assert forall|a: int, b: int| 0 <= a < t.len() && 0 <= b < t.len() && a != b implies t[a] != t[b] by {}
    }
    let (by_node, members, side) = match assign_nodes(&g.nodes, &regs, &inputs, &parents, &key) {
        Ok(x) => x,
        Err(e) => {
            return Err(e);
        },
    };
    let ghost hp = rows(parents@);
    let mut inv: Vec<usize> = Vec::new();
    let mut i: usize = 0;
    while i < n
        invariant
            i <= n,
            inv@.len() == i,
        decreases n - i,
    {
        inv.push(0);
        i = i + 1;
    }
    let mut c: usize = 0;
    while c < n
        invariant
            c <= n,
            n == regs@.len(),
            inv@.len() == n,
            key@.len() == n,
            ints(key@) == t,
            is_topo_order(n as nat, dep, t),
            forall|x: int| 0 <= x < c ==> inv@[#[trigger] t[x]] as int == x,
        decreases n - c,
    {
        let ghost before = inv@;
        assert(ints(key@)[c as int] == key@[c as int] as int);
        inv.set(key[c], c);
        proof {
            assert forall|x: int| 0 <= x < c + 1 implies inv@[#[trigger] t[x]] as int == x by {
                if x < c {
                    assert(t[x] != t[c as int]);
                }
            }
        }
        c = c + 1;
    }
    proof {
        assert forall|m: int| 0 <= m < n implies inv@[m] as int == #[trigger] inverse(t)[m] by {
            lemma_topo_onto(n as nat, dep, t, m);
            let x = choose|x: int| 0 <= x < n && t[x] == m;
            let y = choose|p: int| 0 <= p < t.len() && t[p] == m;
            assert(x == y) by {
                if x != y {
                    assert(t[x] != t[y]);
                }
            }
        }
        assert forall|m: int| 0 <= m < n implies inv@[m] < n by {
            lemma_topo_onto(n as nat, dep, t, m);
            let x = choose|x: int| 0 <= x < n && t[x] == m;
            assert(inv@[t[x]] as int == x);
        }
    }
    let mut order: Vec<u128> = Vec::new();
    let mut k: usize = 0;
    while k < n
        invariant
            k <= n,
            n == regs@.len(),
            sr == sregs(regs@),
            inv@.len() == n,
            forall|m: int| 0 <= m < n ==> inv@[m] as int == #[trigger] inverse(t)[m],
            forall|m: int| 0 <= m < n ==> inv@[m] < n,
            order@ == Seq::new(k as nat, |j: int| sr[inverse(t)[n - 1 - j]].id),
        decreases n - k,
    {
        let r = inv[n - 1 - k];
        assert(sr[r as int] == sreg(regs@[r as int]));
        order.push(regs[r].id);
        assert(order@ =~= Seq::new((k + 1) as nat, |j: int| sr[inverse(t)[n - 1 - j]].id));
        k = k + 1;
    }
    let ghost mv = members_view(members@);
    let ghost sd = side@;
    let mut members = members;
    let mut regions: Vec<RegionGraphRegionData> = Vec::new();
    let mut r: usize = 0;
    while r < n
        invariant
            r <= n,
            n == regs@.len(),
            sr == sregs(regs@),
            regions_within(sr, nodes.len()),
            nodes == g.nodes@,
            members@.len() == n,
            parents@.len() == n,
            side@.len() == n,
            sd == side@,
            hp == rows(parents@),
            forall|d: int, x: int| 0 <= d < n && #[trigger] hp[d].contains(x) ==> 0 <= x < n,
            forall|j: int| r <= j < n ==> #[trigger] members_view(members@)[j] == mv[j],
            region_views(regions@) == Seq::new(
                r as nat,
                |j: int| SRegionData {
                    id: sr[j].id,
                    parents: hp[j].map_values(|x: int| sr[x].id),
                    nodes: mv[j],
                    has_side_effects: sd[j],
                    start_node: nodes[src_of(sr, j)].id,
                    end_node: nodes[ep_of(sr, j)].id,
                },
            ),
        decreases n - r,
    {
        let mut taken: Vec<NodeWithSeparation> = Vec::new();
        let ghost mb = members@;
        std::mem::swap(&mut taken, &mut members[r]);
        proof {
            assert(members_view(mb)[r as int] == seps(mb[r as int]@));
            assert forall|j: int| r + 1 <= j < n implies #[trigger] members_view(members@)[j] == mv[j] by {
                assert(members@[j] == mb[j]);
                assert(members_view(mb)[j] == mv[j]);
            }
            assert(hp[r as int] == ints(parents@[r as int]@));
            assert forall|j: int| 0 <= j < parents@[r as int]@.len() implies (#[trigger] parents@[r as int]@[j]) < regs@.len() by {
                assert(ints(parents@[r as int]@)[j] == parents@[r as int]@[j] as int);
                assert(hp[r as int].contains(parents@[r as int]@[j] as int));
            }
        }
        let pids = region_ids_of(&regs, &parents[r]);
        assert(sr[r as int] == sreg(regs@[r as int]));
        let s = regs[r].source.unwrap();
        let e = regs[r].endpoint.unwrap();
        let data = RegionGraphRegionData {
            id: regs[r].id,
            parents: pids,
            nodes: taken,
            has_side_effects: side[r],
            start_node: g.nodes[s].id,
            end_node: g.nodes[e].id,
        };
        let ghost before = regions@;
        regions.push(data);
        proof {
            assert(region_views(regions@) =~= region_views(before).push(data.view()));
        }
        r = r + 1;
    }
    let d = RegionGraphData { topological_order: order, regions, regions_by_node: by_node };
    proof {
        let sg = d@;
        assert(region_views(d.regions@) =~= Seq::new(
            n as nat,
            |j: int| SRegionData {
                id: sr[j].id,
                parents: hp[j].map_values(|x: int| sr[x].id),
                nodes: mv[j],
                has_side_effects: sd[j],
                start_node: nodes[src_of(sr, j)].id,
                end_node: nodes[ep_of(sr, j)].id,
            },
        ));
        assert forall|i: int, a: u128| 0 <= i < sg.regions.len() && #[trigger] sg.regions[i].parents.contains(a) implies exists|
            ka: int,
            kb: int,
        | 0 <= ka < kb < sg.topological_order.len() && sg.topological_order[ka] == a && sg.topological_order[kb]
            == sg.regions[i].id by {
            let ps = hp[i].map_values(|x: int| sr[x].id);
            assert(sg.regions[i].parents == ps);
            let k = choose|k: int| 0 <= k < ps.len() && ps[k] == a;
            let x = hp[i][k];
            assert(hp[i].contains(x));
            assert(t[x] > t[i]);
            assert(0 <= t[i] < n && 0 <= t[x] < n);
            let kb = n - 1 - t[i];
            let ka = n - 1 - t[x];
            assert(inv@[t[i]] as int == i);
            assert(inv@[t[x]] as int == x);
            assert(inverse(t)[t[i]] == i);
            assert(inverse(t)[t[x]] == x);
            assert(sg.topological_order[kb] == sr[inverse(t)[n - 1 - kb]].id);
            assert(sg.topological_order[ka] == sr[inverse(t)[n - 1 - ka]].id);
        }
        assert forall|a: int, b: int| 0 <= a < b < d.regions@.len() implies d.regions@[a].id != d.regions@[b].id by {
            assert(region_views(d.regions@)[a] == d.regions@[a].view());
            assert(region_views(d.regions@)[b] == d.regions@[b].view());
        }
        assert forall|i: int| 0 <= i < sg.regions.len() implies sg.topological_order.contains(
            #[trigger] sg.regions[i].id,
        ) by {
            assert(0 <= t[i] < n);
            assert(inv@[t[i]] as int == i);
            assert(inverse(t)[t[i]] == i);
            let k = n - 1 - t[i];
            assert(sg.topological_order[k] == sr[inverse(t)[n - 1 - k]].id);
        }
        assert forall|i: int| 0 <= i < sr.len() implies (#[trigger] sg.regions[i]).id == sr[i].id && sg.regions[i].parents
            == hp[i].map_values(|x: int| sr[x].id) by {}
        lemma_ancestor_chains(sg, sr, hp, t);
        assert forall|i: int| 0 <= i < sr.len() implies (#[trigger] sg.regions[i]).id == sr[i].id && sg.regions[i].parents
            == hp[i].map_values(|x: int| sr[x].id) && sg.regions[i].nodes == mv[i] by {}
        lemma_placed_listed(sg, sr, hp, mv);
        lemma_listed_placed(sg, sr, hp, mv);
        assert forall|i: int, p: int, q: int|
            #![trigger sg.regions[i].nodes[p], sg.regions[i].nodes[q]]
            0 <= i < sg.regions.len() && 0 <= p < q < sg.regions[i].nodes.len() implies sg.regions[i].nodes[p].0
                != sg.regions[i].nodes[q].0 by {
            assert(sg.regions[i].nodes == mv[i]);
            assert(mv[i][p].0 != mv[i][q].0);
        }
        assert forall|i: int| 0 <= i < sg.regions.len() implies ((#[trigger] sg.regions[i]).has_side_effects <==> exists|p: int|
            0 <= p < sg.regions[i].nodes.len() && side_id(nodes, sg.regions[i].nodes[p].0)) by {
            assert(sg.regions[i].has_side_effects == sd[i]);
            assert(sg.regions[i].nodes == mv[i]);
            assert(sd[i] <==> exists|p: int| 0 <= p < mv[i].len() && side_id(nodes, mv[i][p].0));
        }
        assert forall|i: int| 0 <= i < sg.regions.len() implies sole_start_and_end(nodes, #[trigger] sg.regions[i]) by {
            let src = src_of(sr, i);
            let ep = ep_of(sr, i);
            assert(sg.regions[i].id == sr[i].id);
            assert(nodes[src].region_source == Some(sr[i].id));
            assert(nodes[ep].region_end == Some(sr[i].id));
            assert forall|j: int| 0 <= j < nodes.len() && #[trigger] nodes[j].region_source == Some(sr[i].id) implies nodes[j].id
                == sg.regions[i].start_node by {
                assert(src_covered(nodes, sr, j));
                let k = choose|k: int| 0 <= k < sr.len() && #[trigger] sr[k].id == sr[i].id && sr[k].source == Some(j);
                if k != i {
                    if k < i {
                        assert(sr[k].id != sr[i].id);
                    } else {
                        assert(sr[i].id != sr[k].id);
                    }
                }
            }
            assert forall|j: int| 0 <= j < nodes.len() && #[trigger] nodes[j].region_end == Some(sr[i].id) implies nodes[j].id
                == sg.regions[i].end_node by {
                assert(end_covered(nodes, sr, j));
                let k = choose|k: int| 0 <= k < sr.len() && #[trigger] sr[k].id == sr[i].id && sr[k].endpoint == Some(j);
                if k != i {
                    if k < i {
                        assert(sr[k].id != sr[i].id);
                    } else {
                        assert(sr[i].id != sr[k].id);
                    }
                }
            }
        }
        assert forall|a: int, b: int| 0 <= a < b < sg.topological_order.len() implies sg.topological_order[a]
            != sg.topological_order[b] by {
            let x = inverse(t)[n - 1 - a];
            let y = inverse(t)[n - 1 - b];
            assert(0 <= inv@[n - 1 - a] < n && 0 <= inv@[n - 1 - b] < n);
            assert(x != y) by {
                lemma_topo_onto(n as nat, dep, t, n - 1 - a);
                lemma_topo_onto(n as nat, dep, t, n - 1 - b);
                assert(t[x] == n - 1 - a);
                assert(t[y] == n - 1 - b);
            }
            assert(sg.topological_order[a] == sr[x].id);
            assert(sg.topological_order[b] == sr[y].id);
            assert(region_views(d.regions@)[x] == d.regions@[x].view());
            assert(region_views(d.regions@)[y] == d.regions@[y].view());
            if x < y {
                assert(d.regions@[x].id != d.regions@[y].id);
            } else {
                assert(d.regions@[y].id != d.regions@[x].id);
            }
        }
        assert(region_views(d.regions@) =~= Seq::new(
            n as nat,
            |j: int| SRegionData {
                id: sr[j].id,
                parents: hp[j].map_values(|x: int| sr[x].id),
                nodes: mv[j],
                has_side_effects: sd[j],
                start_node: nodes[src_of(sr, j)].id,
                end_node: nodes[ep_of(sr, j)].id,
            },
        ));
    }
    Ok(d)
}

} // verus!

verus! {

impl GraphRegionBuildError {
    /// A copy of the problem.
    pub fn copy(&self) -> (r: Self)
        ensures
            r@ == self@,
    {
        match self {
            GraphRegionBuildError::NotReady => GraphRegionBuildError::NotReady,
            GraphRegionBuildError::Dirty => GraphRegionBuildError::Dirty,
            GraphRegionBuildError::NodeCycle(a, b) => GraphRegionBuildError::NodeCycle(*a, *b),
            GraphRegionBuildError::NodeSelfLoop(a) => GraphRegionBuildError::NodeSelfLoop(*a),
            GraphRegionBuildError::MultipleEndpoints(r, a, b) => GraphRegionBuildError::MultipleEndpoints(*r, *a, *b),
            GraphRegionBuildError::MultipleSources(r, a, b) => GraphRegionBuildError::MultipleSources(*r, *a, *b),
            GraphRegionBuildError::MissingEndpoint(r, a) => GraphRegionBuildError::MissingEndpoint(*r, *a),
            GraphRegionBuildError::MissingSource(r, a) => GraphRegionBuildError::MissingSource(*r, *a),
            GraphRegionBuildError::SameSourceAndEndpoint(r, a) => GraphRegionBuildError::SameSourceAndEndpoint(*r, *a),
            GraphRegionBuildError::AmbiguousNodeRegion { node, regions } => GraphRegionBuildError::AmbiguousNodeRegion {
                node: *node,
                regions: copy_keys(regions),
            },
            GraphRegionBuildError::CyclicalDependency { a, b } => GraphRegionBuildError::CyclicalDependency { a: *a, b: *b },
            GraphRegionBuildError::MultipleParentRegions { region, parents } => GraphRegionBuildError::MultipleParentRegions {
                region: *region,
                parents: copy_keys(parents),
            },
        }
    }
}

fn copy_keys(v: &Vec<(u128, usize)>) -> (r: Vec<(u128, usize)>)
    ensures
        r@ == v@,
{
    let mut r: Vec<(u128, usize)> = Vec::new();
    let mut i: usize = 0;
    while i < v.len()
        invariant
            i <= v@.len(),
            r@ == v@.subrange(0, i as int),
        decreases v.len() - i,
    {
        r.push(v[i]);
        i = i + 1;
        assert(r@ =~= v@.subrange(0, i as int));
    }
    assert(v@.subrange(0, v@.len() as int) =~= v@);
    r
}

/// A node is listed at separation 0 in a region exactly when it is placed
/// in that region.
pub proof fn law_separation_zero_iff_placed(g: SRegionGraph, i: int, nid: usize)
    requires
        0 <= i < g.regions.len(),
        placed_nodes_listed(g),
        listed_nodes_placed(g),
        region_ids_distinct(g),
    ensures
        g.regions[i].nodes.contains((nid, 0usize)) <==> exists|e: int|
            0 <= e < g.regions_by_node.len() && #[trigger] g.regions_by_node[e] == (nid, g.regions[i].id),
{
    if g.regions[i].nodes.contains((nid, 0usize)) {
        let p = choose|p: int| 0 <= p < g.regions[i].nodes.len() && g.regions[i].nodes[p] == (nid, 0usize);
        assert(listed_node_placed(g, g.regions[i], g.regions[i].nodes[p]));
    }
    if exists|e: int| 0 <= e < g.regions_by_node.len() && #[trigger] g.regions_by_node[e] == (nid, g.regions[i].id) {
        let e = choose|e: int| 0 <= e < g.regions_by_node.len() && #[trigger] g.regions_by_node[e] == (nid, g.regions[i].id);
        assert(placed_node_listed(g, g.regions_by_node[e]));
        let j = choose|j: int|
            0 <= j < g.regions.len() && #[trigger] g.regions[j].id == g.regions_by_node[e].1 && g.regions[j].nodes.contains(
                (g.regions_by_node[e].0, 0usize),
            ) && forall|k: int|
                #![trigger g.regions[j].parents[k]]
                0 <= k < g.regions[j].parents.len() ==> exists|i2: int|
                    0 <= i2 < g.regions.len() && #[trigger] g.regions[i2].id == g.regions[j].parents[k]
                        && g.regions[i2].nodes.contains((g.regions_by_node[e].0, (k + 1) as usize));
        if j != i {
            if j < i {
                assert(g.regions[j].id != g.regions[i].id);
            } else {
                assert(g.regions[i].id != g.regions[j].id);
            }
        }
    }
}

/// `x` is the id of a region of `g`.
pub open spec fn is_region_id(g: SRegionGraph, x: u128) -> bool {
    exists|i: int| 0 <= i < g.regions.len() && g.regions[i].id == x
}

/// With distinct region ids, an order that lists each region once holds
/// nothing but region ids: each of its entries is the id of a region.
pub proof fn law_order_holds_only_regions(g: SRegionGraph)
    requires
        lists_each_region_once(g),
        region_ids_distinct(g),
    ensures
        forall|k: int| 0 <= k < g.topological_order.len() ==> is_region_id(g, #[trigger] g.topological_order[k]),
{
    let o = g.topological_order;
    let ids = g.regions.map_values(|d: SRegionData| d.id);
    assert(ids.no_duplicates()) by {
        assert forall|a: int, b: int| 0 <= a < ids.len() && 0 <= b < ids.len() && a != b implies ids[a] != ids[b] by {
            if a < b {
                assert(g.regions[a].id != g.regions[b].id);
            } else {
                assert(g.regions[b].id != g.regions[a].id);
            }
        }
    }
    o.unique_seq_to_set();
    ids.unique_seq_to_set();
    assert forall|k: int| 0 <= k < g.topological_order.len() implies is_region_id(g, #[trigger] g.topological_order[k]) by {
        if !is_region_id(g, o[k]) {
            let smaller = o.to_set().remove(o[k]);
            assert(ids.to_set().subset_of(smaller)) by {
                assert forall|x: u128| ids.to_set().contains(x) implies smaller.contains(x) by {
                    let i = choose|i: int| 0 <= i < ids.len() && ids[i] == x;
                    assert(g.regions[i].id == x);
                    assert(o.contains(g.regions[i].id));
                }
            }
            assert(o.to_set().contains(o[k]));
            vstd::set_lib::lemma_len_subset(ids.to_set(), smaller);
        }
    }
}

impl RegionGraphData {
    /// Region ids are distinct.
    pub closed spec fn wf(&self) -> bool {
        forall|a: int, b: int| 0 <= a < b < self.regions@.len() ==> self.regions@[a].id != self.regions@[b].id
    }

    /// Well-formed regions have distinct ids.
    pub proof fn lemma_wf_ids(&self)
        requires
            self.wf(),
        ensures
            region_ids_distinct(self@),
    {
        assert forall|a: int, b: int| 0 <= a < b < self@.regions.len() implies self@.regions[a].id
            != self@.regions[b].id by {
            assert(region_views(self.regions@)[a] == self.regions@[a].view());
            assert(region_views(self.regions@)[b] == self.regions@[b].view());
        }
    }

    /// The place of the region with id `region`.
    pub open spec fn place_of_region(&self, region: u128) -> int {
        choose|k: int| 0 <= k < self@.regions.len() && self@.regions[k].id == region
    }

    /// There is a region with id `region`.
    pub open spec fn has_region(&self, region: u128) -> bool {
        exists|k: int| 0 <= k < self@.regions.len() && self@.regions[k].id == region
    }

    fn find(&self, region: u128) -> (r: usize)
        requires
            self.wf(),
            self.has_region(region),
        ensures
            r as int == self.place_of_region(region),
            r < self.regions@.len(),
    {
        let mut k: usize = 0;
        while k < self.regions.len()
            invariant
                self.wf(),
                self.has_region(region),
                k <= self.regions@.len(),
                forall|j: int| 0 <= j < k ==> self.regions@[j].id != region,
            decreases self.regions.len() - k,
        {
            assert(region_views(self.regions@)[k as int] == self.regions@[k as int].view());
            if self.regions[k].id == region {
                proof {
                    let c = self.place_of_region(region);
                    assert(region_views(self.regions@)[c] == self.regions@[c].view());
                    if c != k {
                        if c < k {
                            assert(self.regions@[c].id != region);
                        } else {
                            assert(self.regions@[k as int].id != self.regions@[c].id);
                        }
                    }
                }
                return k;
            }
            k = k + 1;
        }
        proof {
            let c = self.place_of_region(region);
            assert(region_views(self.regions@)[c] == self.regions@[c].view());
            assert(self.regions@[c].id != region);
        }
        0
    }

    /// Regions ordered so that a region's children come after it.
    pub fn ordered_regions(&self) -> (r: &Vec<u128>)
        ensures
            r@ == self@.topological_order,
    {
        &self.topological_order
    }

    /// The nodes of the region and of the regions inside it.
    pub fn region_nodes(&self, region: u128) -> (r: &Vec<NodeWithSeparation>)
        requires
            self.wf(),
            self.has_region(region),
        ensures
            seps(r@) == self@.regions[self.place_of_region(region)].nodes,
    {
        let k = self.find(region);
        assert(region_views(self.regions@)[k as int] == self.regions@[k as int].view());
        &self.regions[k].nodes
    }

    /// What is known of the region.
    pub fn region_data(&self, region: u128) -> (r: &RegionGraphRegionData)
        requires
            self.wf(),
            self.has_region(region),
        ensures
            r.view() == self@.regions[self.place_of_region(region)],
    {
        let k = self.find(region);
        assert(region_views(self.regions@)[k as int] == self.regions@[k as int].view());
        &self.regions[k]
    }

    /// The innermost region of the node, if any.
    pub fn node_region(&self, node: usize) -> (r: Option<u128>)
        ensures
            match r {
                Some(x) => exists|k: int| 0 <= k < self@.regions_by_node.len() && self@.regions_by_node[k] == (node, x),
                None => forall|k: int| 0 <= k < self@.regions_by_node.len() ==> self@.regions_by_node[k].0 != node,
            },
    {
        let mut k: usize = 0;
        while k < self.regions_by_node.len()
            invariant
                k <= self.regions_by_node@.len(),
                forall|j: int| 0 <= j < k ==> self.regions_by_node@[j].0 != node,
                self@.regions_by_node == self.regions_by_node@,
            decreases self.regions_by_node.len() - k,
        {
            if self.regions_by_node[k].0 == node {
                let x = self.regions_by_node[k].1;
                assert(self@.regions_by_node == self.regions_by_node@);
                assert(self@.regions_by_node[k as int] == (node, x));
                return Some(x);
            }
            k = k + 1;
        }
        None
    }

    /// The regions that enclose the region, innermost first.
    pub fn region_parents(&self, region: u128) -> (r: &Vec<u128>)
        requires
            self.wf(),
            self.has_region(region),
        ensures
            r@ == self@.regions[self.place_of_region(region)].parents,
    {
        let k = self.find(region);
        assert(region_views(self.regions@)[k as int] == self.regions@[k as int].view());
        &self.regions[k].parents
    }
}

} // verus!

verus! {

/// A problem found while working the regions out: neither the mark of a
/// graph not built yet nor that of one out of date.
pub open spec fn is_build_problem(e: SBuildErr) -> bool {
    !(e is NotReady || e is Dirty)
}

proof fn lemma_node_cycles_problem(nodes: Seq<GraphNode>, edges: Seq<(int, int)>, k: int)
    ensures
        node_cycles(nodes, edges, k) matches Err(e) ==> is_build_problem(e),
    decreases k,
{
    if k > 0 {
        lemma_node_cycles_problem(nodes, edges, k - 1);
    }
}

proof fn lemma_scan_problem(nodes: Seq<GraphNode>, n: int)
    ensures
        scan_regions(nodes, n) matches Err(e) ==> is_build_problem(e),
    decreases n,
{
    if n > 0 {
        lemma_scan_problem(nodes, n - 1);
    }
}

proof fn lemma_incomplete_problem(nodes: Seq<GraphNode>, regs: Seq<SReg>, k: int)
    ensures
        first_incomplete(nodes, regs, k) matches Some(e) ==> is_build_problem(e),
    decreases regs.len() - k,
{
    if 0 <= k < regs.len() {
        lemma_incomplete_problem(nodes, regs, k + 1);
    }
}

proof fn lemma_deps_row_problem(
    nodes: Seq<GraphNode>,
    regs: Seq<SReg>,
    idx: int,
    row: Seq<int>,
    j: int,
    acc: Seq<(int, int)>,
)
    ensures
        deps_row(nodes, regs, idx, row, j, acc) matches Err(e) ==> is_build_problem(e),
    decreases row.len() - j,
{
    if 0 <= j < row.len() {
        lemma_deps_row_problem(nodes, regs, idx, row, j + 1, acc);
        lemma_deps_row_problem(nodes, regs, idx, row, j + 1, acc.push((idx, row[j])));
    }
}

proof fn lemma_deps_problem(nodes: Seq<GraphNode>, regs: Seq<SReg>, inputs: Seq<Seq<int>>, idx: int)
    ensures
        deps(nodes, regs, inputs, idx) matches Err(e) ==> is_build_problem(e),
    decreases idx,
{
    if idx > 0 {
        lemma_deps_problem(nodes, regs, inputs, idx - 1);
        if let Ok(acc) = deps(nodes, regs, inputs, idx - 1) {
            lemma_deps_row_problem(nodes, regs, idx - 1, inputs[ep_of(regs, idx - 1)], 0, acc);
        }
    }
}

proof fn lemma_hier_problem(nodes: Seq<GraphNode>, regs: Seq<SReg>, red: Seq<Seq<int>>, rev: Seq<int>, p: int)
    ensures
        hier(nodes, regs, red, rev, p) matches Err(e) ==> is_build_problem(e),
    decreases p,
{
    if p > 0 {
        lemma_hier_problem(nodes, regs, red, rev, p - 1);
    }
}

proof fn lemma_assign_problem(
    nodes: Seq<GraphNode>,
    regs: Seq<SReg>,
    inputs: Seq<Seq<int>>,
    parents: Seq<Seq<int>>,
    key: Seq<int>,
    i: int,
)
    ensures
        assign(nodes, regs, inputs, parents, key, i) matches Err(e) ==> is_build_problem(e),
    decreases i,
{
    if i > 0 {
        lemma_assign_problem(nodes, regs, inputs, parents, key, i - 1);
    }
}

/// Working the regions of a graph out gives them or a problem found with
/// them, never the mark of a graph not built yet or out of date.
pub proof fn law_built_graph_is_ready(nodes: Seq<GraphNode>, edges: Seq<(int, int)>)
    ensures
        region_graph_of(nodes, edges) matches Err(e) ==> is_build_problem(e),
{
    lemma_node_cycles_problem(nodes, edges, edges.len() as int);
    lemma_scan_problem(nodes, nodes.len() as int);
    if let Ok(regs) = scan_regions(nodes, nodes.len() as int) {
        lemma_incomplete_problem(nodes, regs, 0);
    }
    if let Ok(regs) = initial_regions(nodes) {
        let ins = node_inputs(edges, nodes.len(), regs);
        lemma_deps_problem(nodes, regs, ins, regs.len() as int);
        if let Ok(dep) = deps(nodes, regs, ins, regs.len() as int) {
            let n = regs.len();
            let topo = toposort_of(n, dep);
            lemma_hier_problem(nodes, regs, reduced_rows_of(ranked_rows_of(n, dep, topo)), inverse(topo), n as int);
            if let Ok(h) = hierarchy(nodes, regs, dep) {
                lemma_assign_problem(nodes, regs, ins, h.parents, topo, nodes.len() as int);
            }
        }
    }
}

} // verus!

verus! {

/// The regions of a node graph once worked out, or why they are not.
pub struct RegionGraph(Result<RegionGraphData, GraphRegionBuildError>);

impl RegionGraph {
    /// The built regions, or the problem.
    pub closed spec fn state(&self) -> Result<SRegionGraph, SBuildErr> {
        match self.0 {
            Ok(d) => Ok(d@),
            Err(e) => Err(e@),
        }
    }

    /// A built graph's regions have distinct ids.
    pub closed spec fn wf(&self) -> bool {
        self.0 matches Ok(d) ==> d.wf()
    }

    /// Attempts to work out the regions of a graph.
    pub fn build_regions_graph(graph: &NodeGraph) -> (r: Self)
        requires
            graph.wf(),
            graph_fits(graph.nodes@, graph.edges()),
        ensures
            r.state() == region_graph_of(graph.nodes@, graph.edges()),
            r.wf(),
            r.state() matches Ok(s) ==> parents_come_first(s),
            r.state() matches Ok(s) ==> lists_each_region_once(s),
            r.state() matches Ok(s) ==> starts_and_ends_sole(graph.nodes@, s),
            r.state() matches Ok(s) ==> side_effects_from_members(graph.nodes@, s),
            r.state() matches Ok(s) ==> parents_are_ancestor_chains(s),
            r.state() matches Ok(s) ==> placed_nodes_listed(s),
            r.state() matches Ok(s) ==> listed_nodes_placed(s),
            r.state() matches Ok(s) ==> region_ids_distinct(s),
            r.state() matches Ok(s) ==> nodes_placed_once(s) && nodes_listed_once(s),
            r.state() matches Err(e) ==> is_build_problem(e),
    {
        proof {
            law_built_graph_is_ready(graph.nodes@, graph.edges());
        }
        let r = match check_node_cycles(graph) {
            Some(e) => RegionGraph(Err(e)),
            None => RegionGraph(build_regions(graph)),
        };
        proof {
            if r.0 is Ok {
                r.0->Ok_0.lemma_wf_ids();
            }
        }
        r
    }

    /// Whether the graph was built (to a result or to a problem other than
    /// not being built yet or being out of date).
    pub fn is_ready(&self) -> (r: bool)
        ensures
            r == !(self.state() matches Err(e) && (e is NotReady || e is Dirty)),
    {
        match &self.0 {
            Err(GraphRegionBuildError::NotReady) => false,
            Err(GraphRegionBuildError::Dirty) => false,
            _ => true,
        }
    }

    /// The problem if the graph is not built yet or is out of date.
    pub fn expect_ready(&self) -> (r: Result<(), GraphRegionBuildError>)
        ensures
            match self.state() {
                Err(SBuildErr::NotReady) => r matches Err(e) && e@ == SBuildErr::NotReady,
                Err(SBuildErr::Dirty) => r matches Err(e) && e@ == SBuildErr::Dirty,
                _ => r is Ok,
            },
    {
        match &self.0 {
            Err(GraphRegionBuildError::NotReady) => Err(GraphRegionBuildError::NotReady),
            Err(GraphRegionBuildError::Dirty) => Err(GraphRegionBuildError::Dirty),
            _ => Ok(()),
        }
    }

    /// Marks the graph as out of date.
    pub fn mark_dirty(&mut self)
        ensures
            final(self).state() == Err::<SRegionGraph, SBuildErr>(SBuildErr::Dirty),
            final(self).wf(),
    {
        self.0 = Err(GraphRegionBuildError::Dirty);
    }

    /// The regions, or a copy of the problem.
    pub fn try_as_data(&self) -> (r: Result<&RegionGraphData, GraphRegionBuildError>)
        ensures
            match (r, self.state()) {
                (Ok(d), Ok(s)) => d@ == s && (self.wf() ==> d.wf()),
                (Err(e), Err(s)) => e@ == s,
                _ => false,
            },
    {
        match &self.0 {
            Ok(d) => Ok(d),
            Err(e) => Err(e.copy()),
        }
    }

    /// Works the regions out again.
    pub fn force_rebuild(&mut self, graph: &NodeGraph)
        requires
            graph.wf(),
            graph_fits(graph.nodes@, graph.edges()),
        ensures
            final(self).state() == region_graph_of(graph.nodes@, graph.edges()),
            final(self).wf(),
            final(self).state() matches Err(e) ==> is_build_problem(e),
    {
        *self = Self::build_regions_graph(graph);
    }

    /// Works the regions out if they are not ready.
    pub fn ensure_ready(&mut self, graph: &NodeGraph)
        requires
            graph.wf(),
            graph_fits(graph.nodes@, graph.edges()),
        ensures
            (old(self).state() matches Err(e) && (e is NotReady || e is Dirty)) ==> final(self).state()
                == region_graph_of(graph.nodes@, graph.edges()),
            !(old(self).state() matches Err(e) && (e is NotReady || e is Dirty)) ==> final(self).state() == old(
                self,
            ).state(),
            old(self).wf() ==> final(self).wf(),
            final(self).state() matches Err(e) ==> is_build_problem(e),
    {
        if !self.is_ready() {
            self.force_rebuild(graph);
        }
    }
}

impl Default for RegionGraph {
    /// A graph not built yet.
    fn default() -> (r: Self)
        ensures
            r.state() == Err::<SRegionGraph, SBuildErr>(SBuildErr::NotReady),
            r.wf(),
    {
        RegionGraph(Err(GraphRegionBuildError::NotReady))
    }
}

} // verus!
