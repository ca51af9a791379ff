//! Directed acyclic graphs of `petgraph`, seen through their edge lists, and
//! the topological sort and transitive reduction that `petgraph` computes.
use petgraph::acyclic::{Acyclic, AcyclicEdgeError};
use petgraph::adj::List;
use petgraph::data::Build;
use petgraph::graph::{DiGraph, NodeIndex};
use petgraph::visit::{EdgeRef, IntoEdges};
use vstd::prelude::*;

verus! {

/// `p` follows the edges: each step is an edge.
pub open spec fn edge_walk(edges: Seq<(int, int)>, p: Seq<int>) -> bool {
    p.len() >= 1 && forall|k: int| 0 <= k < p.len() - 1 ==> edges.contains((#[trigger] p[k], p[k + 1]))
}

/// There is a walk from `a` to `b` (of no steps when `a == b`).
pub open spec fn dag_path(edges: Seq<(int, int)>, a: int, b: int) -> bool {
    exists|p: Seq<int>| edge_walk(edges, p) && p[0] == a && p.last() == b
}

/// `t` lists the nodes `0..n`, each once, every edge going forward.
pub open spec fn is_topo_order(n: nat, edges: Seq<(int, int)>, t: Seq<int>) -> bool {
    &&& t.len() == n
    &&& t.no_duplicates()
    &&& forall|i: int| 0 <= i < n ==> 0 <= #[trigger] t[i] < n
    &&& forall|i: int, j: int| 0 <= i < n && 0 <= j < n && edges.contains((#[trigger] t[i], #[trigger] t[j])) ==> i < j
}

/// `s` is strictly increasing.
pub open spec fn increasing(s: Seq<int>) -> bool {
    forall|i: int, j: int| 0 <= i < j < s.len() ==> s[i] < s[j]
}

pub open spec fn ints(v: Seq<usize>) -> Seq<int> {
    v.map_values(|x: usize| x as int)
}

/// A directed acyclic graph of `petgraph` (`Acyclic<DiGraph<usize, ()>>`)
/// whose node `i` is the `i`-th node added. The graph is held in a private
/// field: Verus does not take a declaration of `Acyclic`, whose parameter is
/// bound by a trait of `petgraph`.
#[verifier::external_body]
pub struct Dag {
    graph: Acyclic<DiGraph<usize, ()>>,
}

/// The number of nodes of a graph.
pub uninterp spec fn dag_len(g: Dag) -> nat;

/// The edges of a graph, in the order they were added.
pub uninterp spec fn dag_edges(g: Dag) -> Seq<(int, int)>;

/// The order in which `petgraph::algo::toposort` lists the nodes of a graph
/// with `n` nodes and these edges (added in this order).
pub uninterp spec fn toposort_of(n: nat, edges: Seq<(int, int)>) -> Seq<int>;

/// An empty graph (`Acyclic::new`).
#[verifier::external_body]
pub(crate) fn dag_new() -> (g: Dag)
    ensures
        dag_len(g) == 0,
        dag_edges(g) == Seq::<(int, int)>::empty(),
{
    Dag { graph: Acyclic::new() }
}

/// Adds a node (`Build::add_node` of `Acyclic`); its index is the number of
/// nodes before. `petgraph` refuses the last index of `u32`.
#[verifier::external_body]
pub(crate) fn dag_add_node(g: &mut Dag, weight: usize) -> (r: usize)
    requires
        dag_len(*old(g)) + 1 < 0xffff_ffff,
    ensures
        r == dag_len(*old(g)),
        dag_len(*final(g)) == dag_len(*old(g)) + 1,
        dag_edges(*final(g)) == dag_edges(*old(g)),
{
    g.graph.add_node(weight).index()
}

/// Adds the edge `a -> b` (`Acyclic::try_add_edge`). A self loop is refused
/// with `Err(None)`; an edge that would close a cycle, that is when `b`
/// already reaches `a`, with `Err(Some(b))` (the node that `petgraph`'s cycle
/// error names). A refused edge leaves the graph as it was. An edge that is
/// taken needs room for its index: `petgraph` panics when the graph already
/// holds `u32::MAX` edges.
#[verifier::external_body]
pub(crate) fn dag_try_add_edge(g: &mut Dag, a: usize, b: usize) -> (r: Result<(), Option<usize>>)
    requires
        a < dag_len(*old(g)),
        b < dag_len(*old(g)),
        (a != b && !dag_path(dag_edges(*old(g)), b as int, a as int)) ==> dag_edges(*old(g)).len() < 0xffff_ffff,
    ensures
        dag_len(*final(g)) == dag_len(*old(g)),
        (a == b) ==> (r == Err::<(), Option<usize>>(None)),
        (a != b && dag_path(dag_edges(*old(g)), b as int, a as int)) ==> (r == Err::<(), Option<usize>>(Some(b))),
        (a != b && !dag_path(dag_edges(*old(g)), b as int, a as int)) ==> (r is Ok),
        r is Ok ==> dag_edges(*final(g)) == dag_edges(*old(g)).push((a as int, b as int)),
        r is Err ==> dag_edges(*final(g)) == dag_edges(*old(g)),
{
    match g.graph.try_add_edge(NodeIndex::new(a), NodeIndex::new(b), ()) {
        Ok(_) => Ok(()),
        Err(AcyclicEdgeError::Cycle(c)) => Err(Some(c.node_id().index())),
        Err(AcyclicEdgeError::SelfLoop) => Err(None),
        Err(AcyclicEdgeError::InvalidEdge) => Err(None),
    }
}

/// The nodes in topological order (`petgraph::algo::toposort`); a graph of
/// `Acyclic` has no cycle, so the sort succeeds.
#[verifier::external_body]
pub(crate) fn dag_toposort(g: &Dag) -> (r: Option<Vec<usize>>)
    ensures
        r is Some,
        r matches Some(t) ==> ints(t@) == toposort_of(dag_len(*g), dag_edges(*g)),
        r matches Some(t) ==> is_topo_order(dag_len(*g), dag_edges(*g), ints(t@)),
{
    match petgraph::algo::toposort(&g.graph, None) {
        Ok(t) => Some(t.into_iter().map(|x| x.index()).collect()),
        Err(_) => None,
    }
}

/// Adjacency lists of `petgraph` (`List<(), NodeIndex>`), held like `Dag`:
/// `List` too has a parameter bound by a trait of `petgraph`.
#[verifier::external_body]
pub struct RankedList {
    list: List<(), NodeIndex>,
}

/// The successors of each node, in the order they are stored.
pub uninterp spec fn ranked_adj(l: RankedList) -> Seq<Seq<int>>;

/// The graph `g` with each node renamed by its place in the topological order
/// `topo`, each node's successors in ascending order
/// (`petgraph::algo::tred::dag_to_toposorted_adjacency_list`); with the place
/// of each node.
#[verifier::external_body]
pub(crate) fn dag_ranked(g: &Dag, topo: &Vec<usize>) -> (r: (RankedList, Vec<usize>))
    requires
        is_topo_order(dag_len(*g), dag_edges(*g), ints(topo@)),
        dag_edges(*g).no_duplicates(),
    ensures
        ranked_adj(r.0).len() == dag_len(*g),
        forall|p: int| 0 <= p < dag_len(*g) ==> increasing(#[trigger] ranked_adj(r.0)[p]),
        forall|p: int, x: int| 0 <= p < dag_len(*g) ==> (ranked_adj(r.0)[p].contains(x) <==> (0 <= x < dag_len(*g)
            && dag_edges(*g).contains((topo@[p] as int, topo@[x] as int)))),
        r.1@.len() == dag_len(*g),
        forall|p: int| 0 <= p < dag_len(*g) ==> r.1@[#[trigger] topo@[p] as int] == p,
{
    let order: Vec<NodeIndex> = topo.iter().map(|x| NodeIndex::new(*x)).collect();
    let (list, revmap) = petgraph::algo::tred::dag_to_toposorted_adjacency_list::<_, NodeIndex>(&g.graph, &order);
    (RankedList { list }, revmap.into_iter().map(|x| x.index()).collect())
}

/// There is a walk from `a` to `b` along the adjacency lists.
pub open spec fn ranked_path(adj: Seq<Seq<int>>, a: int, b: int) -> bool {
    exists|p: Seq<int>| p.len() >= 1 && p[0] == a && p.last() == b && forall|k: int|
        0 <= k < p.len() - 1 ==> 0 <= p[k] < adj.len() && adj[p[k]].contains(#[trigger] p[k + 1])
}

/// Every successor comes later: the lists are ranked in topological order.
pub open spec fn ranked(adj: Seq<Seq<int>>) -> bool {
    &&& forall|p: int| 0 <= p < adj.len() ==> increasing(#[trigger] adj[p])
    &&& forall|p: int, x: int| 0 <= p < adj.len() && adj[p].contains(x) ==> p < x < adj.len()
}

/// The transitive reduction of a ranked graph
/// (`petgraph::algo::tred::dag_transitive_reduction_closure`, whose closure
/// is not kept): of the successors of each node, those that no other
/// successor reaches, in the same order.
#[verifier::external_body]
pub(crate) fn dag_tred(l: &RankedList) -> (r: RankedList)
    requires
        ranked(ranked_adj(*l)),
    ensures
        ranked_adj(r).len() == ranked_adj(*l).len(),
        forall|p: int| 0 <= p < ranked_adj(*l).len() ==> increasing(#[trigger] ranked_adj(r)[p]),
        forall|p: int, x: int| 0 <= p < ranked_adj(*l).len() ==> (ranked_adj(r)[p].contains(x) <==> (
            ranked_adj(*l)[p].contains(x) && !exists|y: int| ranked_adj(*l)[p].contains(y) && y != x
                && ranked_path(ranked_adj(*l), y, x))),
{
    let (list, _closure) = petgraph::algo::tred::dag_transitive_reduction_closure(&l.list);
    RankedList { list }
}

/// The successors of node `p` (`IntoEdges::edges`), in the order stored.
#[verifier::external_body]
pub(crate) fn ranked_successors(l: &RankedList, p: usize) -> (r: Vec<usize>)
    requires
        p < ranked_adj(*l).len(),
    ensures
        ints(r@) == ranked_adj(*l)[p as int],
{
    (&l.list).edges(NodeIndex::new(p)).map(|e| e.target().index()).collect()
}

} // verus!
