use dbe_backend::region_graph::{GraphNode, GraphRegionBuildError, NodeGraph, NodeWithSeparation, RegionGraph, Wire};

fn node(id: usize, source: Option<u128>, end: Option<u128>) -> GraphNode {
    GraphNode { id, region_source: source, region_end: end, has_side_effects: false }
}

fn wire(from: usize, to: usize) -> Wire {
    Wire { from, to }
}

fn sep(node: usize, separation: usize) -> NodeWithSeparation {
    NodeWithSeparation { node, separation }
}

const A: u128 = 100;
const B: u128 = 200;
const C: u128 = 300;

#[test]
fn single_region() {
    let g = NodeGraph {
        nodes: vec![node(10, Some(A), None), node(11, None, None), node(12, None, Some(A)), node(13, None, None)],
        wires: vec![wire(10, 11), wire(11, 12), wire(12, 13)],
    };
    let rg = RegionGraph::build_regions_graph(&g);
    assert!(rg.is_ready());
    assert_eq!(rg.expect_ready(), Ok(()));
    let data = rg.try_as_data().unwrap();
    assert_eq!(data.ordered_regions(), &vec![A]);
    assert_eq!(data.region_nodes(A), &vec![sep(10, 0), sep(11, 0), sep(12, 0)]);
    assert_eq!(data.region_parents(A), &Vec::<u128>::new());
    assert_eq!(data.node_region(11), Some(A));
    assert_eq!(data.node_region(13), None);
    let r = data.region_data(A);
    assert_eq!(r.start_node, 10);
    assert_eq!(r.end_node, 12);
    assert!(!r.has_side_effects);
}

#[test]
fn nested_regions() {
    let mut nodes = vec![node(0, Some(A), None), node(1, Some(B), None), node(2, None, Some(B)), node(3, None, Some(A))];
    nodes[2].has_side_effects = true;
    let g = NodeGraph { nodes, wires: vec![wire(0, 1), wire(1, 2), wire(2, 3)] };
    let rg = RegionGraph::build_regions_graph(&g);
    let data = rg.try_as_data().unwrap();
    assert_eq!(data.ordered_regions(), &vec![A, B]);
    assert_eq!(data.region_parents(B), &vec![A]);
    assert_eq!(data.region_parents(A), &Vec::<u128>::new());
    assert_eq!(data.region_nodes(B), &vec![sep(1, 0), sep(2, 0)]);
    assert_eq!(data.region_nodes(A), &vec![sep(0, 0), sep(1, 1), sep(2, 1), sep(3, 0)]);
    assert_eq!(data.node_region(0), Some(A));
    assert_eq!(data.node_region(1), Some(B));
    assert_eq!(data.node_region(2), Some(B));
    assert_eq!(data.node_region(3), Some(A));
    assert!(data.region_data(B).has_side_effects);
    assert!(data.region_data(A).has_side_effects);
}

#[test]
fn wire_cycles_are_refused() {
    let g = NodeGraph { nodes: vec![node(0, None, None), node(1, None, None)], wires: vec![wire(0, 1), wire(1, 0)] };
    let rg = RegionGraph::build_regions_graph(&g);
    assert_eq!(rg.try_as_data().err(), Some(GraphRegionBuildError::NodeCycle(1, 0)));
    assert!(rg.is_ready());
    let g = NodeGraph { nodes: vec![node(5, None, None)], wires: vec![wire(5, 5)] };
    let rg = RegionGraph::build_regions_graph(&g);
    assert_eq!(rg.try_as_data().err(), Some(GraphRegionBuildError::NodeSelfLoop(5)));
}

#[test]
fn region_ends_are_checked() {
    let g = NodeGraph { nodes: vec![node(0, Some(A), None), node(1, None, Some(A)), node(2, None, Some(A))], wires: vec![] };
    let rg = RegionGraph::build_regions_graph(&g);
    assert_eq!(rg.try_as_data().err(), Some(GraphRegionBuildError::MultipleEndpoints(A, 1, 2)));
    let g = NodeGraph { nodes: vec![node(0, Some(A), None), node(1, Some(A), None)], wires: vec![] };
    let rg = RegionGraph::build_regions_graph(&g);
    assert_eq!(rg.try_as_data().err(), Some(GraphRegionBuildError::MultipleSources(A, 0, 1)));
    let g = NodeGraph { nodes: vec![node(0, Some(A), None)], wires: vec![] };
    let rg = RegionGraph::build_regions_graph(&g);
    assert_eq!(rg.try_as_data().err(), Some(GraphRegionBuildError::MissingEndpoint(A, 0)));
    let g = NodeGraph { nodes: vec![node(3, None, Some(A))], wires: vec![] };
    let rg = RegionGraph::build_regions_graph(&g);
    assert_eq!(rg.try_as_data().err(), Some(GraphRegionBuildError::MissingSource(A, 3)));
    let g = NodeGraph { nodes: vec![node(4, Some(A), Some(A))], wires: vec![] };
    let rg = RegionGraph::build_regions_graph(&g);
    assert_eq!(rg.try_as_data().err(), Some(GraphRegionBuildError::SameSourceAndEndpoint(A, 4)));
}

#[test]
fn node_in_two_unrelated_regions_is_ambiguous() {
    let g = NodeGraph {
        nodes: vec![
            node(0, Some(A), None),
            node(1, None, Some(A)),
            node(2, Some(B), None),
            node(3, None, Some(B)),
            node(4, None, None),
        ],
        wires: vec![wire(0, 1), wire(2, 3), wire(0, 4), wire(2, 4)],
    };
    let rg = RegionGraph::build_regions_graph(&g);
    match rg.try_as_data().err() {
        Some(GraphRegionBuildError::AmbiguousNodeRegion { node, mut regions }) => {
            assert_eq!(node, 4);
            regions.sort();
            assert_eq!(regions, vec![(A, 0), (B, 2)]);
        }
        other => panic!("unexpected result: {:?}", other),
    }
}

#[test]
fn regions_that_enclose_each_other_are_refused() {
    // each region's end is reached from the other's start
    let g = NodeGraph {
        nodes: vec![node(0, Some(A), None), node(1, Some(B), None), node(2, None, Some(A)), node(3, None, Some(B))],
        wires: vec![wire(0, 3), wire(1, 2)],
    };
    let rg = RegionGraph::build_regions_graph(&g);
    assert_eq!(
        rg.try_as_data().err(),
        Some(GraphRegionBuildError::CyclicalDependency { a: (B, 1), b: (A, 0) })
    );
}

#[test]
fn readiness() {
    let mut rg = RegionGraph::default();
    assert!(!rg.is_ready());
    assert_eq!(rg.expect_ready(), Err(GraphRegionBuildError::NotReady));
    let g = NodeGraph { nodes: vec![node(0, None, None)], wires: vec![] };
    rg.ensure_ready(&g);
    assert!(rg.is_ready());
    assert_eq!(rg.try_as_data().unwrap().ordered_regions(), &Vec::<u128>::new());
    rg.mark_dirty();
    assert_eq!(rg.expect_ready(), Err(GraphRegionBuildError::Dirty));
    rg.force_rebuild(&g);
    assert_eq!(rg.expect_ready(), Ok(()));
}

#[test]
fn parents_are_the_chain_of_enclosing_regions() {
    let nodes = vec![
        node(0, Some(A), None),
        node(1, Some(B), None),
        node(2, Some(C), None),
        node(3, None, Some(C)),
        node(4, None, Some(B)),
        node(5, None, Some(A)),
    ];
    let g = NodeGraph { nodes, wires: vec![wire(0, 1), wire(1, 2), wire(2, 3), wire(3, 4), wire(4, 5)] };
    let rg = RegionGraph::build_regions_graph(&g);
    let data = rg.try_as_data().unwrap();
    assert_eq!(data.ordered_regions(), &vec![A, B, C]);
    assert_eq!(data.region_parents(C), &vec![B, A]);
    assert_eq!(data.region_parents(B), &vec![A]);
    assert_eq!(data.region_parents(A), &Vec::<u128>::new());
    assert_eq!(data.region_nodes(A), &vec![sep(0, 0), sep(1, 1), sep(2, 2), sep(3, 2), sep(4, 1), sep(5, 0)]);
    assert_eq!(data.region_data(C).start_node, 2);
    assert_eq!(data.region_data(C).end_node, 3);
}

#[test]
fn a_graph_made_ready_is_ready() {
    let g = NodeGraph { nodes: vec![node(0, None, None)], wires: vec![] };
    let mut rg = RegionGraph::default();
    assert!(!rg.is_ready());
    rg.ensure_ready(&g);
    assert!(rg.is_ready());
    assert_eq!(rg.expect_ready(), Ok(()));
    rg.mark_dirty();
    assert!(!rg.is_ready());
    rg.ensure_ready(&g);
    assert!(rg.is_ready());
}
