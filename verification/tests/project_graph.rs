use dbe_backend::project_graph::{GraphError, ProjectGraph, ProjectGraphs};

#[test]
fn graphs_are_added_once_per_id() {
    let mut graphs: ProjectGraphs<Vec<u8>> = ProjectGraphs::new();
    let g = ProjectGraph::new(7, vec![1]);
    assert_eq!(graphs.add_graph("a.dbegraph".to_string(), g), Ok(7));
    let again = ProjectGraph::new(7, vec![2]);
    assert_eq!(
        graphs.add_graph("b.dbegraph".to_string(), again),
        Err(GraphError::AlreadyExists {
            id: 7,
            other_path: "a.dbegraph".to_string()
        })
    );
    assert_eq!(graphs.graphs[&7].graph(), &vec![1]);
}

#[test]
fn new_graphs_take_free_ids() {
    let mut graphs: ProjectGraphs<Vec<u8>> = ProjectGraphs::new();
    assert!(graphs.try_insert_new_graph(3));
    assert!(!graphs.try_insert_new_graph(3));
    assert_eq!(graphs.graphs.len(), 1);
    // a graph added without its file is reported as of an unknown file
    let g = ProjectGraph::new(3, vec![]);
    assert_eq!(
        graphs.add_graph("c.dbegraph".to_string(), g),
        Err(GraphError::AlreadyExists {
            id: 3,
            other_path: "unknown file".to_string()
        })
    );
}

#[test]
fn display_names() {
    let mut g = ProjectGraph::new(1, ());
    assert_eq!(g.display_name(), "Graph 00000000-0000-0000-0000-000000000001");
    g.name = "  My graph ".to_string();
    assert_eq!(g.display_name(), "My graph");
}

#[test]
fn graphs_are_taken_out_and_put_back() {
    let mut g = ProjectGraph::new(1, 5u32);
    assert!(!g.is_editing());
    let taken = g.take_graph();
    assert!(g.is_editing());
    assert_eq!(*taken, 5);
    g.return_graph(Box::new(6));
    assert!(!g.is_editing());
    assert_eq!(*g.graph(), 6);
}
