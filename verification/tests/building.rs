use graph::{Graph, GraphError};

#[test]
fn new_graph_has_no_nodes() {
    let graph: Graph<u8> = Graph::new();
    assert_eq!(graph.len(), 0);
    assert_eq!(graph.node(0), None);
    assert_eq!(graph.successors(0), None);
}

#[test]
fn add_returns_indices_in_insertion_order() {
    let mut graph = Graph::new();
    for expected in 0..20usize {
        let index = graph.add(format!("payload {expected}"));
        assert_eq!(index, expected);
        assert_eq!(graph.len(), expected + 1);
    }
}

#[test]
fn added_node_has_empty_adjacency_at_once() {
    let mut graph = Graph::new();
    for payload in [7u32, 7, 9] {
        let index = graph.add(payload);
        assert_eq!(graph.successors(index), Some(&vec![]));
        assert_eq!(graph.successors(index + 1), None);
    }
}

#[test]
fn add_keeps_payloads_and_edges_of_earlier_nodes() {
    let mut graph = Graph::new();
    let a = graph.add('a');
    let b = graph.add('b');
    graph.create_ref(a, b).unwrap();
    let c = graph.add('c');
    assert_eq!(graph.node(a), Some(&'a'));
    assert_eq!(graph.node(b), Some(&'b'));
    assert_eq!(graph.node(c), Some(&'c'));
    assert_eq!(graph.node(3), None);
    assert_eq!(graph.successors(a), Some(&vec![b]));
    assert_eq!(graph.successors(b), Some(&vec![]));
}

#[test]
fn equal_payloads_are_distinct_nodes() {
    let mut graph = Graph::new();
    assert_eq!(graph.add(5i32), 0);
    assert_eq!(graph.add(5i32), 1);
    assert_eq!(graph.len(), 2);
}

#[test]
fn create_ref_between_nodes_succeeds() {
    let mut graph = Graph::new();
    let a = graph.add(0u8);
    let b = graph.add(1u8);
    assert_eq!(graph.create_ref(a, b), Ok(()));
    assert_eq!(graph.successors(a), Some(&vec![b]));
}

#[test]
fn create_ref_keeps_creation_order() {
    let mut graph = Graph::new();
    for payload in 0..4u8 {
        graph.add(payload);
    }
    graph.create_ref(0, 3).unwrap();
    graph.create_ref(0, 1).unwrap();
    graph.create_ref(0, 2).unwrap();
    assert_eq!(graph.successors(0), Some(&vec![3, 1, 2]));
}

#[test]
fn create_ref_from_missing_node_fails() {
    let mut graph = Graph::new();
    graph.add(0u8);
    graph.add(1u8);
    assert_eq!(graph.create_ref(2, 0), Err(GraphError::NoVertex(2)));
    assert_eq!(graph.create_ref(usize::MAX, 0), Err(GraphError::NoVertex(usize::MAX)));
}

#[test]
fn create_ref_to_missing_node_fails() {
    let mut graph = Graph::new();
    graph.add(0u8);
    graph.add(1u8);
    assert_eq!(graph.create_ref(0, 2), Err(GraphError::NoVertex(2)));
    assert_eq!(graph.create_ref(1, 17), Err(GraphError::NoVertex(17)));
}

#[test]
fn create_ref_with_both_missing_names_the_source() {
    let mut graph = Graph::new();
    graph.add(0u8);
    assert_eq!(graph.create_ref(5, 6), Err(GraphError::NoVertex(5)));
}

#[test]
fn create_ref_on_empty_graph_fails() {
    let mut graph: Graph<u8> = Graph::new();
    assert_eq!(graph.create_ref(0, 0), Err(GraphError::NoVertex(0)));
}

#[test]
fn failed_create_ref_changes_nothing() {
    let mut graph = Graph::new();
    graph.add(0u8);
    graph.add(1u8);
    graph.create_ref(0, 1).unwrap();
    assert!(graph.create_ref(0, 2).is_err());
    assert!(graph.create_ref(2, 0).is_err());
    assert_eq!(graph.len(), 2);
    assert_eq!(graph.successors(0), Some(&vec![1]));
    assert_eq!(graph.successors(1), Some(&vec![]));
    assert_eq!(graph.successors(2), None);
}

#[test]
fn create_ref_twice_is_as_once() {
    let mut graph = Graph::new();
    for payload in 0..3u8 {
        graph.add(payload);
    }
    graph.create_ref(0, 1).unwrap();
    graph.create_ref(0, 2).unwrap();
    let once = graph.successors(0).cloned();
    assert_eq!(graph.create_ref(0, 1), Ok(()));
    assert_eq!(graph.create_ref(0, 2), Ok(()));
    assert_eq!(graph.successors(0).cloned(), once);
    assert_eq!(graph.successors(0), Some(&vec![1, 2]));
}

#[test]
fn create_ref_is_directed() {
    let mut graph = Graph::new();
    let a = graph.add(0u8);
    let b = graph.add(1u8);
    graph.create_ref(a, b).unwrap();
    assert_eq!(graph.successors(b), Some(&vec![]));
    assert!(graph.find_shortest_way(b, a).is_none());
}

#[test]
fn create_ref_does_not_touch_nodes() {
    let mut graph = Graph::new();
    let a = graph.add("left");
    let b = graph.add("right");
    graph.create_ref(a, b).unwrap();
    graph.create_ref(b, a).unwrap();
    assert_eq!(graph.len(), 2);
    assert_eq!(graph.node(a), Some(&"left"));
    assert_eq!(graph.node(b), Some(&"right"));
}

#[test]
fn self_loop_can_be_created() {
    let mut graph = Graph::new();
    let a = graph.add(0u8);
    assert_eq!(graph.create_ref(a, a), Ok(()));
    assert_eq!(graph.create_ref(a, a), Ok(()));
    assert_eq!(graph.successors(a), Some(&vec![a]));
}

#[test]
fn error_names_its_vertex_and_has_its_text() {
    let error = GraphError::NoVertex(12);
    assert_eq!(error.vertex(), 12);
    assert_eq!(error.message(), "Vertex not found");
    assert_eq!(format!("{:?}", error), "NoVertex(12)");
}
