use graph::sample::{sample_graph, sample_way, MyType};

#[test]
fn sample_graph_has_five_nodes_and_six_edges() {
    let graph = sample_graph();
    assert_eq!(graph.len(), 5);
    assert_eq!(graph.successors(0), Some(&vec![2, 4]));
    assert_eq!(graph.successors(1), Some(&vec![4, 3]));
    assert_eq!(graph.successors(2), Some(&vec![1]));
    assert_eq!(graph.successors(3), Some(&vec![]));
    assert_eq!(graph.successors(4), Some(&vec![3]));
    assert_eq!(graph.successors(5), None);
}

#[test]
fn sample_graph_carries_its_payloads() {
    let graph = sample_graph();
    let numbers = [0, 1, 2, 3, 5];
    for (index, number) in numbers.iter().enumerate() {
        let expected = MyType { field1: String::new(), field2: *number };
        assert_eq!(graph.node(index), Some(&expected));
    }
    assert_eq!(graph.node(5), None);
}

#[test]
fn sample_way_goes_over_node_four() {
    let route = sample_way().unwrap();
    assert_eq!(route.nodes(), &vec![0, 4, 3]);
    assert_eq!(route.len(), 3);
    assert_eq!(*route.head(), 3);
}

#[test]
fn sample_way_is_what_the_search_finds() {
    let graph = sample_graph();
    let found = graph.find_shortest_way(0, 3).unwrap();
    assert_eq!(found.nodes(), sample_way().unwrap().nodes());
    assert_eq!(format!("{:?}", sample_way()), "Some(Route([0, 4, 3]))");
}
