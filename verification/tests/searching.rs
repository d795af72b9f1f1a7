use graph::Graph;

fn graph_with(nodes: u32, edges: &[(usize, usize)]) -> Graph<u32> {
    let mut graph = Graph::new();
    for payload in 0..nodes {
        graph.add(payload);
    }
    for (from, to) in edges {
        graph.create_ref(*from, *to).unwrap();
    }
    graph
}

fn sample_graph() -> Graph<u32> {
    graph_with(5, &[(0, 2), (0, 4), (2, 1), (1, 4), (4, 3), (1, 3)])
}

fn way(graph: &Graph<u32>, origin: usize, target: usize) -> Option<Vec<usize>> {
    graph.find_shortest_way(origin, target).map(|route| route.nodes().clone())
}

/// The fewest edges on any walk from `origin` to `target`, found by trying
/// every walk of up to as many edges as the graph has nodes.
fn fewest_edges(graph: &Graph<u32>, origin: usize, target: usize) -> Option<usize> {
    let mut ends = vec![origin];
    for edges in 1..=graph.len().max(1) {
        let mut next = Vec::new();
        for end in &ends {
            if let Some(list) = graph.successors(*end) {
                next.extend(list.iter().copied());
            }
        }
        next.sort();
        next.dedup();
        if next.contains(&target) {
            return Some(edges);
        }
        ends = next;
    }
    None
}

#[test]
fn sample_graph_shortest_way_has_two_edges() {
    let graph = sample_graph();
    let route = graph.find_shortest_way(0, 3).unwrap();
    assert_eq!(route.len(), 3);
    assert_eq!(route.nodes(), &vec![0, 4, 3]);
    assert_eq!(*route.head(), 3);
}

#[test]
fn sample_graph_has_no_way_back_from_sink() {
    let graph = sample_graph();
    assert!(graph.find_shortest_way(3, 0).is_none());
    assert!(graph.find_shortest_way(3, 3).is_none());
}

#[test]
fn self_loop_does_not_trap_the_search() {
    let mut graph = sample_graph();
    graph.create_ref(1, 1).unwrap();
    assert_eq!(way(&graph, 0, 3), Some(vec![0, 4, 3]));
    assert_eq!(way(&graph, 1, 0), None);
    assert_eq!(way(&graph, 2, 3), Some(vec![2, 1, 3]));
}

#[test]
fn cycle_does_not_trap_the_search() {
    let graph = graph_with(4, &[(0, 1), (1, 2), (2, 0)]);
    assert_eq!(way(&graph, 0, 3), None);
    assert_eq!(way(&graph, 1, 0), Some(vec![1, 2, 0]));
}

#[test]
fn missing_origin_gives_none() {
    let graph = sample_graph();
    assert!(graph.find_shortest_way(5, 0).is_none());
    assert!(graph.find_shortest_way(usize::MAX, 3).is_none());
    let empty: Graph<u32> = Graph::new();
    assert!(empty.find_shortest_way(0, 0).is_none());
}

#[test]
fn missing_target_gives_none() {
    let graph = sample_graph();
    assert!(graph.find_shortest_way(0, 5).is_none());
    assert!(graph.find_shortest_way(0, usize::MAX).is_none());
}

#[test]
fn unreachable_target_gives_none() {
    let graph = graph_with(4, &[(0, 1), (2, 3)]);
    assert_eq!(way(&graph, 0, 3), None);
    assert_eq!(way(&graph, 0, 2), None);
    assert_eq!(way(&graph, 1, 0), None);
}

#[test]
fn direct_edge_is_found() {
    let graph = graph_with(2, &[(0, 1)]);
    assert_eq!(way(&graph, 0, 1), Some(vec![0, 1]));
}

#[test]
fn way_begins_at_origin_and_ends_at_target() {
    let graph = sample_graph();
    for origin in 0..5 {
        for target in 0..5 {
            if let Some(route) = graph.find_shortest_way(origin, target) {
                assert_eq!(route.nodes()[0], origin);
                assert_eq!(*route.head(), target);
                assert_eq!(*route.nodes().last().unwrap(), target);
                assert!(route.len() >= 2);
            }
        }
    }
}

#[test]
fn way_follows_edges_of_the_graph() {
    let graph = sample_graph();
    for origin in 0..5 {
        for target in 0..5 {
            if let Some(route) = graph.find_shortest_way(origin, target) {
                for pair in route.nodes().windows(2) {
                    assert!(graph.successors(pair[0]).unwrap().contains(&pair[1]));
                }
            }
        }
    }
}

#[test]
fn way_has_fewest_edges_in_sample_graph() {
    let graph = sample_graph();
    for origin in 0..6 {
        for target in 0..6 {
            let found = graph.find_shortest_way(origin, target).map(|route| route.len() - 1);
            assert_eq!(found, fewest_edges(&graph, origin, target));
        }
    }
}

#[test]
fn way_has_fewest_edges_with_cycles_and_parallel_ways() {
    let graph = graph_with(
        8,
        &[
            (0, 1), (1, 2), (2, 3), (3, 4), (4, 5), (5, 6), (6, 7),
            (2, 0), (3, 1), (1, 1), (0, 3), (3, 6), (5, 2), (7, 0), (4, 4),
        ],
    );
    assert_eq!(way(&graph, 0, 7), Some(vec![0, 3, 6, 7]));
    for origin in 0..8 {
        for target in 0..8 {
            let found = graph.find_shortest_way(origin, target).map(|route| route.len() - 1);
            assert_eq!(found, fewest_edges(&graph, origin, target));
        }
    }
}

#[test]
fn longer_way_is_taken_when_it_is_the_only_one() {
    let graph = graph_with(5, &[(0, 2), (2, 1), (1, 3), (1, 4)]);
    assert_eq!(way(&graph, 0, 3), Some(vec![0, 2, 1, 3]));
    assert_eq!(way(&graph, 0, 4), Some(vec![0, 2, 1, 4]));
}

#[test]
fn of_equal_ways_the_edge_created_first_wins() {
    let first = graph_with(4, &[(0, 1), (0, 2), (1, 3), (2, 3)]);
    assert_eq!(way(&first, 0, 3), Some(vec![0, 1, 3]));
    let second = graph_with(4, &[(0, 2), (0, 1), (1, 3), (2, 3)]);
    assert_eq!(way(&second, 0, 3), Some(vec![0, 2, 3]));
}

#[test]
fn of_equal_ways_the_earlier_stem_wins() {
    let graph = graph_with(6, &[(0, 1), (0, 2), (1, 3), (2, 4), (4, 5), (3, 5)]);
    assert_eq!(way(&graph, 0, 5), Some(vec![0, 1, 3, 5]));
    let graph = graph_with(6, &[(0, 2), (0, 1), (1, 3), (2, 4), (3, 5), (4, 5)]);
    assert_eq!(way(&graph, 0, 5), Some(vec![0, 2, 4, 5]));
}

#[test]
fn node_expanded_once_still_yields_first_way() {
    let graph = graph_with(5, &[(0, 1), (0, 2), (1, 3), (2, 3), (3, 4)]);
    assert_eq!(way(&graph, 0, 4), Some(vec![0, 1, 3, 4]));
}

#[test]
fn way_to_itself_needs_a_cycle() {
    let line = graph_with(3, &[(0, 1), (1, 2)]);
    assert_eq!(way(&line, 0, 0), None);
    assert_eq!(way(&line, 1, 1), None);
    let ring = graph_with(3, &[(0, 1), (1, 2), (2, 0)]);
    assert_eq!(way(&ring, 0, 0), Some(vec![0, 1, 2, 0]));
    assert_eq!(way(&ring, 2, 2), Some(vec![2, 0, 1, 2]));
}

#[test]
fn way_to_itself_over_a_self_loop() {
    let graph = graph_with(2, &[(0, 1), (1, 1)]);
    assert_eq!(way(&graph, 1, 1), Some(vec![1, 1]));
    assert_eq!(way(&graph, 0, 1), Some(vec![0, 1]));
    assert_eq!(way(&graph, 0, 0), None);
}

#[test]
fn search_leaves_the_graph_as_it_was() {
    let graph = sample_graph();
    let before: Vec<Option<Vec<usize>>> = (0..6).map(|v| graph.successors(v).cloned()).collect();
    let first = way(&graph, 0, 3);
    let again = way(&graph, 0, 3);
    assert_eq!(first, again);
    let after: Vec<Option<Vec<usize>>> = (0..6).map(|v| graph.successors(v).cloned()).collect();
    assert_eq!(before, after);
    assert_eq!(graph.len(), 5);
}

#[test]
fn search_in_a_dense_graph_ends() {
    let mut edges = Vec::new();
    for from in 0..12usize {
        for to in 0..12usize {
            edges.push((from, to));
        }
    }
    let graph = graph_with(13, &edges);
    assert_eq!(way(&graph, 0, 11), Some(vec![0, 11]));
    assert_eq!(way(&graph, 3, 3), Some(vec![3, 3]));
    assert_eq!(way(&graph, 0, 12), None);
}

#[test]
fn search_along_a_long_chain() {
    let edges: Vec<(usize, usize)> = (0..199usize).map(|v| (v, v + 1)).collect();
    let graph = graph_with(200, &edges);
    let route = graph.find_shortest_way(0, 199).unwrap();
    assert_eq!(route.len(), 200);
    assert_eq!(route.nodes(), &(0..200usize).collect::<Vec<usize>>());
    assert!(graph.find_shortest_way(199, 0).is_none());
}

/// The first walk from `origin` to `target` when every walk is written out,
/// shortest first and the steps of each in the order of the edges.
fn first_walk_by_enumeration(
    graph: &Graph<u32>,
    origin: usize,
    target: usize,
) -> Option<Vec<usize>> {
    let mut level = vec![vec![origin]];
    for _ in 0..graph.len() {
        let mut next = Vec::new();
        for walk in &level {
            let end = *walk.last().unwrap();
            for successor in graph.successors(end).into_iter().flatten() {
                let mut longer = walk.clone();
                longer.push(*successor);
                if *successor == target {
                    return Some(longer);
                }
                next.push(longer);
            }
        }
        level = next;
    }
    None
}

#[test]
fn first_way_matches_enumeration_of_all_walks() {
    let mut state: u64 = 0x2545_f491_4f6c_dd1d;
    let mut draw = |bound: u64| {
        state = state.wrapping_mul(6364136223846793005).wrapping_add(1442695040888963407);
        ((state >> 33) % bound) as usize
    };
    for _ in 0..200 {
        let nodes = 1 + draw(6);
        let mut edges = Vec::new();
        for _ in 0..draw(10) {
            edges.push((draw(nodes as u64), draw(nodes as u64)));
        }
        let graph = graph_with(nodes as u32, &edges);
        for origin in 0..nodes + 1 {
            for target in 0..nodes + 1 {
                assert_eq!(
                    way(&graph, origin, target),
                    first_walk_by_enumeration(&graph, origin, target),
                );
            }
        }
    }
}
