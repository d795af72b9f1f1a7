//! A small graph to try the library on: five nodes, six edges, and the
//! shortest way from the first node to the fourth.

use crate::graph::Graph;
use crate::route::Route;
use vstd::prelude::*;

verus! {

/// The payload that the nodes of the sample graph carry.
#[derive(Hash, Debug, PartialEq, Eq)]
pub struct MyType {
    pub field1: String,
    pub field2: i32,
}

/// The edges of the sample graph.
pub open spec fn sample_edges() -> Map<usize, Seq<usize>> {
    Map::empty().insert(0usize, seq![2usize, 4usize]).insert(1usize, seq![4usize, 3usize]).insert(
        2usize,
        seq![1usize],
    ).insert(3usize, Seq::empty()).insert(4usize, seq![3usize])
}

/// The numbers that the nodes of the sample graph carry, by index.
pub open spec fn sample_numbers() -> Seq<i32> {
    seq![0i32, 1i32, 2i32, 3i32, 5i32]
}

/// Builds the sample graph.
pub fn sample_graph() -> (graph: Graph<MyType>)
    ensures
        graph.wf(),
        graph@.edges == sample_edges(),
        graph@.nodes.len() == 5,
        forall|i: int|
            0 <= i < 5 ==> (#[trigger] graph@.nodes[i]).field2 == sample_numbers()[i]
                && graph@.nodes[i].field1@ == Seq::<char>::empty(),
{
    let mut graph = Graph::new();

    let elem1 = MyType { field1: String::new(), field2: 0 };
    let elem2 = MyType { field1: String::new(), field2: 1 };
    let elem3 = MyType { field1: String::new(), field2: 2 };
    let elem4 = MyType { field1: String::new(), field2: 3 };
    let elem5 = MyType { field1: String::new(), field2: 5 };

    let node0 = graph.add(elem1);
    let node1 = graph.add(elem2);
    let node2 = graph.add(elem3);
    let node3 = graph.add(elem4);
    let node4 = graph.add(elem5);

    graph.create_ref(node0, node2).unwrap();
    assert(graph@.edges[0] =~= seq![2usize]);
    graph.create_ref(node0, node4).unwrap();
    assert(graph@.edges[0] =~= seq![2usize, 4usize]);
    graph.create_ref(node2, node1).unwrap();
    assert(graph@.edges[2] =~= seq![1usize]);
    graph.create_ref(node1, node4).unwrap();
    assert(graph@.edges[1] =~= seq![4usize]);
    graph.create_ref(node4, node3).unwrap();
    assert(graph@.edges[4] =~= seq![3usize]);
    graph.create_ref(node1, node3).unwrap();
    assert(graph@.edges[1] =~= seq![4usize, 3usize]);

    assert(graph@.edges =~= sample_edges());
    graph
}

/// The shortest way in the sample graph from node 0 to node 3: over node 4.
pub fn sample_way() -> (found: Option<Route<usize>>)
    ensures
        found matches Some(route) && route@ == seq![0usize, 4usize, 3usize],
{
    let graph = sample_graph();
    let found = graph.find_shortest_way(0, 3);
    proof {
        let g = graph@;
        let over_four = seq![0usize, 4usize, 3usize];
        assert(g.has_edge(0, 4)) by {
            assert(g.edges[0][1] == 4);
        }
        assert(g.has_edge(4, 3)) by {
            assert(g.edges[4][0] == 3);
        }
        assert(g.connects(over_four, 0, 3));
        let route = found->0@;
        if route != over_four {
            // A walk explored before the one over 4 has at most two edges.
            // No edge leads from 0 to 3, and of the successors of 0 only 4
            // has an edge to 3, so there is no such walk.
            assert(g.explored_before(route, over_four));
            assert(g.has_edge(route[0], route[0int + 1]));
            if route.len() == 3 {
                assert(g.has_edge(route[1], route[1int + 1]));
                assert(route =~= over_four);
            }
        }
    }
    found
}

} // verus!
