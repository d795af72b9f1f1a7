//! What holds of every graph, whatever was added to it and in whatever order.

use crate::model::GraphView;
use crate::order::{lemma_explored_before_asymmetric, lemma_explored_before_length};
use vstd::prelude::*;

verus! {

/// A new node gets the number of nodes there were before as its index, and an
/// adjacency entry without successors. The nodes that were there keep their
/// payloads and their successors, and the graph stays well formed.
pub proof fn lemma_with_node<T>(g: GraphView<T>, payload: T)
    requires
        g.wf(),
        g.nodes.len() < usize::MAX,
    ensures
        g.with_node(payload).wf(),
        g.with_node(payload).nodes.len() == g.nodes.len() + 1,
        g.with_node(payload).nodes[g.nodes.len() as int] == payload,
        g.with_node(payload).has_node(g.nodes.len() as usize),
        g.with_node(payload).edges[g.nodes.len() as usize] == Seq::<usize>::empty(),
        forall|v: usize|
            g.has_node(v) ==> g.with_node(payload).nodes[v as int] == g.nodes[v as int]
                && #[trigger] g.with_node(payload).edges[v] == g.edges[v],
{
    let after = g.with_node(payload);
    assert forall|v: usize, k: int|
        after.edges.contains_key(v) && 0 <= k < after.edges[v].len() implies #[trigger] after.edges[v][k]
        < after.nodes.len() by {
        assert(g.edges[v][k] < g.nodes.len());
    }
}

/// Nodes added one after another are numbered in the order they were added:
/// the one added after `k` others gets the index that is `k` above the number
/// of nodes the graph had at the start, and has no successors. Starting from
/// the empty graph the indices are 0, 1, 2 and so on.
pub proof fn lemma_nodes_numbered_in_order<T>(g: GraphView<T>, payloads: Seq<T>)
    requires
        g.wf(),
        g.nodes.len() + payloads.len() <= usize::MAX,
    ensures
        g.with_nodes(payloads).wf(),
        g.with_nodes(payloads).nodes == g.nodes + payloads,
        forall|k: int|
            0 <= k < payloads.len() ==> (#[trigger] g.with_nodes(payloads.take(k))).nodes.len()
                == g.nodes.len() + k,
        forall|k: int|
            0 <= k < payloads.len() ==> #[trigger] g.with_nodes(payloads).edges[(g.nodes.len()
                + k) as usize] == Seq::<usize>::empty(),
        forall|v: usize| g.has_node(v) ==> #[trigger] g.with_nodes(payloads).edges[v] == g.edges[v],
    decreases payloads.len(),
{
    if payloads.len() > 0 {
        let earlier = payloads.drop_last();
        lemma_nodes_numbered_in_order(g, earlier);
        lemma_with_node(g.with_nodes(earlier), payloads.last());
        assert(g.nodes + payloads =~= (g.nodes + earlier).push(payloads.last()));
        assert forall|k: int| 0 <= k < payloads.len() implies (#[trigger] g.with_nodes(
            payloads.take(k),
        )).nodes.len() == g.nodes.len() + k by {
            if k < earlier.len() {
                assert(payloads.take(k) =~= earlier.take(k));
            } else {
                assert(payloads.take(k) =~= earlier);
            }
        }
    } else {
        assert(g.nodes + payloads =~= g.nodes);
    }
}

/// An attempt to create an edge keeps the graph well formed and its nodes as
/// they were.
pub proof fn lemma_with_edge_wf<T>(g: GraphView<T>, from: usize, to: usize)
    requires
        g.wf(),
    ensures
        g.with_edge(from, to).wf(),
        g.with_edge(from, to).nodes == g.nodes,
{
    let after = g.with_edge(from, to);
    if g.missing_vertex(from, to) is None && !g.has_edge(from, to) {
        let list = g.edges[from];
        assert forall|v: usize, k: int|
            after.edges.contains_key(v) && 0 <= k < after.edges[v].len() implies #[trigger] after.edges[v][k]
            < after.nodes.len() by {
            if v != from {
                assert(g.edges[v][k] < g.nodes.len());
            } else if k < list.len() {
                assert(list[k] < g.nodes.len());
            }
        }
        assert(list.push(to).no_duplicates()) by {
            assert forall|i: int| 0 <= i < list.len() implies list[i] != to by {
                assert(list.contains(list[i]));
            }
        }
    }
}

/// Where both endpoints are nodes, creating an edge adds that edge and no
/// other: edges have a direction, and the edge back is not implied.
pub proof fn lemma_with_edge_adds_one_edge<T>(
    g: GraphView<T>,
    from: usize,
    to: usize,
    a: usize,
    b: usize,
)
    requires
        g.wf(),
        g.missing_vertex(from, to) is None,
    ensures
        g.with_edge(from, to).has_edge(a, b) <==> g.has_edge(a, b) || (a == from && b == to),
{
    if !g.has_edge(from, to) && a == from {
        let list = g.edges[from];
        let longer = list.push(to);
        assert(longer[list.len() as int] == to);
        if list.contains(b) {
            assert(longer[list.index_of(b)] == b);
        }
        if longer.contains(b) && b != to {
            assert(list[longer.index_of(b)] == b);
        }
    }
}

/// Creating an edge twice leaves the graph as creating it once does.
pub proof fn lemma_with_edge_idempotent<T>(g: GraphView<T>, from: usize, to: usize)
    ensures
        g.with_edge(from, to).with_edge(from, to) == g.with_edge(from, to),
{
    if g.missing_vertex(from, to) is None && !g.has_edge(from, to) {
        let longer = g.edges[from].push(to);
        assert(longer[longer.len() - 1] == to);
        assert(g.with_edge(from, to).has_edge(from, to));
    }
}

/// A walk of the graph is still one after an attempt to create an edge: the
/// shortest way between two nodes can only get shorter.
pub proof fn lemma_with_edge_keeps_walks<T>(
    g: GraphView<T>,
    from: usize,
    to: usize,
    walk: Seq<usize>,
)
    requires
        g.wf(),
        g.is_walk(walk),
    ensures
        g.with_edge(from, to).is_walk(walk),
{
    if g.missing_vertex(from, to) is None {
        assert forall|i: int| 0 <= i < walk.len() - 1 implies g.with_edge(from, to).has_edge(
            #[trigger] walk[i],
            walk[i + 1],
        ) by {
            lemma_with_edge_adds_one_edge(g, from, to, walk[i], walk[i + 1]);
        }
    }
}

/// An edge is the first walk from its source to its target.
pub proof fn lemma_edge_is_first_walk<T>(g: GraphView<T>, from: usize, to: usize)
    requires
        g.has_edge(from, to),
    ensures
        g.is_first_walk(seq![from, to], from, to),
{
    let edge = seq![from, to];
    assert forall|other: Seq<usize>| #[trigger]
        g.connects(other, from, to) && other != edge implies g.explored_before(edge, other) by {
        if other.len() == 2 {
            assert(other =~= edge);
        }
    }
}

/// There is no walk from an index that is no node, nor from a node without
/// successors.
pub proof fn lemma_no_walk_without_first_edge<T>(
    g: GraphView<T>,
    walk: Seq<usize>,
    origin: usize,
    target: usize,
)
    requires
        !g.has_node(origin) || g.edges[origin].len() == 0,
    ensures
        !g.connects(walk, origin, target),
{
    if g.connects(walk, origin, target) {
        assert(g.has_edge(walk[0], walk[0int + 1]));
    }
}

/// The first walk from `origin` to `target` has the fewest edges of all walks
/// between the two.
pub proof fn lemma_first_walk_is_shortest<T>(
    g: GraphView<T>,
    route: Seq<usize>,
    other: Seq<usize>,
    origin: usize,
    target: usize,
)
    requires
        g.is_first_walk(route, origin, target),
        g.connects(other, origin, target),
    ensures
        route.len() <= other.len(),
        route.first() == origin,
        route.last() == target,
{
    if other != route {
        lemma_explored_before_length(g, route, other);
    }
}

/// There is at most one first walk from `origin` to `target`.
pub proof fn lemma_first_walk_unique<T>(
    g: GraphView<T>,
    route: Seq<usize>,
    other: Seq<usize>,
    origin: usize,
    target: usize,
)
    requires
        g.is_first_walk(route, origin, target),
        g.is_first_walk(other, origin, target),
    ensures
        route == other,
{
    if route != other {
        lemma_explored_before_asymmetric(g, route, other);
    }
}

} // verus!
