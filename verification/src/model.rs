//! The mathematical view of a graph, and what walks and their order of
//! exploration are.

use vstd::prelude::*;

verus! {

/// What a graph holds, as mathematics: the payloads in the order they were
/// added, and for every node index the indices that its edges lead to, in the
/// order in which those edges were created.
pub struct GraphView<T> {
    pub nodes: Seq<T>,
    pub edges: Map<usize, Seq<usize>>,
}

impl<T> GraphView<T> {
    /// The graph with no nodes.
    pub open spec fn empty() -> Self {
        GraphView { nodes: Seq::empty(), edges: Map::empty() }
    }

    /// The node indices fit the machine's index type; every node has exactly
    /// one adjacency entry and no index has one without being a node; every
    /// successor is a node; no successor is listed twice.
    pub open spec fn wf(self) -> bool {
        &&& self.nodes.len() <= usize::MAX
        &&& forall|v: usize| #[trigger] self.edges.contains_key(v) <==> v < self.nodes.len()
        &&& forall|v: usize, k: int|
            self.edges.contains_key(v) && 0 <= k < self.edges[v].len()
                ==> #[trigger] self.edges[v][k] < self.nodes.len()
        &&& forall|v: usize| #[trigger]
            self.edges.contains_key(v) ==> self.edges[v].no_duplicates()
    }

    /// Whether `index` names a node.
    pub open spec fn has_node(self, index: usize) -> bool {
        self.edges.contains_key(index)
    }

    /// Whether an edge leads from `from` to `to`.
    pub open spec fn has_edge(self, from: usize, to: usize) -> bool {
        self.edges.contains_key(from) && self.edges[from].contains(to)
    }

    /// The graph after `payload` was added as a new node without edges.
    pub open spec fn with_node(self, payload: T) -> Self {
        GraphView {
            nodes: self.nodes.push(payload),
            edges: self.edges.insert(self.nodes.len() as usize, Seq::empty()),
        }
    }

    /// The endpoint on account of which no edge from `from` to `to` can be
    /// created: `from` if it is no node, else `to` if that is none.
    pub open spec fn missing_vertex(self, from: usize, to: usize) -> Option<usize> {
        if !self.edges.contains_key(from) {
            Some(from)
        } else if to >= self.nodes.len() {
            Some(to)
        } else {
            None
        }
    }

    /// The graph after an attempt to create the edge from `from` to `to`:
    /// unchanged if an endpoint is missing or the edge is there already, else
    /// with `to` as the last successor of `from`.
    pub open spec fn with_edge(self, from: usize, to: usize) -> Self {
        if self.missing_vertex(from, to) is Some || self.has_edge(from, to) {
            self
        } else {
            GraphView { nodes: self.nodes, edges: self.edges.insert(from, self.edges[from].push(to)) }
        }
    }

    /// The graph after a node was added for each of `payloads` in turn.
    pub open spec fn with_nodes(self, payloads: Seq<T>) -> Self
        decreases payloads.len(),
    {
        if payloads.len() == 0 {
            self
        } else {
            self.with_nodes(payloads.drop_last()).with_node(payloads.last())
        }
    }

    /// A walk: at least two nodes, each joined to the next by an edge. Nodes
    /// and edges may repeat.
    pub open spec fn is_walk(self, walk: Seq<usize>) -> bool {
        &&& walk.len() >= 2
        &&& forall|i: int|
            0 <= i < walk.len() - 1 ==> self.has_edge(#[trigger] walk[i], walk[i + 1])
    }

    /// Whether `walk` leads from `origin` to `target` over at least one edge.
    pub open spec fn connects(self, walk: Seq<usize>, origin: usize, target: usize) -> bool {
        &&& self.is_walk(walk)
        &&& walk.first() == origin
        &&& walk.last() == target
    }

    /// The place of `to` among the successors of `from`: edges created earlier
    /// have the smaller rank.
    pub open spec fn rank(self, from: usize, to: usize) -> int
        recommends
            self.has_edge(from, to),
    {
        self.edges[from].index_of(to)
    }

    /// Whether a breadth-first search from the common first node comes upon
    /// `p` before `q`. A shorter walk comes first. Of two walks of one length
    /// the one whose part before the last step comes first; where that part
    /// is the same, the one whose last step takes the edge created earlier.
    pub open spec fn explored_before(self, p: Seq<usize>, q: Seq<usize>) -> bool
        decreases p.len(),
    {
        if p.len() != q.len() {
            p.len() < q.len()
        } else if p.len() < 2 {
            false
        } else {
            let stem = p.drop_last();
            ||| self.explored_before(stem, q.drop_last())
            ||| stem == q.drop_last() && self.rank(stem.last(), p.last()) < self.rank(
                stem.last(),
                q.last(),
            )
        }
    }

    /// Whether `route` is the walk from `origin` to `target` that a
    /// breadth-first search comes upon first: it is explored before every
    /// other walk between the two. So no walk between them has fewer edges,
    /// and there is at most one first walk.
    pub open spec fn is_first_walk(self, route: Seq<usize>, origin: usize, target: usize) -> bool {
        &&& self.connects(route, origin, target)
        &&& forall|other: Seq<usize>| #[trigger]
            self.connects(other, origin, target) && other != route ==> self.explored_before(
                route,
                other,
            )
    }
}

} // verus!
