//! The state of a breadth-first search between two of its turns, and why
//! the search loses no walk.
//!
//! The search keeps a queue of walks and a set of nodes whose edges it has
//! followed. [`Frontier`] is the ghost picture of that state. Its invariant
//! says that the queue is in the order of exploration and that every step
//! from a walk that was followed is either still waiting or ends at a node
//! that was followed on a walk not explored after it. From this,
//! [`lemma_walk_kept`] shows by induction along any walk from the origin that
//! the search has not lost it, and [`lemma_found`] and [`lemma_exhausted`]
//! conclude what the search may return.

use crate::model::GraphView;
use crate::order::{
    lemma_explored_before_length, lemma_explored_before_push, lemma_explored_before_sibling,
    lemma_explored_before_transitive,
};
use vstd::prelude::*;

verus! {

/// The walk `stem` taken one step further, along the `k`-th edge of its last
/// node.
pub(crate) open spec fn step<T>(g: GraphView<T>, stem: Seq<usize>, k: int) -> Seq<usize> {
    stem.push(g.edges[stem.last()][k])
}

/// All the steps from the end of `stem`, in the order of the edges.
pub(crate) open spec fn steps<T>(g: GraphView<T>, stem: Seq<usize>) -> Seq<Seq<usize>> {
    Seq::new(g.edges[stem.last()].len(), |k: int| step(g, stem, k))
}

/// `p` is `q` or explored before it.
pub(crate) open spec fn not_after<T>(g: GraphView<T>, p: Seq<usize>, q: Seq<usize>) -> bool {
    p == q || g.explored_before(p, q)
}

/// A search under way: the walks that wait to be looked at, front first, and
/// for each node whose edges were followed the walk on which that was done.
pub(crate) struct Frontier {
    pub(crate) waiting: Seq<Seq<usize>>,
    pub(crate) expanded: Map<usize, Seq<usize>>,
}

impl Frontier {
    /// Every waiting walk is a walk of the graph that starts at `origin`.
    pub(crate) open spec fn sound<T>(self, g: GraphView<T>, origin: usize) -> bool {
        forall|i: int|
            0 <= i < self.waiting.len() ==> g.is_walk(#[trigger] self.waiting[i])
                && self.waiting[i].first() == origin
    }

    /// The walks wait in the order of exploration, and the walk that each was
    /// a step from is explored before all that wait.
    pub(crate) open spec fn ordered<T>(self, g: GraphView<T>) -> bool {
        &&& forall|i: int, j: int|
            0 <= i < j < self.waiting.len() ==> g.explored_before(
                #[trigger] self.waiting[i],
                #[trigger] self.waiting[j],
            )
        &&& forall|i: int, j: int|
            0 <= i < self.waiting.len() && 0 <= j < self.waiting.len() ==> g.explored_before(
                #[trigger] self.waiting[i].drop_last(),
                #[trigger] self.waiting[j],
            )
    }

    /// A node was expanded on a walk that ends at it and is explored before
    /// all that wait; `target` was never expanded.
    pub(crate) open spec fn settled<T>(self, g: GraphView<T>, target: usize) -> bool {
        &&& forall|v: usize| #[trigger]
            self.expanded.contains_key(v) ==> v != target && g.has_node(v)
                && self.expanded[v].len() >= 2 && self.expanded[v].last() == v
        &&& forall|v: usize, i: int|
            self.expanded.contains_key(v) && 0 <= i < self.waiting.len() ==> g.explored_before(
                #[trigger] self.expanded[v],
                #[trigger] self.waiting[i],
            )
    }

    /// The search still knows of `walk`: it waits, or its last node was
    /// expanded on a walk that is not explored after it.
    pub(crate) open spec fn reached<T>(self, g: GraphView<T>, walk: Seq<usize>) -> bool {
        ||| self.waiting.contains(walk)
        ||| self.expanded.contains_key(walk.last()) && not_after(
            g,
            self.expanded[walk.last()],
            walk,
        )
    }

    /// Every step from `origin`, and from each walk on which a node was
    /// expanded, is still known.
    pub(crate) open spec fn complete<T>(self, g: GraphView<T>, origin: usize) -> bool {
        &&& forall|k: int|
            0 <= k < g.edges[origin].len() ==> self.reached(g, #[trigger] step(g, seq![origin], k))
        &&& forall|v: usize, k: int|
            self.expanded.contains_key(v) && 0 <= k < g.edges[v].len() ==> self.reached(
                g,
                #[trigger] step(g, self.expanded[v], k),
            )
    }

    /// What holds between two turns of the search from `origin` for `target`.
    pub(crate) open spec fn inv<T>(self, g: GraphView<T>, origin: usize, target: usize) -> bool {
        &&& g.wf()
        &&& g.has_node(origin)
        &&& self.sound(g, origin)
        &&& self.ordered(g)
        &&& self.settled(g, target)
        &&& self.complete(g, origin)
    }

    /// The search before its first turn: the steps from `origin` wait.
    pub(crate) open spec fn seeded<T>(g: GraphView<T>, origin: usize) -> Frontier {
        Frontier { waiting: steps(g, seq![origin]), expanded: Map::empty() }
    }

    /// The search after the front walk was dropped.
    pub(crate) open spec fn skipped(self) -> Frontier {
        Frontier { waiting: self.waiting.drop_first(), expanded: self.expanded }
    }

    /// The search after the edges of the front walk's last node were followed.
    pub(crate) open spec fn grown<T>(self, g: GraphView<T>) -> Frontier {
        let front = self.waiting.first();
        Frontier {
            waiting: self.waiting.drop_first() + steps(g, front),
            expanded: self.expanded.insert(front.last(), front),
        }
    }
}

/// A step along an edge from the end of a walk is a walk again.
proof fn lemma_step_is_walk<T>(g: GraphView<T>, stem: Seq<usize>, k: int)
    requires
        stem.len() == 1 || g.is_walk(stem),
        g.has_node(stem.last()),
        0 <= k < g.edges[stem.last()].len(),
    ensures
        g.is_walk(step(g, stem, k)),
        step(g, stem, k).first() == stem.first(),
        step(g, stem, k).drop_last() == stem,
{
    let walk = step(g, stem, k);
    let list = g.edges[stem.last()];
    assert(list.contains(list[k]));
    assert forall|n: int| 0 <= n < walk.len() - 1 implies g.has_edge(
        #[trigger] walk[n],
        walk[n + 1],
    ) by {
        if n < stem.len() - 1 {
            assert(g.has_edge(stem[n], stem[n + 1]));
        }
    }
    assert(walk.drop_last() =~= stem);
}

/// A walk ends at a node of the graph.
proof fn lemma_walk_ends_at_node<T>(g: GraphView<T>, walk: Seq<usize>)
    requires
        g.wf(),
        g.is_walk(walk),
    ensures
        g.has_node(walk.last()),
{
    let before = walk[walk.len() - 2];
    assert(g.has_edge(before, walk[walk.len() - 2 + 1]));
    let k = g.edges[before].index_of(walk.last());
    assert(g.edges[before][k] < g.nodes.len());
}

/// The last node of the front walk is a node of the graph.
pub(crate) proof fn lemma_front_ends_at_node<T>(
    f: Frontier,
    g: GraphView<T>,
    origin: usize,
    target: usize,
)
    requires
        f.inv(g, origin, target),
        f.waiting.len() > 0,
    ensures
        g.has_node(f.waiting.first().last()),
{
    lemma_walk_ends_at_node(g, f.waiting[0]);
}

/// The steps from `origin` satisfy the invariant.
pub(crate) proof fn lemma_seeded<T>(g: GraphView<T>, origin: usize, target: usize)
    requires
        g.wf(),
        g.has_node(origin),
    ensures
        Frontier::seeded(g, origin).inv(g, origin, target),
{
    let f = Frontier::seeded(g, origin);
    let stem = seq![origin];
    assert forall|i: int| 0 <= i < f.waiting.len() implies g.is_walk(#[trigger] f.waiting[i])
        && f.waiting[i].first() == origin by {
        lemma_step_is_walk(g, stem, i);
    }
    assert forall|i: int, j: int| 0 <= i < j < f.waiting.len() implies g.explored_before(
        #[trigger] f.waiting[i],
        #[trigger] f.waiting[j],
    ) by {
        lemma_explored_before_sibling(g, stem, i, j);
    }
    assert forall|k: int| 0 <= k < g.edges[origin].len() implies f.reached(
        g,
        #[trigger] step(g, stem, k),
    ) by {
        assert(f.waiting[k] == step(g, stem, k));
    }
}

/// A walk that the search knew of before the front walk left the queue is
/// still known afterwards, if by then the front walk's last node is expanded
/// on a walk that is not explored after the front walk.
proof fn lemma_still_reached<T>(f: Frontier, next: Frontier, g: GraphView<T>, walk: Seq<usize>)
    requires
        f.waiting.len() > 0,
        f.reached(g, walk),
        forall|i: int| 1 <= i < f.waiting.len() ==> next.waiting.contains(#[trigger] f.waiting[i]),
        forall|v: usize| #[trigger]
            f.expanded.contains_key(v) ==> next.expanded.contains_key(v) && next.expanded[v]
                == f.expanded[v],
        next.expanded.contains_key(f.waiting.first().last()),
        not_after(g, next.expanded[f.waiting.first().last()], f.waiting.first()),
    ensures
        next.reached(g, walk),
{
    if f.waiting.contains(walk) {
        let i = f.waiting.index_of(walk);
        assert(f.waiting[i] == walk);
    }
}

/// Dropping a front walk whose last node was expanded before keeps the
/// invariant.
pub(crate) proof fn lemma_skipped<T>(f: Frontier, g: GraphView<T>, origin: usize, target: usize)
    requires
        f.inv(g, origin, target),
        f.waiting.len() > 0,
        f.expanded.contains_key(f.waiting.first().last()),
    ensures
        f.skipped().inv(g, origin, target),
{
    let next = f.skipped();
    assert forall|i: int| 0 <= i < next.waiting.len() implies #[trigger] next.waiting[i]
        == f.waiting[i + 1] by {}
    assert forall|i: int| 1 <= i < f.waiting.len() implies next.waiting.contains(
        #[trigger] f.waiting[i],
    ) by {
        assert(next.waiting[i - 1] == f.waiting[i]);
    }
    assert(g.explored_before(f.expanded[f.waiting[0].last()], f.waiting[0]));
    assert forall|walk: Seq<usize>| f.reached(g, walk) implies next.reached(g, walk) by {
        lemma_still_reached(f, next, g, walk);
    }
}

/// Following the edges of the front walk's last node, if that node is not
/// the target and was not expanded before, keeps the invariant.
pub(crate) proof fn lemma_grown<T>(f: Frontier, g: GraphView<T>, origin: usize, target: usize)
    requires
        f.inv(g, origin, target),
        f.waiting.len() > 0,
        f.waiting.first().last() != target,
        !f.expanded.contains_key(f.waiting.first().last()),
    ensures
        f.grown(g).inv(g, origin, target),
{
    let next = f.grown(g);
    let front = f.waiting[0];
    let head = front.last();
    let kept = f.waiting.len() - 1;
    lemma_walk_ends_at_node(g, front);
    assert forall|i: int| 0 <= i < kept implies #[trigger] next.waiting[i] == f.waiting[i + 1] by {}
    assert forall|i: int| kept <= i < next.waiting.len() implies #[trigger] next.waiting[i] == step(
        g,
        front,
        i - kept,
    ) by {}

    assert(next.sound(g, origin)) by {
        assert forall|i: int| kept <= i < next.waiting.len() implies g.is_walk(
            #[trigger] next.waiting[i],
        ) && next.waiting[i].first() == origin by {
            lemma_step_is_walk(g, front, i - kept);
        }
    }

    assert(next.ordered(g)) by {
        assert forall|i: int, j: int| 0 <= i < j < next.waiting.len() implies g.explored_before(
            #[trigger] next.waiting[i],
            #[trigger] next.waiting[j],
        ) by {
            if i >= kept {
                lemma_explored_before_sibling(g, front, i - kept, j - kept);
            } else if j >= kept {
                // The walk that `i` was a step from is explored before `front`.
                assert(g.explored_before(f.waiting[i + 1].drop_last(), front));
                lemma_step_is_walk(g, front, j - kept);
                lemma_explored_before_length(g, f.waiting[i + 1].drop_last(), front);
                lemma_explored_before_length(g, front, f.waiting[i + 1]);
            }
        }
        assert forall|i: int, j: int|
            0 <= i < next.waiting.len() && 0 <= j < next.waiting.len() implies g.explored_before(
            #[trigger] next.waiting[i].drop_last(),
            #[trigger] next.waiting[j],
        ) by {
            if i >= kept {
                lemma_step_is_walk(g, front, i - kept);
                if j < kept {
                    assert(g.explored_before(front, f.waiting[j + 1]));
                }
            } else {
                assert(g.explored_before(f.waiting[i + 1].drop_last(), front));
                lemma_explored_before_length(g, f.waiting[i + 1].drop_last(), front);
            }
        }
    }

    assert(next.settled(g, target)) by {
        assert forall|v: usize, i: int|
            next.expanded.contains_key(v) && 0 <= i < next.waiting.len() implies g.explored_before(
            #[trigger] next.expanded[v],
            #[trigger] next.waiting[i],
        ) by {
            if v != head {
                assert(g.explored_before(f.expanded[v], front));
                lemma_explored_before_length(g, f.expanded[v], front);
            } else if i < kept {
                assert(g.explored_before(front, f.waiting[i + 1]));
            }
        }
    }

    assert(next.complete(g, origin)) by {
        assert forall|i: int| 1 <= i < f.waiting.len() implies next.waiting.contains(
            #[trigger] f.waiting[i],
        ) by {
            assert(next.waiting[i - 1] == f.waiting[i]);
        }
        assert forall|walk: Seq<usize>| f.reached(g, walk) implies next.reached(g, walk) by {
            lemma_still_reached(f, next, g, walk);
        }
        assert forall|k: int| 0 <= k < g.edges[head].len() implies next.reached(
            g,
            #[trigger] step(g, front, k),
        ) by {
            assert(next.waiting[kept + k] == step(g, front, k));
        }
    }
}

/// Up to its `i`-th node the search has kept up with `walk`: a walk that is
/// not explored after some part of `walk` still waits, or the `i`-th node was
/// expanded on a walk that is not explored after the part up to it.
pub(crate) open spec fn kept_up_to<T>(
    f: Frontier,
    g: GraphView<T>,
    walk: Seq<usize>,
    i: int,
) -> bool {
    ||| exists|j: int, queued: int|
        1 <= j <= i && 0 <= queued < f.waiting.len() && not_after(
            g,
            #[trigger] f.waiting[queued],
            #[trigger] walk.take(j + 1),
        )
    ||| f.expanded.contains_key(walk[i]) && not_after(g, f.expanded[walk[i]], walk.take(i + 1))
}

/// The search loses no walk from `origin`.
pub(crate) proof fn lemma_walk_kept<T>(
    f: Frontier,
    g: GraphView<T>,
    origin: usize,
    target: usize,
    walk: Seq<usize>,
    i: int,
)
    requires
        f.inv(g, origin, target),
        g.is_walk(walk),
        walk.first() == origin,
        1 <= i < walk.len(),
    ensures
        kept_up_to(f, g, walk, i),
    decreases i,
{
    let part = walk.take(i + 1);
    let stem = walk.take(i);
    assert(part =~= stem.push(walk[i]));
    assert(g.has_edge(walk[i - 1], walk[i - 1 + 1]));
    let k = g.edges[walk[i - 1]].index_of(walk[i]);
    // The walk the search took in place of `stem`, and its step to `walk[i]`.
    let taken = if i == 1 {
        seq![origin]
    } else {
        f.expanded[walk[i - 1]]
    };
    let next = step(g, taken, k);
    if i == 1 {
        assert(stem =~= taken);
    } else {
        lemma_walk_kept(f, g, origin, target, walk, i - 1);
    }
    if i == 1 || (f.expanded.contains_key(walk[i - 1]) && not_after(g, taken, stem)) {
        assert(f.reached(g, next));
        assert(not_after(g, next, part)) by {
            if taken != stem {
                lemma_explored_before_push(g, taken, stem, walk[i], walk[i]);
            }
        }
        if f.waiting.contains(next) {
            let queued = f.waiting.index_of(next);
            assert(not_after(g, f.waiting[queued], walk.take(i + 1)));
        } else if f.expanded[walk[i]] != next && next != part {
            lemma_explored_before_transitive(g, f.expanded[walk[i]], next, part);
        }
    } else {
        let (j, queued) = choose|j: int, queued: int|
            1 <= j <= i - 1 && 0 <= queued < f.waiting.len() && not_after(
                g,
                #[trigger] f.waiting[queued],
                #[trigger] walk.take(j + 1),
            );
        assert(1 <= j <= i);
    }
}

/// A front walk that ends at `target` is the first walk to it.
pub(crate) proof fn lemma_found<T>(f: Frontier, g: GraphView<T>, origin: usize, target: usize)
    requires
        f.inv(g, origin, target),
        f.waiting.len() > 0,
        f.waiting.first().last() == target,
    ensures
        g.is_first_walk(f.waiting.first(), origin, target),
{
    let front = f.waiting[0];
    assert forall|other: Seq<usize>| #[trigger]
        g.connects(other, origin, target) && other != front implies g.explored_before(
        front,
        other,
    ) by {
        let last = other.len() - 1;
        lemma_walk_kept(f, g, origin, target, other, last);
        // `target` was not expanded, so a waiting walk is not explored
        // after some part of `other`; the front walk is not explored after
        // that one.
        let (j, queued) = choose|j: int, queued: int|
            1 <= j <= last && 0 <= queued < f.waiting.len() && not_after(
                g,
                #[trigger] f.waiting[queued],
                #[trigger] other.take(j + 1),
            );
        let part = other.take(j + 1);
        assert(not_after(g, front, part)) by {
            if queued > 0 && f.waiting[queued] != part {
                assert(g.explored_before(front, f.waiting[queued]));
                lemma_explored_before_transitive(g, front, f.waiting[queued], part);
            }
        }
        if j == last {
            assert(part =~= other);
        } else if front != part {
            lemma_explored_before_length(g, front, part);
        }
    }
}

/// Once no walk waits, none leads from `origin` to `target`.
pub(crate) proof fn lemma_exhausted<T>(f: Frontier, g: GraphView<T>, origin: usize, target: usize)
    requires
        f.inv(g, origin, target),
        f.waiting.len() == 0,
    ensures
        forall|walk: Seq<usize>| !g.connects(walk, origin, target),
{
    assert forall|walk: Seq<usize>| !g.connects(walk, origin, target) by {
        if g.connects(walk, origin, target) {
            lemma_walk_kept(f, g, origin, target, walk, walk.len() - 1);
        }
    }
}

} // verus!
