//! Facts about the order in which breadth-first search comes upon walks.

use crate::model::GraphView;
use vstd::prelude::*;

verus! {

/// In a list without repetitions an item is found at its own place.
pub(crate) proof fn lemma_index_of_place(list: Seq<usize>, k: int)
    requires
        list.no_duplicates(),
        0 <= k < list.len(),
    ensures
        list.index_of(list[k]) == k,
{
    let found = list.index_of(list[k]);
    assert(0 <= found < list.len() && list[found] == list[k]);
}

/// A walk that is explored before another is not longer than it.
pub proof fn lemma_explored_before_length<T>(g: GraphView<T>, p: Seq<usize>, q: Seq<usize>)
    requires
        g.explored_before(p, q),
    ensures
        p.len() <= q.len(),
{
}

/// No walk is explored before itself.
pub proof fn lemma_explored_before_irreflexive<T>(g: GraphView<T>, p: Seq<usize>)
    ensures
        !g.explored_before(p, p),
    decreases p.len(),
{
    if p.len() >= 2 {
        lemma_explored_before_irreflexive(g, p.drop_last());
    }
}

/// The order of exploration is transitive.
pub proof fn lemma_explored_before_transitive<T>(
    g: GraphView<T>,
    a: Seq<usize>,
    b: Seq<usize>,
    c: Seq<usize>,
)
    requires
        g.explored_before(a, b),
        g.explored_before(b, c),
    ensures
        g.explored_before(a, c),
    decreases a.len(),
{
    if a.len() == b.len() && b.len() == c.len() {
        if g.explored_before(a.drop_last(), b.drop_last()) && g.explored_before(
            b.drop_last(),
            c.drop_last(),
        ) {
            lemma_explored_before_transitive(g, a.drop_last(), b.drop_last(), c.drop_last());
        }
    }
}

/// Two walks cannot each be explored before the other.
pub proof fn lemma_explored_before_asymmetric<T>(g: GraphView<T>, p: Seq<usize>, q: Seq<usize>)
    requires
        g.explored_before(p, q),
    ensures
        !g.explored_before(q, p),
{
    if g.explored_before(q, p) {
        lemma_explored_before_transitive(g, p, q, p);
        lemma_explored_before_irreflexive(g, p);
    }
}

/// Going one step further from each of two walks keeps their order, whatever
/// the two steps are.
pub(crate) proof fn lemma_explored_before_push<T>(
    g: GraphView<T>,
    p: Seq<usize>,
    q: Seq<usize>,
    a: usize,
    b: usize,
)
    requires
        g.explored_before(p, q),
    ensures
        g.explored_before(p.push(a), q.push(b)),
{
    assert(p.push(a).drop_last() =~= p);
    assert(q.push(b).drop_last() =~= q);
}

/// Of two steps from the end of one walk, the one along the edge created
/// earlier is explored first.
pub(crate) proof fn lemma_explored_before_sibling<T>(g: GraphView<T>, stem: Seq<usize>, j: int, k: int)
    requires
        g.wf(),
        stem.len() >= 1,
        g.has_node(stem.last()),
        0 <= j < k < g.edges[stem.last()].len(),
    ensures
        g.explored_before(
            stem.push(g.edges[stem.last()][j]),
            stem.push(g.edges[stem.last()][k]),
        ),
{
    let list = g.edges[stem.last()];
    lemma_index_of_place(list, j);
    lemma_index_of_place(list, k);
    assert(stem.push(list[j]).drop_last() =~= stem);
    assert(stem.push(list[k]).drop_last() =~= stem);
}

} // verus!
