//! Breadth-first search for the first walk between two nodes.

use crate::frontier::{
    lemma_exhausted, lemma_found, lemma_front_ends_at_node, lemma_grown, lemma_seeded,
    lemma_skipped, Frontier,
};
use crate::graph::Graph;
use crate::laws::{lemma_first_walk_is_shortest, lemma_no_walk_without_first_edge};
use crate::route::Route;
use std::collections::{BTreeSet, VecDeque};
use vstd::prelude::*;

verus! {

/// A finite set of indices below `bound` has at most `bound` members.
proof fn lemma_indices_below(indices: Set<usize>, bound: nat)
    requires
        indices.finite(),
        forall|v: usize| indices.contains(v) ==> v < bound,
    ensures
        indices.len() <= bound,
    decreases bound,
{
    if bound == 0 {
        assert(indices =~= Set::empty());
    } else if bound - 1 > usize::MAX {
        lemma_indices_below(indices, (bound - 1) as nat);
    } else {
        let top = (bound - 1) as usize;
        lemma_indices_below(indices.remove(top), (bound - 1) as nat);
        if !indices.contains(top) {
            assert(indices.remove(top) =~= indices);
        }
    }
}

/// The walks that a queue of routes holds, front first.
spec fn walks(queue: Seq<Route<usize>>) -> Seq<Seq<usize>> {
    queue.map_values(|route: Route<usize>| route@)
}

/// Puts at the back of `deque`, for each item of `list` in turn, a copy of
/// `stem` that goes on to that item.
fn enqueue_steps(deque: &mut VecDeque<Route<usize>>, stem: &Route<usize>, list: &Vec<usize>)
    ensures
        walks(final(deque)@) == walks(old(deque)@) + Seq::new(
            list@.len(),
            |k: int| stem@.push(list@[k]),
        ),
{
    let ghost before = walks(deque@);
    let mut k: usize = 0;
    while k < list.len()
        invariant
            k <= list.len(),
            walks(deque@) == before + Seq::new(k as nat, |j: int| stem@.push(list@[j])),
        decreases list.len() - k,
    {
        let ghost queued = deque@;
        let mut local = stem.clone();
        assert(local@ =~= stem@);
        local.add(list[k]);
        deque.push_back(local);
        assert(walks(deque@) =~= walks(queued).push(stem@.push(list@[k as int])));
        k += 1;
    }
}

impl<T: std::fmt::Debug + Eq + PartialEq + std::hash::Hash> Graph<T> {
    /// Searches breadth first for a walk from `origin` to `target` over at
    /// least one edge, following the edges of each node in the order they
    /// were created. Returns the first such walk it comes upon, which has the
    /// fewest edges of all, or `None` if there is none; so also where `origin`
    /// is no node. A walk from a node to itself needs a cycle.
    pub fn find_shortest_way(&self, origin: usize, target: usize) -> (found: Option<Route<usize>>)
        requires
            self.wf(),
        ensures
            match found {
                Some(route) => self@.is_first_walk(route@, origin, target),
                None => forall|walk: Seq<usize>| !self@.connects(walk, origin, target),
            },
            found matches Some(route) ==> forall|walk: Seq<usize>| #[trigger]
                self@.connects(walk, origin, target) ==> route@.len() <= walk.len(),
            found is Some <==> exists|walk: Seq<usize>| #[trigger] self@.connects(walk, origin, target),
            !self@.has_node(origin) ==> found is None,
    {
        let mut visited: BTreeSet<usize> = BTreeSet::new();
        let mut deque: VecDeque<Route<usize>> = VecDeque::new();

        match self.successors(origin) {
            Some(inner) => {
                enqueue_steps(&mut deque, &Route::new(origin), inner);
                let ghost mut frontier = Frontier::seeded(self@, origin);
                proof {
                    lemma_seeded(self@, origin, target);
                    assert(walks(deque@) =~= frontier.waiting);
                    assert(frontier.expanded.dom() =~= visited@);
                }
                loop
                    invariant
                        self.wf(),
                        frontier.inv(self@, origin, target),
                        frontier.waiting == walks(deque@),
                        frontier.expanded.dom() == visited@,
                        visited@.finite(),
                        visited@.len() <= self@.nodes.len(),
                    decreases self@.nodes.len() - visited@.len(), deque@.len(),
                {
                    match deque.pop_front() {
                        Some(cur) => {
                            assert(cur@ == frontier.waiting[0]);
                            assert(self@.is_walk(cur@));
                            if *cur.head() == target {
                                proof {
                                    lemma_found(frontier, self@, origin, target);
                                    assert forall|walk: Seq<usize>| #[trigger]
                                        self@.connects(walk, origin, target) implies cur@.len()
                                        <= walk.len() by {
                                        lemma_first_walk_is_shortest(
                                            self@,
                                            cur@,
                                            walk,
                                            origin,
                                            target,
                                        );
                                    }
                                }
                                return Some(cur);
                            } else if let Some(inner) = self.successors(*cur.head()) {
                                if !visited.contains(cur.head()) {
                                    visited.insert(*cur.head());
                                    enqueue_steps(&mut deque, &cur, inner);
                                    proof {
                                        lemma_grown(frontier, self@, origin, target);
                                        frontier = frontier.grown(self@);
                                        assert(walks(deque@) =~= frontier.waiting);
                                        assert(frontier.expanded.dom() =~= visited@);
                                        assert forall|v: usize| visited@.contains(v) implies v
                                            < self@.nodes.len() by {
                                            assert(frontier.expanded.contains_key(v));
                                        }
                                        lemma_indices_below(visited@, self@.nodes.len());
                                    }
                                } else {
                                    proof {
                                        lemma_skipped(frontier, self@, origin, target);
                                        frontier = frontier.skipped();
                                        assert(walks(deque@) =~= frontier.waiting);
                                    }
                                }
                            } else {
                                // Cannot happen: every walk in the queue ends at a node.
                                proof {
                                    lemma_front_ends_at_node(frontier, self@, origin, target);
                                }
                            }
                        },
                        None => {
                            proof {
                                lemma_exhausted(frontier, self@, origin, target);
                            }
                            return None;
                        },
                    }
                }
            },
            None => {
                assert forall|walk: Seq<usize>| !self@.connects(walk, origin, target) by {
                    lemma_no_walk_without_first_edge(self@, walk, origin, target);
                }
                return None;
            },
        }
    }
}

} // verus!
