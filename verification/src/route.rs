//! The way that a search has gone: a sequence of items that is never empty.

use vstd::prelude::*;

verus! {

/// A growing sequence of visited items; the last one is the head.
#[derive(Debug)]
pub struct Route<T>(Vec<T>);

impl<T> View for Route<T> {
    type V = Seq<T>;

    closed spec fn view(&self) -> Seq<T> {
        self.0@
    }
}

impl<T> Route<T> {
    /// A route always holds at least the item it started from.
    pub open spec fn wf(&self) -> bool {
        self@.len() > 0
    }

    /// The route that stands at `origin` and has gone nowhere yet.
    pub fn new(origin: T) -> (route: Self)
        ensures
            route@ == seq![origin],
            route.wf(),
    {
        let mut items = Vec::new();
        items.push(origin);
        assert(items@ =~= seq![origin]);
        Route(items)
    }

    /// Moves the head on to `element`.
    pub fn add(&mut self, element: T)
        ensures
            final(self)@ == old(self)@.push(element),
            final(self).wf(),
    {
        self.0.push(element);
    }

    /// The item reached last.
    pub fn head(&self) -> (head: &T)
        requires
            self.wf(),
        ensures
            *head == self@.last(),
    {
        &self.0[self.0.len() - 1]
    }

    /// The items in the order they were visited.
    pub fn nodes(&self) -> (nodes: &Vec<T>)
        ensures
            nodes@ == self@,
    {
        &self.0
    }

    /// How many items the route holds: one more than its number of steps.
    pub fn len(&self) -> (len: usize)
        ensures
            len == self@.len(),
    {
        self.0.len()
    }
}

impl<T: Clone> Clone for Route<T> {
    fn clone(&self) -> (copy: Self)
        ensures
            copy@.len() == self@.len(),
            forall|i: int| 0 <= i < self@.len() ==> cloned::<T>(#[trigger] self@[i], copy@[i]),
    {
        Route(self.0.clone())
    }
}

} // verus!
