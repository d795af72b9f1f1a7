//! The graph itself: nodes in a vector, and per node the list of its
//! successors in an ordered map.

use crate::error::GraphError;
use crate::model::GraphView;
use std::collections::BTreeMap;
use vstd::prelude::*;

verus! {

/// A directed graph. Nodes carry a payload and are named by the index they
/// got when they were added; edges are kept per node, in creation order.
#[derive(Debug)]
pub struct Graph<T> {
    nodes: Vec<T>,
    edges: BTreeMap<usize, Vec<usize>>,
}

impl<T> View for Graph<T> {
    type V = GraphView<T>;

    closed spec fn view(&self) -> GraphView<T> {
        GraphView { nodes: self.nodes@, edges: self.edges@.map_values(|list: Vec<usize>| list@) }
    }
}

/// Whether `to` is among `list`.
fn is_listed(list: &Vec<usize>, to: usize) -> (found: bool)
    ensures
        found == list@.contains(to),
{
    let mut k: usize = 0;
    while k < list.len()
        invariant
            k <= list.len(),
            forall|j: int| 0 <= j < k ==> list@[j] != to,
        decreases list.len() - k,
    {
        if list[k] == to {
            return true;
        }
        k += 1;
    }
    false
}

impl<T> Graph<T> {
    /// The invariant that every method keeps.
    pub open spec fn wf(&self) -> bool {
        self@.wf()
    }
}

impl<T: std::fmt::Debug + Eq + PartialEq + std::hash::Hash> Graph<T> {
    /// A graph without nodes.
    pub fn new() -> (graph: Graph<T>)
        ensures
            graph.wf(),
            graph@ == GraphView::<T>::empty(),
    {
        let graph = Graph { nodes: Vec::new(), edges: BTreeMap::new() };
        assert(graph@.edges =~= Map::empty());
        graph
    }

    /// The number of nodes.
    pub fn len(&self) -> (len: usize)
        ensures
            len == self@.nodes.len(),
    {
        self.nodes.len()
    }

    /// The payload of node `index`, or `None` if `index` is no node.
    pub fn node(&self, index: usize) -> (payload: Option<&T>)
        ensures
            payload == if index < self@.nodes.len() {
                Some(&self@.nodes[index as int])
            } else {
                None
            },
    {
        if index < self.nodes.len() {
            Some(&self.nodes[index])
        } else {
            None
        }
    }

    /// The successors of node `index` in the order their edges were created,
    /// or `None` if `index` is no node.
    pub fn successors(&self, index: usize) -> (list: Option<&Vec<usize>>)
        ensures
            match list {
                Some(list) => self@.has_node(index) && list@ == self@.edges[index],
                None => !self@.has_node(index),
            },
    {
        self.edges.get(&index)
    }

    /// Adds a node that carries `elem` and has no edges yet. Its index is the
    /// number of nodes added before it.
    pub fn add(&mut self, elem: T) -> (index: usize)
        requires
            old(self).wf(),
        ensures
            final(self).wf(),
            index == old(self)@.nodes.len(),
            final(self)@ == old(self)@.with_node(elem),
            final(self)@.edges[index] == Seq::<usize>::empty(),
    {
        self.nodes.push(elem);
        self.edges.insert(self.nodes.len() - 1, Vec::new());
        assert(self@.edges =~= old(self)@.with_node(elem).edges);
        self.nodes.len() - 1
    }

    /// Creates the edge from `from` to `to`, unless it is there already.
    /// Fails, and changes nothing, if one of the two is not a node; the error
    /// names `from` if that is missing, else `to`.
    pub fn create_ref(&mut self, from: usize, to: usize) -> (result: Result<(), GraphError>)
        requires
            old(self).wf(),
        ensures
            final(self).wf(),
            final(self)@ == old(self)@.with_edge(from, to),
            result == match old(self)@.missing_vertex(from, to) {
                Some(vertex) => Err::<(), GraphError>(GraphError::NoVertex(vertex)),
                None => Ok::<(), GraphError>(()),
            },
            result is Ok <==> from < old(self)@.nodes.len() && to < old(self)@.nodes.len(),
    {
        let len = self.nodes.len();
        let is_to_in_graph = len > to;
        match self.edges.get(&from) {
            Some(from_connections) => {
                if is_to_in_graph {
                    if !is_listed(from_connections, to) {
                        let mut connections = self.edges.remove(&from).unwrap();
                        connections.push(to);
                        self.edges.insert(from, connections);
                        assert(self@.edges =~= old(self)@.with_edge(from, to).edges);
                    }
                    Ok(())
                } else {
                    Err(GraphError::NoVertex(to))
                }
            },
            None => Err(GraphError::NoVertex(from)),
        }
    }
}

} // verus!
