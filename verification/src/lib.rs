//! A directed graph whose nodes are named by the index they got when they
//! were added, with a breadth-first search for the shortest way from one
//! node to another.
//!
//! [`Graph`] is the container and [`Route`] the way that a search returns.
//! What a graph holds is described by [`GraphView`]: the payloads in
//! insertion order and, per node, its successors in the order the edges were
//! created. The contracts of the graph's methods are stated over that view.
//!
//! [`Graph::find_shortest_way`] returns the walk that a breadth-first search
//! comes upon first. [`GraphView::explored_before`] defines that order on
//! walks, [`order`] proves that it is a strict order, and [`laws`] states
//! what follows for every graph: that the walk returned has the fewest edges,
//! that it is the only one of its kind, and how adding nodes and edges
//! changes a graph.

pub mod error;
mod frontier;
pub mod graph;
pub mod laws;
pub mod model;
pub mod order;
pub mod route;
pub mod sample;
pub mod search;

pub use crate::error::GraphError;
pub use crate::graph::Graph;
pub use crate::model::GraphView;
pub use crate::route::Route;
