//! The error that creating an edge can give.

use vstd::prelude::*;

verus! {

/// The reason an edge could not be created.
#[derive(Debug, Clone, Copy, PartialEq, Eq, Structural)]
pub enum GraphError {
    /// The carried index names no vertex of the graph.
    NoVertex(usize),
}

impl GraphError {
    /// The index that was looked up and not found.
    pub fn vertex(&self) -> (index: usize)
        ensures
            *self == GraphError::NoVertex(index),
    {
        match self {
            GraphError::NoVertex(index) => *index,
        }
    }

    /// The text to show for this error.
    pub fn message(&self) -> (text: &'static str)
        ensures
            text@ == "Vertex not found"@,
    {
        "Vertex not found"
    }
}

} // verus!
