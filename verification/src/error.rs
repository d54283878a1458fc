use vstd::prelude::*;

verus! {

/// A small, copyable value that says why an operation on a graph failed.
#[derive(Debug, Clone, Copy, PartialEq, Eq, Structural)]
pub enum GraphError {
    /// The index is out of range or names a removed node.
    NodeNotFound(usize),
    /// An edge could not be added because one of its endpoints is absent.
    EdgeCreationError { source: usize, target: usize },
    /// No edge from `source` to `target` exists.
    EdgeNotFoundError { source: usize, target: usize },
    /// The graph contains a cycle.
    GraphContainsCycle,
}

} // verus!
