use crate::error::GraphError;
use crate::traits::graph_traversal::GraphTraversal;
use crate::types::graph_csm::CsmGraph;
use vstd::prelude::*;
use vstd::slice::slice_subrange;

verus! {

impl<N, W> GraphTraversal<N, W> for CsmGraph<N, W> {
    open spec fn outbound(&self, a: int) -> Seq<usize> {
        self.successors(a)
    }

    open spec fn inbound(&self, a: int) -> Seq<usize> {
        self.predecessors(a)
    }

    fn outbound_edges(&self, a: usize) -> (edges: Result<&[usize], GraphError>) {
        if a >= self.nodes.len() {
            return Err(GraphError::NodeNotFound(a));
        }
        let start = self.forward_edges.offsets[a];
        let end = self.forward_edges.offsets[a + 1];
        Ok(slice_subrange(self.forward_edges.targets.as_slice(), start, end))
    }

    fn inbound_edges(&self, a: usize) -> (edges: Result<&[usize], GraphError>) {
        if a >= self.nodes.len() {
            return Err(GraphError::NodeNotFound(a));
        }
        let start = self.backward_edges.offsets[a];
        let end = self.backward_edges.offsets[a + 1];
        Ok(slice_subrange(self.backward_edges.targets.as_slice(), start, end))
    }
}

} // verus!
