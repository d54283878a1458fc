use crate::error::GraphError;
use crate::traits::graph_view::GraphView;
use vstd::prelude::*;

verus! {

/// Neighbour access on a frozen graph, as views into its storage.
pub trait GraphTraversal<N, W>: GraphView<N, W> {
    /// The targets of the edges that leave `a`, in stored order.
    spec fn outbound(&self, a: int) -> Seq<usize>;

    /// The sources of the edges that enter `a`, in stored order.
    spec fn inbound(&self, a: int) -> Seq<usize>;

    /// The direct successors of `a`, without allocating.
    fn outbound_edges(&self, a: usize) -> (edges: Result<&[usize], GraphError>)
        requires
            self.valid(),
        ensures
            edges is Ok == self.model().has_node(a as int),
            edges matches Ok(row) ==> row@ == self.outbound(a as int),
            edges matches Err(e) ==> e == GraphError::NodeNotFound(a),
    ;

    /// The direct predecessors of `a`, without allocating.
    fn inbound_edges(&self, a: usize) -> (edges: Result<&[usize], GraphError>)
        requires
            self.valid(),
        ensures
            edges is Ok == self.model().has_node(a as int),
            edges matches Ok(row) ==> row@ == self.inbound(a as int),
            edges matches Err(e) ==> e == GraphError::NodeNotFound(a),
    ;
}

} // verus!
