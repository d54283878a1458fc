use crate::traits::graph_view::GraphView;
use crate::types::graph_csm::CsmGraph;
use crate::types::graph_dynamic::DynamicGraph;
use vstd::prelude::*;

verus! {

/// A graph that can be turned into its frozen form.
pub trait Freezable<N, W>: GraphView<N, W> + Sized {
    /// Drops the removed slots, renumbers the nodes that remain and lays the
    /// edges between them out row by row, sorted by target.
    fn freeze(self) -> (frozen: CsmGraph<N, W>)
        requires
            self.valid(),
        ensures
            frozen.wf(),
            self.model().freezes_to(frozen@),
    ;
}

/// A graph that can be turned back into its evolutionary form.
pub trait Unfreezable<N, W>: GraphView<N, W> + Sized {
    /// Rebuilds the adjacency lists from the forward rows; nodes, edges and
    /// root are those of `self`.
    fn unfreeze(self) -> (thawed: DynamicGraph<N, W>)
        requires
            self.valid(),
        ensures
            thawed.wf(),
            thawed@ == self.model(),
    ;
}

} // verus!
