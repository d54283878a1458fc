use crate::traits::graph_evolution::Unfreezable;
use crate::types::graph_csm::{pairs_between, CsmGraph};
use crate::types::graph_dynamic::DynamicGraph;
use vstd::prelude::*;

verus! {

impl<N, W> Unfreezable<N, W> for CsmGraph<N, W> where
    N: Clone + Sync + Send,
    W: Clone + Sync + Send + Default,
 {
    /// Never fails. The backward structure is dropped; payloads and weights
    /// are moved, not copied.
    fn unfreeze(self) -> (thawed: DynamicGraph<N, W>) {
        let ghost model = self@;
        let ghost forward = self.forward_edges;
        let n = self.nodes.len();
        let CsmGraph { nodes, forward_edges, backward_edges: _, root_index } = self;
        let offsets = forward_edges.offsets;
        let targets = forward_edges.targets;
        let weights = forward_edges.weights;
        let ghost payloads = nodes@;
        let ghost stored = weights@;

        let mut dynamic_nodes: Vec<Option<N>> = Vec::with_capacity(n);
        for node in it: nodes.into_iter()
            invariant
                it.seq() == payloads,
                dynamic_nodes.len() == it.index(),
                forall|k: int| 0 <= k < it.index() ==> #[trigger] dynamic_nodes[k] == Some(payloads[k]),
        {
            dynamic_nodes.push(Some(node));
        }

        let mut dynamic_edges: Vec<Vec<(usize, W)>> = Vec::with_capacity(n);
        let mut i: usize = 0;
        while i < n
            invariant
                i <= n,
                dynamic_edges.len() == i,
                forall|r: int| 0 <= r < i ==> (#[trigger] dynamic_edges[r]).len() == 0,
            decreases n - i,
        {
            dynamic_edges.push(Vec::new());
            i = i + 1;
        }

        let mut row: usize = 0;
        let mut p: usize = 0;
        for weight in it: weights.into_iter()
            invariant
                it.seq() == stored,
                p == it.index(),
                forward.well_shaped(n as int),
                offsets == forward.offsets,
                targets == forward.targets,
                stored == forward.weights@,
                dynamic_edges.len() == n,
                row <= n,
                p < stored.len() ==> row < n,
                row < n ==> offsets[row as int] <= p <= offsets[row + 1],
                forall|r: int|
                    0 <= r < row ==> (#[trigger] dynamic_edges[r])@ == pairs_between(
                        targets@,
                        stored,
                        offsets[r] as int,
                        offsets[r + 1] as int,
                    ),
                row < n ==> dynamic_edges[row as int]@ == pairs_between(
                    targets@,
                    stored,
                    offsets[row as int] as int,
                    p as int,
                ),
                forall|r: int| row < r < n ==> (#[trigger] dynamic_edges[r]).len() == 0,
        {
            while offsets[row + 1] <= p
                invariant
                    p < stored.len(),
                    forward.well_shaped(n as int),
                    offsets == forward.offsets,
                    targets == forward.targets,
                    stored == forward.weights@,
                    dynamic_edges.len() == n,
                    row < n,
                    offsets[row as int] <= p <= offsets[row + 1],
                    forall|r: int|
                        0 <= r < row ==> (#[trigger] dynamic_edges[r])@ == pairs_between(
                            targets@,
                            stored,
                            offsets[r] as int,
                            offsets[r + 1] as int,
                        ),
                    dynamic_edges[row as int]@ == pairs_between(
                        targets@,
                        stored,
                        offsets[row as int] as int,
                        p as int,
                    ),
                    forall|r: int| row < r < n ==> (#[trigger] dynamic_edges[r]).len() == 0,
                decreases n - row,
            {
                proof {
                    assert(offsets[row + 1] <= offsets[n as int]);
                    if row + 1 == n {
                        assert(false);
                    }
                    assert(dynamic_edges[row + 1]@ =~= pairs_between(
                        targets@,
                        stored,
                        offsets[row + 1] as int,
                        p as int,
                    ));
                    assert(offsets[row + 1] <= offsets[row + 2]);
                }
                row = row + 1;
            }
            let ghost before = dynamic_edges[row as int]@;
            dynamic_edges[row].push((targets[p], weight));
            proof {
                assert(dynamic_edges[row as int]@ =~= pairs_between(
                    targets@,
                    stored,
                    offsets[row as int] as int,
                    p + 1,
                ));
            }
            p = p + 1;
        }

        let thawed = DynamicGraph::construct(dynamic_nodes, dynamic_edges, root_index);
        proof {
            assert(thawed@.nodes =~= model.nodes);
            assert forall|r: int| 0 <= r < n implies thawed@.edges[r] == model.edges[r] by {
                if row < n {
                    assert(offsets[row + 1] <= offsets[n as int]);
                    if r > row {
                        assert(offsets[row + 1] <= offsets[r]);
                        assert(offsets[r + 1] <= offsets[n as int]);
                        assert(thawed@.edges[r] =~= model.edges[r]);
                    }
                } else {
                    assert(thawed@.edges[r] =~= model.edges[r]);
                }
            }
            assert(thawed@.edges =~= model.edges);
            assert forall|a: int, j: int|
                0 <= a < thawed@.edges.len() && 0 <= j < thawed@.edges[a].len() implies (
            #[trigger] thawed@.edges[a][j]).0 < thawed@.nodes.len() by {
                assert(thawed@.edges[a] == model.edges[a]);
                assert(forward.offsets[a + 1] <= forward.offsets[n as int]);
            }
        }
        thawed
    }
}

} // verus!
