use crate::paths::{
    acyclic, is_cycle, is_kahn_order, joins, lemma_ordered_is_acyclic, lex_at_most,
};
use crate::traits::graph_algo::GraphAlgorithms;
use crate::types::graph_csm::CsmGraph;
use vstd::prelude::*;

verus! {

impl<N, W> GraphAlgorithms<N, W> for CsmGraph<N, W> {
    open spec fn arcs(&self) -> Seq<Seq<usize>> {
        self.adjacency()
    }

    /// Depth-first search with three node states and an explicit stack. The
    /// loop returned starts and ends with the node at which it was closed and
    /// passes no node twice; a self-loop on `n` gives `[n, n]`.
    fn find_cycle(&self) -> (found: Option<Vec<usize>>)
        ensures
            found matches Some(cycle) ==> forall|a: int, b: int|
                0 <= a < b < cycle@.len() - 1 ==> #[trigger] cycle@[a] != #[trigger] cycle@[b],
    {
        self.search_cycle()
    }

    /// Decided by Kahn's algorithm: there is a closed loop exactly when not
    /// every node can be released.
    fn has_cycle(&self) -> (cyclic: bool) {
        let order = self.kahn_order();
        proof {
            if order.len() == self.nodes.len() {
                lemma_ordered_is_acyclic(self.adjacency(), order@);
            }
        }
        order.len() < self.nodes.len()
    }

    /// Kahn's algorithm: nodes without incoming edges first, ascending, then
    /// each node as soon as all its predecessors are listed.
    fn topological_sort(&self) -> (order: Option<Vec<usize>>)
        ensures
            order matches Some(list) ==> is_kahn_order(self.adjacency(), list@),
    {
        let order = self.kahn_order();
        if order.len() == self.nodes.len() {
            Some(order)
        } else {
            None
        }
    }

    fn is_reachable(&self, start_index: usize, stop_index: usize) -> (reached: bool) {
        self.shortest_path_len(start_index, stop_index).is_some()
    }

    fn shortest_path_len(&self, start_index: usize, stop_index: usize) -> (length: Option<usize>) {
        if start_index >= self.nodes.len() || stop_index >= self.nodes.len() {
            proof {
                self.lemma_absent_unreachable(start_index as int, stop_index as int);
            }
            return None;
        }
        if start_index == stop_index {
            proof {
                self.lemma_self_reachable(start_index as int);
            }
            return Some(1);
        }
        self.count_shortest(start_index, stop_index)
    }

    /// Among the shortest paths the one found first by a breadth-first search
    /// that follows the edges of each node in ascending order of target: the
    /// first of them in lexicographic order.
    fn shortest_path(&self, start_index: usize, stop_index: usize) -> (path: Option<Vec<usize>>)
        ensures
            path matches Some(nodes) ==> forall|walk: Seq<usize>|
                #![trigger joins(self.adjacency(), walk, start_index as int, stop_index as int)]
                joins(self.adjacency(), walk, start_index as int, stop_index as int) && walk.len()
                    == nodes.len() ==> lex_at_most(nodes@, walk),
    {
        if start_index >= self.nodes.len() || stop_index >= self.nodes.len() {
            proof {
                self.lemma_absent_unreachable(start_index as int, stop_index as int);
            }
            return None;
        }
        if start_index == stop_index {
            proof {
                self.lemma_self_reachable(start_index as int);
            }
            let mut alone: Vec<usize> = Vec::new();
            alone.push(start_index);
            proof {
                assert(alone@ =~= seq![start_index]);
                assert forall|walk: Seq<usize>|
                    #![trigger joins(self.adjacency(), walk, start_index as int, stop_index as int)]
                    joins(self.adjacency(), walk, start_index as int, stop_index as int) && walk.len()
                        == alone.len() implies lex_at_most(alone@, walk) by {
                    assert(walk =~= alone@);
                }
            }
            return Some(alone);
        }
        self.trace_shortest(start_index, stop_index)
    }
}

/// Having a closed loop, having no topological order and being found to have
/// a loop by the search are one and the same: each of the three answers is
/// decided by whether the graph is acyclic.
pub proof fn lemma_cycle_answers_agree(
    arcs: Seq<Seq<usize>>,
    cyclic: bool,
    order: Option<Vec<usize>>,
    found: Option<Vec<usize>>,
)
    requires
        cyclic == !acyclic(arcs),
        order matches Some(list) ==> crate::paths::is_topological_order(arcs, list@),
        order is None ==> !acyclic(arcs),
        found matches Some(cycle) ==> is_cycle(arcs, cycle@),
        found is None ==> acyclic(arcs),
    ensures
        cyclic == (order is None),
        cyclic == (found is Some),
{
    if order is Some {
        lemma_ordered_is_acyclic(arcs, order->0@);
    }
}

} // verus!
