use crate::paths::{acyclic, is_cycle, is_topological_order, joins, reachable, shortest_count};
use crate::traits::graph_view::GraphView;
use vstd::prelude::*;

verus! {

/// Structural analysis of a frozen graph.
pub trait GraphAlgorithms<N, W>: GraphView<N, W> {
    /// The successors of every node: the graph that the algorithms speak of.
    spec fn arcs(&self) -> Seq<Seq<usize>>;

    /// A closed loop of the graph, first and last entry equal, if there is one.
    fn find_cycle(&self) -> (found: Option<Vec<usize>>)
        requires
            self.valid(),
        ensures
            found matches Some(cycle) ==> is_cycle(self.arcs(), cycle@),
            found is None ==> acyclic(self.arcs()),
    ;

    /// Whether the graph has a closed loop.
    fn has_cycle(&self) -> (cyclic: bool)
        requires
            self.valid(),
        ensures
            cyclic == !acyclic(self.arcs()),
    ;

    /// An order of all nodes in which every edge leads forward, if the graph
    /// has no closed loop. An empty graph has the empty order.
    fn topological_sort(&self) -> (order: Option<Vec<usize>>)
        requires
            self.valid(),
        ensures
            order matches Some(list) ==> is_topological_order(self.arcs(), list@),
            order is None ==> !acyclic(self.arcs()),
    ;

    /// Whether `stop_index` can be reached from `start_index`; a node reaches itself.
    fn is_reachable(&self, start_index: usize, stop_index: usize) -> (reached: bool)
        requires
            self.valid(),
        ensures
            reached == reachable(self.arcs(), start_index as int, stop_index as int),
    ;

    /// The number of nodes on a shortest path from `start_index` to
    /// `stop_index`: one more than the number of edges, so 1 from a node to itself.
    fn shortest_path_len(&self, start_index: usize, stop_index: usize) -> (length: Option<usize>)
        requires
            self.valid(),
        ensures
            length matches Some(count) ==> shortest_count(
                self.arcs(),
                start_index as int,
                stop_index as int,
                count as int,
            ),
            length is None ==> !reachable(self.arcs(), start_index as int, stop_index as int),
    ;

    /// A shortest path from `start_index` to `stop_index`, both included.
    fn shortest_path(&self, start_index: usize, stop_index: usize) -> (path: Option<Vec<usize>>)
        requires
            self.valid(),
        ensures
            path matches Some(nodes) ==> joins(
                self.arcs(),
                nodes@,
                start_index as int,
                stop_index as int,
            ) && shortest_count(self.arcs(), start_index as int, stop_index as int, nodes.len() as int),
            path is None ==> !reachable(self.arcs(), start_index as int, stop_index as int),
    ;
}

} // verus!
