use crate::model::{edge_total, live_count, GraphModel};
use vstd::prelude::*;

verus! {

/// Read-only queries that every graph form answers.
pub trait GraphView<N, W> {
    /// What every operation of this form relies on.
    spec fn valid(&self) -> bool;

    /// The abstract graph that this value stands for.
    spec fn model(&self) -> GraphModel<N, W>;

    /// Whether the graph is in its immutable, read-optimised form.
    fn is_frozen(&self) -> bool;

    /// Whether a node is present at `index`.
    fn contains_node(&self, index: usize) -> (found: bool)
        requires
            self.valid(),
        ensures
            found == self.model().has_node(index as int),
    ;

    /// The payload at `index`, if a node is present there.
    fn get_node(&self, index: usize) -> (node: Option<&N>)
        requires
            self.valid(),
        ensures
            node is Some == self.model().has_node(index as int),
            node matches Some(n) ==> Some(*n) == self.model().nodes[index as int],
    ;

    /// How many nodes are present.
    fn number_nodes(&self) -> (count: usize)
        requires
            self.valid(),
        ensures
            count == live_count(self.model().nodes),
    ;

    /// Whether `a` is present, `b` is present and `a` has an edge to `b`.
    fn contains_edge(&self, a: usize, b: usize) -> (found: bool)
        requires
            self.valid(),
        ensures
            found == self.model().has_edge(a as int, b as int),
    ;

    /// The number of stored edges.
    fn number_edges(&self) -> (count: usize)
        requires
            self.valid(),
            edge_total(self.model().edges) <= usize::MAX,
        ensures
            count == edge_total(self.model().edges),
    ;

    /// Whether a root is designated and still present.
    fn contains_root_node(&self) -> (found: bool)
        requires
            self.valid(),
        ensures
            found == (self.model().live_root() is Some),
    ;

    /// The payload of the root, if one is designated and still present.
    fn get_root_node(&self) -> (node: Option<&N>)
        requires
            self.valid(),
        ensures
            node is Some == (self.model().live_root() is Some),
            node matches Some(n) ==> Some(*n) == self.model().nodes[self.model().root->0 as int],
    ;

    /// The index of the root, if one is designated and still present.
    fn get_root_index(&self) -> (index: Option<usize>)
        requires
            self.valid(),
        ensures
            index == self.model().live_root(),
    ;

    /// The outgoing edges of `source` in stored order, if `source` is present.
    fn get_edges(&self, source: usize) -> (edges: Option<Vec<(usize, &W)>>)
        requires
            self.valid(),
        ensures
            edges is Some == self.model().has_node(source as int),
            edges matches Some(list) ==> {
                &&& list.len() == self.model().edges[source as int].len()
                &&& forall|j: int|
                    0 <= j < list.len() ==> (#[trigger] list[j]).0 == self.model().edges[source as int][j].0
                        && *list[j].1 == self.model().edges[source as int][j].1
            },
    ;
}

} // verus!
