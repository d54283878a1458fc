use crate::model::GraphModel;
use vstd::prelude::*;

pub mod graph_freeze;
pub mod graph_mut;
pub mod graph_view;

verus! {

/// The evolutionary form of a graph: adjacency lists that can be mutated, with
/// removed nodes kept as empty slots so that indices stay stable.
pub struct DynamicGraph<N, W> {
    /// Capacity hint for the edge list of each new node; no effect on content.
    pub num_edges_per_node: Option<usize>,
    /// One slot per node index; `None` marks a removed node.
    pub nodes: Vec<Option<N>>,
    /// One list of `(target, weight)` per slot.
    pub edges: Vec<Vec<(usize, W)>>,
    /// Index of the designated root node.
    pub root_index: Option<usize>,
}

impl<N, W> View for DynamicGraph<N, W> {
    type V = GraphModel<N, W>;

    open spec fn view(&self) -> GraphModel<N, W> {
        GraphModel {
            nodes: self.nodes@,
            edges: Seq::new(self.edges@.len(), |i: int| self.edges@[i]@),
            root: self.root_index,
        }
    }
}

impl<N, W> DynamicGraph<N, W> {
    /// One edge list per slot, and every edge target names a slot.
    pub open spec fn wf(&self) -> bool {
        self@.well_formed()
    }

    /// The root index as stored, whether or not its node is still present.
    pub fn root_index(&self) -> (root: Option<usize>)
        ensures
            root == self@.root,
    {
        self.root_index
    }

    /// An empty graph.
    pub fn new() -> (graph: Self)
        ensures
            graph.wf(),
            graph@.tombstones_bare(),
            graph@.nodes.len() == 0,
            graph@.edges.len() == 0,
            graph@.root is None,
            graph.num_edges_per_node is None,
    {
        let graph = Self {
            num_edges_per_node: None,
            nodes: Vec::new(),
            edges: Vec::new(),
            root_index: None,
        };
        assert(graph@.edges =~= Seq::empty());
        graph
    }

    /// An empty graph with room for `num_nodes` nodes; `num_edges_per_node` is
    /// kept as the capacity of the edge list of each node added later.
    pub fn with_capacity(num_nodes: usize, num_edges_per_node: Option<usize>) -> (graph: Self)
        ensures
            graph.wf(),
            graph@.tombstones_bare(),
            graph@.nodes.len() == 0,
            graph@.edges.len() == 0,
            graph@.root is None,
            graph.num_edges_per_node == num_edges_per_node,
    {
        let graph = Self {
            num_edges_per_node,
            nodes: Vec::with_capacity(num_nodes),
            edges: Vec::with_capacity(num_nodes),
            root_index: None,
        };
        assert(graph@.edges =~= Seq::empty());
        graph
    }

    /// Builds a graph from its parts.
    pub fn from_parts(
        nodes: Vec<Option<N>>,
        edges: Vec<Vec<(usize, W)>>,
        root_index: Option<usize>,
    ) -> (graph: Self)
        requires
            nodes.len() == edges.len(),
            forall|a: int, j: int|
                0 <= a < edges.len() && 0 <= j < edges[a].len() ==> (#[trigger] edges[a][j]).0
                    < nodes.len(),
        ensures
            graph.wf(),
            graph.nodes == nodes,
            graph.edges == edges,
            graph.root_index == root_index,
            graph.num_edges_per_node is None,
    {
        Self { nodes, edges, root_index, num_edges_per_node: None }
    }

    /// Takes the graph apart; the inverse of `from_parts`.
    pub fn to_parts(self) -> (parts: (Vec<Option<N>>, Vec<Vec<(usize, W)>>, Option<usize>))
        ensures
            parts.0 == self.nodes,
            parts.1 == self.edges,
            parts.2 == self.root_index,
    {
        (self.nodes, self.edges, self.root_index)
    }

    /// Builds the graph that `unfreeze` hands back.
    pub fn construct(
        nodes: Vec<Option<N>>,
        edges: Vec<Vec<(usize, W)>>,
        root_index: Option<usize>,
    ) -> (graph: Self)
        ensures
            graph.nodes == nodes,
            graph.edges == edges,
            graph.root_index == root_index,
            graph.num_edges_per_node is None,
    {
        Self { num_edges_per_node: None, nodes, edges, root_index }
    }
}

impl<N, W> Default for DynamicGraph<N, W> {
    fn default() -> (graph: Self)
        ensures
            graph.wf(),
            graph@.nodes.len() == 0,
            graph@.edges.len() == 0,
            graph@.root is None,
    {
        Self::new()
    }
}

} // verus!
