use crate::error::GraphError;
use crate::traits::graph_mut::GraphMut;
use crate::traits::graph_view::GraphView;
use crate::types::graph_dynamic::DynamicGraph;
use vstd::prelude::*;

verus! {

impl<N, W> DynamicGraph<N, W> {
    /// Appends a slot with its empty edge list.
    fn push_slot(&mut self, payload: N) -> (index: usize)
        requires
            old(self).wf(),
        ensures
            final(self).wf(),
            index == old(self)@.nodes.len(),
            final(self)@.nodes == old(self)@.nodes.push(Some(payload)),
            final(self)@.edges == old(self)@.edges.push(Seq::empty()),
            final(self).root_index == old(self).root_index,
            final(self).num_edges_per_node == old(self).num_edges_per_node,
    {
        let index = self.nodes.len();
        self.nodes.push(Some(payload));
        let row: Vec<(usize, W)> = match self.num_edges_per_node {
            Some(capacity) => Vec::with_capacity(capacity),
            None => Vec::new(),
        };
        self.edges.push(row);
        proof {
            assert(self@.edges =~= old(self)@.edges.push(Seq::empty()));
        }
        index
    }
}

impl<N, W> GraphMut<N, W> for DynamicGraph<N, W> {
    fn add_node(&mut self, payload: N) -> (index: usize) {
        self.push_slot(payload)
    }

    fn update_node(&mut self, index: usize, payload: N) -> (done: Result<(), GraphError>) {
        if !self.contains_node(index) {
            return Err(GraphError::NodeNotFound(index));
        }
        self.nodes[index] = Some(payload);
        proof {
            assert(self@.edges =~= old(self)@.edges);
        }
        Ok(())
    }

    fn add_edge(&mut self, a: usize, b: usize, weight: W) -> (done: Result<(), GraphError>) {
        if !self.contains_node(a) || !self.contains_node(b) {
            return Err(GraphError::EdgeCreationError { source: a, target: b });
        }
        self.edges[a].push((b, weight));
        proof {
            assert(self@.edges =~= old(self)@.edges.update(
                a as int,
                old(self)@.edges[a as int].push((b, weight)),
            ));
        }
        Ok(())
    }

    fn remove_edge(&mut self, a: usize, b: usize) -> (done: Result<(), GraphError>) {
        if !self.contains_node(a) {
            return Err(GraphError::NodeNotFound(a));
        }
        let mut j: usize = 0;
        while j < self.edges[a].len()
            invariant
                *self == *old(self),
                old(self).wf(),
                old(self)@.has_node(a as int),
                a < self.edges.len(),
                j <= self.edges[a as int].len(),
                forall|k: int| 0 <= k < j ==> (#[trigger] self.edges[a as int][k]).0 != b,
            decreases self.edges[a as int].len() - j,
        {
            if self.edges[a][j].0 == b {
                self.edges[a].remove(j);
                proof {
                    assert(self@.edges =~= old(self)@.edges.update(
                        a as int,
                        old(self)@.edges[a as int].remove(j as int),
                    ));
                    assert(old(self)@.edges[a as int][j as int].0 == b);
                }
                return Ok(());
            }
            j = j + 1;
        }
        Err(GraphError::EdgeNotFoundError { source: a, target: b })
    }

    fn remove_node(&mut self, index: usize) -> (done: Result<(), GraphError>) {
        if !self.contains_node(index) {
            return Err(GraphError::NodeNotFound(index));
        }
        self.nodes[index] = None;
        self.edges[index].clear();
        if self.root_index == Some(index) {
            self.root_index = None;
        }
        proof {
            assert(self@.edges =~= old(self)@.edges.update(index as int, Seq::empty()));
        }
        Ok(())
    }

    fn add_root_node(&mut self, payload: N) -> (index: usize) {
        let index = self.push_slot(payload);
        self.root_index = Some(index);
        index
    }

    fn clear(&mut self) {
        self.nodes.clear();
        self.edges.clear();
        self.root_index = None;
        proof {
            assert(self@.edges =~= Seq::empty());
        }
    }
}

} // verus!
