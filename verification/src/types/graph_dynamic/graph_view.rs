use crate::model::{edge_total, lemma_edge_total_prefix, live_count, GraphModel};
use crate::traits::graph_view::GraphView;
use crate::types::graph_dynamic::DynamicGraph;
use vstd::prelude::*;

verus! {

impl<N, W> GraphView<N, W> for DynamicGraph<N, W> {
    open spec fn valid(&self) -> bool {
        self.wf()
    }

    open spec fn model(&self) -> GraphModel<N, W> {
        self@
    }

    /// Always `false`: this is the mutable form.
    fn is_frozen(&self) -> (frozen: bool)
        ensures
            !frozen,
    {
        false
    }

    fn contains_node(&self, index: usize) -> (found: bool) {
        index < self.nodes.len() && self.nodes[index].is_some()
    }

    fn get_node(&self, index: usize) -> (node: Option<&N>) {
        if index < self.nodes.len() {
            self.nodes[index].as_ref()
        } else {
            None
        }
    }

    /// Counts the slots that hold a payload; linear in the number of slots.
    fn number_nodes(&self) -> (count: usize) {
        let mut count: usize = 0;
        let mut i: usize = 0;
        while i < self.nodes.len()
            invariant
                i <= self.nodes.len(),
                count == live_count(self.nodes@.take(i as int)),
                count <= i,
            decreases self.nodes.len() - i,
        {
            proof {
                assert(self.nodes@.take(i + 1).drop_last() =~= self.nodes@.take(i as int));
            }
            if self.nodes[i].is_some() {
                count = count + 1;
            }
            i = i + 1;
        }
        proof {
            assert(self.nodes@.take(i as int) =~= self.nodes@);
        }
        count
    }

    /// A linear scan of the edge list of `a`.
    fn contains_edge(&self, a: usize, b: usize) -> (found: bool) {
        if !self.contains_node(a) || !self.contains_node(b) {
            return false;
        }
        let row = &self.edges[a];
        let mut j: usize = 0;
        while j < row.len()
            invariant
                j <= row.len(),
                self.wf(),
                self@.has_node(a as int),
                self@.has_node(b as int),
                row@ == self@.edges[a as int],
                forall|k: int| 0 <= k < j ==> (#[trigger] row@[k]).0 != b,
            decreases row.len() - j,
        {
            if row[j].0 == b {
                return true;
            }
            j = j + 1;
        }
        false
    }

    /// Sums the lengths of all edge lists, those of removed targets included;
    /// linear in the number of slots.
    fn number_edges(&self) -> (count: usize) {
        let mut count: usize = 0;
        let mut i: usize = 0;
        while i < self.edges.len()
            invariant
                i <= self.edges.len(),
                count == edge_total(self@.edges.take(i as int)),
                edge_total(self@.edges) <= usize::MAX,
            decreases self.edges.len() - i,
        {
            proof {
                assert(self@.edges.take(i + 1).drop_last() =~= self@.edges.take(i as int));
                lemma_edge_total_prefix(self@.edges, i + 1);
            }
            count = count + self.edges[i].len();
            i = i + 1;
        }
        proof {
            assert(self@.edges.take(i as int) =~= self@.edges);
        }
        count
    }

    fn contains_root_node(&self) -> (found: bool) {
        match self.root_index {
            Some(index) => self.contains_node(index),
            None => false,
        }
    }

    fn get_root_node(&self) -> (node: Option<&N>) {
        match self.root_index {
            Some(index) => self.get_node(index),
            None => None,
        }
    }

    fn get_root_index(&self) -> (index: Option<usize>) {
        match self.root_index {
            Some(index) => if self.contains_node(index) {
                Some(index)
            } else {
                None
            },
            None => None,
        }
    }

    fn get_edges(&self, source: usize) -> (edges: Option<Vec<(usize, &W)>>) {
        if !self.contains_node(source) {
            return None;
        }
        let row = &self.edges[source];
        let mut list: Vec<(usize, &W)> = Vec::with_capacity(row.len());
        let mut j: usize = 0;
        while j < row.len()
            invariant
                j <= row.len(),
                list.len() == j,
                forall|k: int|
                    0 <= k < j ==> (#[trigger] list[k]).0 == row@[k].0 && *list[k].1 == row@[k].1,
            decreases row.len() - j,
        {
            list.push((row[j].0, &row[j].1));
            j = j + 1;
        }
        Some(list)
    }
}

} // verus!
