use crate::model::{live_count, GraphModel};
use crate::traits::graph_view::GraphView;
use crate::types::graph_csm::{lemma_edge_total_rows, CsmGraph};
use vstd::prelude::*;

verus! {

/// Rows shorter than this are scanned; longer ones are searched by halving.
pub const BINARY_SEARCH_THRESHOLD: usize = 64;

/// Some position of `targets` from `start` up to `end` holds `b`.
pub open spec fn span_has(targets: Seq<usize>, start: int, end: int, b: usize) -> bool {
    exists|p: int| start <= p < end && #[trigger] targets[p] == b
}

/// The positions from `start` up to `end` never decrease.
pub open spec fn span_sorted(targets: Seq<usize>, start: int, end: int) -> bool {
    forall|p: int, q: int| start <= p <= q < end ==> #[trigger] targets[p] <= #[trigger] targets[q]
}

/// Looks for `b` by visiting every position from `start` up to `end`.
pub fn scan_span(targets: &Vec<usize>, start: usize, end: usize, b: usize) -> (found: bool)
    requires
        start <= end <= targets.len(),
    ensures
        found == span_has(targets@, start as int, end as int, b),
{
    let mut p = start;
    while p < end
        invariant
            start <= p <= end <= targets.len(),
            forall|k: int| start <= k < p ==> #[trigger] targets@[k] != b,
        decreases end - p,
    {
        if targets[p] == b {
            return true;
        }
        p = p + 1;
    }
    false
}

/// Looks for `b` by halving a span that never decreases.
pub fn search_span(targets: &Vec<usize>, start: usize, end: usize, b: usize) -> (found: bool)
    requires
        start <= end <= targets.len(),
        span_sorted(targets@, start as int, end as int),
    ensures
        found == span_has(targets@, start as int, end as int, b),
{
    let mut low = start;
    let mut high = end;
    while low < high
        invariant
            start <= low <= high <= end <= targets.len(),
            span_sorted(targets@, start as int, end as int),
            forall|k: int| start <= k < low ==> #[trigger] targets@[k] < b,
            forall|k: int| high <= k < end ==> #[trigger] targets@[k] > b,
        decreases high - low,
    {
        let middle = low + (high - low) / 2;
        let seen = targets[middle];
        if seen == b {
            return true;
        } else if seen < b {
            low = middle + 1;
        } else {
            high = middle;
        }
    }
    false
}

/// On a span that never decreases, scanning and halving give the same answer
/// whatever the length of the span.
pub proof fn lemma_search_agrees(targets: Seq<usize>, start: int, end: int, b: usize)
    requires
        0 <= start <= end <= targets.len(),
        span_sorted(targets, start, end),
    ensures
        span_has(targets, start, end, b) == targets.subrange(start, end).contains(b),
{
    let row = targets.subrange(start, end);
    if span_has(targets, start, end, b) {
        let p = choose|p: int| start <= p < end && #[trigger] targets[p] == b;
        assert(row[p - start] == b);
    }
    if row.contains(b) {
        let k = choose|k: int| 0 <= k < row.len() && row[k] == b;
        assert(targets[start + k] == b);
    }
}

impl<N, W> CsmGraph<N, W> {
    /// Every slot of the model of a frozen graph holds a payload.
    pub proof fn lemma_all_live(&self, k: int)
        requires
            0 <= k <= self.nodes.len(),
        ensures
            live_count(self@.nodes.take(k)) == k,
        decreases k,
    {
        if k > 0 {
            self.lemma_all_live(k - 1);
            assert(self@.nodes.take(k).drop_last() =~= self@.nodes.take(k - 1));
        }
    }
}

impl<N, W> GraphView<N, W> for CsmGraph<N, W> {
    open spec fn valid(&self) -> bool {
        self.wf()
    }

    open spec fn model(&self) -> GraphModel<N, W> {
        self@
    }

    /// Always `true`: this is the immutable form.
    fn is_frozen(&self) -> (frozen: bool)
        ensures
            frozen,
    {
        true
    }

    fn contains_node(&self, index: usize) -> (found: bool) {
        index < self.nodes.len()
    }

    fn get_node(&self, index: usize) -> (node: Option<&N>) {
        if index < self.nodes.len() {
            Some(&self.nodes[index])
        } else {
            None
        }
    }

    /// The graph has no removed slots, so this is the number of slots.
    fn number_nodes(&self) -> (count: usize)
        ensures
            count == self.nodes.len(),
    {
        proof {
            self.lemma_all_live(self.nodes.len() as int);
            assert(self@.nodes.take(self.nodes.len() as int) =~= self@.nodes);
        }
        self.nodes.len()
    }

    /// Scans short rows and halves long ones; the answer does not depend on
    /// which of the two is used.
    fn contains_edge(&self, a: usize, b: usize) -> (found: bool) {
        if a >= self.nodes.len() {
            return false;
        }
        let start = self.forward_edges.offsets[a];
        let end = self.forward_edges.offsets[a + 1];
        proof {
            let row = self.forward_edges.row_pairs(a as int);
            assert(self.forward_edges.in_row(a as int, start as int) || start == end);
            assert forall|p: int, q: int| start <= p <= q < end implies #[trigger] self.forward_edges.targets@[p]
                <= #[trigger] self.forward_edges.targets@[q] by {
                assert(self.forward_edges.in_row(a as int, p));
                assert(self.forward_edges.in_row(a as int, q));
            }
            if span_has(self.forward_edges.targets@, start as int, end as int, b) {
                let p = choose|p: int| start <= p < end && #[trigger] self.forward_edges.targets@[p] == b;
                assert(row[p - start].0 == b);
                assert(self.forward_edges.targets@[p] < self.nodes.len());
            }
            if crate::model::row_has(row, b) {
                let k = choose|k: int| 0 <= k < row.len() && (#[trigger] row[k]).0 == b;
                assert(self.forward_edges.targets@[start + k] == b);
            }
        }
        if end - start < BINARY_SEARCH_THRESHOLD {
            scan_span(&self.forward_edges.targets, start, end, b)
        } else {
            search_span(&self.forward_edges.targets, start, end, b)
        }
    }

    /// The length of the array of forward targets.
    fn number_edges(&self) -> (count: usize)
        ensures
            count == self.forward_edges.targets.len(),
    {
        proof {
            lemma_edge_total_rows(self, self.nodes.len() as int);
            assert(self@.edges.take(self.nodes.len() as int) =~= self@.edges);
        }
        self.forward_edges.targets.len()
    }

    fn contains_root_node(&self) -> (found: bool) {
        self.root_index.is_some()
    }

    fn get_root_node(&self) -> (node: Option<&N>) {
        match self.root_index {
            Some(index) => self.get_node(index),
            None => None,
        }
    }

    fn get_root_index(&self) -> (index: Option<usize>) {
        self.root_index
    }

    fn get_edges(&self, source: usize) -> (edges: Option<Vec<(usize, &W)>>) {
        if source >= self.nodes.len() {
            return None;
        }
        let start = self.forward_edges.offsets[source];
        let end = self.forward_edges.offsets[source + 1];
        let mut list: Vec<(usize, &W)> = Vec::with_capacity(end - start);
        let mut p = start;
        while p < end
            invariant
                self.wf(),
                source < self.nodes.len(),
                start == self.forward_edges.offsets[source as int],
                end == self.forward_edges.offsets[source + 1],
                start <= p <= end,
                list.len() == p - start,
                forall|k: int|
                    0 <= k < list.len() ==> (#[trigger] list[k]).0 == self.forward_edges.targets[start
                        + k] && *list[k].1 == self.forward_edges.weights[start + k],
            decreases end - p,
        {
            list.push((self.forward_edges.targets[p], &self.forward_edges.weights[p]));
            p = p + 1;
        }
        Some(list)
    }
}

} // verus!
