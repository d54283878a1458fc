use vstd::prelude::*;

verus! {

/// The abstract value of a graph: one slot per node index, one adjacency list
/// per slot, and an optional root index.
pub struct GraphModel<N, W> {
    /// Payload of each slot; `None` marks a removed node.
    pub nodes: Seq<Option<N>>,
    /// Outgoing `(target, weight)` pairs of each slot, in stored order.
    pub edges: Seq<Seq<(usize, W)>>,
    /// The designated root slot, if any.
    pub root: Option<usize>,
}

/// Slot `i` exists and holds a payload.
pub open spec fn is_live<N>(nodes: Seq<Option<N>>, i: int) -> bool {
    0 <= i < nodes.len() && nodes[i] is Some
}

/// Number of slots that hold a payload.
pub open spec fn live_count<N>(nodes: Seq<Option<N>>) -> nat
    decreases nodes.len(),
{
    if nodes.len() == 0 {
        0
    } else {
        live_count(nodes.drop_last()) + if nodes.last() is Some {
            1nat
        } else {
            0nat
        }
    }
}

/// Sum of the lengths of all adjacency lists.
pub open spec fn edge_total<W>(edges: Seq<Seq<(usize, W)>>) -> nat
    decreases edges.len(),
{
    if edges.len() == 0 {
        0
    } else {
        edge_total(edges.drop_last()) + edges.last().len()
    }
}

/// Some entry of `row` points at `b`.
pub open spec fn row_has<W>(row: Seq<(usize, W)>, b: usize) -> bool {
    exists|j: int| 0 <= j < row.len() && (#[trigger] row[j]).0 == b
}

impl<N, W> GraphModel<N, W> {
    /// Node `i` is present.
    pub open spec fn has_node(self, i: int) -> bool {
        is_live(self.nodes, i)
    }

    /// Both endpoints are present and `a` lists `b` among its targets.
    pub open spec fn has_edge(self, a: int, b: int) -> bool {
        &&& self.has_node(a)
        &&& self.has_node(b)
        &&& a < self.edges.len()
        &&& row_has(self.edges[a], b as usize)
    }

    /// The root index, reported only while it names a present node.
    pub open spec fn live_root(self) -> Option<usize> {
        match self.root {
            Some(r) => if self.has_node(r as int) {
                Some(r)
            } else {
                None
            },
            None => None,
        }
    }

    /// The adjacency list of every removed slot is empty.
    pub open spec fn tombstones_bare(self) -> bool {
        forall|i: int|
            0 <= i < self.nodes.len() && i < self.edges.len() && self.nodes[i] is None ==> (
            #[trigger] self.edges[i]).len() == 0
    }

    /// One adjacency list per slot, every target a slot index.
    pub open spec fn well_formed(self) -> bool {
        &&& self.nodes.len() == self.edges.len()
        &&& forall|a: int, j: int|
            0 <= a < self.edges.len() && 0 <= j < self.edges[a].len() ==> (
            #[trigger] self.edges[a][j]).0 < self.nodes.len()
    }
}

/// The total of a prefix never exceeds the total of the whole.
pub proof fn lemma_edge_total_prefix<W>(edges: Seq<Seq<(usize, W)>>, k: int)
    requires
        0 <= k <= edges.len(),
    ensures
        edge_total(edges.take(k)) <= edge_total(edges),
    decreases edges.len() - k,
{
    if k < edges.len() {
        lemma_edge_total_prefix(edges, k + 1);
        assert(edges.take(k + 1).drop_last() =~= edges.take(k));
    } else {
        assert(edges.take(k) =~= edges);
    }
}

/// Number of present nodes before slot `i`: the index that slot `i` gets when the
/// removed slots are dropped.
pub open spec fn rank<N>(nodes: Seq<Option<N>>, i: int) -> nat {
    live_count(nodes.take(i))
}

/// What is left of an adjacency list when the removed slots are dropped: the
/// entries whose target is present, each target replaced by its rank.
pub open spec fn kept_row<N, W>(nodes: Seq<Option<N>>, row: Seq<(usize, W)>) -> Seq<(usize, W)>
    decreases row.len(),
{
    if row.len() == 0 {
        Seq::empty()
    } else {
        let rest = kept_row(nodes, row.drop_last());
        let entry = row.last();
        if is_live(nodes, entry.0 as int) {
            rest.push((rank(nodes, entry.0 as int) as usize, entry.1))
        } else {
            rest
        }
    }
}

/// The targets of `row` never decrease.
pub open spec fn sorted_by_target<W>(row: Seq<(usize, W)>) -> bool {
    forall|p: int, q: int| 0 <= p <= q < row.len() ==> (#[trigger] row[p]).0 <= (#[trigger] row[q]).0
}

impl<N, W> GraphModel<N, W> {
    /// The root after the removed slots are dropped.
    pub open spec fn compact_root(self) -> Option<usize> {
        match self.live_root() {
            Some(r) => Some(rank(self.nodes, r as int) as usize),
            None => None,
        }
    }

    /// `frozen` is `self` without its removed slots: the present nodes in
    /// order, renumbered by rank; for each of them the edges to present
    /// targets, as a bag and sorted by target; and the root, if still present.
    pub open spec fn freezes_to(self, frozen: GraphModel<N, W>) -> bool {
        &&& frozen.nodes.len() == live_count(self.nodes)
        &&& frozen.edges.len() == frozen.nodes.len()
        &&& forall|i: int| #[trigger]
            is_live(self.nodes, i) ==> {
                let r = rank(self.nodes, i) as int;
                &&& frozen.nodes[r] == self.nodes[i]
                &&& frozen.edges[r].to_multiset() == kept_row(self.nodes, self.edges[i]).to_multiset()
                &&& sorted_by_target(frozen.edges[r])
            }
        &&& frozen.root == self.compact_root()
    }
}

/// The rank grows by one past a present slot and stays past a removed one.
pub proof fn lemma_rank_step<N>(nodes: Seq<Option<N>>, i: int)
    requires
        0 <= i < nodes.len(),
    ensures
        rank(nodes, i + 1) == rank(nodes, i) + if nodes[i] is Some {
            1nat
        } else {
            0nat
        },
{
    assert(nodes.take(i + 1).drop_last() =~= nodes.take(i));
}

/// Ranks never decrease, and they stay below the number of present nodes.
pub proof fn lemma_rank_monotone<N>(nodes: Seq<Option<N>>, i: int, j: int)
    requires
        0 <= i <= j <= nodes.len(),
    ensures
        rank(nodes, i) <= rank(nodes, j),
        rank(nodes, j) <= live_count(nodes),
        i < j && nodes[i] is Some ==> rank(nodes, i) < rank(nodes, j),
    decreases j - i,
{
    lemma_rank_below_total(nodes, j);
    if i < j {
        lemma_rank_step(nodes, i);
        lemma_rank_below_total(nodes, i + 1);
        lemma_rank_monotone(nodes, i + 1, j);
    }
}

/// No rank exceeds the number of present nodes.
pub proof fn lemma_rank_below_total<N>(nodes: Seq<Option<N>>, j: int)
    requires
        0 <= j <= nodes.len(),
    ensures
        rank(nodes, j) <= live_count(nodes),
    decreases nodes.len() - j,
{
    if j < nodes.len() {
        lemma_rank_step(nodes, j);
        lemma_rank_below_total(nodes, j + 1);
    } else {
        assert(nodes.take(j) =~= nodes);
    }
}

/// Without removed slots every rank is the index itself.
pub proof fn lemma_rank_identity<N>(nodes: Seq<Option<N>>, i: int)
    requires
        0 <= i <= nodes.len(),
        forall|k: int| 0 <= k < nodes.len() ==> nodes[k] is Some,
    ensures
        rank(nodes, i) == i,
    decreases i,
{
    if i > 0 {
        lemma_rank_identity(nodes, i - 1);
        lemma_rank_step(nodes, i - 1);
    }
}

/// Without removed slots, and with every target a slot, nothing is dropped
/// from an adjacency list.
pub proof fn lemma_kept_row_identity<N, W>(nodes: Seq<Option<N>>, row: Seq<(usize, W)>)
    requires
        forall|k: int| 0 <= k < nodes.len() ==> nodes[k] is Some,
        forall|j: int| 0 <= j < row.len() ==> (#[trigger] row[j]).0 < nodes.len(),
    ensures
        kept_row(nodes, row) == row,
    decreases row.len(),
{
    if row.len() > 0 {
        lemma_kept_row_identity(nodes, row.drop_last());
        lemma_rank_identity(nodes, row.last().0 as int);
        assert(row.drop_last().push(row.last()) =~= row);
    }
}

/// Every entry of a kept row comes from an entry of the row whose target is
/// present, and carries that target's rank and the same weight.
pub proof fn lemma_kept_row_origin<N, W>(nodes: Seq<Option<N>>, row: Seq<(usize, W)>, k: int)
    requires
        0 <= k < kept_row(nodes, row).len(),
    ensures
        exists|j: int|
            0 <= j < row.len() && is_live(nodes, (#[trigger] row[j]).0 as int) && kept_row(
                nodes,
                row,
            )[k] == (rank(nodes, row[j].0 as int) as usize, row[j].1),
    decreases row.len(),
{
    let entry = row.last();
    let rest = kept_row(nodes, row.drop_last());
    if is_live(nodes, entry.0 as int) && k == rest.len() {
        assert(row[row.len() - 1] == entry);
    } else {
        lemma_kept_row_origin(nodes, row.drop_last(), k);
        let j = choose|j: int|
            0 <= j < row.drop_last().len() && is_live(nodes, (#[trigger] row.drop_last()[j]).0 as int)
                && rest[k] == (rank(nodes, row.drop_last()[j].0 as int) as usize, row.drop_last()[j].1);
        assert(row[j] == row.drop_last()[j]);
    }
}

/// Freezing a graph without removed slots keeps every node at its index,
/// keeps the root while it names a slot, and keeps each adjacency list as a
/// bag, now sorted by target.
pub proof fn lemma_freeze_without_tombstones<N, W>(graph: GraphModel<N, W>, frozen: GraphModel<N, W>)
    requires
        graph.well_formed(),
        forall|k: int| 0 <= k < graph.nodes.len() ==> graph.nodes[k] is Some,
        graph.freezes_to(frozen),
    ensures
        frozen.nodes == graph.nodes,
        frozen.root == graph.live_root(),
        frozen.edges.len() == graph.edges.len(),
        forall|i: int|
            0 <= i < graph.edges.len() ==> (#[trigger] frozen.edges[i]).to_multiset()
                == graph.edges[i].to_multiset() && sorted_by_target(frozen.edges[i]),
{
    let n = graph.nodes.len() as int;
    lemma_rank_identity(graph.nodes, n);
    assert(graph.nodes.take(n) =~= graph.nodes);
    assert forall|i: int| 0 <= i < n implies #[trigger] frozen.nodes[i] == graph.nodes[i] by {
        assert(is_live(graph.nodes, i));
        lemma_rank_identity(graph.nodes, i);
    }
    assert forall|i: int| 0 <= i < n implies (#[trigger] frozen.edges[i]).to_multiset()
        == graph.edges[i].to_multiset() && sorted_by_target(frozen.edges[i]) by {
        assert(is_live(graph.nodes, i));
        lemma_rank_identity(graph.nodes, i);
        lemma_kept_row_identity(graph.nodes, graph.edges[i]);
    }
    assert(frozen.nodes =~= graph.nodes);
    if graph.live_root() is Some {
        lemma_rank_identity(graph.nodes, graph.root->0 as int);
    }
}

/// Freezing and then unfreezing a graph without removed slots gives the graph
/// back, up to the order of the entries within each adjacency list, which
/// comes back sorted by target.
pub proof fn lemma_round_trip<N, W>(
    graph: GraphModel<N, W>,
    frozen: GraphModel<N, W>,
    thawed: GraphModel<N, W>,
)
    requires
        graph.well_formed(),
        forall|k: int| 0 <= k < graph.nodes.len() ==> graph.nodes[k] is Some,
        graph.freezes_to(frozen),
        thawed == frozen,
    ensures
        thawed.nodes == graph.nodes,
        thawed.root == graph.live_root(),
        thawed.edges.len() == graph.edges.len(),
        forall|i: int|
            0 <= i < graph.edges.len() ==> (#[trigger] thawed.edges[i]).to_multiset()
                == graph.edges[i].to_multiset() && sorted_by_target(thawed.edges[i]),
{
    lemma_freeze_without_tombstones(graph, frozen);
}

/// `entry` is what freezing makes of some entry of list `i` whose target is
/// present: that target's rank, with the same weight.
pub open spec fn kept_from<N, W>(graph: GraphModel<N, W>, i: int, entry: (usize, W)) -> bool {
    exists|j: int|
        0 <= j < graph.edges[i].len() && is_live(graph.nodes, (#[trigger] graph.edges[i][j]).0 as int)
            && entry == (rank(graph.nodes, graph.edges[i][j].0 as int) as usize, graph.edges[i][j].1)
}

/// Freezing keeps as many nodes as were present, and every edge that is left
/// joins two nodes that were present: it is the image of an edge between
/// them, with the same weight.
pub proof fn lemma_freeze_purges<N, W>(graph: GraphModel<N, W>, frozen: GraphModel<N, W>)
    requires
        graph.well_formed(),
        graph.freezes_to(frozen),
    ensures
        live_count(frozen.nodes) == live_count(graph.nodes),
        forall|i: int, k: int|
            is_live(graph.nodes, i) && 0 <= k < frozen.edges[rank(graph.nodes, i) as int].len()
                ==> #[trigger] kept_from(graph, i, frozen.edges[rank(graph.nodes, i) as int][k]),
{
    broadcast use vstd::seq_lib::group_to_multiset_ensures;

    lemma_frozen_all_live(graph, frozen, frozen.nodes.len() as int);
    assert(frozen.nodes.take(frozen.nodes.len() as int) =~= frozen.nodes);
    assert forall|i: int, k: int|
        is_live(graph.nodes, i) && 0 <= k < frozen.edges[rank(
            graph.nodes,
            i,
        ) as int].len() implies #[trigger] kept_from(
        graph,
        i,
        frozen.edges[rank(graph.nodes, i) as int][k],
    ) by {
        let row = frozen.edges[rank(graph.nodes, i) as int];
        let kept = kept_row(graph.nodes, graph.edges[i]);
        assert(row.to_multiset() == kept.to_multiset());
        assert(row.contains(row[k]));
        assert(kept.to_multiset().count(row[k]) > 0);
        assert(kept.contains(row[k]));
        let m = choose|m: int| 0 <= m < kept.len() && kept[m] == row[k];
        lemma_kept_row_origin(graph.nodes, graph.edges[i], m);
    }
}

/// Every slot of a frozen graph holds a payload.
pub proof fn lemma_frozen_all_live<N, W>(graph: GraphModel<N, W>, frozen: GraphModel<N, W>, k: int)
    requires
        graph.freezes_to(frozen),
        0 <= k <= frozen.nodes.len(),
    ensures
        live_count(frozen.nodes.take(k)) == k,
    decreases k,
{
    if k > 0 {
        lemma_frozen_all_live(graph, frozen, k - 1);
        assert(frozen.nodes.take(k).drop_last() =~= frozen.nodes.take(k - 1));
        lemma_slot_of_rank(graph.nodes, k - 1);
        let i = choose|i: int| is_live(graph.nodes, i) && rank(graph.nodes, i) == k - 1;
        assert(frozen.nodes[k - 1] == graph.nodes[i]);
    }
}

/// Every number below the count of present nodes is the rank of a present slot.
pub proof fn lemma_slot_of_rank<N>(nodes: Seq<Option<N>>, r: int)
    requires
        0 <= r < live_count(nodes),
    ensures
        exists|i: int| #[trigger] is_live(nodes, i) && rank(nodes, i) == r,
    decreases nodes.len(),
{
    if nodes.len() > 0 {
        let front = nodes.drop_last();
        let last = nodes.len() - 1;
        if nodes.last() is Some && r == live_count(front) {
            assert(nodes.take(last) =~= front);
            assert(is_live(nodes, last) && rank(nodes, last) == r);
        } else {
            lemma_slot_of_rank(front, r);
            let i = choose|i: int| #[trigger] is_live(front, i) && rank(front, i) == r;
            assert(front.take(i) =~= nodes.take(i));
            assert(is_live(nodes, i) && rank(nodes, i) == r);
        }
    }
}

} // verus!
