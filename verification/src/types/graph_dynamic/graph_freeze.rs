use crate::model::{
    is_live, kept_row, lemma_rank_monotone, lemma_rank_step, live_count, rank, sorted_by_target,
    GraphModel,
};
use crate::traits::graph_evolution::Freezable;
use crate::types::graph_csm::graph_view::span_sorted;
use crate::types::graph_csm::{pairs_between, CsmGraph, CsrAdjacency};
use crate::types::graph_dynamic::DynamicGraph;
use vstd::prelude::*;

verus! {

/// Exchanging two entries of a sequence keeps its entries as a bag.
pub proof fn lemma_swap_keeps_bag<A>(s: Seq<A>, i: int, j: int)
    requires
        0 <= i < s.len(),
        0 <= j < s.len(),
    ensures
        s.update(i, s[j]).update(j, s[i]).to_multiset() == s.to_multiset(),
{
    broadcast use vstd::seq_lib::group_to_multiset_ensures;

    assert(s.update(i, s[j]).update(j, s[i]).to_multiset() =~= s.to_multiset());
}

/// Sum of the entries of `degrees`.
pub open spec fn degree_sum(degrees: Seq<usize>) -> nat
    decreases degrees.len(),
{
    if degrees.len() == 0 {
        0
    } else {
        degree_sum(degrees.drop_last()) + degrees.last() as nat
    }
}

/// The sum of a prefix never exceeds the sum of a longer prefix.
pub proof fn lemma_degree_sum_prefix(degrees: Seq<usize>, i: int, j: int)
    requires
        0 <= i <= j <= degrees.len(),
    ensures
        degree_sum(degrees.take(i)) <= degree_sum(degrees.take(j)),
    decreases j - i,
{
    if i < j {
        lemma_degree_sum_prefix(degrees, i, j - 1);
        assert(degrees.take(j).drop_last() =~= degrees.take(j - 1));
    }
}

/// Raising one entry by one raises the sum by one, and no entry exceeds the sum.
pub proof fn lemma_degree_sum_bump(degrees: Seq<usize>, c: int)
    requires
        0 <= c < degrees.len(),
        degrees[c] < usize::MAX,
    ensures
        degree_sum(degrees.update(c, (degrees[c] + 1) as usize)) == degree_sum(degrees) + 1,
        degrees[c] <= degree_sum(degrees),
    decreases degrees.len(),
{
    let after = degrees.update(c, (degrees[c] + 1) as usize);
    if c == degrees.len() - 1 {
        assert(after.drop_last() =~= degrees.drop_last());
    } else {
        lemma_degree_sum_bump(degrees.drop_last(), c);
        assert(after.drop_last() =~= degrees.drop_last().update(c, (degrees[c] + 1) as usize));
    }
}

/// Running sums of `degrees`: entry `k` of the result is the sum of the first
/// `k` degrees, so the result has one entry more than `degrees`.
pub fn calculate_offsets(degrees: &Vec<usize>) -> (offsets: Vec<usize>)
    requires
        degree_sum(degrees@) <= usize::MAX,
    ensures
        offsets.len() == degrees.len() + 1,
        forall|k: int| 0 <= k <= degrees.len() ==> #[trigger] offsets[k] == degree_sum(degrees@.take(k)),
{
    let mut offsets: Vec<usize> = Vec::new();
    let mut total: usize = 0;
    offsets.push(total);
    let mut i: usize = 0;
    while i < degrees.len()
        invariant
            i <= degrees.len(),
            degree_sum(degrees@) <= usize::MAX,
            offsets.len() == i + 1,
            total == degree_sum(degrees@.take(i as int)),
            forall|k: int| 0 <= k <= i ==> #[trigger] offsets[k] == degree_sum(degrees@.take(k)),
        decreases degrees.len() - i,
    {
        proof {
            assert(degrees@.take(i + 1).drop_last() =~= degrees@.take(i as int));
            lemma_degree_sum_prefix(degrees@, i + 1, degrees.len() as int);
            assert(degrees@.take(degrees.len() as int) =~= degrees@);
        }
        total = total + degrees[i];
        offsets.push(total);
        i = i + 1;
    }
    offsets
}

/// Sorts the pairs stored at positions `start` up to `end` by partner index,
/// moving each weight with its partner. Positions outside the span are left as
/// they are.
pub fn sort_span<W>(
    targets: &mut Vec<usize>,
    weights: &mut Vec<W>,
    start: usize,
    end: usize,
    Ghost(bound): Ghost<int>,
)
    requires
        start <= end <= old(targets).len(),
        old(targets).len() == old(weights).len(),
        forall|p: int| 0 <= p < old(targets).len() ==> #[trigger] old(targets)[p] < bound,
    ensures
        forall|p: int| 0 <= p < final(targets).len() ==> #[trigger] final(targets)[p] < bound,
        final(targets).len() == old(targets).len(),
        final(weights).len() == old(weights).len(),
        forall|p: int|
            0 <= p < old(targets).len() && !(start <= p < end) ==> #[trigger] final(targets)[p] == old(targets)[p],
        forall|p: int|
            0 <= p < old(weights).len() && !(start <= p < end) ==> #[trigger] final(weights)[p] == old(weights)[p],
        pairs_between(final(targets)@, final(weights)@, start as int, end as int).to_multiset()
            == pairs_between(old(targets)@, old(weights)@, start as int, end as int).to_multiset(),
        span_sorted(final(targets)@, start as int, end as int),
{
    if end - start < 2 {
        return ;
    }
    let mut k = start + 1;
    while k < end
        invariant
            start < k <= end <= targets.len(),
            forall|p: int| 0 <= p < targets.len() ==> #[trigger] targets[p] < bound,
            targets.len() == old(targets).len(),
            weights.len() == old(weights).len(),
            targets.len() == weights.len(),
            forall|p: int|
                0 <= p < targets.len() && !(start <= p < end) ==> #[trigger] targets[p] == old(targets)[p],
            forall|p: int|
                0 <= p < weights.len() && !(start <= p < end) ==> #[trigger] weights[p] == old(weights)[p],
            pairs_between(targets@, weights@, start as int, end as int).to_multiset()
                == pairs_between(old(targets)@, old(weights)@, start as int, end as int).to_multiset(),
            span_sorted(targets@, start as int, k as int),
        decreases end - k,
    {
        let mut j = k;
        while j > start && targets[j - 1] > targets[j]
            invariant
                start <= j <= k < end <= targets.len(),
                forall|p: int| 0 <= p < targets.len() ==> #[trigger] targets[p] < bound,
                targets.len() == old(targets).len(),
                weights.len() == old(weights).len(),
                targets.len() == weights.len(),
                forall|p: int|
                    0 <= p < targets.len() && !(start <= p < end) ==> #[trigger] targets[p] == old(targets)[p],
                forall|p: int|
                    0 <= p < weights.len() && !(start <= p < end) ==> #[trigger] weights[p] == old(weights)[p],
                pairs_between(targets@, weights@, start as int, end as int).to_multiset()
                    == pairs_between(
                    old(targets)@,
                    old(weights)@,
                    start as int,
                    end as int,
                ).to_multiset(),
                forall|p: int, q: int|
                    start <= p <= q <= k && p != j && q != j ==> #[trigger] targets[p] <= #[trigger] targets[q],
                forall|q: int| j < q <= k ==> targets[j as int] <= #[trigger] targets[q],
            decreases j,
        {
            let ghost before_t = targets@;
            let ghost before_w = weights@;
            targets.swap(j - 1, j);
            weights.swap(j - 1, j);
            proof {
                assert(targets@ == before_t.update(j - 1, before_t[j as int]).update(
                    j as int,
                    before_t[j - 1],
                ));
                assert(weights@ == before_w.update(j - 1, before_w[j as int]).update(
                    j as int,
                    before_w[j - 1],
                ));
                let row = pairs_between(before_t, before_w, start as int, end as int);
                let a = j - 1 - start;
                let b = j - start;
                lemma_swap_keeps_bag(row, a, b);
                assert(pairs_between(targets@, weights@, start as int, end as int) =~= row.update(
                    a,
                    row[b],
                ).update(b, row[a]));
            }
            j = j - 1;
        }
        k = k + 1;
    }
}

/// Row `r` of `targets`, as delimited by `offsets`, never decreases.
pub open spec fn row_sorted_at(offsets: Seq<usize>, targets: Seq<usize>, r: int) -> bool {
    span_sorted(targets, offsets[r] as int, offsets[r + 1] as int)
}

/// Sorts every row of a compressed-sparse-row structure by partner index.
/// Each row keeps its pairs as a bag; which of two pairs with the same partner
/// comes first is not fixed.
pub fn sort_adjacencies<W>(
    offsets: &Vec<usize>,
    targets: &mut Vec<usize>,
    weights: &mut Vec<W>,
    Ghost(bound): Ghost<int>,
)
    requires
        forall|p: int| 0 <= p < old(targets).len() ==> #[trigger] old(targets)[p] < bound,
        offsets.len() >= 1,
        forall|i: int, j: int|
            0 <= i <= j < offsets.len() ==> #[trigger] offsets[i] <= #[trigger] offsets[j],
        offsets[offsets.len() - 1] == old(targets).len(),
        old(targets).len() == old(weights).len(),
    ensures
        forall|p: int| 0 <= p < final(targets).len() ==> #[trigger] final(targets)[p] < bound,
        final(targets).len() == old(targets).len(),
        final(weights).len() == old(weights).len(),
        forall|p: int| 0 <= p < offsets[0] ==> #[trigger] final(targets)[p] == old(targets)[p],
        forall|p: int| 0 <= p < offsets[0] ==> #[trigger] final(weights)[p] == old(weights)[p],
        forall|r: int|
            0 <= r < offsets.len() - 1 ==> #[trigger] pairs_between(
                final(targets)@,
                final(weights)@,
                offsets[r] as int,
                offsets[r + 1] as int,
            ).to_multiset() == pairs_between(
                old(targets)@,
                old(weights)@,
                offsets[r] as int,
                offsets[r + 1] as int,
            ).to_multiset(),
        forall|r: int|
            0 <= r < offsets.len() - 1 ==> #[trigger] row_sorted_at(offsets@, final(targets)@, r),
{
    let rows = offsets.len() - 1;
    let mut i: usize = 0;
    while i < rows
        invariant
            i <= rows,
            rows == offsets.len() - 1,
            forall|p: int| 0 <= p < targets.len() ==> #[trigger] targets[p] < bound,
            forall|a: int, b: int|
                0 <= a <= b < offsets.len() ==> #[trigger] offsets[a] <= #[trigger] offsets[b],
            offsets[offsets.len() - 1] == targets.len(),
            targets.len() == old(targets).len(),
            weights.len() == old(weights).len(),
            targets.len() == weights.len(),
            forall|p: int|
                0 <= p < targets.len() && !(offsets[0] <= p < offsets[i as int]) ==> #[trigger] targets[p]
                    == old(targets)[p],
            forall|p: int|
                0 <= p < weights.len() && !(offsets[0] <= p < offsets[i as int]) ==> #[trigger] weights[p]
                    == old(weights)[p],
            forall|r: int|
                0 <= r < i ==> #[trigger] pairs_between(
                    targets@,
                    weights@,
                    offsets[r] as int,
                    offsets[r + 1] as int,
                ).to_multiset() == pairs_between(
                    old(targets)@,
                    old(weights)@,
                    offsets[r] as int,
                    offsets[r + 1] as int,
                ).to_multiset(),
            forall|r: int| 0 <= r < i ==> #[trigger] row_sorted_at(offsets@, targets@, r),
        decreases rows - i,
    {
        let start = offsets[i];
        let end = offsets[i + 1];
        let ghost before_t = targets@;
        let ghost before_w = weights@;
        sort_span(targets, weights, start, end, Ghost(bound));
        proof {
            assert(pairs_between(before_t, before_w, start as int, end as int) =~= pairs_between(
                old(targets)@,
                old(weights)@,
                start as int,
                end as int,
            ));
            assert forall|r: int| 0 <= r < i implies #[trigger] pairs_between(
                targets@,
                weights@,
                offsets[r] as int,
                offsets[r + 1] as int,
            ) =~= pairs_between(before_t, before_w, offsets[r] as int, offsets[r + 1] as int) by {
                assert(offsets[r + 1] <= offsets[i as int]);
            }
            assert(offsets[0] <= offsets[i as int] && offsets[i as int] <= offsets[i + 1]);
            assert forall|p: int|
                0 <= p < targets.len() && !(offsets[0] <= p < offsets[i + 1]) implies #[trigger] targets[p]
                == old(targets)[p] by {
                assert(!(start <= p < end));
                assert(targets[p] == before_t[p]);
            }
            assert forall|p: int|
                0 <= p < weights.len() && !(offsets[0] <= p < offsets[i + 1]) implies #[trigger] weights[p]
                == old(weights)[p] by {
                assert(!(start <= p < end));
                assert(weights[p] == before_w[p]);
            }
            assert forall|r: int| 0 <= r < i implies #[trigger] row_sorted_at(offsets@, targets@, r) by {
                assert(offsets[r + 1] <= offsets[i as int]);
                assert(row_sorted_at(offsets@, before_t, r));
            }
        }
        i = i + 1;
    }
}

/// The root index after the removed slots are dropped, if the root is present.
pub open spec fn moved_root<N>(nodes: Seq<Option<N>>, root: Option<usize>, upto: int) -> Option<
    usize,
> {
    match root {
        Some(r) => if r < upto && is_live(nodes, r as int) {
            Some(rank(nodes, r as int) as usize)
        } else {
            None
        },
        None => None,
    }
}

/// Moves the payloads of the present slots into a compact vector. Beside it
/// come, for every slot, its new index (meaningful for present slots) and
/// whether the slot was removed, and the new index of the root.
pub fn compact_nodes<N>(nodes: Vec<Option<N>>, root: Option<usize>) -> (out: (
    Vec<N>,
    Vec<usize>,
    Vec<bool>,
    Option<usize>,
))
    ensures
        out.0.len() == live_count(nodes@),
        out.1.len() == nodes.len(),
        out.2.len() == nodes.len(),
        forall|i: int| 0 <= i < nodes.len() ==> #[trigger] out.2[i] == (nodes[i] is None),
        forall|i: int| #[trigger]
            is_live(nodes@, i) ==> out.1[i] == rank(nodes@, i) && Some(out.0[rank(nodes@, i) as int])
                == nodes[i],
        out.3 == moved_root(nodes@, root, nodes.len() as int),
{
    let ghost slots = nodes@;
    let mut compacted: Vec<N> = Vec::with_capacity(nodes.len());
    let mut remap: Vec<usize> = Vec::with_capacity(nodes.len());
    let mut tombstoned: Vec<bool> = Vec::with_capacity(nodes.len());
    let mut new_root: Option<usize> = None;
    let mut i: usize = 0;
    for slot in it: nodes.into_iter()
        invariant
            it.seq() == slots,
            i == it.index(),
            slots.len() <= usize::MAX,
            compacted.len() == rank(slots, i as int),
            remap.len() == i,
            tombstoned.len() == i,
            forall|k: int| 0 <= k < i ==> #[trigger] tombstoned[k] == (slots[k] is None),
            forall|k: int|
                0 <= k < i && #[trigger] is_live(slots, k) ==> remap[k] == rank(slots, k) && Some(
                    compacted[rank(slots, k) as int],
                ) == slots[k],
            new_root == moved_root(slots, root, i as int),
    {
        proof {
            lemma_rank_step(slots, i as int);
            assert forall|k: int| 0 <= k < i && #[trigger] is_live(slots, k) implies rank(slots, k)
                < rank(slots, i as int) by {
                lemma_rank_monotone(slots, k, i as int);
            }
        }
        match slot {
            Some(node) => {
                let new_index = compacted.len();
                remap.push(new_index);
                tombstoned.push(false);
                compacted.push(node);
                match root {
                    Some(r) => {
                        if r == i {
                            new_root = Some(new_index);
                        }
                    },
                    None => {},
                }
            },
            None => {
                remap.push(0);
                tombstoned.push(true);
            },
        }
        i = i + 1;
    }
    proof {
        assert(slots.take(slots.len() as int) =~= slots);
    }
    (compacted, remap, tombstoned, new_root)
}

/// Lays the edges between present nodes out row by row, in the order in which
/// the lists hold them: row `rank(i)` holds the kept entries of list `i`.
pub fn build_forward<N, W>(
    Ghost(slots): Ghost<Seq<Option<N>>>,
    edges: Vec<Vec<(usize, W)>>,
    remap: &Vec<usize>,
    tombstoned: &Vec<bool>,
) -> (forward: CsrAdjacency<W>)
    requires
        slots.len() == edges.len(),
        remap.len() == edges.len(),
        tombstoned.len() == edges.len(),
        forall|i: int| 0 <= i < slots.len() ==> #[trigger] tombstoned[i] == (slots[i] is None),
        forall|i: int| #[trigger] is_live(slots, i) ==> remap[i] == rank(slots, i),
        forall|a: int, j: int|
            0 <= a < edges.len() && 0 <= j < edges[a].len() ==> (#[trigger] edges[a][j]).0 < slots.len(),
    ensures
        forward.well_shaped(live_count(slots) as int),
        forall|i: int| #[trigger]
            is_live(slots, i) ==> forward.row_pairs(rank(slots, i) as int) == kept_row(
                slots,
                edges[i]@,
            ),
{
    let ghost lists = edges@;
    let ghost total = live_count(slots) as int;
    let mut offsets: Vec<usize> = Vec::new();
    let mut targets: Vec<usize> = Vec::new();
    let mut weights: Vec<W> = Vec::new();
    offsets.push(0);
    let mut i: usize = 0;
    for list in it: edges.into_iter()
        invariant
            it.seq() == lists,
            i == it.index(),
            slots.len() <= usize::MAX,
            slots.len() == lists.len(),
            remap.len() == lists.len(),
            tombstoned.len() == lists.len(),
            total == live_count(slots),
            forall|k: int| 0 <= k < slots.len() ==> #[trigger] tombstoned[k] == (slots[k] is None),
            forall|k: int| #[trigger] is_live(slots, k) ==> remap[k] == rank(slots, k),
            forall|a: int, j: int|
                0 <= a < lists.len() && 0 <= j < lists[a].len() ==> (#[trigger] lists[a][j]).0
                    < slots.len(),
            offsets.len() == rank(slots, i as int) + 1,
            offsets[0] == 0,
            forall|a: int, b: int|
                0 <= a <= b < offsets.len() ==> #[trigger] offsets[a] <= #[trigger] offsets[b],
            offsets[offsets.len() - 1] == targets.len(),
            weights.len() == targets.len(),
            forall|p: int| 0 <= p < targets.len() ==> #[trigger] targets[p] < total,
            forall|k: int|
                0 <= k < i && #[trigger] is_live(slots, k) ==> pairs_between(
                    targets@,
                    weights@,
                    offsets[rank(slots, k) as int] as int,
                    offsets[rank(slots, k) as int + 1] as int,
                ) == kept_row(slots, lists[k]@),
    {
        proof {
            lemma_rank_step(slots, i as int);
            assert forall|k: int| 0 <= k < i && #[trigger] is_live(slots, k) implies rank(slots, k)
                < rank(slots, i as int) by {
                lemma_rank_monotone(slots, k, i as int);
            }
        }
        if !tombstoned[i] {
            let ghost start = targets.len() as int;
            let ghost done_targets = targets@;
            let ghost done_weights = weights@;
            let ghost entries = list@;
            for entry in inner: list.into_iter()
                invariant
                    inner.seq() == entries,
                    entries == lists[i as int]@,
                    i < lists.len(),
                    slots.len() == lists.len(),
                    remap.len() == lists.len(),
                    tombstoned.len() == lists.len(),
                    total == live_count(slots),
                    forall|k: int| 0 <= k < slots.len() ==> #[trigger] tombstoned[k] == (slots[k] is None),
                    forall|k: int| #[trigger] is_live(slots, k) ==> remap[k] == rank(slots, k),
                    forall|j: int| 0 <= j < entries.len() ==> (#[trigger] entries[j]).0 < slots.len(),
                    0 <= start <= targets.len(),
                    weights.len() == targets.len(),
                    targets@.take(start) == done_targets,
                    weights@.take(start) == done_weights,
                    forall|p: int| 0 <= p < targets.len() ==> #[trigger] targets[p] < total,
                    pairs_between(targets@, weights@, start, targets.len() as int) == kept_row(
                        slots,
                        entries.take(inner.index()),
                    ),
            {
                let ghost before_targets = targets@;
                let ghost before_weights = weights@;
                let (target, weight) = entry;
                proof {
                    assert(entries.take(inner.index() + 1).drop_last() =~= entries.take(inner.index()));
                    assert(entries.take(inner.index() + 1).last() == entries[inner.index()]);
                }
                if !tombstoned[target] {
                    proof {
                        assert(is_live(slots, target as int));
                        lemma_rank_monotone(slots, target as int, target + 1);
                        lemma_rank_step(slots, target as int);
                    }
                    targets.push(remap[target]);
                    weights.push(weight);
                    proof {
                        assert(targets@.take(start) =~= before_targets.take(start));
                        assert(weights@.take(start) =~= before_weights.take(start));
                        assert(pairs_between(targets@, weights@, start, targets.len() as int)
                            =~= pairs_between(
                            before_targets,
                            before_weights,
                            start,
                            before_targets.len() as int,
                        ).push((remap[target as int], weight)));
                    }
                }
            }
            proof {
                assert(entries.take(entries.len() as int) =~= entries);
                assert forall|k: int| 0 <= k < i && #[trigger] is_live(slots, k) implies pairs_between(
                    targets@,
                    weights@,
                    offsets[rank(slots, k) as int] as int,
                    offsets[rank(slots, k) as int + 1] as int,
                ) == kept_row(slots, lists[k]@) by {
                    let r = rank(slots, k) as int;
                    assert(offsets[r + 1] <= offsets[offsets.len() - 1]);
                    assert(pairs_between(
                        targets@,
                        weights@,
                        offsets[r] as int,
                        offsets[r + 1] as int,
                    ) =~= pairs_between(
                        done_targets,
                        done_weights,
                        offsets[r] as int,
                        offsets[r + 1] as int,
                    )) by {
                        assert forall|x: int| 0 <= x < start implies targets@[x] == done_targets[x]
                            && weights@[x] == done_weights[x] by {
                            assert(targets@.take(start)[x] == targets@[x]);
                            assert(weights@.take(start)[x] == weights@[x]);
                        }
                    }
                }
            }
            offsets.push(targets.len());
        }
        i = i + 1;
    }
    proof {
        assert(slots.take(slots.len() as int) =~= slots);
    }
    CsrAdjacency { offsets, targets, weights }
}

/// How often `c` occurs in `targets`.
pub open spec fn occurrences(targets: Seq<usize>, c: usize) -> nat
    decreases targets.len(),
{
    if targets.len() == 0 {
        0
    } else {
        occurrences(targets.drop_last(), c) + if targets.last() == c {
            1nat
        } else {
            0nat
        }
    }
}

/// One more position adds one occurrence of the value it holds and none of
/// any other.
pub proof fn lemma_occurrences_step(targets: Seq<usize>, p: int, c: usize)
    requires
        0 <= p < targets.len(),
    ensures
        occurrences(targets.take(p + 1), c) == occurrences(targets.take(p), c) + if targets[p] == c {
            1nat
        } else {
            0nat
        },
{
    assert(targets.take(p + 1).drop_last() =~= targets.take(p));
}

/// A prefix holds no more occurrences than the whole, and fewer when the
/// position that follows it holds the value.
pub proof fn lemma_occurrences_prefix(targets: Seq<usize>, p: int, c: usize)
    requires
        0 <= p <= targets.len(),
    ensures
        occurrences(targets.take(p), c) <= occurrences(targets, c),
        p < targets.len() && targets[p] == c ==> occurrences(targets.take(p), c) < occurrences(
            targets,
            c,
        ),
    decreases targets.len() - p,
{
    if p < targets.len() {
        lemma_occurrences_step(targets, p, c);
        lemma_occurrences_prefix(targets, p + 1, c);
    } else {
        assert(targets.take(p) =~= targets);
    }
}

/// No entry exceeds the sum of all entries.
pub proof fn lemma_degree_below_sum(degrees: Seq<usize>, c: int)
    requires
        0 <= c < degrees.len(),
    ensures
        degrees[c] <= degree_sum(degrees),
    decreases degrees.len(),
{
    if c < degrees.len() - 1 {
        lemma_degree_below_sum(degrees.drop_last(), c);
    }
}

/// Counts, for each of `n` nodes, the positions of `targets` that hold it.
pub fn count_degrees(targets: &Vec<usize>, n: usize) -> (degrees: Vec<usize>)
    requires
        forall|p: int| 0 <= p < targets.len() ==> #[trigger] targets[p] < n,
    ensures
        degrees.len() == n,
        forall|c: int| 0 <= c < n ==> #[trigger] degrees[c] == occurrences(targets@, c as usize),
        degree_sum(degrees@) == targets.len(),
{
    let mut degrees: Vec<usize> = Vec::with_capacity(n);
    let mut c: usize = 0;
    while c < n
        invariant
            c <= n,
            degrees.len() == c,
            degree_sum(degrees@) == 0,
            forall|k: int| 0 <= k < c ==> #[trigger] degrees[k] == 0,
        decreases n - c,
    {
        let ghost before = degrees@;
        degrees.push(0);
        proof {
            assert(degrees@.drop_last() =~= before);
        }
        c = c + 1;
    }
    let mut p: usize = 0;
    while p < targets.len()
        invariant
            p <= targets.len(),
            degrees.len() == n,
            forall|q: int| 0 <= q < targets.len() ==> #[trigger] targets[q] < n,
            forall|k: int|
                0 <= k < n ==> #[trigger] degrees[k] == occurrences(targets@.take(p as int), k as usize),
            degree_sum(degrees@) == p,
        decreases targets.len() - p,
    {
        let node = targets[p];
        proof {
            lemma_degree_below_sum(degrees@, node as int);
            lemma_degree_sum_bump(degrees@, node as int);
            assert forall|k: int| 0 <= k < n implies #[trigger] occurrences(
                targets@.take(p + 1),
                k as usize,
            ) == occurrences(targets@.take(p as int), k as usize) + if targets[p as int] == k {
                1nat
            } else {
                0nat
            } by {
                lemma_occurrences_step(targets@, p as int, k as usize);
            }
        }
        degrees[node] = degrees[node] + 1;
        p = p + 1;
    }
    proof {
        assert(targets@.take(targets.len() as int) =~= targets@);
    }
    degrees
}

/// Row `c` of the reversed structure has room for every occurrence of `c`.
pub open spec fn row_holds(offsets: Seq<usize>, partners: Seq<usize>, c: int) -> bool {
    offsets[c + 1] == offsets[c] + occurrences(partners, c as usize)
}

/// Position `x` of `source`, which lies in row `row`, has been moved to
/// position `slot` of the reversed structure.
pub open spec fn placed_at<W>(
    source: &CsrAdjacency<W>,
    offsets: Seq<usize>,
    heads: Seq<usize>,
    targets: Seq<usize>,
    weights: Seq<W>,
    row: int,
    slot: int,
    x: int,
) -> bool {
    &&& source.in_row(row, x)
    &&& written(offsets, heads, source.targets[x] as int, slot)
    &&& targets[slot] == row
    &&& weights[slot] == source.weights[x]
}

/// Position `q` of the reversed structure has been written for row `c`.
pub open spec fn written(offsets: Seq<usize>, heads: Seq<usize>, c: int, q: int) -> bool {
    offsets[c] <= q < heads[c]
}

/// The compressed-sparse-row structure that three arrays make up.
pub open spec fn as_rows<W>(offsets: Vec<usize>, targets: Vec<usize>, weights: Vec<W>) -> CsrAdjacency<
    W,
> {
    CsrAdjacency { offsets, targets, weights }
}

#[verifier::rlimit(80)]
/// Builds the reverse of a compressed-sparse-row structure of `n` rows by
/// counting: the occurrences of each node among the targets are counted and
/// the counts summed into offsets; then every edge is moved, in stored order,
/// to the next free position of the row of its target. Row `v` of the result
/// lists the rows that held `v`, ascending because the rows are visited in
/// ascending order, each with the weight of the edge it comes from.
pub fn transpose<W: Default>(offsets: &Vec<usize>, targets: &Vec<usize>, weights: Vec<W>, n: usize) -> (reversed:
    CsrAdjacency<W>)
    requires
        as_rows(*offsets, *targets, weights).well_shaped(n as int),
    ensures
        reversed.well_shaped(n as int),
        reversed.rows_sorted(n as int),
        reversed.targets.len() == targets.len(),
        exists|pairing: Seq<int>, inverse: Seq<int>|
            as_rows(*offsets, *targets, weights).matched_by(&reversed, n as int, pairing, inverse),
{
    let ghost source = as_rows(*offsets, *targets, weights);
    let ghost partners = targets@;
    let ghost stored = weights@;
    let total = targets.len();
    let degrees = count_degrees(targets, n);
    let new_offsets = calculate_offsets(&degrees);
    proof {
        assert(degrees@.take(n as int) =~= degrees@);
        assert forall|a: int, b: int| 0 <= a <= b <= n implies #[trigger] new_offsets[a]
            <= #[trigger] new_offsets[b] by {
            lemma_degree_sum_prefix(degrees@, a, b);
        }
        assert forall|c: int| 0 <= c < n implies #[trigger] row_holds(new_offsets@, partners, c) by {
            assert(degrees@.take(c + 1).drop_last() =~= degrees@.take(c));
        }
    }
    let mut heads: Vec<usize> = Vec::with_capacity(n);
    let mut c: usize = 0;
    while c < n
        invariant
            c <= n,
            new_offsets.len() == n + 1,
            heads.len() == c,
            forall|k: int| 0 <= k < c ==> #[trigger] heads[k] == new_offsets[k],
        decreases n - c,
    {
        heads.push(new_offsets[c]);
        c = c + 1;
    }
    let mut new_targets: Vec<usize> = Vec::with_capacity(total);
    let mut new_weights: Vec<W> = Vec::with_capacity(total);
    let mut q: usize = 0;
    while q < total
        invariant
            q <= total,
            new_targets.len() == q,
            new_weights.len() == q,
            forall|k: int| 0 <= k < q ==> #[trigger] new_targets[k] == 0,
        decreases total - q,
    {
        new_targets.push(0);
        new_weights.push(W::default());
        q = q + 1;
    }
    let ghost mut placed: Seq<int> = Seq::empty();
    let ghost mut sources: Seq<int> = Seq::empty();
    let ghost mut origin: Seq<int> = Seq::new(total as nat, |q: int| 0int);
    let mut u: usize = 0;
    let mut p: usize = 0;
    for weight in it: weights.into_iter()
        invariant
            it.seq() == stored,
            p == it.index(),
            source == as_rows(*offsets, *targets, weights),
            source.well_shaped(n as int),
            partners == targets@,
            stored == source.weights@,
            total == partners.len(),
            u <= n,
            p < total ==> u < n,
            u < n ==> offsets[u as int] <= p <= offsets[u + 1],
            new_offsets.len() == n + 1,
            new_offsets[0] == 0,
            new_offsets[n as int] == total,
            forall|a: int, b: int|
                0 <= a <= b <= n ==> #[trigger] new_offsets[a] <= #[trigger] new_offsets[b],
            forall|c: int| 0 <= c < n ==> #[trigger] row_holds(new_offsets@, partners, c),
            heads.len() == n,
            new_targets.len() == total,
            new_weights.len() == total,
            origin.len() == total,
            forall|k: int| 0 <= k < total ==> #[trigger] new_targets[k] < n || n == 0,
            forall|c: int|
                0 <= c < n ==> #[trigger] heads[c] == new_offsets[c] + occurrences(
                    partners.take(p as int),
                    c as usize,
                ),
            forall|c: int, k: int|
                0 <= c < n && #[trigger] written(new_offsets@, heads@, c, k) ==> new_targets[k] <= u,
            forall|c: int, j: int, k: int|
                0 <= c < n && #[trigger] written(new_offsets@, heads@, c, j) && #[trigger] written(
                    new_offsets@,
                    heads@,
                    c,
                    k,
                ) && j <= k ==> new_targets[j] <= new_targets[k],
            placed.len() == p,
            sources.len() == p,
            forall|x: int, y: int|
                0 <= x < y < placed.len() ==> #[trigger] placed[x] != #[trigger] placed[y],
            forall|x: int| 0 <= x < placed.len() ==> 0 <= #[trigger] sources[x] <= u,
            forall|x: int| 0 <= x < placed.len() ==> 0 <= #[trigger] placed[x] < total && origin[placed[x]] == x,
            forall|x: int|
                0 <= x < placed.len() ==> #[trigger] placed_at(
                    &source,
                    new_offsets@,
                    heads@,
                    new_targets@,
                    new_weights@,
                    sources[x],
                    placed[x],
                    x,
                ),
            forall|c: int, k: int|
                0 <= c < n && #[trigger] written(new_offsets@, heads@, c, k) ==> {
                    &&& 0 <= origin[k] < placed.len()
                    &&& placed[origin[k]] == k
                    &&& partners[origin[k]] == c
                    &&& new_targets[k] == sources[origin[k]]
                },
    {
        while offsets[u + 1] <= p
            invariant
                p < total,
                source.well_shaped(n as int),
                source.offsets == *offsets,
                total == source.targets.len(),
                u < n,
                offsets[u as int] <= p,
            decreases n - u,
        {
            proof {
                assert(offsets[u + 1] <= offsets[n as int]);
                if u + 1 == n {
                    assert(false);
                }
            }
            u = u + 1;
        }
        let node = targets[p];
        let slot = heads[node];
        proof {
            lemma_occurrences_prefix(partners, p as int, node);
            lemma_occurrences_step(partners, p as int, node);
            assert(row_holds(new_offsets@, partners, node as int));
            assert(new_offsets[node + 1] <= new_offsets[n as int]);
            assert forall|c: int| 0 <= c < n implies #[trigger] occurrences(
                partners.take(p + 1),
                c as usize,
            ) == occurrences(partners.take(p as int), c as usize) + if c == node {
                1nat
            } else {
                0nat
            } by {
                lemma_occurrences_step(partners, p as int, c as usize);
            }
            assert forall|c: int| 0 <= c < n implies #[trigger] heads[c] <= new_offsets[c + 1] by {
                lemma_occurrences_prefix(partners, p as int, c as usize);
                assert(row_holds(new_offsets@, partners, c));
            }
        }
        let ghost heads_before = heads@;
        let ghost targets_before = new_targets@;
        let ghost weights_before = new_weights@;
        new_targets[slot] = u;
        new_weights[slot] = weight;
        heads[node] = slot + 1;
        let ghost placed_before = placed;
        let ghost sources_before = sources;
        let ghost origin_before = origin;
        proof {
            placed = placed.push(slot as int);
            sources = sources.push(u as int);
            origin = origin.update(slot as int, p as int);
            assert forall|c: int, k: int|
                0 <= c < n && #[trigger] written(new_offsets@, heads@, c, k) implies (k == slot && c
                == node) || (k != slot && written(new_offsets@, heads_before, c, k)) by {
                if c != node {
                    assert(heads_before[c] <= new_offsets[c + 1]);
                    if c < node {
                        assert(new_offsets[c + 1] <= new_offsets[node as int]);
                    } else {
                        assert(new_offsets[node + 1] <= new_offsets[c]);
                    }
                }
            }
            assert forall|x: int| 0 <= x < placed.len() implies 0 <= #[trigger] sources[x] <= u by {
                if x < p {
                    assert(sources_before[x] == sources[x]);
                }
            }
            assert forall|x: int| 0 <= x < p implies #[trigger] placed_before[x] != slot by {
                assert(placed_at(
                    &source,
                    new_offsets@,
                    heads_before,
                    targets_before,
                    weights_before,
                    sources_before[x],
                    placed_before[x],
                    x,
                ));
                let c = partners[x] as int;
                assert(heads_before[c] <= new_offsets[c + 1]);
                if c < node {
                    assert(new_offsets[c + 1] <= new_offsets[node as int]);
                } else if c > node {
                    assert(new_offsets[node + 1] <= new_offsets[c]);
                }
            }
            assert forall|x: int| 0 <= x < placed.len() implies #[trigger] placed_at(
                &source,
                new_offsets@,
                heads@,
                new_targets@,
                new_weights@,
                sources[x],
                placed[x],
                x,
            ) by {
                if x < p {
                    assert(placed_at(
                        &source,
                        new_offsets@,
                        heads_before,
                        targets_before,
                        weights_before,
                        sources_before[x],
                        placed_before[x],
                        x,
                    ));
                    assert(placed_before[x] == placed[x]);
                    assert(placed_before[x] != slot);
                }
            }
            assert forall|x: int, y: int| 0 <= x < y < placed.len() implies #[trigger] placed[x]
                != #[trigger] placed[y] by {
                assert(placed_before[x] == placed[x]);
                if y < p {
                    assert(placed_before[y] == placed[y]);
                } else {
                    assert(placed_before[x] != slot);
                }
            }
            assert forall|x: int| 0 <= x < placed.len() implies 0 <= #[trigger] placed[x] < total
                && origin[placed[x]] == x by {
                if x < p {
                    assert(placed_before[x] == placed[x]);
                    assert(placed_before[x] != slot);
                    assert(origin_before[placed_before[x]] == x);
                }
            }
            assert forall|c: int, k: int|
                0 <= c < n && #[trigger] written(new_offsets@, heads@, c, k) implies {
                &&& 0 <= origin[k] < placed.len()
                &&& placed[origin[k]] == k
                &&& partners[origin[k]] == c
                &&& new_targets[k] == sources[origin[k]]
                &&& new_targets[k] <= u
            } by {
                if k != slot {
                    assert(written(new_offsets@, heads_before, c, k));
                    assert(origin_before[k] == origin[k]);
                    assert(sources_before[origin[k]] == sources[origin[k]]);
                    assert(placed_before[origin[k]] == placed[origin[k]]);
                }
            }
            assert forall|c: int, j: int, k: int|
                0 <= c < n && #[trigger] written(new_offsets@, heads@, c, j) && #[trigger] written(
                    new_offsets@,
                    heads@,
                    c,
                    k,
                ) && j <= k implies new_targets[j] <= new_targets[k] by {
                if k == slot {
                    if j != slot {
                        assert(written(new_offsets@, heads_before, c, j));
                    }
                } else {
                    assert(written(new_offsets@, heads_before, c, k));
                    assert(written(new_offsets@, heads_before, c, j));
                }
            }
        }
        p = p + 1;
    }
    let reversed = CsrAdjacency { offsets: new_offsets, targets: new_targets, weights: new_weights };
    proof {
        reveal(CsrAdjacency::matched_by);
        assert(partners.take(total as int) =~= partners);
        assert forall|c: int, k: int| 0 <= c < n && #[trigger] reversed.in_row(c, k) implies written(
            reversed.offsets@,
            heads@,
            c,
            k,
        ) by {
            assert(row_holds(reversed.offsets@, partners, c));
        }
        assert forall|k: int| 0 <= k < reversed.targets.len() implies #[trigger] reversed.targets[k]
            < n by {
            if n == 0 {
                assert(reversed.offsets[0] == total);
            }
        }
        assert forall|x: int, p: int| 0 <= x < n && #[trigger] source.in_row(x, p) implies reversed.in_row(
            source.targets[p] as int,
            placed[p],
        ) && reversed.targets[placed[p]] == x && reversed.weights[placed[p]] == source.weights[p] by {
            assert(source.offsets[x + 1] <= source.offsets[n as int]);
            assert(placed_at(
                &source,
                reversed.offsets@,
                heads@,
                reversed.targets@,
                reversed.weights@,
                sources[p],
                placed[p],
                p,
            ));
            source.lemma_one_row(n as int, x, sources[p], p);
            assert(row_holds(reversed.offsets@, partners, source.targets[p] as int));
        }
        assert forall|k: int| 0 <= k < origin.len() implies 0 <= #[trigger] origin[k] < placed.len()
            && placed[origin[k]] == k by {
            let c = reversed.lemma_position_row(n as int, k, n as int);
            assert(reversed.in_row(c, k));
            assert(written(reversed.offsets@, heads@, c, k));
        }
        assert(source.matched_by(&reversed, n as int, placed, origin));
    }
    reversed
}

/// Rows of this length or more are sorted by counting rather than by comparing.
pub const COUNTING_SORT_THRESHOLD: usize = 128;

/// Whether some row delimited by `offsets` has `limit` entries or more.
pub fn has_long_row(offsets: &Vec<usize>, limit: usize) -> (found: bool)
    requires
        offsets.len() >= 1,
        forall|i: int, j: int|
            0 <= i <= j < offsets.len() ==> #[trigger] offsets[i] <= #[trigger] offsets[j],
    ensures
        found == exists|r: int|
            0 <= r < offsets.len() - 1 && #[trigger] offsets[r + 1] - offsets[r] >= limit,
{
    let rows = offsets.len() - 1;
    let mut r: usize = 0;
    while r < rows
        invariant
            r <= rows,
            rows == offsets.len() - 1,
            forall|i: int, j: int|
                0 <= i <= j < offsets.len() ==> #[trigger] offsets[i] <= #[trigger] offsets[j],
            forall|k: int| 0 <= k < r ==> #[trigger] offsets[k + 1] - offsets[k] < limit,
        decreases rows - r,
    {
        proof {
            assert(offsets[r as int] <= offsets[r + 1]);
        }
        if offsets[r + 1] - offsets[r] >= limit {
            return true;
        }
        r = r + 1;
    }
    false
}

/// Sorts every row of a compressed-sparse-row structure of `n` rows by
/// partner index. While all rows are short each is sorted by comparing; as
/// soon as one is long the structure is reversed twice by counting, which
/// sorts all rows in time linear in the number of nodes and edges. Each row
/// keeps its pairs as a bag.
pub fn sort_rows<W: Default>(rows: CsrAdjacency<W>, n: usize) -> (sorted: CsrAdjacency<W>)
    requires
        rows.well_shaped(n as int),
    ensures
        sorted.well_shaped(n as int),
        sorted.rows_sorted(n as int),
        forall|r: int|
            0 <= r < n ==> (#[trigger] sorted.row_pairs(r)).to_multiset() == rows.row_pairs(
                r,
            ).to_multiset(),
{
    let CsrAdjacency { offsets, targets, weights } = rows;
    if has_long_row(&offsets, COUNTING_SORT_THRESHOLD) {
        let middle = transpose(&offsets, &targets, weights, n);
        let ghost turned = middle;
        let CsrAdjacency { offsets: middle_offsets, targets: middle_targets, weights: middle_weights } =
            middle;
        let sorted = transpose(&middle_offsets, &middle_targets, middle_weights, n);
        proof {
            let (first_pairing, first_inverse) = choose|pairing: Seq<int>, inverse: Seq<int>|
                rows.matched_by(&turned, n as int, pairing, inverse);
            let (second_pairing, second_inverse) = choose|pairing: Seq<int>, inverse: Seq<int>|
                turned.matched_by(&sorted, n as int, pairing, inverse);
            assert forall|r: int| 0 <= r < n implies (#[trigger] sorted.row_pairs(r)).to_multiset()
                == rows.row_pairs(r).to_multiset() by {
                rows.lemma_reversed_twice(
                    &turned,
                    &sorted,
                    n as int,
                    first_pairing,
                    first_inverse,
                    second_pairing,
                    second_inverse,
                    r,
                );
            }
        }
        sorted
    } else {
        let mut targets = targets;
        let mut weights = weights;
        sort_adjacencies(&offsets, &mut targets, &mut weights, Ghost(n as int));
        let sorted = CsrAdjacency { offsets, targets, weights };
        proof {
            assert forall|i: int, p: int, q: int|
                0 <= i < n && #[trigger] sorted.in_row(i, p) && #[trigger] sorted.in_row(i, q) && p
                    <= q implies sorted.targets[p] <= sorted.targets[q] by {
                assert(row_sorted_at(sorted.offsets@, sorted.targets@, i));
            }
        }
        sorted
    }
}

/// When a copy of `forward` with cloned weights is matched with `backward`,
/// `forward` and `backward` mirror each other.
pub proof fn lemma_mirrored_copy<W: Clone>(
    forward: &CsrAdjacency<W>,
    copy: &CsrAdjacency<W>,
    backward: &CsrAdjacency<W>,
    n: int,
    pairing: Seq<int>,
    inverse: Seq<int>,
)
    requires
        0 <= n,
        forward.well_shaped(n),
        backward.well_shaped(n),
        copy.offsets == forward.offsets,
        copy.targets == forward.targets,
        copy.weights.len() == forward.weights.len(),
        forall|i: int| 0 <= i < forward.weights.len() ==> cloned(forward.weights[i], #[trigger] copy.weights[i]),
        copy.matched_by(backward, n, pairing, inverse),
    ensures
        forward.targets.len() == backward.targets.len(),
        forward.mirrored_in(backward, n),
        forward.mirrored_with_weights_in(backward, n),
        forward.reversed_in(backward, n),
        backward.reversed_in(forward, n),
{
    reveal(CsrAdjacency::matched_by);
    reveal(CsrAdjacency::paired_by);
    reveal(CsrAdjacency::reversed_in);
    assert forall|p: int, q: int| 0 <= p < q < pairing.len() implies #[trigger] pairing[p]
        != #[trigger] pairing[q] by {
        assert(inverse[pairing[p]] == p);
        assert(inverse[pairing[q]] == q);
    }
    assert forall|u: int, p: int| 0 <= u < n && #[trigger] forward.in_row(u, p) implies backward.in_row(
        forward.targets[p] as int,
        pairing[p],
    ) && backward.targets[pairing[p]] == u && cloned(
        forward.weights[p],
        backward.weights[pairing[p]],
    ) by {
        assert(copy.in_row(u, p));
        assert(forward.offsets[u + 1] <= forward.offsets[n]);
        assert(cloned(forward.weights[p], copy.weights[p]));
    }
    assert(forward.paired_by(backward, n, pairing));
    assert forall|p: int| 0 <= p < pairing.len() implies cloned(
        forward.weights[p],
        #[trigger] backward.weights[pairing[p]],
    ) by {
        let u = forward.lemma_position_row(n, p, n);
        assert(forward.in_row(u, p));
    }
    assert forall|c: int, k: int| 0 <= c < n && #[trigger] backward.in_row(c, k) implies exists|p: int|
        #[trigger] forward.in_row(backward.targets[k] as int, p) && forward.targets[p] == c by {
        assert(backward.offsets[c + 1] <= backward.offsets[n]);
        let p = inverse[k];
        assert(pairing[p] == k);
        let u = forward.lemma_position_row(n, p, n);
        assert(copy.in_row(u, p));
        backward.lemma_one_row(n, c, forward.targets[p] as int, k);
        assert(forward.in_row(backward.targets[k] as int, p));
    }
    lemma_undone_is_shorter(pairing, inverse);
    lemma_undone_is_shorter(inverse, pairing);
}

/// A sequence of positions in another that the other leads back from is no
/// longer than the other.
pub proof fn lemma_undone_is_shorter(there: Seq<int>, back: Seq<int>)
    requires
        back.len() <= usize::MAX,
        forall|p: int| 0 <= p < there.len() ==> 0 <= #[trigger] there[p] < back.len() && back[there[p]] == p,
    ensures
        there.len() <= back.len(),
{
    if there.len() > back.len() {
        let images = Seq::new(there.len(), |p: int| there[p] as usize);
        let pair = crate::paths::lemma_pigeonhole(images, back.len());
        assert(there[pair.0] == there[pair.1]);
        assert(back[there[pair.0]] == pair.0);
        assert(back[there[pair.1]] == pair.1);
    }
}

impl<N, W> Freezable<N, W> for DynamicGraph<N, W> where N: Clone, W: Clone + Default {
    /// Never fails. The payloads of the present nodes are moved into a compact
    /// vector and the nodes renumbered; the edges between present nodes are
    /// moved, with their weights, into the forward structure row by row, and
    /// the rows are sorted by target; the backward structure is then built
    /// from clones of the weights by counting the edges that enter each node,
    /// summing the counts into offsets and placing each forward edge in the
    /// row of its target. Which of two edges with the same source and target
    /// comes first is not fixed. Beyond what the trait promises, each entry of
    /// the backward structure carries a clone of the weight of the forward
    /// edge it is matched with.
    fn freeze(self) -> (frozen: CsmGraph<N, W>)
        ensures
            frozen.forward_edges.mirrored_with_weights_in(
                &frozen.backward_edges,
                frozen.nodes.len() as int,
            ),
    {
        let ghost model = self@;
        let (old_nodes, old_edges, old_root) = self.to_parts();
        let (nodes, remap, tombstoned, root) = compact_nodes(old_nodes, old_root);
        let n = nodes.len();
        proof {
            assert forall|i: int| #[trigger] is_live(model.nodes, i) implies rank(model.nodes, i)
                < live_count(model.nodes) by {
                lemma_rank_monotone(model.nodes, i, i + 1);
            }
        }
        if n == 0 {
            let empty = CsmGraph::new();
            proof {
                reveal(CsrAdjacency::paired_by);
                assert(empty.forward_edges.paired_by(&empty.backward_edges, 0, Seq::empty()));
            }
            return empty;
        }
        proof {
            assert forall|a: int, j: int| 0 <= a < old_edges.len() && 0 <= j < old_edges[a].len() implies (
            #[trigger] old_edges[a][j]).0 < model.nodes.len() by {
                assert(model.edges[a][j] == old_edges[a][j]);
            }
        }
        let unsorted = build_forward::<N, W>(Ghost(model.nodes), old_edges, &remap, &tombstoned);
        let forward = sort_rows(unsorted, n);
        let copies = forward.weights.clone();
        let ghost copy = as_rows(forward.offsets, forward.targets, copies);
        let backward = transpose(&forward.offsets, &forward.targets, copies, n);
        proof {
            let (pairing, inverse) = choose|pairing: Seq<int>, inverse: Seq<int>|
                copy.matched_by(&backward, n as int, pairing, inverse);
            lemma_mirrored_copy(&forward, &copy, &backward, n as int, pairing, inverse);
        }
        let frozen = CsmGraph::construct(nodes, forward, backward, root);
        proof {
            assert forall|i: int| #[trigger] is_live(model.nodes, i) implies {
                let r = rank(model.nodes, i) as int;
                &&& frozen@.nodes[r] == model.nodes[i]
                &&& frozen@.edges[r].to_multiset() == kept_row(model.nodes, model.edges[i]).to_multiset()
                &&& sorted_by_target(frozen@.edges[r])
            } by {
                let r = rank(model.nodes, i) as int;
                assert(unsorted.row_pairs(r) == kept_row(model.nodes, model.edges[i]));
                assert(forward.row_pairs(r).to_multiset() == unsorted.row_pairs(r).to_multiset());
                assert(forward.offsets[r] <= forward.offsets[r + 1]);
                assert forall|p: int, q: int|
                    0 <= p <= q < frozen@.edges[r].len() implies (#[trigger] frozen@.edges[r][p]).0 <= (
                #[trigger] frozen@.edges[r][q]).0 by {
                    assert(forward.in_row(r, forward.offsets[r] + p));
                    assert(forward.in_row(r, forward.offsets[r] + q));
                }
            }
        }
        frozen
    }
}

} // verus!
