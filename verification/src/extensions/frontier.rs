//! Bulk steps on a frontier of nodes: the parts of a level-synchronous
//! traversal that do not depend on the algorithm that drives it.

use rayon::iter::{IntoParallelRefIterator, ParallelIterator};
use vstd::prelude::*;

verus! {

/// The rows of `offsets` and `targets` are laid out for `n` nodes.
pub open spec fn rows_laid_out(offsets: Seq<usize>, targets: Seq<usize>, n: int) -> bool {
    &&& offsets.len() == n + 1
    &&& forall|i: int, j: int| 0 <= i <= j <= n ==> #[trigger] offsets[i] <= #[trigger] offsets[j]
    &&& offsets[n] == targets.len()
}

/// The successors of `u`, as stored.
pub open spec fn row_of(offsets: Seq<usize>, targets: Seq<usize>, u: int) -> Seq<usize> {
    targets.subrange(offsets[u] as int, offsets[u + 1] as int)
}

/// A copy of the successors of `u`.
pub fn copy_row(offsets: &Vec<usize>, targets: &Vec<usize>, u: usize) -> (row: Vec<usize>)
    requires
        u + 1 < offsets.len(),
        rows_laid_out(offsets@, targets@, offsets.len() - 1),
    ensures
        row@ == row_of(offsets@, targets@, u as int),
{
    let start = offsets[u];
    let end = offsets[u + 1];
    proof {
        assert(offsets[u + 1] <= offsets[offsets.len() - 1]);
    }
    let mut row: Vec<usize> = Vec::with_capacity(end - start);
    let mut p = start;
    while p < end
        invariant
            start <= p <= end <= targets.len(),
            row.len() == p - start,
            forall|k: int| 0 <= k < row.len() ==> #[trigger] row[k] == targets[start + k],
        decreases end - p,
    {
        row.push(targets[p]);
        p = p + 1;
    }
    proof {
        assert(row@ =~= row_of(offsets@, targets@, u as int));
    }
    row
}

/// `rayon`'s `par_iter().map(..).collect()` on the frontier, with `copy_row` as
/// the function mapped: the work is handed to the worker pool, and the
/// results are collected into a vector in the order of the items they come
/// from. Claimed of it: the result has one entry for each node of the
/// frontier, in the same order, and each entry is what `copy_row` returns for
/// that node, a copy of its successors.
#[verifier::external_body]
pub(crate) fn gather_rows(offsets: &Vec<usize>, targets: &Vec<usize>, frontier: &Vec<usize>) -> (rows:
    Vec<Vec<usize>>)
    requires
        rows_laid_out(offsets@, targets@, offsets.len() - 1),
        forall|i: int| 0 <= i < frontier.len() ==> #[trigger] frontier[i] + 1 < offsets.len(),
    ensures
        rows.len() == frontier.len(),
        forall|i: int|
            0 <= i < frontier.len() ==> (#[trigger] rows[i])@ == row_of(
                offsets@,
                targets@,
                frontier[i] as int,
            ),
{
    frontier.par_iter().map(|&u| copy_row(offsets, targets, u)).collect()
}

/// Whether `list` holds `node`.
pub fn holds(list: &Vec<usize>, node: usize) -> (found: bool)
    ensures
        found == list@.contains(node),
{
    let mut i: usize = 0;
    while i < list.len()
        invariant
            i <= list.len(),
            forall|k: int| 0 <= k < i ==> #[trigger] list[k] != node,
        decreases list.len() - i,
    {
        if list[i] == node {
            return true;
        }
        i = i + 1;
    }
    false
}

/// Sorts `list` ascending; it keeps its entries as a bag.
pub fn sort_ascending(list: &mut Vec<usize>)
    ensures
        final(list)@.to_multiset() == old(list)@.to_multiset(),
        final(list).len() == old(list).len(),
        forall|i: int, j: int|
            0 <= i <= j < final(list).len() ==> #[trigger] final(list)[i] <= #[trigger] final(list)[j],
{
    if list.len() < 2 {
        return ;
    }
    let mut k: usize = 1;
    while k < list.len()
        invariant
            1 <= k <= list.len(),
            list.len() == old(list).len(),
            list@.to_multiset() == old(list)@.to_multiset(),
            forall|i: int, j: int| 0 <= i <= j < k ==> #[trigger] list[i] <= #[trigger] list[j],
        decreases list.len() - k,
    {
        let mut j = k;
        while j > 0 && list[j - 1] > list[j]
            invariant
                0 <= j <= k < list.len(),
                list.len() == old(list).len(),
                list@.to_multiset() == old(list)@.to_multiset(),
                forall|a: int, b: int|
                    0 <= a <= b <= k && a != j && b != j ==> #[trigger] list[a] <= #[trigger] list[b],
                forall|b: int| j < b <= k ==> list[j as int] <= #[trigger] list[b],
            decreases j,
        {
            let ghost before = list@;
            list.swap(j - 1, j);
            proof {
                crate::types::graph_dynamic::graph_freeze::lemma_swap_keeps_bag(before, j - 1, j as int);
            }
            j = j - 1;
        }
        k = k + 1;
    }
}

} // verus!
