use crate::extensions::frontier::{gather_rows, sort_ascending};
use crate::paths::{
    acyclic, has_arc, is_level_order, is_topological_order, layered, lemma_marked_bound,
    lemma_marked_none, lemma_marked_set, lemma_marked_zero, marked_count, turn_before,
};
use crate::types::graph_csm::kahn::{lemma_pending_fresh, lemma_pending_witness, pending};
use crate::types::graph_csm::CsmGraph;
use crate::types::graph_dynamic::graph_freeze::{count_degrees, lemma_occurrences_prefix, occurrences};
use vstd::prelude::*;

verus! {

/// A bag that holds no value twice is the bag of a sequence without repeats,
/// and a sequence with the same bag holds the same values.
pub proof fn lemma_same_bag(before: Seq<usize>, after: Seq<usize>)
    requires
        before.to_multiset() == after.to_multiset(),
        before.no_duplicates(),
    ensures
        after.no_duplicates(),
        forall|v: usize| after.contains(v) == before.contains(v),
{
    broadcast use vstd::seq_lib::group_to_multiset_ensures;

    before.lemma_multiset_has_no_duplicates();
    after.lemma_multiset_has_no_duplicates_conv();
    assert forall|v: usize| after.contains(v) == before.contains(v) by {
        vstd::seq_lib::to_multiset_contains(before, v);
        vstd::seq_lib::to_multiset_contains(after, v);
    }
}

impl<N, W> CsmGraph<N, W> {
    /// Entry `idx` of the order lies on the level of the round if it was placed
    /// in this round, and on a lower level if it was placed before.
    pub open spec fn placed_level(
        &self,
        order: Seq<usize>,
        base: int,
        round: int,
        level: Seq<int>,
        idx: int,
    ) -> bool {
        if idx >= base {
            level[order[idx] as int] == round
        } else {
            0 <= level[order[idx] as int] < round
        }
    }

    /// A released node above level 0 has a released predecessor one level below.
    pub open spec fn level_reached(&self, queued: Seq<bool>, level: Seq<int>, from: Seq<int>, v: int) -> bool {
        level[v] > 0 ==> {
            &&& 0 <= from[v] < self.nodes.len()
            &&& queued[from[v]]
            &&& has_arc(self.adjacency(), from[v], v)
            &&& level[from[v]] + 1 == level[v]
        }
    }

    /// What the level-by-level form of Kahn's algorithm keeps beyond
    /// `kahn_state`: the level of each released node, and the order by level.
    pub open spec fn in_levels(
        &self,
        order: Seq<usize>,
        base: int,
        round: int,
        held_level: int,
        queued: Seq<bool>,
        held: Seq<bool>,
        level: Seq<int>,
        from: Seq<int>,
    ) -> bool {
        let n = self.nodes.len() as int;
        let targets = self.forward_edges.targets@;
        &&& level.len() == n
        &&& from.len() == n
        &&& queued.len() == n
        &&& held.len() == n
        &&& 0 <= base <= order.len()
        &&& 0 <= round
        &&& forall|idx: int|
            0 <= idx < order.len() ==> #[trigger] self.placed_level(order, base, round, level, idx)
        &&& forall|v: int| 0 <= v < n && #[trigger] held[v] ==> level[v] == held_level
        &&& forall|v: int| 0 <= v < n && #[trigger] queued[v] ==> 0 <= level[v] <= round + 1
        &&& forall|v: int|
            0 <= v < n && queued[v] ==> #[trigger] self.level_reached(queued, level, from, v)
        &&& forall|u: int, p: int|
            0 <= u < n && #[trigger] self.forward_edges.in_row(u, p) && queued[targets[p] as int]
                ==> queued[u] && level[u] < level[targets[p] as int]
        &&& forall|i: int, j: int| 0 <= i < j < order.len() ==> #[trigger] turn_before(order, level, i, j)
    }

    /// A released node that waits takes its place at the end of the order; it
    /// lies on the level of the round and is larger than the nodes of that
    /// level placed before it.
    pub proof fn lemma_level_place(
        &self,
        order: Seq<usize>,
        base: int,
        round: int,
        queued: Seq<bool>,
        held: Seq<bool>,
        level: Seq<int>,
        from: Seq<int>,
        v: int,
    )
        requires
            self.in_levels(order, base, round, round, queued, held, level, from),
            0 <= v < self.nodes.len(),
            held[v],
            forall|idx: int| base <= idx < order.len() ==> #[trigger] order[idx] < v,
        ensures
            self.in_levels(
                order.push(v as usize),
                base,
                round,
                round,
                queued,
                held.update(v, false),
                level,
                from,
            ),
    {
        let after = order.push(v as usize);
        assert forall|idx: int| 0 <= idx < after.len() implies #[trigger] self.placed_level(
            after,
            base,
            round,
            level,
            idx,
        ) by {
            if idx < order.len() {
                assert(self.placed_level(order, base, round, level, idx));
            }
        }
        assert forall|i: int, j: int| 0 <= i < j < after.len() implies #[trigger] turn_before(
            after,
            level,
            i,
            j,
        ) by {
            assert(self.placed_level(order, base, round, level, i));
            if j < order.len() {
                assert(turn_before(order, level, i, j));
            }
        }
    }

    /// Once no released node waits, the nodes released next lie on the level
    /// above that of the round.
    pub proof fn lemma_level_rehold(
        &self,
        order: Seq<usize>,
        base: int,
        round: int,
        queued: Seq<bool>,
        held: Seq<bool>,
        level: Seq<int>,
        from: Seq<int>,
    )
        requires
            self.in_levels(order, base, round, round, queued, held, level, from),
            forall|v: int| 0 <= v < held.len() ==> !#[trigger] held[v],
        ensures
            self.in_levels(order, base, round, round + 1, queued, held, level, from),
    {
    }

    /// When all rows of a round are consumed, the next round begins behind
    /// the nodes placed so far.
    pub proof fn lemma_level_next(
        &self,
        order: Seq<usize>,
        base: int,
        round: int,
        queued: Seq<bool>,
        held: Seq<bool>,
        level: Seq<int>,
        from: Seq<int>,
    )
        requires
            self.in_levels(order, base, round, round + 1, queued, held, level, from),
        ensures
            self.in_levels(order, order.len() as int, round + 1, round + 1, queued, held, level, from),
    {
        assert forall|idx: int| 0 <= idx < order.len() implies #[trigger] self.placed_level(
            order,
            order.len() as int,
            round + 1,
            level,
            idx,
        ) by {
            assert(self.placed_level(order, base, round, level, idx));
        }
    }

    /// The node released through the edge at `cursor` in the row of the entry
    /// at the head lies one level above that entry and above all its predecessors.
    #[verifier::rlimit(80)]
    pub proof fn lemma_level_release(
        &self,
        degrees: Seq<usize>,
        order: Seq<usize>,
        head: int,
        placed: Seq<int>,
        queued: Seq<bool>,
        held: Seq<bool>,
        done: Seq<bool>,
        cursor: int,
        base: int,
        round: int,
        level: Seq<int>,
        from: Seq<int>,
    )
        requires
            self.wf(),
            self.forward_edges.in_row(order[head] as int, cursor),
            base <= head < order.len(),
            !queued[self.forward_edges.targets[cursor] as int],
            self.kahn_state(
                degrees,
                order,
                head,
                placed,
                queued.update(self.forward_edges.targets[cursor] as int, true),
                held.update(self.forward_edges.targets[cursor] as int, true),
                done,
            ),
            self.consumed_upto(placed, done, head, cursor + 1),
            self.in_levels(order, base, round, round + 1, queued, held, level, from),
        ensures
            ({
                let v = self.forward_edges.targets[cursor] as int;
                self.in_levels(
                    order,
                    base,
                    round,
                    round + 1,
                    queued.update(v, true),
                    held.update(v, true),
                    level.update(v, round + 1),
                    from.update(v, order[head] as int),
                )
            }),
    {
        let n = self.nodes.len() as int;
        let targets = self.forward_edges.targets@;
        let u = order[head] as int;
        self.lemma_row_arc(u, cursor);
        let v = targets[cursor] as int;
        let queued_after = queued.update(v, true);
        let held_after = held.update(v, true);
        let level_after = level.update(v, round + 1);
        let from_after = from.update(v, u);
        assert(self.placed_level(order, base, round, level, head));
        assert(held_after[v]);
        assert(placed[v] < 0);
        assert(placed[u] == head);
        assert(queued_after[u] == (placed[u] >= 0 || held_after[u]));
        assert(u != v);
        assert(queued_after[v] <==> degrees[v] == 0);
        assert(degrees[v] == pending(targets, done, v as usize));
        lemma_pending_witness(targets, done, v as usize);
        assert forall|idx: int| 0 <= idx < order.len() implies #[trigger] self.placed_level(
            order,
            base,
            round,
            level_after,
            idx,
        ) by {
            assert(self.placed_level(order, base, round, level, idx));
            assert(placed[order[idx] as int] == idx);
            assert(queued_after[order[idx] as int] == (placed[order[idx] as int] >= 0
                || held_after[order[idx] as int]));
        }
        assert forall|w: int| 0 <= w < n && #[trigger] held_after[w] implies level_after[w] == round
            + 1 by {
            if w != v {
                assert(held[w]);
            }
        }
        assert forall|w: int| 0 <= w < n && #[trigger] queued_after[w] implies 0 <= level_after[w]
            <= round + 1 by {
            if w != v {
                assert(queued[w]);
            }
        }
        assert forall|w: int| 0 <= w < n && queued_after[w] implies #[trigger] self.level_reached(
            queued_after,
            level_after,
            from_after,
            w,
        ) by {
            if w != v {
                assert(queued[w]);
                assert(self.level_reached(queued, level, from, w));
                if level[w] > 0 {
                    let parent = from[w];
                    let p = self.lemma_arc_row(parent, w);
                    assert(parent != v);
                }
            }
        }
        assert forall|x: int, p: int|
            0 <= x < n && #[trigger] self.forward_edges.in_row(x, p) && queued_after[targets[p] as int] implies queued_after[x]
            && level_after[x] < level_after[targets[p] as int] by {
            self.lemma_row_arc(x, p);
            if targets[p] == v {
                assert(done[p]);
                assert(placed[x] >= 0 && placed[x] <= head);
                assert(queued_after[x] == (placed[x] >= 0 || held_after[x]));
                assert(order[placed[x]] == x);
                assert(self.placed_level(order, base, round, level, placed[x]));
                assert(x != v);
            } else {
                assert(queued[targets[p] as int]);
                assert(x != v);
            }
        }
        assert forall|i: int, j: int| 0 <= i < j < order.len() implies #[trigger] turn_before(
            order,
            level_after,
            i,
            j,
        ) by {
            assert(turn_before(order, level, i, j));
            assert(placed[order[i] as int] == i);
            assert(placed[order[j] as int] == j);
            assert(queued_after[order[i] as int] == (placed[order[i] as int] >= 0
                || held_after[order[i] as int]));
            assert(queued_after[order[j] as int] == (placed[order[j] as int] >= 0
                || held_after[order[j] as int]));
        }
    }

    /// When every node has its place, the levels are what the definition of
    /// the order asks for.
    pub proof fn lemma_level_final(
        &self,
        order: Seq<usize>,
        base: int,
        round: int,
        held_level: int,
        queued: Seq<bool>,
        held: Seq<bool>,
        level: Seq<int>,
        from: Seq<int>,
    )
        requires
            self.wf(),
            self.in_levels(order, base, round, held_level, queued, held, level, from),
            queued.len() == self.nodes.len(),
            forall|v: int| 0 <= v < queued.len() ==> #[trigger] queued[v],
            is_topological_order(self.adjacency(), order),
        ensures
            is_level_order(self.adjacency(), order),
    {
        let n = self.nodes.len() as int;
        let adj = self.adjacency();
        assert forall|u: int, v: int| #[trigger] has_arc(adj, u, v) implies level[u] < level[v] by {
            let p = self.lemma_arc_row(u, v);
            assert(queued[v]);
        }
        assert forall|v: int| 0 <= v < adj.len() && #[trigger] level[v] > 0 implies exists|u: int|
            #[trigger] has_arc(adj, u, v) && level[u] + 1 == level[v] by {
            assert(queued[v]);
            assert(self.level_reached(queued, level, from, v));
            assert(has_arc(adj, from[v], v));
        }
        assert forall|v: int| 0 <= v < adj.len() implies 0 <= #[trigger] level[v] by {
            assert(queued[v]);
        }
        assert(layered(adj, order, level));
    }
}

impl<N, W> CsmGraph<N, W> {
    /// Kahn's algorithm level by level: the nodes without incoming edges form
    /// the first frontier; each frontier is sorted ascending and appended to
    /// the result, the rows of its nodes are fetched in one parallel step, and
    /// the nodes whose last incoming edge comes from the frontier form the
    /// next one. Returns the nodes released.
    pub fn kahn_by_levels(&self) -> (order: Vec<usize>)
        requires
            self.wf(),
        ensures
            order.len() <= self.nodes.len(),
            order.len() == self.nodes.len() ==> is_level_order(self.adjacency(), order@),
            order.len() < self.nodes.len() ==> !acyclic(self.adjacency()),
    {
        let n = self.nodes.len();
        let ghost mut level: Seq<int> = Seq::new(n as nat, |v: int| 0int);
        let ghost mut from: Seq<int> = Seq::new(n as nat, |v: int| 0int);
        let ghost mut round: int = 0;
        let ghost targets = self.forward_edges.targets@;
        let mut in_degrees = count_degrees(&self.forward_edges.targets, n);
        let mut sorted_list: Vec<usize> = Vec::with_capacity(n);
        let mut frontier: Vec<usize> = Vec::new();
        let ghost placed: Seq<int> = Seq::new(n as nat, |v: int| -1int);
        let ghost mut queued: Seq<bool> = Seq::new(n as nat, |v: int| false);
        let ghost mut held: Seq<bool> = Seq::new(n as nat, |v: int| false);
        let ghost done: Seq<bool> = Seq::new(targets.len(), |p: int| false);
        proof {
            lemma_marked_none(queued);
            lemma_marked_none(held);
            assert forall|v: int| 0 <= v < n implies #[trigger] in_degrees[v] == crate::types::graph_csm::kahn::pending(
                targets,
                done,
                v as usize,
            ) by {
                lemma_pending_fresh(targets, done, v as usize);
            }
        }
        let mut i: usize = 0;
        while i < n
            invariant
                i <= n,
                n == self.nodes.len(),
                in_degrees.len() == n,
                queued.len() == n,
                held.len() == n,
                queued == held,
                marked_count(held) == frontier.len(),
                forall|k: int| 0 <= k < frontier.len() ==> #[trigger] frontier[k] < i && held[frontier[k] as int],
                forall|a: int, b: int|
                    0 <= a < b < frontier.len() ==> #[trigger] frontier[a] < #[trigger] frontier[b],
                forall|v: int| 0 <= v < i ==> (#[trigger] queued[v] <==> in_degrees[v] == 0),
                forall|v: int| i <= v < n ==> !#[trigger] queued[v],
                forall|v: int| 0 <= v < n ==> #[trigger] in_degrees[v] == occurrences(targets, v as usize),
            decreases n - i,
        {
            if in_degrees[i] == 0 {
                proof {
                    lemma_marked_set(held, i as int);
                    queued = queued.update(i as int, true);
                    held = held.update(i as int, true);
                }
                frontier.push(i);
            }
            i = i + 1;
        }
        proof {
            assert forall|u: int, p: int|
                0 <= u < n && #[trigger] self.forward_edges.in_row(u, p) && placed[targets[p] as int]
                    >= 0 implies 0 <= placed[u] < placed[targets[p] as int] by {
                self.lemma_row_arc(u, p);
            }
            assert(self.kahn_state(in_degrees@, sorted_list@, 0, placed, queued, held, done));
            assert(frontier@.no_duplicates());
            assert forall|v: int| 0 <= v < n && queued[v] implies #[trigger] self.level_reached(
                queued,
                level,
                from,
                v,
            ) by {}
            assert forall|u: int, p: int|
                0 <= u < n && #[trigger] self.forward_edges.in_row(u, p) && queued[targets[p] as int] implies queued[u]
                && level[u] < level[targets[p] as int] by {
                self.lemma_row_arc(u, p);
                lemma_occurrences_prefix(targets, p, targets[p]);
            }
            assert(self.in_levels(sorted_list@, 0, 0, 0, queued, held, level, from));
        }
        let ghost mut placed = placed;
        let ghost mut done = done;
        while frontier.len() > 0
            invariant
                n == self.nodes.len(),
                self.wf(),
                targets == self.forward_edges.targets@,
                self.kahn_state(
                    in_degrees@,
                    sorted_list@,
                    sorted_list.len() as int,
                    placed,
                    queued,
                    held,
                    done,
                ),
                self.consumed_upto(placed, done, sorted_list.len() as int, 0),
                self.in_levels(
                    sorted_list@,
                    sorted_list.len() as int,
                    round,
                    round,
                    queued,
                    held,
                    level,
                    from,
                ),
                marked_count(held) == frontier.len(),
                frontier@.no_duplicates(),
                forall|k: int|
                    0 <= k < frontier.len() ==> #[trigger] frontier[k] < n && held[frontier[k] as int],
                sorted_list.len() <= n,
            decreases n - sorted_list.len(),
        {
            let ghost unsorted = frontier@;
            sort_ascending(&mut frontier);
            proof {
                lemma_same_bag(unsorted, frontier@);
                assert forall|k: int| 0 <= k < frontier.len() implies #[trigger] frontier[k] < n
                    && held[frontier[k] as int] by {
                    assert(frontier@.contains(frontier[k]));
                    assert(unsorted.contains(frontier[k]));
                    let j = choose|j: int| 0 <= j < unsorted.len() && unsorted[j] == frontier[k];
                    assert(unsorted[j] < n && held[unsorted[j] as int]);
                }
            }
            let base = sorted_list.len();
            let mut j: usize = 0;
            while j < frontier.len()
                invariant
                    n == self.nodes.len(),
                    self.wf(),
                    targets == self.forward_edges.targets@,
                    j <= frontier.len(),
                    frontier.len() > 0,
                    sorted_list.len() <= n,
                    sorted_list.len() == base + j,
                    self.kahn_state(in_degrees@, sorted_list@, base as int, placed, queued, held, done),
                    self.consumed_upto(placed, done, base as int, 0),
                    self.in_levels(sorted_list@, base as int, round, round, queued, held, level, from),
                    forall|a: int, b: int|
                        0 <= a <= b < frontier.len() ==> #[trigger] frontier[a] <= #[trigger] frontier[b],
                    marked_count(held) == frontier.len() - j,
                    frontier@.no_duplicates(),
                    forall|k: int|
                        j <= k < frontier.len() ==> #[trigger] frontier[k] < n && held[frontier[k] as int],
                    forall|k: int| 0 <= k < j ==> #[trigger] sorted_list[base + k] == frontier[k],
                decreases frontier.len() - j,
            {
                let v = frontier[j];
                proof {
                    self.lemma_kahn_place(
                        in_degrees@,
                        sorted_list@,
                        base as int,
                        placed,
                        queued,
                        held,
                        done,
                        0,
                        v as int,
                    );
                    crate::paths::lemma_marked_clear(held, v as int);
                    assert forall|idx: int| base <= idx < sorted_list.len() implies #[trigger] sorted_list[idx]
                        < v by {
                        assert(sorted_list[base + (idx - base)] == frontier[idx - base]);
                        assert(frontier[idx - base] <= frontier[j as int]);
                    }
                    self.lemma_level_place(
                        sorted_list@,
                        base as int,
                        round,
                        queued,
                        held,
                        level,
                        from,
                        v as int,
                    );
                    placed = placed.update(v as int, sorted_list.len() as int);
                    held = held.update(v as int, false);
                }
                sorted_list.push(v);
                j = j + 1;
            }
            proof {
                lemma_marked_zero(held);
                self.lemma_level_rehold(sorted_list@, base as int, round, queued, held, level, from);
            }
            let rows = gather_rows(&self.forward_edges.offsets, &self.forward_edges.targets, &frontier);
            let mut next: Vec<usize> = Vec::new();
            let mut head = base;
            let mut i: usize = 0;
            while i < frontier.len()
                invariant
                    n == self.nodes.len(),
                    self.wf(),
                    targets == self.forward_edges.targets@,
                    i <= frontier.len(),
                    frontier.len() > 0,
                    sorted_list.len() <= n,
                    head == base + i,
                    sorted_list.len() == base + frontier.len(),
                    rows.len() == frontier.len(),
                    forall|k: int|
                        0 <= k < frontier.len() ==> (#[trigger] rows[k])@ == crate::extensions::frontier::row_of(
                            self.forward_edges.offsets@,
                            targets,
                            frontier[k] as int,
                        ),
                    forall|k: int| 0 <= k < frontier.len() ==> #[trigger] sorted_list[base + k] == frontier[k],
                    self.kahn_state(in_degrees@, sorted_list@, head as int, placed, queued, held, done),
                    self.consumed_upto(placed, done, head as int, 0),
                    self.in_levels(sorted_list@, base as int, round, round + 1, queued, held, level, from),
                    marked_count(held) == next.len(),
                    next@.no_duplicates(),
                    forall|k: int| 0 <= k < next.len() ==> #[trigger] next[k] < n && held[next[k] as int],
                decreases frontier.len() - i,
            {
                let u = frontier[i];
                let row = &rows[i];
                let ghost start = self.forward_edges.offsets[u as int] as int;
                proof {
                    assert(sorted_list[base + i] == frontier[i as int]);
                    assert(u < n);
                    assert(self.forward_edges.offsets[u as int] <= self.forward_edges.offsets[u + 1]);
                    assert forall|x: int, p: int|
                        0 <= x < n && #[trigger] self.forward_edges.in_row(x, p) implies (done[p] <==> (0
                        <= placed[x] < head || (placed[x] == head && p < start))) by {
                        if placed[x] == head {
                            assert(x == u);
                        }
                    }
                }
                let mut c: usize = 0;
                while c < row.len()
                    invariant
                        n == self.nodes.len(),
                        self.wf(),
                        targets == self.forward_edges.targets@,
                        head < sorted_list.len(),
                        u == sorted_list[head as int],
                        u < n,
                        start == self.forward_edges.offsets[u as int],
                        row@ == crate::extensions::frontier::row_of(
                            self.forward_edges.offsets@,
                            targets,
                            u as int,
                        ),
                        row.len() == self.forward_edges.offsets[u + 1] - start,
                        c <= row.len(),
                        self.kahn_state(in_degrees@, sorted_list@, head as int, placed, queued, held, done),
                        self.consumed_upto(placed, done, head as int, start + c),
                        self.in_levels(
                            sorted_list@,
                            base as int,
                            round,
                            round + 1,
                            queued,
                            held,
                            level,
                            from,
                        ),
                        base <= head,
                        marked_count(held) == next.len(),
                        next@.no_duplicates(),
                        forall|k: int| 0 <= k < next.len() ==> #[trigger] next[k] < n && held[next[k] as int],
                    decreases row.len() - c,
                {
                    let v = row[c];
                    proof {
                        assert(self.forward_edges.in_row(u as int, start + c));
                        assert(v == targets[start + c]);
                        self.lemma_row_arc(u as int, start + c);
                        self.lemma_kahn_consume(
                            in_degrees@,
                            sorted_list@,
                            head as int,
                            placed,
                            queued,
                            held,
                            done,
                            start + c,
                        );
                    }
                    in_degrees[v] = in_degrees[v] - 1;
                    proof {
                        done = done.update(start + c, true);
                    }
                    if in_degrees[v] == 0 {
                        proof {
                            assert(!held[v as int]);
                            lemma_marked_set(held, v as int);
                            assert forall|k: int| 0 <= k < next.len() implies #[trigger] next[k] != v by {
                                assert(held[next[k] as int]);
                            }
                            self.lemma_level_release(
                                in_degrees@,
                                sorted_list@,
                                head as int,
                                placed,
                                queued,
                                held,
                                done,
                                start + c,
                                base as int,
                                round,
                                level,
                                from,
                            );
                            level = level.update(v as int, round + 1);
                            from = from.update(v as int, u as int);
                            queued = queued.update(v as int, true);
                            held = held.update(v as int, true);
                        }
                        next.push(v);
                    }
                    c = c + 1;
                }
                proof {
                    assert forall|x: int, p: int|
                        0 <= x < n && #[trigger] self.forward_edges.in_row(x, p) implies (done[p] <==> (0
                        <= placed[x] < head + 1 || (placed[x] == head + 1 && p < 0))) by {
                        if placed[x] == head {
                            assert(x == u);
                        }
                    }
                }
                head = head + 1;
                i = i + 1;
            }
            proof {
                self.lemma_level_next(sorted_list@, base as int, round, queued, held, level, from);
                round = round + 1;
            }
            frontier = next;
        }
        proof {
            lemma_marked_zero(held);
            self.lemma_kahn_final(in_degrees@, sorted_list@, placed, queued, held, done);
            if sorted_list.len() == n {
                lemma_marked_none(held);
                lemma_marked_bound(queued);
                self.lemma_level_final(
                    sorted_list@,
                    sorted_list.len() as int,
                    round,
                    round,
                    queued,
                    held,
                    level,
                    from,
                );
            }
        }
        sorted_list
    }
}

} // verus!
