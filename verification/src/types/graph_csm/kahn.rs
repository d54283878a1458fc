use crate::paths::{
    acyclic, has_arc, is_kahn_order, is_topological_order, lemma_marked_bound, lemma_marked_clear,
    lemma_marked_none, lemma_marked_set, lemma_trapped_has_cycle, marked_count, released_in_turn,
    turn_before,
};
use crate::types::graph_csm::CsmGraph;
use crate::types::graph_dynamic::graph_freeze::{
    count_degrees, lemma_occurrences_prefix, occurrences,
};
use vstd::prelude::*;

verus! {

/// How many positions of `targets` hold `v` and are not yet marked in `done`.
pub open spec fn pending(targets: Seq<usize>, done: Seq<bool>, v: usize) -> nat
    decreases targets.len(),
{
    if targets.len() == 0 {
        0
    } else {
        pending(targets.drop_last(), done.drop_last(), v) + if targets.last() == v && !done.last() {
            1nat
        } else {
            0nat
        }
    }
}

/// While nothing is marked, every occurrence is pending.
pub proof fn lemma_pending_fresh(targets: Seq<usize>, done: Seq<bool>, v: usize)
    requires
        targets.len() == done.len(),
        forall|p: int| 0 <= p < done.len() ==> !#[trigger] done[p],
    ensures
        pending(targets, done, v) == occurrences(targets, v),
    decreases targets.len(),
{
    if targets.len() > 0 {
        lemma_pending_fresh(targets.drop_last(), done.drop_last(), v);
    }
}

/// Marking an unmarked position takes one from the pending count of the node
/// it holds, which was at least one, and nothing from any other.
pub proof fn lemma_pending_consume(targets: Seq<usize>, done: Seq<bool>, p: int, v: usize)
    requires
        targets.len() == done.len(),
        0 <= p < targets.len(),
        !done[p],
    ensures
        pending(targets, done.update(p, true), v) + (if targets[p] == v {
            1nat
        } else {
            0nat
        }) == pending(targets, done, v),
    decreases targets.len(),
{
    let after = done.update(p, true);
    if p == targets.len() - 1 {
        assert(after.drop_last() =~= done.drop_last());
    } else {
        lemma_pending_consume(targets.drop_last(), done.drop_last(), p, v);
        assert(after.drop_last() =~= done.drop_last().update(p, true));
    }
}

/// With nothing pending for `v`, every position that holds `v` is marked; with
/// something pending, some position that holds `v` is not.
pub proof fn lemma_pending_witness(targets: Seq<usize>, done: Seq<bool>, v: usize)
    requires
        targets.len() == done.len(),
    ensures
        pending(targets, done, v) == 0 ==> forall|p: int|
            0 <= p < targets.len() && #[trigger] targets[p] == v ==> done[p],
        pending(targets, done, v) > 0 ==> exists|p: int|
            0 <= p < targets.len() && #[trigger] targets[p] == v && !done[p],
    decreases targets.len(),
{
    if targets.len() > 0 {
        let front = targets.drop_last();
        let marks = done.drop_last();
        lemma_pending_witness(front, marks, v);
        let last = targets.len() - 1;
        if pending(targets, done, v) == 0 {
            assert forall|p: int| 0 <= p < targets.len() && #[trigger] targets[p] == v implies done[p] by {
                if p < last {
                    assert(front[p] == v);
                    assert(marks[p]);
                }
            }
        } else {
            if targets[last] == v && !done[last] {
            } else {
                let p = choose|p: int| 0 <= p < front.len() && #[trigger] front[p] == v && !marks[p];
                assert(targets[p] == v && !done[p]);
            }
        }
    }
}

impl<N, W> CsmGraph<N, W> {
    /// The state of Kahn's algorithm: `queued` marks the nodes released so far.
    /// Of these, `order` lists the ones that have their place in the result,
    /// the first `head` of them with all their edges consumed, and `held`
    /// marks the ones that still wait for a place.
    pub open spec fn kahn_state(
        &self,
        in_degrees: Seq<usize>,
        order: Seq<usize>,
        head: int,
        placed: Seq<int>,
        queued: Seq<bool>,
        held: Seq<bool>,
        done: Seq<bool>,
    ) -> bool {
        let n = self.nodes.len() as int;
        let targets = self.forward_edges.targets@;
        &&& in_degrees.len() == n
        &&& placed.len() == n
        &&& queued.len() == n
        &&& held.len() == n
        &&& done.len() == targets.len()
        &&& 0 <= head <= order.len()
        &&& marked_count(queued) == order.len() + marked_count(held)
        &&& forall|v: int| 0 <= v < n ==> #[trigger] queued[v] == (placed[v] >= 0 || held[v])
        &&& forall|v: int| 0 <= v < n && #[trigger] held[v] ==> placed[v] < 0
        &&& forall|k: int|
            0 <= k < order.len() ==> #[trigger] order[k] < n && placed[order[k] as int] == k
        &&& forall|v: int|
            0 <= v < n && #[trigger] placed[v] >= 0 ==> placed[v] < order.len() && order[placed[v]] == v
        &&& forall|v: int|
            0 <= v < n ==> #[trigger] in_degrees[v] == pending(targets, done, v as usize)
        &&& forall|v: int| 0 <= v < n ==> (#[trigger] queued[v] <==> in_degrees[v] == 0)
        &&& forall|u: int, p: int|
            0 <= u < n && #[trigger] self.forward_edges.in_row(u, p) && placed[targets[p] as int] >= 0
                ==> 0 <= placed[u] < placed[targets[p] as int]
    }

    /// Positions are consumed row by row: those of the nodes before `head`, and
    /// those of the node at `head` before `cursor`.
    pub open spec fn consumed_upto(
        &self,
        placed: Seq<int>,
        done: Seq<bool>,
        head: int,
        cursor: int,
    ) -> bool {
        forall|u: int, p: int|
            0 <= u < self.nodes.len() && #[trigger] self.forward_edges.in_row(u, p) ==> (done[p] <==> (0
                <= placed[u] < head || (placed[u] == head && p < cursor)))
    }

    /// Consuming the edge at `cursor` in the row of the node at `head` keeps
    /// the state: the target has one pending edge fewer, and is released, to
    /// wait for its place, when that was its last.
    #[verifier::rlimit(80)]
    pub proof fn lemma_kahn_consume(
        &self,
        degrees: Seq<usize>,
        order: Seq<usize>,
        head: int,
        placed: Seq<int>,
        queued: Seq<bool>,
        held: Seq<bool>,
        done: Seq<bool>,
        cursor: int,
    )
        requires
            self.wf(),
            self.kahn_state(degrees, order, head, placed, queued, held, done),
            self.consumed_upto(placed, done, head, cursor),
            head < order.len(),
            self.forward_edges.in_row(order[head] as int, cursor),
        ensures
            ({
                let v = self.forward_edges.targets[cursor] as int;
                let done_after = done.update(cursor, true);
                let degrees_after = degrees.update(v, (degrees[v] - 1) as usize);
                &&& 0 <= v < self.nodes.len()
                &&& degrees[v] >= 1
                &&& !queued[v]
                &&& self.consumed_upto(placed, done_after, head, cursor + 1)
                &&& if degrees[v] == 1 {
                    self.kahn_state(
                        degrees_after,
                        order,
                        head,
                        placed,
                        queued.update(v, true),
                        held.update(v, true),
                        done_after,
                    )
                } else {
                    self.kahn_state(degrees_after, order, head, placed, queued, held, done_after)
                }
            }),
    {
        let n = self.nodes.len() as int;
        let targets = self.forward_edges.targets@;
        let current = order[head] as int;
        self.lemma_row_arc(current, cursor);
        let v = targets[cursor] as int;
        let done_after = done.update(cursor, true);
        let degrees_after = degrees.update(v, (degrees[v] - 1) as usize);
        assert(placed[current] == head);
        assert(!done[cursor]);
        lemma_pending_consume(targets, done, cursor, targets[cursor]);
        assert(degrees[v] == pending(targets, done, v as usize));
        assert(queued[v] <==> degrees[v] == 0);
        assert forall|w: int| 0 <= w < n implies #[trigger] degrees_after[w] == pending(
            targets,
            done_after,
            w as usize,
        ) by {
            lemma_pending_consume(targets, done, cursor, w as usize);
            assert(degrees[w] == pending(targets, done, w as usize));
        }
        assert forall|u: int, p: int|
            0 <= u < n && #[trigger] self.forward_edges.in_row(u, p) implies (done_after[p] <==> (0
            <= placed[u] < head || (placed[u] == head && p < cursor + 1))) by {
            self.lemma_row_arc(u, p);
            assert(done[p] <==> (0 <= placed[u] < head || (placed[u] == head && p < cursor)));
            if p == cursor {
                self.forward_edges.lemma_one_row(n, u, current, p);
            }
        }
        if degrees[v] == 1 {
            let queued_after = queued.update(v, true);
            let held_after = held.update(v, true);
            assert(!held[v]);
            lemma_marked_set(queued, v);
            lemma_marked_set(held, v);
            assert forall|w: int| 0 <= w < n implies #[trigger] queued_after[w] == (placed[w] >= 0
                || held_after[w]) by {
                assert(queued[w] == (placed[w] >= 0 || held[w]));
            }
            assert forall|w: int| 0 <= w < n && #[trigger] held_after[w] implies placed[w] < 0 by {
                if w != v {
                    assert(held[w]);
                } else {
                    assert(queued[v] == (placed[v] >= 0 || held[v]));
                }
            }
            assert forall|w: int| 0 <= w < n implies (#[trigger] queued_after[w] <==> degrees_after[w]
                == 0) by {
                assert(queued[w] <==> degrees[w] == 0);
            }
            assert(self.kahn_state(
                degrees_after,
                order,
                head,
                placed,
                queued_after,
                held_after,
                done_after,
            ));
        } else {
            assert forall|w: int| 0 <= w < n implies (#[trigger] queued[w] <==> degrees_after[w] == 0) by {
                assert(queued[w] <==> degrees[w] == 0);
            }
            assert(self.kahn_state(degrees_after, order, head, placed, queued, held, done_after));
        }
    }

    /// Giving a released node that waits its place at the end of the order
    /// keeps the state.
    #[verifier::rlimit(80)]
    pub proof fn lemma_kahn_place(
        &self,
        degrees: Seq<usize>,
        order: Seq<usize>,
        head: int,
        placed: Seq<int>,
        queued: Seq<bool>,
        held: Seq<bool>,
        done: Seq<bool>,
        cursor: int,
        v: int,
    )
        requires
            self.wf(),
            self.kahn_state(degrees, order, head, placed, queued, held, done),
            self.consumed_upto(placed, done, head, cursor),
            head < order.len() || cursor <= 0,
            0 <= v < self.nodes.len(),
            held[v],
        ensures
            order.len() < self.nodes.len(),
            self.kahn_state(
                degrees,
                order.push(v as usize),
                head,
                placed.update(v, order.len() as int),
                queued,
                held.update(v, false),
                done,
            ),
            self.consumed_upto(placed.update(v, order.len() as int), done, head, cursor),
    {
        let n = self.nodes.len() as int;
        let targets = self.forward_edges.targets@;
        let placed_after = placed.update(v, order.len() as int);
        let held_after = held.update(v, false);
        let order_after = order.push(v as usize);
        lemma_marked_clear(held, v);
        lemma_marked_bound(queued);
        lemma_marked_bound(held_after);
        assert(queued[v] == (placed[v] >= 0 || held[v]));
        assert(queued[v] <==> degrees[v] == 0);
        assert(degrees[v] == pending(targets, done, v as usize));
        lemma_pending_witness(targets, done, v as usize);
        assert forall|u: int, p: int|
            0 <= u < n && #[trigger] self.forward_edges.in_row(u, p) && placed_after[targets[p] as int]
                >= 0 implies 0 <= placed_after[u] < placed_after[targets[p] as int] by {
            self.lemma_row_arc(u, p);
            if targets[p] == v {
                assert(done[p]);
                assert(placed[u] >= 0);
                assert(u != v);
            } else {
                assert(placed[targets[p] as int] >= 0);
                assert(u != v);
            }
        }
        assert forall|k: int| 0 <= k < order_after.len() implies #[trigger] order_after[k] < n
            && placed_after[order_after[k] as int] == k by {
            if k < order.len() {
                assert(order[k] == order_after[k]);
                assert(placed[order[k] as int] == k);
            }
        }
        assert forall|w: int| 0 <= w < n && #[trigger] placed_after[w] >= 0 implies placed_after[w]
            < order_after.len() && order_after[placed_after[w]] == w by {
            if w != v {
                assert(placed[w] >= 0);
            }
        }
        assert forall|w: int| 0 <= w < n implies #[trigger] queued[w] == (placed_after[w] >= 0
            || held_after[w]) by {
            assert(queued[w] == (placed[w] >= 0 || held[w]));
        }
        assert forall|w: int| 0 <= w < n && #[trigger] held_after[w] implies placed_after[w] < 0 by {
            assert(held[w]);
        }
        assert forall|u: int, p: int|
            0 <= u < n && #[trigger] self.forward_edges.in_row(u, p) implies (done[p] <==> (0
            <= placed_after[u] < head || (placed_after[u] == head && p < cursor))) by {
            self.lemma_row_arc(u, p);
            assert(done[p] <==> (0 <= placed[u] < head || (placed[u] == head && p < cursor)));
        }
        assert(self.kahn_state(degrees, order_after, head, placed_after, queued, held_after, done));
    }

    /// When every released node has its place and all its edges consumed, the
    /// order is a topological order if it holds every node, and otherwise the
    /// nodes that were never released are caught in a closed loop.
    pub proof fn lemma_kahn_final(
        &self,
        degrees: Seq<usize>,
        order: Seq<usize>,
        placed: Seq<int>,
        queued: Seq<bool>,
        held: Seq<bool>,
        done: Seq<bool>,
    )
        requires
            self.wf(),
            self.kahn_state(degrees, order, order.len() as int, placed, queued, held, done),
            self.consumed_upto(placed, done, order.len() as int, 0),
            forall|v: int| 0 <= v < held.len() ==> !#[trigger] held[v],
        ensures
            order.len() <= self.nodes.len(),
            order.len() == self.nodes.len() ==> is_topological_order(self.adjacency(), order),
            order.len() < self.nodes.len() ==> !acyclic(self.adjacency()),
    {
        let n = self.nodes.len() as int;
        let targets = self.forward_edges.targets@;
        lemma_marked_none(held);
        lemma_marked_bound(queued);
        let adj = self.adjacency();
        if order.len() == n {
            assert forall|v: usize| v < adj.len() implies #[trigger] order.contains(v) by {
                assert(queued[v as int]);
                assert(order[placed[v as int]] == v);
            }
            assert forall|a: int, b: int| 0 <= a <= b < order.len() implies !#[trigger] has_arc(
                adj,
                order[b] as int,
                order[a] as int,
            ) by {
                if has_arc(adj, order[b] as int, order[a] as int) {
                    let p = self.lemma_arc_row(order[b] as int, order[a] as int);
                    assert(placed[order[a] as int] == a);
                    assert(placed[order[b] as int] == b);
                }
            }
            assert forall|a: int, b: int| 0 <= a < b < order.len() implies #[trigger] order[a]
                != #[trigger] order[b] by {
                assert(placed[order[a] as int] == a);
                assert(placed[order[b] as int] == b);
            }
        } else {
            let inside = Seq::new(n as nat, |v: int| !queued[v]);
            let stuck = choose|v: int| 0 <= v < queued.len() && !#[trigger] queued[v];
            assert forall|v: int| 0 <= v < adj.len() && #[trigger] inside[v] implies exists|u: int|
                0 <= u < adj.len() && inside[u] && #[trigger] has_arc(adj, u, v) by {
                lemma_pending_witness(targets, done, v as usize);
                assert(degrees[v] == pending(targets, done, v as usize));
                let p = choose|p: int|
                    0 <= p < targets.len() && #[trigger] targets[p] == v as usize && !done[p];
                let u = self.forward_edges.lemma_position_row(n as int, p, n as int);
                self.lemma_row_arc(u, p);
                assert(inside[u]);
            }
            lemma_trapped_has_cycle(adj, inside, stuck);
        }
    }

    /// Entry `idx` of the order has a turn: none if it has no predecessor, and
    /// else the position of the node through whose edge at `at` it was released.
    pub open spec fn turn_ok(
        &self,
        order: Seq<usize>,
        head: int,
        cursor: int,
        turn: Seq<int>,
        at: Seq<int>,
        idx: int,
    ) -> bool {
        let v = order[idx] as int;
        &&& -1 <= turn[v] <= head
        &&& turn[v] < order.len()
        &&& turn[v] == -1 ==> occurrences(self.forward_edges.targets@, v as usize) == 0
        &&& turn[v] >= 0 ==> {
            &&& self.forward_edges.in_row(order[turn[v]] as int, at[v])
            &&& self.forward_edges.targets[at[v]] == v
            &&& turn[v] == head ==> at[v] < cursor
        }
    }

    /// What Kahn's algorithm with a first-in-first-out queue keeps beyond
    /// `kahn_state`: the nodes are listed by turn, and ascending within a turn.
    pub open spec fn in_turn(
        &self,
        order: Seq<usize>,
        head: int,
        cursor: int,
        placed: Seq<int>,
        turn: Seq<int>,
        at: Seq<int>,
    ) -> bool {
        let n = self.nodes.len() as int;
        let targets = self.forward_edges.targets@;
        &&& turn.len() == n
        &&& at.len() == n
        &&& forall|idx: int|
            0 <= idx < order.len() ==> #[trigger] self.turn_ok(order, head, cursor, turn, at, idx)
        &&& forall|u: int, p: int|
            0 <= u < n && #[trigger] self.forward_edges.in_row(u, p) && placed[targets[p] as int] >= 0
                ==> placed[u] <= turn[targets[p] as int]
        &&& forall|i: int, j: int| 0 <= i < j < order.len() ==> #[trigger] turn_before(order, turn, i, j)
    }

    /// Passing an edge keeps the turns.
    pub proof fn lemma_turn_skip(
        &self,
        order: Seq<usize>,
        head: int,
        cursor: int,
        placed: Seq<int>,
        turn: Seq<int>,
        at: Seq<int>,
    )
        requires
            self.in_turn(order, head, cursor, placed, turn, at),
        ensures
            self.in_turn(order, head, cursor + 1, placed, turn, at),
    {
        assert forall|idx: int| 0 <= idx < order.len() implies #[trigger] self.turn_ok(
            order,
            head,
            cursor + 1,
            turn,
            at,
            idx,
        ) by {
            assert(self.turn_ok(order, head, cursor, turn, at, idx));
        }
    }

    /// Moving the head on keeps the turns, whatever the position at which the
    /// next row is entered.
    pub proof fn lemma_turn_advance(
        &self,
        order: Seq<usize>,
        head: int,
        cursor: int,
        placed: Seq<int>,
        turn: Seq<int>,
        at: Seq<int>,
        next: int,
    )
        requires
            self.in_turn(order, head, cursor, placed, turn, at),
        ensures
            self.in_turn(order, head + 1, next, placed, turn, at),
    {
        assert forall|idx: int| 0 <= idx < order.len() implies #[trigger] self.turn_ok(
            order,
            head + 1,
            next,
            turn,
            at,
            idx,
        ) by {
            assert(self.turn_ok(order, head, cursor, turn, at, idx));
        }
    }

    /// The node released through the edge at `cursor` in the row of the entry
    /// at the head takes its place at the end of the order in turn.
    #[verifier::rlimit(80)]
    pub proof fn lemma_turn_place(
        &self,
        degrees: Seq<usize>,
        order: Seq<usize>,
        head: int,
        placed: Seq<int>,
        queued: Seq<bool>,
        held: Seq<bool>,
        done: Seq<bool>,
        cursor: int,
        turn: Seq<int>,
        at: Seq<int>,
    )
        requires
            self.wf(),
            self.kahn_state(degrees, order, head, placed, queued, held, done),
            self.consumed_upto(placed, done, head, cursor + 1),
            self.in_turn(order, head, cursor, placed, turn, at),
            head < order.len(),
            self.forward_edges.in_row(order[head] as int, cursor),
            held[self.forward_edges.targets[cursor] as int],
        ensures
            ({
                let v = self.forward_edges.targets[cursor] as int;
                self.in_turn(
                    order.push(v as usize),
                    head,
                    cursor + 1,
                    placed.update(v, order.len() as int),
                    turn.update(v, head),
                    at.update(v, cursor),
                )
            }),
    {
        let n = self.nodes.len() as int;
        let targets = self.forward_edges.targets@;
        let current = order[head] as int;
        self.lemma_row_arc(current, cursor);
        let v = targets[cursor] as int;
        let order_after = order.push(v as usize);
        let placed_after = placed.update(v, order.len() as int);
        let turn_after = turn.update(v, head);
        let at_after = at.update(v, cursor);
        assert(queued[v] == (placed[v] >= 0 || held[v]));
        assert(queued[v] <==> degrees[v] == 0);
        assert(degrees[v] == pending(targets, done, v as usize));
        lemma_pending_witness(targets, done, v as usize);
        assert forall|idx: int| 0 <= idx < order_after.len() implies #[trigger] self.turn_ok(
            order_after,
            head,
            cursor + 1,
            turn_after,
            at_after,
            idx,
        ) by {
            if idx < order.len() {
                assert(self.turn_ok(order, head, cursor, turn, at, idx));
                assert(placed[order[idx] as int] == idx);
            }
        }
        assert forall|u: int, p: int|
            0 <= u < n && #[trigger] self.forward_edges.in_row(u, p) && placed_after[targets[p] as int]
                >= 0 implies placed_after[u] <= turn_after[targets[p] as int] by {
            self.lemma_row_arc(u, p);
            if targets[p] == v {
                assert(done[p]);
                assert(placed[u] >= 0);
            } else {
                assert(placed[targets[p] as int] >= 0);
                assert(0 <= placed[u]);
            }
        }
        assert forall|i: int, j: int| 0 <= i < j < order_after.len() implies #[trigger] turn_before(
            order_after,
            turn_after,
            i,
            j,
        ) by {
            assert(self.turn_ok(order, head, cursor, turn, at, i));
            assert(placed[order[i] as int] == i);
            if j < order.len() {
                assert(turn_before(order, turn, i, j));
                assert(placed[order[j] as int] == j);
            } else {
                let w = order[i] as int;
                if turn[w] == head {
                    assert(self.forward_edges.in_row(current, at[w]));
                    assert(self.forward_edges.targets[at[w]] <= self.forward_edges.targets[cursor]);
                }
            }
        }
    }

    /// When every node has its place, the turns are what the definition of the
    /// order asks for.
    pub proof fn lemma_turn_final(
        &self,
        degrees: Seq<usize>,
        order: Seq<usize>,
        placed: Seq<int>,
        queued: Seq<bool>,
        held: Seq<bool>,
        done: Seq<bool>,
        cursor: int,
        turn: Seq<int>,
        at: Seq<int>,
    )
        requires
            self.wf(),
            self.kahn_state(degrees, order, order.len() as int, placed, queued, held, done),
            self.in_turn(order, order.len() as int, cursor, placed, turn, at),
            order.len() == self.nodes.len(),
            is_topological_order(self.adjacency(), order),
        ensures
            is_kahn_order(self.adjacency(), order),
    {
        let n = self.nodes.len() as int;
        let adj = self.adjacency();
        let targets = self.forward_edges.targets@;
        let head = order.len() as int;
        let clipped = Seq::new(n as nat, |v: int| turn[v]);
        assert forall|v: int| 0 <= v < n implies placed[v] >= 0 && self.turn_ok(
            order,
            head,
            cursor,
            turn,
            at,
            placed[v],
        ) && order[placed[v]] == v by {
            assert(order.contains(v as usize));
            let k = choose|k: int| 0 <= k < order.len() && order[k] == v as usize;
            assert(placed[order[k] as int] == k);
        }
        assert forall|u: int, v: int| #[trigger] has_arc(adj, u, v) implies turn[v] >= 0 by {
            let p = self.lemma_arc_row(u, v);
            self.lemma_row_arc(u, p);
            lemma_occurrences_prefix(targets, p, v as usize);
            assert(self.turn_ok(order, head, cursor, turn, at, placed[v]));
        }
        assert forall|v: int| 0 <= v < n && #[trigger] turn[v] >= 0 implies has_arc(
            adj,
            order[turn[v]] as int,
            v,
        ) by {
            assert(self.turn_ok(order, head, cursor, turn, at, placed[v]));
            assert(order[turn[v]] < n);
            self.lemma_row_arc(order[turn[v]] as int, at[v]);
        }
        assert forall|i: int, v: int|
            0 <= i < order.len() && #[trigger] has_arc(adj, order[i] as int, v) implies i <= turn[v] by {
            let p = self.lemma_arc_row(order[i] as int, v);
            assert(placed[order[i] as int] == i);
        }
        assert forall|v: int| 0 <= v < n implies -1 <= #[trigger] turn[v] < order.len() by {
            assert(self.turn_ok(order, head, cursor, turn, at, placed[v]));
        }
        assert(released_in_turn(adj, order, turn));
    }

    /// Releases nodes in the order of Kahn's algorithm: first those without
    /// incoming edges, ascending, then each node as soon as the last of its
    /// predecessors has been released. Returns the nodes released.
    pub fn kahn_order(&self) -> (order: Vec<usize>)
        requires
            self.wf(),
        ensures
            order.len() <= self.nodes.len(),
            order.len() == self.nodes.len() ==> is_kahn_order(self.adjacency(), order@),
            order.len() < self.nodes.len() ==> !acyclic(self.adjacency()),
    {
        let n = self.nodes.len();
        let ghost targets = self.forward_edges.targets@;
        let mut in_degrees = count_degrees(&self.forward_edges.targets, n);
        let mut order: Vec<usize> = Vec::with_capacity(n);
        let ghost mut turn: Seq<int> = Seq::new(n as nat, |v: int| -1int);
        let ghost mut at: Seq<int> = Seq::new(n as nat, |v: int| 0int);
        let ghost mut placed: Seq<int> = Seq::new(n as nat, |v: int| -1int);
        let ghost mut queued: Seq<bool> = Seq::new(n as nat, |v: int| false);
        let ghost mut held: Seq<bool> = Seq::new(n as nat, |v: int| false);
        let ghost done: Seq<bool> = Seq::new(targets.len(), |p: int| false);
        proof {
            lemma_marked_none(queued);
            lemma_marked_none(held);
            assert forall|v: int| 0 <= v < n implies #[trigger] in_degrees[v] == pending(
                targets,
                done,
                v as usize,
            ) by {
                lemma_pending_fresh(targets, done, v as usize);
            }
        }
        let mut i: usize = 0;
        while i < n
            invariant
                i <= n,
                n == self.nodes.len(),
                self.wf(),
                targets == self.forward_edges.targets@,
                in_degrees.len() == n,
                placed.len() == n,
                queued.len() == n,
                held.len() == n,
                marked_count(held) == 0,
                forall|v: int| 0 <= v < n ==> !#[trigger] held[v],
                done.len() == targets.len(),
                forall|p: int| 0 <= p < done.len() ==> !#[trigger] done[p],
                marked_count(queued) == order.len(),
                order.len() <= i,
                forall|v: int| 0 <= v < n ==> #[trigger] queued[v] == (placed[v] >= 0),
                forall|k: int|
                    0 <= k < order.len() ==> #[trigger] order[k] < i && placed[order[k] as int] == k,
                forall|v: int|
                    0 <= v < n && #[trigger] placed[v] >= 0 ==> placed[v] < order.len()
                        && order[placed[v]] == v,
                forall|v: int|
                    0 <= v < n ==> #[trigger] in_degrees[v] == pending(targets, done, v as usize),
                forall|v: int| 0 <= v < i ==> (#[trigger] queued[v] <==> in_degrees[v] == 0),
                forall|v: int| i <= v < n ==> !#[trigger] queued[v],
                forall|v: int| 0 <= v < n ==> #[trigger] in_degrees[v] == occurrences(targets, v as usize),
                forall|a: int, b: int| 0 <= a < b < order.len() ==> #[trigger] order[a] < #[trigger] order[b],
            decreases n - i,
        {
            if in_degrees[i] == 0 {
                proof {
                    lemma_marked_set(queued, i as int);
                    placed = placed.update(i as int, order.len() as int);
                    queued = queued.update(i as int, true);
                }
                order.push(i);
            }
            i = i + 1;
        }
        proof {
            assert forall|u: int, p: int|
                0 <= u < n && #[trigger] self.forward_edges.in_row(u, p) && placed[targets[p] as int]
                    >= 0 implies 0 <= placed[u] < placed[targets[p] as int] by {
                self.lemma_row_arc(u, p);
                lemma_pending_consume(targets, done, p, targets[p]);
                assert(queued[targets[p] as int]);
            }
            assert(self.kahn_state(in_degrees@, order@, 0, placed, queued, held, done));
            assert forall|idx: int, c: int| 0 <= idx < order.len() implies #[trigger] self.turn_ok(
                order@,
                0,
                c,
                turn,
                at,
                idx,
            ) by {
                assert(queued[order[idx] as int]);
            }
            assert forall|a: int, b: int| 0 <= a < b < order.len() implies #[trigger] turn_before(
                order@,
                turn,
                a,
                b,
            ) by {}
            assert forall|u: int, p: int|
                0 <= u < n && #[trigger] self.forward_edges.in_row(u, p) && placed[targets[p] as int]
                    >= 0 implies placed[u] <= turn[targets[p] as int] by {
                self.lemma_row_arc(u, p);
                assert(queued[targets[p] as int]);
                lemma_occurrences_prefix(targets, p, targets[p]);
            }
        }
        let ghost mut done = done;
        let mut head: usize = 0;
        while head < order.len()
            invariant
                n == self.nodes.len(),
                self.wf(),
                targets == self.forward_edges.targets@,
                self.kahn_state(in_degrees@, order@, head as int, placed, queued, held, done),
                self.consumed_upto(placed, done, head as int, 0),
                self.in_turn(
                    order@,
                    head as int,
                    if head < order.len() {
                        self.forward_edges.offsets[order[head as int] as int] as int
                    } else {
                        0
                    },
                    placed,
                    turn,
                    at,
                ),
                forall|v: int| 0 <= v < n ==> !#[trigger] held[v],
            decreases n - head,
        {
            proof {
                lemma_marked_bound(queued);
            }
            let current = order[head];
            let start = self.forward_edges.offsets[current];
            let end = self.forward_edges.offsets[current + 1];
            let mut cursor = start;
            proof {
                assert forall|u: int, p: int|
                    0 <= u < n && #[trigger] self.forward_edges.in_row(u, p) implies (done[p] <==> (0
                    <= placed[u] < head || (placed[u] == head && p < cursor))) by {
                    if placed[u] == head {
                        assert(u == current);
                    }
                }
            }
            while cursor < end
                invariant
                    n == self.nodes.len(),
                    self.wf(),
                    targets == self.forward_edges.targets@,
                    head < order.len(),
                    current == order[head as int],
                    start == self.forward_edges.offsets[current as int],
                    end == self.forward_edges.offsets[current + 1],
                    start <= cursor <= end,
                    self.kahn_state(in_degrees@, order@, head as int, placed, queued, held, done),
                    self.consumed_upto(placed, done, head as int, cursor as int),
                    self.in_turn(order@, head as int, cursor as int, placed, turn, at),
                    forall|v: int| 0 <= v < n ==> !#[trigger] held[v],
                decreases end - cursor,
            {
                proof {
                    self.lemma_row_arc(current as int, cursor as int);
                    self.lemma_kahn_consume(
                        in_degrees@,
                        order@,
                        head as int,
                        placed,
                        queued,
                        held,
                        done,
                        cursor as int,
                    );
                }
                let v = self.forward_edges.targets[cursor];
                in_degrees[v] = in_degrees[v] - 1;
                proof {
                    done = done.update(cursor as int, true);
                }
                if in_degrees[v] == 0 {
                    proof {
                        queued = queued.update(v as int, true);
                        self.lemma_turn_place(
                            in_degrees@,
                            order@,
                            head as int,
                            placed,
                            queued,
                            held.update(v as int, true),
                            done,
                            cursor as int,
                            turn,
                            at,
                        );
                        self.lemma_kahn_place(
                            in_degrees@,
                            order@,
                            head as int,
                            placed,
                            queued,
                            held.update(v as int, true),
                            done,
                            cursor + 1,
                            v as int,
                        );
                        placed = placed.update(v as int, order.len() as int);
                        turn = turn.update(v as int, head as int);
                        at = at.update(v as int, cursor as int);
                        assert(held.update(v as int, true).update(v as int, false) =~= held);
                    }
                    order.push(v);
                } else {
                    proof {
                        self.lemma_turn_skip(order@, head as int, cursor as int, placed, turn, at);
                    }
                }
                cursor = cursor + 1;
            }
            proof {
                assert forall|u: int, p: int|
                    0 <= u < n && #[trigger] self.forward_edges.in_row(u, p) implies (done[p] <==> (0
                    <= placed[u] < head + 1 || (placed[u] == head + 1 && p < 0))) by {
                    if placed[u] == head {
                        assert(u == current);
                    }
                }
            }
            proof {
                let next = if head + 1 < order.len() {
                    self.forward_edges.offsets[order[head + 1] as int] as int
                } else {
                    0
                };
                self.lemma_turn_advance(order@, head as int, cursor as int, placed, turn, at, next);
            }
            head = head + 1;
        }
        proof {
            self.lemma_kahn_final(in_degrees@, order@, placed, queued, held, done);
            if order.len() == n {
                self.lemma_turn_final(in_degrees@, order@, placed, queued, held, done, 0, turn, at);
            }
        }
        order
    }
}

} // verus!
