use crate::paths::{
    acyclic, has_arc, is_cycle, is_topological_order, lemma_marked_bound, lemma_marked_none,
    lemma_marked_set, lemma_ordered_is_acyclic, lemma_reverse_walk, lemma_walk_push, marked_count,
    step_ok,
};
use crate::types::graph_csm::graph_csm_dfs_utils::{
    lemma_unvisited_shrinks, reversed, unvisited_count, NodeState,
};
use crate::types::graph_csm::CsmGraph;
use vstd::prelude::*;

verus! {

/// What a depth-first search for a closed loop keeps beside the graph: the
/// state of each node, the node each was reached from, the stack of nodes in
/// progress with the position each has reached in its row, and the order in
/// which nodes were finished.
pub struct SearchState {
    pub states: Seq<NodeState>,
    pub predecessors: Seq<Option<usize>>,
    pub stack: Seq<(usize, usize)>,
    /// For each node in progress, where it stands on the stack.
    pub slot: Seq<int>,
    /// The finished nodes, in the order in which they were finished.
    pub finished: Seq<usize>,
    /// For each finished node, where it stands in `finished`.
    pub rank: Seq<int>,
    /// Which nodes are finished.
    pub marks: Seq<bool>,
}

impl<N, W> CsmGraph<N, W> {
    /// Entry `k` of the stack is a node in progress with a position in its row.
    pub open spec fn entry_ok(&self, s: SearchState, k: int) -> bool {
        let x = s.stack[k].0 as int;
        let c = s.stack[k].1 as int;
        &&& 0 <= x < self.nodes.len()
        &&& s.states[x] is VisitingInProgress
        &&& s.slot[x] == k
        &&& self.forward_edges.offsets[x] <= c <= self.forward_edges.offsets[x + 1]
    }

    /// Entry `k` of the stack was reached from the entry below it, through the
    /// edge that the entry below looked at last.
    pub open spec fn link_ok(&self, s: SearchState, k: int) -> bool {
        let x = s.stack[k].0;
        let below = s.stack[k - 1].0 as int;
        let c = s.stack[k - 1].1 as int;
        &&& s.predecessors[x as int] == Some(s.stack[k - 1].0)
        &&& self.forward_edges.offsets[below] < c
        &&& self.forward_edges.targets[c - 1] == x
    }

    /// Every edge that entry `k` has looked at leads to a finished node, but
    /// the last one if another entry lies above it.
    pub open spec fn scanned_ok(&self, s: SearchState, k: int) -> bool {
        let x = s.stack[k].0 as int;
        let c = s.stack[k].1 as int;
        forall|p: int|
            self.forward_edges.offsets[x] <= p < c && !(k + 1 < s.stack.len() && p == c - 1)
                ==> #[trigger] s.marks[self.forward_edges.targets[p] as int]
    }

    /// Every edge of the finished node `x` leads to a node finished before it.
    pub open spec fn settled(&self, s: SearchState, x: int) -> bool {
        forall|p: int| #[trigger]
            self.forward_edges.in_row(x, p) ==> s.marks[self.forward_edges.targets[p] as int]
                && s.rank[self.forward_edges.targets[p] as int] < s.rank[x]
    }

    /// The invariant of the search.
    pub open spec fn searching(&self, s: SearchState) -> bool {
        let n = self.nodes.len() as int;
        &&& s.states.len() == n
        &&& s.predecessors.len() == n
        &&& s.slot.len() == n
        &&& s.rank.len() == n
        &&& s.marks.len() == n
        &&& marked_count(s.marks) == s.finished.len()
        &&& forall|v: int| 0 <= v < n ==> #[trigger] s.marks[v] == (s.states[v] is Visited)
        &&& forall|v: int|
            0 <= v < n && #[trigger] s.marks[v] ==> 0 <= s.rank[v] < s.finished.len()
                && s.finished[s.rank[v]] == v
        &&& forall|k: int|
            0 <= k < s.finished.len() ==> #[trigger] s.finished[k] < n && s.marks[s.finished[k] as int]
                && s.rank[s.finished[k] as int] == k
        &&& forall|v: int| 0 <= v < n && #[trigger] s.marks[v] ==> self.settled(s, v)
        &&& forall|k: int| 0 <= k < s.stack.len() ==> #[trigger] self.entry_ok(s, k)
        &&& forall|k: int| 1 <= k < s.stack.len() ==> #[trigger] self.link_ok(s, k)
        &&& forall|k: int| 0 <= k < s.stack.len() ==> #[trigger] self.scanned_ok(s, k)
        &&& forall|v: int|
            0 <= v < n && #[trigger] s.states[v] is VisitingInProgress ==> 0 <= s.slot[v]
                < s.stack.len() && s.stack[s.slot[v]].0 == v
    }

    /// The search starts with nothing visited.
    pub proof fn lemma_search_start(&self, s: SearchState)
        requires
            self.wf(),
            s.states.len() == self.nodes.len(),
            s.predecessors.len() == self.nodes.len(),
            s.slot.len() == self.nodes.len(),
            s.rank.len() == self.nodes.len(),
            s.marks.len() == self.nodes.len(),
            forall|v: int| 0 <= v < s.states.len() ==> #[trigger] s.states[v] is Unvisited,
            forall|v: int| 0 <= v < s.marks.len() ==> !#[trigger] s.marks[v],
            s.stack.len() == 0,
            s.finished.len() == 0,
        ensures
            self.searching(s),
    {
        lemma_marked_none(s.marks);
    }

    /// Starting to explore an unvisited node from an empty stack.
    pub proof fn lemma_search_root(&self, s: SearchState, i: int) -> (after: SearchState)
        requires
            self.wf(),
            self.searching(s),
            s.stack.len() == 0,
            0 <= i < self.nodes.len(),
            s.states[i] is Unvisited,
        ensures
            self.searching(after),
            after == (SearchState {
                states: s.states.update(i, NodeState::VisitingInProgress),
                stack: s.stack.push((i as usize, self.forward_edges.offsets[i])),
                slot: s.slot.update(i, 0),
                ..s
            }),
    {
        let n = self.nodes.len() as int;
        let after = SearchState {
            states: s.states.update(i, NodeState::VisitingInProgress),
            stack: s.stack.push((i as usize, self.forward_edges.offsets[i])),
            slot: s.slot.update(i, 0),
            ..s
        };
        assert(self.forward_edges.offsets[i] <= self.forward_edges.offsets[i + 1]);
        assert forall|v: int| 0 <= v < n implies #[trigger] after.marks[v] == (after.states[v] is Visited) by {
            assert(s.marks[v] == (s.states[v] is Visited));
        }
        assert forall|v: int| 0 <= v < n && #[trigger] after.marks[v] implies self.settled(after, v) by {
            assert(self.settled(s, v));
        }
        assert(self.entry_ok(after, 0));
        assert(self.scanned_ok(after, 0));
        assert forall|v: int| 0 <= v < n && #[trigger] after.states[v] is VisitingInProgress implies 0
            <= after.slot[v] < after.stack.len() && after.stack[after.slot[v]].0 == v by {
            if v != i {
                assert(s.states[v] is VisitingInProgress);
            }
        }
        after
    }

    /// Passing over an edge of the top entry that leads to a finished node.
    pub proof fn lemma_search_skip(&self, s: SearchState) -> (after: SearchState)
        requires
            self.wf(),
            self.searching(s),
            s.stack.len() > 0,
            s.stack.last().1 < self.forward_edges.offsets[s.stack.last().0 + 1],
            s.states[self.forward_edges.targets[s.stack.last().1 as int] as int] is Visited,
        ensures
            self.searching(after),
            after == (SearchState {
                stack: s.stack.update(
                    s.stack.len() - 1,
                    (s.stack.last().0, (s.stack.last().1 + 1) as usize),
                ),
                ..s
            }),
    {
        let n = self.nodes.len() as int;
        let top = s.stack.len() - 1;
        let x = s.stack[top].0;
        let c = s.stack[top].1;
        let after = SearchState { stack: s.stack.update(top, (x, (c + 1) as usize)), ..s };
        assert(self.entry_ok(s, top));
        self.lemma_row_arc(x as int, c as int);
        assert forall|v: int| 0 <= v < n && #[trigger] after.marks[v] implies self.settled(after, v) by {
            assert(self.settled(s, v));
        }
        assert forall|k: int| 0 <= k < after.stack.len() implies #[trigger] self.entry_ok(after, k) by {
            assert(self.entry_ok(s, k));
        }
        assert forall|k: int| 1 <= k < after.stack.len() implies #[trigger] self.link_ok(after, k) by {
            assert(self.link_ok(s, k));
        }
        assert forall|k: int| 0 <= k < after.stack.len() implies #[trigger] self.scanned_ok(after, k) by {
            assert(self.scanned_ok(s, k));
        }
        assert forall|v: int| 0 <= v < n && #[trigger] after.states[v] is VisitingInProgress implies 0
            <= after.slot[v] < after.stack.len() && after.stack[after.slot[v]].0 == v by {
            assert(s.stack[s.slot[v]].0 == v);
        }
        after
    }

    /// Descending along an edge of the top entry to an unvisited node.
    pub proof fn lemma_search_push(&self, s: SearchState) -> (after: SearchState)
        requires
            self.wf(),
            self.searching(s),
            s.stack.len() > 0,
            s.stack.last().1 < self.forward_edges.offsets[s.stack.last().0 + 1],
            s.states[self.forward_edges.targets[s.stack.last().1 as int] as int] is Unvisited,
        ensures
            self.searching(after),
            after == ({
                let v = self.forward_edges.targets[s.stack.last().1 as int];
                SearchState {
                    states: s.states.update(v as int, NodeState::VisitingInProgress),
                    predecessors: s.predecessors.update(v as int, Some(s.stack.last().0)),
                    stack: s.stack.update(
                        s.stack.len() - 1,
                        (s.stack.last().0, (s.stack.last().1 + 1) as usize),
                    ).push((v, self.forward_edges.offsets[v as int])),
                    slot: s.slot.update(v as int, s.stack.len() as int),
                    ..s
                }
            }),
    {
        let n = self.nodes.len() as int;
        let top = s.stack.len() - 1;
        let x = s.stack[top].0;
        let c = s.stack[top].1;
        assert(self.entry_ok(s, top));
        self.lemma_row_arc(x as int, c as int);
        let v = self.forward_edges.targets[c as int];
        let after = SearchState {
            states: s.states.update(v as int, NodeState::VisitingInProgress),
            predecessors: s.predecessors.update(v as int, Some(x)),
            stack: s.stack.update(top, (x, (c + 1) as usize)).push(
                (v, self.forward_edges.offsets[v as int]),
            ),
            slot: s.slot.update(v as int, s.stack.len() as int),
            ..s
        };
        assert(self.forward_edges.offsets[v as int] <= self.forward_edges.offsets[v + 1]);
        assert forall|w: int| 0 <= w < n implies #[trigger] after.marks[w] == (after.states[w] is Visited) by {
            assert(s.marks[w] == (s.states[w] is Visited));
        }
        assert forall|w: int| 0 <= w < n && #[trigger] after.marks[w] implies self.settled(after, w) by {
            assert(self.settled(s, w));
        }
        assert forall|k: int| 0 <= k < after.stack.len() implies #[trigger] self.entry_ok(after, k) by {
            if k <= top {
                assert(self.entry_ok(s, k));
            }
        }
        assert forall|k: int| 1 <= k < after.stack.len() implies #[trigger] self.link_ok(after, k) by {
            if k <= top {
                assert(self.link_ok(s, k));
                assert(self.entry_ok(s, k));
                assert(self.entry_ok(s, k - 1));
            }
        }
        assert forall|k: int| 0 <= k < after.stack.len() implies #[trigger] self.scanned_ok(after, k) by {
            if k <= top {
                assert(self.scanned_ok(s, k));
            }
        }
        assert forall|w: int| 0 <= w < n && #[trigger] after.states[w] is VisitingInProgress implies 0
            <= after.slot[w] < after.stack.len() && after.stack[after.slot[w]].0 == w by {
            if w != v {
                assert(s.states[w] is VisitingInProgress);
                assert(s.stack[s.slot[w]].0 == w);
            }
        }
        after
    }

    /// Finishing the top entry once all its edges have been looked at.
    pub proof fn lemma_search_pop(&self, s: SearchState) -> (after: SearchState)
        requires
            self.wf(),
            self.searching(s),
            s.stack.len() > 0,
            s.stack.last().1 >= self.forward_edges.offsets[s.stack.last().0 + 1],
        ensures
            self.searching(after),
            after == ({
                let x = s.stack.last().0;
                SearchState {
                    states: s.states.update(x as int, NodeState::Visited),
                    stack: s.stack.drop_last(),
                    finished: s.finished.push(x),
                    rank: s.rank.update(x as int, s.finished.len() as int),
                    marks: s.marks.update(x as int, true),
                    ..s
                }
            }),
            !s.marks[s.stack.last().0 as int],
    {
        let n = self.nodes.len() as int;
        let top = s.stack.len() - 1;
        let x = s.stack[top].0;
        let c = s.stack[top].1;
        assert(self.entry_ok(s, top));
        assert(self.scanned_ok(s, top));
        assert(s.marks[x as int] == (s.states[x as int] is Visited));
        lemma_marked_set(s.marks, x as int);
        let after = SearchState {
            states: s.states.update(x as int, NodeState::Visited),
            stack: s.stack.drop_last(),
            finished: s.finished.push(x),
            rank: s.rank.update(x as int, s.finished.len() as int),
            marks: s.marks.update(x as int, true),
            ..s
        };
        assert forall|w: int| 0 <= w < n implies #[trigger] after.marks[w] == (after.states[w] is Visited) by {
            assert(s.marks[w] == (s.states[w] is Visited));
        }
        assert forall|w: int| 0 <= w < n && #[trigger] after.marks[w] implies 0 <= after.rank[w]
            < after.finished.len() && after.finished[after.rank[w]] == w by {
            if w != x {
                assert(s.marks[w]);
            }
        }
        assert forall|k: int| 0 <= k < after.finished.len() implies #[trigger] after.finished[k] < n
            && after.marks[after.finished[k] as int] && after.rank[after.finished[k] as int] == k by {
            if k < s.finished.len() {
                assert(s.finished[k] == after.finished[k]);
                assert(s.marks[s.finished[k] as int]);
            }
        }
        assert forall|w: int| 0 <= w < n && #[trigger] after.marks[w] implies self.settled(after, w) by {
            if w != x {
                assert(s.marks[w]);
                assert(self.settled(s, w));
                assert forall|p: int| #[trigger] self.forward_edges.in_row(w, p) implies after.marks[self.forward_edges.targets[p] as int]
                    && after.rank[self.forward_edges.targets[p] as int] < after.rank[w] by {
                    assert(s.marks[self.forward_edges.targets[p] as int]);
                }
            } else {
                assert forall|p: int| #[trigger] self.forward_edges.in_row(w, p) implies after.marks[self.forward_edges.targets[p] as int]
                    && after.rank[self.forward_edges.targets[p] as int] < after.rank[w] by {
                    self.lemma_row_arc(w, p);
                    assert(s.marks[self.forward_edges.targets[p] as int]);
                }
            }
        }
        assert forall|k: int| 0 <= k < after.stack.len() implies #[trigger] self.entry_ok(after, k) by {
            assert(self.entry_ok(s, k));
        }
        assert forall|k: int| 1 <= k < after.stack.len() implies #[trigger] self.link_ok(after, k) by {
            assert(self.link_ok(s, k));
        }
        assert forall|k: int| 0 <= k < after.stack.len() implies #[trigger] self.scanned_ok(after, k) by {
            assert(self.scanned_ok(s, k));
            assert(self.link_ok(s, top));
            let y = s.stack[k].0 as int;
            let d = s.stack[k].1 as int;
            assert forall|p: int|
                self.forward_edges.offsets[y] <= p < d && !(k + 1 < after.stack.len() && p == d - 1) implies #[trigger] after.marks[self.forward_edges.targets[p] as int] by {
                assert(self.entry_ok(s, k));
                self.lemma_row_arc(y, p);
                if k == top - 1 && p == d - 1 {
                    assert(self.forward_edges.targets[p] == x);
                } else {
                    assert(s.marks[self.forward_edges.targets[p] as int]);
                }
            }
        }
        assert forall|w: int| 0 <= w < n && #[trigger] after.states[w] is VisitingInProgress implies 0
            <= after.slot[w] < after.stack.len() && after.stack[after.slot[w]].0 == w by {
            assert(s.states[w] is VisitingInProgress);
            assert(s.stack[s.slot[w]].0 == w);
        }
        after
    }

    /// When the search has finished every node, the graph has no closed loop:
    /// the order of finishing, read backwards, is a topological order.
    pub proof fn lemma_search_done(&self, s: SearchState)
        requires
            self.wf(),
            self.searching(s),
            forall|v: int| 0 <= v < self.nodes.len() ==> #[trigger] s.states[v] is Visited,
        ensures
            acyclic(self.adjacency()),
    {
        let n = self.nodes.len() as int;
        let adj = self.adjacency();
        lemma_marked_bound(s.marks);
        crate::paths::lemma_marked_all(s.marks);
        let order = s.finished.reverse();
        assert forall|v: usize| v < adj.len() implies #[trigger] order.contains(v) by {
            assert(s.marks[v as int]);
            let k = s.rank[v as int];
            assert(order[n - 1 - k] == v);
        }
        assert forall|a: int, b: int| 0 <= a < b < order.len() implies #[trigger] order[a]
            != #[trigger] order[b] by {
            assert(s.rank[s.finished[n - 1 - a] as int] == n - 1 - a);
            assert(s.rank[s.finished[n - 1 - b] as int] == n - 1 - b);
        }
        assert forall|a: int, b: int| 0 <= a <= b < order.len() implies !#[trigger] has_arc(
            adj,
            order[b] as int,
            order[a] as int,
        ) by {
            if has_arc(adj, order[b] as int, order[a] as int) {
                let p = self.lemma_arc_row(order[b] as int, order[a] as int);
                assert(s.marks[order[b] as int]);
                assert(self.settled(s, order[b] as int));
                assert(s.rank[s.finished[n - 1 - a] as int] == n - 1 - a);
                assert(s.rank[s.finished[n - 1 - b] as int] == n - 1 - b);
            }
        }
        assert(is_topological_order(adj, order));
        lemma_ordered_is_acyclic(adj, order);
    }
}

impl<N, W> CsmGraph<N, W> {
    /// The top of the stack has found an edge to `v`, which is in progress and
    /// so stands on the stack too. Follows the recorded predecessors from the
    /// top back to `v` and returns the loop they form: `v`, the nodes above it
    /// on the stack up to the top, and `v` again.
    pub fn trace_cycle(
        &self,
        predecessors: &Vec<Option<usize>>,
        u: usize,
        v: usize,
        Ghost(s): Ghost<SearchState>,
    ) -> (path: Vec<usize>)
        requires
            self.wf(),
            self.searching(s),
            s.predecessors == predecessors@,
            s.stack.len() > 0,
            u == s.stack.last().0,
            s.stack.last().1 < self.forward_edges.offsets[u + 1],
            v == self.forward_edges.targets[s.stack.last().1 as int],
            s.states[v as int] is VisitingInProgress,
        ensures
            is_cycle(self.adjacency(), path@),
            path@.first() == v,
            path@.len() >= 2,
            path@[path@.len() - 2] == u,
            forall|a: int, b: int|
                0 <= a < b < path@.len() - 1 ==> #[trigger] path@[a] != #[trigger] path@[b],
    {
        let ghost adj = self.adjacency();
        let ghost top = s.stack.len() - 1;
        let ghost target = s.slot[v as int];
        let ghost mut at = top;
        proof {
            assert(self.entry_ok(s, top));
            self.lemma_row_arc(u as int, s.stack.last().1 as int);
            assert(self.entry_ok(s, target));
        }
        let mut back: Vec<usize> = Vec::new();
        back.push(u);
        let mut current = u;
        while current != v
            invariant
                self.wf(),
                self.searching(s),
                adj == self.adjacency(),
                s.predecessors == predecessors@,
                top == s.stack.len() - 1,
                0 <= target <= at <= top,
                s.stack[target].0 == v,
                current == s.stack[at].0,
                back.len() == top - at + 1,
                forall|i: int| 0 <= i < back.len() ==> #[trigger] back[i] == s.stack[top - i].0,
                forall|i: int| 0 <= i < back.len() ==> #[trigger] back[i] < self.nodes.len(),
                forall|i: int|
                    0 <= i < back.len() - 1 ==> #[trigger] has_arc(adj, back[i + 1] as int, back[i] as int),
            decreases at,
        {
            proof {
                assert(self.entry_ok(s, at));
                assert(self.entry_ok(s, target));
                assert(at != target);
                assert(self.link_ok(s, at));
                assert(self.entry_ok(s, at - 1));
                self.lemma_row_arc(s.stack[at - 1].0 as int, s.stack[at - 1].1 - 1);
            }
            let ghost before = back@;
            match predecessors[current] {
                Some(pred) => {
                    back.push(pred);
                    current = pred;
                },
                None => {
                    proof {
                        assert(false);
                    }
                },
            }
            proof {
                at = at - 1;
                assert forall|i: int| 0 <= i < back.len() - 1 implies #[trigger] has_arc(
                    adj,
                    back[i + 1] as int,
                    back[i] as int,
                ) by {
                    if i < before.len() - 1 {
                        assert(has_arc(adj, before[i + 1] as int, before[i] as int));
                    }
                }
            }
        }
        proof {
            lemma_reverse_walk(adj, back@);
        }
        let mut path = reversed(&back);
        proof {
            lemma_walk_push(adj, path@, v);
            assert(self.entry_ok(s, at));
            assert(self.entry_ok(s, target));
            assert forall|a: int, b: int| 0 <= a < b < path@.len() implies #[trigger] path@[a]
                != #[trigger] path@[b] by {
                let ka = top - (back.len() - 1 - a);
                let kb = top - (back.len() - 1 - b);
                assert(path@[a] == s.stack[ka].0);
                assert(path@[b] == s.stack[kb].0);
                assert(self.entry_ok(s, ka));
                assert(self.entry_ok(s, kb));
            }
        }
        let ghost inner = path@;
        path.push(v);
        proof {
            assert forall|a: int, b: int| 0 <= a < b < path@.len() - 1 implies #[trigger] path@[a]
                != #[trigger] path@[b] by {
                assert(path@[a] == inner[a]);
                assert(path@[b] == inner[b]);
            }
        }
        path
    }

    /// Looks for a closed loop by depth-first search with an explicit stack,
    /// taking every unvisited node in turn as a root.
    pub fn search_cycle(&self) -> (found: Option<Vec<usize>>)
        requires
            self.wf(),
        ensures
            found matches Some(cycle) ==> is_cycle(self.adjacency(), cycle@),
            found matches Some(cycle) ==> forall|a: int, b: int|
                0 <= a < b < cycle@.len() - 1 ==> #[trigger] cycle@[a] != #[trigger] cycle@[b],
            found is None ==> acyclic(self.adjacency()),
    {
        let n = self.nodes.len();
        let mut states: Vec<NodeState> = Vec::with_capacity(n);
        let mut predecessors: Vec<Option<usize>> = Vec::with_capacity(n);
        let mut k: usize = 0;
        while k < n
            invariant
                k <= n,
                states.len() == k,
                predecessors.len() == k,
                forall|v: int| 0 <= v < k ==> #[trigger] states[v] is Unvisited,
            decreases n - k,
        {
            states.push(NodeState::Unvisited);
            predecessors.push(None);
            k = k + 1;
        }
        let ghost mut s = SearchState {
            states: states@,
            predecessors: predecessors@,
            stack: Seq::empty(),
            slot: Seq::new(n as nat, |v: int| -1int),
            finished: Seq::empty(),
            rank: Seq::new(n as nat, |v: int| -1int),
            marks: Seq::new(n as nat, |v: int| false),
        };
        proof {
            self.lemma_search_start(s);
        }
        let mut i: usize = 0;
        while i < n
            invariant
                i <= n,
                n == self.nodes.len(),
                self.wf(),
                self.searching(s),
                s.states == states@,
                s.predecessors == predecessors@,
                s.stack.len() == 0,
                forall|v: int| 0 <= v < i ==> #[trigger] states[v] is Visited,
            decreases n - i,
        {
            let is_new = match states[i] {
                NodeState::Unvisited => true,
                _ => false,
            };
            if is_new {
                let mut stack: Vec<(usize, usize)> = Vec::new();
                proof {
                    s = self.lemma_search_root(s, i as int);
                }
                states[i] = NodeState::VisitingInProgress;
                stack.push((i, self.forward_edges.offsets[i]));
                while stack.len() > 0
                    invariant
                        i < n,
                        n == self.nodes.len(),
                        self.wf(),
                        self.searching(s),
                        s.states == states@,
                        s.predecessors == predecessors@,
                        s.stack == stack@,
                        forall|v: int| 0 <= v < i ==> #[trigger] states[v] is Visited,
                        stack.len() > 0 ==> stack[0].0 == i,
                        stack.len() == 0 ==> states[i as int] is Visited,
                    decreases
                            n - marked_count(s.marks),
                            unvisited_count(states@),
                            (if stack.len() > 0 {
                                self.forward_edges.offsets[stack[stack.len() - 1].0 + 1] - stack[stack.len()
                                    - 1].1
                            } else {
                                0
                            }),
                {
                    let top = stack.len() - 1;
                    let u = stack[top].0;
                    let cursor = stack[top].1;
                    proof {
                        assert(self.entry_ok(s, top as int));
                        lemma_marked_bound(s.marks);
                    }
                    let ghost before = s;
                    if cursor < self.forward_edges.offsets[u + 1] {
                        proof {
                            self.lemma_row_arc(u as int, cursor as int);
                        }
                        let v = self.forward_edges.targets[cursor];
                        match states[v] {
                            NodeState::VisitingInProgress => {
                                let path = self.trace_cycle(&predecessors, u, v, Ghost(s));
                                return Some(path);
                            },
                            NodeState::Unvisited => {
                                proof {
                                    s = self.lemma_search_push(s);
                                    lemma_unvisited_shrinks(before.states, s.states, v as int);
                                }
                                predecessors[v] = Some(u);
                                states[v] = NodeState::VisitingInProgress;
                                stack[top] = (u, cursor + 1);
                                stack.push((v, self.forward_edges.offsets[v]));
                            },
                            NodeState::Visited => {
                                proof {
                                    s = self.lemma_search_skip(s);
                                }
                                stack[top] = (u, cursor + 1);
                            },
                        }
                    } else {
                        proof {
                            s = self.lemma_search_pop(s);
                            lemma_marked_set(before.marks, u as int);
                            lemma_marked_bound(s.marks);
                        }
                        states[u] = NodeState::Visited;
                        stack.pop();
                    }
                    proof {
                        assert(s.stack =~= stack@);
                        assert(s.states =~= states@);
                        assert(s.predecessors =~= predecessors@);
                    }
                }
            }
            i = i + 1;
        }
        proof {
            self.lemma_search_done(s);
        }
        None
    }
}

} // verus!
