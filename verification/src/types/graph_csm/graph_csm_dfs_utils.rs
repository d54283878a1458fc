use crate::paths::{has_arc, is_walk, lemma_reverse_walk, step_ok};
use crate::types::graph_csm::CsmGraph;
use vstd::prelude::*;

verus! {

/// Where a depth-first traversal stands with a node.
#[derive(Clone, Copy, PartialEq, Eq, Debug, Structural)]
pub enum NodeState {
    /// Not reached yet.
    Unvisited,
    /// Reached, and its successors are still being explored.
    VisitingInProgress,
    /// Reached, with all its successors explored.
    Visited,
}

/// How many nodes are still unvisited.
pub open spec fn unvisited_count(states: Seq<NodeState>) -> nat
    decreases states.len(),
{
    if states.len() == 0 {
        0
    } else {
        unvisited_count(states.drop_last()) + if states.last() is Unvisited {
            1nat
        } else {
            0nat
        }
    }
}

/// Nodes that leave the unvisited state, and none that enters it, lower the
/// count; strictly so if `u` is one of them.
pub proof fn lemma_unvisited_shrinks(before: Seq<NodeState>, after: Seq<NodeState>, u: int)
    requires
        before.len() == after.len(),
        forall|k: int| 0 <= k < before.len() && !(before[k] is Unvisited) ==> !(after[k] is Unvisited),
    ensures
        unvisited_count(after) <= unvisited_count(before),
        0 <= u < before.len() && before[u] is Unvisited && !(after[u] is Unvisited) ==> unvisited_count(
            after,
        ) < unvisited_count(before),
    decreases before.len(),
{
    if before.len() > 0 {
        lemma_unvisited_shrinks(before.drop_last(), after.drop_last(), u);
    }
}

impl<N, W> CsmGraph<N, W> {
    /// Every successor of `x` is fully explored.
    pub open spec fn explored(&self, states: Seq<NodeState>, x: int) -> bool {
        forall|q: int| #[trigger]
            self.forward_edges.in_row(x, q) ==> states[self.forward_edges.targets[q] as int] is Visited
    }

    /// Every successor of `x` is fully explored, but for those that were in
    /// progress in `entry`.
    pub open spec fn explored_past(&self, states: Seq<NodeState>, entry: Seq<NodeState>, x: int) -> bool {
        forall|q: int| #[trigger]
            self.forward_edges.in_row(x, q) ==> states[self.forward_edges.targets[q] as int] is Visited
                || entry[self.forward_edges.targets[q] as int] is VisitingInProgress
    }

    /// Every node in progress that records a predecessor records a node in
    /// progress that has an edge to it.
    pub open spec fn chained(&self, states: Seq<NodeState>, predecessors: Seq<Option<usize>>) -> bool {
        forall|x: int|
            0 <= x < states.len() && #[trigger] states[x] is VisitingInProgress ==> (
            predecessors[x] matches Some(y) ==> self.links_in_progress(states, y as int, x))
    }

    /// `y` is in progress and has an edge to `x`.
    pub open spec fn links_in_progress(&self, states: Seq<NodeState>, y: int, x: int) -> bool {
        &&& 0 <= y < states.len()
        &&& states[y] is VisitingInProgress
        &&& has_arc(self.adjacency(), y, x)
    }

    /// An edge stored at position `q` of row `u` is an edge of the graph.
    pub proof fn lemma_row_arc(&self, u: int, q: int)
        requires
            self.wf(),
            0 <= u < self.nodes.len(),
            self.forward_edges.in_row(u, q),
        ensures
            has_arc(self.adjacency(), u, self.forward_edges.targets[q] as int),
            self.forward_edges.targets[q] < self.nodes.len(),
            0 <= q < self.forward_edges.targets.len(),
    {
        let n = self.nodes.len() as int;
        assert(self.forward_edges.offsets[u + 1] <= self.forward_edges.offsets[n]);
        let row = self.adjacency()[u];
        assert(row[q - self.forward_edges.offsets[u]] == self.forward_edges.targets[q]);
    }

    /// Every edge of the graph is stored at some position of its source's row.
    pub proof fn lemma_arc_row(&self, u: int, v: int) -> (q: int)
        requires
            self.wf(),
            has_arc(self.adjacency(), u, v),
        ensures
            self.forward_edges.in_row(u, q),
            self.forward_edges.targets[q] == v,
    {
        let row = self.adjacency()[u];
        let k = choose|k: int| 0 <= k < row.len() && #[trigger] row[k] == v;
        self.forward_edges.offsets[u] + k
    }

    /// Explores what can be reached from `u` through unvisited nodes, depth
    /// first, and appends each node to `sorted_list` once all its successors
    /// are explored. Stops with `Err` as soon as an edge leads to a node that
    /// is in progress.
    pub fn dfs_visit_for_sort(
        &self,
        u: usize,
        states: &mut Vec<NodeState>,
        sorted_list: &mut Vec<usize>,
    ) -> (done: Result<(), ()>)
        requires
            self.wf(),
            u < self.nodes.len(),
            old(states).len() == self.nodes.len(),
            old(states)[u as int] is Unvisited,
        ensures
            final(states).len() == old(states).len(),
            forall|k: int|
                0 <= k < old(states).len() && !(old(states)[k] is Unvisited) ==> #[trigger] final(states)[k] == old(states)[k],
            final(sorted_list).len() >= old(sorted_list).len(),
            forall|i: int|
                0 <= i < old(sorted_list).len() ==> #[trigger] final(sorted_list)[i] == old(sorted_list)[i],
            forall|i: int|
                old(sorted_list).len() <= i < final(sorted_list).len() ==> {
                    let x = #[trigger] final(sorted_list)[i];
                    &&& x < self.nodes.len()
                    &&& old(states)[x as int] is Unvisited
                    &&& final(states)[x as int] is Visited
                    &&& self.explored(final(states)@, x as int)
                },
            done is Ok ==> {
                &&& final(states)[u as int] is Visited
                &&& final(sorted_list).len() > old(sorted_list).len()
                &&& final(sorted_list)[final(sorted_list).len() - 1] == u
                &&& forall|k: int|
                    0 <= k < old(states).len() && old(states)[k] is Unvisited ==> !(#[trigger] final(states)[k] is VisitingInProgress)
            },
            done is Err ==> exists|x: int, y: int|
                0 <= x < final(states).len() && 0 <= y < final(states).len() && #[trigger] has_arc(
                    self.adjacency(),
                    x,
                    y,
                ) && final(states)[x] is VisitingInProgress && final(states)[y] is VisitingInProgress,
        decreases unvisited_count(old(states)@),
    {
        states[u] = NodeState::VisitingInProgress;
        proof {
            lemma_unvisited_shrinks(old(states)@, states@, u as int);
        }
        let start = self.forward_edges.offsets[u];
        let end = self.forward_edges.offsets[u + 1];
        let mut p = start;
        while p < end
            invariant
                self.wf(),
                u < self.nodes.len(),
                start == self.forward_edges.offsets[u as int],
                end == self.forward_edges.offsets[u + 1],
                start <= p <= end,
                states.len() == old(states).len(),
                states.len() == self.nodes.len(),
                old(states)[u as int] is Unvisited,
                states[u as int] is VisitingInProgress,
                unvisited_count(states@) < unvisited_count(old(states)@),
                forall|k: int|
                    0 <= k < old(states).len() && !(old(states)[k] is Unvisited) ==> #[trigger] states[k]
                        == old(states)[k],
                forall|k: int|
                    0 <= k < old(states).len() && old(states)[k] is Unvisited && k != u ==> !(
                    #[trigger] states[k] is VisitingInProgress),
                sorted_list.len() >= old(sorted_list).len(),
                forall|i: int|
                    0 <= i < old(sorted_list).len() ==> #[trigger] sorted_list[i] == old(sorted_list)[i],
                forall|i: int|
                    old(sorted_list).len() <= i < sorted_list.len() ==> {
                        let x = #[trigger] sorted_list[i];
                        &&& x < self.nodes.len()
                        &&& x != u
                        &&& old(states)[x as int] is Unvisited
                        &&& states[x as int] is Visited
                        &&& self.explored(states@, x as int)
                    },
                forall|q: int|
                    start <= q < p ==> states[#[trigger] self.forward_edges.targets[q] as int] is Visited,
            decreases end - p,
        {
            proof {
                self.lemma_row_arc(u as int, p as int);
            }
            let v = self.forward_edges.targets[p];
            match states[v] {
                NodeState::VisitingInProgress => {
                    return Err(());
                },
                NodeState::Unvisited => {
                    let ghost before = states@;
                    let ghost listed = sorted_list@;
                    let inner = self.dfs_visit_for_sort(v, states, sorted_list);
                    proof {
                        lemma_unvisited_shrinks(before, states@, v as int);
                        assert forall|i: int| old(sorted_list).len() <= i < sorted_list.len() implies {
                            let x = #[trigger] sorted_list[i];
                            &&& x < self.nodes.len()
                            &&& x != u
                            &&& old(states)[x as int] is Unvisited
                            &&& states[x as int] is Visited
                            &&& self.explored(states@, x as int)
                        } by {
                            let x = sorted_list[i];
                            if i < listed.len() {
                                assert(listed[i] == x);
                                assert(self.explored(before, x as int));
                                assert forall|q: int| #[trigger]
                                    self.forward_edges.in_row(x as int, q) implies states[self.forward_edges.targets[q] as int] is Visited by {
                                    self.lemma_row_arc(x as int, q);
                                    assert(before[self.forward_edges.targets[q] as int] is Visited);
                                }
                            }
                        }
                    }
                    if inner.is_err() {
                        return Err(());
                    }
                },
                NodeState::Visited => {},
            }
            p = p + 1;
        }
        states[u] = NodeState::Visited;
        sorted_list.push(u);
        proof {
            assert forall|i: int| old(sorted_list).len() <= i < sorted_list.len() implies {
                let x = #[trigger] sorted_list[i];
                &&& x < self.nodes.len()
                &&& old(states)[x as int] is Unvisited
                &&& states[x as int] is Visited
                &&& self.explored(states@, x as int)
            } by {
                let x = sorted_list[i];
                assert forall|q: int| #[trigger]
                    self.forward_edges.in_row(x as int, q) implies states[self.forward_edges.targets[q] as int] is Visited by {
                    self.lemma_row_arc(x as int, q);
                    if x != u {
                        assert(sorted_list[i] != u);
                    }
                }
            }
        }
        Ok(())
    }
}

/// The entries of `list`, last first.
pub fn reversed(list: &Vec<usize>) -> (out: Vec<usize>)
    ensures
        out@ == list@.reverse(),
{
    let mut out: Vec<usize> = Vec::with_capacity(list.len());
    let mut i = list.len();
    while i > 0
        invariant
            i <= list.len(),
            out.len() == list.len() - i,
            forall|k: int| 0 <= k < out.len() ==> #[trigger] out[k] == list[list.len() - 1 - k],
        decreases i,
    {
        i = i - 1;
        out.push(list[i]);
    }
    proof {
        assert(out@ =~= list@.reverse());
    }
    out
}

impl<N, W> CsmGraph<N, W> {
    /// Explores what can be reached from `u` through unvisited nodes, depth
    /// first, recording for each node reached the node it was reached from.
    /// When an edge leads from the node being explored to a node in progress,
    /// the recorded predecessors are followed back from the one to the other
    /// and the nodes passed are returned, from the node in progress to the
    /// node being explored: a loop that the edge between them closes. A
    /// self-loop on `n` is returned as `[n, n]`. When nothing is returned,
    /// every node reached is visited, and so are all its successors but those
    /// that were in progress before the call.
    pub fn dfs_visit_for_cycle(
        &self,
        u: usize,
        states: &mut Vec<NodeState>,
        predecessors: &mut Vec<Option<usize>>,
    ) -> (found: Option<Vec<usize>>)
        requires
            self.wf(),
            u < self.nodes.len(),
            old(states).len() == self.nodes.len(),
            old(predecessors).len() == self.nodes.len(),
            old(states)[u as int] is Unvisited,
            self.chained(old(states)@, old(predecessors)@),
            old(predecessors)[u as int] matches Some(y) ==> self.links_in_progress(
                old(states)@,
                y as int,
                u as int,
            ),
        ensures
            final(states).len() == old(states).len(),
            final(predecessors).len() == old(predecessors).len(),
            forall|k: int|
                0 <= k < old(states).len() && !(old(states)[k] is Unvisited) ==> #[trigger] final(states)[k]
                    == old(states)[k],
            forall|k: int|
                0 <= k < old(states).len() && !(old(states)[k] is Unvisited) ==> #[trigger] final(predecessors)[k] == old(predecessors)[k],
            found matches Some(cycle) ==> is_walk(self.adjacency(), cycle@) && has_arc(
                self.adjacency(),
                cycle@.last() as int,
                cycle@.first() as int,
            ),
            found is None ==> {
                &&& final(states)[u as int] is Visited
                &&& forall|k: int|
                    0 <= k < old(states).len() && old(states)[k] is Unvisited ==> !(#[trigger] final(states)[k] is VisitingInProgress)
                &&& self.chained(final(states)@, final(predecessors)@)
                &&& forall|k: int|
                    0 <= k < old(states).len() && old(states)[k] is Unvisited && #[trigger] final(states)[k] is Visited ==> self.explored_past(final(states)@, old(states)@, k)
            },
        decreases unvisited_count(old(states)@),
    {
        let n = self.nodes.len();
        states[u] = NodeState::VisitingInProgress;
        let ghost marked = states@;
        proof {
            lemma_unvisited_shrinks(old(states)@, states@, u as int);
        }
        let start = self.forward_edges.offsets[u];
        let end = self.forward_edges.offsets[u + 1];
        let mut p = start;
        while p < end
            invariant
                self.wf(),
                n == self.nodes.len(),
                u < n,
                start == self.forward_edges.offsets[u as int],
                end == self.forward_edges.offsets[u + 1],
                start <= p <= end,
                states.len() == n,
                predecessors.len() == n,
                old(states).len() == n,
                old(predecessors).len() == n,
                old(states)[u as int] is Unvisited,
                states[u as int] is VisitingInProgress,
                self.chained(old(states)@, old(predecessors)@),
                self.chained(states@, predecessors@),
                unvisited_count(states@) < unvisited_count(old(states)@),
                forall|k: int|
                    0 <= k < n && !(old(states)[k] is Unvisited) ==> #[trigger] states[k] == old(states)[k],
                forall|k: int|
                    0 <= k < n && !(old(states)[k] is Unvisited) ==> #[trigger] predecessors[k] == old(predecessors)[k],
                forall|k: int|
                    0 <= k < n && old(states)[k] is Unvisited && k != u ==> !(#[trigger] states[k] is VisitingInProgress),
                marked == old(states)@.update(u as int, NodeState::VisitingInProgress),
                forall|k: int|
                    0 <= k < n && old(states)[k] is Unvisited && #[trigger] states[k] is Visited
                        ==> self.explored_past(states@, marked, k),
                forall|q: int|
                    start <= q < p ==> states[#[trigger] self.forward_edges.targets[q] as int] is Visited
                        || marked[self.forward_edges.targets[q] as int] is VisitingInProgress,
            decreases end - p,
        {
            proof {
                self.lemma_row_arc(u as int, p as int);
            }
            let v = self.forward_edges.targets[p];
            match states[v] {
                NodeState::VisitingInProgress => {
                    if u == v {
                        let mut cycle: Vec<usize> = Vec::new();
                        cycle.push(u);
                        cycle.push(u);
                        proof {
                            assert(step_ok(self.adjacency(), cycle@, 0));
                        }
                        return Some(cycle);
                    }
                    let ghost entry_states = states@;
                    let ghost entry_predecessors = predecessors@;
                    let mut cycle: Vec<usize> = Vec::new();
                    cycle.push(u);
                    let mut current = u;
                    let mut steps: usize = 0;
                    let mut going = true;
                    while going && steps < n
                        invariant
                            self.wf(),
                            n == self.nodes.len(),
                            states.len() == n,
                            predecessors.len() == n,
                            self.chained(states@, predecessors@),
                            old(states).len() == n,
                            old(predecessors).len() == n,
                            forall|k: int|
                                0 <= k < n && !(old(states)[k] is Unvisited) ==> #[trigger] states[k]
                                    == old(states)[k],
                            forall|k: int|
                                0 <= k < n && !(old(states)[k] is Unvisited) ==> #[trigger] predecessors[k]
                                    == old(predecessors)[k],
                            states@ == entry_states,
                            predecessors@ == entry_predecessors,
                            v < n,
                            u < n,
                            has_arc(self.adjacency(), u as int, v as int),
                            steps <= n,
                            current < n,
                            states[current as int] is VisitingInProgress,
                            cycle.len() >= 1,
                            cycle[0] == u,
                            cycle[cycle.len() - 1] == current,
                            forall|i: int| 0 <= i < cycle.len() ==> #[trigger] cycle[i] < n,
                            forall|i: int|
                                0 <= i < cycle.len() - 1 ==> #[trigger] has_arc(
                                    self.adjacency(),
                                    cycle[i + 1] as int,
                                    cycle[i] as int,
                                ),
                        decreases
                                (if going {
                                    1int
                                } else {
                                    0int
                                }) + n - steps,
                    {
                        match predecessors[current] {
                            Some(pred) => {
                                proof {
                                    assert(self.links_in_progress(states@, pred as int, current as int));
                                }
                                let ghost before = cycle@;
                                if pred == v {
                                    cycle.push(v);
                                    proof {
                                        assert forall|i: int| 0 <= i < cycle.len() - 1 implies #[trigger] has_arc(
                                            self.adjacency(),
                                            cycle[i + 1] as int,
                                            cycle[i] as int,
                                        ) by {
                                            if i < before.len() - 1 {
                                                assert(has_arc(
                                                    self.adjacency(),
                                                    before[i + 1] as int,
                                                    before[i] as int,
                                                ));
                                            }
                                        }
                                        lemma_reverse_walk(self.adjacency(), cycle@);
                                    }
                                    let path = reversed(&cycle);
                                    return Some(path);
                                }
                                cycle.push(pred);
                                proof {
                                    assert forall|i: int| 0 <= i < cycle.len() - 1 implies #[trigger] has_arc(
                                        self.adjacency(),
                                        cycle[i + 1] as int,
                                        cycle[i] as int,
                                    ) by {
                                        if i < before.len() - 1 {
                                            assert(has_arc(
                                                self.adjacency(),
                                                before[i + 1] as int,
                                                before[i] as int,
                                            ));
                                        }
                                    }
                                }
                                current = pred;
                            },
                            None => {
                                going = false;
                            },
                        }
                        steps = steps + 1;
                    }
                },
                NodeState::Unvisited => {
                    let ghost before = states@;
                    let ghost before_preds = predecessors@;
                    predecessors[v] = Some(u);
                    proof {
                        assert(self.chained(states@, predecessors@)) by {
                            assert forall|x: int|
                                0 <= x < states.len() && #[trigger] states[x] is VisitingInProgress implies (
                            predecessors[x] matches Some(y) ==> self.links_in_progress(
                                states@,
                                y as int,
                                x,
                            )) by {
                                assert(before_preds[x] == predecessors[x]);
                            }
                        }
                    }
                    let ghost at_call = states@;
                    let ghost at_preds = predecessors@;
                    let inner = self.dfs_visit_for_cycle(v, states, predecessors);
                    proof {
                        lemma_unvisited_shrinks(at_call, states@, v as int);
                        assert forall|k: int|
                            0 <= k < n && !(old(states)[k] is Unvisited) implies #[trigger] states[k]
                            == old(states)[k] by {
                            assert(before[k] == old(states)[k]);
                            assert(at_call[k] == before[k]);
                        }
                        assert forall|k: int|
                            0 <= k < n && !(old(states)[k] is Unvisited) implies #[trigger] predecessors[k]
                            == old(predecessors)[k] by {
                            assert(before[k] == old(states)[k]);
                            assert(before_preds[k] == old(predecessors)[k]);
                            assert(at_call[k] == before[k]);
                            assert(k != v);
                            assert(at_preds[k] == before_preds[k]);
                        }
                    }
                    if inner.is_some() {
                        return inner;
                    }
                    proof {
                        assert forall|k: int|
                            0 <= k < n && old(states)[k] is Unvisited && k != u implies !(
                        #[trigger] states[k] is VisitingInProgress) by {
                            assert(!(before[k] is VisitingInProgress));
                            assert(at_call[k] == before[k]);
                        }
                        assert forall|k: int|
                            0 <= k < n && old(states)[k] is Unvisited && #[trigger] states[k] is Visited implies self.explored_past(
                            states@,
                            marked,
                            k,
                        ) by {
                            assert forall|q: int| #[trigger]
                                self.forward_edges.in_row(k, q) implies states[self.forward_edges.targets[q] as int] is Visited
                                || marked[self.forward_edges.targets[q] as int] is VisitingInProgress by {
                                self.lemma_row_arc(k, q);
                                let t = self.forward_edges.targets[q] as int;
                                assert(at_call[t] == before[t]);
                                if before[k] is Visited {
                                    assert(self.explored_past(before, marked, k));
                                    if before[t] is Visited {
                                        assert(states[t] == at_call[t]);
                                    }
                                } else {
                                    assert(at_call[k] is Unvisited);
                                    assert(self.explored_past(states@, at_call, k));
                                    if at_call[t] is VisitingInProgress {
                                        if t != u {
                                            assert(!(old(states)[t] is Unvisited));
                                            assert(before[t] == old(states)[t]);
                                        }
                                    }
                                }
                            }
                        }
                        assert forall|q: int| start <= q < p implies states[#[trigger] self.forward_edges.targets[q] as int] is Visited
                            || marked[self.forward_edges.targets[q] as int] is VisitingInProgress by {
                            let t = self.forward_edges.targets[q] as int;
                            self.lemma_row_arc(u as int, q);
                            assert(at_call[t] == before[t]);
                            if before[t] is Visited {
                                assert(states[t] == at_call[t]);
                            }
                        }
                    }
                },
                NodeState::Visited => {},
            }
            p = p + 1;
        }
        let ghost before = states@;
        states[u] = NodeState::Visited;
        proof {
            assert forall|x: int|
                0 <= x < states.len() && #[trigger] states[x] is VisitingInProgress implies (
            predecessors[x] matches Some(y) ==> self.links_in_progress(states@, y as int, x)) by {
                assert(before[x] is VisitingInProgress);
                assert(old(states)[x] is VisitingInProgress);
                if predecessors[x] is Some {
                    let y = predecessors[x]->0 as int;
                    assert(self.links_in_progress(old(states)@, y, x));
                    assert(y != u);
                    assert(states[y] == old(states)[y]);
                }
            }
            assert forall|k: int|
                0 <= k < n && old(states)[k] is Unvisited && #[trigger] states[k] is Visited implies self.explored_past(
                states@,
                old(states)@,
                k,
            ) by {
                assert forall|q: int| #[trigger]
                    self.forward_edges.in_row(k, q) implies states[self.forward_edges.targets[q] as int] is Visited
                    || old(states)[self.forward_edges.targets[q] as int] is VisitingInProgress by {
                    self.lemma_row_arc(k, q);
                    let t = self.forward_edges.targets[q] as int;
                    if k != u {
                        assert(before[k] is Visited);
                        assert(self.explored_past(before, marked, k));
                    } else {
                        assert(before[t] is Visited || marked[t] is VisitingInProgress);
                    }
                }
            }
        }
        None
    }
}

} // verus!
