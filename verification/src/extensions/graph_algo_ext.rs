use crate::extensions::frontier::{gather_rows, holds, row_of};
use crate::paths::{
    is_topological_order, joins, lemma_marked_bound, lemma_ordered_is_acyclic, reachable,
    shortest_count,
};
use crate::traits::graph_algo::GraphAlgorithms;
use crate::types::graph_csm::breadth_first::Frontier;
use crate::types::graph_csm::graph_csm_dfs_utils::reversed;
use crate::types::graph_csm::CsmGraph;
use vstd::prelude::*;

verus! {

/// The algorithms of `GraphAlgorithms` in level-synchronous form: each level
/// of a traversal is expanded in one bulk step on a pool of worker threads.
pub trait ParallelGraphAlgorithmsExt<N, W>: GraphAlgorithms<N, W> where N: Send + Sync, W: Send + Sync {
    /// An order of all nodes in which every edge leads forward, if the graph
    /// has no closed loop: the nodes level by level, each level ascending.
    fn topological_sort_par(&self) -> (order: Option<Vec<usize>>)
        requires
            self.valid(),
        ensures
            order matches Some(list) ==> is_topological_order(self.arcs(), list@),
            order is None ==> !crate::paths::acyclic(self.arcs()),
    ;

    /// Whether `stop_index` can be reached from `start_index`.
    fn is_reachable_par(&self, start_index: usize, stop_index: usize) -> (reached: bool)
        requires
            self.valid(),
        ensures
            reached == reachable(self.arcs(), start_index as int, stop_index as int),
    ;

    /// The number of nodes on a shortest path from `start_index` to `stop_index`.
    fn shortest_path_len_par(&self, start_index: usize, stop_index: usize) -> (length: Option<usize>)
        requires
            self.valid(),
        ensures
            length matches Some(count) ==> shortest_count(
                self.arcs(),
                start_index as int,
                stop_index as int,
                count as int,
            ),
            length is None ==> !reachable(self.arcs(), start_index as int, stop_index as int),
    ;

    /// A shortest path from `start_index` to `stop_index`, both included.
    fn shortest_path_par(&self, start_index: usize, stop_index: usize) -> (path: Option<Vec<usize>>)
        requires
            self.valid(),
        ensures
            path matches Some(nodes) ==> joins(
                self.arcs(),
                nodes@,
                start_index as int,
                stop_index as int,
            ) && shortest_count(self.arcs(), start_index as int, stop_index as int, nodes.len() as int),
            path is None ==> !reachable(self.arcs(), start_index as int, stop_index as int),
    ;
}

/// Every node of `walk` but the first records the node before it, and the
/// first records none.
pub open spec fn follows(predecessors: Seq<Option<usize>>, walk: Seq<usize>) -> bool {
    &&& walk.len() >= 1
    &&& forall|i: int| 0 <= i < walk.len() ==> #[trigger] walk[i] < predecessors.len()
    &&& predecessors[walk[0] as int] is None
    &&& forall|i: int|
        1 <= i < walk.len() ==> predecessors[#[trigger] walk[i] as int] == Some(walk[i - 1])
}

/// Follows the recorded predecessors back from `stop` and returns the nodes
/// passed, first to last.
pub fn follow_back(predecessors: &Vec<Option<usize>>, stop: usize, Ghost(walk): Ghost<Seq<usize>>) -> (path:
    Vec<usize>)
    requires
        follows(predecessors@, walk),
        walk.last() == stop,
    ensures
        path@ == walk,
{
    let mut back: Vec<usize> = Vec::new();
    let mut current: Option<usize> = Some(stop);
    while current.is_some()
        invariant
            follows(predecessors@, walk),
            back.len() <= walk.len(),
            forall|j: int| 0 <= j < back.len() ==> #[trigger] back[j] == walk[walk.len() - 1 - j],
            current == if back.len() < walk.len() {
                Some(walk[walk.len() - 1 - back.len()])
            } else {
                None
            },
        decreases walk.len() - back.len(),
    {
        let node = current.unwrap();
        back.push(node);
        current = predecessors[node];
    }
    let path = reversed(&back);
    proof {
        assert(path@ =~= walk);
    }
    path
}

impl<N, W> CsmGraph<N, W> {
    /// Breadth-first search from `start` for `stop`, two distinct nodes, level
    /// by level: the rows of the nodes of a level are fetched in one parallel
    /// step, then each undiscovered node among them is claimed for the node
    /// that lists it first. Stops after the level in which `stop` is claimed.
    /// Returns the number of nodes on a shortest path and the predecessors
    /// recorded; the path they record comes with them for the proof.
    pub fn search_by_levels(&self, start: usize, stop: usize) -> (found: Option<
        (usize, Vec<Option<usize>>, Ghost<Seq<usize>>),
    >)
        requires
            self.wf(),
            start < self.nodes.len(),
            stop < self.nodes.len(),
            start != stop,
        ensures
            found matches Some(hit) ==> {
                &&& shortest_count(self.adjacency(), start as int, stop as int, hit.0 as int)
                &&& joins(self.adjacency(), hit.2@, start as int, stop as int)
                &&& hit.2@.len() == hit.0
                &&& follows(hit.1@, hit.2@)
            },
            found is None ==> !reachable(self.adjacency(), start as int, stop as int),
    {
        let n = self.nodes.len();
        let ghost targets = self.forward_edges.targets@;
        let mut visited: Vec<bool> = Vec::with_capacity(n);
        let mut predecessors: Vec<Option<usize>> = Vec::with_capacity(n);
        let mut k: usize = 0;
        while k < n
            invariant
                k <= n,
                visited.len() == k,
                predecessors.len() == k,
                forall|v: int| 0 <= v < k ==> !#[trigger] visited[v],
                forall|v: int| 0 <= v < k ==> #[trigger] predecessors[v] is None,
            decreases n - k,
        {
            visited.push(false);
            predecessors.push(None);
            k = k + 1;
        }
        visited[start] = true;
        let mut frontier: Vec<usize> = Vec::new();
        frontier.push(start);
        let mut distance: usize = 1;
        let ghost mut f = self.lemma_explore_start(start as int, visited@, predecessors@);
        while frontier.len() > 0
            invariant
                n == self.nodes.len(),
                self.wf(),
                targets == self.forward_edges.targets@,
                start < n,
                stop < n,
                self.exploring(f, start as int),
                f.visited == visited@,
                f.predecessors == predecessors@,
                f.head + frontier.len() == f.order.len(),
                forall|k: int| 0 <= k < frontier.len() ==> #[trigger] frontier[k] == f.order[f.head + k],
                forall|m: int| f.head <= m < f.order.len() ==> #[trigger] f.levels[m] == distance,
                !visited[stop as int],
            decreases n - f.head,
        {
            proof {
                lemma_marked_bound(f.visited);
                assert forall|i: int| 0 <= i < frontier.len() implies #[trigger] frontier[i] + 1
                    < self.forward_edges.offsets.len() by {
                    assert(frontier[i] == f.order[f.head + i]);
                }
            }
            let rows = gather_rows(&self.forward_edges.offsets, &self.forward_edges.targets, &frontier);
            let mut next: Vec<usize> = Vec::new();
            let ghost base = f.head;
            let mut i: usize = 0;
            while i < frontier.len()
                invariant
                    n == self.nodes.len(),
                    self.wf(),
                    targets == self.forward_edges.targets@,
                    start < n,
                    stop < n,
                    i <= frontier.len(),
                    frontier.len() > 0,
                    rows.len() == frontier.len(),
                    forall|k: int|
                        0 <= k < frontier.len() ==> (#[trigger] rows[k])@ == row_of(
                            self.forward_edges.offsets@,
                            targets,
                            frontier[k] as int,
                        ),
                    self.exploring(f, start as int),
                    f.visited == visited@,
                    f.predecessors == predecessors@,
                    0 <= base,
                    f.head == base + i,
                    f.order.len() == base + frontier.len() + next.len(),
                    forall|k: int| 0 <= k < frontier.len() ==> #[trigger] frontier[k] == f.order[base + k],
                    forall|m: int| base <= m < base + frontier.len() ==> #[trigger] f.levels[m] == distance,
                    forall|k: int|
                        0 <= k < next.len() ==> #[trigger] next[k] == f.order[base + frontier.len() + k],
                    forall|m: int|
                        base + frontier.len() <= m < f.order.len() ==> #[trigger] f.levels[m] == distance
                            + 1,
                    next.len() > 0 ==> distance < n,
                    visited[stop as int] ==> next@.contains(stop) && shortest_count(
                        self.adjacency(),
                        start as int,
                        stop as int,
                        distance + 1,
                    ),
                decreases frontier.len() - i,
            {
                let u = frontier[i];
                let row = &rows[i];
                let ghost row_start = self.forward_edges.offsets[u as int] as int;
                proof {
                    assert(frontier[i as int] == f.order[base + i]);
                    assert(u < n);
                    assert(self.forward_edges.offsets[u as int] <= self.forward_edges.offsets[u + 1]);
                }
                let mut c: usize = 0;
                while c < row.len()
                    invariant
                        n == self.nodes.len(),
                        self.wf(),
                        targets == self.forward_edges.targets@,
                        start < n,
                        stop < n,
                        i < frontier.len(),
                        u == frontier[i as int],
                        u < n,
                        row_start == self.forward_edges.offsets[u as int],
                        row@ == row_of(self.forward_edges.offsets@, targets, u as int),
                        row.len() == self.forward_edges.offsets[u + 1] - row_start,
                        c <= row.len(),
                        self.exploring(f, start as int),
                        f.visited == visited@,
                        f.predecessors == predecessors@,
                        0 <= base,
                    f.head == base + i,
                        f.order.len() == base + frontier.len() + next.len(),
                        forall|k: int|
                            0 <= k < frontier.len() ==> #[trigger] frontier[k] == f.order[base + k],
                        forall|m: int|
                            base <= m < base + frontier.len() ==> #[trigger] f.levels[m] == distance,
                        forall|k: int|
                            0 <= k < next.len() ==> #[trigger] next[k] == f.order[base + frontier.len()
                                + k],
                        forall|m: int|
                            base + frontier.len() <= m < f.order.len() ==> #[trigger] f.levels[m]
                                == distance + 1,
                        next.len() > 0 ==> distance < n,
                        visited[stop as int] ==> next@.contains(stop) && shortest_count(
                            self.adjacency(),
                            start as int,
                            stop as int,
                            distance + 1,
                        ),
                        forall|p: int|
                            row_start <= p < row_start + c ==> visited[#[trigger] targets[p] as int],
                    decreases row.len() - c,
                {
                    let v = row[c];
                    proof {
                        assert(self.forward_edges.in_row(u as int, row_start + c));
                        assert(v == targets[row_start + c]);
                        self.lemma_row_arc(u as int, row_start + c);
                        assert(f.order[f.head] == u);
                    }
                    if !visited[v] {
                        let ghost before = f;
                        let ghost next_before = next@;
                        proof {
                            if v == stop {
                                self.lemma_explore_reached(f, start as int, stop as int);
                            }
                            f = self.lemma_explore_discover(f, start as int, v as int);
                        }
                        visited[v] = true;
                        predecessors[v] = Some(u);
                        next.push(v);
                        proof {
                            assert(before.levels.len() == before.order.len());
                            assert(before.levels[before.head] == distance);
                            assert forall|k: int| 0 <= k < next.len() implies #[trigger] next[k] == f.order[base
                                + frontier.len() + k] by {
                                if k < next_before.len() {
                                    assert(next_before[k] == before.order[base + frontier.len() + k]);
                                }
                            }
                            assert forall|m: int|
                                base + frontier.len() <= m < f.order.len() implies #[trigger] f.levels[m]
                                == distance + 1 by {
                                if m < before.order.len() {
                                    assert(before.levels[m] == distance + 1);
                                }
                            }
                            assert forall|m: int| base <= m < base + frontier.len() implies #[trigger] f.levels[m]
                                == distance by {
                                assert(before.levels[m] == distance);
                            }
                            assert forall|k: int| 0 <= k < frontier.len() implies #[trigger] frontier[k]
                                == f.order[base + k] by {
                                assert(frontier[k] == before.order[base + k]);
                            }
                            if visited[stop as int] {
                                if v == stop {
                                    assert(next[next.len() - 1] == stop);
                                } else {
                                    let at = choose|at: int|
                                        0 <= at < next_before.len() && next_before[at] == stop;
                                    assert(next[at] == stop);
                                }
                            }
                        }
                    }
                    c = c + 1;
                }
                proof {
                    assert forall|p: int| #[trigger]
                        self.forward_edges.in_row(f.order[f.head] as int, p) implies f.visited[self.forward_edges.targets[p] as int] by {}
                    f = self.lemma_explore_advance(f, start as int);
                }
                i = i + 1;
            }
            if holds(&next, stop) {
                let ghost at = f.placed[stop as int];
                proof {
                    self.lemma_trail(f, start as int, at);
                    let k = choose|k: int| 0 <= k < next.len() && next[k] == stop;
                    assert(next[k] == f.order[base + frontier.len() + k]);
                    assert(f.placed[f.order[base + frontier.len() + k] as int] == base + frontier.len()
                        + k);
                    assert(f.levels[base + frontier.len() + k] == distance + 1);
                }
                return Some((distance + 1, predecessors, Ghost(self.trail(f, at))));
            }
            if next.len() == 0 {
                proof {
                    self.lemma_explore_exhausted(f, start as int, stop as int);
                }
                return None;
            }
            proof {
                assert forall|k: int| 0 <= k < next.len() implies #[trigger] next[k] == f.order[f.head + k] by {
                    assert(next[k] == f.order[base + frontier.len() + k]);
                }
            }
            frontier = next;
            distance = distance + 1;
        }
        proof {
            self.lemma_explore_exhausted(f, start as int, stop as int);
        }
        None
    }
}

impl<N, W> ParallelGraphAlgorithmsExt<N, W> for CsmGraph<N, W> where
    N: Send + Sync,
    W: Send + Sync + Default,
 {
    fn topological_sort_par(&self) -> (order: Option<Vec<usize>>)
        ensures
            order matches Some(list) ==> crate::paths::is_level_order(self.adjacency(), list@),
    {
        let order = self.kahn_by_levels();
        if order.len() == self.nodes.len() {
            Some(order)
        } else {
            None
        }
    }

    fn is_reachable_par(&self, start_index: usize, stop_index: usize) -> (reached: bool) {
        self.shortest_path_len_par(start_index, stop_index).is_some()
    }

    fn shortest_path_len_par(&self, start_index: usize, stop_index: usize) -> (length: Option<usize>) {
        if start_index >= self.nodes.len() || stop_index >= self.nodes.len() {
            proof {
                self.lemma_absent_unreachable(start_index as int, stop_index as int);
            }
            return None;
        }
        if start_index == stop_index {
            proof {
                self.lemma_self_reachable(start_index as int);
            }
            return Some(1);
        }
        match self.search_by_levels(start_index, stop_index) {
            Some(hit) => Some(hit.0),
            None => None,
        }
    }

    /// The path that the level-by-level search records: among the shortest
    /// paths, the one whose nodes were each claimed first.
    fn shortest_path_par(&self, start_index: usize, stop_index: usize) -> (path: Option<Vec<usize>>) {
        if start_index >= self.nodes.len() || stop_index >= self.nodes.len() {
            proof {
                self.lemma_absent_unreachable(start_index as int, stop_index as int);
            }
            return None;
        }
        if start_index == stop_index {
            proof {
                self.lemma_self_reachable(start_index as int);
            }
            let mut alone: Vec<usize> = Vec::new();
            alone.push(start_index);
            proof {
                assert(alone@ =~= seq![start_index]);
            }
            return Some(alone);
        }
        match self.search_by_levels(start_index, stop_index) {
            Some(hit) => {
                let path = follow_back(&hit.1, stop_index, Ghost(hit.2@));
                Some(path)
            },
            None => None,
        }
    }
}

/// The sequential and the level-synchronous search agree on the length of a
/// shortest path: whatever the one returns, the other returns too.
pub proof fn lemma_lengths_agree(
    arcs: Seq<Seq<usize>>,
    start: int,
    stop: int,
    sequential: Option<usize>,
    parallel: Option<usize>,
)
    requires
        sequential matches Some(count) ==> shortest_count(arcs, start, stop, count as int),
        sequential is None ==> !reachable(arcs, start, stop),
        parallel matches Some(count) ==> shortest_count(arcs, start, stop, count as int),
        parallel is None ==> !reachable(arcs, start, stop),
    ensures
        sequential == parallel,
{
    if sequential is Some {
        let a = sequential->0 as int;
        let walk = choose|walk: Seq<usize>| joins(arcs, walk, start, stop) && walk.len() == a;
        assert(reachable(arcs, start, stop));
        let b = parallel->0 as int;
        let other = choose|other: Seq<usize>| joins(arcs, other, start, stop) && other.len() == b;
        assert(walk.len() >= b);
        assert(other.len() >= a);
    } else if parallel is Some {
        let b = parallel->0 as int;
        let other = choose|other: Seq<usize>| joins(arcs, other, start, stop) && other.len() == b;
        assert(reachable(arcs, start, stop));
    }
}

/// The sequential and the level-synchronous topological sort agree on whether
/// an order exists, and what either returns is a topological order. The two
/// orders themselves may differ: the one lists nodes as they are released, the
/// other level by level, each level ascending.
pub proof fn lemma_orders_agree(
    arcs: Seq<Seq<usize>>,
    sequential: Option<Vec<usize>>,
    parallel: Option<Vec<usize>>,
)
    requires
        sequential matches Some(list) ==> is_topological_order(arcs, list@),
        sequential is None ==> !crate::paths::acyclic(arcs),
        parallel matches Some(list) ==> is_topological_order(arcs, list@),
        parallel is None ==> !crate::paths::acyclic(arcs),
    ensures
        (sequential is Some) == (parallel is Some),
{
    if sequential is Some {
        lemma_ordered_is_acyclic(arcs, sequential->0@);
    }
    if parallel is Some {
        lemma_ordered_is_acyclic(arcs, parallel->0@);
    }
}

} // verus!
