use crate::paths::{
    has_arc, is_walk, joins, lemma_lex_chain, lemma_lex_push, lemma_lex_push_last,
    lemma_marked_bound, lemma_marked_none, lemma_marked_set, lemma_subwalk, lemma_walk_push,
    lex_at_most, lex_before, marked_count, reachable, shortest_count, step_ok,
};
use crate::types::graph_csm::graph_csm_dfs_utils::reversed;
use crate::types::graph_csm::CsmGraph;
use vstd::prelude::*;

verus! {

/// What a breadth-first search keeps beside the graph.
pub struct Frontier {
    /// The nodes discovered so far, in the order of discovery.
    pub order: Seq<usize>,
    /// For each discovered node, the number of nodes on the path by which it
    /// was reached.
    pub levels: Seq<usize>,
    /// For each discovered node but the first, where in `order` the node
    /// stands from which it was discovered.
    pub parent: Seq<int>,
    /// For each node of the graph, where it stands in `order`, if discovered.
    pub placed: Seq<int>,
    /// Which nodes are discovered.
    pub visited: Seq<bool>,
    /// For each discovered node but the first, the node it was discovered from.
    pub predecessors: Seq<Option<usize>>,
    /// How many of the discovered nodes have had all their edges followed.
    pub head: int,
}

impl<N, W> CsmGraph<N, W> {
    /// Entry `k` of the order was discovered from an earlier entry, one level
    /// below it.
    pub open spec fn grown_from(&self, f: Frontier, k: int) -> bool {
        &&& 0 <= f.parent[k] < k
        &&& f.parent[k] <= f.head
        &&& has_arc(self.adjacency(), f.order[f.parent[k]] as int, f.order[k] as int)
        &&& f.levels[k] == f.levels[f.parent[k]] + 1
        &&& f.predecessors[f.order[k] as int] == Some(f.order[f.parent[k]])
    }

    /// Every edge of entry `k` leads to a discovered node at most one level
    /// above it.
    pub open spec fn expanded(&self, f: Frontier, k: int) -> bool {
        forall|p: int| #[trigger]
            self.forward_edges.in_row(f.order[k] as int, p) ==> f.visited[self.forward_edges.targets[p] as int]
                && f.levels[f.placed[self.forward_edges.targets[p] as int]] <= f.levels[k] + 1
    }

    /// The invariant of a breadth-first search from `start`.
    pub open spec fn exploring(&self, f: Frontier, start: int) -> bool {
        let n = self.nodes.len() as int;
        &&& f.order.len() >= 1
        &&& f.order[0] == start
        &&& f.levels.len() == f.order.len()
        &&& f.parent.len() == f.order.len()
        &&& f.levels[0] == 1
        &&& f.predecessors[start] is None
        &&& f.visited.len() == n
        &&& f.predecessors.len() == n
        &&& f.placed.len() == n
        &&& 0 <= f.head <= f.order.len()
        &&& marked_count(f.visited) == f.order.len()
        &&& forall|k: int|
            0 <= k < f.order.len() ==> #[trigger] f.order[k] < n && f.visited[f.order[k] as int]
                && f.placed[f.order[k] as int] == k && f.levels[k] <= k + 1
        &&& forall|v: int|
            0 <= v < n && #[trigger] f.visited[v] ==> 0 <= f.placed[v] < f.order.len()
                && f.order[f.placed[v]] == v
        &&& forall|k: int| 1 <= k < f.order.len() ==> #[trigger] self.grown_from(f, k)
        &&& forall|a: int, b: int|
            0 <= a <= b < f.order.len() ==> #[trigger] f.levels[a] <= #[trigger] f.levels[b]
        &&& f.head < f.order.len() ==> f.levels[f.order.len() - 1] <= f.levels[f.head] + 1
        &&& forall|k: int| 0 <= k < f.head ==> #[trigger] self.expanded(f, k)
    }

    /// The path by which entry `k` of the order was reached.
    pub open spec fn trail(&self, f: Frontier, k: int) -> Seq<usize>
        decreases k,
    {
        if k > 0 && 0 <= f.parent[k] < k {
            self.trail(f, f.parent[k]).push(f.order[k])
        } else {
            seq![f.order[0]]
        }
    }

    /// The trail of entry `k` is a walk from the start to that entry, as long
    /// as its level says, and each node on it records the one before it.
    pub proof fn lemma_trail(&self, f: Frontier, start: int, k: int)
        requires
            self.wf(),
            self.exploring(f, start),
            0 <= k < f.order.len(),
        ensures
            joins(self.adjacency(), self.trail(f, k), start, f.order[k] as int),
            self.trail(f, k).len() == f.levels[k],
            forall|i: int|
                1 <= i < self.trail(f, k).len() ==> f.predecessors[#[trigger] self.trail(f, k)[i] as int]
                    == Some(self.trail(f, k)[i - 1]),
        decreases k,
    {
        let adj = self.adjacency();
        if k > 0 {
            assert(self.grown_from(f, k));
            self.lemma_trail(f, start, f.parent[k]);
            lemma_walk_push(adj, self.trail(f, f.parent[k]), f.order[k]);
        } else {
            assert(is_walk(adj, seq![f.order[0]]));
        }
    }

    /// No walk from the start is shorter than the level of the node it ends
    /// at; and a walk that ends at an undiscovered node is longer than the
    /// level of the entry at the head.
    pub proof fn lemma_level_bound(&self, f: Frontier, start: int, walk: Seq<usize>)
        requires
            self.wf(),
            self.exploring(f, start),
            is_walk(self.adjacency(), walk),
            walk.first() == start,
        ensures
            (f.visited[walk.last() as int] && f.levels[f.placed[walk.last() as int]] <= walk.len()) || (
            f.head < f.order.len() && walk.len() > f.levels[f.head]),
        decreases walk.len(),
    {
        let adj = self.adjacency();
        if walk.len() > 1 {
            let front = walk.drop_last();
            lemma_subwalk(adj, walk, 0, walk.len() - 1);
            self.lemma_level_bound(f, start, front);
            let y = front.last() as int;
            let x = walk.last() as int;
            assert(step_ok(adj, walk, walk.len() - 2));
            if f.visited[y] && f.levels[f.placed[y]] <= front.len() {
                let ky = f.placed[y];
                if ky < f.head {
                    assert(self.expanded(f, ky));
                    let p = self.lemma_arc_row(y, x);
                } else {
                    assert(f.levels[f.head] <= f.levels[ky]);
                }
            }
        }
    }

    /// The search starts with the start node alone, at level one.
    pub proof fn lemma_explore_start(&self, start: int, visited: Seq<bool>, predecessors: Seq<
        Option<usize>,
    >) -> (f: Frontier)
        requires
            self.wf(),
            0 <= start < self.nodes.len(),
            visited.len() == self.nodes.len(),
            predecessors.len() == self.nodes.len(),
            predecessors[start] is None,
            forall|v: int| 0 <= v < visited.len() ==> #[trigger] visited[v] == (v == start),
        ensures
            self.exploring(f, start),
            f.order == seq![start as usize],
            f.levels == seq![1usize],
            f.visited == visited,
            f.predecessors == predecessors,
            f.head == 0,
    {
        let n = self.nodes.len();
        let f = Frontier {
            order: seq![start as usize],
            levels: seq![1usize],
            parent: seq![0int],
            placed: Seq::new(n as nat, |v: int| 0int),
            visited,
            predecessors,
            head: 0,
        };
        let blank = Seq::new(n as nat, |v: int| false);
        lemma_marked_none(blank);
        lemma_marked_set(blank, start);
        assert(blank.update(start, true) =~= visited);
        f
    }

    /// Discovering the unvisited node `v` through an edge of the entry at the head.
    pub proof fn lemma_explore_discover(&self, f: Frontier, start: int, v: int) -> (after: Frontier)
        requires
            self.wf(),
            self.exploring(f, start),
            f.head < f.order.len(),
            has_arc(self.adjacency(), f.order[f.head] as int, v),
            !f.visited[v],
        ensures
            self.exploring(after, start),
            f.order.len() < self.nodes.len(),
            f.levels[f.head] < self.nodes.len(),
            after == (Frontier {
                order: f.order.push(v as usize),
                levels: f.levels.push((f.levels[f.head] + 1) as usize),
                parent: f.parent.push(f.head),
                placed: f.placed.update(v, f.order.len() as int),
                visited: f.visited.update(v, true),
                predecessors: f.predecessors.update(v, Some(f.order[f.head])),
                head: f.head,
            }),
    {
        let n = self.nodes.len() as int;
        lemma_marked_bound(f.visited);
        lemma_marked_set(f.visited, v);
        lemma_marked_bound(f.visited.update(v, true));
        let after = Frontier {
            order: f.order.push(v as usize),
            levels: f.levels.push((f.levels[f.head] + 1) as usize),
            parent: f.parent.push(f.head),
            placed: f.placed.update(v, f.order.len() as int),
            visited: f.visited.update(v, true),
            predecessors: f.predecessors.update(v, Some(f.order[f.head])),
            head: f.head,
        };
        let last = f.order.len() as int;
        assert(f.levels[f.head] <= f.head + 1);
        assert forall|k: int| 0 <= k < after.order.len() implies #[trigger] after.order[k] < n
            && after.visited[after.order[k] as int] && after.placed[after.order[k] as int] == k
            && after.levels[k] <= k + 1 by {
            if k < last {
                assert(f.order[k] < n && f.visited[f.order[k] as int]);
            }
        }
        assert forall|w: int| 0 <= w < n && #[trigger] after.visited[w] implies 0 <= after.placed[w]
            < after.order.len() && after.order[after.placed[w]] == w by {
            if w != v {
                assert(f.visited[w]);
            }
        }
        assert forall|k: int| 1 <= k < after.order.len() implies #[trigger] self.grown_from(after, k) by {
            if k < last {
                assert(self.grown_from(f, k));
                assert(f.visited[f.order[k] as int]);
                assert(f.order[k] != v);
            }
        }
        assert forall|a: int, b: int| 0 <= a <= b < after.order.len() implies #[trigger] after.levels[a]
            <= #[trigger] after.levels[b] by {
            if b < last {
                assert(f.levels[a] <= f.levels[b]);
            } else if a < last {
                assert(f.levels[a] <= f.levels[last - 1]);
            }
        }
        assert forall|k: int| 0 <= k < after.head implies #[trigger] self.expanded(after, k) by {
            assert(self.expanded(f, k));
            assert forall|p: int| #[trigger]
                self.forward_edges.in_row(after.order[k] as int, p) implies after.visited[self.forward_edges.targets[p] as int]
                && after.levels[after.placed[self.forward_edges.targets[p] as int]] <= after.levels[k]
                + 1 by {
                let w = self.forward_edges.targets[p] as int;
                self.lemma_row_arc(f.order[k] as int, p);
                assert(f.visited[w]);
                assert(w != v);
            }
        }
        after
    }

    /// Moving the head on once every edge of its entry leads to a discovered node.
    pub proof fn lemma_explore_advance(&self, f: Frontier, start: int) -> (after: Frontier)
        requires
            self.wf(),
            self.exploring(f, start),
            f.head < f.order.len(),
            forall|p: int| #[trigger]
                self.forward_edges.in_row(f.order[f.head] as int, p) ==> f.visited[self.forward_edges.targets[p] as int],
        ensures
            self.exploring(after, start),
            after == (Frontier { head: f.head + 1, ..f }),
    {
        let after = Frontier { head: f.head + 1, ..f };
        assert forall|k: int| 1 <= k < after.order.len() implies #[trigger] self.grown_from(after, k) by {
            assert(self.grown_from(f, k));
        }
        assert forall|k: int| 0 <= k < after.head implies #[trigger] self.expanded(after, k) by {
            if k < f.head {
                assert(self.expanded(f, k));
            } else {
                assert forall|p: int| #[trigger]
                    self.forward_edges.in_row(after.order[k] as int, p) implies after.visited[self.forward_edges.targets[p] as int]
                    && after.levels[after.placed[self.forward_edges.targets[p] as int]]
                    <= after.levels[k] + 1 by {
                    let w = self.forward_edges.targets[p] as int;
                    self.lemma_row_arc(f.order[k] as int, p);
                    assert(f.visited[w]);
                    assert(f.levels[f.placed[w]] <= f.levels[f.order.len() - 1]);
                }
            }
        }
        if after.head < after.order.len() {
            assert(f.levels[f.head] <= f.levels[after.head]);
        }
        after
    }

    /// When the search has followed every edge of every discovered node, a
    /// node that is not discovered cannot be reached from the start.
    pub proof fn lemma_explore_exhausted(&self, f: Frontier, start: int, stop: int)
        requires
            self.wf(),
            self.exploring(f, start),
            f.head == f.order.len(),
            0 <= stop < self.nodes.len(),
            !f.visited[stop],
        ensures
            !reachable(self.adjacency(), start, stop),
    {
        let adj = self.adjacency();
        assert forall|walk: Seq<usize>| !joins(adj, walk, start, stop) by {
            if joins(adj, walk, start, stop) {
                self.lemma_level_bound(f, start, walk);
            }
        }
    }

    /// From the entry at the head an edge leads to `stop`, which is not
    /// discovered: the shortest walks to `stop` have one node more than the
    /// level of the head.
    pub proof fn lemma_explore_reached(&self, f: Frontier, start: int, stop: int)
        requires
            self.wf(),
            self.exploring(f, start),
            f.head < f.order.len(),
            has_arc(self.adjacency(), f.order[f.head] as int, stop),
            !f.visited[stop],
        ensures
            shortest_count(self.adjacency(), start, stop, f.levels[f.head] + 1),
            joins(self.adjacency(), self.trail(f, f.head).push(stop as usize), start, stop),
            f.levels[f.head] < self.nodes.len(),
    {
        let adj = self.adjacency();
        lemma_marked_bound(f.visited);
        assert(f.levels[f.head] <= f.head + 1);
        self.lemma_trail(f, start, f.head);
        let found = self.trail(f, f.head).push(stop as usize);
        lemma_walk_push(adj, self.trail(f, f.head), stop as usize);
        assert(joins(adj, found, start, stop) && found.len() == f.levels[f.head] + 1);
        assert forall|walk: Seq<usize>| joins(adj, walk, start, stop) implies walk.len() >= f.levels[f.head]
            + 1 by {
            self.lemma_level_bound(f, start, walk);
        }
    }
}

impl<N, W> CsmGraph<N, W> {
    /// Entry `k` was discovered through the edge at position `via[k]` of the
    /// row of its parent, before `cursor` if its parent is the entry at the head.
    pub open spec fn came_through(&self, f: Frontier, via: Seq<int>, cursor: int, k: int) -> bool {
        &&& self.forward_edges.in_row(f.order[f.parent[k]] as int, via[k])
        &&& self.forward_edges.targets[via[k]] == f.order[k]
        &&& f.parent[k] == f.head ==> via[k] < cursor
    }

    /// Of two entries on one level the one discovered first has the trail that
    /// comes first.
    pub open spec fn in_trail_order(&self, f: Frontier, a: int, b: int) -> bool {
        f.levels[a] == f.levels[b] ==> lex_before(self.trail(f, a), self.trail(f, b))
    }

    /// The trail of entry `k` is the first, in lexicographic order, of the
    /// walks from the start to that entry that are as short as it.
    pub open spec fn first_trail(&self, f: Frontier, start: int, k: int) -> bool {
        forall|walk: Seq<usize>|
            #![trigger joins(self.adjacency(), walk, start, f.order[k] as int)]
            joins(self.adjacency(), walk, start, f.order[k] as int) && walk.len() == f.levels[k]
                ==> lex_at_most(self.trail(f, k), walk)
    }

    /// What a search that follows the edges of each node in stored order keeps
    /// beyond `exploring`: entries are discovered in the order of their trails.
    pub open spec fn in_order(&self, f: Frontier, start: int, via: Seq<int>, cursor: int) -> bool {
        &&& via.len() == f.order.len()
        &&& forall|k: int| 1 <= k < f.order.len() ==> #[trigger] self.came_through(f, via, cursor, k)
        &&& forall|a: int, b: int|
            0 <= a < b < f.order.len() ==> #[trigger] self.in_trail_order(f, a, b)
        &&& forall|k: int| 0 <= k < f.order.len() ==> #[trigger] self.first_trail(f, start, k)
    }

    /// Discovering a node leaves the trails of the entries before it as they were.
    pub proof fn lemma_trail_stable(&self, f: Frontier, after: Frontier, k: int)
        requires
            0 <= k < f.order.len(),
            f.order.len() == f.parent.len(),
            after.order.len() == after.parent.len(),
            f.order.len() <= after.order.len(),
            forall|i: int| 0 <= i < f.order.len() ==> #[trigger] after.order[i] == f.order[i],
            forall|i: int| 0 <= i < f.order.len() ==> #[trigger] after.parent[i] == f.parent[i],
        ensures
            self.trail(after, k) == self.trail(f, k),
        decreases k,
    {
        if k > 0 && 0 <= f.parent[k] < k {
            self.lemma_trail_stable(f, after, f.parent[k]);
        }
    }

    /// At the start the only trail is the start itself.
    pub proof fn lemma_order_start(&self, f: Frontier, start: int, cursor: int)
        requires
            self.wf(),
            self.exploring(f, start),
            f.order.len() == 1,
        ensures
            self.in_order(f, start, seq![0int], cursor),
    {
        let adj = self.adjacency();
        assert forall|walk: Seq<usize>|
            #![trigger joins(adj, walk, start, f.order[0] as int)]
            joins(adj, walk, start, f.order[0] as int) && walk.len() == f.levels[0] implies lex_at_most(
            self.trail(f, 0),
            walk,
        ) by {
            assert(walk =~= seq![f.order[0]]);
        }
        assert(self.first_trail(f, start, 0));
    }

    /// Passing an edge that leads to a discovered node keeps the order.
    pub proof fn lemma_order_skip(&self, f: Frontier, start: int, via: Seq<int>, cursor: int)
        requires
            self.in_order(f, start, via, cursor),
        ensures
            self.in_order(f, start, via, cursor + 1),
    {
        assert forall|k: int| 1 <= k < f.order.len() implies #[trigger] self.came_through(
            f,
            via,
            cursor + 1,
            k,
        ) by {
            assert(self.came_through(f, via, cursor, k));
        }
    }

    /// Moving the head on keeps the order, whatever the position at which the
    /// next row is entered.
    pub proof fn lemma_order_advance(
        &self,
        f: Frontier,
        after: Frontier,
        start: int,
        via: Seq<int>,
        cursor: int,
        next: int,
    )
        requires
            self.wf(),
            self.exploring(f, start),
            self.in_order(f, start, via, cursor),
            f.head < f.order.len(),
            after == (Frontier { head: f.head + 1, ..f }),
        ensures
            self.in_order(after, start, via, next),
    {
        assert forall|k: int| 0 <= k < f.order.len() implies self.trail(after, k) == self.trail(f, k) by {
            self.lemma_trail_stable(f, after, k);
        }
        assert forall|k: int| 1 <= k < after.order.len() implies #[trigger] self.came_through(
            after,
            via,
            next,
            k,
        ) by {
            assert(self.came_through(f, via, cursor, k));
            assert(self.grown_from(f, k));
        }
        assert forall|a: int, b: int| 0 <= a < b < after.order.len() implies #[trigger] self.in_trail_order(
            after,
            a,
            b,
        ) by {
            assert(self.in_trail_order(f, a, b));
        }
        assert forall|k: int| 0 <= k < after.order.len() implies #[trigger] self.first_trail(
            after,
            start,
            k,
        ) by {
            assert(self.first_trail(f, start, k));
        }
    }

    /// Discovering the unvisited node at position `cursor` of the row of the
    /// entry at the head keeps the order: its trail comes after those of the
    /// entries of its level, and before every other walk as short.
    #[verifier::rlimit(80)]
    pub proof fn lemma_order_discover(
        &self,
        f: Frontier,
        after: Frontier,
        start: int,
        via: Seq<int>,
        cursor: int,
    )
        requires
            self.wf(),
            self.exploring(f, start),
            self.in_order(f, start, via, cursor),
            f.head < f.order.len(),
            self.forward_edges.in_row(f.order[f.head] as int, cursor),
            !f.visited[self.forward_edges.targets[cursor] as int],
            self.exploring(after, start),
            after == (Frontier {
                order: f.order.push(self.forward_edges.targets[cursor]),
                levels: f.levels.push((f.levels[f.head] + 1) as usize),
                parent: f.parent.push(f.head),
                placed: f.placed.update(
                    self.forward_edges.targets[cursor] as int,
                    f.order.len() as int,
                ),
                visited: f.visited.update(self.forward_edges.targets[cursor] as int, true),
                predecessors: f.predecessors.update(
                    self.forward_edges.targets[cursor] as int,
                    Some(f.order[f.head]),
                ),
                head: f.head,
            }),
        ensures
            self.in_order(after, start, via.push(cursor), cursor + 1),
    {
        let adj = self.adjacency();
        let v = self.forward_edges.targets[cursor];
        let m = f.order.len() as int;
        let h = f.head;
        let u = f.order[h] as int;
        let level = f.levels[h] as int;
        let via_after = via.push(cursor);
        self.lemma_row_arc(u, cursor);
        assert(self.grown_from(after, m));
        assert(after.levels[m] == level + 1);
        assert(via.len() == m);
        assert forall|k: int| 0 <= k < m implies self.trail(after, k) == self.trail(f, k) by {
            self.lemma_trail_stable(f, after, k);
        }
        assert(self.trail(after, m) == self.trail(f, h).push(v)) by {
            assert(after.parent[m] == h);
            assert(self.trail(after, h) == self.trail(f, h));
        }
        assert forall|k: int| 1 <= k < after.order.len() implies #[trigger] self.came_through(
            after,
            via_after,
            cursor + 1,
            k,
        ) by {
            if k < m {
                assert(self.came_through(f, via, cursor, k));
                assert(self.grown_from(f, k));
            }
        }
        assert forall|a: int, b: int| 0 <= a < b < after.order.len() implies #[trigger] self.in_trail_order(
            after,
            a,
            b,
        ) by {
            if b < m {
                assert(self.in_trail_order(f, a, b));
            } else if after.levels[a] == after.levels[b] {
                assert(f.levels[a] == level + 1);
                assert(f.levels[0] <= f.levels[h]);
                assert(a >= 1);
                assert(self.grown_from(f, a));
                assert(self.came_through(f, via, cursor, a));
                let pa = f.parent[a];
                assert(self.trail(f, a) == self.trail(f, pa).push(f.order[a]));
                if pa < h {
                    assert(self.in_trail_order(f, pa, h));
                    lemma_lex_push(self.trail(f, pa), self.trail(f, h), f.order[a], v);
                } else {
                    assert(f.visited[f.order[a] as int]);
                    assert(self.forward_edges.in_row(u, via[a]));
                    assert(self.forward_edges.targets[via[a]] <= self.forward_edges.targets[cursor]);
                    lemma_lex_push_last(self.trail(f, h), f.order[a], v);
                }
            }
        }
        assert forall|k: int| 0 <= k < after.order.len() implies #[trigger] self.first_trail(
            after,
            start,
            k,
        ) by {
            if k < m {
                assert(self.first_trail(f, start, k));
                assert forall|walk: Seq<usize>|
                    #![trigger joins(adj, walk, start, after.order[k] as int)]
                    joins(adj, walk, start, after.order[k] as int) && walk.len() == after.levels[k] implies lex_at_most(
                    self.trail(after, k),
                    walk,
                ) by {
                    assert(joins(adj, walk, start, f.order[k] as int));
                }
            } else {
                assert forall|walk: Seq<usize>|
                    #![trigger joins(adj, walk, start, after.order[k] as int)]
                    joins(adj, walk, start, after.order[k] as int) && walk.len() == after.levels[k] implies lex_at_most(
                    self.trail(after, k),
                    walk,
                ) by {
                    let front = walk.drop_last();
                    assert(front.push(v) =~= walk);
                    lemma_subwalk(adj, walk, 0, walk.len() - 1);
                    assert(walk.subrange(0, walk.len() - 1) =~= front);
                    self.lemma_level_bound(f, start, front);
                    let y = front.last() as int;
                    assert(step_ok(adj, walk, walk.len() - 2));
                    let ky = f.placed[y];
                    assert(f.visited[y]);
                    if ky < h {
                        assert(self.expanded(f, ky));
                        let p = self.lemma_arc_row(y, v as int);
                        assert(false);
                    }
                    assert(f.levels[h] <= f.levels[ky]);
                    assert(joins(adj, front, start, f.order[ky] as int));
                    assert(self.first_trail(f, start, ky));
                    assert(lex_at_most(self.trail(f, ky), front));
                    if ky > h {
                        assert(self.in_trail_order(f, h, ky));
                        lemma_lex_chain(self.trail(f, h), self.trail(f, ky), front);
                        lemma_lex_push(self.trail(f, h), front, v, v);
                    } else if self.trail(f, h) != front {
                        lemma_lex_push(self.trail(f, h), front, v, v);
                    }
                }
            }
        }
    }
}

impl<N, W> CsmGraph<N, W> {
    /// No walk starts or ends at an index that is not a node.
    pub proof fn lemma_absent_unreachable(&self, start: int, stop: int)
        requires
            !(0 <= start < self.nodes.len()) || !(0 <= stop < self.nodes.len()),
        ensures
            !reachable(self.adjacency(), start, stop),
    {
        let adj = self.adjacency();
        assert forall|walk: Seq<usize>| !joins(adj, walk, start, stop) by {
            if joins(adj, walk, start, stop) {
                assert(walk[0] < adj.len());
                assert(walk[walk.len() - 1] < adj.len());
            }
        }
    }

    /// A node reaches itself by the walk that holds it alone.
    pub proof fn lemma_self_reachable(&self, start: int)
        requires
            0 <= start < self.nodes.len(),
        ensures
            shortest_count(self.adjacency(), start, start, 1),
            joins(self.adjacency(), seq![start as usize], start, start),
    {
        let adj = self.adjacency();
        let alone = seq![start as usize];
        assert(joins(adj, alone, start, start) && alone.len() == 1);
    }

    /// Breadth-first search for the number of nodes on a shortest path from
    /// `start` to `stop`, two distinct nodes. Returns as soon as an edge to
    /// `stop` is seen.
    pub fn count_shortest(&self, start: usize, stop: usize) -> (length: Option<usize>)
        requires
            self.wf(),
            start < self.nodes.len(),
            stop < self.nodes.len(),
            start != stop,
        ensures
            length matches Some(count) ==> shortest_count(
                self.adjacency(),
                start as int,
                stop as int,
                count as int,
            ),
            length is None ==> !reachable(self.adjacency(), start as int, stop as int),
    {
        let n = self.nodes.len();
        let mut visited: Vec<bool> = Vec::with_capacity(n);
        let mut k: usize = 0;
        while k < n
            invariant
                k <= n,
                visited.len() == k,
                forall|v: int| 0 <= v < k ==> !#[trigger] visited[v],
            decreases n - k,
        {
            visited.push(false);
            k = k + 1;
        }
        let mut queue: Vec<usize> = Vec::new();
        let mut counts: Vec<usize> = Vec::new();
        queue.push(start);
        counts.push(1);
        visited[start] = true;
        let ghost mut f = self.lemma_explore_start(
            start as int,
            visited@,
            Seq::new(n as nat, |v: int| None::<usize>),
        );
        let mut head: usize = 0;
        while head < queue.len()
            invariant
                n == self.nodes.len(),
                self.wf(),
                start < n,
                stop < n,
                self.exploring(f, start as int),
                f.order == queue@,
                f.levels == counts@,
                f.visited == visited@,
                f.head == head,
                !visited[stop as int],
            decreases n - head,
        {
            proof {
                lemma_marked_bound(f.visited);
            }
            let current = queue[head];
            let current_len = counts[head];
            let row_end = self.forward_edges.offsets[current + 1];
            let mut cursor = self.forward_edges.offsets[current];
            while cursor < row_end
                invariant
                    n == self.nodes.len(),
                    self.wf(),
                    start < n,
                    stop < n,
                    self.exploring(f, start as int),
                    f.order == queue@,
                    f.levels == counts@,
                    f.visited == visited@,
                    f.head == head,
                    head < queue.len(),
                    current == queue[head as int],
                    current_len == counts[head as int],
                    current < n,
                    !visited[stop as int],
                    row_end == self.forward_edges.offsets[current + 1],
                    self.forward_edges.offsets[current as int] <= cursor <= row_end,
                    forall|p: int|
                        self.forward_edges.offsets[current as int] <= p < cursor ==> visited[#[trigger] self.forward_edges.targets[p] as int],
                decreases row_end - cursor,
            {
                proof {
                    self.lemma_row_arc(current as int, cursor as int);
                }
                let neighbor = self.forward_edges.targets[cursor];
                if neighbor == stop {
                    proof {
                        self.lemma_explore_reached(f, start as int, stop as int);
                    }
                    return Some(current_len + 1);
                }
                if !visited[neighbor] {
                    proof {
                        f = self.lemma_explore_discover(f, start as int, neighbor as int);
                    }
                    visited[neighbor] = true;
                    queue.push(neighbor);
                    counts.push(current_len + 1);
                }
                cursor = cursor + 1;
            }
            proof {
                assert forall|p: int| #[trigger]
                    self.forward_edges.in_row(current as int, p) implies f.visited[self.forward_edges.targets[p] as int] by {}
                f = self.lemma_explore_advance(f, start as int);
            }
            head = head + 1;
        }
        proof {
            self.lemma_explore_exhausted(f, start as int, stop as int);
        }
        None
    }

    /// Breadth-first search for a shortest path from `start` to `stop`, two
    /// distinct nodes. Each node records the node it was discovered from; once
    /// `stop` is discovered the records are followed back to `start`.
    pub fn trace_shortest(&self, start: usize, stop: usize) -> (path: Option<Vec<usize>>)
        requires
            self.wf(),
            start < self.nodes.len(),
            stop < self.nodes.len(),
            start != stop,
        ensures
            path matches Some(nodes) ==> joins(self.adjacency(), nodes@, start as int, stop as int)
                && shortest_count(self.adjacency(), start as int, stop as int, nodes.len() as int),
            path matches Some(nodes) ==> forall|walk: Seq<usize>|
                #![trigger joins(self.adjacency(), walk, start as int, stop as int)]
                joins(self.adjacency(), walk, start as int, stop as int) && walk.len() == nodes.len()
                    ==> lex_at_most(nodes@, walk),
            path is None ==> !reachable(self.adjacency(), start as int, stop as int),
    {
        let n = self.nodes.len();
        let mut visited: Vec<bool> = Vec::with_capacity(n);
        let mut predecessors: Vec<Option<usize>> = Vec::with_capacity(n);
        let mut k: usize = 0;
        while k < n
            invariant
                k <= n,
                visited.len() == k,
                predecessors.len() == k,
                forall|v: int| 0 <= v < k ==> !#[trigger] visited[v],
                forall|v: int| 0 <= v < k ==> #[trigger] predecessors[v] is None,
            decreases n - k,
        {
            visited.push(false);
            predecessors.push(None);
            k = k + 1;
        }
        let mut queue: Vec<usize> = Vec::new();
        queue.push(start);
        visited[start] = true;
        let ghost mut f = self.lemma_explore_start(start as int, visited@, predecessors@);
        let ghost mut via: Seq<int> = seq![0int];
        proof {
            self.lemma_order_start(f, start as int, self.forward_edges.offsets[start as int] as int);
        }
        let mut head: usize = 0;
        let mut found = false;
        while head < queue.len() && !found
            invariant
                !found && head < queue.len() ==> self.in_order(
                    f,
                    start as int,
                    via,
                    self.forward_edges.offsets[queue[head as int] as int] as int,
                ),
                found ==> self.first_trail(f, start as int, queue.len() - 1),
                n == self.nodes.len(),
                self.wf(),
                start < n,
                stop < n,
                self.exploring(f, start as int),
                f.order == queue@,
                f.visited == visited@,
                f.predecessors == predecessors@,
                f.head == head,
                !found ==> !visited[stop as int],
                found ==> queue[queue.len() - 1] == stop && shortest_count(
                    self.adjacency(),
                    start as int,
                    stop as int,
                    f.levels[queue.len() - 1] as int,
                ),
            decreases n - head, if found { 0int } else { 1int },
        {
            proof {
                lemma_marked_bound(f.visited);
            }
            let current = queue[head];
            let row_end = self.forward_edges.offsets[current + 1];
            let mut cursor = self.forward_edges.offsets[current];
            while cursor < row_end && !found
                invariant
                    !found ==> self.in_order(f, start as int, via, cursor as int),
                    found ==> self.first_trail(f, start as int, queue.len() - 1),
                    n == self.nodes.len(),
                    self.wf(),
                    start < n,
                    stop < n,
                    self.exploring(f, start as int),
                    f.order == queue@,
                    f.visited == visited@,
                    f.predecessors == predecessors@,
                    f.head == head,
                    head < queue.len(),
                    current == queue[head as int],
                    current < n,
                    !found ==> !visited[stop as int],
                    found ==> queue[queue.len() - 1] == stop && shortest_count(
                        self.adjacency(),
                        start as int,
                        stop as int,
                        f.levels[queue.len() - 1] as int,
                    ),
                    row_end == self.forward_edges.offsets[current + 1],
                    self.forward_edges.offsets[current as int] <= cursor <= row_end,
                    forall|p: int|
                        self.forward_edges.offsets[current as int] <= p < cursor ==> visited[#[trigger] self.forward_edges.targets[p] as int],
                decreases row_end - cursor,
            {
                proof {
                    self.lemma_row_arc(current as int, cursor as int);
                }
                let neighbor = self.forward_edges.targets[cursor];
                if !visited[neighbor] {
                    proof {
                        if neighbor == stop {
                            self.lemma_explore_reached(f, start as int, stop as int);
                        }
                        let before = f;
                        f = self.lemma_explore_discover(f, start as int, neighbor as int);
                        self.lemma_order_discover(before, f, start as int, via, cursor as int);
                        via = via.push(cursor as int);
                    }
                    visited[neighbor] = true;
                    predecessors[neighbor] = Some(current);
                    queue.push(neighbor);
                    if neighbor == stop {
                        found = true;
                    }
                } else {
                    proof {
                        self.lemma_order_skip(f, start as int, via, cursor as int);
                    }
                }
                cursor = cursor + 1;
            }
            if !found {
                proof {
                    assert forall|p: int| #[trigger]
                        self.forward_edges.in_row(current as int, p) implies f.visited[self.forward_edges.targets[p] as int] by {}
                    let before = f;
                    f = self.lemma_explore_advance(f, start as int);
                    let next = if head + 1 < queue.len() {
                        self.forward_edges.offsets[queue[head + 1] as int] as int
                    } else {
                        0
                    };
                    self.lemma_order_advance(before, f, start as int, via, cursor as int, next);
                }
                head = head + 1;
            }
        }
        if !found {
            proof {
                self.lemma_explore_exhausted(f, start as int, stop as int);
            }
            return None;
        }
        let ghost last = queue.len() - 1;
        let ghost walk = self.trail(f, last);
        proof {
            self.lemma_trail(f, start as int, last);
            assert(self.first_trail(f, start as int, last));
        }
        let mut back: Vec<usize> = Vec::new();
        let mut current: Option<usize> = Some(stop);
        while current.is_some()
            invariant
                predecessors.len() == n,
                walk.len() >= 1,
                walk[0] == start,
                predecessors[start as int] is None,
                forall|i: int| 0 <= i < walk.len() ==> #[trigger] walk[i] < n,
                forall|i: int|
                    1 <= i < walk.len() ==> predecessors[#[trigger] walk[i] as int] == Some(walk[i - 1]),
                back.len() <= walk.len(),
                forall|j: int| 0 <= j < back.len() ==> #[trigger] back[j] == walk[walk.len() - 1 - j],
                current == if back.len() < walk.len() {
                    Some(walk[walk.len() - 1 - back.len()])
                } else {
                    None
                },
            decreases walk.len() - back.len(),
        {
            let node = current.unwrap();
            back.push(node);
            current = predecessors[node];
        }
        let nodes = reversed(&back);
        proof {
            assert(nodes@ =~= walk);
            assert forall|other: Seq<usize>|
                #![trigger joins(self.adjacency(), other, start as int, stop as int)]
                joins(self.adjacency(), other, start as int, stop as int) && other.len() == nodes.len() implies lex_at_most(
                nodes@,
                other,
            ) by {
                assert(joins(self.adjacency(), other, start as int, f.order[last] as int));
            }
        }
        Some(nodes)
    }
}

} // verus!
