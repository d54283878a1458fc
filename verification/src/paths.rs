//! Walks, cycles and orders on a graph given by its successor lists: the
//! vocabulary in which the analysis algorithms state what they return.

use vstd::prelude::*;

verus! {

/// There is an edge from `u` to `v`.
pub open spec fn has_arc(adj: Seq<Seq<usize>>, u: int, v: int) -> bool {
    &&& 0 <= u < adj.len()
    &&& 0 <= v < adj.len()
    &&& exists|k: int| 0 <= k < adj[u].len() && #[trigger] adj[u][k] == v
}

/// Entry `i` of `walk` has an edge to the entry that follows it.
pub open spec fn step_ok(adj: Seq<Seq<usize>>, walk: Seq<usize>, i: int) -> bool {
    has_arc(adj, walk[i] as int, walk[i + 1] as int)
}

/// `walk` is a non-empty sequence of nodes, each joined to the next by an edge.
pub open spec fn is_walk(adj: Seq<Seq<usize>>, walk: Seq<usize>) -> bool {
    &&& walk.len() >= 1
    &&& forall|i: int| 0 <= i < walk.len() ==> #[trigger] walk[i] < adj.len()
    &&& forall|i: int| 0 <= i < walk.len() - 1 ==> #[trigger] step_ok(adj, walk, i)
}

/// `walk` leads from `start` to `stop`.
pub open spec fn joins(adj: Seq<Seq<usize>>, walk: Seq<usize>, start: int, stop: int) -> bool {
    is_walk(adj, walk) && walk.first() == start && walk.last() == stop
}

/// `stop` can be reached from `start` along edges.
pub open spec fn reachable(adj: Seq<Seq<usize>>, start: int, stop: int) -> bool {
    exists|walk: Seq<usize>| joins(adj, walk, start, stop)
}

/// Some walk from `start` to `stop` has `count` nodes and none has fewer.
pub open spec fn shortest_count(adj: Seq<Seq<usize>>, start: int, stop: int, count: int) -> bool {
    &&& exists|walk: Seq<usize>| joins(adj, walk, start, stop) && walk.len() == count
    &&& forall|walk: Seq<usize>| joins(adj, walk, start, stop) ==> walk.len() >= count
}

/// `walk` is a closed loop: a walk with at least one edge that ends where it starts.
pub open spec fn is_cycle(adj: Seq<Seq<usize>>, walk: Seq<usize>) -> bool {
    is_walk(adj, walk) && walk.len() >= 2 && walk.first() == walk.last()
}

/// The graph has no closed loop.
pub open spec fn acyclic(adj: Seq<Seq<usize>>) -> bool {
    forall|walk: Seq<usize>| !is_cycle(adj, walk)
}

/// `order` lists every node once, and no edge leads from a node to itself or
/// to a node listed before it.
pub open spec fn is_topological_order(adj: Seq<Seq<usize>>, order: Seq<usize>) -> bool {
    &&& order.len() == adj.len()
    &&& forall|i: int| 0 <= i < order.len() ==> #[trigger] order[i] < adj.len()
    &&& forall|i: int, j: int|
        0 <= i < j < order.len() ==> #[trigger] order[i] != #[trigger] order[j]
    &&& forall|v: usize| v < adj.len() ==> #[trigger] order.contains(v)
    &&& forall|i: int, j: int|
        0 <= i <= j < order.len() ==> !#[trigger] has_arc(adj, order[j] as int, order[i] as int)
}

/// In a topological order the source of every edge stands before its target.
pub proof fn lemma_order_respects_arcs(adj: Seq<Seq<usize>>, order: Seq<usize>, i: int, j: int)
    requires
        is_topological_order(adj, order),
        0 <= i < order.len(),
        0 <= j < order.len(),
        has_arc(adj, order[i] as int, order[j] as int),
    ensures
        i < j,
{
    if j <= i {
        assert(!has_arc(adj, order[i] as int, order[j] as int));
    }
}

/// Along a walk in a graph with a topological order, positions in the order
/// grow: the node at step `k` stands at or after the first node, and strictly
/// after it once an edge has been taken.
proof fn lemma_walk_climbs(adj: Seq<Seq<usize>>, order: Seq<usize>, walk: Seq<usize>, k: int) -> (at: (
    int,
    int,
))
    requires
        is_topological_order(adj, order),
        is_walk(adj, walk),
        0 <= k < walk.len(),
    ensures
        0 <= at.0 < order.len(),
        0 <= at.1 < order.len(),
        order[at.0] == walk[0],
        order[at.1] == walk[k],
        at.0 <= at.1,
        k > 0 ==> at.0 < at.1,
    decreases k,
{
    if k == 0 {
        assert(order.contains(walk[0]));
        let i = choose|i: int| 0 <= i < order.len() && order[i] == walk[0];
        (i, i)
    } else {
        let before = lemma_walk_climbs(adj, order, walk, k - 1);
        assert(order.contains(walk[k]));
        let j = choose|j: int| 0 <= j < order.len() && order[j] == walk[k];
        assert(step_ok(adj, walk, k - 1));
        lemma_order_respects_arcs(adj, order, before.1, j);
        (before.0, j)
    }
}

/// A graph that has a topological order has no closed loop.
pub proof fn lemma_ordered_is_acyclic(adj: Seq<Seq<usize>>, order: Seq<usize>)
    requires
        is_topological_order(adj, order),
    ensures
        acyclic(adj),
{
    assert forall|walk: Seq<usize>| !is_cycle(adj, walk) by {
        if is_cycle(adj, walk) {
            let at = lemma_walk_climbs(adj, order, walk, walk.len() - 1);
            assert(order[at.0] == order[at.1]);
        }
    }
}

/// More entries than values: among `n + 1` or more numbers below `n`, two are equal.
pub proof fn lemma_pigeonhole(s: Seq<usize>, n: nat) -> (pair: (int, int))
    requires
        s.len() > n,
        forall|i: int| 0 <= i < s.len() ==> #[trigger] s[i] < n,
    ensures
        0 <= pair.0 < pair.1 < s.len(),
        s[pair.0] == s[pair.1],
    decreases n,
{
    if n == 0 {
        assert(s[0] < 0);
        (0, 0)
    } else {
        let top = (n - 1) as usize;
        if exists|i: int| 0 <= i < s.len() && s[i] == top {
            let i = choose|i: int| 0 <= i < s.len() && s[i] == top;
            let rest = s.remove(i);
            if exists|j: int| 0 <= j < rest.len() && rest[j] == top {
                let j = choose|j: int| 0 <= j < rest.len() && rest[j] == top;
                if j < i {
                    (j, i)
                } else {
                    (i, j + 1)
                }
            } else {
                assert forall|k: int| 0 <= k < rest.len() implies #[trigger] rest[k] < n - 1 by {
                    assert(rest[k] != top);
                    assert(rest[k] == s[if k < i {
                        k
                    } else {
                        k + 1
                    }]);
                }
                let found = lemma_pigeonhole(rest, (n - 1) as nat);
                let a = if found.0 < i {
                    found.0
                } else {
                    found.0 + 1
                };
                let b = if found.1 < i {
                    found.1
                } else {
                    found.1 + 1
                };
                (a, b)
            }
        } else {
            assert forall|k: int| 0 <= k < s.len() implies #[trigger] s[k] < n - 1 by {
                assert(s[k] != top);
            }
            lemma_pigeonhole(s, (n - 1) as nat)
        }
    }
}

/// A piece of a walk is a walk.
pub proof fn lemma_subwalk(adj: Seq<Seq<usize>>, walk: Seq<usize>, from: int, to: int)
    requires
        is_walk(adj, walk),
        0 <= from < to <= walk.len(),
    ensures
        is_walk(adj, walk.subrange(from, to)),
{
    let part = walk.subrange(from, to);
    assert forall|i: int| 0 <= i < part.len() - 1 implies #[trigger] step_ok(adj, part, i) by {
        assert(step_ok(adj, walk, from + i));
    }
}

/// A walk followed by an edge from its last node is a walk.
pub proof fn lemma_walk_push(adj: Seq<Seq<usize>>, walk: Seq<usize>, next: usize)
    requires
        is_walk(adj, walk),
        has_arc(adj, walk.last() as int, next as int),
    ensures
        is_walk(adj, walk.push(next)),
{
    let longer = walk.push(next);
    assert forall|i: int| 0 <= i < longer.len() - 1 implies #[trigger] step_ok(adj, longer, i) by {
        if i < walk.len() - 1 {
            assert(step_ok(adj, walk, i));
        }
    }
}

/// A sequence in which every entry has an edge from the entry that follows it
/// is, read backwards, a walk.
pub proof fn lemma_reverse_walk(adj: Seq<Seq<usize>>, back: Seq<usize>)
    requires
        back.len() >= 1,
        forall|i: int| 0 <= i < back.len() ==> #[trigger] back[i] < adj.len(),
        forall|i: int|
            0 <= i < back.len() - 1 ==> #[trigger] has_arc(adj, back[i + 1] as int, back[i] as int),
    ensures
        is_walk(adj, back.reverse()),
{
    let walk = back.reverse();
    assert forall|i: int| 0 <= i < walk.len() - 1 implies #[trigger] step_ok(adj, walk, i) by {
        let k = back.len() - 2 - i;
        assert(has_arc(adj, back[k + 1] as int, back[k] as int));
    }
}

/// Every node marked in `inside` has an edge from a node marked in `inside`.
pub open spec fn trapped(adj: Seq<Seq<usize>>, inside: Seq<bool>) -> bool {
    &&& inside.len() == adj.len()
    &&& forall|v: int|
        0 <= v < adj.len() && #[trigger] inside[v] ==> exists|u: int|
            0 <= u < adj.len() && inside[u] && #[trigger] has_arc(adj, u, v)
}

/// Follows edges backwards from `v` within a trapped set of nodes.
proof fn lemma_trail_back(adj: Seq<Seq<usize>>, inside: Seq<bool>, v: int, steps: nat) -> (trail: Seq<
    usize,
>)
    requires
        trapped(adj, inside),
        0 <= v < adj.len(),
        inside[v],
    ensures
        trail.len() == steps + 1,
        trail[0] == v,
        forall|i: int| 0 <= i < trail.len() ==> #[trigger] trail[i] < adj.len(),
        forall|i: int|
            0 <= i < trail.len() - 1 ==> #[trigger] has_arc(adj, trail[i + 1] as int, trail[i] as int),
        inside[trail[trail.len() - 1] as int],
    decreases steps,
{
    if steps == 0 {
        seq![v as usize]
    } else {
        let shorter = lemma_trail_back(adj, inside, v, (steps - 1) as nat);
        let end = shorter[shorter.len() - 1] as int;
        let u = choose|u: int| 0 <= u < adj.len() && inside[u] && #[trigger] has_arc(adj, u, end);
        let trail = shorter.push(u as usize);
        assert forall|i: int| 0 <= i < trail.len() - 1 implies #[trigger] has_arc(
            adj,
            trail[i + 1] as int,
            trail[i] as int,
        ) by {
            if i < shorter.len() - 1 {
                assert(has_arc(adj, shorter[i + 1] as int, shorter[i] as int));
            }
        }
        trail
    }
}

/// A graph in which some non-empty set of nodes is trapped has a closed loop.
pub proof fn lemma_trapped_has_cycle(adj: Seq<Seq<usize>>, inside: Seq<bool>, v: int)
    requires
        trapped(adj, inside),
        0 <= v < adj.len(),
        inside[v],
    ensures
        !acyclic(adj),
{
    let trail = lemma_trail_back(adj, inside, v, adj.len());
    let pair = lemma_pigeonhole(trail, adj.len());
    let piece = trail.subrange(pair.0, pair.1 + 1);
    assert forall|i: int| 0 <= i < piece.len() - 1 implies #[trigger] has_arc(
        adj,
        piece[i + 1] as int,
        piece[i] as int,
    ) by {
        assert(has_arc(adj, trail[pair.0 + i + 1] as int, trail[pair.0 + i] as int));
    }
    lemma_reverse_walk(adj, piece);
    assert(is_cycle(adj, piece.reverse()));
}

/// How many entries of `marks` are set.
pub open spec fn marked_count(marks: Seq<bool>) -> nat
    decreases marks.len(),
{
    if marks.len() == 0 {
        0
    } else {
        marked_count(marks.drop_last()) + if marks.last() {
            1nat
        } else {
            0nat
        }
    }
}

/// Setting an entry that was clear raises the count by one.
pub proof fn lemma_marked_set(marks: Seq<bool>, i: int)
    requires
        0 <= i < marks.len(),
        !marks[i],
    ensures
        marked_count(marks.update(i, true)) == marked_count(marks) + 1,
    decreases marks.len(),
{
    let after = marks.update(i, true);
    if i == marks.len() - 1 {
        assert(after.drop_last() =~= marks.drop_last());
    } else {
        lemma_marked_set(marks.drop_last(), i);
        assert(after.drop_last() =~= marks.drop_last().update(i, true));
    }
}

/// The count never exceeds the length; if it falls short of it some entry is
/// clear, and if it reaches it every entry is set.
pub proof fn lemma_marked_bound(marks: Seq<bool>)
    ensures
        marked_count(marks) <= marks.len(),
        marked_count(marks) < marks.len() ==> exists|i: int| 0 <= i < marks.len() && !#[trigger] marks[i],
        marked_count(marks) == marks.len() ==> forall|i: int| 0 <= i < marks.len() ==> #[trigger] marks[i],
    decreases marks.len(),
{
    if marks.len() > 0 {
        let front = marks.drop_last();
        lemma_marked_bound(front);
        if marked_count(marks) < marks.len() {
            if marks.last() {
                let i = choose|i: int| 0 <= i < front.len() && !#[trigger] front[i];
                assert(!marks[i]);
            } else {
                assert(!marks[marks.len() - 1]);
            }
        }
        if marked_count(marks) == marks.len() {
            assert forall|i: int| 0 <= i < marks.len() implies #[trigger] marks[i] by {
                if i < front.len() {
                    assert(front[i]);
                }
            }
        }
    }
}

/// No entry of a sequence of the given length is set.
pub proof fn lemma_marked_none(marks: Seq<bool>)
    requires
        forall|i: int| 0 <= i < marks.len() ==> !#[trigger] marks[i],
    ensures
        marked_count(marks) == 0,
    decreases marks.len(),
{
    if marks.len() > 0 {
        lemma_marked_none(marks.drop_last());
    }
}

/// When every entry is set, the count is the length.
pub proof fn lemma_marked_all(marks: Seq<bool>)
    requires
        forall|i: int| 0 <= i < marks.len() ==> #[trigger] marks[i],
    ensures
        marked_count(marks) == marks.len(),
    decreases marks.len(),
{
    if marks.len() > 0 {
        lemma_marked_all(marks.drop_last());
    }
}

/// Clearing an entry that was set lowers the count by one.
pub proof fn lemma_marked_clear(marks: Seq<bool>, i: int)
    requires
        0 <= i < marks.len(),
        marks[i],
    ensures
        marked_count(marks.update(i, false)) + 1 == marked_count(marks),
    decreases marks.len(),
{
    let after = marks.update(i, false);
    if i == marks.len() - 1 {
        assert(after.drop_last() =~= marks.drop_last());
    } else {
        lemma_marked_clear(marks.drop_last(), i);
        assert(after.drop_last() =~= marks.drop_last().update(i, false));
    }
}

/// When the count is zero, every entry is clear.
pub proof fn lemma_marked_zero(marks: Seq<bool>)
    requires
        marked_count(marks) == 0,
    ensures
        forall|i: int| 0 <= i < marks.len() ==> !#[trigger] marks[i],
    decreases marks.len(),
{
    if marks.len() > 0 {
        let front = marks.drop_last();
        lemma_marked_zero(front);
        assert forall|i: int| 0 <= i < marks.len() implies !#[trigger] marks[i] by {
            if i < front.len() {
                assert(!front[i]);
            }
        }
    }
}

/// The number of nodes on a shortest walk is determined by its ends.
pub proof fn lemma_shortest_unique(adj: Seq<Seq<usize>>, start: int, stop: int, a: int, b: int)
    requires
        shortest_count(adj, start, stop, a),
        shortest_count(adj, start, stop, b),
    ensures
        a == b,
{
    let first = choose|walk: Seq<usize>| joins(adj, walk, start, stop) && walk.len() == a;
    let second = choose|walk: Seq<usize>| joins(adj, walk, start, stop) && walk.len() == b;
    assert(first.len() >= b);
    assert(second.len() >= a);
}

/// From a node to itself the shortest walk has one node.
pub proof fn lemma_shortest_to_self(adj: Seq<Seq<usize>>, start: int, count: int)
    requires
        shortest_count(adj, start, start, count),
    ensures
        count == 1,
{
    let walk = choose|walk: Seq<usize>| joins(adj, walk, start, start) && walk.len() == count;
    let alone = seq![start as usize];
    assert(walk[0] < adj.len());
    assert(joins(adj, alone, start, start));
    assert(alone.len() >= count);
}

/// From a node to a different node that it has an edge to, the shortest walk
/// has two nodes.
pub proof fn lemma_shortest_to_neighbour(adj: Seq<Seq<usize>>, start: int, stop: int, count: int)
    requires
        has_arc(adj, start, stop),
        start != stop,
        shortest_count(adj, start, stop, count),
    ensures
        count == 2,
{
    let walk = choose|walk: Seq<usize>| joins(adj, walk, start, stop) && walk.len() == count;
    let direct = seq![start as usize, stop as usize];
    assert(step_ok(adj, direct, 0));
    assert(joins(adj, direct, start, stop));
    assert(direct.len() >= count);
}

/// A shortest path has as many nodes as the shortest length says, and each
/// of its nodes has an edge to the next.
pub proof fn lemma_path_matches_length(
    adj: Seq<Seq<usize>>,
    start: int,
    stop: int,
    path: Seq<usize>,
    count: int,
    i: int,
)
    requires
        joins(adj, path, start, stop),
        shortest_count(adj, start, stop, path.len() as int),
        shortest_count(adj, start, stop, count),
        0 <= i < path.len() - 1,
    ensures
        path.len() == count,
        has_arc(adj, path[i] as int, path[i + 1] as int),
{
    lemma_shortest_unique(adj, start, stop, path.len() as int, count);
    assert(step_ok(adj, path, i));
}

/// `a` and `b` agree before position `i`, where `a` holds the smaller node.
pub open spec fn parts_at(a: Seq<usize>, b: Seq<usize>, i: int) -> bool {
    &&& 0 <= i < a.len()
    &&& i < b.len()
    &&& a[i] < b[i]
    &&& forall|j: int| 0 <= j < i ==> a[j] == b[j]
}

/// `a` comes before `b` in lexicographic order: where they first differ, `a`
/// holds the smaller node.
pub open spec fn lex_before(a: Seq<usize>, b: Seq<usize>) -> bool {
    exists|i: int| parts_at(a, b, i)
}

/// `a` is `b` or comes before it in lexicographic order.
pub open spec fn lex_at_most(a: Seq<usize>, b: Seq<usize>) -> bool {
    a == b || lex_before(a, b)
}

/// The order of two sequences is the order of what they are extended to.
pub proof fn lemma_lex_push(a: Seq<usize>, b: Seq<usize>, x: usize, y: usize)
    requires
        lex_before(a, b),
    ensures
        lex_before(a.push(x), b.push(y)),
{
    let i = choose|i: int| parts_at(a, b, i);
    assert(parts_at(a.push(x), b.push(y), i));
}

/// Of two extensions of one sequence the one by the smaller node comes first.
pub proof fn lemma_lex_push_last(a: Seq<usize>, x: usize, y: usize)
    requires
        x < y,
    ensures
        lex_before(a.push(x), a.push(y)),
{
    assert(parts_at(a.push(x), a.push(y), a.len() as int));
}

/// What comes before a sequence comes before everything that the sequence
/// comes before or equals.
pub proof fn lemma_lex_chain(a: Seq<usize>, b: Seq<usize>, c: Seq<usize>)
    requires
        lex_before(a, b),
        lex_at_most(b, c),
    ensures
        lex_before(a, c),
{
    if b != c {
        let i = choose|i: int| parts_at(a, b, i);
        let j = choose|j: int| parts_at(b, c, j);
        if i <= j {
            assert(parts_at(a, c, i));
        } else {
            assert(parts_at(a, c, j));
        }
    }
}

/// Entry `i` of `order` has an earlier turn than entry `j`, or the same turn
/// and the smaller index.
pub open spec fn turn_before(order: Seq<usize>, turn: Seq<int>, i: int, j: int) -> bool {
    turn[order[i] as int] < turn[order[j] as int] || (turn[order[i] as int] == turn[order[j] as int]
        && order[i] < order[j])
}

/// `turn` gives, for each node that has a predecessor, the position in `order`
/// of the last of its predecessors, and -1 for each node that has none; and
/// `order` lists the nodes by turn, those of one turn ascending.
pub open spec fn released_in_turn(adj: Seq<Seq<usize>>, order: Seq<usize>, turn: Seq<int>) -> bool {
    &&& turn.len() == adj.len()
    &&& forall|v: int| 0 <= v < adj.len() ==> -1 <= #[trigger] turn[v] < order.len()
    &&& forall|u: int, v: int| #[trigger] has_arc(adj, u, v) ==> turn[v] >= 0
    &&& forall|v: int|
        0 <= v < adj.len() && #[trigger] turn[v] >= 0 ==> has_arc(adj, order[turn[v]] as int, v)
    &&& forall|i: int, v: int|
        0 <= i < order.len() && #[trigger] has_arc(adj, order[i] as int, v) ==> i <= turn[v]
    &&& forall|i: int, j: int| 0 <= i < j < order.len() ==> #[trigger] turn_before(order, turn, i, j)
}

/// `order` is the topological order in which Kahn's algorithm with a
/// first-in-first-out queue lists the nodes: those without predecessors
/// first, ascending, then each node after the last of its predecessors, in
/// the order of those predecessors, and ascending behind one predecessor.
pub open spec fn is_kahn_order(adj: Seq<Seq<usize>>, order: Seq<usize>) -> bool {
    is_topological_order(adj, order) && exists|turn: Seq<int>| released_in_turn(adj, order, turn)
}

/// `level` gives each node its depth: 0 for a node without predecessors, and
/// else one more than the largest depth among its predecessors; and `order`
/// lists the nodes by depth, those of one depth ascending.
pub open spec fn layered(adj: Seq<Seq<usize>>, order: Seq<usize>, level: Seq<int>) -> bool {
    &&& level.len() == adj.len()
    &&& forall|v: int| 0 <= v < adj.len() ==> 0 <= #[trigger] level[v]
    &&& forall|u: int, v: int| #[trigger] has_arc(adj, u, v) ==> level[u] < level[v]
    &&& forall|v: int|
        0 <= v < adj.len() && #[trigger] level[v] > 0 ==> exists|u: int|
            #[trigger] has_arc(adj, u, v) && level[u] + 1 == level[v]
    &&& forall|i: int, j: int| 0 <= i < j < order.len() ==> #[trigger] turn_before(order, level, i, j)
}

/// `order` is the topological order that lists the nodes level by level, each
/// level ascending: first the nodes without predecessors, then those all of
/// whose predecessors are among them, and so on.
pub open spec fn is_level_order(adj: Seq<Seq<usize>>, order: Seq<usize>) -> bool {
    is_topological_order(adj, order) && exists|level: Seq<int>| layered(adj, order, level)
}

} // verus!
