use crate::model::GraphModel;
use vstd::prelude::*;

pub mod breadth_first;
pub mod cycle_search;
pub mod graph_csm_algo;
pub mod graph_csm_dfs_utils;
pub mod graph_traversal;
pub mod kahn;
pub mod graph_unfreeze;
pub mod graph_view;

verus! {

/// One direction of adjacency in compressed-sparse-row layout, stored as
/// parallel arrays: row `i` occupies positions `offsets[i] .. offsets[i + 1]` of
/// `targets` and `weights`.
pub struct CsrAdjacency<W> {
    /// Start of each row, with one closing entry.
    pub offsets: Vec<usize>,
    /// The partner node of each edge.
    pub targets: Vec<usize>,
    /// The weight of each edge.
    pub weights: Vec<W>,
}

/// The `(partner, weight)` pairs stored at positions `start` up to `end` of two
/// parallel arrays.
pub open spec fn pairs_between<W>(targets: Seq<usize>, weights: Seq<W>, start: int, end: int) -> Seq<
    (usize, W),
> {
    Seq::new((end - start) as nat, |k: int| (targets[start + k], weights[start + k]))
}

/// A sequence whose entries can be found, each at a place of its own, in
/// another holds no entry more often than the other.
pub proof fn lemma_injection_bag<A>(a: Seq<A>, b: Seq<A>, place: Seq<int>)
    requires
        place.len() == a.len(),
        forall|i: int| 0 <= i < a.len() ==> 0 <= #[trigger] place[i] < b.len() && b[place[i]] == a[i],
        forall|i: int, j: int| 0 <= i < j < a.len() ==> #[trigger] place[i] != #[trigger] place[j],
    ensures
        forall|x: A| a.to_multiset().count(x) <= b.to_multiset().count(x),
    decreases a.len(),
{
    broadcast use vstd::seq_lib::group_to_multiset_ensures;

    if a.len() > 0 {
        let last = a.len() - 1;
        let k = place[last];
        let front = a.drop_last();
        let rest = b.remove(k);
        let moved = Seq::new(
            front.len(),
            |i: int|
                if place[i] < k {
                    place[i]
                } else {
                    place[i] - 1
                },
        );
        assert forall|i: int| 0 <= i < front.len() implies 0 <= #[trigger] moved[i] < rest.len()
            && rest[moved[i]] == front[i] by {
            assert(place[i] != place[last]);
        }
        assert forall|i: int, j: int| 0 <= i < j < front.len() implies #[trigger] moved[i]
            != #[trigger] moved[j] by {
            assert(place[i] != place[j]);
            assert(place[i] != place[last]);
            assert(place[j] != place[last]);
        }
        lemma_injection_bag(front, rest, moved);
        assert(front.push(a[last]) =~= a);
        vstd::seq_lib::to_multiset_remove(b, k);
        assert forall|x: A| a.to_multiset().count(x) <= b.to_multiset().count(x) by {
            assert(front.to_multiset().count(x) <= rest.to_multiset().count(x));
            assert(a.to_multiset() == front.to_multiset().insert(a[last]));
            assert(rest.to_multiset() == b.to_multiset().remove(b[k]));
            assert(b.to_multiset().count(b[k]) > 0);
        }
    }
}

impl<W> CsrAdjacency<W> {
    /// The arrays describe `n` rows: offsets start at zero, never decrease and
    /// close at the number of edges, and every partner is one of the `n` nodes.
    pub open spec fn well_shaped(&self, n: int) -> bool {
        &&& self.offsets.len() == n + 1
        &&& self.offsets[0] == 0
        &&& forall|i: int, j: int|
            0 <= i <= j <= n ==> #[trigger] self.offsets[i] <= #[trigger] self.offsets[j]
        &&& self.offsets[n] == self.targets.len()
        &&& self.weights.len() == self.targets.len()
        &&& forall|p: int| 0 <= p < self.targets.len() ==> #[trigger] self.targets[p] < n
    }

    /// Within each of the `n` rows the partners never decrease.
    pub open spec fn rows_sorted(&self, n: int) -> bool {
        forall|i: int, p: int, q: int|
            0 <= i < n && #[trigger] self.in_row(i, p) && #[trigger] self.in_row(i, q) && p <= q
                ==> self.targets[p] <= self.targets[q]
    }

    /// The partners of row `i`, in stored order.
    pub open spec fn row(&self, i: int) -> Seq<usize> {
        self.targets@.subrange(self.offsets[i] as int, self.offsets[i + 1] as int)
    }

    /// The `(partner, weight)` pairs of row `i`, in stored order.
    pub open spec fn row_pairs(&self, i: int) -> Seq<(usize, W)> {
        pairs_between(
            self.targets@,
            self.weights@,
            self.offsets[i] as int,
            self.offsets[i + 1] as int,
        )
    }

    /// Position `p` lies in row `i`.
    pub open spec fn in_row(&self, i: int, p: int) -> bool {
        self.offsets[i] <= p < self.offsets[i + 1]
    }

    /// Every edge of `self` appears reversed in `other`: an edge of row `u` to `v`
    /// has an entry `u` in row `v` of `other`.
    #[verifier::opaque]
    pub open spec fn reversed_in(&self, other: &CsrAdjacency<W>, n: int) -> bool {
        forall|u: int, p: int|
            0 <= u < n && #[trigger] self.in_row(u, p) ==> exists|q: int|
                #[trigger] other.in_row(self.targets[p] as int, q) && other.targets[q] == u
    }
}

impl<W> CsrAdjacency<W> {
    /// `pairing` matches the edges of `self` one to one with edges of `other`:
    /// the edge at position `p`, from `u` to `v`, with the entry `u` at
    /// position `pairing[p]` of row `v` of `other`.
    #[verifier::opaque]
    pub open spec fn paired_by(&self, other: &CsrAdjacency<W>, n: int, pairing: Seq<int>) -> bool {
        &&& pairing.len() == self.targets.len()
        &&& forall|p: int, q: int|
            0 <= p < q < pairing.len() ==> #[trigger] pairing[p] != #[trigger] pairing[q]
        &&& forall|u: int, p: int|
            0 <= u < n && #[trigger] self.in_row(u, p) ==> other.in_row(
                self.targets[p] as int,
                pairing[p],
            ) && other.targets[pairing[p]] == u
    }

    /// `pairing` and `inverse` match the edges of `self` with all the edges of
    /// `other`, each with its reverse and with the same weight: the edge at
    /// position `p`, from `u` to `v`, with the entry `u` at position
    /// `pairing[p]` of row `v` of `other`; and `inverse` leads back.
    #[verifier::opaque]
    pub open spec fn matched_by(
        &self,
        other: &CsrAdjacency<W>,
        n: int,
        pairing: Seq<int>,
        inverse: Seq<int>,
    ) -> bool {
        &&& pairing.len() == self.targets.len()
        &&& inverse.len() == other.targets.len()
        &&& forall|p: int|
            0 <= p < pairing.len() ==> 0 <= #[trigger] pairing[p] < inverse.len()
                && inverse[pairing[p]] == p
        &&& forall|q: int|
            0 <= q < inverse.len() ==> 0 <= #[trigger] inverse[q] < pairing.len()
                && pairing[inverse[q]] == q
        &&& forall|u: int, p: int|
            0 <= u < n && #[trigger] self.in_row(u, p) ==> other.in_row(
                self.targets[p] as int,
                pairing[p],
            ) && other.targets[pairing[p]] == u && other.weights[pairing[p]] == self.weights[p]
    }

    /// Every position lies in a row.
    pub proof fn lemma_position_row(&self, n: int, p: int, k: int) -> (u: int)
        requires
            self.well_shaped(n),
            0 <= k <= n,
            0 <= p < self.offsets[k],
        ensures
            0 <= u < k,
            self.in_row(u, p),
        decreases k,
    {
        if k == 0 {
            0
        } else if p >= self.offsets[k - 1] {
            k - 1
        } else {
            self.lemma_position_row(n, p, k - 1)
        }
    }

    /// A position lies in one row only.
    pub proof fn lemma_one_row(&self, n: int, a: int, b: int, p: int)
        requires
            self.well_shaped(n),
            0 <= a < n,
            0 <= b < n,
            self.in_row(a, p),
            self.in_row(b, p),
        ensures
            a == b,
    {
        if a < b {
            assert(self.offsets[a + 1] <= self.offsets[b]);
        } else if b < a {
            assert(self.offsets[b + 1] <= self.offsets[a]);
        }
    }

    /// Reversing twice gives every row back as a bag: if `self` is matched
    /// with `middle` and `middle` with `last`, row `r` of `last` holds the
    /// pairs of row `r` of `self`.
    pub proof fn lemma_reversed_twice(
        &self,
        middle: &CsrAdjacency<W>,
        last: &CsrAdjacency<W>,
        n: int,
        first_pairing: Seq<int>,
        first_inverse: Seq<int>,
        second_pairing: Seq<int>,
        second_inverse: Seq<int>,
        r: int,
    )
        requires
            self.well_shaped(n),
            middle.well_shaped(n),
            last.well_shaped(n),
            self.matched_by(middle, n, first_pairing, first_inverse),
            middle.matched_by(last, n, second_pairing, second_inverse),
            0 <= r < n,
        ensures
            last.row_pairs(r).to_multiset() == self.row_pairs(r).to_multiset(),
    {
        reveal(CsrAdjacency::matched_by);
        let a = self.row_pairs(r);
        let c = last.row_pairs(r);
        let from = self.offsets[r] as int;
        let into = last.offsets[r] as int;
        assert(self.offsets[r] <= self.offsets[r + 1] <= self.offsets[n]);
        assert(last.offsets[r] <= last.offsets[r + 1] <= last.offsets[n]);
        let there = Seq::new(a.len(), |i: int| second_pairing[first_pairing[from + i]] - into);
        let back = Seq::new(c.len(), |j: int| first_inverse[second_inverse[into + j]] - from);
        assert forall|i: int| 0 <= i < a.len() implies 0 <= #[trigger] there[i] < c.len() && c[there[i]]
            == a[i] by {
            let p = from + i;
            assert(self.in_row(r, p));
            let v = self.targets[p] as int;
            let q = first_pairing[p];
            assert(middle.in_row(v, q));
            let t = second_pairing[q];
            assert(last.in_row(middle.targets[q] as int, t));
        }
        assert forall|i: int, j: int| 0 <= i < j < there.len() implies #[trigger] there[i]
            != #[trigger] there[j] by {
            let p = from + i;
            let q = from + j;
            assert(self.in_row(r, p) && self.in_row(r, q));
            assert(first_inverse[first_pairing[p]] == p);
            assert(first_inverse[first_pairing[q]] == q);
            assert(second_inverse[second_pairing[first_pairing[p]]] == first_pairing[p]);
            assert(second_inverse[second_pairing[first_pairing[q]]] == first_pairing[q]);
        }
        assert forall|j: int| 0 <= j < c.len() implies 0 <= #[trigger] back[j] < a.len() && a[back[j]]
            == c[j] by {
            let t = into + j;
            assert(last.in_row(r, t));
            let q = second_inverse[t];
            assert(second_pairing[q] == t);
            let v = middle.lemma_position_row(n, q, n);
            assert(middle.in_row(v, q));
            assert(last.in_row(middle.targets[q] as int, second_pairing[q]));
            last.lemma_one_row(n, r, middle.targets[q] as int, t);
            let p = first_inverse[q];
            assert(first_pairing[p] == q);
            let u = self.lemma_position_row(n, p, n);
            assert(self.in_row(u, p));
            assert(middle.in_row(self.targets[p] as int, first_pairing[p]));
            middle.lemma_one_row(n, v, self.targets[p] as int, q);
        }
        assert forall|i: int, j: int| 0 <= i < j < back.len() implies #[trigger] back[i]
            != #[trigger] back[j] by {
            let s = into + i;
            let t = into + j;
            assert(second_pairing[second_inverse[s]] == s);
            assert(second_pairing[second_inverse[t]] == t);
            assert(first_pairing[first_inverse[second_inverse[s]]] == second_inverse[s]);
            assert(first_pairing[first_inverse[second_inverse[t]]] == second_inverse[t]);
        }
        lemma_injection_bag(a, c, there);
        lemma_injection_bag(c, a, back);
        assert(a.to_multiset() =~= c.to_multiset()) by {
            assert forall|x: (usize, W)| a.to_multiset().count(x) == c.to_multiset().count(x) by {
                assert(a.to_multiset().count(x) <= c.to_multiset().count(x));
                assert(c.to_multiset().count(x) <= a.to_multiset().count(x));
            }
        }
    }

    /// The edges of `self` can be matched one to one with edges of `other`,
    /// each with its reverse.
    pub open spec fn mirrored_in(&self, other: &CsrAdjacency<W>, n: int) -> bool {
        exists|pairing: Seq<int>| self.paired_by(other, n, pairing)
    }
}

impl<W: Clone> CsrAdjacency<W> {
    /// As `mirrored_in`, and each edge of `other` carries a clone of the weight
    /// of the edge it is matched with.
    pub open spec fn mirrored_with_weights_in(&self, other: &CsrAdjacency<W>, n: int) -> bool {
        exists|pairing: Seq<int>|
            self.paired_by(other, n, pairing) && forall|p: int|
                0 <= p < pairing.len() ==> cloned(self.weights[p], #[trigger] other.weights[pairing[p]])
    }
}

/// The frozen form of a graph: compact nodes and both directions of adjacency
/// in compressed-sparse-row layout, each row sorted by partner index.
pub struct CsmGraph<N, W> {
    /// Node payloads, one per node index.
    pub nodes: Vec<N>,
    /// Successors of each node, sorted by target.
    pub forward_edges: CsrAdjacency<W>,
    /// Predecessors of each node, sorted by source.
    pub backward_edges: CsrAdjacency<W>,
    /// Index of the designated root node.
    pub root_index: Option<usize>,
}

impl<N, W> View for CsmGraph<N, W> {
    type V = GraphModel<N, W>;

    open spec fn view(&self) -> GraphModel<N, W> {
        GraphModel {
            nodes: Seq::new(self.nodes@.len(), |i: int| Some(self.nodes@[i])),
            edges: Seq::new(self.nodes@.len(), |i: int| self.forward_edges.row_pairs(i)),
            root: self.root_index,
        }
    }
}

impl<N, W> CsmGraph<N, W> {
    /// The invariants of the frozen form: both directions are well shaped and
    /// sorted row by row, they hold the same edges, each the reverse of the
    /// other, and as many of each, and a root names a node.
    pub open spec fn wf(&self) -> bool {
        let n = self.nodes.len() as int;
        &&& self.forward_edges.well_shaped(n)
        &&& self.forward_edges.rows_sorted(n)
        &&& self.backward_edges.well_shaped(n)
        &&& self.backward_edges.rows_sorted(n)
        &&& self.forward_edges.targets.len() == self.backward_edges.targets.len()
        &&& self.forward_edges.mirrored_in(&self.backward_edges, n)
        &&& self.forward_edges.reversed_in(&self.backward_edges, n)
        &&& self.backward_edges.reversed_in(&self.forward_edges, n)
        &&& self.root_index matches Some(r) ==> r < n
    }

    /// The targets of the edges that leave `a`, ascending.
    pub open spec fn successors(&self, a: int) -> Seq<usize> {
        self.forward_edges.row(a)
    }

    /// The sources of the edges that enter `a`, ascending.
    pub open spec fn predecessors(&self, a: int) -> Seq<usize> {
        self.backward_edges.row(a)
    }

    /// The successors of every node.
    pub open spec fn adjacency(&self) -> Seq<Seq<usize>> {
        Seq::new(self.nodes@.len(), |a: int| self.successors(a))
    }

    /// An empty graph: no nodes, no edges, no root.
    pub fn new() -> (graph: Self)
        ensures
            graph.wf(),
            graph.nodes@.len() == 0,
            graph.forward_edges.targets@.len() == 0,
            graph.root_index is None,
    {
        let mut forward_offsets: Vec<usize> = Vec::new();
        forward_offsets.push(0);
        let mut backward_offsets: Vec<usize> = Vec::new();
        backward_offsets.push(0);
        let graph = Self {
            nodes: Vec::new(),
            forward_edges: CsrAdjacency {
                offsets: forward_offsets,
                targets: Vec::new(),
                weights: Vec::new(),
            },
            backward_edges: CsrAdjacency {
                offsets: backward_offsets,
                targets: Vec::new(),
                weights: Vec::new(),
            },
            root_index: None,
        };
        proof {
            reveal(CsrAdjacency::paired_by);
            reveal(CsrAdjacency::reversed_in);
            assert(graph.forward_edges.paired_by(&graph.backward_edges, 0, Seq::empty()));
        }
        graph
    }

    /// An empty graph whose node storage has room for `num_nodes` payloads.
    pub fn with_capacity(num_nodes: usize) -> (graph: Self)
        ensures
            graph.wf(),
            graph.nodes@.len() == 0,
            graph.forward_edges.targets@.len() == 0,
            graph.root_index is None,
    {
        let mut forward_offsets: Vec<usize> = Vec::new();
        forward_offsets.push(0);
        let mut backward_offsets: Vec<usize> = Vec::new();
        backward_offsets.push(0);
        let graph = Self {
            nodes: Vec::with_capacity(num_nodes),
            forward_edges: CsrAdjacency {
                offsets: forward_offsets,
                targets: Vec::new(),
                weights: Vec::new(),
            },
            backward_edges: CsrAdjacency {
                offsets: backward_offsets,
                targets: Vec::new(),
                weights: Vec::new(),
            },
            root_index: None,
        };
        proof {
            reveal(CsrAdjacency::paired_by);
            reveal(CsrAdjacency::reversed_in);
            assert(graph.forward_edges.paired_by(&graph.backward_edges, 0, Seq::empty()));
        }
        graph
    }

    /// Puts the parts of a frozen graph together.
    pub fn construct(
        nodes: Vec<N>,
        forward_edges: CsrAdjacency<W>,
        backward_edges: CsrAdjacency<W>,
        root_index: Option<usize>,
    ) -> (graph: Self)
        ensures
            graph.nodes == nodes,
            graph.forward_edges == forward_edges,
            graph.backward_edges == backward_edges,
            graph.root_index == root_index,
    {
        Self { nodes, forward_edges, backward_edges, root_index }
    }
}

impl<N, W> Default for CsmGraph<N, W> {
    fn default() -> (graph: Self)
        ensures
            graph.wf(),
            graph.nodes@.len() == 0,
            graph.forward_edges.targets@.len() == 0,
            graph.root_index is None,
    {
        Self::new()
    }
}

impl<N, W> CsmGraph<N, W> {
    /// Both directions hold the same edges: the forward edge at position `p`,
    /// from `u` to `v`, has an entry `u` in row `v` of the backward structure,
    /// the backward entry at position `q` of row `v`, naming `u`, has an
    /// edge to `v` in row `u` of the forward structure, and there are as many
    /// of the one as of the other.
    pub proof fn lemma_directions_agree(&self, u: int, v: int, p: int, q: int)
        requires
            self.wf(),
            0 <= u < self.nodes.len(),
            0 <= v < self.nodes.len(),
        ensures
            self.forward_edges.targets.len() == self.backward_edges.targets.len(),
            self.forward_edges.in_row(u, p) ==> exists|k: int|
                #[trigger] self.backward_edges.in_row(self.forward_edges.targets[p] as int, k)
                    && self.backward_edges.targets[k] == u,
            self.backward_edges.in_row(v, q) ==> exists|k: int|
                #[trigger] self.forward_edges.in_row(self.backward_edges.targets[q] as int, k)
                    && self.forward_edges.targets[k] == v,
    {
        reveal(CsrAdjacency::reversed_in);
    }
}

/// The sum of the row lengths of the first `k` rows is the offset of row `k`.
pub proof fn lemma_edge_total_rows<N, W>(graph: &CsmGraph<N, W>, k: int)
    requires
        graph.wf(),
        0 <= k <= graph.nodes.len(),
    ensures
        crate::model::edge_total(graph@.edges.take(k)) == graph.forward_edges.offsets[k],
    decreases k,
{
    if k > 0 {
        lemma_edge_total_rows(graph, k - 1);
        assert(graph@.edges.take(k).drop_last() =~= graph@.edges.take(k - 1));
        assert(graph@.edges.take(k).last() == graph.forward_edges.row_pairs(k - 1));
    }
}

} // verus!
