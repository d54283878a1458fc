use crate::error::GraphError;
use crate::traits::graph_view::GraphView;
use vstd::prelude::*;

verus! {

/// Mutation of a graph in its evolutionary form. Every operation keeps the
/// adjacency lists of removed slots empty if they were so before.
pub trait GraphMut<N, W>: GraphView<N, W> {
    /// Appends a node and returns its index.
    fn add_node(&mut self, payload: N) -> (index: usize)
        requires
            old(self).valid(),
        ensures
            final(self).valid(),
            old(self).model().tombstones_bare() ==> final(self).model().tombstones_bare(),
            index == old(self).model().nodes.len(),
            final(self).model().nodes == old(self).model().nodes.push(Some(payload)),
            final(self).model().edges == old(self).model().edges.push(Seq::empty()),
            final(self).model().root == old(self).model().root,
    ;

    /// Replaces the payload of a present node.
    fn update_node(&mut self, index: usize, payload: N) -> (done: Result<(), GraphError>)
        requires
            old(self).valid(),
        ensures
            final(self).valid(),
            old(self).model().tombstones_bare() ==> final(self).model().tombstones_bare(),
            done is Ok == old(self).model().has_node(index as int),
            done is Ok ==> final(self).model().nodes == old(self).model().nodes.update(
                index as int,
                Some(payload),
            ),
            done is Err ==> done == Err::<(), GraphError>(GraphError::NodeNotFound(index))
                && final(self).model().nodes == old(self).model().nodes,
            final(self).model().edges == old(self).model().edges,
            final(self).model().root == old(self).model().root,
    ;

    /// Appends an edge from `a` to `b`; both must be present.
    fn add_edge(&mut self, a: usize, b: usize, weight: W) -> (done: Result<(), GraphError>)
        requires
            old(self).valid(),
        ensures
            final(self).valid(),
            old(self).model().tombstones_bare() ==> final(self).model().tombstones_bare(),
            done is Ok == (old(self).model().has_node(a as int) && old(self).model().has_node(
                b as int,
            )),
            done is Ok ==> final(self).model().edges == old(self).model().edges.update(
                a as int,
                old(self).model().edges[a as int].push((b, weight)),
            ),
            done is Err ==> done == Err::<(), GraphError>(
                GraphError::EdgeCreationError { source: a, target: b },
            ) && final(self).model().edges == old(self).model().edges,
            final(self).model().nodes == old(self).model().nodes,
            final(self).model().root == old(self).model().root,
    ;

    /// Removes the first stored edge from `a` to `b`.
    fn remove_edge(&mut self, a: usize, b: usize) -> (done: Result<(), GraphError>)
        requires
            old(self).valid(),
        ensures
            final(self).valid(),
            old(self).model().tombstones_bare() ==> final(self).model().tombstones_bare(),
            final(self).model().nodes == old(self).model().nodes,
            final(self).model().root == old(self).model().root,
            !old(self).model().has_node(a as int) ==> done == Err::<(), GraphError>(
                GraphError::NodeNotFound(a),
            ),
            old(self).model().has_node(a as int) && !crate::model::row_has(
                old(self).model().edges[a as int],
                b,
            ) ==> done == Err::<(), GraphError>(
                GraphError::EdgeNotFoundError { source: a, target: b },
            ),
            old(self).model().has_node(a as int) && crate::model::row_has(
                old(self).model().edges[a as int],
                b,
            ) ==> done is Ok,
            done is Err ==> final(self).model().edges == old(self).model().edges,
            done is Ok ==> exists|k: int|
                {
                    &&& 0 <= k < old(self).model().edges[a as int].len()
                    &&& old(self).model().edges[a as int][k].0 == b
                    &&& forall|j: int| 0 <= j < k ==> old(self).model().edges[a as int][j].0 != b
                    &&& #[trigger] final(self).model().edges == old(self).model().edges.update(
                        a as int,
                        old(self).model().edges[a as int].remove(k),
                    )
                },
    ;

    /// Removes a present node: its slot becomes empty and so does its edge list.
    fn remove_node(&mut self, index: usize) -> (done: Result<(), GraphError>)
        requires
            old(self).valid(),
        ensures
            final(self).valid(),
            old(self).model().tombstones_bare() ==> final(self).model().tombstones_bare(),
            done is Ok == old(self).model().has_node(index as int),
            done is Ok ==> {
                &&& final(self).model().nodes == old(self).model().nodes.update(index as int, None)
                &&& final(self).model().edges == old(self).model().edges.update(
                    index as int,
                    Seq::empty(),
                )
                &&& final(self).model().root == if old(self).model().root == Some(index) {
                    None
                } else {
                    old(self).model().root
                }
            },
            done is Err ==> done == Err::<(), GraphError>(GraphError::NodeNotFound(index))
                && final(self).model() == old(self).model(),
    ;

    /// Appends a node and makes it the root; an earlier root stays as a node.
    fn add_root_node(&mut self, payload: N) -> (index: usize)
        requires
            old(self).valid(),
        ensures
            final(self).valid(),
            old(self).model().tombstones_bare() ==> final(self).model().tombstones_bare(),
            index == old(self).model().nodes.len(),
            final(self).model().nodes == old(self).model().nodes.push(Some(payload)),
            final(self).model().edges == old(self).model().edges.push(Seq::empty()),
            final(self).model().root == Some(index),
    ;

    /// Empties the graph: no nodes, no edges, no root.
    fn clear(&mut self)
        requires
            old(self).valid(),
        ensures
            final(self).valid(),
            old(self).model().tombstones_bare() ==> final(self).model().tombstones_bare(),
            final(self).model().nodes == Seq::<Option<N>>::empty(),
            final(self).model().edges == Seq::<Seq<(usize, W)>>::empty(),
            final(self).model().root == None::<usize>,
    ;
}

} // verus!
