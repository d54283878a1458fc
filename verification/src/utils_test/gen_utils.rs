use crate::model::{lemma_freeze_without_tombstones, sorted_by_target};
use crate::traits::graph_evolution::Freezable;
use crate::traits::graph_mut::GraphMut;
use crate::types::graph_csm::CsmGraph;
use crate::types::graph_dynamic::DynamicGraph;
use vstd::prelude::*;

verus! {

/// A small frozen graph for examples: nodes A to E with the edges A to B (10),
/// A to C (20), B to D (30), C to D (40) and D to E (50).
pub fn create_csm_graph() -> (graph: CsmGraph<String, u32>)
    ensures
        graph.wf(),
        graph@.nodes.len() == 5,
        forall|i: int|
            0 <= i < 5 ==> ((#[trigger] graph@.nodes[i]) matches Some(name) && name@
                == sample_names()[i]),
        graph@.root is None,
        graph@.edges.len() == 5,
        forall|i: int|
            0 <= i < 5 ==> (#[trigger] graph@.edges[i]).to_multiset() == sample_edges()[i].to_multiset()
                && sorted_by_target(graph@.edges[i]),
{
    let mut dynamic_graph: DynamicGraph<String, u32> = DynamicGraph::new();
    let n0 = dynamic_graph.add_node("A".to_string());
    let n1 = dynamic_graph.add_node("B".to_string());
    let n2 = dynamic_graph.add_node("C".to_string());
    let n3 = dynamic_graph.add_node("D".to_string());
    let n4 = dynamic_graph.add_node("E".to_string());

    let _ = dynamic_graph.add_edge(n0, n1, 10);
    let _ = dynamic_graph.add_edge(n0, n2, 20);
    let _ = dynamic_graph.add_edge(n1, n3, 30);
    let _ = dynamic_graph.add_edge(n2, n3, 40);
    let _ = dynamic_graph.add_edge(n3, n4, 50);

    proof {
        let built = dynamic_graph@;
        assert(built.edges[0] =~= sample_edges()[0]);
        assert(built.edges[1] =~= sample_edges()[1]);
        assert(built.edges[2] =~= sample_edges()[2]);
        assert(built.edges[3] =~= sample_edges()[3]);
        assert(built.edges[4] =~= sample_edges()[4]);
    }
    let ghost built = dynamic_graph@;
    let graph = dynamic_graph.freeze();
    proof {
        lemma_freeze_without_tombstones(built, graph@);
    }
    graph
}

/// The names of the nodes of the sample graph.
pub open spec fn sample_names() -> Seq<Seq<char>> {
    seq!["A"@, "B"@, "C"@, "D"@, "E"@]
}

/// The adjacency lists of the sample graph.
pub open spec fn sample_edges() -> Seq<Seq<(usize, u32)>> {
    seq![
        seq![(1usize, 10u32), (2usize, 20u32)],
        seq![(3usize, 30u32)],
        seq![(3usize, 40u32)],
        seq![(4usize, 50u32)],
        Seq::empty(),
    ]
}

} // verus!
