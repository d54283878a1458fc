use next_graph::{
    CsmGraph, DynamicGraph, Freezable, GraphAlgorithms, GraphError, GraphMut, GraphTraversal,
    GraphView, ParallelGraphAlgorithmsExt, Unfreezable,
};

fn hub_with_spokes(spokes: usize) -> (CsmGraph<(), ()>, usize) {
    let mut graph = DynamicGraph::<(), ()>::new();
    for _ in 0..spokes {
        graph.add_node(());
    }
    let hub = graph.add_node(());
    // Added in descending order, so that freezing has to sort the row.
    for k in (0..spokes).rev() {
        graph.add_edge(hub, k, ()).unwrap();
    }
    (graph.freeze(), hub)
}

fn chain(length: usize, closed: bool) -> CsmGraph<usize, ()> {
    let mut graph = DynamicGraph::<usize, ()>::new();
    for i in 0..length {
        graph.add_node(i);
    }
    for i in 0..length - 1 {
        graph.add_edge(i, i + 1, ()).unwrap();
    }
    if closed {
        graph.add_edge(length - 1, 0, ()).unwrap();
    }
    graph.freeze()
}

#[test]
fn scenario_hub() {
    let (graph, hub) = hub_with_spokes(10);
    assert!(graph.contains_edge(hub, 5));
    assert!(!graph.contains_edge(hub, 99));
    let edges = graph.get_edges(hub).unwrap();
    let targets: Vec<usize> = edges.iter().map(|(t, _)| *t).collect();
    assert_eq!(targets, vec![0, 1, 2, 3, 4, 5, 6, 7, 8, 9]);
}

#[test]
fn scenario_dense_hub_uses_the_same_answers() {
    let (graph, hub) = hub_with_spokes(100);
    assert!(graph.contains_edge(hub, 50));
    assert!(!graph.contains_edge(hub, 101));
    // One row below the threshold and one above it answer alike.
    let (small, small_hub) = hub_with_spokes(63);
    let (large, large_hub) = hub_with_spokes(64);
    for b in 0..70usize {
        assert_eq!(small.contains_edge(small_hub, b), b < 63);
        assert_eq!(large.contains_edge(large_hub, b), b < 64);
    }
}

#[test]
fn scenario_chain_of_one_thousand() {
    let graph = chain(1000, false);
    let expected: Vec<usize> = (0..1000).collect();
    assert_eq!(graph.shortest_path(0, 999), Some(expected.clone()));
    assert_eq!(graph.shortest_path_len(0, 999), Some(1000));
    assert_eq!(graph.topological_sort(), Some(expected.clone()));
    assert_eq!(graph.find_cycle(), None);
    assert!(!graph.has_cycle());
    assert_eq!(graph.topological_sort_par(), Some(expected.clone()));
    assert_eq!(graph.shortest_path_len_par(0, 999), Some(1000));
    assert_eq!(graph.shortest_path_par(0, 999), Some(expected));
}

#[test]
fn scenario_closed_chain() {
    let graph = chain(1000, true);
    let cycle = graph.find_cycle().unwrap();
    assert_eq!(cycle.first(), cycle.last());
    assert_eq!(cycle.len(), 1001);
    for i in 0..1000usize {
        assert!(cycle.contains(&i));
    }
    for pair in cycle.windows(2) {
        assert!(graph.contains_edge(pair[0], pair[1]));
    }
    assert_eq!(graph.topological_sort(), None);
    assert_eq!(graph.topological_sort_par(), None);
    assert!(graph.has_cycle());
}

#[test]
fn scenario_diamond_with_tombstone() {
    let mut graph = DynamicGraph::<&str, u32>::new();
    let a = graph.add_node("A");
    let b = graph.add_node("B");
    let c = graph.add_node("C");
    let d = graph.add_node("D");
    graph.add_edge(a, b, 1).unwrap();
    graph.add_edge(a, c, 2).unwrap();
    graph.add_edge(b, d, 3).unwrap();
    graph.add_edge(c, d, 4).unwrap();
    graph.remove_node(b).unwrap();
    let frozen = graph.freeze();
    assert_eq!(frozen.number_nodes(), 3);
    assert_eq!(frozen.get_node(0), Some(&"A"));
    assert_eq!(frozen.get_node(1), Some(&"C"));
    assert_eq!(frozen.get_node(2), Some(&"D"));
    assert_eq!(frozen.number_edges(), 2);
    assert_eq!(frozen.get_edges(0).unwrap(), vec![(1, &2)]);
    assert_eq!(frozen.get_edges(1).unwrap(), vec![(2, &4)]);
    assert!(frozen.get_edges(2).unwrap().is_empty());
    assert_eq!(frozen.shortest_path(0, 2), Some(vec![0, 1, 2]));
}

#[test]
fn scenario_parallel_edges_are_kept() {
    let mut graph = DynamicGraph::<&str, u32>::new();
    let a = graph.add_node("A");
    let b = graph.add_node("B");
    let c = graph.add_node("C");
    graph.add_edge(a, b, 10).unwrap();
    graph.add_edge(a, b, 15).unwrap();
    graph.add_edge(a, c, 20).unwrap();
    let frozen = graph.freeze();
    let edges = frozen.get_edges(a).unwrap();
    let targets: Vec<usize> = edges.iter().map(|(t, _)| *t).collect();
    assert_eq!(targets, vec![b, b, c]);
    let mut weights: Vec<u32> = edges.iter().map(|(_, w)| **w).collect();
    weights.sort_unstable();
    assert_eq!(weights, vec![10, 15, 20]);
    assert_eq!(frozen.number_edges(), 3);
}

fn sample() -> DynamicGraph<String, u32> {
    let mut graph = DynamicGraph::<String, u32>::new();
    for name in ["a", "b", "c", "d", "e", "f"] {
        graph.add_node(name.to_string());
    }
    let edges: [(usize, usize, u32); 9] = [
        (0, 3, 1),
        (0, 1, 2),
        (0, 3, 3),
        (1, 4, 4),
        (3, 4, 5),
        (3, 2, 6),
        (4, 5, 7),
        (2, 5, 8),
        (0, 5, 9),
    ];
    for (a, b, w) in edges {
        graph.add_edge(a, b, w).unwrap();
    }
    graph
}

#[test]
fn round_trip_keeps_nodes_root_and_edges_as_bags() {
    let mut graph = sample();
    let root = graph.add_root_node("root".to_string());
    graph.add_edge(root, 0, 100).unwrap();
    let (nodes, edges, stored_root) = sample_with_root().to_parts();
    let (nodes_after, edges_after, root_after) = graph.freeze().unfreeze().to_parts();
    assert_eq!(nodes_after, nodes);
    assert_eq!(root_after, stored_root);
    assert_eq!(edges_after.len(), edges.len());
    for (before, after) in edges.iter().zip(edges_after.iter()) {
        let mut expected = before.clone();
        expected.sort();
        let mut got = after.clone();
        got.sort();
        assert_eq!(got, expected);
        let targets: Vec<usize> = after.iter().map(|(t, _)| *t).collect();
        let mut ordered = targets.clone();
        ordered.sort();
        assert_eq!(targets, ordered);
    }
}

fn sample_with_root() -> DynamicGraph<String, u32> {
    let mut graph = sample();
    let root = graph.add_root_node("root".to_string());
    graph.add_edge(root, 0, 100).unwrap();
    graph
}

#[test]
fn frozen_rows_are_sorted_in_both_directions() {
    let graph = sample().freeze();
    for i in 0..graph.number_nodes() {
        let out = graph.outbound_edges(i).unwrap().to_vec();
        let mut sorted = out.clone();
        sorted.sort();
        assert_eq!(out, sorted);
        let inc = graph.inbound_edges(i).unwrap().to_vec();
        let mut sorted = inc.clone();
        sorted.sort();
        assert_eq!(inc, sorted);
    }
    assert_eq!(graph.outbound_edges(0).unwrap().to_vec(), vec![1, 3, 3, 5]);
    assert_eq!(graph.inbound_edges(5).unwrap().to_vec(), vec![0, 2, 4]);
    assert_eq!(graph.inbound_edges(3).unwrap().to_vec(), vec![0, 0]);
}

#[test]
fn both_directions_hold_the_same_edges() {
    let graph = sample().freeze();
    let n = graph.number_nodes();
    let mut forward: Vec<(usize, usize)> = Vec::new();
    let mut backward: Vec<(usize, usize)> = Vec::new();
    for u in 0..n {
        for v in graph.outbound_edges(u).unwrap() {
            forward.push((u, *v));
        }
        for w in graph.inbound_edges(u).unwrap() {
            backward.push((*w, u));
        }
    }
    forward.sort();
    backward.sort();
    assert_eq!(forward, backward);
    assert_eq!(forward.len(), graph.number_edges());
    let (_, backward_edges) = (&graph.forward_edges, &graph.backward_edges);
    assert_eq!(backward_edges.targets.len(), graph.number_edges());
    // Row 3 of the backward structure mirrors the two edges from 0 to 3.
    let start = backward_edges.offsets[3];
    let end = backward_edges.offsets[4];
    let mut weights: Vec<u32> = backward_edges.weights[start..end].to_vec();
    weights.sort();
    assert_eq!(weights, vec![1, 3]);
}

#[test]
fn freezing_drops_removed_nodes_and_their_edges() {
    let mut graph = sample();
    graph.remove_node(3).unwrap();
    graph.remove_node(0).unwrap();
    assert_eq!(graph.number_nodes(), 4);
    let frozen = graph.freeze();
    assert_eq!(frozen.number_nodes(), 4);
    // Left: b=0, c=1, e=2, f=3 with b→e, e→f, c→f.
    assert_eq!(frozen.number_edges(), 3);
    assert_eq!(frozen.get_edges(0).unwrap(), vec![(2, &4)]);
    assert_eq!(frozen.get_edges(1).unwrap(), vec![(3, &8)]);
    assert_eq!(frozen.get_edges(2).unwrap(), vec![(3, &7)]);
    assert!(frozen.get_edges(3).unwrap().is_empty());
    assert_eq!(frozen.get_edges(4), None);
}

#[test]
fn topological_order_puts_every_source_before_its_target() {
    let graph = sample().freeze();
    let order = graph.topological_sort().unwrap();
    assert_eq!(order, vec![0, 1, 3, 2, 4, 5]);
    let mut seen = order.clone();
    seen.sort();
    assert_eq!(seen, vec![0, 1, 2, 3, 4, 5]);
    for u in 0..6usize {
        for v in graph.outbound_edges(u).unwrap() {
            let at_u = order.iter().position(|x| *x == u).unwrap();
            let at_v = order.iter().position(|x| x == v).unwrap();
            assert!(at_u < at_v);
        }
    }
    assert_eq!(graph.topological_sort_par(), Some(vec![0, 1, 3, 2, 4, 5]));
}

#[test]
fn level_order_sorts_each_level() {
    // 0 → 3 and 1 → 2: released in the order 3, 2, but listed ascending within the level.
    let mut graph = DynamicGraph::<(), ()>::new();
    for _ in 0..4 {
        graph.add_node(());
    }
    graph.add_edge(0, 3, ()).unwrap();
    graph.add_edge(1, 2, ()).unwrap();
    let frozen = graph.freeze();
    assert_eq!(frozen.topological_sort(), Some(vec![0, 1, 3, 2]));
    assert_eq!(frozen.topological_sort_par(), Some(vec![0, 1, 2, 3]));
}

#[test]
fn shortest_paths_count_nodes() {
    let graph = sample().freeze();
    assert_eq!(graph.shortest_path_len(2, 2), Some(1));
    assert_eq!(graph.shortest_path_len(0, 1), Some(2));
    assert_eq!(graph.shortest_path_len(5, 0), None);
    assert_eq!(graph.shortest_path_len(0, 5), Some(2));
    assert_eq!(graph.shortest_path_len(0, 2), Some(3));
    assert_eq!(graph.shortest_path(0, 2), Some(vec![0, 3, 2]));
    assert_eq!(graph.shortest_path(0, 4), Some(vec![0, 1, 4]));
    for s in 0..7usize {
        for t in 0..7usize {
            let length = graph.shortest_path_len(s, t);
            let path = graph.shortest_path(s, t);
            assert_eq!(path.as_ref().map(|p| p.len()), length);
            assert_eq!(graph.is_reachable(s, t), length.is_some());
            if let Some(nodes) = path {
                assert_eq!(nodes[0], s);
                assert_eq!(nodes[nodes.len() - 1], t);
                for pair in nodes.windows(2) {
                    assert!(graph.contains_edge(pair[0], pair[1]));
                }
            }
        }
    }
}

#[test]
fn cycle_answers_agree() {
    let acyclic = sample().freeze();
    assert!(!acyclic.has_cycle());
    assert!(acyclic.topological_sort().is_some());
    assert!(acyclic.find_cycle().is_none());
    let mut looped = sample();
    looped.add_edge(5, 3, 0).unwrap();
    let cyclic = looped.freeze();
    assert!(cyclic.has_cycle());
    assert!(cyclic.topological_sort().is_none());
    let cycle = cyclic.find_cycle().unwrap();
    assert_eq!(cycle, vec![5, 3, 2, 5]);
    // A self-loop below the root of the search is reported as the node twice.
    let mut nested = DynamicGraph::<(), ()>::new();
    nested.add_node(());
    nested.add_node(());
    nested.add_edge(0, 1, ()).unwrap();
    nested.add_edge(1, 1, ()).unwrap();
    assert_eq!(nested.freeze().find_cycle(), Some(vec![1, 1]));
}

#[test]
fn level_search_agrees_with_sequential_search() {
    let graph = sample().freeze();
    for s in 0..7usize {
        for t in 0..7usize {
            assert_eq!(graph.shortest_path_len_par(s, t), graph.shortest_path_len(s, t));
            assert_eq!(graph.is_reachable_par(s, t), graph.is_reachable(s, t));
            let path = graph.shortest_path_par(s, t);
            assert_eq!(path.as_ref().map(|p| p.len()), graph.shortest_path_len(s, t));
        }
    }
    assert_eq!(
        graph.topological_sort_par().is_some(),
        graph.topological_sort().is_some()
    );
}

#[test]
fn every_error_names_the_indices_it_is_about() {
    let mut graph = DynamicGraph::<u8, u8>::new();
    let a = graph.add_node(1);
    assert_eq!(graph.update_node(7, 0), Err(GraphError::NodeNotFound(7)));
    assert_eq!(
        graph.add_edge(a, 7, 0),
        Err(GraphError::EdgeCreationError { source: a, target: 7 })
    );
    assert_eq!(
        graph.remove_edge(a, a),
        Err(GraphError::EdgeNotFoundError { source: a, target: a })
    );
    assert_eq!(graph.remove_node(7), Err(GraphError::NodeNotFound(7)));
    let frozen = graph.freeze();
    assert_eq!(frozen.outbound_edges(3).err(), Some(GraphError::NodeNotFound(3)));
    assert_eq!(frozen.inbound_edges(3).err(), Some(GraphError::NodeNotFound(3)));
    assert_ne!(GraphError::GraphContainsCycle, GraphError::NodeNotFound(0));
}

#[test]
fn remove_edge_takes_the_first_of_parallel_edges() {
    let mut graph = DynamicGraph::<(), u32>::new();
    let a = graph.add_node(());
    let b = graph.add_node(());
    graph.add_edge(a, b, 1).unwrap();
    graph.add_edge(a, a, 2).unwrap();
    graph.add_edge(a, b, 3).unwrap();
    graph.remove_edge(a, b).unwrap();
    assert_eq!(graph.get_edges(a).unwrap(), vec![(a, &2), (b, &3)]);
    graph.clear();
    assert_eq!(graph.number_nodes(), 0);
    assert_eq!(graph.get_root_index(), None);
}

#[test]
fn stale_root_is_not_reported() {
    let graph = DynamicGraph::<u8, u8>::from_parts(vec![Some(1), None], vec![vec![], vec![]], Some(1));
    assert_eq!(graph.root_index(), Some(1));
    assert_eq!(graph.get_root_index(), None);
    assert!(!graph.contains_root_node());
    assert_eq!(graph.freeze().get_root_index(), None);
}

#[test]
fn shortest_path_is_the_first_in_lexicographic_order() {
    // Three shortest paths from 0 to 5: 0-1-4-5, 0-2-3-5 and 0-2-4-5.
    let mut graph = DynamicGraph::<(), ()>::new();
    for _ in 0..6 {
        graph.add_node(());
    }
    for (a, b) in [(0, 2), (0, 1), (2, 4), (2, 3), (1, 4), (4, 5), (3, 5)] {
        graph.add_edge(a, b, ()).unwrap();
    }
    let frozen = graph.freeze();
    assert_eq!(frozen.shortest_path(0, 5), Some(vec![0, 1, 4, 5]));
    assert_eq!(frozen.shortest_path(2, 5), Some(vec![2, 3, 5]));
    assert_eq!(frozen.shortest_path_par(0, 5).map(|p| p.len()), Some(4));
}

#[test]
fn kahn_lists_nodes_behind_their_last_predecessor() {
    // 0 and 1 have no predecessor; 4 follows 0, 2 and 3 follow 1, 5 follows 4.
    let mut graph = DynamicGraph::<(), ()>::new();
    for _ in 0..6 {
        graph.add_node(());
    }
    for (a, b) in [(1, 3), (1, 2), (0, 4), (0, 3), (4, 5), (2, 5)] {
        graph.add_edge(a, b, ()).unwrap();
    }
    let frozen = graph.freeze();
    assert_eq!(frozen.topological_sort(), Some(vec![0, 1, 4, 2, 3, 5]));
    assert_eq!(frozen.topological_sort_par(), Some(vec![0, 1, 2, 3, 4, 5]));
}

#[test]
fn long_rows_keep_their_weights_when_sorted_by_counting() {
    let spokes: usize = 300;
    let mut graph = DynamicGraph::<(), usize>::new();
    let hub = graph.add_node(());
    for _ in 0..spokes {
        graph.add_node(());
    }
    // Descending targets, each edge twice with different weights, and short rows beside the long one.
    for k in (1..=spokes).rev() {
        graph.add_edge(hub, k, k * 10).unwrap();
        graph.add_edge(hub, k, k * 10 + 1).unwrap();
        graph.add_edge(k, hub, k).unwrap();
    }
    let frozen = graph.freeze();
    assert_eq!(frozen.number_edges(), 3 * spokes);
    let edges = frozen.get_edges(hub).unwrap();
    assert_eq!(edges.len(), 2 * spokes);
    for k in 1..=spokes {
        let first = edges[2 * (k - 1)];
        let second = edges[2 * (k - 1) + 1];
        assert_eq!(first.0, k);
        assert_eq!(second.0, k);
        let mut weights = vec![*first.1, *second.1];
        weights.sort();
        assert_eq!(weights, vec![k * 10, k * 10 + 1]);
        assert_eq!(frozen.get_edges(k).unwrap(), vec![(hub, &k)]);
    }
    let sources: Vec<usize> = frozen.inbound_edges(hub).unwrap().to_vec();
    let expected: Vec<usize> = (1..=spokes).collect();
    assert_eq!(sources, expected);
    assert_eq!(frozen.inbound_edges(7).unwrap().to_vec(), vec![hub, hub]);
}

#[test]
fn freezing_a_large_hub_takes_linear_time() {
    let spokes: usize = 200_000;
    let mut graph = DynamicGraph::<(), ()>::with_capacity(spokes + 1, None);
    let hub = graph.add_node(());
    for _ in 0..spokes {
        graph.add_node(());
    }
    for k in (1..=spokes).rev() {
        graph.add_edge(hub, k, ()).unwrap();
    }
    let frozen = graph.freeze();
    assert_eq!(frozen.number_edges(), spokes);
    assert!(frozen.contains_edge(hub, spokes));
    assert!(!frozen.contains_edge(hub, spokes + 1));
    assert_eq!(frozen.outbound_edges(hub).unwrap()[0], 1);
    assert_eq!(frozen.shortest_path_len(hub, spokes), Some(2));
}
