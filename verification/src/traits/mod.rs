pub mod graph_algo;
pub mod graph_evolution;
pub mod graph_mut;
pub mod graph_traversal;
pub mod graph_view;
