pub mod frontier;
pub mod graph_algo_ext;
pub mod kahn_levels;
