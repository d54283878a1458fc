pub mod graph_csm;
pub mod graph_dynamic;
