//! A directed, weighted, in-memory graph with two forms: a mutable adjacency-list
//! form (`DynamicGraph`) and an immutable compressed-sparse-row form (`CsmGraph`).
//! `freeze` and `unfreeze` convert between them; the analysis algorithms run on
//! the frozen form.

pub mod error;
pub mod extensions;
pub mod model;
pub mod paths;
pub mod std_ext;
pub mod traits;
pub mod types;
pub mod utils_test;

pub use error::GraphError;
pub use extensions::graph_algo_ext::ParallelGraphAlgorithmsExt;
pub use model::GraphModel;
pub use traits::graph_algo::GraphAlgorithms;
pub use traits::graph_evolution::{Freezable, Unfreezable};
pub use traits::graph_mut::GraphMut;
pub use traits::graph_traversal::GraphTraversal;
pub use traits::graph_view::GraphView;
pub use types::graph_csm::CsmGraph;
pub use types::graph_dynamic::DynamicGraph;
