//! Structural statistics of a directed citation graph: out-degree centrality,
//! the most connected nodes, density, and reachability by depth-first and
//! breadth-first traversal.

pub mod buildgraph;
pub mod centrality;
pub mod density;
pub mod model;
pub mod parse;
pub mod reach;
pub mod store;
pub mod traversal;
pub mod walk;

pub use crate::buildgraph::{build_graph, CitationGraph};
pub use crate::centrality::{
    compute_degree_centrality, top_10_highly_connected_nodes, top_k_highly_connected_nodes,
};
pub use crate::density::{calculate_graph_density, Density};
pub use crate::parse::parse_line;
pub use crate::traversal::{bfs_traversal, dfs_traversal, TraversalError};
