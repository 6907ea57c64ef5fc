//! PageRank over a directed graph that is built one link at a time.
//!
//! [`Pagerank`] maps arbitrary node identifiers to dense indices, keeps the
//! reverse adjacency and the out-degree of every node, and hands both out to
//! the numerical kernel that iterates over them.
pub mod errors;
pub mod graph;
pub mod history;
pub mod pagerank;

pub use errors::PagerankError;
pub use graph::Graph;
pub use pagerank::Pagerank;
