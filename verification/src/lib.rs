//! Co-occurrence graph of heroes and the statistics computed over it.
//!
//! Two heroes are linked when they share at least one comic. The graph is
//! stored in a `petgraph` graph; every function that builds or reads it is
//! verified against a mathematical model of nodes, appearance counts and
//! undirected edges.

pub mod analytics;
pub mod builder;
pub mod graph;
pub mod links;
pub mod model;
pub mod order;
pub mod pairs;
pub mod reach;
pub mod read;
pub mod store;
