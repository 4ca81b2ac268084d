//! Directed-graph statistics: an adjacency-list graph built from an edge
//! list of external integer identifiers, breadth-first-search separation
//! statistics, local clustering coefficients, and extremal-degree queries.

pub mod graph;
pub mod parse;
pub mod loader;
pub mod traversal;
pub mod stats;
pub mod clustering;
pub mod report;
