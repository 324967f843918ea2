//! A link graph over web pages: URL normalisation, block-packed adjacency
//! storage with forward and reverse traversal, shortest-path distances,
//! the integer part of harmonic centrality, and the decisions of a
//! map-reduce coordinator.
pub mod text;
pub mod url;
pub mod adjacency;
pub mod graph;
pub mod edge_iter;
pub mod distance;
pub mod webgraph;
pub mod mapreduce;
pub mod frame;
pub mod persist;
