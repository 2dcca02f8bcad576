//! A small dialog-tree library: a graph of named dialog nodes (narration,
//! branching responses, end states) together with a runner that steps
//! through the graph, accumulating a score from chosen responses.

pub mod model;
pub mod runner;
