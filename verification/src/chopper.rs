//! The data model, the merge and the routing graph.

pub mod chopper;
pub mod data_graph;
pub mod driver;
pub mod header_graph;
pub mod merge;
pub mod types;
