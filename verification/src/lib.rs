//! Merging of ordered, timestamped tabular streams into sinks.
//!
//! Rows come from several sources, each ordered by time. The driver interleaves
//! them into one stream ordered by time, keeps the rows inside an optional time
//! window, and hands them to a graph of sinks once every sink has seen its header.

pub mod chopper;
pub mod error;
pub mod source;
pub mod util;
pub mod write;
