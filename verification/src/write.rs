//! Sinks of rows.

pub mod csv_sink;
pub mod memory_sink;
