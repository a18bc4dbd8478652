//! Sources of rows and how they are configured.

pub mod csv_configs;
pub mod csv_reader;
pub mod memory_source;
