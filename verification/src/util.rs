//! Helpers shared by the data model, the sources and the sinks.

pub mod csv_util;
pub mod decimal;
pub mod float_order;
