//! Verified core of a tool that analyzes how well bit-packed structures compress.
//!
//! The library reads bit-packed records according to a schema, gathers per-field
//! bit streams and statistics, and rearranges field data into alternative layouts
//! whose compressibility can then be compared.

pub mod analyzer;
pub mod bits;
pub mod comparison;
pub mod csv;
pub mod offset_evaluator;
pub mod results;
pub mod schema;
pub mod utils;
