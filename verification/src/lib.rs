//! Compare two sets of micro-benchmark measurements.
//!
//! The crate parses the line-oriented output of a benchmark run into
//! records, pairs records from an "old" and a "new" run that share a name,
//! and computes the per-pair deltas, with the matching, arithmetic and
//! formatting rules stated as contracts.
pub mod text;
pub mod benchmark;
pub mod normalize;
pub mod overlap;
pub mod parse;
pub mod utils;
