//! Depth-of-coverage statistics over genomic regions.
//!
//! The library resolves region specifiers, turns per-position depth values
//! into run-length encoded runs, and reduces those runs into exact integer
//! statistics (totals, threshold coverage, percentile depth).
pub mod bed;
pub mod bytes;
pub mod partition;
pub mod region;
pub mod run;
pub mod scan;
pub mod select;
pub mod stats;
