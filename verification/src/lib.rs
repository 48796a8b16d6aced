//! Per-station minimum, mean and maximum over `name;temperature` records.
//!
//! The input is a byte slice of newline-terminated records. It is cut into
//! record-aligned ranges, each range is folded into a table of running
//! statistics, the tables are merged, and the merged table is rendered as one
//! sorted line. Temperatures are fixed-point integers (tenths of a degree)
//! from the first byte to the last.

pub mod batch;
pub mod merge;
pub mod pipeline;
pub mod plan;
pub mod record;
pub mod report;
pub mod scan;
pub mod stats;
pub mod totals;
