//! Per-key minimum, mean and maximum over a delimited text of
//! `key;value` records, computed partition by partition.
//!
//! Measurements are held exactly, as signed counts of billionths, so that
//! every statistic is independent of the order in which records and
//! partitions are folded together. Statistics are written out rounded to one
//! decimal place.

pub mod chunk;
pub mod decimal;
pub mod error;
pub mod format;
pub mod keys;
pub mod pipeline;
pub mod planner;
pub mod records;
pub mod reduce;
pub mod scan;
pub mod station;
pub mod table;
