//! A byte-addressable memory model: a flat address space of equal-size
//! cells, and a partitioned view that reports how many bytes are occupied in
//! each bin, backed by an interval tree that answers range-occupancy queries
//! in logarithmic time.

pub mod memory;
pub mod utils;
