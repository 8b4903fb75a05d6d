//! Sorted term dictionary, per-segment result collection and fork-join task
//! execution for a segmented full-text index.

pub mod codec;
pub mod collector;
pub mod executor;
pub mod fst_index;
pub mod fstmap;
pub mod segment;
