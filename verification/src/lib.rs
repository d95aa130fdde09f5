//! Two indexed structures over a fixed universe of integer positions:
//! a range-minimum tree with point updates, and a disjoint-set forest
//! with path compression.

pub mod forest;
pub mod heap_layout;
pub mod range_min;
pub mod segment;
pub mod union_find;
