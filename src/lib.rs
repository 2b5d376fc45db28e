//! In-place quicksort of `i32` vectors with Hoare partitioning, verified with Verus.
pub mod order;
pub mod sorting;

pub use sorting::{partition, quicksort, sort};
