//! Side-by-side comparison of two line-oriented byte buffers.

pub mod lines;
pub mod row;
pub mod reconcile;
pub mod script;
pub mod side_diff;
