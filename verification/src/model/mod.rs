//! Changed files, their diffs and what has been seen of them.

pub mod diff;
pub mod file;
pub mod review;
pub mod snapshot;
pub mod tree;
pub mod tree_laws;
pub mod tree_order;
