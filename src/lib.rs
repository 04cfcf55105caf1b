//! Textbook algorithms with machine-checked contracts: an in-place quicksort,
//! an unbalanced binary search tree, and breadth-first shortest paths.

pub mod bfs;
pub mod order;
pub mod queue;
pub mod sort;
pub mod tree;
