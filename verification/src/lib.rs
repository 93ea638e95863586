//! Classic in-memory data structures with verified contracts.
//!
//! The centerpiece is a self-balancing binary search tree (`avl_tree`);
//! alongside it stand an order-`n` search tree (`binary_tree`), a binary
//! heap, a singly linked stack and queue, and an adjacency-map graph.

pub mod avl_tree;
pub mod binary_tree;
pub mod graph;
pub mod heap;
pub mod queue;
pub mod stack;
