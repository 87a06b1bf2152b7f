//! Binary-tree traversals and depth-first search over an adjacency-list
//! graph, each with a contract that Verus proves.
//!
//! The two halves are independent. [`tree`] holds the tree type and its
//! three traversals. [`graph`] holds the graph type and its search;
//! [`order`] defines the visiting order of that search as a mathematical
//! function, and [`reach`] proves which vertices the order contains.

pub mod graph;
pub mod order;
pub mod reach;
pub mod tree;
