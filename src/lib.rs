//! Verified data structures and algorithms: an adjacency-list graph with
//! depth-first and breadth-first traversal and shortest paths, comparison
//! sorts, a binary search tree, and several kinds of lists.
pub mod graph;
pub mod walk;
pub mod shortest;
pub mod sorting;
pub mod stack;
pub mod bst;
pub mod deque;
pub mod doubly_linked_list;
pub mod singly_linked_list;
pub mod persistent_list;
pub mod linked_list;
