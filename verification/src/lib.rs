//! A snake that steers itself across a bounded grid: the arena state, the
//! breadth-first path planner and the decisions of the behaviour tree.

pub mod arena;
pub mod bfs;
pub mod blackboard;
pub mod render;
pub mod tree;
