//! Maze-mapping and navigation engine for an autonomous exploration robot.
//!
//! The engine incrementally builds a topological map of an unknown bounded
//! grid from local wall observations, decides the next move with a greedy
//! wall-following scan, falls back to a breadth-first search when local
//! exploration stalls, and recovers from failure by returning to the last
//! checkpoint.

pub mod cell;
pub mod geometry;
pub mod maze;
pub mod policy;
pub mod render;
pub mod search;
pub mod shift;
