//! Pathfinding and puzzle algorithms over a small square board of typed cells:
//! a forward-star graph builder, an A* resolver (single and multi target), an
//! all-simple-paths depth-first enumerator and a Chinese Rings solver.

pub mod error;
pub mod graph;
pub mod a_star;
pub mod dfs;
pub mod chinese_rings;
