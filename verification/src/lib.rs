//! An in-memory weighted-graph shortest-path engine.
//!
//! A `Graph` holds location nodes and an undirected, weighted adjacency
//! structure; `shortest_path` computes the minimum total edge weight between
//! two node ids with a priority-ordered relaxation algorithm, returning
//! `i32::MAX` as the sentinel for an unreachable target.

pub mod graph;
pub mod paths;
pub mod shortest;
pub mod laws;
