//! Path finding over the weighted graph of an environment.

pub mod corridors;
pub mod dfs_search;
pub mod dijkstra;
pub mod routes;
pub mod solve_handler;
