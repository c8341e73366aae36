//! Grid mazes: generation, braiding, compaction into a weighted decision
//! graph, path finding, and an agent that walks a maze run by run.

pub mod direction;
pub mod walls;
pub mod maze;
pub mod braiding;
pub mod coordinate_map;
pub mod coordinate_set;
pub mod compaction;
pub mod connectivity;
pub mod reachability;
pub mod spanning;
pub mod perfect;
pub mod carving;
pub mod rng;
pub mod disjoint_sets;
pub mod maze_gen;
pub mod environment_config;
pub mod environment;
pub mod exploring_algorithms;
pub mod solving_algorithms;
pub mod maze_solve;
pub mod generation;
pub mod text;
pub mod file_names;
pub mod screens;
