//! Maze generation: algorithms that return the carves which turn a fully walled grid
//! into a maze.

pub mod binary_tree;
pub mod growing_tree;
pub mod kruzkals;
pub mod maze_gen;
pub mod maze_gen_handler;
pub mod walk;
pub mod wilsons;
