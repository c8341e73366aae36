//! The two oldest generators, drawing from the generator of the thread.

use crate::direction::{Coordinate, Direction};
use crate::maze::{end_block, Carve, Maze};
use crate::maze_gen::kruzkals;
use crate::maze_gen::wilsons;
use crate::rng::rng_from_entropy;
use crate::spanning::{is_spanning_tree, outside_hangs_together};
use vstd::prelude::*;

verus! {

/// A fully walled maze with its end region around the middle and its start in the
/// south-west corner.
pub fn init_maze(width: usize, height: usize) -> (maze: Maze)
    requires
        width >= 1,
        height >= 1,
        width * height <= usize::MAX,
    ensures
        maze.wf(),
        maze.width == width,
        maze.height == height,
        maze.start == (0usize, (height - 1) as usize),
        maze.end@ == end_block(width as int, height as int, (width / 2, height / 2)),
        forall|c: Coordinate, d: Direction| maze.contains(c) ==> maze.wall(c, d),
        maze.walls_consistent(),
{
    Maze::init_maze(width, height)
}

/// The carves of a maze by Wilson's algorithm, a spanning tree of the grid; see
/// [`wilsons::random_wilson_maze`]. The maze itself is left as it is.
pub fn random_wilson_maze(maze: &mut Maze) -> (walls_to_break: Vec<Carve>)
    requires
        old(maze).wf(),
    ensures
        *final(maze) == *old(maze),
        is_spanning_tree(
            old(maze).width as int,
            old(maze).height as int,
            old(maze).end@,
            walls_to_break@,
        ),
        wilsons::is_walked_tree(
            old(maze).width as int,
            old(maze).height as int,
            old(maze).end@,
            walls_to_break@,
        ),
{
    wilsons::random_wilson_maze(maze, rng_from_entropy())
}

/// The carves of a maze by randomized Kruskal's algorithm; see
/// [`kruzkals::random_kruzkals_maze`]. The maze itself is left as it is.
pub fn random_kruzkals_maze(maze: &mut Maze) -> (walls_to_break: Vec<Carve>)
    requires
        old(maze).wf(),
    ensures
        *final(maze) == *old(maze),
        kruzkals::is_kruzkals_maze(
            old(maze).width as int,
            old(maze).height as int,
            old(maze).end@,
            walls_to_break@,
        ),
        outside_hangs_together(old(maze).width as int, old(maze).height as int, old(maze).end@)
            ==> is_spanning_tree(
            old(maze).width as int,
            old(maze).height as int,
            old(maze).end@,
            walls_to_break@,
        ),
{
    kruzkals::random_kruzkals_maze(maze, rng_from_entropy())
}

} // verus!
