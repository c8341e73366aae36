//! The binary-tree algorithm: every place carves north or east.

use crate::carving::Carving;
use crate::direction::{Coordinate, Direction};
use crate::maze::{Carve, Maze};
use crate::maze_gen::walk::{grow_by_walks, WalkPolicy};
use crate::maze_gen::wilsons::WALK_BUDGET;
use crate::spanning::{covers_grid, grows_from, is_spanning_tree};
use rand::rngs::StdRng;
use vstd::prelude::*;

verus! {

/// What holds of the carves that the binary-tree algorithm gives, besides being a
/// spanning tree: every carve leads north or east, and in their order the carves grow
/// a tree that has every cell from the north-east corner, each carve leading from a
/// new place to the tree.
pub open spec fn is_binary_tree_maze(width: int, height: int, end: Seq<Coordinate>, carves: Seq<Carve>) -> bool {
    let corner: Coordinate = ((width - 1) as usize, 0usize);
    &&& forall|i: int|
        0 <= i < carves.len() ==> (#[trigger] carves[i]).1 == Direction::North || carves[i].1
            == Direction::East
    &&& grows_from(width, height, end, carves, true, corner)
    &&& covers_grid(width, height, end, carves, true, corner)
}

/// The carves of a maze by the binary-tree algorithm. The tree starts as the
/// north-east corner. Cells are drawn at random; from each that the tree does not
/// cover a walk is taken that goes north or east at every step, by the toss of a coin
/// where both are open to it, until it meets the tree, and is carved. A step off
/// the grid is never taken, and a step into the end region only where the walker has
/// no other; the end region itself is left by one carve, like any other place. The
/// carves are a spanning tree of the grid, the end region taken as one place, with
/// passages that run north and east. In their order they grow that tree from the
/// corner, each carve leading from a new place to the tree.
pub fn random_binary_maze(maze: &Maze, rng: StdRng) -> (walls_to_break: Vec<Carve>)
    requires
        maze.wf(),
    ensures
        is_spanning_tree(maze.width as int, maze.height as int, maze.end@, walls_to_break@),
        forall|i: int|
            0 <= i < walls_to_break@.len() ==> (#[trigger] walls_to_break@[i]).1 == Direction::North
                || walls_to_break@[i].1 == Direction::East,
        grows_from(
            maze.width as int,
            maze.height as int,
            maze.end@,
            walls_to_break@,
            true,
            ((maze.width - 1) as usize, 0usize),
        ),
        covers_grid(
            maze.width as int,
            maze.height as int,
            maze.end@,
            walls_to_break@,
            true,
            ((maze.width - 1) as usize, 0usize),
        ),
{
    let mut rng = rng;
    let mut tree = Carving::new(maze);
    tree.seed(maze, (maze.width - 1, 0));
    proof {
        let w = maze.width as int;
        let h = maze.height as int;
        assert(w + h - 1 <= w * h) by (nonlinear_arith)
            requires
                w >= 1,
                h >= 1,
        ;
    }
    grow_by_walks(maze, &mut tree, WalkPolicy::NorthEast, WALK_BUDGET, &mut rng);
    proof {
        tree.lemma_is_tree(maze);
        tree.lemma_grown(maze, true);
    }
    tree.carves
}

} // verus!
