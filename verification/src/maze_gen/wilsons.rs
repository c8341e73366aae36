//! Wilson's algorithm: a spanning tree grown by loop-erased random walks.

use crate::carving::Carving;
use crate::direction::Coordinate;
use crate::maze::{Carve, Maze};
use crate::maze_gen::walk::{grow_by_walks, WalkPolicy};
use crate::spanning::{covers_grid, grows_from, is_spanning_tree};
use rand::rngs::StdRng;
use vstd::prelude::*;

verus! {

/// The number of random steps that a single walk may take before it heads straight
/// for the tree. No walk on a grid that fits into memory comes near it.
pub const WALK_BUDGET: usize = usize::MAX;

/// Whether `carves` grow a tree that has every cell of the grid from `root`, each
/// carve leading from a new cell towards the root, and the root is the first cell of
/// the end region where there is one.
pub open spec fn walk_root_ok(
    width: int,
    height: int,
    end: Seq<Coordinate>,
    carves: Seq<Carve>,
    root: Coordinate,
) -> bool {
    &&& grows_from(width, height, end, carves, true, root)
    &&& covers_grid(width, height, end, carves, true, root)
    &&& end.len() > 0 ==> root == end[0]
}

/// Whether `carves` grow a tree that has every cell of the grid, each carve leading
/// from a new cell towards the root: the end region, or some cell where the end
/// region is empty.
pub open spec fn is_walked_tree(width: int, height: int, end: Seq<Coordinate>, carves: Seq<Carve>) -> bool {
    exists|root: Coordinate| #[trigger] walk_root_ok(width, height, end, carves, root)
}

/// The carves of a maze by Wilson's algorithm. The tree starts as the end region,
/// or, where that is empty, as the first cell drawn. Cells are drawn at random; from
/// each that the tree does not cover a random walk is taken until it meets the tree,
/// loops are cut out of it as they close, and what is left is carved and joins the
/// tree.
///
/// The carves are a spanning tree of the grid, the end region taken as one place.
/// In their order they grow that tree from the end region, or from some cell where
/// the end region is empty: each carve starts at a cell that the tree did not have
/// and leads to the tree, so that every cell outside the place of the root is where
/// exactly one carve starts.
pub fn random_wilson_maze(maze: &Maze, rng: StdRng) -> (walls_to_break: Vec<Carve>)
    requires
        maze.wf(),
    ensures
        is_spanning_tree(maze.width as int, maze.height as int, maze.end@, walls_to_break@),
        is_walked_tree(maze.width as int, maze.height as int, maze.end@, walls_to_break@),
{
    let mut rng = rng;
    let mut tree = Carving::new(maze);
    if maze.end.len() > 0 {
        tree.seed(maze, maze.end[0]);
    }
    grow_by_walks(maze, &mut tree, WalkPolicy::Uniform, WALK_BUDGET, &mut rng);
    proof {
        tree.lemma_is_tree(maze);
        tree.lemma_grown(maze, true);
        assert(walk_root_ok(
            maze.width as int,
            maze.height as int,
            maze.end@,
            tree.carves@,
            tree.root.unwrap(),
        ));
    }
    tree.carves
}

} // verus!
