//! The choice between the generation algorithms.

use crate::maze::{Carve, Maze};
use crate::maze_gen::binary_tree::{is_binary_tree_maze, random_binary_maze};
use crate::maze_gen::growing_tree::{
    growing_tree_maze, is_growing_tree_maze, LastAdded, UniformRandom,
};
use crate::maze_gen::kruzkals::{is_kruzkals_maze, random_kruzkals_maze};
use crate::maze_gen::wilsons::{is_walked_tree, random_wilson_maze};
use crate::rng::{rng_from_entropy, rng_from_seed};
use crate::spanning::{has_single_door, is_carve_list, is_spanning_tree, outside_hangs_together};
use crate::text::{is_name, lowercase, spec_lowercase};
use rand::rngs::StdRng;
use std::str::FromStr;
use vstd::prelude::*;

verus! {

/// The generation algorithms on offer.
#[derive(Debug, Clone, Copy, PartialEq, Eq, Hash, Structural)]
pub enum MazeType {
    /// Randomized Kruskal's algorithm.
    Kruzkals,
    /// Wilson's algorithm.
    Wilsons,
    /// The growing tree that always grows from the cell added last.
    RecursiveBacktracker,
    /// The growing tree that grows from an active cell drawn at random.
    Prims,
    /// The binary-tree algorithm.
    BinaryTree,
}

impl Default for MazeType {
    fn default() -> (r: MazeType)
        ensures
            r == MazeType::BinaryTree,
    {
        MazeType::BinaryTree
    }
}

impl FromStr for MazeType {
    type Err = ();

    fn from_str(s: &str) -> (r: Result<MazeType, ()>)
        ensures
            r == (match MazeType::spec_from_name(spec_lowercase(s@)) {
                Some(algorithm) => Ok::<MazeType, ()>(algorithm),
                None => Err::<MazeType, ()>(()),
            }),
    {
        match MazeType::from_name(s) {
            Some(algorithm) => Ok(algorithm),
            None => Err(()),
        }
    }
}

impl MazeType {
    /// The algorithm that goes by the name `lower`, a name in small letters.
    pub open spec fn spec_from_name(lower: Seq<char>) -> Option<MazeType> {
        if lower == "kruzkals"@ {
            Some(MazeType::Kruzkals)
        } else if lower == "wilsons"@ {
            Some(MazeType::Wilsons)
        } else if lower == "recursivebacktracker"@ {
            Some(MazeType::RecursiveBacktracker)
        } else if lower == "prims"@ {
            Some(MazeType::Prims)
        } else if lower == "binarytree"@ {
            Some(MazeType::BinaryTree)
        } else {
            None
        }
    }

    /// The algorithm whose name, written in small letters, is `lower`.
    pub fn from_lowered_name(lower: &str) -> (r: Option<MazeType>)
        ensures
            r == MazeType::spec_from_name(lower@),
    {
        let text = lower.to_owned();
        if is_name(&text, "kruzkals") {
            Some(MazeType::Kruzkals)
        } else if is_name(&text, "wilsons") {
            Some(MazeType::Wilsons)
        } else if is_name(&text, "recursivebacktracker") {
            Some(MazeType::RecursiveBacktracker)
        } else if is_name(&text, "prims") {
            Some(MazeType::Prims)
        } else if is_name(&text, "binarytree") {
            Some(MazeType::BinaryTree)
        } else {
            None
        }
    }

    /// The algorithm that goes by the name `s`, in letters large or small.
    pub fn from_name(s: &str) -> (r: Option<MazeType>)
        ensures
            r == MazeType::spec_from_name(spec_lowercase(s@)),
    {
        let lower = lowercase(s);
        MazeType::from_lowered_name(lower.as_str())
    }

    /// Whether the algorithm lets the tree leave the end region by one door only.
    pub open spec fn keeps_single_door(self) -> bool {
        self == MazeType::Kruzkals || self == MazeType::RecursiveBacktracker || self
            == MazeType::Prims
    }
}

/// What the carves of `algorithm` for `maze` have of their own, on every grid, cut
/// by the end region or not.
pub open spec fn is_maze_by(algorithm: MazeType, maze: &Maze, carves: Seq<Carve>) -> bool {
    let width = maze.width as int;
    let height = maze.height as int;
    match algorithm {
        MazeType::Wilsons => is_walked_tree(width, height, maze.end@, carves),
        MazeType::BinaryTree => is_binary_tree_maze(width, height, maze.end@, carves),
        MazeType::Kruzkals => is_kruzkals_maze(width, height, maze.end@, carves),
        MazeType::RecursiveBacktracker => is_growing_tree_maze(maze, carves),
        MazeType::Prims => is_growing_tree_maze(maze, carves),
    }
}

/// A generator seeded with `seed`, or with what the machine offers where none is
/// given.
fn make_rng(rng_seed: Option<u64>) -> StdRng {
    match rng_seed {
        Some(seed) => rng_from_seed(seed),
        None => rng_from_entropy(),
    }
}

/// The carves of a maze by the chosen algorithm, drawn with a generator seeded with
/// `rng_seed`, or seeded by the machine where none is given.
///
/// The carves name each wall of the grid at most once and none inside the end
/// region. By Wilson's and by the binary-tree algorithm they are a spanning tree of
/// the grid, the end region taken as one place. The other algorithms cross the
/// border of the end region once at most, and give a spanning tree wherever that
/// allows one: where the cells outside the end region hang together. What each
/// algorithm gives besides, also where the end region cuts the grid, is said by
/// [`is_maze_by`].
pub fn select_maze_algorithm(maze: &Maze, rng_seed: Option<u64>, algorithm: &MazeType) -> (carves:
    Vec<Carve>)
    requires
        maze.wf(),
    ensures
        is_carve_list(maze.width as int, maze.height as int, maze.end@, carves@),
        algorithm.keeps_single_door() ==> has_single_door(maze.end@, carves@),
        !algorithm.keeps_single_door() || outside_hangs_together(
            maze.width as int,
            maze.height as int,
            maze.end@,
        ) ==> is_spanning_tree(maze.width as int, maze.height as int, maze.end@, carves@),
        is_maze_by(*algorithm, maze, carves@),
{
    let rng = make_rng(rng_seed);
    match algorithm {
        MazeType::Wilsons => random_wilson_maze(maze, rng),
        MazeType::Kruzkals => random_kruzkals_maze(maze, rng),
        MazeType::RecursiveBacktracker => {
            let mut chooser = LastAdded;
            growing_tree_maze(maze, rng, &mut chooser)
        },
        MazeType::BinaryTree => random_binary_maze(maze, rng),
        MazeType::Prims => {
            let mut chooser = UniformRandom { rng: make_rng(rng_seed) };
            growing_tree_maze(maze, rng, &mut chooser)
        },
    }
}

} // verus!
