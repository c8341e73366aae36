//! How many mazes fit on a screen side by side, and when all of them are done.

use vstd::prelude::*;

verus! {

/// The number of rows and of columns of mazes that fit on a screen: the height of
/// the screen by the height of a maze, and the width by the width. Sizes are given as
/// width and height.
pub fn calculate_number_of_potential_screens(screen_size: (usize, usize), maze_size: (usize, usize)) -> (r:
    (usize, usize))
    requires
        maze_size.0 > 0,
        maze_size.1 > 0,
    ensures
        r.0 == screen_size.1 / maze_size.1,
        r.1 == screen_size.0 / maze_size.0,
{
    (screen_size.1 / maze_size.1, screen_size.0 / maze_size.0)
}

/// Whether every flag is set.
pub fn is_array_all_true(bools: &[bool]) -> (r: bool)
    ensures
        r == (forall|i: int| 0 <= i < bools@.len() ==> bools@[i]),
{
    let mut i: usize = 0;
    while i < bools.len()
        invariant
            i <= bools@.len(),
            forall|j: int| 0 <= j < i ==> bools@[j],
        decreases bools@.len() - i,
    {
        if !bools[i] {
            return false;
        }
        i += 1;
    }
    true
}

} // verus!
