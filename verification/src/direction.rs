//! The four compass directions and the arithmetic on them.

use crate::rng::random_below;
use rand::rngs::StdRng;
use vstd::prelude::*;

verus! {

/// A cell of a grid, as column `x` and row `y`. Rows grow towards the south.
pub type Coordinate = (usize, usize);

/// One of the four ways out of a cell.
#[derive(Debug, Clone, Copy, PartialEq, Eq, Hash, Structural)]
pub enum Direction {
    North,
    East,
    South,
    West,
}

/// The direction in which `to` lies as seen from `from`, as a model on integers: defined
/// when the two differ along exactly one axis.
pub open spec fn spec_direction_between(from: Coordinate, to: Coordinate) -> Option<Direction> {
    if from.0 == to.0 && from.1 < to.1 {
        Some(Direction::South)
    } else if from.0 == to.0 && from.1 > to.1 {
        Some(Direction::North)
    } else if from.1 == to.1 && from.0 < to.0 {
        Some(Direction::East)
    } else if from.1 == to.1 && from.0 > to.0 {
        Some(Direction::West)
    } else {
        None
    }
}

/// The direction of travel from `from` to `to`, if they share a row or a column and differ.
pub fn direction_between(from: Coordinate, to: Coordinate) -> (r: Option<Direction>)
    ensures
        r == spec_direction_between(from, to),
{
    if from.0 == to.0 && from.1 < to.1 {
        Some(Direction::South)
    } else if from.0 == to.0 && from.1 > to.1 {
        Some(Direction::North)
    } else if from.1 == to.1 && from.0 < to.0 {
        Some(Direction::East)
    } else if from.1 == to.1 && from.0 > to.0 {
        Some(Direction::West)
    } else {
        None
    }
}

impl Direction {
    /// Position on the compass, counted clockwise from north.
    pub open spec fn ordinal(self) -> int {
        match self {
            Direction::North => 0,
            Direction::East => 1,
            Direction::South => 2,
            Direction::West => 3,
        }
    }

    /// The direction at a compass position; positions wrap around after four.
    pub open spec fn from_ordinal(n: int) -> Direction {
        if n % 4 == 0 {
            Direction::North
        } else if n % 4 == 1 {
            Direction::East
        } else if n % 4 == 2 {
            Direction::South
        } else {
            Direction::West
        }
    }

    /// The direction faced after turning around.
    pub open spec fn opposite(self) -> Direction {
        match self {
            Direction::North => Direction::South,
            Direction::South => Direction::North,
            Direction::East => Direction::West,
            Direction::West => Direction::East,
        }
    }

    /// The cost of changing course from `prev` to `self`: nothing when going straight on,
    /// one for a quarter turn, two for turning back.
    pub open spec fn spec_turn_amount(self, prev: Direction) -> int {
        if self == prev {
            0
        } else if self == prev.opposite() {
            2
        } else {
            1
        }
    }

    /// The direction that a uniform draw from `0..4` stands for.
    pub open spec fn spec_from_draw(n: int) -> Direction {
        if n == 0 {
            Direction::North
        } else if n == 1 {
            Direction::South
        } else if n == 2 {
            Direction::East
        } else {
            Direction::West
        }
    }

    /// The name of the direction, as it is shown to people.
    pub fn name(&self) -> (r: &'static str)
        ensures
            r@ == (match self {
                Direction::North => "North"@,
                Direction::East => "East"@,
                Direction::South => "South"@,
                Direction::West => "West"@,
            }),
    {
        match self {
            Direction::North => "North",
            Direction::South => "South",
            Direction::East => "East",
            Direction::West => "West",
        }
    }

    /// The compass position as a number, usable as a hash.
    pub fn __hash__(&self) -> (r: u64)
        ensures
            r == self.ordinal(),
    {
        match self {
            Direction::North => 0,
            Direction::East => 1,
            Direction::South => 2,
            Direction::West => 3,
        }
    }

    pub fn opposite_direction(&self) -> (r: Direction)
        ensures
            r == self.opposite(),
    {
        match self {
            Direction::North => Direction::South,
            Direction::South => Direction::North,
            Direction::East => Direction::West,
            Direction::West => Direction::East,
        }
    }

    /// Turns `self`, read relative to north, by the rotation that carries north to
    /// `prev_direction`.
    pub fn relative_direction(&self, prev_direction: &Direction) -> (r: Direction)
        ensures
            r == Direction::from_ordinal(prev_direction.ordinal() + self.ordinal()),
    {
        let sum: u64 = prev_direction.__hash__() + self.__hash__();
        Direction::from_index(sum)
    }

    pub fn turn_amount(&self, prev_direction: &Direction) -> (r: usize)
        ensures
            r == self.spec_turn_amount(*prev_direction),
    {
        if *self == *prev_direction {
            0
        } else if *self == prev_direction.opposite_direction() {
            2
        } else {
            1
        }
    }

    /// The direction at compass position `n`, wrapping around.
    pub fn from_index(n: u64) -> (r: Direction)
        ensures
            r == Direction::from_ordinal(n as int),
    {
        let m: u64 = n % 4;
        if m == 0 {
            Direction::North
        } else if m == 1 {
            Direction::East
        } else if m == 2 {
            Direction::South
        } else {
            Direction::West
        }
    }

    /// A direction drawn at random, each as likely as the others.
    pub fn random(rng: &mut StdRng) -> (r: Direction)
        ensures
            exists|n: int| 0 <= n < 4 && r == Direction::spec_from_draw(n),
    {
        let n = random_below(rng, 4);
        let r = Direction::from_draw(n);
        assert(0 <= n < 4 && r == Direction::spec_from_draw(n as int));
        r
    }

    /// Maps a draw from `0..4` to a direction; any larger number counts as the last.
    pub fn from_draw(n: usize) -> (r: Direction)
        ensures
            r == Direction::spec_from_draw(n as int),
    {
        if n == 0 {
            Direction::North
        } else if n == 1 {
            Direction::South
        } else if n == 2 {
            Direction::East
        } else {
            Direction::West
        }
    }
}

impl From<usize> for Direction {
    fn from(value: usize) -> (r: Direction) {
        let m: usize = value % 4;
        if m == 0 {
            Direction::North
        } else if m == 1 {
            Direction::East
        } else if m == 2 {
            Direction::South
        } else {
            Direction::West
        }
    }
}

impl vstd::std_specs::convert::FromSpecImpl<usize> for Direction {
    open spec fn obeys_from_spec() -> bool {
        true
    }

    open spec fn from_spec(value: usize) -> Direction {
        Direction::from_ordinal(value as int)
    }
}

/// Turning around twice gives the direction one started with, and never the direction
/// one is facing after the first turn.
pub proof fn lemma_opposite_involution(d: Direction)
    ensures
        d.opposite().opposite() == d,
        d.opposite() != d,
{
}

} // verus!
