//! The walls of one cell: a set of at most four directions.

use crate::direction::Direction;
use vstd::prelude::*;

verus! {

/// The directions in which a cell is closed. One flag per direction, so membership,
/// insertion and removal take constant time and equality is equality of the flags.
#[derive(Debug, Clone, Copy, PartialEq, Eq, Structural)]
pub struct WallSet {
    pub north: bool,
    pub east: bool,
    pub south: bool,
    pub west: bool,
}

impl WallSet {
    /// Whether the cell is closed towards `d`.
    pub open spec fn has(self, d: Direction) -> bool {
        match d {
            Direction::North => self.north,
            Direction::East => self.east,
            Direction::South => self.south,
            Direction::West => self.west,
        }
    }

    /// The set with `d` taken out.
    pub open spec fn without(self, d: Direction) -> WallSet {
        match d {
            Direction::North => WallSet { north: false, ..self },
            Direction::East => WallSet { east: false, ..self },
            Direction::South => WallSet { south: false, ..self },
            Direction::West => WallSet { west: false, ..self },
        }
    }

    /// The set with `d` put in.
    pub open spec fn with(self, d: Direction) -> WallSet {
        match d {
            Direction::North => WallSet { north: true, ..self },
            Direction::East => WallSet { east: true, ..self },
            Direction::South => WallSet { south: true, ..self },
            Direction::West => WallSet { west: true, ..self },
        }
    }

    /// The number of closed directions.
    pub open spec fn count(self) -> int {
        (if self.north { 1int } else { 0 }) + (if self.east { 1int } else { 0 }) + (if self.south {
            1int
        } else {
            0
        }) + (if self.west { 1int } else { 0 })
    }

    /// The number of open directions.
    pub open spec fn open_count(self) -> int {
        4 - self.count()
    }

    /// Whether the cell is a straight passage: open in exactly two directions, and
    /// those two opposite each other.
    pub open spec fn is_straight(self) -> bool {
        self.open_count() == 2 && exists|d: Direction|
            !self.has(d) && !self.has(#[trigger] d.opposite())
    }

    /// Whether someone standing in the cell has to decide: a dead end or a closed
    /// cell (at most one way out), a junction (three or more), or a bend (two ways
    /// out that do not continue each other).
    pub open spec fn is_decision(self) -> bool {
        self.open_count() <= 1 || self.open_count() >= 3 || (self.open_count() == 2
            && !self.is_straight())
    }

    /// The walls as a mathematical set.
    pub open spec fn view(self) -> Set<Direction> {
        Set::new(|d: Direction| self.has(d))
    }

    /// A cell closed on all four sides.
    pub fn all() -> (r: WallSet)
        ensures
            forall|d: Direction| r.has(d),
            r.count() == 4,
    {
        WallSet { north: true, east: true, south: true, west: true }
    }

    /// A cell open on all four sides.
    pub fn new() -> (r: WallSet)
        ensures
            forall|d: Direction| !r.has(d),
            r.count() == 0,
    {
        WallSet { north: false, east: false, south: false, west: false }
    }

    /// The set that holds exactly the directions listed, however often each is listed.
    pub fn from_directions(directions: &[Direction]) -> (r: WallSet)
        ensures
            forall|d: Direction| r.has(d) <==> directions@.contains(d),
    {
        let mut r = WallSet::new();
        let mut i: usize = 0;
        while i < directions.len()
            invariant
                i <= directions.len(),
                forall|d: Direction| r.has(d) ==> directions@.contains(d),
                forall|j: int| 0 <= j < i ==> r.has(#[trigger] directions@[j]),
            decreases directions.len() - i,
        {
            let d = directions[i];
            let ghost before = r;
            r.insert(d);
            assert forall|e: Direction| r.has(e) implies directions@.contains(e) by {
                if !before.has(e) {
                    assert(e == d);
                    assert(directions@[i as int] == e);
                }
            }
            i += 1;
        }
        r
    }

    pub fn contains(&self, d: &Direction) -> (r: bool)
        ensures
            r == self.has(*d),
    {
        match d {
            Direction::North => self.north,
            Direction::East => self.east,
            Direction::South => self.south,
            Direction::West => self.west,
        }
    }

    /// Closes the cell towards `d`. Returns whether it was open there before.
    pub fn insert(&mut self, d: Direction) -> (r: bool)
        ensures
            *final(self) == old(self).with(d),
            r == !old(self).has(d),
    {
        let was = self.contains(&d);
        match d {
            Direction::North => {
                self.north = true;
            },
            Direction::East => {
                self.east = true;
            },
            Direction::South => {
                self.south = true;
            },
            Direction::West => {
                self.west = true;
            },
        }
        !was
    }

    /// Opens the cell towards `d`. Returns whether it was closed there before.
    pub fn remove(&mut self, d: &Direction) -> (r: bool)
        ensures
            *final(self) == old(self).without(*d),
            r == old(self).has(*d),
    {
        let was = self.contains(d);
        match d {
            Direction::North => {
                self.north = false;
            },
            Direction::East => {
                self.east = false;
            },
            Direction::South => {
                self.south = false;
            },
            Direction::West => {
                self.west = false;
            },
        }
        was
    }

    /// The number of closed directions.
    pub fn len(&self) -> (r: usize)
        ensures
            r == self.count(),
            r <= 4,
    {
        let mut n: usize = 0;
        if self.north {
            n += 1;
        }
        if self.east {
            n += 1;
        }
        if self.south {
            n += 1;
        }
        if self.west {
            n += 1;
        }
        n
    }

    /// Whether the cell calls for a decision; see [`WallSet::is_decision`].
    pub fn decides(&self) -> (r: bool)
        ensures
            r == self.is_decision(),
            r == !(self.north == self.south && self.east == self.west && self.north != self.east),
    {
        let straight = self.north == self.south && self.east == self.west && self.north
            != self.east;
        proof {
            if straight {
                if self.north {
                    assert(!self.has(Direction::East) && !self.has(Direction::East.opposite()));
                } else {
                    assert(!self.has(Direction::North) && !self.has(Direction::North.opposite()));
                }
                assert(self.is_straight());
            } else {
                if self.is_straight() {
                    let d = choose|d: Direction| !self.has(d) && !self.has(#[trigger] d.opposite());
                    assert(false);
                }
            }
        }
        !straight
    }

    /// The number of open directions.
    pub fn open_len(&self) -> (r: usize)
        ensures
            r == self.open_count(),
            r <= 4,
    {
        4 - self.len()
    }
}

} // verus!
