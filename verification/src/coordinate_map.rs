//! Maps keyed by cells, and the small map from directions to distances that a node of
//! the weighted graph carries.

use crate::direction::{Coordinate, Direction};
use std::collections::HashMap;
use vstd::prelude::*;

verus! {

/// For each direction at most one number: how far one can travel that way.
#[derive(Debug, Clone, Copy, PartialEq, Eq)]
pub struct DirectionMap {
    pub north: Option<usize>,
    pub east: Option<usize>,
    pub south: Option<usize>,
    pub west: Option<usize>,
}

impl DirectionMap {
    /// The number recorded for `d`, if any.
    pub open spec fn weight(self, d: Direction) -> Option<usize> {
        match d {
            Direction::North => self.north,
            Direction::East => self.east,
            Direction::South => self.south,
            Direction::West => self.west,
        }
    }

    /// The map with `w` recorded for `d`.
    pub open spec fn with(self, d: Direction, w: usize) -> DirectionMap {
        match d {
            Direction::North => DirectionMap { north: Some(w), ..self },
            Direction::East => DirectionMap { east: Some(w), ..self },
            Direction::South => DirectionMap { south: Some(w), ..self },
            Direction::West => DirectionMap { west: Some(w), ..self },
        }
    }

    /// The number of steps that the map allows towards `d`: what is recorded, else none.
    pub open spec fn steps(self, d: Direction) -> usize {
        match self.weight(d) {
            Some(w) => w,
            None => 0,
        }
    }

    /// The map as a mathematical map.
    pub open spec fn view(self) -> Map<Direction, usize> {
        Map::new(|d: Direction| self.weight(d) is Some, |d: Direction| self.weight(d).unwrap())
    }

    /// The map without any entry.
    pub fn new() -> (r: DirectionMap)
        ensures
            r == (DirectionMap { north: None, east: None, south: None, west: None }),
            forall|d: Direction| r.weight(d) is None,
    {
        DirectionMap { north: None, east: None, south: None, west: None }
    }

    /// Records `w` for `d`. Returns what was recorded before.
    pub fn insert(&mut self, d: Direction, w: usize) -> (r: Option<usize>)
        ensures
            *final(self) == old(self).with(d, w),
            r == old(self).weight(d),
    {
        let before = self.get(&d);
        match d {
            Direction::North => {
                self.north = Some(w);
            },
            Direction::East => {
                self.east = Some(w);
            },
            Direction::South => {
                self.south = Some(w);
            },
            Direction::West => {
                self.west = Some(w);
            },
        }
        before
    }

    pub fn get(&self, d: &Direction) -> (r: Option<usize>)
        ensures
            r == self.weight(*d),
    {
        match d {
            Direction::North => self.north,
            Direction::East => self.east,
            Direction::South => self.south,
            Direction::West => self.west,
        }
    }

    pub fn contains_key(&self, d: &Direction) -> (r: bool)
        ensures
            r == (self.weight(*d) is Some),
    {
        self.get(d).is_some()
    }

    pub fn is_empty(&self) -> (r: bool)
        ensures
            r == (forall|d: Direction| self.weight(d) is None),
    {
        let r = self.north.is_none() && self.east.is_none() && self.south.is_none()
            && self.west.is_none();
        proof {
            if r {
                assert forall|d: Direction| self.weight(d) is None by {}
            } else {
                assert(self.weight(Direction::North) is Some || self.weight(Direction::East) is Some
                    || self.weight(Direction::South) is Some || self.weight(Direction::West) is Some);
            }
        }
        r
    }

    /// The entries in compass order: north, east, south, west.
    pub fn entries(&self) -> (r: Vec<(Direction, usize)>)
        ensures
            forall|i: int| 0 <= i < r@.len() ==> self.weight((#[trigger] r@[i]).0) == Some(r@[i].1),
            forall|d: Direction|
                self.weight(d) is Some ==> r@.contains((d, #[trigger] self.weight(d).unwrap())),
            forall|i: int, j: int|
                0 <= i < j < r@.len() ==> (#[trigger] r@[i]).0.ordinal() < (#[trigger] r@[j]).0.ordinal(),
    {
        let mut r: Vec<(Direction, usize)> = Vec::new();
        if let Some(w) = self.north {
            r.push((Direction::North, w));
        }
        let ghost r1 = r@;
        if let Some(w) = self.east {
            r.push((Direction::East, w));
        }
        let ghost r2 = r@;
        if let Some(w) = self.south {
            r.push((Direction::South, w));
        }
        let ghost r3 = r@;
        if let Some(w) = self.west {
            r.push((Direction::West, w));
        }
        proof {
            assert forall|d: Direction| self.weight(d) is Some implies r@.contains(
                (d, #[trigger] self.weight(d).unwrap()),
            ) by {
                let k: int = match d {
                    Direction::North => 0,
                    Direction::East => r1.len() as int,
                    Direction::South => r2.len() as int,
                    Direction::West => r3.len() as int,
                };
                assert(r@[k] == (d, self.weight(d).unwrap()));
            }
        }
        r
    }
}

/// The number that stands for the cell `c` as a key: no two cells share one.
pub open spec fn coordinate_key(c: Coordinate) -> u128 {
    (c.0 as u128 * 0x1_0000_0000_0000_0000u128 + c.1 as u128) as u128
}

/// Different cells have different keys.
pub proof fn lemma_coordinate_key_injective(a: Coordinate, b: Coordinate)
    ensures
        coordinate_key(a) == coordinate_key(b) <==> a == b,
{
}

/// A map from cells to values of type `V`. Any pair of numbers can be a key, whether
/// or not it lies on some grid.
#[derive(Debug)]
pub struct CoordinateMap<V> {
    entries: HashMap<u128, V>,
}

impl<V: Clone> Clone for CoordinateMap<V> {
    fn clone(&self) -> (r: CoordinateMap<V>)
        ensures
            r@ == self@,
    {
        let r = CoordinateMap { entries: self.entries.clone() };
        assert(r@ =~= self@);
        r
    }
}

impl<V> CoordinateMap<V> {
    /// The map as a mathematical map.
    pub closed spec fn view(&self) -> Map<Coordinate, V> {
        Map::new(
            |c: Coordinate| self.entries@.contains_key(coordinate_key(c)),
            |c: Coordinate| self.entries@[coordinate_key(c)],
        )
    }

    /// The empty map.
    pub fn new() -> (r: CoordinateMap<V>)
        ensures
            r@ == Map::<Coordinate, V>::empty(),
    {
        let r = CoordinateMap { entries: HashMap::new() };
        assert(r@ =~= Map::<Coordinate, V>::empty());
        r
    }

    fn key_of(c: &Coordinate) -> (k: u128)
        ensures
            k == coordinate_key(*c),
    {
        (c.0 as u128) * 0x1_0000_0000_0000_0000u128 + (c.1 as u128)
    }

    /// Binds `c` to `value`. Returns what `c` was bound to before.
    pub fn insert(&mut self, c: Coordinate, value: V) -> (r: Option<V>)
        ensures
            final(self)@ == old(self)@.insert(c, value),
            r == (if old(self)@.contains_key(c) {
                Some(old(self)@[c])
            } else {
                None
            }),
    {
        broadcast use vstd::std_specs::hash::group_hash_axioms;

        let r = self.entries.insert(Self::key_of(&c), value);
        proof {
            assert forall|other: Coordinate| other != c implies coordinate_key(other)
                != coordinate_key(c) by {
                lemma_coordinate_key_injective(other, c);
            }
            assert(self@ =~= old(self)@.insert(c, value));
        }
        r
    }

    pub fn get(&self, c: &Coordinate) -> (r: Option<&V>)
        ensures
            r == (if self@.contains_key(*c) {
                Some(&self@[*c])
            } else {
                None
            }),
    {
        broadcast use vstd::std_specs::hash::group_hash_axioms;

        let key = Self::key_of(c);
        self.entries.get(&key)
    }

    pub fn contains_key(&self, c: &Coordinate) -> (r: bool)
        ensures
            r == self@.contains_key(*c),
    {
        broadcast use vstd::std_specs::hash::group_hash_axioms;

        let key = Self::key_of(c);
        self.entries.contains_key(&key)
    }

    /// Takes the binding of `c` out. Returns what `c` was bound to.
    pub fn remove(&mut self, c: &Coordinate) -> (r: Option<V>)
        ensures
            final(self)@ == old(self)@.remove(*c),
            r == (if old(self)@.contains_key(*c) {
                Some(old(self)@[*c])
            } else {
                None
            }),
    {
        broadcast use vstd::std_specs::hash::group_hash_axioms;

        let key = Self::key_of(c);
        let r = self.entries.remove(&key);
        proof {
            assert forall|other: Coordinate| other != *c implies coordinate_key(other)
                != coordinate_key(*c) by {
                lemma_coordinate_key_injective(other, *c);
            }
            assert(self@ =~= old(self)@.remove(*c));
        }
        r
    }

    /// Takes every binding out.
    pub fn clear(&mut self)
        ensures
            final(self)@ == Map::<Coordinate, V>::empty(),
    {
        broadcast use vstd::std_specs::hash::group_hash_axioms;

        self.entries.clear();
        assert(self@ =~= Map::<Coordinate, V>::empty());
    }
}

/// For each decision node the distances to the next decision nodes around it.
pub type WeightedGraph = CoordinateMap<DirectionMap>;

/// How often each cell was visited.
pub type VisitCounter = CoordinateMap<usize>;

} // verus!
