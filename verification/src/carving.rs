//! A tree of carves while it grows: the cells it covers so far and the carves made,
//! kept so that the carves are a tree on the cells covered.

use crate::connectivity::{
    lemma_link_reaches, lemma_reaches_itself, lemma_reaches_monotone, lemma_reaches_transitive,
    reaches,
};
use crate::coordinate_set::CoordinateSet;
use crate::direction::Coordinate;
use crate::maze::{carve_target, carve_valid, inside, Carve, Maze};
use crate::spanning::{
    carve_links, covers_grid, edge_of, fresh_end, grows_at, grows_from, hangs_on,
    is_spanning_tree, is_tree_on, known_end, lemma_carve_links_grow, lemma_hangs_on_prefix,
    lemma_rooted_is_connected, lemma_same_edge_same_cells, shares_place,
};
use vstd::prelude::*;

verus! {

/// A tree of carves that grows cell by cell from a root.
#[derive(Debug)]
pub struct Carving {
    /// The cells that the tree covers.
    pub visited: CoordinateSet,
    /// The carves made, in the order in which they were made.
    pub carves: Vec<Carve>,
    /// The first cell covered.
    pub root: Option<Coordinate>,
}

impl Carving {
    /// The number of places covered, the end region counted as one.
    pub open spec fn places(&self, maze: &Maze) -> int {
        self.visited.count() - (if maze.end@.len() > 0 && self.visited.has(maze.end@[0]) {
            maze.end@.len() - 1
        } else {
            0
        })
    }

    /// Whether the cells of the end region are covered all or none.
    pub open spec fn end_is_one(&self, maze: &Maze) -> bool {
        forall|i: int, j: int|
            0 <= i < maze.end@.len() && 0 <= j < maze.end@.len() ==> self.visited.has(
                #[trigger] maze.end@[i],
            ) == self.visited.has(#[trigger] maze.end@[j])
    }

    /// Whether every carve is a wall of the grid between two covered cells that do
    /// not both belong to the end region, and no wall is named twice.
    pub open spec fn carves_ok(&self, maze: &Maze) -> bool {
        &&& forall|i: int|
            0 <= i < self.carves@.len() ==> {
                let carve = #[trigger] self.carves@[i];
                &&& carve_valid(maze.width as int, maze.height as int, carve)
                &&& self.visited.has(carve.0)
                &&& self.visited.has(carve_target(carve))
                &&& !(maze.in_end(carve.0) && maze.in_end(carve_target(carve)))
            }
        &&& forall|i: int, j: int|
            0 <= i < j < self.carves@.len() ==> edge_of(#[trigger] self.carves@[i]) != edge_of(
                #[trigger] self.carves@[j],
            )
    }

    /// Whether every covered cell can be reached from the root along the carves.
    pub open spec fn rooted(&self, maze: &Maze) -> bool {
        match self.root {
            None => self.visited.count() == 0 && self.carves@.len() == 0,
            Some(r) => {
                &&& self.visited.has(r)
                &&& self.carves@.len() + 1 == self.places(maze)
                &&& forall|v: Coordinate| #[trigger]
                    self.visited.has(v) ==> reaches(
                        carve_links(
                            maze.width as int,
                            maze.height as int,
                            maze.end@,
                            self.carves@,
                        ),
                        r,
                        v,
                    )
            },
        }
    }

    /// What holds of a growing tree at all times.
    #[verifier::opaque]
    pub open spec fn inv(&self, maze: &Maze) -> bool {
        &&& maze.wf()
        &&& self.visited.wf()
        &&& self.visited.grid_width() == maze.width
        &&& self.visited.grid_height() == maze.height
        &&& self.end_is_one(maze)
        &&& self.carves_ok(maze)
        &&& self.rooted(maze)
    }

    /// Whether the carves grew the tree from its root in their order (see
    /// [`grows_from`]) and brought every covered cell.
    #[verifier::opaque]
    pub open spec fn directed(&self, maze: &Maze, fresh_source: bool) -> bool {
        match self.root {
            None => self.carves@.len() == 0,
            Some(r) => {
                &&& grows_from(
                    maze.width as int,
                    maze.height as int,
                    maze.end@,
                    self.carves@,
                    fresh_source,
                    r,
                )
                &&& forall|v: Coordinate|
                    self.visited.has(v) ==> #[trigger] hangs_on(
                        maze.end@,
                        self.carves@,
                        fresh_source,
                        r,
                        v,
                        self.carves@.len() as int,
                    )
            },
        }
    }

    /// The tree before its first cell.
    pub fn new(maze: &Maze) -> (r: Carving)
        requires
            maze.wf(),
        ensures
            r.inv(maze),
            r.root is None,
            r.carves@.len() == 0,
            forall|c: Coordinate| !r.visited.has(c),
            forall|fresh_source: bool| #[trigger] r.directed(maze, fresh_source),
    {
        reveal(Carving::inv);
        reveal(Carving::directed);
        Carving {
            visited: CoordinateSet::new(maze.width, maze.height),
            carves: Vec::new(),
            root: None,
        }
    }

    pub fn is_visited(&self, maze: &Maze, c: Coordinate) -> (r: bool)
        requires
            self.inv(maze),
        ensures
            r == self.visited.has(c),
    {
        proof {
            reveal(Carving::inv);
        }
        self.visited.contains(&c)
    }

    /// The number of cells covered.
    pub fn covered(&self, maze: &Maze) -> (r: usize)
        requires
            self.inv(maze),
        ensures
            r == self.visited.count(),
            r <= maze.width * maze.height,
    {
        proof {
            reveal(Carving::inv);
        }
        self.visited.len()
    }

    /// Covers the place of `cell`: the cell itself, or the whole end region if the
    /// cell belongs to it.
    fn cover(visited: &mut CoordinateSet, maze: &Maze, cell: Coordinate)
        requires
            maze.wf(),
            old(visited).wf(),
            old(visited).grid_width() == maze.width,
            old(visited).grid_height() == maze.height,
            maze.contains(cell),
            !old(visited).has(cell),
            forall|i: int| 0 <= i < maze.end@.len() ==> !old(visited).has(#[trigger] maze.end@[i]),
        ensures
            final(visited).wf(),
            final(visited).grid_width() == maze.width,
            final(visited).grid_height() == maze.height,
            forall|c: Coordinate|
                #[trigger] final(visited).has(c) == (old(visited).has(c) || c == cell || (
                maze.in_end(cell) && maze.in_end(c))),
            final(visited).count() == old(visited).count() + (if maze.in_end(cell) {
                maze.end@.len()
            } else {
                1
            }),
    {
        if maze.is_end(cell) {
            let mut i: usize = 0;
            while i < maze.end.len()
                invariant
                    maze.wf(),
                    i <= maze.end@.len(),
                    visited.wf(),
                    visited.grid_width() == maze.width,
                    visited.grid_height() == maze.height,
                    maze.in_end(cell),
                    forall|c: Coordinate|
                        #[trigger] visited.has(c) == (old(visited).has(c) || exists|j: int|
                            0 <= j < i && maze.end@[j] == c),
                    visited.count() == old(visited).count() + i,
                    forall|k: int| 0 <= k < maze.end@.len() ==> !old(visited).has(#[trigger] maze.end@[k]),
                decreases maze.end@.len() - i,
            {
                let e = maze.end[i];
                proof {
                    if visited.has(e) {
                        let j = choose|j: int| 0 <= j < i && maze.end@[j] == e;
                        assert(maze.end@[j] == maze.end@[i as int]);
                    }
                }
                let ghost before = *visited;
                visited.insert(e);
                proof {
                    assert forall|c: Coordinate| #[trigger]
                        visited.has(c) == (old(visited).has(c) || exists|j: int|
                            0 <= j < i + 1 && maze.end@[j] == c) by {
                        if before.has(c) && !old(visited).has(c) {
                            let j = choose|j: int| 0 <= j < i && maze.end@[j] == c;
                            assert(0 <= j < i + 1 && maze.end@[j] == c);
                        }
                        if c == e {
                            assert(0 <= i < i + 1 && maze.end@[i as int] == c);
                        }
                        if exists|j: int| 0 <= j < i + 1 && maze.end@[j] == c {
                            let j = choose|j: int| 0 <= j < i + 1 && maze.end@[j] == c;
                            if j < i {
                                assert(before.has(c));
                            }
                        }
                    }
                }
                i += 1;
            }
            proof {
                assert forall|c: Coordinate| #[trigger]
                    visited.has(c) == (old(visited).has(c) || c == cell || (maze.in_end(cell)
                        && maze.in_end(c))) by {
                    if maze.in_end(c) {
                        let j = choose|j: int| 0 <= j < maze.end@.len() && maze.end@[j] == c;
                        assert(0 <= j < i && maze.end@[j] == c);
                    }
                    if exists|j: int| 0 <= j < i && maze.end@[j] == c {
                        let j = choose|j: int| 0 <= j < i && maze.end@[j] == c;
                        assert(maze.end@.contains(c));
                    }
                }
            }
        } else {
            visited.insert(cell);
        }
    }

    /// Makes `cell` the root of the tree.
    pub fn seed(&mut self, maze: &Maze, cell: Coordinate)
        requires
            old(self).inv(maze),
            old(self).root is None,
            maze.contains(cell),
        ensures
            final(self).inv(maze),
            final(self).root == Some(cell),
            final(self).carves@.len() == 0,
            forall|c: Coordinate|
                #[trigger] final(self).visited.has(c) == (c == cell || (maze.in_end(cell)
                    && maze.in_end(c))),
            forall|fresh_source: bool| #[trigger] final(self).directed(maze, fresh_source),
    {
        proof {
            reveal(Carving::inv);
            self.visited.lemma_empty();
        }
        Self::cover(&mut self.visited, maze, cell);
        self.root = Some(cell);
        proof {
            let links = carve_links(
                maze.width as int,
                maze.height as int,
                maze.end@,
                self.carves@,
            );
            assert forall|v: Coordinate| #[trigger] self.visited.has(v) implies reaches(
                links,
                cell,
                v,
            ) by {
                if v == cell {
                    lemma_reaches_itself(links, cell);
                } else {
                    assert(links(cell, v));
                    lemma_link_reaches(links, cell, v);
                }
            }
            if maze.in_end(cell) {
                assert(self.visited.has(maze.end@[0]));
            } else if maze.end@.len() > 0 {
                assert(maze.in_end(maze.end@[0]));
            }
            reveal(Carving::directed);
            assert forall|fresh_source: bool| #[trigger] self.directed(maze, fresh_source) by {
                assert forall|v: Coordinate| self.visited.has(v) implies #[trigger] hangs_on(
                    maze.end@,
                    self.carves@,
                    fresh_source,
                    cell,
                    v,
                    self.carves@.len() as int,
                ) by {
                    assert(shares_place(maze.end@, cell, v));
                }
            }
        }
    }

    /// Makes `carve`, which joins a covered cell to one that is not covered, and
    /// covers the place of that cell. With `fresh_source` the carve starts at the
    /// cell that is not covered, else it ends there.
    pub fn attach(&mut self, maze: &Maze, carve: Carve, fresh_source: bool)
        requires
            old(self).inv(maze),
            carve_valid(maze.width as int, maze.height as int, carve),
            old(self).visited.has(carve.0) == !fresh_source,
            old(self).visited.has(carve_target(carve)) == fresh_source,
        ensures
            final(self).inv(maze),
            final(self).root == old(self).root,
            final(self).carves@ == old(self).carves@.push(carve),
            forall|c: Coordinate|
                #[trigger] final(self).visited.has(c) == (old(self).visited.has(c) || c
                    == fresh_end(carve, fresh_source) || (maze.in_end(
                    fresh_end(carve, fresh_source),
                ) && maze.in_end(c))),
            final(self).visited.count() > old(self).visited.count(),
            old(self).directed(maze, fresh_source) ==> final(self).directed(maze, fresh_source),
    {
        let ghost before = *self;
        let fresh: Coordinate = if fresh_source {
            carve.0
        } else {
            match maze.move_from(&carve.1, &carve.0, 1) {
                Ok(c) => c,
                Err(_) => carve.0,
            }
        };
        let ghost known: Coordinate = if fresh_source {
            carve_target(carve)
        } else {
            carve.0
        };
        proof {
            reveal(Carving::inv);
            assert(fresh == fresh_end(carve, fresh_source));
            before.lemma_root_exists(maze, known);
            // The cell that is not covered shares no place with one that is.
            if maze.in_end(fresh) {
                let k = choose|k: int| 0 <= k < maze.end@.len() && maze.end@[k] == fresh;
                assert forall|i: int| 0 <= i < maze.end@.len() implies !self.visited.has(
                    #[trigger] maze.end@[i],
                ) by {
                    assert(self.visited.has(maze.end@[i]) == self.visited.has(maze.end@[k]));
                }
                if maze.in_end(known) {
                    let j = choose|j: int| 0 <= j < maze.end@.len() && maze.end@[j] == known;
                    assert(self.visited.has(maze.end@[j]) == self.visited.has(maze.end@[k]));
                }
            }
        }
        if maze.is_end(fresh) {
            Self::cover(&mut self.visited, maze, fresh);
        } else {
            self.visited.insert(fresh);
        }
        self.carves.push(carve);
        proof {
            before.lemma_attach(maze, self, carve, fresh, known);
            if before.directed(maze, fresh_source) {
                before.lemma_attach_directed(maze, self, carve, fresh_source);
            }
        }
    }

    /// The cells of the end region are covered all or none.
    pub proof fn lemma_end_is_one(&self, maze: &Maze, a: Coordinate, b: Coordinate)
        requires
            self.inv(maze),
            maze.in_end(a),
            maze.in_end(b),
        ensures
            self.visited.has(a) == self.visited.has(b),
    {
        reveal(Carving::inv);
        let i = choose|i: int| 0 <= i < maze.end@.len() && maze.end@[i] == a;
        let j = choose|j: int| 0 <= j < maze.end@.len() && maze.end@[j] == b;
        assert(self.visited.has(maze.end@[i]) == self.visited.has(maze.end@[j]));
    }

    /// A tree without a root covers nothing.
    pub proof fn lemma_rootless_is_empty(&self, maze: &Maze)
        requires
            self.inv(maze),
            self.root is None,
        ensures
            forall|c: Coordinate| !self.visited.has(c),
    {
        reveal(Carving::inv);
        self.visited.lemma_empty();
    }

    /// The root of a tree is covered.
    pub proof fn lemma_root_is_covered(&self, maze: &Maze)
        requires
            self.inv(maze),
            self.root is Some,
        ensures
            self.visited.has(self.root.unwrap()),
    {
        reveal(Carving::inv);
    }

    /// A tree that covers a cell has a root.
    pub proof fn lemma_root_exists(&self, maze: &Maze, c: Coordinate)
        requires
            self.inv(maze),
            self.visited.has(c),
        ensures
            self.root is Some,
    {
        reveal(Carving::inv);
        if self.root is None {
            self.visited.lemma_empty();
        }
    }

    /// What [`Carving::attach`] does keeps the tree a tree.
    proof fn lemma_attach(&self, maze: &Maze, after: &Carving, carve: Carve, fresh: Coordinate, known: Coordinate)
        requires
            self.inv(maze),
            self.root is Some,
            carve_valid(maze.width as int, maze.height as int, carve),
            (fresh == carve.0 && known == carve_target(carve)) || (known == carve.0 && fresh
                == carve_target(carve)),
            self.visited.has(known),
            !self.visited.has(fresh),
            !(maze.in_end(fresh) && maze.in_end(known)),
            after.root == self.root,
            after.carves@ == self.carves@.push(carve),
            after.visited.wf(),
            after.visited.grid_width() == maze.width,
            after.visited.grid_height() == maze.height,
            forall|c: Coordinate|
                #[trigger] after.visited.has(c) == (self.visited.has(c) || c == fresh || (
                maze.in_end(fresh) && maze.in_end(c))),
            after.visited.count() == self.visited.count() + (if maze.in_end(fresh) {
                maze.end@.len()
            } else {
                1
            }),
        ensures
            after.inv(maze),
    {
        reveal(Carving::inv);
        let w = maze.width as int;
        let h = maze.height as int;
        let end = maze.end@;
        let root = self.root.unwrap();
        let links = carve_links(w, h, end, self.carves@);
        let more = carve_links(w, h, end, after.carves@);
        lemma_carve_links_grow(w, h, end, self.carves@, carve);
        // The end region stays covered all or none.
        assert(after.end_is_one(maze)) by {
            assert forall|i: int, j: int|
                0 <= i < end.len() && 0 <= j < end.len() implies after.visited.has(
                #[trigger] end[i],
            ) == after.visited.has(#[trigger] end[j]) by {
                assert(self.visited.has(end[i]) == self.visited.has(end[j]));
                assert(maze.in_end(end[i]) && maze.in_end(end[j]));
            }
        }
        // The carves stay in order: the new one touches a cell that no other touches.
        assert(after.carves_ok(maze)) by {
            let n = self.carves@.len() as int;
            assert forall|i: int| 0 <= i < after.carves@.len() implies {
                let c = #[trigger] after.carves@[i];
                &&& carve_valid(w, h, c)
                &&& after.visited.has(c.0)
                &&& after.visited.has(carve_target(c))
                &&& !(maze.in_end(c.0) && maze.in_end(carve_target(c)))
            } by {
                if i < n {
                    assert(after.carves@[i] == self.carves@[i]);
                }
            }
            assert forall|i: int, j: int| 0 <= i < j < after.carves@.len() implies edge_of(
                #[trigger] after.carves@[i],
            ) != edge_of(#[trigger] after.carves@[j]) by {
                assert(after.carves@[i] == self.carves@[i]);
                if j < n {
                    assert(after.carves@[j] == self.carves@[j]);
                } else {
                    if edge_of(self.carves@[i]) == edge_of(carve) {
                        lemma_same_edge_same_cells(w, h, self.carves@[i], carve);
                    }
                }
            }
        }
        // The count of places goes up by one, as the count of carves does.
        assert(after.carves@.len() + 1 == after.places(maze)) by {
            if end.len() > 0 {
                assert(maze.in_end(end[0]));
                if maze.in_end(fresh) {
                    let k = choose|k: int| 0 <= k < end.len() && end[k] == fresh;
                    assert(self.visited.has(end[0]) == self.visited.has(end[k]));
                }
            }
        }
        // Every covered cell is reached from the root.
        assert forall|v: Coordinate| #[trigger] after.visited.has(v) implies reaches(more, root, v) by {
            if self.visited.has(v) {
                lemma_reaches_monotone(links, more, root, v);
            } else {
                lemma_reaches_monotone(links, more, root, known);
                assert(more(known, fresh));
                lemma_link_reaches(more, known, fresh);
                lemma_reaches_transitive(more, root, known, fresh);
                if v != fresh {
                    assert(more(fresh, v));
                    lemma_link_reaches(more, fresh, v);
                    lemma_reaches_transitive(more, root, fresh, v);
                }
            }
        }
    }

    /// What [`Carving::attach`] does keeps the order of growth.
    proof fn lemma_attach_directed(&self, maze: &Maze, after: &Carving, carve: Carve, fresh_source: bool)
        requires
            self.inv(maze),
            self.directed(maze, fresh_source),
            self.root is Some,
            self.visited.has(known_end(carve, fresh_source)),
            !self.visited.has(fresh_end(carve, fresh_source)),
            after.root == self.root,
            after.carves@ == self.carves@.push(carve),
            forall|c: Coordinate|
                #[trigger] after.visited.has(c) == (self.visited.has(c) || c == fresh_end(
                    carve,
                    fresh_source,
                ) || (maze.in_end(fresh_end(carve, fresh_source)) && maze.in_end(c))),
        ensures
            after.directed(maze, fresh_source),
    {
        reveal(Carving::inv);
        reveal(Carving::directed);
        let end = maze.end@;
        let r = self.root.unwrap();
        let old_carves = self.carves@;
        let new_carves = after.carves@;
        let n = old_carves.len() as int;
        let fresh = fresh_end(carve, fresh_source);
        let known = known_end(carve, fresh_source);
        assert forall|i: int| 0 <= i < new_carves.len() implies #[trigger] grows_at(
            end,
            new_carves,
            fresh_source,
            r,
            i,
        ) by {
            if i < n {
                assert(grows_at(end, old_carves, fresh_source, r, i));
                assert(new_carves[i] == old_carves[i]);
                lemma_hangs_on_prefix(
                    end,
                    old_carves,
                    new_carves,
                    fresh_source,
                    r,
                    known_end(old_carves[i], fresh_source),
                    i,
                    i,
                );
                lemma_hangs_on_prefix(
                    end,
                    old_carves,
                    new_carves,
                    fresh_source,
                    r,
                    fresh_end(old_carves[i], fresh_source),
                    i,
                    i,
                );
            } else {
                assert(new_carves[n] == carve);
                assert(hangs_on(end, old_carves, fresh_source, r, known, n));
                lemma_hangs_on_prefix(end, old_carves, new_carves, fresh_source, r, known, n, n);
                if hangs_on(end, old_carves, fresh_source, r, fresh, n) {
                    let c: Coordinate = if shares_place(end, r, fresh) {
                        r
                    } else {
                        let j = choose|j: int|
                            0 <= j < n && shares_place(
                                end,
                                fresh_end(#[trigger] old_carves[j], fresh_source),
                                fresh,
                            );
                        fresh_end(old_carves[j], fresh_source)
                    };
                    assert(self.visited.has(c));
                    assert(shares_place(end, c, fresh));
                    self.lemma_end_is_one(maze, c, fresh);
                }
                lemma_hangs_on_prefix(end, old_carves, new_carves, fresh_source, r, fresh, n, n);
            }
        }
        assert forall|v: Coordinate| after.visited.has(v) implies #[trigger] hangs_on(
            end,
            new_carves,
            fresh_source,
            r,
            v,
            new_carves.len() as int,
        ) by {
            if self.visited.has(v) {
                assert(hangs_on(end, old_carves, fresh_source, r, v, n));
                lemma_hangs_on_prefix(end, old_carves, new_carves, fresh_source, r, v, n, n + 1);
            } else {
                assert(shares_place(end, fresh_end(new_carves[n], fresh_source), v));
            }
        }
        self.visited.lemma_has_on_grid(r);
    }

    /// The carves of a tree that grew in order grow a tree from its root; the cells
    /// that hang on that tree are the cells covered; and it has every cell of the
    /// grid once every cell is covered.
    pub proof fn lemma_grown(&self, maze: &Maze, fresh_source: bool)
        requires
            self.inv(maze),
            self.directed(maze, fresh_source),
            self.root is Some,
        ensures
            grows_from(
                maze.width as int,
                maze.height as int,
                maze.end@,
                self.carves@,
                fresh_source,
                self.root.unwrap(),
            ),
            forall|v: Coordinate|
                maze.contains(v) ==> self.visited.has(v) == #[trigger] hangs_on(
                    maze.end@,
                    self.carves@,
                    fresh_source,
                    self.root.unwrap(),
                    v,
                    self.carves@.len() as int,
                ),
            self.visited.count() == maze.width * maze.height ==> covers_grid(
                maze.width as int,
                maze.height as int,
                maze.end@,
                self.carves@,
                fresh_source,
                self.root.unwrap(),
            ),
    {
        reveal(Carving::inv);
        reveal(Carving::directed);
        let end = maze.end@;
        let r = self.root.unwrap();
        let carves = self.carves@;
        let n = carves.len() as int;
        assert forall|v: Coordinate| maze.contains(v) implies self.visited.has(v) == #[trigger] hangs_on(
            end,
            carves,
            fresh_source,
            r,
            v,
            n,
        ) by {
            if hangs_on(end, carves, fresh_source, r, v, n) {
                let c: Coordinate = if shares_place(end, r, v) {
                    r
                } else {
                    let j = choose|j: int|
                        0 <= j < n && shares_place(
                            end,
                            fresh_end(#[trigger] carves[j], fresh_source),
                            v,
                        );
                    fresh_end(carves[j], fresh_source)
                };
                assert(self.visited.has(c));
                if c != v {
                    self.lemma_end_is_one(maze, c, v);
                }
            }
        }
        if self.visited.count() == maze.width * maze.height {
            self.visited.lemma_full();
        }
    }

    /// The carves of a growing tree are a tree on the cells that it covers, and a
    /// spanning tree of the grid once it covers every cell.
    pub proof fn lemma_is_tree(&self, maze: &Maze)
        requires
            self.inv(maze),
            self.root is Some,
        ensures
            is_tree_on(
                maze.width as int,
                maze.height as int,
                maze.end@,
                self.carves@,
                self.visited@,
                self.places(maze),
            ),
            self.visited.count() == maze.width * maze.height ==> is_spanning_tree(
                maze.width as int,
                maze.height as int,
                maze.end@,
                self.carves@,
            ),
    {
        reveal(Carving::inv);
        let w = maze.width as int;
        let h = maze.height as int;
        let end = maze.end@;
        let root = self.root.unwrap();
        let links = carve_links(w, h, end, self.carves@);
        assert forall|a: Coordinate, b: Coordinate|
            self.visited@.contains(a) && self.visited@.contains(b) implies #[trigger] reaches(
            links,
            a,
            b,
        ) by {
            lemma_rooted_is_connected(w, h, end, self.carves@, root, a, b);
        }
        assert forall|i: int| 0 <= i < self.carves@.len() implies carve_valid(
            w,
            h,
            #[trigger] self.carves@[i],
        ) && !(end.contains(self.carves@[i].0) && end.contains(carve_target(self.carves@[i]))) by {}
        if self.visited.count() == maze.width * maze.height {
            self.visited.lemma_full();
            let all = Set::new(|c: Coordinate| inside(w, h, (c.0 as int, c.1 as int)));
            assert forall|a: Coordinate, b: Coordinate|
                all.contains(a) && all.contains(b) implies #[trigger] reaches(links, a, b) by {
                assert(self.visited.has(a) && self.visited.has(b));
                lemma_rooted_is_connected(w, h, end, self.carves@, root, a, b);
            }
            if end.len() > 0 {
                assert(maze.contains(end[0]));
                assert(self.visited.has(end[0]));
            }
        }
    }
}

} // verus!
