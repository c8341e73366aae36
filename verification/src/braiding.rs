//! Braiding: taking extra walls down, so that a maze gets loops.

use crate::direction::{Coordinate, Direction};
use crate::maze::{
    carve_opens, carve_target, carves_open, is_grid_edge, lemma_carving_keeps_walls_consistent,
    Carve, Maze,
};
use crate::rng::{random_below, rng_from_entropy};
use rand::rngs::StdRng;
use vstd::prelude::*;

verus! {

impl Maze {
    /// The number of directions towards which the cell `c` is open.
    pub open spec fn open_count_at(&self, c: Coordinate) -> int {
        self.grid@[c.0 as int]@[c.1 as int].walls.open_count()
    }

    /// Whether `e` names a wall that braiding may take down: a standing wall between
    /// two cells of the grid, neither of them in the end region, each of them open
    /// towards two directions at least.
    pub open spec fn is_removable(&self, e: Carve) -> bool {
        &&& is_grid_edge(self.width as int, self.height as int, e)
        &&& self.wall(e.0, e.1)
        &&& !self.in_end(e.0)
        &&& !self.in_end(carve_target(e))
        &&& self.open_count_at(e.0) >= 2
        &&& self.open_count_at(carve_target(e)) >= 2
    }

    /// Whether `braided` is this maze after braiding has taken down the walls
    /// `removed`, asked for `amount` of them. The walls named are down, on both sides,
    /// and no other wall has changed. Each was a standing wall between two cells of
    /// the grid outside the end region, none is named twice, and each of the cells
    /// beside them is open towards two directions at least. They are `amount`, or
    /// fewer where the maze did not have as many to offer: then every wall that
    /// braiding might have taken down is among them.
    pub open spec fn is_braided_to(&self, braided: &Maze, removed: Seq<Carve>, amount: int) -> bool {
        &&& braided.wf()
        &&& braided.same_frame(self)
        &&& forall|c: Coordinate, d: Direction|
            braided.contains(c) ==> #[trigger] braided.wall(c, d) == (self.wall(c, d)
                && !carves_open(self.width as int, self.height as int, removed, c, d))
        &&& removed.len() <= amount
        &&& forall|i: int|
            0 <= i < removed.len() ==> {
                let e = #[trigger] removed[i];
                &&& is_grid_edge(self.width as int, self.height as int, e)
                &&& self.wall(e.0, e.1)
                &&& !self.in_end(e.0)
                &&& !self.in_end(carve_target(e))
                &&& braided.open_count_at(e.0) >= 2
                &&& braided.open_count_at(carve_target(e)) >= 2
            }
        &&& removed.no_duplicates()
        &&& removed.len() < amount ==> forall|e: Carve| #[trigger]
            self.is_removable(e) ==> removed.contains(e)
    }

    /// What braiding keeps true while it draws from its pool: the walls taken down
    /// so far are down and nothing else has changed; the pool holds standing walls of
    /// the grid, none twice and none that is down; and every wall that might be taken
    /// down is in the pool or down.
    #[verifier::opaque]
    pub open spec fn braiding_ok(&self, now: &Maze, pool: Seq<Carve>, removed: Seq<Carve>) -> bool {
        let w = self.width as int;
        let h = self.height as int;
        &&& now.wf()
        &&& now.same_frame(self)
        &&& forall|c: Coordinate, d: Direction|
            now.contains(c) ==> #[trigger] now.wall(c, d) == (self.wall(c, d) && !carves_open(
                w,
                h,
                removed,
                c,
                d,
            ))
        &&& forall|i: int|
            0 <= i < pool.len() ==> is_grid_edge(w, h, #[trigger] pool[i]) && self.wall(
                pool[i].0,
                pool[i].1,
            ) && !removed.contains(pool[i])
        &&& pool.no_duplicates()
        &&& forall|i: int|
            0 <= i < removed.len() ==> {
                let e = #[trigger] removed[i];
                &&& is_grid_edge(w, h, e)
                &&& self.wall(e.0, e.1)
                &&& !self.in_end(e.0)
                &&& !self.in_end(carve_target(e))
                &&& now.open_count_at(e.0) >= 2
                &&& now.open_count_at(carve_target(e)) >= 2
            }
        &&& removed.no_duplicates()
        &&& forall|e: Carve| #[trigger]
            self.is_removable(e) ==> pool.contains(e) || removed.contains(e)
    }

    /// The standing walls between two cells of the grid, each named once, from its
    /// western or northern side.
    pub fn closed_edges(&self) -> (edges: Vec<Carve>)
        requires
            self.wf(),
        ensures
            edges@.no_duplicates(),
            forall|i: int|
                0 <= i < edges@.len() ==> is_grid_edge(
                    self.width as int,
                    self.height as int,
                    #[trigger] edges@[i],
                ) && self.wall(edges@[i].0, edges@[i].1),
            forall|e: Carve|
                is_grid_edge(self.width as int, self.height as int, e) && #[trigger] self.wall(
                    e.0,
                    e.1,
                ) ==> edges@.contains(e),
    {
        let ghost w = self.width as int;
        let ghost h = self.height as int;
        let mut edges: Vec<Carve> = Vec::new();
        let mut x: usize = 0;
        while x < self.width
            invariant
                self.wf(),
                w == self.width,
                h == self.height,
                x <= self.width,
                edges@.no_duplicates(),
                forall|i: int|
                    0 <= i < edges@.len() ==> is_grid_edge(w, h, #[trigger] edges@[i]) && self.wall(
                        edges@[i].0,
                        edges@[i].1,
                    ) && edges@[i].0.0 < x,
                forall|e: Carve|
                    is_grid_edge(w, h, e) && #[trigger] self.wall(e.0, e.1) && e.0.0 < x
                        ==> edges@.contains(e),
            decreases self.width - x,
        {
            let mut y: usize = 0;
            while y < self.height
                invariant
                    self.wf(),
                    w == self.width,
                    h == self.height,
                    x < self.width,
                    y <= self.height,
                    edges@.no_duplicates(),
                    forall|i: int|
                        0 <= i < edges@.len() ==> is_grid_edge(w, h, #[trigger] edges@[i])
                            && self.wall(edges@[i].0, edges@[i].1) && (edges@[i].0.0 < x || (
                        edges@[i].0.0 == x && edges@[i].0.1 < y)),
                    forall|e: Carve|
                        is_grid_edge(w, h, e) && #[trigger] self.wall(e.0, e.1) && (e.0.0 < x || (
                        e.0.0 == x && e.0.1 < y)) ==> edges@.contains(e),
                decreases self.height - y,
            {
                let ghost e0 = edges@;
                if x + 1 < self.width && self.has_wall((x, y), Direction::East) {
                    edges.push(((x, y), Direction::East));
                }
                let ghost e1 = edges@;
                if y + 1 < self.height && self.has_wall((x, y), Direction::South) {
                    edges.push(((x, y), Direction::South));
                }
                proof {
                    let e2 = edges@;
                    assert forall|i: int| 0 <= i < e2.len() implies is_grid_edge(
                        w,
                        h,
                        #[trigger] e2[i],
                    ) && self.wall(e2[i].0, e2[i].1) && (e2[i].0.0 < x || (e2[i].0.0 == x
                        && e2[i].0.1 < y + 1)) by {
                        if i < e0.len() {
                            assert(e2[i] == e0[i]);
                        }
                    }
                    assert forall|i: int, j: int| 0 <= i < e2.len() && 0 <= j < e2.len() && i
                        != j implies e2[i] != e2[j] by {
                        if i < e0.len() {
                            assert(e2[i] == e0[i]);
                        }
                        if j < e0.len() {
                            assert(e2[j] == e0[j]);
                        }
                    }
                    assert forall|e: Carve|
                        is_grid_edge(w, h, e) && #[trigger] self.wall(e.0, e.1) && (e.0.0 < x || (
                        e.0.0 == x && e.0.1 < y + 1)) implies e2.contains(e) by {
                        if e.0 == (x, y) {
                            if e.1 == Direction::East {
                                assert(e2[e0.len() as int] == e);
                            } else {
                                assert(e2[e1.len() as int] == e);
                            }
                        } else {
                            let k = choose|k: int| 0 <= k < e0.len() && e0[k] == e;
                            assert(e2[k] == e);
                        }
                    }
                }
                y += 1;
            }
            x += 1;
        }
        edges
    }

    /// Braids the maze with walls drawn by the generator of the thread; see
    /// [`Maze::break_random_walls_with`].
    pub fn break_random_walls(&mut self, amount: usize) -> (removed: Vec<Carve>)
        requires
            old(self).wf(),
        ensures
            old(self).is_braided_to(final(self), removed@, amount as int),
            old(self).walls_consistent() ==> final(self).walls_consistent(),
    {
        let mut rng = rng_from_entropy();
        self.break_random_walls_with(amount, &mut rng)
    }

    /// Braids the maze: takes down `amount` walls drawn at random, and returns them.
    /// A wall is drawn from the standing walls between cells of the grid, and is
    /// passed over if one of the two cells beside it belongs to the end region or is
    /// open towards fewer than two directions as things stand. If the walls run out
    /// before `amount` are down, braiding stops.
    pub fn break_random_walls_with(&mut self, amount: usize, rng: &mut StdRng) -> (removed: Vec<Carve>)
        requires
            old(self).wf(),
        ensures
            old(self).is_braided_to(final(self), removed@, amount as int),
            old(self).walls_consistent() ==> final(self).walls_consistent(),
    {
        let ghost w = self.width as int;
        let ghost h = self.height as int;
        let mut edge_set = self.closed_edges();
        let mut walls_to_break: Vec<Carve> = Vec::new();
        proof {
            reveal(Maze::braiding_ok);
            assert forall|e: Carve| #[trigger] self.is_removable(e) implies edge_set@.contains(e) by {
                assert(self.wall(e.0, e.1));
            }
        }
        while walls_to_break.len() < amount && edge_set.len() > 0
            invariant
                old(self).wf(),
                w == old(self).width,
                h == old(self).height,
                walls_to_break@.len() <= amount,
                old(self).braiding_ok(self, edge_set@, walls_to_break@),
            decreases edge_set@.len(),
        {
            let ghost pool = edge_set@;
            let ghost before = *self;
            let ghost removed = walls_to_break@;
            let index = random_below(rng, edge_set.len());
            let set_to_remove = edge_set.remove(index);
            proof {
                reveal(Maze::braiding_ok);
                assert(pool[index as int] == set_to_remove);
                assert(is_grid_edge(w, h, pool[index as int]));
            }
            let moved_coordinates = match self.move_from(&set_to_remove.1, &set_to_remove.0, 1) {
                Ok(c) => c,
                Err(_) => set_to_remove.0,
            };
            let passed_over = self.is_end(set_to_remove.0) || self.is_end(moved_coordinates)
                || self.get_cell(set_to_remove.0).walls.open_len() < 2 || self.get_cell(
                moved_coordinates,
            ).walls.open_len() < 2;
            if passed_over {
                proof {
                    old(self).lemma_pass_over(&before, pool, removed, index as int);
                }
                continue ;
            }
            self.break_wall(set_to_remove);
            walls_to_break.push(set_to_remove);
            proof {
                old(self).lemma_take_down(&before, self, pool, removed, index as int);
            }
        }
        proof {
            reveal(Maze::braiding_ok);
            if walls_to_break@.len() < amount {
                assert(edge_set@.len() == 0);
                assert forall|e: Carve| #[trigger] old(self).is_removable(e) implies walls_to_break@.contains(
                    e,
                ) by {
                    assert(!edge_set@.contains(e));
                }
            }
            if old(self).walls_consistent() {
                lemma_carving_keeps_walls_consistent(*old(self), *self, walls_to_break@);
            }
        }
        walls_to_break
    }

    /// Passing over a wall that may not be taken down as things stand keeps what
    /// braiding keeps true: it could not have been taken down to begin with.
    proof fn lemma_pass_over(&self, now: &Maze, pool: Seq<Carve>, removed: Seq<Carve>, index: int)
        requires
            self.wf(),
            self.braiding_ok(now, pool, removed),
            0 <= index < pool.len(),
            now.in_end(pool[index].0) || now.in_end(carve_target(pool[index]))
                || now.open_count_at(pool[index].0) < 2 || now.open_count_at(
                carve_target(pool[index]),
            ) < 2,
        ensures
            self.braiding_ok(now, pool.remove(index), removed),
    {
        reveal(Maze::braiding_ok);
        let rest = pool.remove(index);
        let e = pool[index];
        assert(is_grid_edge(self.width as int, self.height as int, pool[index]));
        assert(now.wall(e.0, e.1) ==> self.wall(e.0, e.1));
        self.lemma_opens_up(now, removed, e.0);
        self.lemma_opens_up(now, removed, carve_target(e));
        assert(!self.is_removable(e));
        lemma_pool_remove(pool, index);
        assert forall|i: int| 0 <= i < rest.len() implies is_grid_edge(
            self.width as int,
            self.height as int,
            #[trigger] rest[i],
        ) && self.wall(rest[i].0, rest[i].1) && !removed.contains(rest[i]) by {
            if i < index {
                assert(rest[i] == pool[i]);
            } else {
                assert(rest[i] == pool[i + 1]);
            }
        }
    }

    /// Taking walls down never closes a cell: a cell is open towards as many
    /// directions as before, or more.
    proof fn lemma_opens_up(&self, now: &Maze, removed: Seq<Carve>, c: Coordinate)
        requires
            self.wf(),
            now.wf(),
            now.same_frame(self),
            self.contains(c),
            forall|c: Coordinate, d: Direction|
                now.contains(c) ==> #[trigger] now.wall(c, d) == (self.wall(c, d) && !carves_open(
                    self.width as int,
                    self.height as int,
                    removed,
                    c,
                    d,
                )),
        ensures
            now.open_count_at(c) >= self.open_count_at(c),
    {
        assert(now.wall(c, Direction::North) ==> self.wall(c, Direction::North));
        assert(now.wall(c, Direction::East) ==> self.wall(c, Direction::East));
        assert(now.wall(c, Direction::South) ==> self.wall(c, Direction::South));
        assert(now.wall(c, Direction::West) ==> self.wall(c, Direction::West));
    }

    /// Taking down a wall from the pool that may be taken down keeps what braiding
    /// keeps true.
    proof fn lemma_take_down(
        &self,
        before: &Maze,
        after: &Maze,
        pool: Seq<Carve>,
        removed: Seq<Carve>,
        index: int,
    )
        requires
            self.wf(),
            self.braiding_ok(before, pool, removed),
            0 <= index < pool.len(),
            !before.in_end(pool[index].0),
            !before.in_end(carve_target(pool[index])),
            before.open_count_at(pool[index].0) >= 2,
            before.open_count_at(carve_target(pool[index])) >= 2,
            after.wf(),
            after.same_frame(before),
            forall|c: Coordinate, d: Direction|
                after.contains(c) ==> #[trigger] after.wall(c, d) == (before.wall(c, d)
                    && !carve_opens(
                    before.width as int,
                    before.height as int,
                    pool[index],
                    c,
                    d,
                )),
        ensures
            self.braiding_ok(after, pool.remove(index), removed.push(pool[index])),
    {
        reveal(Maze::braiding_ok);
        let w = self.width as int;
        let h = self.height as int;
        let rest = pool.remove(index);
        let e = pool[index];
        let more = removed.push(e);
        assert(is_grid_edge(w, h, pool[index]));
        lemma_pool_remove(pool, index);
        assert forall|c: Coordinate, d: Direction| after.contains(c) implies #[trigger] after.wall(
            c,
            d,
        ) == (self.wall(c, d) && !carves_open(w, h, more, c, d)) by {
            assert(before.wall(c, d) == (self.wall(c, d) && !carves_open(w, h, removed, c, d)));
            if carves_open(w, h, more, c, d) {
                let i = choose|i: int| 0 <= i < more.len() && carve_opens(w, h, #[trigger] more[i], c, d);
                if i < removed.len() {
                    assert(removed[i] == more[i]);
                }
            }
            if carves_open(w, h, removed, c, d) {
                let i = choose|i: int|
                    0 <= i < removed.len() && carve_opens(w, h, #[trigger] removed[i], c, d);
                assert(more[i] == removed[i]);
            }
            if carve_opens(w, h, e, c, d) {
                assert(more[removed.len() as int] == e);
            }
        }
        assert forall|i: int| 0 <= i < rest.len() implies is_grid_edge(w, h, #[trigger] rest[i])
            && self.wall(rest[i].0, rest[i].1) && !more.contains(rest[i]) by {
            let k = if i < index {
                i
            } else {
                i + 1
            };
            assert(rest[i] == pool[k]);
            assert(!removed.contains(pool[k]));
            if more.contains(rest[i]) {
                let j = choose|j: int| 0 <= j < more.len() && more[j] == rest[i];
                if j < removed.len() {
                    assert(removed[j] == more[j]);
                }
            }
        }
        assert forall|i: int| 0 <= i < more.len() implies {
            let x = #[trigger] more[i];
            &&& is_grid_edge(w, h, x)
            &&& self.wall(x.0, x.1)
            &&& !self.in_end(x.0)
            &&& !self.in_end(carve_target(x))
            &&& after.open_count_at(x.0) >= 2
            &&& after.open_count_at(carve_target(x)) >= 2
        } by {
            let x = more[i];
            if i < removed.len() {
                assert(more[i] == removed[i]);
            }
            before.lemma_opens_up_once(after, e, x.0);
            before.lemma_opens_up_once(after, e, carve_target(x));
        }
        assert(more.no_duplicates()) by {
            assert forall|i: int, j: int| 0 <= i < more.len() && 0 <= j < more.len() && i
                != j implies more[i] != more[j] by {
                if i < removed.len() {
                    assert(more[i] == removed[i]);
                }
                if j < removed.len() {
                    assert(more[j] == removed[j]);
                }
            }
        }
        assert forall|x: Carve| #[trigger] self.is_removable(x) implies rest.contains(x)
            || more.contains(x) by {
            if x == e {
                assert(more[removed.len() as int] == e);
            } else if removed.contains(x) {
                let j = choose|j: int| 0 <= j < removed.len() && removed[j] == x;
                assert(more[j] == x);
            }
        }
    }

    /// Taking one wall down never closes a cell.
    proof fn lemma_opens_up_once(&self, now: &Maze, carve: Carve, c: Coordinate)
        requires
            self.wf(),
            now.wf(),
            now.same_frame(self),
            self.contains(c),
            forall|c: Coordinate, d: Direction|
                now.contains(c) ==> #[trigger] now.wall(c, d) == (self.wall(c, d) && !carve_opens(
                    self.width as int,
                    self.height as int,
                    carve,
                    c,
                    d,
                )),
        ensures
            now.open_count_at(c) >= self.open_count_at(c),
    {
        assert(now.wall(c, Direction::North) ==> self.wall(c, Direction::North));
        assert(now.wall(c, Direction::East) ==> self.wall(c, Direction::East));
        assert(now.wall(c, Direction::South) ==> self.wall(c, Direction::South));
        assert(now.wall(c, Direction::West) ==> self.wall(c, Direction::West));
    }
}

/// Braiding takes down exactly as many walls as it is asked for, wherever the maze
/// has as many to offer: where `offered` are that many walls, no two the same, each of
/// which may be taken down.
pub proof fn lemma_braiding_is_exact(
    before: Maze,
    after: Maze,
    removed: Seq<Carve>,
    amount: int,
    offered: Seq<Carve>,
)
    requires
        before.is_braided_to(&after, removed, amount),
        offered.len() == amount,
        offered.no_duplicates(),
        forall|i: int| 0 <= i < offered.len() ==> before.is_removable(#[trigger] offered[i]),
    ensures
        removed.len() == amount,
{
    if removed.len() < amount {
        assert(offered.to_set().subset_of(removed.to_set())) by {
            assert forall|e: Carve| offered.to_set().contains(e) implies removed.to_set().contains(
                e,
            ) by {
                let i = choose|i: int| 0 <= i < offered.len() && offered[i] == e;
                assert(before.is_removable(offered[i]));
            }
        }
        offered.unique_seq_to_set();
        removed.unique_seq_to_set();
        vstd::seq_lib::seq_to_set_is_finite(removed);
        vstd::set_lib::lemma_len_subset(offered.to_set(), removed.to_set());
    }
}

/// What is left of a pool without duplicates when one entry is taken out: every
/// other entry, and not the one taken.
proof fn lemma_pool_remove(pool: Seq<Carve>, index: int)
    requires
        pool.no_duplicates(),
        0 <= index < pool.len(),
    ensures
        pool.remove(index).no_duplicates(),
        !pool.remove(index).contains(pool[index]),
        forall|e: Carve| pool.contains(e) && e != pool[index] ==> pool.remove(index).contains(e),
{
    let rest = pool.remove(index);
    assert forall|i: int, j: int| 0 <= i < rest.len() && 0 <= j < rest.len() && i
        != j implies rest[i] != rest[j] by {
        let a = if i < index {
            i
        } else {
            i + 1
        };
        let b = if j < index {
            j
        } else {
            j + 1
        };
        assert(rest[i] == pool[a]);
        assert(rest[j] == pool[b]);
    }
    if rest.contains(pool[index]) {
        let i = choose|i: int| 0 <= i < rest.len() && rest[i] == pool[index];
        let a = if i < index {
            i
        } else {
            i + 1
        };
        assert(rest[i] == pool[a]);
    }
    assert forall|e: Carve| pool.contains(e) && e != pool[index] implies rest.contains(e) by {
        let k = choose|k: int| 0 <= k < pool.len() && pool[k] == e;
        if k < index {
            assert(rest[k] == pool[k]);
        } else {
            assert(rest[k - 1] == pool[k]);
        }
    }
}

} // verus!
