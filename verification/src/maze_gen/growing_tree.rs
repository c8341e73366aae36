//! The growing-tree family of algorithms: the tree grows from cells picked out of a
//! list of active cells, and how they are picked makes the algorithm.

use crate::carving::Carving;
use crate::connectivity::{is_closed, lemma_grid_is_connected, reaches};
use crate::direction::{Coordinate, Direction};
use crate::maze::{carve_target, carve_valid, inside, step, Carve, Maze};
use crate::rng::random_below;
use crate::spanning::{
    covers_grid, crosses_end, door_in_use, grid_links, grows_from, hangs_on, has_single_door,
    is_carve_list, is_grown_out, is_spanning_tree, outside_hangs_together, outside_links,
};
use rand::rngs::StdRng;
use vstd::prelude::*;

verus! {

/// A way of picking the cell from which the tree grows next.
pub trait Chooser {
    /// The place in `active` of the cell to grow from. A place beyond the end of the
    /// list counts as the last.
    fn pick(&mut self, active: &Vec<Coordinate>) -> usize;
}

/// Always the cell added last. The tree then grows like a depth-first search, which
/// gives the recursive backtracker.
#[derive(Debug, Clone, Copy)]
pub struct LastAdded;

impl Chooser for LastAdded {
    fn pick(&mut self, active: &Vec<Coordinate>) -> (index: usize)
        ensures
            active@.len() > 0 ==> index == active@.len() - 1,
    {
        if active.len() == 0 {
            0
        } else {
            active.len() - 1
        }
    }
}

/// Any active cell, each as likely as the others. The tree then grows like Prim's
/// algorithm on random weights.
pub struct UniformRandom {
    pub rng: StdRng,
}

impl Chooser for UniformRandom {
    fn pick(&mut self, active: &Vec<Coordinate>) -> (index: usize)
        ensures
            active@.len() > 0 ==> index < active@.len(),
    {
        if active.len() == 0 {
            0
        } else {
            random_below(&mut self.rng, active.len())
        }
    }
}

/// The cell from which the tree grows: the first cell of the end region, or the
/// start of the maze where the end region is empty.
pub open spec fn growth_root(maze: &Maze) -> Coordinate {
    if maze.end@.len() > 0 {
        maze.end@[0]
    } else {
        maze.start
    }
}

/// Whether nothing can grow from the covered cell `v` any more: every cell next to
/// it is covered, or `v` belongs to the end region and the door of the end region is
/// in use.
pub open spec fn is_exhausted(maze: &Maze, tree: &Carving, door: Option<Coordinate>, v: Coordinate) -> bool {
    forall|d: Direction|
        inside(maze.width as int, maze.height as int, #[trigger] step(v, d, 1))
            ==> tree.visited.has(carve_target((v, d))) || (maze.in_end(v) && door is Some)
}

/// What the growing keeps true: active cells are covered; the end region is covered;
/// a covered cell that is not active is exhausted; the door, once in use, leads to a
/// covered cell outside the end region and is one of the carves; and no second carve
/// crosses into or out of the end region.
#[verifier::opaque]
pub open spec fn growing_ok(
    maze: &Maze,
    tree: &Carving,
    active: Seq<Coordinate>,
    door: Option<Coordinate>,
) -> bool {
    &&& forall|i: int| 0 <= i < active.len() ==> tree.visited.has(#[trigger] active[i])
    &&& forall|i: int| 0 <= i < maze.end@.len() ==> tree.visited.has(#[trigger] maze.end@[i])
    &&& forall|v: Coordinate| #[trigger]
        tree.visited.has(v) ==> active.contains(v) || is_exhausted(maze, tree, door, v)
    &&& door matches Some(o) ==> tree.visited.has(o) && !maze.in_end(o)
    &&& has_single_door(maze.end@, tree.carves@)
    &&& door is None ==> forall|i: int|
        0 <= i < tree.carves@.len() ==> !crosses_end(maze.end@, #[trigger] tree.carves@[i])
    &&& door is Some ==> door_in_use(maze.end@, tree.carves@)
}

/// The cell next to `current` towards `d`, if the tree may grow there: it lies on
/// the grid, is not covered, and the step does not cross the border of the end region
/// while the door is in use.
fn candidate(maze: &Maze, tree: &Carving, current: Coordinate, d: Direction, door_used: bool) -> (r:
    Option<Coordinate>)
    requires
        tree.inv(maze),
    ensures
        r matches Some(n) ==> {
            &&& carve_valid(maze.width as int, maze.height as int, (current, d))
            &&& n == carve_target((current, d))
            &&& !tree.visited.has(n)
            &&& crosses_end(maze.end@, (current, d)) ==> !door_used
        },
        r is None && inside(maze.width as int, maze.height as int, step(current, d, 1))
            && maze.contains(current) ==> tree.visited.has(carve_target((current, d))) || (
        crosses_end(maze.end@, (current, d)) && door_used),
{
    if !(current.0 < maze.width && current.1 < maze.height) {
        return None;
    }
    let new_coordinates = match maze.move_from(&d, &current, 1) {
        Ok(coordinates) => coordinates,
        Err(_) => {
            return None;
        },
    };
    if tree.is_visited(maze, new_coordinates) {
        return None;
    }
    let crossing = maze.is_end(current) != maze.is_end(new_coordinates);
    if crossing && door_used {
        return None;
    }
    Some(new_coordinates)
}

/// Once no cell is active, the tree covers the grid, provided the cells outside the
/// end region hang together.
proof fn lemma_grown_covers_all(maze: &Maze, tree: &Carving, door: Option<Coordinate>)
    requires
        tree.inv(maze),
        tree.root is Some,
        growing_ok(maze, tree, Seq::<Coordinate>::empty(), door),
        outside_hangs_together(maze.width as int, maze.height as int, maze.end@),
    ensures
        tree.visited.count() == maze.width * maze.height,
{
    reveal(growing_ok);
    reveal(Carving::inv);
    let w = maze.width as int;
    let h = maze.height as int;
    let end = maze.end@;
    let none = Seq::<Coordinate>::empty();
    assert forall|v: Coordinate| #[trigger] tree.visited.has(v) implies is_exhausted(
        maze,
        tree,
        door,
        v,
    ) by {
        assert(!none.contains(v));
    }
    assert forall|c: Coordinate| c.0 < w && c.1 < h implies tree.visited.has(c) by {
        if end.contains(c) {
            let i = choose|i: int| 0 <= i < end.len() && end[i] == c;
            assert(tree.visited.has(end[i]));
        } else {
            match door {
                Some(o) => {
                    let links = outside_links(w, h, end);
                    let cells = Set::new(|x: Coordinate| tree.visited.has(x) && !end.contains(x));
                    assert(is_closed(links, cells)) by {
                        assert forall|a: Coordinate, b: Coordinate|
                            cells.contains(a) && #[trigger] links(a, b) implies cells.contains(
                            b,
                        ) by {
                            let d = choose|d: Direction|
                                inside(w, h, #[trigger] step(a, d, 1)) && carve_target((a, d)) == b;
                            assert(is_exhausted(maze, tree, door, a));
                        }
                    }
                    tree.visited.lemma_has_on_grid(o);
                    assert(reaches(links, o, c));
                    assert(cells.contains(o));
                    assert(cells.contains(c));
                },
                None => {
                    let links = grid_links(w, h);
                    let root = tree.root.unwrap();
                    let cells = tree.visited@;
                    assert(is_closed(links, cells)) by {
                        assert forall|a: Coordinate, b: Coordinate|
                            cells.contains(a) && #[trigger] links(a, b) implies cells.contains(
                            b,
                        ) by {
                            let d = choose|d: Direction|
                                inside(w, h, #[trigger] step(a, d, 1)) && carve_target((a, d)) == b;
                            assert(is_exhausted(maze, tree, door, a));
                        }
                    }
                    tree.visited.lemma_has_on_grid(root);
                    lemma_grid_is_connected(links, w, h, cells, root, c);
                },
            }
        }
    }
    tree.visited.lemma_full();
}

/// Taking an exhausted cell off the list of active cells keeps what the growing
/// keeps true.
proof fn lemma_retire(
    maze: &Maze,
    tree: &Carving,
    active: Seq<Coordinate>,
    door: Option<Coordinate>,
    index: int,
)
    requires
        growing_ok(maze, tree, active, door),
        0 <= index < active.len(),
        is_exhausted(maze, tree, door, active[index]),
    ensures
        growing_ok(maze, tree, active.remove(index), door),
{
    reveal(growing_ok);
    let rest = active.remove(index);
    assert forall|i: int| 0 <= i < rest.len() implies tree.visited.has(#[trigger] rest[i]) by {
        if i < index {
            assert(rest[i] == active[i]);
        } else {
            assert(rest[i] == active[i + 1]);
        }
    }
    assert forall|v: Coordinate| #[trigger] tree.visited.has(v) implies rest.contains(v)
        || is_exhausted(maze, tree, door, v) by {
        if active.contains(v) && v != active[index] {
            let k = choose|k: int| 0 <= k < active.len() && active[k] == v;
            if k < index {
                assert(rest[k] == active[k]);
            } else {
                assert(rest[k - 1] == active[k]);
            }
        }
    }
}

/// Growing the tree by a carve from an active cell to a cell that is not covered,
/// which becomes active, keeps what the growing keeps true.
proof fn lemma_grow(
    maze: &Maze,
    before: &Carving,
    after: &Carving,
    active: Seq<Coordinate>,
    door: Option<Coordinate>,
    carve: Carve,
)
    requires
        before.inv(maze),
        growing_ok(maze, before, active, door),
        carve_valid(maze.width as int, maze.height as int, carve),
        before.visited.has(carve.0),
        !before.visited.has(carve_target(carve)),
        crosses_end(maze.end@, carve) ==> door is None,
        after.carves@ == before.carves@.push(carve),
        forall|c: Coordinate|
            #[trigger] after.visited.has(c) == (before.visited.has(c) || c == carve_target(carve)
                || (maze.in_end(carve_target(carve)) && maze.in_end(c))),
    ensures
        growing_ok(
            maze,
            after,
            active.push(carve_target(carve)),
            if crosses_end(maze.end@, carve) {
                Some(carve_target(carve))
            } else {
                door
            },
        ),
{
    reveal(growing_ok);
    let fresh = carve_target(carve);
    let longer = active.push(fresh);
    let end = maze.end@;
    let new_door = if crosses_end(end, carve) {
        Some(fresh)
    } else {
        door
    };
    if end.contains(fresh) {
        let i = choose|i: int| 0 <= i < end.len() && end[i] == fresh;
        assert(before.visited.has(end[i]));
    }
    assert forall|i: int| 0 <= i < longer.len() implies after.visited.has(#[trigger] longer[i]) by {
        if i < active.len() {
            assert(longer[i] == active[i]);
        }
    }
    assert forall|i: int| 0 <= i < end.len() implies after.visited.has(#[trigger] end[i]) by {
        assert(before.visited.has(end[i]));
    }
    assert forall|v: Coordinate| #[trigger] after.visited.has(v) implies longer.contains(v)
        || is_exhausted(maze, after, new_door, v) by {
        if v == fresh {
            assert(longer[active.len() as int] == fresh);
        } else {
            assert(before.visited.has(v));
            if active.contains(v) {
                let k = choose|k: int| 0 <= k < active.len() && active[k] == v;
                assert(longer[k] == v);
            } else {
                assert(is_exhausted(maze, before, door, v));
                assert forall|d: Direction|
                    inside(
                        maze.width as int,
                        maze.height as int,
                        #[trigger] step(v, d, 1),
                    ) implies after.visited.has(carve_target((v, d))) || (maze.in_end(v)
                    && new_door is Some) by {
                    assert(before.visited.has(carve_target((v, d))) || (maze.in_end(v)
                        && door is Some));
                }
            }
        }
    }
    assert forall|i: int, j: int| 0 <= i < j < after.carves@.len() implies !(crosses_end(
        end,
        #[trigger] after.carves@[i],
    ) && crosses_end(end, #[trigger] after.carves@[j])) by {
        assert(after.carves@[i] == before.carves@[i]);
        if j < before.carves@.len() {
            assert(after.carves@[j] == before.carves@[j]);
        }
    }
    if new_door is None {
        assert forall|i: int| 0 <= i < after.carves@.len() implies !crosses_end(
            end,
            #[trigger] after.carves@[i],
        ) by {
            if i < before.carves@.len() {
                assert(after.carves@[i] == before.carves@[i]);
            }
        }
    } else if crosses_end(end, carve) {
        assert(crosses_end(end, after.carves@[before.carves@.len() as int]));
    } else {
        let i = choose|i: int|
            0 <= i < before.carves@.len() && crosses_end(end, #[trigger] before.carves@[i]);
        assert(crosses_end(end, after.carves@[i]));
    }
}

/// Once no cell is active, the tree can grow no further.
proof fn lemma_grown_out(maze: &Maze, tree: &Carving, door: Option<Coordinate>)
    requires
        tree.inv(maze),
        tree.directed(maze, false),
        tree.root is Some,
        growing_ok(maze, tree, Seq::<Coordinate>::empty(), door),
    ensures
        is_grown_out(
            maze.width as int,
            maze.height as int,
            maze.end@,
            tree.carves@,
            false,
            tree.root.unwrap(),
        ),
{
    reveal(growing_ok);
    let w = maze.width as int;
    let h = maze.height as int;
    let end = maze.end@;
    let carves = tree.carves@;
    let root = tree.root.unwrap();
    let n = carves.len() as int;
    let none = Seq::<Coordinate>::empty();
    tree.lemma_grown(maze, false);
    assert forall|v: Coordinate, d: Direction|
        inside(w, h, (v.0 as int, v.1 as int)) && inside(w, h, #[trigger] step(v, d, 1)) && hangs_on(
            end,
            carves,
            false,
            root,
            v,
            n,
        ) implies hangs_on(end, carves, false, root, carve_target((v, d)), n) || (end.contains(v)
        && door_in_use(end, carves)) by {
        assert(maze.contains(v));
        assert(tree.visited.has(v));
        assert(!none.contains(v));
        assert(is_exhausted(maze, tree, door, v));
        assert(maze.contains(carve_target((v, d))));
    }
}

/// What holds of the carves that a growing-tree algorithm gives for `maze`: they
/// name each wall once, none inside the end region and at most one across its
/// border; in their order they grow a tree from the end region, or from the start
/// of the maze, each carve leading from the tree to a new cell; and that tree can
/// grow no further.
pub open spec fn is_growing_tree_maze(maze: &Maze, carves: Seq<Carve>) -> bool {
    let width = maze.width as int;
    let height = maze.height as int;
    &&& is_carve_list(width, height, maze.end@, carves)
    &&& has_single_door(maze.end@, carves)
    &&& grows_from(width, height, maze.end@, carves, false, growth_root(maze))
    &&& is_grown_out(width, height, maze.end@, carves, false, growth_root(maze))
    &&& outside_hangs_together(width, height, maze.end@) ==> covers_grid(
        width,
        height,
        maze.end@,
        carves,
        false,
        growth_root(maze),
    )
}

/// The carves of a maze by a growing-tree algorithm. The tree starts as the end
/// region, or, where that is empty, as the start of the maze, and these cells are
/// the first active ones. Again and again `chooser` picks an active cell; if the
/// tree can grow from it to a cell next to it, it grows to one of these, drawn at
/// random, and that cell becomes active; if not, the cell picked is active no
/// longer. The tree leaves the end region by one carve only, the door.
///
/// The carves name each wall once and none inside the end region. In their order
/// they grow a tree from the end region, or from the start of the maze: each carve
/// starts on the tree and ends at a cell that no carve reached before. At most one
/// of them crosses the border of the end region. At the end the tree can grow no
/// further: a cell next to it that it lacks lies beyond the border of the end region,
/// whose door is in use. So the carves are a spanning tree of the grid, the end region
/// taken as one place, wherever the single door allows one: where the cells outside
/// the end region hang together.
pub fn growing_tree_maze<C: Chooser>(maze: &Maze, rng: StdRng, chooser: &mut C) -> (walls_to_break:
    Vec<Carve>)
    requires
        maze.wf(),
    ensures
        is_carve_list(maze.width as int, maze.height as int, maze.end@, walls_to_break@),
        has_single_door(maze.end@, walls_to_break@),
        grows_from(
            maze.width as int,
            maze.height as int,
            maze.end@,
            walls_to_break@,
            false,
            growth_root(maze),
        ),
        is_grown_out(
            maze.width as int,
            maze.height as int,
            maze.end@,
            walls_to_break@,
            false,
            growth_root(maze),
        ),
        outside_hangs_together(maze.width as int, maze.height as int, maze.end@) ==> covers_grid(
            maze.width as int,
            maze.height as int,
            maze.end@,
            walls_to_break@,
            false,
            growth_root(maze),
        ),
        outside_hangs_together(maze.width as int, maze.height as int, maze.end@)
            ==> is_spanning_tree(
            maze.width as int,
            maze.height as int,
            maze.end@,
            walls_to_break@,
        ),
{
    let mut rng = rng;
    let mut tree = Carving::new(maze);
    let mut active: Vec<Coordinate> = Vec::new();
    let mut door: Option<Coordinate> = None;
    if maze.end.len() > 0 {
        tree.seed(maze, maze.end[0]);
        let mut i: usize = 0;
        while i < maze.end.len()
            invariant
                i <= maze.end@.len(),
                active@ == maze.end@.take(i as int),
            decreases maze.end@.len() - i,
        {
            active.push(maze.end[i]);
            proof {
                assert(active@ =~= maze.end@.take(i + 1));
            }
            i += 1;
        }
        proof {
            assert(active@ =~= maze.end@);
            assert(maze.in_end(maze.end@[0]));
        }
    } else {
        tree.seed(maze, maze.start);
        active.push(maze.start);
        proof {
            assert(active@[0] == maze.start);
        }
    }
    proof {
        reveal(growing_ok);
        assert forall|v: Coordinate| #[trigger] tree.visited.has(v) implies active@.contains(v) by {
            if maze.end@.len() > 0 {
                if v != maze.end@[0] {
                    assert(maze.in_end(v));
                }
            }
        }
    }
    while active.len() > 0
        invariant
            maze.wf(),
            tree.inv(maze),
            tree.directed(maze, false),
            tree.root == Some(growth_root(maze)),
            growing_ok(maze, &tree, active@, door),
        decreases maze.width * maze.height - tree.visited.count(), active@.len(),
    {
        let picked = chooser.pick(&active);
        let index = if picked < active.len() {
            picked
        } else {
            active.len() - 1
        };
        let current = active[index];
        proof {
            reveal(growing_ok);
            assert(tree.visited.has(active@[index as int]));
            tree.visited.lemma_has_on_grid(current);
            reveal(Carving::inv);
        }
        let door_used = door.is_some();
        let mut new_cells: Vec<(Direction, Coordinate)> = Vec::new();
        let north = candidate(maze, &tree, current, Direction::North, door_used);
        if let Some(n) = north {
            new_cells.push((Direction::North, n));
        }
        let east = candidate(maze, &tree, current, Direction::East, door_used);
        if let Some(n) = east {
            new_cells.push((Direction::East, n));
        }
        let south = candidate(maze, &tree, current, Direction::South, door_used);
        if let Some(n) = south {
            new_cells.push((Direction::South, n));
        }
        let west = candidate(maze, &tree, current, Direction::West, door_used);
        if let Some(n) = west {
            new_cells.push((Direction::West, n));
        }
        assert(forall|k: int|
            0 <= k < new_cells@.len() ==> {
                let (d, n) = #[trigger] new_cells@[k];
                &&& carve_valid(maze.width as int, maze.height as int, (current, d))
                &&& n == carve_target((current, d))
                &&& !tree.visited.has(n)
                &&& crosses_end(maze.end@, (current, d)) ==> !door_used
            });
        if new_cells.len() == 0 {
            proof {
                assert forall|d: Direction|
                    inside(
                        maze.width as int,
                        maze.height as int,
                        #[trigger] step(current, d, 1),
                    ) implies tree.visited.has(carve_target((current, d))) || (maze.in_end(current)
                    && door is Some) by {
                    match d {
                        Direction::North => {
                            assert(north is None);
                        },
                        Direction::East => {
                            assert(east is None);
                        },
                        Direction::South => {
                            assert(south is None);
                        },
                        Direction::West => {
                            assert(west is None);
                        },
                    }
                    let n = carve_target((current, d));
                    if !tree.visited.has(n) {
                        assert(crosses_end(maze.end@, (current, d)));
                        if maze.in_end(n) {
                            let i = choose|i: int| 0 <= i < maze.end@.len() && maze.end@[i] == n;
                            assert(tree.visited.has(maze.end@[i]));
                        }
                    }
                }
                lemma_retire(maze, &tree, active@, door, index as int);
            }
            active.remove(index);
        } else {
            let chosen = new_cells[random_below(&mut rng, new_cells.len())];
            let carve: Carve = (current, chosen.0);
            let ghost before = tree;
            proof {
                if maze.in_end(chosen.1) {
                    let i = choose|i: int| 0 <= i < maze.end@.len() && maze.end@[i] == chosen.1;
                    assert(tree.visited.has(maze.end@[i]));
                }
            }
            tree.attach(maze, carve, false);
            proof {
                lemma_grow(maze, &before, &tree, active@, door, carve);
                reveal(Carving::inv);
                tree.visited.lemma_count_bound();
            }
            if maze.is_end(current) != maze.is_end(chosen.1) {
                door = Some(chosen.1);
            }
            active.push(chosen.1);
        }
    }
    proof {
        reveal(growing_ok);
        assert(active@ =~= Seq::<Coordinate>::empty());
        tree.lemma_is_tree(maze);
        tree.lemma_grown(maze, false);
        lemma_grown_out(maze, &tree, door);
        if outside_hangs_together(maze.width as int, maze.height as int, maze.end@) {
            lemma_grown_covers_all(maze, &tree, door);
        }
    }
    tree.carves
}

} // verus!
