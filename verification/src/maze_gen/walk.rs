//! The loop-erased walk: a walk from a cell that the tree does not cover to one that
//! it does, with every loop cut out as soon as it closes.

use crate::carving::Carving;
use crate::direction::{Coordinate, Direction};
use crate::maze::{carve_target, carve_valid, inside, step, Carve, Maze};
use crate::rng::random_below;
use crate::solving_algorithms::routes::distance;
use rand::rngs::StdRng;
use vstd::prelude::*;

verus! {

/// How a walker picks the direction of its next step.
#[derive(Debug, Clone, Copy, PartialEq, Eq, Structural)]
pub enum WalkPolicy {
    /// Any of the four directions, each as likely as the others.
    Uniform,
    /// North or east, each as likely as the other. A direction that leads off the
    /// grid is not taken, nor one that leads into the end region while the other
    /// does not.
    NorthEast,
}

/// Whether two cells are the same place: the same cell, or both of the end region.
pub open spec fn same_place(maze: &Maze, a: Coordinate, b: Coordinate) -> bool {
    a == b || (maze.in_end(a) && maze.in_end(b))
}

/// Whether `path` is a walk of carves from the place of `origin` to the tree: every
/// carve starts at a place that the tree does not cover and leads to another place,
/// where the next carve starts; the last carve ends on the tree; and no place is
/// left twice.
pub open spec fn is_walk_to_tree(
    maze: &Maze,
    covered: Set<Coordinate>,
    origin: Coordinate,
    path: Seq<Carve>,
) -> bool {
    &&& path.len() >= 1
    &&& same_place(maze, path[0].0, origin)
    &&& covered.contains(carve_target(path.last()))
    &&& is_open_walk(maze, covered, path)
    &&& forall|i: int|
        0 <= i < path.len() - 1 ==> !covered.contains(carve_target(#[trigger] path[i]))
}

/// Whether `path` is a walk of carves that has not closed a loop: every carve starts
/// at a place that the tree does not cover and leads to another place on the grid,
/// each carve but the last leads to the place where the next starts, and no place is
/// left twice.
pub open spec fn is_open_walk(maze: &Maze, covered: Set<Coordinate>, path: Seq<Carve>) -> bool {
    &&& forall|i: int|
        0 <= i < path.len() ==> {
            let carve = #[trigger] path[i];
            &&& carve_valid(maze.width as int, maze.height as int, carve)
            &&& !covered.contains(carve.0)
            &&& !same_place(maze, carve.0, carve_target(carve))
        }
    &&& forall|i: int|
        0 <= i < path.len() - 1 ==> #[trigger] follows(maze, path, i)
    &&& forall|i: int, j: int|
        0 <= i < j < path.len() ==> !same_place(maze, (#[trigger] path[i]).0, (#[trigger] path[j]).0)
}

/// Whether the carve at place `i` of `path` leads to the place where the next
/// starts.
pub open spec fn follows(maze: &Maze, path: Seq<Carve>, i: int) -> bool {
    same_place(maze, carve_target(path[i]), path[i + 1].0)
}

/// How far the cell `c` is from the south-west corner of the grid, in steps north
/// and east. Every step north or east leads to a cell of the next rank.
pub open spec fn north_east_rank(maze: &Maze, c: Coordinate) -> int {
    c.0 + (maze.height - 1 - c.1)
}

/// Whether a walk by `policy` with `budget` steps towards the tree that grows from
/// `target` takes steps north and east only: the policy offers no other, the tree
/// grows from the north-east corner, and the budget covers the way from any cell to
/// that corner.
pub open spec fn runs_north_east(maze: &Maze, target: Coordinate, policy: WalkPolicy, budget: usize) -> bool {
    &&& policy == WalkPolicy::NorthEast
    &&& target == ((maze.width - 1) as usize, 0usize)
    &&& budget >= maze.width + maze.height - 1
}

/// The direction that leads from `from` straight towards `to`: along the row first,
/// then along the column.
pub fn toward(from: Coordinate, to: Coordinate) -> (d: Direction)
    requires
        from != to,
    ensures
        distance(carve_target((from, d)), to) + 1 == distance(from, to),
        step(from, d, 1).0 >= 0,
        step(from, d, 1).1 >= 0,
        step(from, d, 1).0 <= (if from.0 >= to.0 {
            from.0
        } else {
            to.0
        }),
        step(from, d, 1).1 <= (if from.1 >= to.1 {
            from.1
        } else {
            to.1
        }),
{
    if from.0 < to.0 {
        Direction::East
    } else if from.0 > to.0 {
        Direction::West
    } else if from.1 < to.1 {
        Direction::South
    } else {
        Direction::North
    }
}

/// Whether two cells are the same place.
fn is_same_place(maze: &Maze, a: Coordinate, b: Coordinate) -> (r: bool)
    ensures
        r == same_place(maze, a, b),
{
    (a.0 == b.0 && a.1 == b.1) || (maze.is_end(a) && maze.is_end(b))
}

/// The place in `path` of the first carve that starts at the place of `cell`.
fn find_place(maze: &Maze, path: &Vec<Carve>, cell: Coordinate) -> (r: Option<usize>)
    ensures
        r matches Some(i) ==> i < path@.len() && same_place(maze, path@[i as int].0, cell),
        r is None ==> forall|i: int| 0 <= i < path@.len() ==> !same_place(maze, (#[trigger] path@[i]).0, cell),
{
    let mut i: usize = 0;
    while i < path.len()
        invariant
            i <= path@.len(),
            forall|j: int| 0 <= j < i ==> !same_place(maze, (#[trigger] path@[j]).0, cell),
        decreases path@.len() - i,
    {
        if is_same_place(maze, path[i].0, cell) {
            return Some(i);
        }
        i += 1;
    }
    None
}

/// Whether a step from `current` towards `d` stays on the grid and does not lead
/// from outside the end region into it.
pub open spec fn spec_keeps_out(maze: &Maze, current: Coordinate, d: Direction) -> bool {
    match maze.spec_move_from(d, current, 1) {
        Ok(next) => !maze.in_end(next) || maze.in_end(current),
        Err(_) => false,
    }
}

/// Whether a step from `current` towards `d` stays on the grid and does not lead
/// from outside the end region into it.
fn keeps_out(maze: &Maze, current: Coordinate, d: Direction) -> (r: bool)
    ensures
        r == spec_keeps_out(maze, current, d),
{
    match maze.move_from(&d, &current, 1) {
        Ok(next) => !maze.is_end(next) || maze.is_end(current),
        Err(_) => false,
    }
}

/// Picks the direction of the next step by `policy`. `None` means that the policy has
/// no direction to offer from `current`.
fn pick_direction(maze: &Maze, current: Coordinate, policy: WalkPolicy, rng: &mut StdRng) -> (r:
    Option<Direction>)
    ensures
        policy == WalkPolicy::NorthEast ==> match r {
            Some(d) => (d == Direction::North || d == Direction::East) && maze.spec_move_from(
                d,
                current,
                1,
            ) is Ok,
            None => maze.spec_move_from(Direction::North, current, 1) is Err
                && maze.spec_move_from(Direction::East, current, 1) is Err,
        },
{
    match policy {
        WalkPolicy::Uniform => Some(Direction::random(rng)),
        WalkPolicy::NorthEast => {
            let mut north = keeps_out(maze, current, Direction::North);
            let mut east = keeps_out(maze, current, Direction::East);
            if !north && !east {
                north = maze.move_from(&Direction::North, &current, 1).is_ok();
                east = maze.move_from(&Direction::East, &current, 1).is_ok();
            }
            if north && east {
                if random_below(rng, 2) == 0 {
                    Some(Direction::North)
                } else {
                    Some(Direction::East)
                }
            } else if north {
                Some(Direction::North)
            } else if east {
                Some(Direction::East)
            } else {
                None
            }
        },
    }
}

/// Walks from `origin`, a cell that the tree does not cover, until the tree is
/// reached, and returns the carves of the walk with every loop cut out. For up to
/// `budget` steps the direction is picked by `policy`; after that, or where the
/// policy has none to offer, the walker heads straight for `target`, a cell of the
/// tree, so every walk ends.
pub fn loop_erased_walk(
    maze: &Maze,
    tree: &Carving,
    origin: Coordinate,
    target: Coordinate,
    policy: WalkPolicy,
    budget: usize,
    rng: &mut StdRng,
) -> (path: Vec<Carve>)
    requires
        tree.inv(maze),
        maze.contains(origin),
        maze.contains(target),
        !tree.visited.has(origin),
        tree.visited.has(target),
    ensures
        is_walk_to_tree(maze, tree.visited@, origin, path@),
        runs_north_east(maze, target, policy, budget) ==> forall|i: int|
            0 <= i < path@.len() ==> (#[trigger] path@[i]).1 == Direction::North || path@[i].1
                == Direction::East,
{
    let ghost covered = tree.visited@;
    let mut path: Vec<Carve> = Vec::new();
    let mut current = origin;
    let mut left = budget;
    proof {
        reveal(Carving::inv);
    }
    loop
        invariant
            tree.inv(maze),
            maze.wf(),
            covered == tree.visited@,
            maze.contains(target),
            tree.visited.has(target),
            maze.contains(current),
            !tree.visited.has(current),
            path@.len() == 0 ==> same_place(maze, current, origin),
            path@.len() > 0 ==> same_place(maze, path@[0].0, origin) && same_place(
                maze,
                carve_target(path@.last()),
                current,
            ),
            is_open_walk(maze, covered, path@),
            forall|i: int| 0 <= i < path@.len() ==> !covered.contains(carve_target(#[trigger] path@[i])),
            forall|i: int| 0 <= i < path@.len() ==> !same_place(maze, (#[trigger] path@[i]).0, current),
            runs_north_east(maze, target, policy, budget) ==> left + north_east_rank(maze, current)
                >= budget && forall|i: int|
                0 <= i < path@.len() ==> (#[trigger] path@[i]).1 == Direction::North || path@[i].1
                    == Direction::East,
        decreases left, distance(current, target),
    {
        let ghost rank = north_east_rank(maze, current);
        let picked: Option<Direction> = if left > 0 {
            left = left - 1;
            pick_direction(maze, current, policy, rng)
        } else {
            None
        };
        proof {
            if runs_north_east(maze, target, policy, budget) {
                // The walker is not in the corner, so it can go north or east, and it
                // has steps left, because every step takes it nearer the corner.
                assert(current != target);
                assert(picked is Some);
            }
        }
        let direction = match picked {
            Some(d) => d,
            None => {
                left = 0;
                toward(current, target)
            },
        };
        let next = match maze.move_from(&direction, &current, 1) {
            Ok(coordinates) => coordinates,
            Err(_) => {
                assert(picked is Some);
                continue ;
            },
        };
        proof {
            if picked is None {
                assert(distance(next, target) < distance(current, target));
            }
            if maze.in_end(current) && maze.in_end(next) {
                tree.lemma_end_is_one(maze, current, next);
            }
        }
        if is_same_place(maze, current, next) {
            // A step inside the end region: the walker moves, nothing is carved.
            proof {
                assert forall|i: int| 0 <= i < path@.len() implies !same_place(
                    maze,
                    (#[trigger] path@[i]).0,
                    next,
                ) by {
                    assert(!same_place(maze, path@[i].0, current));
                }
            }
            current = next;
            continue ;
        }
        let carve: Carve = (current, direction);
        if tree.is_visited(maze, next) {
            let ghost before = path@;
            path.push(carve);
            proof {
                lemma_walk_push(maze, covered, before, carve, current);
                assert(path@.last() == carve);
                if runs_north_east(maze, target, policy, budget) {
                    assert forall|i: int| 0 <= i < path@.len() implies (#[trigger] path@[i]).1
                        == Direction::North || path@[i].1 == Direction::East by {
                        if i < before.len() {
                            assert(path@[i] == before[i]);
                        }
                    }
                }
                assert(path@[0] == (if before.len() == 0 {
                    carve
                } else {
                    before[0]
                }));
                assert forall|i: int| 0 <= i < path@.len() - 1 implies !covered.contains(
                    carve_target(#[trigger] path@[i]),
                ) by {
                    assert(path@[i] == before[i]);
                }
            }
            return path;
        }
        match find_place(maze, &path, next) {
            Some(index) => {
                let ghost before = path@;
                path.truncate(index);
                proof {
                    lemma_walk_truncate(maze, covered, before, index as int);
                    assert(path@ =~= before.take(index as int));
                    if index > 0 {
                        assert(follows(maze, before, index - 1));
                        assert(path@.last() == before[index - 1]);
                    }
                    assert forall|i: int| 0 <= i < path@.len() implies !same_place(
                        maze,
                        (#[trigger] path@[i]).0,
                        next,
                    ) by {
                        assert(path@[i] == before[i]);
                        assert(!same_place(maze, before[i].0, before[index as int].0));
                    }
                    if runs_north_east(maze, target, policy, budget) {
                        assert forall|i: int| 0 <= i < path@.len() implies (#[trigger] path@[i]).1
                            == Direction::North || path@[i].1 == Direction::East by {
                            assert(path@[i] == before[i]);
                        }
                    }
                }
            },
            None => {
                let ghost before = path@;
                path.push(carve);
                proof {
                    lemma_walk_push(maze, covered, before, carve, current);
                    assert(path@.last() == carve);
                    assert(path@[0] == (if before.len() == 0 {
                        carve
                    } else {
                        before[0]
                    }));
                    assert forall|i: int| 0 <= i < path@.len() implies !covered.contains(
                        carve_target(#[trigger] path@[i]),
                    ) by {
                        if i < before.len() {
                            assert(path@[i] == before[i]);
                        }
                    }
                    assert forall|i: int| 0 <= i < path@.len() implies !same_place(
                        maze,
                        (#[trigger] path@[i]).0,
                        next,
                    ) by {
                        if i < before.len() {
                            assert(path@[i] == before[i]);
                        }
                    }
                    if runs_north_east(maze, target, policy, budget) {
                        assert forall|i: int| 0 <= i < path@.len() implies (#[trigger] path@[i]).1
                            == Direction::North || path@[i].1 == Direction::East by {
                            if i < before.len() {
                                assert(path@[i] == before[i]);
                            }
                        }
                    }
                }
            },
        }
        current = next;
    }
}

/// A walk with one more carve at its end, which starts where the walk has led and at
/// a place that the walk has not left before, is a walk.
proof fn lemma_walk_push(
    maze: &Maze,
    covered: Set<Coordinate>,
    path: Seq<Carve>,
    carve: Carve,
    current: Coordinate,
)
    requires
        is_open_walk(maze, covered, path),
        carve.0 == current,
        carve_valid(maze.width as int, maze.height as int, carve),
        !covered.contains(current),
        !same_place(maze, current, carve_target(carve)),
        path.len() > 0 ==> same_place(maze, carve_target(path.last()), current),
        forall|i: int| 0 <= i < path.len() ==> !same_place(maze, (#[trigger] path[i]).0, current),
    ensures
        is_open_walk(maze, covered, path.push(carve)),
{
    let longer = path.push(carve);
    assert forall|i: int| 0 <= i < longer.len() implies {
        let c = #[trigger] longer[i];
        &&& carve_valid(maze.width as int, maze.height as int, c)
        &&& !covered.contains(c.0)
        &&& !same_place(maze, c.0, carve_target(c))
    } by {
        if i < path.len() {
            assert(longer[i] == path[i]);
        }
    }
    assert forall|i: int| 0 <= i < longer.len() - 1 implies #[trigger] follows(maze, longer, i) by {
        if i < path.len() - 1 {
            assert(follows(maze, path, i));
        }
    }
    assert forall|i: int, j: int| 0 <= i < j < longer.len() implies !same_place(
        maze,
        (#[trigger] longer[i]).0,
        (#[trigger] longer[j]).0,
    ) by {
        assert(longer[i] == path[i]);
        if j < path.len() {
            assert(longer[j] == path[j]);
        }
    }
}

/// The front of a walk is a walk.
proof fn lemma_walk_truncate(maze: &Maze, covered: Set<Coordinate>, path: Seq<Carve>, n: int)
    requires
        is_open_walk(maze, covered, path),
        0 <= n <= path.len(),
    ensures
        is_open_walk(maze, covered, path.take(n)),
{
    let front = path.take(n);
    assert forall|i: int| 0 <= i < front.len() implies {
        let c = #[trigger] front[i];
        &&& carve_valid(maze.width as int, maze.height as int, c)
        &&& !covered.contains(c.0)
        &&& !same_place(maze, c.0, carve_target(c))
    } by {
        assert(front[i] == path[i]);
    }
    assert forall|i: int| 0 <= i < front.len() - 1 implies #[trigger] follows(maze, front, i) by {
        assert(follows(maze, path, i));
    }
    assert forall|i: int, j: int| 0 <= i < j < front.len() implies !same_place(
        maze,
        (#[trigger] front[i]).0,
        (#[trigger] front[j]).0,
    ) by {
        assert(front[i] == path[i]);
        assert(front[j] == path[j]);
    }
}

/// Makes the carves of a walk to the tree, the last first, so that the tree covers
/// every place that the walk has left.
pub fn commit_walk(maze: &Maze, tree: &mut Carving, path: &Vec<Carve>)
    requires
        old(tree).inv(maze),
        path@.len() >= 1,
        is_open_walk(maze, old(tree).visited@, path@),
        old(tree).visited.has(carve_target(path@.last())),
    ensures
        final(tree).inv(maze),
        final(tree).root == old(tree).root,
        forall|c: Coordinate|
            #[trigger] final(tree).visited.has(c) == (old(tree).visited.has(c) || exists|j: int|
                0 <= j < path@.len() && same_place(maze, (#[trigger] path@[j]).0, c)),
        final(tree).visited.count() > old(tree).visited.count(),
        final(tree).carves@ == old(tree).carves@ + path@.reverse(),
        old(tree).directed(maze, true) ==> final(tree).directed(maze, true),
{
    let ghost covered = old(tree).visited@;
    let mut i: usize = path.len();
    while i > 0
        invariant
            i <= path@.len(),
            path@.len() >= 1,
            tree.inv(maze),
            tree.root == old(tree).root,
            covered == old(tree).visited@,
            is_open_walk(maze, covered, path@),
            old(tree).visited.has(carve_target(path@.last())),
            forall|c: Coordinate|
                #[trigger] tree.visited.has(c) == (old(tree).visited.has(c) || exists|j: int|
                    i <= j < path@.len() && same_place(maze, (#[trigger] path@[j]).0, c)),
            tree.visited.count() >= old(tree).visited.count(),
            i < path@.len() ==> tree.visited.count() > old(tree).visited.count(),
            tree.carves@ == old(tree).carves@ + path@.reverse().take(path@.len() - i),
            old(tree).directed(maze, true) ==> tree.directed(maze, true),
        decreases i,
    {
        let carve = path[i - 1];
        let ghost before = *tree;
        proof {
            let k = i - 1;
            if tree.visited.has(carve.0) {
                assert(!covered.contains(path@[k].0));
                let j = choose|j: int|
                    i <= j < path@.len() && same_place(maze, (#[trigger] path@[j]).0, carve.0);
                assert(!same_place(maze, path@[k].0, path@[j].0));
                assert(false);
            }
            if k < path@.len() - 1 {
                assert(follows(maze, path@, k));
                assert(same_place(maze, path@[k + 1].0, carve_target(carve)));
            }
        }
        tree.attach(maze, carve, true);
        proof {
            let back = path@.reverse();
            assert(back[path@.len() - i] == carve);
            assert(tree.carves@ =~= old(tree).carves@ + back.take(path@.len() - i + 1));
            assert forall|c: Coordinate| #[trigger]
                tree.visited.has(c) == (old(tree).visited.has(c) || exists|j: int|
                    i - 1 <= j < path@.len() && same_place(maze, (#[trigger] path@[j]).0, c)) by {
                if before.visited.has(c) && !old(tree).visited.has(c) {
                    let j = choose|j: int|
                        i <= j < path@.len() && same_place(maze, (#[trigger] path@[j]).0, c);
                    assert(i - 1 <= j < path@.len() && same_place(maze, path@[j].0, c));
                }
                if c == carve.0 || (maze.in_end(carve.0) && maze.in_end(c)) {
                    assert(same_place(maze, path@[i - 1].0, c));
                }
                if exists|j: int|
                    i - 1 <= j < path@.len() && same_place(maze, (#[trigger] path@[j]).0, c) {
                    let j = choose|j: int|
                        i - 1 <= j < path@.len() && same_place(maze, (#[trigger] path@[j]).0, c);
                    if j >= i {
                        assert(before.visited.has(c));
                    }
                }
            }
        }
        i -= 1;
    }
    proof {
        assert(path@.reverse().take(path@.len() as int) =~= path@.reverse());
    }
}

/// The cells of the grid, column by column.
pub fn all_cells(maze: &Maze) -> (cells: Vec<Coordinate>)
    requires
        maze.wf(),
    ensures
        cells@.len() == maze.width * maze.height,
        forall|c: Coordinate| maze.contains(c) ==> cells@.contains(c),
        forall|i: int| 0 <= i < cells@.len() ==> maze.contains(#[trigger] cells@[i]),
{
    let mut cells: Vec<Coordinate> = Vec::new();
    let mut x: usize = 0;
    while x < maze.width
        invariant
            maze.wf(),
            x <= maze.width,
            cells@.len() == x * maze.height,
            forall|c: Coordinate| maze.contains(c) && c.0 < x ==> cells@.contains(c),
            forall|i: int| 0 <= i < cells@.len() ==> maze.contains(#[trigger] cells@[i]),
        decreases maze.width - x,
    {
        let mut y: usize = 0;
        while y < maze.height
            invariant
                maze.wf(),
                x < maze.width,
                y <= maze.height,
                cells@.len() == x * maze.height + y,
                forall|c: Coordinate|
                    maze.contains(c) && (c.0 < x || (c.0 == x && c.1 < y)) ==> cells@.contains(c),
                forall|i: int| 0 <= i < cells@.len() ==> maze.contains(#[trigger] cells@[i]),
            decreases maze.height - y,
        {
            let ghost before = cells@;
            cells.push((x, y));
            proof {
                assert(cells@[before.len() as int] == (x, y));
                assert forall|c: Coordinate|
                    maze.contains(c) && (c.0 < x || (c.0 == x && c.1 < y + 1)) implies cells@.contains(
                    c,
                ) by {
                    if c != (x, y) {
                        let k = choose|k: int| 0 <= k < before.len() && before[k] == c;
                        assert(cells@[k] == c);
                    }
                }
                assert forall|i: int| 0 <= i < cells@.len() implies maze.contains(
                    #[trigger] cells@[i],
                ) by {
                    if i < before.len() {
                        assert(cells@[i] == before[i]);
                    }
                }
            }
            y += 1;
        }
        proof {
            assert((x + 1) * maze.height == x * maze.height + maze.height) by (nonlinear_arith);
        }
        x += 1;
    }
    cells
}

/// Grows the tree until it covers the grid: takes the cells in random order and, from
/// each that is not covered yet, walks to the tree and makes the carves of the walk.
/// The first cell taken becomes the root if the tree has none.
pub fn grow_by_walks(
    maze: &Maze,
    tree: &mut Carving,
    policy: WalkPolicy,
    budget: usize,
    rng: &mut StdRng,
)
    requires
        old(tree).inv(maze),
    ensures
        final(tree).inv(maze),
        final(tree).root is Some,
        old(tree).root is Some ==> final(tree).root == old(tree).root,
        old(tree).carves@.is_prefix_of(final(tree).carves@),
        final(tree).visited.count() == maze.width * maze.height,
        old(tree).directed(maze, true) ==> final(tree).directed(maze, true),
        old(tree).carves@.len() == 0 && old(tree).root is Some && runs_north_east(
            maze,
            old(tree).root.unwrap(),
            policy,
            budget,
        ) ==> forall|i: int|
            0 <= i < final(tree).carves@.len() ==> (#[trigger] final(tree).carves@[i]).1
                == Direction::North || final(tree).carves@[i].1 == Direction::East,
{
    proof {
        reveal(Carving::inv);
    }
    let mut unvisited_nodes = all_cells(maze);
    while unvisited_nodes.len() > 0
        invariant
            maze.wf(),
            tree.inv(maze),
            old(tree).root is Some ==> tree.root == old(tree).root,
            old(tree).carves@.is_prefix_of(tree.carves@),
            old(tree).directed(maze, true) ==> tree.directed(maze, true),
            old(tree).carves@.len() == 0 && old(tree).root is Some && runs_north_east(
                maze,
                old(tree).root.unwrap(),
                policy,
                budget,
            ) ==> forall|i: int|
                0 <= i < tree.carves@.len() ==> (#[trigger] tree.carves@[i]).1 == Direction::North
                    || tree.carves@[i].1 == Direction::East,
            forall|c: Coordinate|
                maze.contains(c) ==> unvisited_nodes@.contains(c) || #[trigger] tree.visited.has(c),
            forall|i: int| 0 <= i < unvisited_nodes@.len() ==> maze.contains(#[trigger] unvisited_nodes@[i]),
        decreases unvisited_nodes@.len(),
    {
        let ghost before = unvisited_nodes@;
        let index = random_below(rng, unvisited_nodes.len());
        let current = unvisited_nodes.remove(index);
        proof {
            assert(before[index as int] == current);
            assert forall|c: Coordinate| before.contains(c) && c != current implies unvisited_nodes@.contains(
                c,
            ) by {
                let k = choose|k: int| 0 <= k < before.len() && before[k] == c;
                if k < index {
                    assert(unvisited_nodes@[k] == before[k]);
                } else {
                    assert(unvisited_nodes@[k - 1] == before[k]);
                }
            }
            assert forall|i: int| 0 <= i < unvisited_nodes@.len() implies maze.contains(
                #[trigger] unvisited_nodes@[i],
            ) by {
                if i < index {
                    assert(unvisited_nodes@[i] == before[i]);
                } else {
                    assert(unvisited_nodes@[i] == before[i + 1]);
                }
            }
        }
        let ghost tree_before = *tree;
        if !tree.is_visited(maze, current) {
            match tree.root {
                None => {
                    tree.seed(maze, current);
                    proof {
                        tree_before.lemma_rootless_is_empty(maze);
                    }
                },
                Some(target) => {
                    proof {
                        tree.lemma_root_is_covered(maze);
                        tree.visited.lemma_has_on_grid(target);
                        reveal(Carving::inv);
                    }
                    let new_path = loop_erased_walk(maze, tree, current, target, policy, budget, rng);
                    commit_walk(maze, tree, &new_path);
                    proof {
                        assert(same_place(maze, new_path@[0].0, current));
                        assert(tree.visited.has(current));
                        if old(tree).carves@.len() == 0 && old(tree).root is Some && runs_north_east(
                            maze,
                            target,
                            policy,
                            budget,
                        ) {
                            let back = new_path@.reverse();
                            assert forall|i: int| 0 <= i < tree.carves@.len() implies (
                            #[trigger] tree.carves@[i]).1 == Direction::North || tree.carves@[i].1
                                == Direction::East by {
                                if i < tree_before.carves@.len() {
                                    assert(tree.carves@[i] == tree_before.carves@[i]);
                                } else {
                                    let k = i - tree_before.carves@.len();
                                    assert(tree.carves@[i] == back[k]);
                                    assert(back[k] == new_path@[new_path@.len() - 1 - k]);
                                }
                            }
                        }
                    }
                },
            }
        }
        proof {
            assert(old(tree).carves@.is_prefix_of(tree.carves@)) by {
                assert(old(tree).carves@.is_prefix_of(tree_before.carves@));
                assert(tree_before.carves@.is_prefix_of(tree.carves@)) by {
                    if tree_before.root is None {
                        reveal(Carving::inv);
                    }
                }
                assert forall|i: int| 0 <= i < old(tree).carves@.len() implies old(tree).carves@[i]
                    == tree.carves@[i] by {
                    assert(old(tree).carves@[i] == tree_before.carves@[i]);
                }
            }
            assert forall|c: Coordinate| maze.contains(c) implies unvisited_nodes@.contains(c)
                || #[trigger] tree.visited.has(c) by {
                assert(before.contains(c) || tree_before.visited.has(c));
                if tree_before.visited.has(c) {
                    assert(tree.visited.has(c));
                } else if c == current {
                    assert(tree.visited.has(c));
                }
            }
        }
    }
    proof {
        let some: Coordinate = (0, 0);
        assert(maze.contains(some));
        assert(tree.visited.has(some));
        tree.lemma_root_exists(maze, some);
        reveal(Carving::inv);
        tree.visited.lemma_full();
    }
}

} // verus!
