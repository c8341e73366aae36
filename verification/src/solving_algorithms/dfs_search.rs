//! Depth-first search over the weighted graph.

use crate::coordinate_map::DirectionMap;
use crate::coordinate_set::CoordinateSet;
use crate::direction::{Coordinate, Direction};
use crate::environment::Environment;
use crate::maze::Maze;
use crate::solving_algorithms::routes::{
    connects, has_edge, has_edge_towards, is_leg, is_route, lemma_closed_set_holds_reachable,
    lemma_edge_ends, lemma_route_push, reachable,
};
use vstd::prelude::*;

verus! {

/// Whether `stack` holds an entry for the cell `c`.
pub open spec fn stacked(stack: Seq<(Coordinate, usize)>, c: Coordinate) -> bool {
    exists|i: int| 0 <= i < stack.len() && (#[trigger] stack[i]).0 == c
}

/// Whether the entries of `stack` fit the path that the search has built: each waits
/// to be appended at its depth, behind the cell from which it was found, entries
/// higher up never at a lesser depth than those below.
#[verifier::opaque]
pub open spec fn stack_fits(
    maze: Maze,
    graph: Map<Coordinate, DirectionMap>,
    stack: Seq<(Coordinate, usize)>,
    path: Seq<Coordinate>,
) -> bool {
    &&& forall|i: int|
        0 <= i < stack.len() ==> {
            let (cell, depth) = #[trigger] stack[i];
            &&& maze.contains(cell)
            &&& depth <= path.len()
            &&& depth == 0 ==> cell == maze.start
            &&& depth > 0 ==> has_edge(maze, graph, path[depth - 1], cell)
        }
    &&& forall|i: int, j: int|
        0 <= i < j < stack.len() ==> (#[trigger] stack[i]).1 <= (#[trigger] stack[j]).1
}

/// Puts the end of the edge that leaves `from` towards `d` on the stack, unless
/// there is no such edge or its end has been visited.
fn push_neighbor(
    env: &Environment,
    stack: &mut Vec<(Coordinate, usize)>,
    visited: &CoordinateSet,
    from: Coordinate,
    d: Direction,
    depth: usize,
)
    requires
        env.maze.wf(),
        visited.wf(),
    ensures
        old(stack)@.is_prefix_of(final(stack)@),
        final(stack)@.len() <= old(stack)@.len() + 1,
        forall|i: int|
            old(stack)@.len() <= i < final(stack)@.len() ==> {
                &&& (#[trigger] final(stack)@[i]).1 == depth
                &&& has_edge_towards(env.maze, env.weighted_graph@, from, d, final(stack)@[i].0)
            },
        forall|b: Coordinate|
            has_edge_towards(env.maze, env.weighted_graph@, from, d, b) ==> visited.has(b)
                || stacked(final(stack)@, b),
{
    let weight: Option<usize> = match env.weighted_graph.get(&from) {
        Some(node) => node.get(&d),
        None => None,
    };
    if let Some(steps) = weight {
        if steps > 0 {
            if let Ok(neighbor) = env.maze.move_from(&d, &from, steps) {
                if !visited.contains(&neighbor) {
                    stack.push((neighbor, depth));
                    assert(stack@[stack@.len() - 1].0 == neighbor);
                }
            }
        }
    }
}

/// Puts the ends of the edges that leave `from` on the stack, but for those that
/// have been visited.
fn push_neighbors(
    env: &Environment,
    stack: &mut Vec<(Coordinate, usize)>,
    visited: &CoordinateSet,
    from: Coordinate,
    depth: usize,
)
    requires
        env.maze.wf(),
        visited.wf(),
    ensures
        old(stack)@.is_prefix_of(final(stack)@),
        final(stack)@.len() <= old(stack)@.len() + 4,
        forall|i: int|
            old(stack)@.len() <= i < final(stack)@.len() ==> {
                &&& (#[trigger] final(stack)@[i]).1 == depth
                &&& has_edge(env.maze, env.weighted_graph@, from, final(stack)@[i].0)
                &&& env.maze.contains(final(stack)@[i].0)
            },
        forall|b: Coordinate|
            has_edge(env.maze, env.weighted_graph@, from, b) ==> visited.has(b) || stacked(
                final(stack)@,
                b,
            ),
{
    let ghost maze = env.maze;
    let ghost graph = env.weighted_graph@;
    let ghost s0 = stack@;
    push_neighbor(env, stack, visited, from, Direction::North, depth);
    let ghost s1 = stack@;
    push_neighbor(env, stack, visited, from, Direction::East, depth);
    let ghost s2 = stack@;
    push_neighbor(env, stack, visited, from, Direction::South, depth);
    let ghost s3 = stack@;
    push_neighbor(env, stack, visited, from, Direction::West, depth);
    proof {
        let s4 = stack@;
        assert forall|c: Coordinate| stacked(s1, c) || stacked(s2, c) || stacked(s3, c) implies stacked(
            s4,
            c,
        ) by {
            let s = if stacked(s1, c) {
                s1
            } else if stacked(s2, c) {
                s2
            } else {
                s3
            };
            let i = choose|i: int| 0 <= i < s.len() && (#[trigger] s[i]).0 == c;
            assert(s4[i] == s[i]);
        }
        assert forall|i: int| s0.len() <= i < s4.len() implies {
            &&& (#[trigger] s4[i]).1 == depth
            &&& has_edge(maze, graph, from, s4[i].0)
            &&& maze.contains(s4[i].0)
        } by {
            let d = if i < s1.len() {
                Direction::North
            } else if i < s2.len() {
                Direction::East
            } else if i < s3.len() {
                Direction::South
            } else {
                Direction::West
            };
            if i < s1.len() {
                assert(s4[i] == s1[i]);
            } else if i < s2.len() {
                assert(s4[i] == s2[i]);
            } else if i < s3.len() {
                assert(s4[i] == s3[i]);
            }
            lemma_edge_ends(maze, graph, from, d, s4[i].0);
        }
        assert forall|b: Coordinate| has_edge(maze, graph, from, b) implies visited.has(b)
            || stacked(s4, b) by {
            let d = choose|d: Direction| has_edge_towards(maze, graph, from, d, b);
            match d {
                Direction::North => {},
                Direction::East => {},
                Direction::South => {},
                Direction::West => {},
            }
        }
        assert(s0.is_prefix_of(s4)) by {
            assert forall|i: int| 0 <= i < s0.len() implies s0[i] == s4[i] by {
                assert(s1[i] == s0[i]);
                assert(s2[i] == s1[i]);
                assert(s3[i] == s2[i]);
            }
        }
    }
}

/// Whether every edge that leaves a visited cell ends at a cell that is visited or
/// waits on the stack.
#[verifier::opaque]
pub open spec fn frontier_stacked(
    maze: Maze,
    graph: Map<Coordinate, DirectionMap>,
    visited: Set<Coordinate>,
    stack: Seq<(Coordinate, usize)>,
) -> bool {
    forall|v: Coordinate, b: Coordinate|
        visited.contains(v) && #[trigger] has_edge(maze, graph, v, b) ==> visited.contains(b)
            || stacked(stack, b)
}

/// Taking the top entry off keeps the stack fitting, and what stays is at most as
/// deep as what was taken.
proof fn lemma_pop_fits(
    maze: Maze,
    graph: Map<Coordinate, DirectionMap>,
    stack: Seq<(Coordinate, usize)>,
    path: Seq<Coordinate>,
)
    requires
        stack.len() > 0,
        stack_fits(maze, graph, stack, path),
    ensures
        stack_fits(maze, graph, stack.drop_last(), path),
        forall|i: int| 0 <= i < stack.len() - 1 ==> (#[trigger] stack[i]).1 <= stack.last().1,
        maze.contains(stack.last().0),
        stack.last().1 <= path.len(),
        stack.last().1 == 0 ==> stack.last().0 == maze.start,
        stack.last().1 > 0 ==> has_edge(maze, graph, path[stack.last().1 - 1], stack.last().0),
        forall|c: Coordinate|
            stacked(stack, c) ==> stacked(stack.drop_last(), c) || c == stack.last().0,
{
    reveal(stack_fits);
    let rest = stack.drop_last();
    assert forall|i: int| 0 <= i < rest.len() implies rest[i] == stack[i] by {}
    assert(stack[stack.len() - 1] == stack.last());
    assert forall|c: Coordinate| stacked(stack, c) implies stacked(rest, c) || c
        == stack.last().0 by {
        let i = choose|i: int| 0 <= i < stack.len() && (#[trigger] stack[i]).0 == c;
        if i < rest.len() {
            assert(rest[i] == stack[i]);
        }
    }
}

/// Cutting the path back to the depth of an entry and appending the entry's cell
/// gives a route from the start, and the entries that are no deeper still fit.
proof fn lemma_visit_fits(
    maze: Maze,
    graph: Map<Coordinate, DirectionMap>,
    stack: Seq<(Coordinate, usize)>,
    path: Seq<Coordinate>,
    cell: Coordinate,
    depth: usize,
)
    requires
        stack_fits(maze, graph, stack, path),
        forall|i: int| 0 <= i < stack.len() ==> (#[trigger] stack[i]).1 <= depth,
        path.len() > 0 ==> is_route(maze, graph, path) && path[0] == maze.start,
        depth <= path.len(),
        depth == 0 ==> cell == maze.start,
        depth > 0 ==> has_edge(maze, graph, path[depth - 1], cell),
    ensures
        is_route(maze, graph, path.take(depth as int).push(cell)),
        path.take(depth as int).push(cell)[0] == maze.start,
        stack_fits(maze, graph, stack, path.take(depth as int).push(cell)),
{
    reveal(stack_fits);
    let cut = path.take(depth as int);
    let longer = cut.push(cell);
    if depth > 0 {
        assert(is_route(maze, graph, cut)) by {
            assert forall|i: int| 0 <= i < cut.len() - 1 implies #[trigger] is_leg(
                maze,
                graph,
                cut,
                i,
            ) by {
                assert(is_leg(maze, graph, path, i));
            }
        }
        lemma_route_push(maze, graph, cut, cell);
    }
    assert forall|i: int| 0 <= i < stack.len() implies {
        let (c, dep) = #[trigger] stack[i];
        dep > 0 ==> has_edge(maze, graph, longer[dep - 1], c)
    } by {
        let (c, dep) = stack[i];
        if dep > 0 {
            assert(longer[dep - 1] == path[dep - 1]);
        }
    }
}

/// Entries put on top of a fitting stack at the depth behind the end of the path,
/// each the end of an edge that leaves the last cell of the path, fit as well.
proof fn lemma_push_fits(
    maze: Maze,
    graph: Map<Coordinate, DirectionMap>,
    below: Seq<(Coordinate, usize)>,
    stack: Seq<(Coordinate, usize)>,
    path: Seq<Coordinate>,
)
    requires
        path.len() > 0,
        stack_fits(maze, graph, below, path),
        below.is_prefix_of(stack),
        forall|i: int| 0 <= i < below.len() ==> (#[trigger] below[i]).1 < path.len(),
        forall|i: int|
            below.len() <= i < stack.len() ==> {
                &&& (#[trigger] stack[i]).1 == path.len()
                &&& has_edge(maze, graph, path.last(), stack[i].0)
                &&& maze.contains(stack[i].0)
            },
    ensures
        stack_fits(maze, graph, stack, path),
        forall|c: Coordinate| stacked(below, c) ==> stacked(stack, c),
{
    reveal(stack_fits);
    assert forall|i: int| 0 <= i < below.len() implies stack[i] == below[i] by {}
    assert forall|c: Coordinate| stacked(below, c) implies stacked(stack, c) by {
        let i = choose|i: int| 0 <= i < below.len() && (#[trigger] below[i]).0 == c;
        assert(stack[i] == below[i]);
    }
    assert forall|i: int| 0 <= i < stack.len() implies {
        let (cell, depth) = #[trigger] stack[i];
        &&& maze.contains(cell)
        &&& depth <= path.len()
        &&& depth == 0 ==> cell == maze.start
        &&& depth > 0 ==> has_edge(maze, graph, path[depth - 1], cell)
    } by {
        if i < below.len() {
            assert(stack[i] == below[i]);
        }
    }
    assert forall|i: int, j: int| 0 <= i < j < stack.len() implies (#[trigger] stack[i]).1 <= (
    #[trigger] stack[j]).1 by {
        if j < below.len() {
            assert(stack[i] == below[i]);
            assert(stack[j] == below[j]);
        } else if i < below.len() {
            assert(stack[i] == below[i]);
        }
    }
}

/// A route from the start of the maze to `end` along the edges of the weighted
/// graph, found by depth-first search: the first one found, not the shortest. The
/// result is empty exactly when no route leads from the start to `end`.
pub fn solve_maze_dfs(env: &Environment, end: Coordinate) -> (path: Vec<Coordinate>)
    requires
        env.maze.wf(),
    ensures
        path@.len() > 0 <==> reachable(env.maze, env.weighted_graph@, env.maze.start, end),
        path@.len() > 0 ==> connects(env.maze, env.weighted_graph@, path@, env.maze.start, end),
        path@.no_duplicates(),
{
    let ghost maze = env.maze;
    let ghost graph = env.weighted_graph@;
    let start = env.maze.get_starting_point();
    let mut stack: Vec<(Coordinate, usize)> = Vec::new();
    stack.push((start, 0));
    let mut visited = CoordinateSet::new(env.maze.width, env.maze.height);
    let mut path: Vec<Coordinate> = Vec::new();
    proof {
        assert(stack@[0].0 == start);
        reveal(stack_fits);
        reveal(frontier_stacked);
    }
    loop
        invariant
            maze == env.maze,
            graph == env.weighted_graph@,
            start == maze.start,
            maze.wf(),
            visited.wf(),
            visited.grid_width() == maze.width,
            visited.grid_height() == maze.height,
            path@.len() > 0 ==> is_route(maze, graph, path@) && path@[0] == start,
            path@.no_duplicates(),
            forall|i: int| 0 <= i < path@.len() ==> visited.has(#[trigger] path@[i]),
            stack_fits(maze, graph, stack@, path@),
            visited.has(start) || stacked(stack@, start),
            !visited.has(end),
            frontier_stacked(maze, graph, visited@, stack@),
        decreases maze.width * maze.height - visited.count(), stack@.len(),
    {
        let ghost stack_before = stack@;
        let ghost visited_before = visited@;
        let current = match stack.pop() {
            Some(entry) => entry,
            None => {
                proof {
                    reveal(frontier_stacked);
                    if reachable(maze, graph, start, end) {
                        let p = choose|p: Seq<Coordinate>| connects(maze, graph, p, start, end);
                        lemma_closed_set_holds_reachable(maze, graph, visited@, p);
                    }
                }
                return Vec::new();
            },
        };
        proof {
            lemma_pop_fits(maze, graph, stack_before, path@);
            assert(stack@ =~= stack_before.drop_last());
        }
        if visited.contains(&current.0) {
            proof {
                reveal(frontier_stacked);
            }
        } else {
            let ghost path_before = path@;
            if path.len() > current.1 {
                path.truncate(current.1);
            }
            path.push(current.0);
            proof {
                lemma_visit_fits(maze, graph, stack@, path_before, current.0, current.1);
                assert(path@ =~= path_before.take(current.1 as int).push(current.0));
                assert forall|i: int, j: int| 0 <= i < path@.len() && 0 <= j < path@.len() && i
                    != j implies path@[i] != path@[j] by {
                    if i < current.1 {
                        assert(path@[i] == path_before[i]);
                    }
                    if j < current.1 {
                        assert(path@[j] == path_before[j]);
                    }
                }
            }
            visited.insert(current.0);
            proof {
                assert forall|i: int| 0 <= i < path@.len() implies visited.has(
                    #[trigger] path@[i],
                ) by {
                    if i < current.1 {
                        assert(path@[i] == path_before[i]);
                    }
                }
            }
            proof {
                visited.lemma_count_bound();
            }
            if current.0.0 == end.0 && current.0.1 == end.1 {
                assert(current.0 == end);
                assert(connects(maze, graph, path@, start, end));
                return path;
            }
            let depth: usize = path.len();
            let ghost below = stack@;
            push_neighbors(env, &mut stack, &visited, current.0, depth);
            proof {
                lemma_push_fits(maze, graph, below, stack@, path@);
                reveal(frontier_stacked);
                assert forall|v: Coordinate, b: Coordinate|
                    visited@.contains(v) && #[trigger] has_edge(maze, graph, v, b) implies visited@.contains(
                    b,
                ) || stacked(stack@, b) by {
                    if v != current.0 {
                        assert(visited_before.contains(v));
                        assert(visited_before.contains(b) || stacked(stack_before, b));
                    }
                }
            }
        }
    }
}

} // verus!
