//! Depth-first search through the cells of a maze, kept as the list of the cells in
//! the order in which they were visited, for showing the search at work.

use crate::connectivity::{is_closed, lemma_link_reaches, lemma_reaches_itself, lemma_reaches_transitive, reaches};
use crate::coordinate_set::CoordinateSet;
use crate::direction::{Coordinate, Direction};
use crate::maze::Maze;
use crate::reachability::passage_links;
use vstd::prelude::*;

verus! {

/// Whether `list` holds an entry for the cell `c`.
pub open spec fn lists(list: Seq<(Coordinate, usize)>, c: Coordinate) -> bool {
    exists|i: int| 0 <= i < list.len() && (#[trigger] list[i]).0 == c
}

/// Whether `entry` was found from a cell among the first `n` of `visited_nodes`: a
/// passage leads to its cell from one of them, and it lies one level deeper than
/// that one. The start, at depth zero, is found from none.
pub open spec fn is_found(
    maze: Maze,
    visited_nodes: Seq<(Coordinate, usize)>,
    n: int,
    entry: (Coordinate, usize),
) -> bool {
    if entry.1 == 0 {
        entry.0 == maze.start
    } else {
        exists|j: int|
            0 <= j < n && j < visited_nodes.len() && #[trigger] maze.passage(
                visited_nodes[j].0,
                entry.0,
            ) && visited_nodes[j].1 + 1 == entry.1
    }
}

/// Whether every entry of the stack is a cell of the grid that can be reached from
/// the start through open walls, found from a cell of `visited_nodes`.
#[verifier::opaque]
pub open spec fn search_stack_ok(
    maze: Maze,
    stack: Seq<(Coordinate, usize)>,
    visited_nodes: Seq<(Coordinate, usize)>,
) -> bool {
    forall|i: int|
        0 <= i < stack.len() ==> {
            let (cell, depth) = #[trigger] stack[i];
            &&& maze.contains(cell)
            &&& depth <= visited_nodes.len()
            &&& reaches(passage_links(maze), maze.start, cell)
            &&& is_found(maze, visited_nodes, visited_nodes.len() as int, stack[i])
        }
}

/// Whether `visited_nodes` is a record of the cells visited: each visited cell once,
/// each reached from the start through open walls, none of them in the end region.
#[verifier::opaque]
pub open spec fn search_trace_ok(
    maze: Maze,
    visited: Set<Coordinate>,
    visited_nodes: Seq<(Coordinate, usize)>,
) -> bool {
    &&& forall|c: Coordinate| #[trigger] visited.contains(c) <==> lists(visited_nodes, c)
    &&& forall|i: int, j: int|
        0 <= i < j < visited_nodes.len() ==> (#[trigger] visited_nodes[i]).0 != (
        #[trigger] visited_nodes[j]).0
    &&& forall|i: int|
        0 <= i < visited_nodes.len() ==> !maze.in_end((#[trigger] visited_nodes[i]).0) && reaches(
            passage_links(maze),
            maze.start,
            visited_nodes[i].0,
        ) && is_found(maze, visited_nodes, i, visited_nodes[i])
    &&& visited_nodes.len() > 0 ==> visited_nodes[0] == (maze.start, 0usize)
}

/// Whether every passage from a visited cell leads to a cell that is visited or
/// waits on the stack.
#[verifier::opaque]
pub open spec fn search_frontier_ok(
    maze: Maze,
    visited: Set<Coordinate>,
    stack: Seq<(Coordinate, usize)>,
) -> bool {
    forall|v: Coordinate, b: Coordinate|
        visited.contains(v) && #[trigger] maze.passage(v, b) ==> visited.contains(b) || lists(
            stack,
            b,
        )
}

/// What the search returns: the cells in the order in which they were visited, each
/// once, each reached from the start through open walls, the start first and a cell of
/// the end region last, and no other of them in the end region. Every cell but the
/// start was found from a cell visited before it, and lies one level deeper.
pub open spec fn is_search_trace(maze: Maze, visited_nodes: Seq<(Coordinate, usize)>) -> bool {
    &&& visited_nodes.len() > 0
    &&& visited_nodes[0] == (maze.start, 0usize)
    &&& maze.in_end(visited_nodes.last().0)
    &&& forall|i: int|
        0 <= i < visited_nodes.len() - 1 ==> !maze.in_end((#[trigger] visited_nodes[i]).0)
    &&& forall|i: int|
        0 <= i < visited_nodes.len() ==> reaches(
            passage_links(maze),
            maze.start,
            (#[trigger] visited_nodes[i]).0,
        ) && is_found(maze, visited_nodes, i, visited_nodes[i])
    &&& forall|i: int, j: int|
        0 <= i < j < visited_nodes.len() ==> (#[trigger] visited_nodes[i]).0 != (
        #[trigger] visited_nodes[j]).0
}

/// What was found from one of the first cells of a list is found from one of the
/// first cells of any list that begins with it.
proof fn lemma_found_in_longer(
    maze: Maze,
    shorter: Seq<(Coordinate, usize)>,
    longer: Seq<(Coordinate, usize)>,
    n: int,
    entry: (Coordinate, usize),
)
    requires
        shorter.is_prefix_of(longer),
        n <= shorter.len(),
        is_found(maze, shorter, n, entry),
    ensures
        is_found(maze, longer, n, entry),
{
    if entry.1 != 0 {
        let j = choose|j: int|
            0 <= j < n && j < shorter.len() && #[trigger] maze.passage(shorter[j].0, entry.0)
                && shorter[j].1 + 1 == entry.1;
        assert(longer[j] == shorter[j]);
        assert(maze.passage(longer[j].0, entry.0));
    }
}

/// What was found from a cell of a list is found from a cell of any list that
/// begins with it.
proof fn lemma_found_later(
    maze: Maze,
    shorter: Seq<(Coordinate, usize)>,
    longer: Seq<(Coordinate, usize)>,
    entry: (Coordinate, usize),
)
    requires
        shorter.is_prefix_of(longer),
        is_found(maze, shorter, shorter.len() as int, entry),
    ensures
        is_found(maze, longer, longer.len() as int, entry),
{
    if entry.1 != 0 {
        let j = choose|j: int|
            0 <= j < shorter.len() && #[trigger] maze.passage(shorter[j].0, entry.0)
                && shorter[j].1 + 1 == entry.1;
        assert(longer[j] == shorter[j]);
        assert(maze.passage(longer[j].0, entry.0));
    }
}

/// Puts the cell next to `current` towards `d` on the stack, one level deeper, if
/// there is a passage to it and it has not been visited.
fn push_passage(
    maze: &Maze,
    stack: &mut Vec<(Coordinate, usize)>,
    visited: &CoordinateSet,
    current: Coordinate,
    d: Direction,
    depth: usize,
    Ghost(visited_nodes): Ghost<Seq<(Coordinate, usize)>>,
)
    requires
        maze.wf(),
        visited.wf(),
        1 <= depth <= visited_nodes.len(),
        visited_nodes.last() == (current, (depth - 1) as usize),
        search_stack_ok(*maze, old(stack)@, visited_nodes),
        reaches(passage_links(*maze), maze.start, current),
    ensures
        search_stack_ok(*maze, final(stack)@, visited_nodes),
        old(stack)@.is_prefix_of(final(stack)@),
        forall|b: Coordinate|
            maze.spec_step(d, current) == Some(b) ==> visited.has(b) || lists(final(stack)@, b),
{
    proof {
        maze.lemma_single_step(d, current);
    }
    if let Ok(neighbor) = maze.move_from_with_walls(&d, &current, 1) {
        if !visited.contains(&neighbor) {
            let ghost before = stack@;
            stack.push((neighbor, depth));
            proof {
                reveal(search_stack_ok);
                let links = passage_links(*maze);
                assert(maze.spec_step(d, current) == Some(neighbor));
                assert(maze.passage(current, neighbor));
                assert(links(current, neighbor));
                lemma_link_reaches(links, current, neighbor);
                lemma_reaches_transitive(links, maze.start, current, neighbor);
                assert(stack@[before.len() as int] == (neighbor, depth));
                let last = visited_nodes.len() - 1;
                let entry = (neighbor, depth);
                assert(maze.passage(visited_nodes[last].0, entry.0));
                assert(is_found(*maze, visited_nodes, visited_nodes.len() as int, entry));
                assert forall|i: int| 0 <= i < stack@.len() implies {
                    let (cell, dep) = #[trigger] stack@[i];
                    &&& maze.contains(cell)
                    &&& dep <= visited_nodes.len()
                    &&& reaches(links, maze.start, cell)
                    &&& is_found(*maze, visited_nodes, visited_nodes.len() as int, stack@[i])
                } by {
                    if i < before.len() {
                        assert(stack@[i] == before[i]);
                    }
                }
            }
        }
    }
}

/// Puts on the stack, one level deeper, every cell that a passage leads to from
/// `current` and that has not been visited.
fn push_passages(
    maze: &Maze,
    stack: &mut Vec<(Coordinate, usize)>,
    visited: &CoordinateSet,
    current: Coordinate,
    depth: usize,
    Ghost(visited_nodes): Ghost<Seq<(Coordinate, usize)>>,
)
    requires
        maze.wf(),
        visited.wf(),
        1 <= depth <= visited_nodes.len(),
        visited_nodes.last() == (current, (depth - 1) as usize),
        search_stack_ok(*maze, old(stack)@, visited_nodes),
        reaches(passage_links(*maze), maze.start, current),
    ensures
        search_stack_ok(*maze, final(stack)@, visited_nodes),
        old(stack)@.is_prefix_of(final(stack)@),
        forall|b: Coordinate| maze.passage(current, b) ==> visited.has(b) || lists(final(stack)@, b),
{
    let ghost s0 = stack@;
    push_passage(maze, stack, visited, current, Direction::North, depth, Ghost(visited_nodes));
    let ghost s1 = stack@;
    push_passage(maze, stack, visited, current, Direction::South, depth, Ghost(visited_nodes));
    let ghost s2 = stack@;
    push_passage(maze, stack, visited, current, Direction::East, depth, Ghost(visited_nodes));
    let ghost s3 = stack@;
    push_passage(maze, stack, visited, current, Direction::West, depth, Ghost(visited_nodes));
    proof {
        let s4 = stack@;
        assert forall|b: Coordinate| lists(s1, b) || lists(s2, b) || lists(s3, b) implies lists(
            s4,
            b,
        ) by {
            let s = if lists(s1, b) {
                s1
            } else if lists(s2, b) {
                s2
            } else {
                s3
            };
            let k = choose|k: int| 0 <= k < s.len() && (#[trigger] s[k]).0 == b;
            assert(s4[k] == s[k]);
        }
        assert forall|b: Coordinate| maze.passage(current, b) implies visited.has(b) || lists(
            s4,
            b,
        ) by {
            let d = choose|d: Direction| #[trigger] maze.spec_step(d, current) == Some(b);
            match d {
                Direction::North => {},
                Direction::South => {},
                Direction::East => {},
                Direction::West => {},
            }
        }
        assert(s0.is_prefix_of(s4)) by {
            assert forall|k: int| 0 <= k < s0.len() implies s0[k] == s4[k] by {
                assert(s1[k] == s0[k]);
                assert(s2[k] == s1[k]);
                assert(s3[k] == s2[k]);
            }
        }
    }
}

/// Searches the maze depth first, from the start, through open walls, until a cell
/// of the end region is visited, and returns the cells in the order in which they
/// were visited, each with the depth at which the search found it. The result is
/// empty exactly when no cell of the end region can be reached.
pub fn solve_maze_for_animated_dfs(maze: &Maze) -> (visited_nodes: Vec<(Coordinate, usize)>)
    requires
        maze.wf(),
    ensures
        visited_nodes@.len() > 0 <==> exists|e: Coordinate|
            maze.in_end(e) && #[trigger] reaches(passage_links(*maze), maze.start, e),
        visited_nodes@.len() > 0 ==> is_search_trace(*maze, visited_nodes@),
{
    let ghost links = passage_links(*maze);
    let ghost limit = maze.width * maze.height;
    let mut stack: Vec<(Coordinate, usize)> = Vec::new();
    stack.push((maze.start, 0));
    let mut visited_nodes: Vec<(Coordinate, usize)> = Vec::new();
    let mut visited = CoordinateSet::new(maze.width, maze.height);
    proof {
        reveal(search_stack_ok);
        reveal(search_trace_ok);
        reveal(search_frontier_ok);
        lemma_reaches_itself(links, maze.start);
        assert(stack@[0] == (maze.start, 0usize));
    }
    loop
        invariant
            maze.wf(),
            links == passage_links(*maze),
            limit == maze.width * maze.height,
            visited.wf(),
            visited.grid_width() == maze.width,
            visited.grid_height() == maze.height,
            visited_nodes@.len() == visited.count(),
            search_stack_ok(*maze, stack@, visited_nodes@),
            search_trace_ok(*maze, visited@, visited_nodes@),
            search_frontier_ok(*maze, visited@, stack@),
            visited.has(maze.start) || (lists(stack@, maze.start) && visited.count() == 0),
            visited.count() == 0 ==> forall|i: int|
                0 <= i < stack@.len() ==> #[trigger] stack@[i] == (maze.start, 0usize),
        decreases maze.width * maze.height - visited.count(), stack@.len(),
    {
        let ghost stack_before = stack@;
        let ghost visited_before = visited@;
        let ghost trace_before = visited_nodes@;
        let current = match stack.pop() {
            Some(entry) => entry,
            None => {
                proof {
                    reveal(search_frontier_ok);
                    reveal(search_trace_ok);
                    assert(!lists(stack@, maze.start));
                    assert(is_closed(links, visited@)) by {
                        assert forall|a: Coordinate, b: Coordinate|
                            visited@.contains(a) && #[trigger] links(a, b) implies visited@.contains(
                            b,
                        ) by {
                            assert(maze.passage(a, b));
                            assert(!lists(stack@, b));
                        }
                    }
                    assert forall|e: Coordinate| maze.in_end(e) implies !#[trigger] reaches(
                        links,
                        maze.start,
                        e,
                    ) by {
                        if reaches(links, maze.start, e) {
                            assert(visited@.contains(e));
                            let i = choose|i: int|
                                0 <= i < visited_nodes@.len() && (#[trigger] visited_nodes@[i]).0
                                    == e;
                            assert(!maze.in_end(visited_nodes@[i].0));
                        }
                    }
                }
                return Vec::new();
            },
        };
        proof {
            reveal(search_stack_ok);
            assert(stack_before[stack_before.len() - 1] == current);
            assert(maze.contains(current.0) && reaches(links, maze.start, current.0));
            assert(is_found(*maze, trace_before, trace_before.len() as int, current));
            assert forall|i: int| 0 <= i < stack@.len() implies stack@[i] == stack_before[i] by {}
            assert forall|b: Coordinate| lists(stack_before, b) implies lists(stack@, b) || b
                == current.0 by {
                let k = choose|k: int| 0 <= k < stack_before.len() && (#[trigger] stack_before[k]).0 == b;
                if k < stack@.len() {
                    assert(stack@[k] == stack_before[k]);
                }
            }
        }
        if visited.contains(&current.0) {
            proof {
                reveal(search_frontier_ok);
                assert(visited.count() > 0) by {
                    if visited.count() == 0 {
                        visited.lemma_empty();
                    }
                }
            }
        } else {
            visited.insert(current.0);
            visited_nodes.push(current);
            proof {
                visited.lemma_count_bound();
                reveal(search_trace_ok);
                if visited_before.contains(maze.start) == false {
                    assert(current == (maze.start, 0usize));
                }
                assert(visited_nodes@[trace_before.len() as int] == current);
                assert forall|i: int| 0 <= i < trace_before.len() implies visited_nodes@[i]
                    == trace_before[i] by {}
            }
            if maze.is_end(current.0) {
                proof {
                    reveal(search_trace_ok);
                    assert(visited_nodes@.last() == current);
                    assert forall|i: int, j: int|
                        0 <= i < j < visited_nodes@.len() implies (#[trigger] visited_nodes@[i]).0 != (
                    #[trigger] visited_nodes@[j]).0 by {
                        assert(visited_nodes@[i] == trace_before[i]);
                        if j < trace_before.len() {
                            assert(visited_nodes@[j] == trace_before[j]);
                        } else {
                            assert(lists(trace_before, trace_before[i].0));
                            assert(visited_before.contains(trace_before[i].0));
                        }
                    }
                    assert forall|i: int| 0 <= i < visited_nodes@.len() - 1 implies !maze.in_end(
                        (#[trigger] visited_nodes@[i]).0,
                    ) by {
                        assert(visited_nodes@[i] == trace_before[i]);
                    }
                    assert forall|i: int| 0 <= i < visited_nodes@.len() implies reaches(
                        links,
                        maze.start,
                        (#[trigger] visited_nodes@[i]).0,
                    ) && is_found(*maze, visited_nodes@, i, visited_nodes@[i]) by {
                        if i < trace_before.len() {
                            assert(visited_nodes@[i] == trace_before[i]);
                            assert(is_found(*maze, trace_before, i, trace_before[i]));
                        }
                        lemma_found_in_longer(*maze, trace_before, visited_nodes@, i, visited_nodes@[i]);
                    }
                    assert(is_search_trace(*maze, visited_nodes@));
                }
                return visited_nodes;
            }
            proof {
                assert(search_trace_ok(*maze, visited@, visited_nodes@)) by {
                    reveal(search_trace_ok);
                    assert forall|c: Coordinate| #[trigger]
                        visited@.contains(c) <==> lists(visited_nodes@, c) by {
                        if visited_before.contains(c) {
                            let k = choose|k: int|
                                0 <= k < trace_before.len() && (#[trigger] trace_before[k]).0 == c;
                            assert(visited_nodes@[k] == trace_before[k]);
                        }
                        if lists(visited_nodes@, c) {
                            let k = choose|k: int|
                                0 <= k < visited_nodes@.len() && (#[trigger] visited_nodes@[k]).0
                                    == c;
                            if k < trace_before.len() {
                                assert(visited_nodes@[k] == trace_before[k]);
                                assert(lists(trace_before, c));
                            }
                        }
                    }
                    assert forall|i: int, j: int|
                        0 <= i < j < visited_nodes@.len() implies (#[trigger] visited_nodes@[i]).0 != (
                    #[trigger] visited_nodes@[j]).0 by {
                        assert(visited_nodes@[i] == trace_before[i]);
                        if j < trace_before.len() {
                            assert(visited_nodes@[j] == trace_before[j]);
                        } else {
                            assert(lists(trace_before, trace_before[i].0));
                            assert(visited_before.contains(trace_before[i].0));
                        }
                    }
                    assert forall|i: int| 0 <= i < visited_nodes@.len() implies !maze.in_end(
                        (#[trigger] visited_nodes@[i]).0,
                    ) && reaches(links, maze.start, visited_nodes@[i].0) && is_found(
                        *maze,
                        visited_nodes@,
                        i,
                        visited_nodes@[i],
                    ) by {
                        if i < trace_before.len() {
                            assert(visited_nodes@[i] == trace_before[i]);
                            assert(is_found(*maze, trace_before, i, trace_before[i]));
                        }
                        lemma_found_in_longer(*maze, trace_before, visited_nodes@, i, visited_nodes@[i]);
                    }
                }
                assert(search_stack_ok(*maze, stack@, visited_nodes@)) by {
                    reveal(search_stack_ok);
                    assert forall|i: int| 0 <= i < stack@.len() implies is_found(
                        *maze,
                        visited_nodes@,
                        visited_nodes@.len() as int,
                        #[trigger] stack@[i],
                    ) by {
                        lemma_found_later(*maze, trace_before, visited_nodes@, stack@[i]);
                    }
                }
            }
            let ghost below = stack@;
            push_passages(
                maze,
                &mut stack,
                &visited,
                current.0,
                current.1 + 1,
                Ghost(visited_nodes@),
            );
            proof {
                reveal(search_frontier_ok);
                assert forall|b: Coordinate| lists(below, b) implies lists(stack@, b) by {
                    let k = choose|k: int| 0 <= k < below.len() && (#[trigger] below[k]).0 == b;
                    assert(stack@[k] == below[k]);
                }
                assert forall|v: Coordinate, b: Coordinate|
                    visited@.contains(v) && #[trigger] maze.passage(v, b) implies visited@.contains(
                    b,
                ) || lists(stack@, b) by {
                    if v != current.0 {
                        assert(visited_before.contains(v));
                        assert(visited_before.contains(b) || lists(stack_before, b));
                    }
                }
            }
        }
    }
}

} // verus!
