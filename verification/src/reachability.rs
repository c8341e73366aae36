//! Which cells of a maze can be reached from which, and the scan that finds out.

use crate::connectivity::{is_closed, lemma_link_reaches, lemma_reaches_transitive, reaches, Links};
use crate::coordinate_set::CoordinateSet;
use crate::direction::{Coordinate, Direction};
use crate::maze::Maze;
use vstd::prelude::*;

verus! {

impl Maze {
    /// Whether one can step from `a` to `b`: `b` is the cell next to `a` in some
    /// direction towards which `a` is open.
    pub open spec fn passage(&self, a: Coordinate, b: Coordinate) -> bool {
        exists|d: Direction| #[trigger] self.spec_step(d, a) == Some(b)
    }

    /// Whether `a` and `b` hang together directly: by a passage, or because both
    /// belong to the end region, which counts as one place.
    pub open spec fn joins(&self, a: Coordinate, b: Coordinate) -> bool {
        self.passage(a, b) || (self.in_end(a) && self.in_end(b))
    }

    /// Whether every cell of the maze can be reached from every other, the end
    /// region taken as one place.
    pub open spec fn is_connected(&self) -> bool {
        forall|a: Coordinate, b: Coordinate|
            self.contains(a) && self.contains(b) ==> #[trigger] reaches(maze_links(*self), a, b)
    }
}

/// The links of a maze: its passages, and the end region as one place.
pub open spec fn maze_links(maze: Maze) -> Links {
    |a: Coordinate, b: Coordinate| maze.joins(a, b)
}

/// The links of a maze when the end region does not count as one place: its
/// passages alone.
pub open spec fn passage_links(maze: Maze) -> Links {
    |a: Coordinate, b: Coordinate| maze.passage(a, b)
}

/// Whether every cell that a visited cell is joined to is visited or waits on the
/// stack.
#[verifier::opaque]
pub open spec fn scan_frontier(maze: Maze, visited: Set<Coordinate>, stack: Seq<Coordinate>) -> bool {
    forall|v: Coordinate, b: Coordinate|
        visited.contains(v) && #[trigger] maze.joins(v, b) ==> visited.contains(b) || stack.contains(b)
}

/// Whether every cell on the stack lies on the grid and can be reached from the
/// start.
#[verifier::opaque]
pub open spec fn scan_stack_ok(maze: Maze, stack: Seq<Coordinate>) -> bool {
    forall|i: int|
        0 <= i < stack.len() ==> maze.contains(#[trigger] stack[i]) && reaches(
            maze_links(maze),
            maze.start,
            stack[i],
        )
}

/// Whether every visited cell can be reached from the start.
#[verifier::opaque]
pub open spec fn scan_visited_ok(maze: Maze, visited: Set<Coordinate>) -> bool {
    forall|v: Coordinate| #[trigger] visited.contains(v) ==> reaches(maze_links(maze), maze.start, v)
}

/// Puts the cell next to `current` towards `d` on the stack, if there is a passage
/// to it and it has not been visited.
fn push_passage(
    maze: &Maze,
    stack: &mut Vec<Coordinate>,
    visited: &CoordinateSet,
    current: Coordinate,
    d: Direction,
)
    requires
        maze.wf(),
        visited.wf(),
        scan_stack_ok(*maze, old(stack)@),
        reaches(maze_links(*maze), maze.start, current),
    ensures
        scan_stack_ok(*maze, final(stack)@),
        old(stack)@.is_prefix_of(final(stack)@),
        final(stack)@.len() <= old(stack)@.len() + 1,
        forall|b: Coordinate|
            maze.spec_step(d, current) == Some(b) ==> visited.has(b) || final(stack)@.contains(b),
{
    proof {
        maze.lemma_single_step(d, current);
    }
    if let Ok(neighbor) = maze.move_from_with_walls(&d, &current, 1) {
        if !visited.contains(&neighbor) {
            let ghost before = stack@;
            stack.push(neighbor);
            proof {
                reveal(scan_stack_ok);
                let links = maze_links(*maze);
                assert(maze.spec_step(d, current) == Some(neighbor));
                assert(maze.joins(current, neighbor));
                assert(links(current, neighbor));
                lemma_link_reaches(links, current, neighbor);
                lemma_reaches_transitive(links, maze.start, current, neighbor);
                assert(stack@[before.len() as int] == neighbor);
                assert forall|i: int| 0 <= i < stack@.len() implies maze.contains(
                    #[trigger] stack@[i],
                ) && reaches(links, maze.start, stack@[i]) by {
                    if i < before.len() {
                        assert(stack@[i] == before[i]);
                    }
                }
            }
        }
    }
}

/// Puts every cell of the end region that has not been visited on the stack.
fn push_end_cells(maze: &Maze, stack: &mut Vec<Coordinate>, visited: &CoordinateSet, current: Coordinate)
    requires
        maze.wf(),
        visited.wf(),
        scan_stack_ok(*maze, old(stack)@),
        reaches(maze_links(*maze), maze.start, current),
        maze.in_end(current),
    ensures
        scan_stack_ok(*maze, final(stack)@),
        old(stack)@.is_prefix_of(final(stack)@),
        final(stack)@.len() <= old(stack)@.len() + maze.end@.len(),
        forall|b: Coordinate| maze.in_end(b) ==> visited.has(b) || final(stack)@.contains(b),
{
    let ghost links = maze_links(*maze);
    let mut i: usize = 0;
    while i < maze.end.len()
        invariant
            maze.wf(),
            visited.wf(),
            i <= maze.end@.len(),
            links == maze_links(*maze),
            maze.in_end(current),
            reaches(links, maze.start, current),
            scan_stack_ok(*maze, stack@),
            old(stack)@.is_prefix_of(stack@),
            stack@.len() <= old(stack)@.len() + i,
            forall|j: int| 0 <= j < i ==> visited.has(#[trigger] maze.end@[j]) || stack@.contains(maze.end@[j]),
        decreases maze.end@.len() - i,
    {
        let cell = maze.end[i];
        let ghost before = stack@;
        if !visited.contains(&cell) {
            stack.push(cell);
            proof {
                reveal(scan_stack_ok);
                assert(maze.joins(current, cell));
                assert(links(current, cell));
                lemma_link_reaches(links, current, cell);
                lemma_reaches_transitive(links, maze.start, current, cell);
                assert(stack@[before.len() as int] == cell);
                assert forall|k: int| 0 <= k < stack@.len() implies maze.contains(
                    #[trigger] stack@[k],
                ) && reaches(links, maze.start, stack@[k]) by {
                    if k < before.len() {
                        assert(stack@[k] == before[k]);
                    }
                }
            }
        }
        proof {
            assert forall|j: int| 0 <= j < i + 1 implies visited.has(#[trigger] maze.end@[j])
                || stack@.contains(maze.end@[j]) by {
                if j < i && !visited.has(maze.end@[j]) {
                    let k = choose|k: int| 0 <= k < before.len() && before[k] == maze.end@[j];
                    assert(stack@[k] == before[k]);
                }
            }
        }
        i += 1;
    }
    proof {
        assert forall|b: Coordinate| maze.in_end(b) implies visited.has(b) || stack@.contains(b) by {
            let j = choose|j: int| 0 <= j < maze.end@.len() && maze.end@[j] == b;
            assert(visited.has(maze.end@[j]) || stack@.contains(maze.end@[j]));
        }
    }
}

/// Puts on the stack what `current` is joined to and has not been visited.
fn push_joined(maze: &Maze, stack: &mut Vec<Coordinate>, visited: &CoordinateSet, current: Coordinate)
    requires
        maze.wf(),
        visited.wf(),
        scan_stack_ok(*maze, old(stack)@),
        reaches(maze_links(*maze), maze.start, current),
    ensures
        scan_stack_ok(*maze, final(stack)@),
        old(stack)@.is_prefix_of(final(stack)@),
        forall|b: Coordinate| maze.joins(current, b) ==> visited.has(b) || final(stack)@.contains(b),
{
    let ghost s0 = stack@;
    push_passage(maze, stack, visited, current, Direction::North);
    let ghost s1 = stack@;
    push_passage(maze, stack, visited, current, Direction::South);
    let ghost s2 = stack@;
    push_passage(maze, stack, visited, current, Direction::East);
    let ghost s3 = stack@;
    push_passage(maze, stack, visited, current, Direction::West);
    let ghost s4 = stack@;
    if maze.is_end(current) {
        push_end_cells(maze, stack, visited, current);
    }
    proof {
        let s5 = stack@;
        assert forall|b: Coordinate| s1.contains(b) || s2.contains(b) || s3.contains(b)
            || s4.contains(b) implies s5.contains(b) by {
            let s = if s1.contains(b) {
                s1
            } else if s2.contains(b) {
                s2
            } else if s3.contains(b) {
                s3
            } else {
                s4
            };
            let k = choose|k: int| 0 <= k < s.len() && s[k] == b;
            assert(s5[k] == s[k]);
        }
        assert forall|b: Coordinate| maze.joins(current, b) implies visited.has(b) || s5.contains(
            b,
        ) by {
            if maze.passage(current, b) {
                let d = choose|d: Direction| #[trigger] maze.spec_step(d, current) == Some(b);
                match d {
                    Direction::North => {},
                    Direction::South => {},
                    Direction::East => {},
                    Direction::West => {},
                }
            }
        }
        assert(s0.is_prefix_of(s5)) by {
            assert forall|k: int| 0 <= k < s0.len() implies s0[k] == s5[k] by {
                assert(s1[k] == s0[k]);
                assert(s2[k] == s1[k]);
                assert(s3[k] == s2[k]);
                assert(s4[k] == s3[k]);
            }
        }
    }
}

/// Whether every cell of the maze can be reached from the start, through open walls
/// and with the end region taken as one place.
pub fn all_tiles_reachable(maze: &Maze) -> (all: bool)
    requires
        maze.wf(),
    ensures
        all == (forall|c: Coordinate|
            maze.contains(c) ==> #[trigger] reaches(maze_links(*maze), maze.start, c)),
{
    let ghost links = maze_links(*maze);
    let mut stack: Vec<Coordinate> = Vec::new();
    stack.push(maze.start);
    let mut visited = CoordinateSet::new(maze.width, maze.height);
    proof {
        reveal(scan_frontier);
        reveal(scan_stack_ok);
        reveal(scan_visited_ok);
        assert(stack@[0] == maze.start);
    }
    loop
        invariant
            maze.wf(),
            links == maze_links(*maze),
            visited.wf(),
            visited.grid_width() == maze.width,
            visited.grid_height() == maze.height,
            scan_stack_ok(*maze, stack@),
            scan_visited_ok(*maze, visited@),
            scan_frontier(*maze, visited@, stack@),
            visited.has(maze.start) || stack@.contains(maze.start),
        decreases maze.width * maze.height - visited.count(), stack@.len(),
    {
        let ghost stack_before = stack@;
        let ghost visited_before = visited@;
        let current = match stack.pop() {
            Some(c) => c,
            None => {
                let all = visited.len() == maze.width * maze.height;
                proof {
                    reveal(scan_frontier);
                    reveal(scan_visited_ok);
                    visited.lemma_full();
                    assert(stack@.len() == 0);
                    assert(visited@.contains(maze.start));
                    assert(is_closed(links, visited@)) by {
                        assert forall|a: Coordinate, b: Coordinate|
                            visited@.contains(a) && #[trigger] links(a, b) implies visited@.contains(
                            b,
                        ) by {
                            assert(maze.joins(a, b));
                        }
                    }
                    if all {
                        assert forall|c: Coordinate| maze.contains(c) implies reaches(
                            links,
                            maze.start,
                            c,
                        ) by {
                            assert(visited.has(c));
                            assert(visited@.contains(c));
                        }
                    }
                    if forall|c: Coordinate|
                        maze.contains(c) ==> #[trigger] reaches(links, maze.start, c) {
                        assert forall|c: Coordinate|
                            c.0 < visited.grid_width() && c.1 < visited.grid_height() implies visited.has(
                            c,
                        ) by {
                            assert(maze.contains(c));
                            assert(reaches(links, maze.start, c));
                            assert(visited@.contains(c));
                        }
                    }
                }
                return all;
            },
        };
        proof {
            reveal(scan_stack_ok);
            assert(stack_before[stack_before.len() - 1] == current);
            assert(reaches(links, maze.start, current));
            assert(maze.contains(current));
            assert forall|i: int| 0 <= i < stack@.len() implies stack@[i] == stack_before[i] by {}
            assert forall|b: Coordinate| stack_before.contains(b) implies stack@.contains(b) || b
                == current by {
                let k = choose|k: int| 0 <= k < stack_before.len() && stack_before[k] == b;
                if k < stack@.len() {
                    assert(stack@[k] == stack_before[k]);
                }
            }
        }
        if visited.contains(&current) {
            proof {
                reveal(scan_frontier);
            }
        } else {
            visited.insert(current);
            proof {
                visited.lemma_count_bound();
                reveal(scan_visited_ok);
                assert forall|v: Coordinate| #[trigger] visited@.contains(v) implies reaches(
                    links,
                    maze.start,
                    v,
                ) by {
                    if v != current {
                        assert(visited_before.contains(v));
                    }
                }
            }
            let ghost below = stack@;
            push_joined(maze, &mut stack, &visited, current);
            proof {
                reveal(scan_frontier);
                assert forall|b: Coordinate| below.contains(b) implies stack@.contains(b) by {
                    let k = choose|k: int| 0 <= k < below.len() && below[k] == b;
                    assert(stack@[k] == below[k]);
                }
                assert forall|v: Coordinate, b: Coordinate|
                    visited@.contains(v) && #[trigger] maze.joins(v, b) implies visited@.contains(b)
                    || stack@.contains(b) by {
                    if v != current {
                        assert(visited_before.contains(v));
                        assert(visited_before.contains(b) || stack_before.contains(b));
                    }
                }
            }
        }
    }
}

} // verus!
