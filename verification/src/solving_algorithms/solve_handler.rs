//! The choice between the path-finding algorithms.

use crate::direction::{direction_between, Coordinate, Direction};
use crate::environment::Environment;
use crate::solving_algorithms::dfs_search::solve_maze_dfs;
use crate::solving_algorithms::dijkstra::{dijkstra_solve, SolveError};
use crate::coordinate_map::DirectionMap;
use crate::maze::Maze;
use crate::solving_algorithms::routes::{
    connects, has_edge_towards, is_leg, is_route, is_shortest_route, lemma_edge_ends, reachable,
    route_steps,
};
use crate::text::{is_name, lowercase, spec_lowercase};
use std::str::FromStr;
use vstd::prelude::*;

verus! {

/// The path-finding algorithms on offer.
#[derive(Debug, Clone, Copy, PartialEq, Eq, Hash, Structural)]
pub enum SolveAlgorithm {
    Dfs,
    Dijkstra,
}

impl SolveAlgorithm {
    /// The algorithm that goes by the name `lower`, a name in small letters.
    pub open spec fn spec_from_name(lower: Seq<char>) -> Option<SolveAlgorithm> {
        if lower == "dfs"@ {
            Some(SolveAlgorithm::Dfs)
        } else if lower == "dijkstra"@ {
            Some(SolveAlgorithm::Dijkstra)
        } else {
            None
        }
    }

    /// The algorithm whose name, written in small letters, is `lower`.
    pub fn from_lowered_name(lower: &str) -> (r: Option<SolveAlgorithm>)
        ensures
            r == SolveAlgorithm::spec_from_name(lower@),
    {
        let text = lower.to_owned();
        if is_name(&text, "dfs") {
            Some(SolveAlgorithm::Dfs)
        } else if is_name(&text, "dijkstra") {
            Some(SolveAlgorithm::Dijkstra)
        } else {
            None
        }
    }

    /// The algorithm that goes by the name `s`, in letters large or small.
    pub fn from_name(s: &str) -> (r: Option<SolveAlgorithm>)
        ensures
            r == SolveAlgorithm::spec_from_name(spec_lowercase(s@)),
    {
        let lower = lowercase(s);
        SolveAlgorithm::from_lowered_name(lower.as_str())
    }
}

impl FromStr for SolveAlgorithm {
    type Err = ();

    fn from_str(s: &str) -> (r: Result<SolveAlgorithm, ()>)
        ensures
            r == (match SolveAlgorithm::spec_from_name(spec_lowercase(s@)) {
                Some(algorithm) => Ok::<SolveAlgorithm, ()>(algorithm),
                None => Err::<SolveAlgorithm, ()>(()),
            }),
    {
        match SolveAlgorithm::from_name(s) {
            Some(algorithm) => Ok(algorithm),
            None => Err(()),
        }
    }
}

/// Turns a route into the steps that follow it: each cell but the last, with the
/// direction towards the next.
pub fn steps_of_route(path: &Vec<Coordinate>) -> (steps: Vec<(Coordinate, Direction)>)
    ensures
        steps@ == route_steps(path@),
{
    let mut steps: Vec<(Coordinate, Direction)> = Vec::new();
    if path.len() == 0 {
        assert(steps@ =~= route_steps(path@));
        return steps;
    }
    assert(steps@ =~= route_steps(path@.take(1)));
    let mut index: usize = 1;
    while index < path.len()
        invariant
            1 <= index <= path@.len(),
            steps@ == route_steps(path@.take(index as int)),
        decreases path@.len() - index,
    {
        let direction = match direction_between(path[index - 1], path[index]) {
            Some(d) => d,
            None => Direction::North,
        };
        steps.push((path[index - 1], direction));
        proof {
            assert(steps@ =~= route_steps(path@.take(index + 1)));
        }
        index += 1;
    }
    proof {
        assert(path@.take(index as int) =~= path@);
    }
    steps
}

/// Solves the maze of `environment` with the chosen algorithm, from the start to
/// the first cell of the end region, and returns the steps of the route found.
/// Depth-first search gives some route, Dijkstra's algorithm a shortest one. Where
/// no route exists the result is the error `Unreachable`.
pub fn select_maze_solve_algorithm(environment: &Environment, algorithm: &SolveAlgorithm) -> (r:
    Result<Vec<(Coordinate, Direction)>, SolveError>)
    requires
        environment.maze.wf(),
        environment.maze.end@.len() > 0,
    ensures
        r is Ok <==> reachable(
            environment.maze,
            environment.weighted_graph@,
            environment.maze.start,
            environment.maze.end@[0],
        ),
        r matches Ok(steps) ==> exists|path: Seq<Coordinate>|
            {
                &&& #[trigger] connects(
                    environment.maze,
                    environment.weighted_graph@,
                    path,
                    environment.maze.start,
                    environment.maze.end@[0],
                )
                &&& steps@ == route_steps(path)
                &&& *algorithm == SolveAlgorithm::Dijkstra ==> is_shortest_route(
                    environment.maze,
                    environment.weighted_graph@,
                    path,
                    environment.maze.start,
                    environment.maze.end@[0],
                )
            },
        r matches Err(e) ==> e == SolveError::Unreachable,
{
    let end = environment.maze.end[0];
    let path: Vec<Coordinate> = match algorithm {
        SolveAlgorithm::Dfs => {
            let found = solve_maze_dfs(environment, end);
            if found.len() == 0 {
                return Err(SolveError::Unreachable);
            }
            found
        },
        SolveAlgorithm::Dijkstra => match dijkstra_solve(
            environment,
            environment.maze.start,
            end,
        ) {
            Ok(found) => found,
            Err(e) => {
                return Err(e);
            },
        },
    };
    let steps = steps_of_route(&path);
    Ok(steps)
}

/// Each step of a route takes the direction of the edge that it follows.
pub proof fn lemma_route_steps_follow_edges(
    maze: Maze,
    graph: Map<Coordinate, DirectionMap>,
    path: Seq<Coordinate>,
    i: int,
)
    requires
        is_route(maze, graph, path),
        0 <= i < path.len() - 1,
    ensures
        route_steps(path)[i].0 == path[i],
        has_edge_towards(maze, graph, path[i], route_steps(path)[i].1, path[i + 1]),
{
    assert(is_leg(maze, graph, path, i));
    let a = path[i];
    let b = path[i + 1];
    let d = choose|d: Direction| has_edge_towards(maze, graph, a, d, b);
    lemma_edge_ends(maze, graph, a, d, b);
}

} // verus!
