//! The choice between the ways of exploring.

use crate::environment::Environment;
use crate::exploring_algorithms::wall_following::follow_wall_explore;
use crate::text::{is_name, lowercase, spec_lowercase};
use std::str::FromStr;
use vstd::prelude::*;

verus! {

/// The ways of exploring on offer.
#[derive(Debug, Clone, Copy, PartialEq, Eq, Hash, Structural)]
pub enum ExploreAlgorithm {
    /// The agent follows the wall on its right hand.
    WallFollowing,
    /// The agent does not explore, and knows the whole maze.
    Nothing,
}

impl ExploreAlgorithm {
    /// The way of exploring that goes by the name `lower`, a name in small letters.
    pub open spec fn spec_from_name(lower: Seq<char>) -> Option<ExploreAlgorithm> {
        if lower == "wall-following"@ {
            Some(ExploreAlgorithm::WallFollowing)
        } else if lower == "none"@ {
            Some(ExploreAlgorithm::Nothing)
        } else {
            None
        }
    }

    /// The way of exploring whose name, written in small letters, is `lower`.
    pub fn from_lowered_name(lower: &str) -> (r: Option<ExploreAlgorithm>)
        ensures
            r == ExploreAlgorithm::spec_from_name(lower@),
    {
        let text = lower.to_owned();
        if is_name(&text, "wall-following") {
            Some(ExploreAlgorithm::WallFollowing)
        } else if is_name(&text, "none") {
            Some(ExploreAlgorithm::Nothing)
        } else {
            None
        }
    }

    /// The way of exploring that goes by the name `s`, in letters large or small.
    pub fn from_name(s: &str) -> (r: Option<ExploreAlgorithm>)
        ensures
            r == ExploreAlgorithm::spec_from_name(spec_lowercase(s@)),
    {
        let lower = lowercase(s);
        ExploreAlgorithm::from_lowered_name(lower.as_str())
    }
}

impl FromStr for ExploreAlgorithm {
    type Err = ();

    fn from_str(s: &str) -> (r: Result<ExploreAlgorithm, ()>)
        ensures
            r == (match ExploreAlgorithm::spec_from_name(spec_lowercase(s@)) {
                Some(algorithm) => Ok::<ExploreAlgorithm, ()>(algorithm),
                None => Err::<ExploreAlgorithm, ()>(()),
            }),
    {
        match ExploreAlgorithm::from_name(s) {
            Some(algorithm) => Ok(algorithm),
            None => Err(()),
        }
    }
}

/// Lets the agent explore its maze and gives it the weighted graph of what it
/// knows. By wall following the agent walks to the first cell of the end region and
/// back, and the graph is that of the cells which it has visited since the last run
/// boundary. Without exploration the graph is that of the whole maze.
pub fn explore_maze_with(environment: &mut Environment, algorithm: &ExploreAlgorithm)
    requires
        old(environment).maze.wf(),
        *algorithm == ExploreAlgorithm::WallFollowing ==> old(environment).maze.end@.len() > 0,
    ensures
        final(environment).maze == old(environment).maze,
        *algorithm == ExploreAlgorithm::Nothing ==> final(environment).weighted_graph@ == old(
            environment,
        ).maze.spec_weighted_graph(old(environment).maze.graph_nodes(None, true))
            && final(environment).same_but_graph(old(environment)),
        *algorithm == ExploreAlgorithm::WallFollowing ==> exists|
            explored: Environment,
            states: Seq<Environment>,
        |
            {
                &&& #[trigger] old(environment).follows_wall_to(
                    &explored,
                    old(environment).maze.start,
                    old(environment).maze.end@[0],
                    old(environment).spec_next_run(),
                    old(environment).spec_move_budget(),
                    states,
                )
                &&& final(environment).same_but_graph(&explored)
                &&& final(environment).weighted_graph@ == explored.maze.spec_weighted_graph(
                    explored.maze.graph_nodes(Some(explored.visited@), true),
                )
            },
{
    match algorithm {
        ExploreAlgorithm::WallFollowing => {
            let end = environment.maze.end[0];
            follow_wall_explore(environment, end);
            let ghost explored = *environment;
            environment.weighted_graph = environment.maze.convert_to_weighted_graph(
                Some(&environment.visited),
                true,
            );
            proof {
                let states = choose|states: Seq<Environment>| #[trigger]
                    old(environment).follows_wall_to(
                        &explored,
                        old(environment).maze.start,
                        end,
                        old(environment).spec_next_run(),
                        old(environment).spec_move_budget(),
                        states,
                    );
                assert(environment.same_but_graph(&explored));
            }
        },
        ExploreAlgorithm::Nothing => {
            environment.weighted_graph = environment.maze.convert_to_weighted_graph(None, true);
        },
    }
}

} // verus!
