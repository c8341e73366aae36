//! Exploration by following the wall on the right hand.

use crate::direction::{Coordinate, Direction};
use crate::environment::{bumped, Environment};
use vstd::prelude::*;

verus! {

impl Environment {
    /// The direction in which the agent is heading: that of its last move, north
    /// before the first.
    pub open spec fn spec_heading(&self) -> Direction {
        match self.previous_direction {
            Some(d) => d,
            None => Direction::North,
        }
    }

    /// Whether the wall follower may take the direction `d`: an edge of the graph
    /// leaves the current location that way, and it is not the way back.
    pub open spec fn spec_may_follow(&self, d: Direction) -> bool {
        &&& self.spec_available_paths().weight(d) is Some
        &&& !(self.previous_direction is Some && d == self.spec_heading().opposite())
    }

    /// The direction that stands at the compass position `turn` as seen by an agent
    /// heading where this one is heading.
    pub open spec fn spec_turned(&self, turn: Direction) -> Direction {
        Direction::from_ordinal(self.spec_heading().ordinal() + turn.ordinal())
    }

    /// The direction that the wall follower takes next: the first that it may take
    /// of right, straight on, left and back, as seen from its heading; and the way
    /// back where it may take none.
    pub open spec fn spec_wall_choice(&self) -> Direction {
        if self.spec_may_follow(self.spec_turned(Direction::East)) {
            self.spec_turned(Direction::East)
        } else if self.spec_may_follow(self.spec_turned(Direction::North)) {
            self.spec_turned(Direction::North)
        } else if self.spec_may_follow(self.spec_turned(Direction::West)) {
            self.spec_turned(Direction::West)
        } else if self.spec_may_follow(self.spec_turned(Direction::South)) {
            self.spec_turned(Direction::South)
        } else {
            self.spec_heading().opposite()
        }
    }

    /// The number of steps that a move towards `d` takes.
    pub open spec fn spec_taken(&self, d: Direction) -> usize {
        if self.spec_edge(d) == 0 {
            0
        } else {
            self.spec_steps_taken(d) as usize
        }
    }

    /// Whether the wall follower goes on from the state at place `i` of `states`: it
    /// does until it is back at `start` after it has stood on `end`.
    pub open spec fn goes_on(states: Seq<Environment>, i: int, start: Coordinate, end: Coordinate) -> bool {
        states[i].current_location != start || forall|j: int|
            0 <= j < i ==> (#[trigger] states[j]).current_location != end
    }

    /// Whether the wall follower goes on from the state at place `i` of `states`, and
    /// the state at place `i + 1` comes from it by the move that the wall follower
    /// takes there.
    pub open spec fn is_wall_move_at(
        states: Seq<Environment>,
        i: int,
        start: Coordinate,
        end: Coordinate,
        run: usize,
    ) -> bool {
        &&& states[i].moves_to(
            &states[i + 1],
            states[i].spec_wall_choice(),
            run,
            states[i].spec_taken(states[i].spec_wall_choice()),
        )
        &&& Environment::goes_on(states, i, start, end)
    }

    /// Whether `states` are the states that the environment passes through from this
    /// one to `after` while the agent follows the wall in run `run`: each comes from
    /// the one before by the move that the wall follower takes there, and the agent
    /// goes on until it is back at `start` after it has stood on `end`, or until it
    /// has made `budget` moves.
    pub open spec fn follows_wall_to(
        &self,
        after: &Environment,
        start: Coordinate,
        end: Coordinate,
        run: usize,
        budget: usize,
        states: Seq<Environment>,
    ) -> bool {
        &&& states.len() >= 1
        &&& states.len() - 1 <= budget
        &&& states[0] == *self
        &&& states.last() == *after
        &&& forall|i: int|
            0 <= i < states.len() - 1 ==> #[trigger] Environment::is_wall_move_at(
                states,
                i,
                start,
                end,
                run,
            )
        &&& states.len() - 1 == budget || !Environment::goes_on(
            states,
            states.len() - 1,
            start,
            end,
        )
    }

    /// The run after the current one.
    pub open spec fn spec_next_run(&self) -> usize {
        bumped(
            if self.path_followed@.len() == 0 {
                0
            } else {
                self.path_followed@.last().1
            },
        )
    }

    /// The number of moves after which a wall follower that has not come back will
    /// never come back: it has then been in some cell, with some heading, twice on
    /// the way out or twice on the way home, and goes round in a circle.
    pub open spec fn spec_move_budget(&self) -> usize {
        let cells = self.maze.width * self.maze.height;
        if cells * 8 + 2 <= usize::MAX {
            (cells * 8 + 2) as usize
        } else {
            usize::MAX
        }
    }

    /// The number of moves that the wall follower is given; see
    /// [`Environment::spec_move_budget`].
    pub fn move_budget(&self) -> (budget: usize)
        requires
            self.maze.wf(),
        ensures
            budget == self.spec_move_budget(),
    {
        let cells = self.maze.width * self.maze.height;
        if cells <= (usize::MAX - 2) / 8 {
            cells * 8 + 2
        } else {
            usize::MAX
        }
    }

    /// Whether the wall follower may take the direction `d`.
    fn may_follow(&self, d: Direction) -> (r: bool)
        ensures
            r == self.spec_may_follow(d),
    {
        let paths = self.available_paths();
        if !paths.contains_key(&d) {
            return false;
        }
        match self.previous_direction {
            Some(previous) => !(d == previous.opposite_direction()),
            None => true,
        }
    }

    /// The direction that the wall follower takes next.
    pub fn wall_choice(&self) -> (d: Direction)
        ensures
            d == self.spec_wall_choice(),
    {
        let heading = match self.previous_direction {
            Some(d) => d,
            None => Direction::North,
        };
        let right = Direction::East.relative_direction(&heading);
        if self.may_follow(right) {
            return right;
        }
        let ahead = Direction::North.relative_direction(&heading);
        if self.may_follow(ahead) {
            return ahead;
        }
        let left = Direction::West.relative_direction(&heading);
        if self.may_follow(left) {
            return left;
        }
        let back = Direction::South.relative_direction(&heading);
        if self.may_follow(back) {
            return back;
        }
        heading.opposite_direction()
    }
}

/// Lets the agent explore the maze by keeping to the wall on its right: at every
/// decision node it takes the first edge of right, straight on, left, and turns
/// back at a dead end. The moves are made in a run of their own, the one after the
/// current run. The agent goes on until it is back at the start after it has stood
/// on `end`; it gives up after as many moves as show that it walks in a circle.
pub fn follow_wall_explore(env: &mut Environment, end: Coordinate)
    requires
        old(env).maze.wf(),
    ensures
        exists|states: Seq<Environment>| #[trigger]
            old(env).follows_wall_to(
                final(env),
                old(env).maze.start,
                end,
                old(env).spec_next_run(),
                old(env).spec_move_budget(),
                states,
            ),
        final(env).maze == old(env).maze,
        final(env).weighted_graph == old(env).weighted_graph,
{
    let start = env.maze.start;
    let mut has_not_reached_end = true;
    let run = env.get_current_run().saturating_add(1);
    let budget = env.move_budget();
    let mut moves: usize = 0;
    let ghost mut states: Seq<Environment> = seq![*env];
    while moves < budget && (!(env.current_location.0 == start.0 && env.current_location.1
        == start.1) || has_not_reached_end)
        invariant
            moves <= budget,
            run == old(env).spec_next_run(),
            budget == old(env).spec_move_budget(),
            env.maze.wf(),
            env.maze == old(env).maze,
            env.weighted_graph == old(env).weighted_graph,
            start == old(env).maze.start,
            states.len() == moves + 1,
            states[0] == *old(env),
            states.last() == *env,
            has_not_reached_end == (forall|j: int|
                0 <= j < moves ==> (#[trigger] states[j]).current_location != end),
            forall|i: int|
                0 <= i < moves ==> #[trigger] Environment::is_wall_move_at(
                    states,
                    i,
                    start,
                    end,
                    run,
                ),
        decreases budget - moves,
    {
        let ghost before = *env;
        if env.current_location.0 == end.0 && env.current_location.1 == end.1 {
            has_not_reached_end = false;
        }
        let direction = env.wall_choice();
        env.move_from_current(&direction, run);
        proof {
            let longer = states.push(*env);
            assert(longer[moves as int] == before);
            assert forall|i: int| 0 <= i < moves + 1 implies #[trigger] Environment::is_wall_move_at(
                longer,
                i,
                start,
                end,
                run,
            ) by {
                assert forall|j: int| 0 <= j < i implies longer[j] == states[j] by {}
                if i < moves {
                    assert(Environment::is_wall_move_at(states, i, start, end, run));
                    assert(longer[i] == states[i]);
                    assert(longer[i + 1] == states[i + 1]);
                } else {
                    assert(longer[i] == before);
                    assert(longer[i + 1] == *env);
                }
            }
            assert(has_not_reached_end == (forall|j: int|
                0 <= j < moves + 1 ==> (#[trigger] longer[j]).current_location != end)) by {
                assert forall|j: int| 0 <= j < moves implies longer[j] == states[j] by {}
                if has_not_reached_end {
                    assert forall|j: int| 0 <= j < moves + 1 implies (#[trigger] longer[j]).current_location
                        != end by {
                        if j < moves {
                            assert(states[j].current_location != end);
                        }
                    }
                } else {
                    if before.current_location == end {
                        assert(longer[moves as int].current_location == end);
                    } else {
                        let j = choose|j: int|
                            0 <= j < moves && (#[trigger] states[j]).current_location == end;
                        assert(longer[j].current_location == end);
                    }
                }
            }
            states = longer;
        }
        moves += 1;
    }
    proof {
        let n = moves as int;
        if moves < budget {
            assert(env.current_location == start);
            assert(!Environment::goes_on(states, n, start, end)) by {
                if forall|j: int| 0 <= j < n ==> (#[trigger] states[j]).current_location != end {
                    assert(has_not_reached_end);
                }
            }
        }
        assert(old(env).follows_wall_to(
            env,
            start,
            end,
            run,
            budget,
            states,
        ));
    }
}

} // verus!
