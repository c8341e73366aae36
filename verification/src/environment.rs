//! The agent in its maze: where it stands, the path it has followed run by run, how
//! often it has visited each cell, and how a run is scored.

use crate::coordinate_map::{DirectionMap, VisitCounter, WeightedGraph};
use crate::direction::{direction_between, spec_direction_between, Coordinate, Direction};
use crate::environment_config::EnvConfig;
use crate::maze::{end_block, step, Carve, Maze};
use crate::maze_gen::maze_gen_handler::{select_maze_algorithm, MazeType};
use crate::spanning::is_spanning_tree;
use vstd::prelude::*;

verus! {

/// A maze together with the agent that walks it.
#[derive(Debug)]
pub struct Environment {
    /// Every cell that the agent has entered or bumped into a wall at, in order, each
    /// tagged with the run in which that happened.
    pub path_followed: Vec<(Coordinate, usize)>,
    pub current_location: Coordinate,
    pub previous_direction: Option<Direction>,
    pub maze: Maze,
    /// The number of path entries of the current episode.
    pub steps: usize,
    pub total_steps: usize,
    pub config: EnvConfig,
    /// Visits per cell since the last run boundary.
    pub visited: VisitCounter,
    /// Visits per cell over the whole life of the environment.
    pub overall_visited: VisitCounter,
    pub weighted_graph: WeightedGraph,
}

/// What the agent is asked to do: to move in the direction at a position of the
/// compass, counted clockwise from north and wrapping around, as part of a run.
#[derive(Debug, Clone, Copy, PartialEq, Eq)]
pub struct Action {
    pub direction: usize,
    pub run: usize,
}

impl Clone for Environment {
    fn clone(&self) -> (r: Environment)
        ensures
            r.path_followed@ == self.path_followed@,
            r.current_location == self.current_location,
            r.previous_direction == self.previous_direction,
            r.maze.same_frame(&self.maze),
            r.maze.grid@.len() == self.maze.grid@.len(),
            forall|x: int|
                0 <= x < self.maze.grid@.len() ==> (#[trigger] r.maze.grid@[x])@
                    == self.maze.grid@[x]@,
            r.steps == self.steps,
            r.total_steps == self.total_steps,
            r.config == self.config,
            r.visited@ == self.visited@,
            r.overall_visited@ == self.overall_visited@,
            r.weighted_graph@ == self.weighted_graph@,
    {
        let mut path_followed: Vec<(Coordinate, usize)> = Vec::new();
        let mut i: usize = 0;
        while i < self.path_followed.len()
            invariant
                i <= self.path_followed@.len(),
                path_followed@ == self.path_followed@.take(i as int),
            decreases self.path_followed@.len() - i,
        {
            path_followed.push(self.path_followed[i]);
            assert(path_followed@ =~= self.path_followed@.take(i + 1));
            i += 1;
        }
        assert(path_followed@ =~= self.path_followed@);
        Environment {
            path_followed,
            current_location: self.current_location,
            previous_direction: self.previous_direction,
            maze: self.maze.clone(),
            steps: self.steps,
            total_steps: self.total_steps,
            config: self.config,
            visited: self.visited.clone(),
            overall_visited: self.overall_visited.clone(),
            weighted_graph: self.weighted_graph.clone(),
        }
    }
}

/// A counter after one more event; it stays at the largest number once it is there.
pub open spec fn bumped(n: usize) -> usize {
    if n < usize::MAX {
        (n + 1) as usize
    } else {
        n
    }
}

/// The number that a counter holds for `c`: zero where it holds none.
pub open spec fn count_of(m: Map<Coordinate, usize>, c: Coordinate) -> usize {
    if m.contains_key(c) {
        m[c]
    } else {
        0
    }
}

/// The counter after one visit to `c`.
pub open spec fn visit_recorded(m: Map<Coordinate, usize>, c: Coordinate) -> Map<Coordinate, usize> {
    m.insert(c, bumped(count_of(m, c)))
}

/// The counter after a visit to each of `cells`, in order.
pub open spec fn visits_recorded(m: Map<Coordinate, usize>, cells: Seq<Coordinate>) -> Map<
    Coordinate,
    usize,
>
    decreases cells.len(),
{
    if cells.len() == 0 {
        m
    } else {
        visit_recorded(visits_recorded(m, cells.drop_last()), cells.last())
    }
}

/// The cell `i` steps from `c` towards `d`.
pub open spec fn line_cell(c: Coordinate, d: Direction, i: int) -> Coordinate {
    let t = step(c, d, i);
    (t.0 as usize, t.1 as usize)
}

/// The cells one to `k` steps from `c` towards `d`, nearest first.
pub open spec fn line_cells(c: Coordinate, d: Direction, k: nat) -> Seq<Coordinate> {
    Seq::new(k, |i: int| line_cell(c, d, i + 1))
}

/// The path entries that stand for entering `cells` during `run`.
pub open spec fn tagged(cells: Seq<Coordinate>, run: usize) -> Seq<(Coordinate, usize)> {
    Seq::new(cells.len(), |i: int| (cells[i], run))
}

/// The counter after the cells around `location` that can be stepped onto from it
/// have been put on record: each gets an entry of zero visits unless it has one.
pub open spec fn nearby_marked(m: Map<Coordinate, usize>, maze: Maze, location: Coordinate) -> Map<
    Coordinate,
    usize,
> {
    Map::new(
        |c: Coordinate|
            m.contains_key(c) || exists|d: Direction| #[trigger]
                maze.spec_step(d, location) == Some(c),
        |c: Coordinate| count_of(m, c),
    )
}

/// The cells of `path` that are tagged with `run`, in order.
pub open spec fn run_cells(path: Seq<(Coordinate, usize)>, run: usize) -> Seq<Coordinate>
    decreases path.len(),
{
    if path.len() == 0 {
        Seq::<Coordinate>::empty()
    } else {
        let front = run_cells(path.drop_last(), run);
        if path.last().1 == run {
            front.push(path.last().0)
        } else {
            front
        }
    }
}

/// The running totals while a path is scored.
pub struct ScoreState {
    /// The direction of the last step that counted.
    pub heading: Direction,
    /// The sum of the weights of the edges taken.
    pub distance: int,
    /// The sum of the turn amounts between consecutive steps that counted.
    pub penalty: int,
    /// The number of steps that the graph does not know.
    pub hits: int,
    /// The number of turns back.
    pub reversals: int,
}

/// The totals after the step from `from` to `to`. A step counts if the two cells
/// differ along one axis and the graph has an edge that leaves `from` in that
/// direction; then the weight of the edge and the turn it takes to get on it are added.
/// Any other step is a hit.
pub open spec fn score_step(
    state: ScoreState,
    from: Coordinate,
    to: Coordinate,
    graph: Map<Coordinate, DirectionMap>,
) -> ScoreState {
    let edge: Option<(Direction, usize)> = match spec_direction_between(from, to) {
        Some(d) => if graph.contains_key(from) && graph[from].weight(d) is Some {
            Some((d, graph[from].weight(d).unwrap()))
        } else {
            None
        },
        None => None,
    };
    match edge {
        Some((d, w)) => ScoreState {
            heading: d,
            distance: state.distance + w,
            penalty: state.penalty + d.spec_turn_amount(state.heading),
            hits: state.hits,
            reversals: state.reversals + (if d.spec_turn_amount(state.heading) == 2 {
                1int
            } else {
                0
            }),
        },
        None => ScoreState { hits: state.hits + 1, ..state },
    }
}

/// The totals over the first `n` cells of `path`: every step between two
/// consecutive cells is scored. The heading starts as the direction of the first
/// step (north, if it has none), so that the first step takes no turn.
pub open spec fn score_prefix(
    path: Seq<Coordinate>,
    graph: Map<Coordinate, DirectionMap>,
    n: int,
) -> ScoreState
    decreases n,
{
    if n <= 1 {
        ScoreState {
            heading: match spec_direction_between(path[0], path[1]) {
                Some(d) => d,
                None => Direction::North,
            },
            distance: 0,
            penalty: 0,
            hits: 0,
            reversals: 0,
        }
    } else {
        score_step(score_prefix(path, graph, n - 1), path[n - 2], path[n - 1], graph)
    }
}

/// A total cut off at the largest number that fits.
pub open spec fn clamped(n: int) -> usize {
    if n > usize::MAX {
        usize::MAX
    } else if n < 0 {
        0
    } else {
        n as usize
    }
}

/// The score of a path over a weighted graph: distance plus turn penalties, the
/// number of hits, and the number of turns back. A path of fewer than two cells
/// scores nothing.
pub open spec fn spec_score(path: Seq<Coordinate>, graph: Map<Coordinate, DirectionMap>) -> (
    usize,
    usize,
    usize,
) {
    if path.len() < 2 {
        (0, 0, 0)
    } else {
        let s = score_prefix(path, graph, path.len() as int);
        (clamped(s.distance + s.penalty), clamped(s.hits), clamped(s.reversals))
    }
}

/// Scores a path of cells over a weighted graph; see [`spec_score`].
pub fn calcualte_score_for_coordinate_vector(path: &Vec<Coordinate>, weighted_graph: &WeightedGraph) -> (r:
    (usize, usize, usize))
    ensures
        r == spec_score(path@, weighted_graph@),
{
    if path.len() < 2 {
        return (0, 0, 0);
    }
    let mut prev_direction = match direction_between(path[0], path[1]) {
        Some(d) => d,
        None => Direction::North,
    };
    let mut reverse_count: usize = 0;
    let mut hit_count: usize = 0;
    let mut total_run_steps: usize = 0;
    let mut total_run_penalty: usize = 0;
    let mut index: usize = 1;
    while index < path.len()
        invariant
            1 <= index <= path@.len(),
            ({
                let s = score_prefix(path@, weighted_graph@, index as int);
                &&& s.heading == prev_direction
                &&& total_run_steps == clamped(s.distance)
                &&& total_run_penalty == clamped(s.penalty)
                &&& hit_count == s.hits
                &&& reverse_count == s.reversals
                &&& 0 <= s.hits <= index - 1
                &&& 0 <= s.reversals <= index - 1
                &&& 0 <= s.distance
                &&& 0 <= s.penalty
            }),
        decreases path@.len() - index,
    {
        let from = path[index - 1];
        let to = path[index];
        let edge: Option<(Direction, usize)> = match direction_between(from, to) {
            Some(d) => match weighted_graph.get(&from) {
                Some(node) => match node.get(&d) {
                    Some(w) => Some((d, w)),
                    None => None,
                },
                None => None,
            },
            None => None,
        };
        match edge {
            Some((d, w)) => {
                let turn_penalty = d.turn_amount(&prev_direction);
                if turn_penalty == 2 {
                    reverse_count += 1;
                }
                total_run_penalty = total_run_penalty.saturating_add(turn_penalty);
                total_run_steps = total_run_steps.saturating_add(w);
                prev_direction = d;
            },
            None => {
                hit_count += 1;
            },
        }
        index += 1;
    }
    (total_run_steps.saturating_add(total_run_penalty), hit_count, reverse_count)
}

/// Counts one more visit to `c`.
fn record_visit(counter: &mut VisitCounter, c: Coordinate)
    ensures
        final(counter)@ == visit_recorded(old(counter)@, c),
{
    let n: usize = match counter.get(&c) {
        Some(v) => *v,
        None => 0,
    };
    counter.insert(c, n.saturating_add(1));
}

impl Environment {
    /// The weight of the edge that leaves the current location towards `d`; zero
    /// where the graph has no such edge.
    pub open spec fn spec_edge(&self, d: Direction) -> usize {
        if self.weighted_graph@.contains_key(self.current_location) {
            self.weighted_graph@[self.current_location].steps(d)
        } else {
            0
        }
    }

    /// The entry of the graph for the current location; empty where it has none.
    pub open spec fn spec_available_paths(&self) -> DirectionMap {
        if self.weighted_graph@.contains_key(self.current_location) {
            self.weighted_graph@[self.current_location]
        } else {
            DirectionMap { north: None, east: None, south: None, west: None }
        }
    }

    /// How many steps a move towards `d` takes: the weight of the edge, or fewer if
    /// the maze blocks the way before.
    pub open spec fn spec_steps_taken(&self, d: Direction) -> nat {
        self.maze.spec_free_run(self.current_location, d, self.spec_edge(d) as nat)
    }

    /// The cells that a move towards `d` puts on the path: the cells entered, or the
    /// current location alone where there is no edge to follow.
    pub open spec fn spec_cells_entered(&self, d: Direction) -> Seq<Coordinate> {
        if self.spec_edge(d) == 0 {
            seq![self.current_location]
        } else {
            line_cells(self.current_location, d, self.spec_steps_taken(d))
        }
    }

    /// Whether a move towards `d` follows its edge to the end.
    pub open spec fn spec_move_completes(&self, d: Direction) -> bool {
        self.spec_edge(d) > 0 && self.spec_steps_taken(d) == self.spec_edge(d)
    }

    /// Whether `after` is this environment after a move towards `d` in run `run`
    /// that took `taken` steps. The cells entered are appended to the path and
    /// counted in both visit counters; the agent stands on the last of them; a move
    /// that follows its edge to the end also sets the heading and puts the cells
    /// around the new location on the lifetime record. Maze, graph and configuration
    /// stay as they are.
    pub open spec fn moves_to(
        &self,
        after: &Environment,
        d: Direction,
        run: usize,
        taken: usize,
    ) -> bool {
        let cells = self.spec_cells_entered(d);
        &&& taken == (if self.spec_edge(d) == 0 {
            0
        } else {
            self.spec_steps_taken(d)
        })
        &&& after.path_followed@ == self.path_followed@ + tagged(cells, run)
        &&& after.current_location == line_cell(self.current_location, d, taken as int)
        &&& after.previous_direction == (if self.spec_move_completes(d) {
            Some(d)
        } else {
            self.previous_direction
        })
        &&& after.visited@ == visits_recorded(self.visited@, cells)
        &&& after.overall_visited@ == (if self.spec_move_completes(d) {
            nearby_marked(
                visits_recorded(self.overall_visited@, cells),
                self.maze,
                after.current_location,
            )
        } else {
            visits_recorded(self.overall_visited@, cells)
        })
        &&& after.steps == clamped(self.steps + cells.len())
        &&& after.maze == self.maze
        &&& after.weighted_graph == self.weighted_graph
        &&& after.config == self.config
        &&& after.total_steps == self.total_steps
    }

    /// Whether `states` are the states that the environment passes through from this
    /// one to `after` while it makes the moves of `path` in run `run`, one state per
    /// move, and `taken` the steps that each move took.
    pub open spec fn moves_through(
        &self,
        after: &Environment,
        path: Seq<(Coordinate, Direction)>,
        run: usize,
        states: Seq<Environment>,
        taken: Seq<usize>,
    ) -> bool {
        &&& states.len() == path.len() + 1
        &&& taken.len() == path.len()
        &&& states[0] == *self
        &&& states.last() == *after
        &&& forall|i: int|
            0 <= i < path.len() ==> #[trigger] Environment::is_move_at(states, taken, path, run, i)
    }

    /// Whether the state at place `i + 1` of `states` comes from the state at place
    /// `i` by the move at place `i` of `path`, which took the steps at place `i` of
    /// `taken`.
    pub open spec fn is_move_at(
        states: Seq<Environment>,
        taken: Seq<usize>,
        path: Seq<(Coordinate, Direction)>,
        run: usize,
        i: int,
    ) -> bool {
        states[i].moves_to(&states[i + 1], path[i].1, run, taken[i])
    }

    /// An agent at the start of a fully walled maze of the configured size. The path
    /// holds the start, tagged with run 0 and counted as visited once; the weighted
    /// graph is empty.
    pub fn new(env_config: EnvConfig) -> (env: Environment)
        requires
            env_config.maze_width >= 1,
            env_config.maze_height >= 1,
            env_config.maze_width * env_config.maze_height <= usize::MAX,
        ensures
            env.maze.wf(),
            env.maze.width == env_config.maze_width,
            env.maze.height == env_config.maze_height,
            env.maze.start == (0usize, (env_config.maze_height - 1) as usize),
            env.maze.end@ == end_block(
                env_config.maze_width as int,
                env_config.maze_height as int,
                (env_config.maze_width / 2, env_config.maze_height / 2),
            ),
            forall|c: Coordinate, d: Direction| env.maze.contains(c) ==> env.maze.wall(c, d),
            env.maze.walls_consistent(),
            env.current_location == env.maze.start,
            env.previous_direction is None,
            env.config == env_config,
            env.path_followed@ == seq![(env.maze.start, 0usize)],
            env.visited@ == Map::<Coordinate, usize>::empty().insert(env.maze.start, 1usize),
            env.overall_visited@ == Map::<Coordinate, usize>::empty().insert(
                env.maze.start,
                1usize,
            ),
            env.steps == 0,
            env.total_steps == 0,
            env.weighted_graph@ == Map::<Coordinate, DirectionMap>::empty(),
    {
        let maze = Maze::init_maze(env_config.maze_width, env_config.maze_height);
        let start = maze.get_starting_point();
        let mut path_followed: Vec<(Coordinate, usize)> = Vec::new();
        path_followed.push((start, 0));
        let mut visited = VisitCounter::new();
        visited.insert(start, 1);
        let mut overall_visited = VisitCounter::new();
        overall_visited.insert(start, 1);
        Environment {
            current_location: start,
            previous_direction: None,
            config: env_config,
            path_followed,
            visited,
            overall_visited,
            maze,
            steps: 0,
            total_steps: 0,
            weighted_graph: WeightedGraph::new(),
        }
    }

    /// Starts a new episode: the agent goes back to the start, the path and both
    /// visit counters are cut back to the start alone, and the steps of the episode
    /// that ends are added to the total.
    pub fn reset(&mut self)
        ensures
            final(self).path_followed@ == seq![(old(self).maze.start, 0usize)],
            final(self).visited@ == Map::<Coordinate, usize>::empty().insert(
                old(self).maze.start,
                1usize,
            ),
            final(self).overall_visited@ == Map::<Coordinate, usize>::empty().insert(
                old(self).maze.start,
                1usize,
            ),
            final(self).total_steps == clamped(old(self).total_steps + old(self).steps),
            final(self).steps == 0,
            final(self).current_location == old(self).maze.start,
            final(self).maze == old(self).maze,
            final(self).weighted_graph == old(self).weighted_graph,
            final(self).config == old(self).config,
            final(self).previous_direction == old(self).previous_direction,
    {
        let start = self.maze.get_starting_point();
        self.visited.clear();
        self.visited.insert(start, 1);
        self.overall_visited.clear();
        self.overall_visited.insert(start, 1);
        self.path_followed.clear();
        self.path_followed.push((start, 0));
        self.total_steps = self.total_steps.saturating_add(self.steps);
        self.steps = 0;
        self.current_location = start;
    }

    /// Gives the environment a new maze of the same size, carved by the binary-tree
    /// algorithm with a generator seeded by the machine, together with the graph of
    /// its decision nodes, and starts over: the agent stands at the start, the path
    /// and both visit counters hold the start alone, not counted as visited yet, and
    /// no step is on record.
    pub fn reset_and_regenerate(&mut self)
        requires
            old(self).maze.wf(),
        ensures
            final(self).maze.wf(),
            final(self).maze.walls_consistent(),
            final(self).maze.width == old(self).maze.width,
            final(self).maze.height == old(self).maze.height,
            final(self).maze.start == (0usize, (old(self).maze.height - 1) as usize),
            final(self).maze.end@ == end_block(
                old(self).maze.width as int,
                old(self).maze.height as int,
                (old(self).maze.width / 2, old(self).maze.height / 2),
            ),
            exists|walled: Maze, carves: Seq<Carve>|
                {
                    &&& walled.wf()
                    &&& walled.is_fully_walled()
                    &&& #[trigger] walled.is_carved_to(&final(self).maze, carves)
                    &&& is_spanning_tree(
                        final(self).maze.width as int,
                        final(self).maze.height as int,
                        final(self).maze.end@,
                        carves,
                    )
                },
            final(self).weighted_graph@ == final(self).maze.spec_weighted_graph(
                final(self).maze.graph_nodes(None, true),
            ),
            final(self).current_location == final(self).maze.start,
            final(self).path_followed@ == seq![(final(self).maze.start, 0usize)],
            final(self).visited@ == Map::<Coordinate, usize>::empty().insert(
                final(self).maze.start,
                0usize,
            ),
            final(self).overall_visited@ == Map::<Coordinate, usize>::empty().insert(
                final(self).maze.start,
                0usize,
            ),
            final(self).steps == 0,
            final(self).total_steps == 0,
            final(self).config == old(self).config,
            final(self).previous_direction == old(self).previous_direction,
    {
        let mut maze = Maze::init_maze(self.maze.width, self.maze.height);
        let ghost walled = maze;
        let walls = select_maze_algorithm(&maze, None, &MazeType::BinaryTree);
        let ghost carves = walls@;
        maze.break_walls_for_path(walls);
        proof {
            assert(walled.is_carved_to(&maze, carves));
        }
        self.weighted_graph = maze.convert_to_weighted_graph(None, true);
        self.maze = maze;
        let start = self.maze.get_starting_point();
        self.current_location = start;
        self.visited.clear();
        self.visited.insert(start, 0);
        self.overall_visited.clear();
        self.overall_visited.insert(start, 0);
        self.path_followed.clear();
        self.path_followed.push((start, 0));
        self.steps = 0;
        self.total_steps = 0;
    }

    /// Starts a new run inside the episode: the agent goes back to the start, which
    /// goes on the path tagged with `run`; the visit counter of the run is cut back
    /// to the start alone, the lifetime counter stays; and the steps of the run that
    /// ends are added to the total.
    pub fn smart_reset(&mut self, run: usize)
        ensures
            final(self).path_followed@ == old(self).path_followed@.push(
                (old(self).maze.start, run),
            ),
            final(self).visited@ == Map::<Coordinate, usize>::empty().insert(
                old(self).maze.start,
                1usize,
            ),
            final(self).overall_visited == old(self).overall_visited,
            final(self).total_steps == clamped(old(self).total_steps + old(self).steps),
            final(self).steps == 0,
            final(self).current_location == old(self).maze.start,
            final(self).maze == old(self).maze,
            final(self).weighted_graph == old(self).weighted_graph,
            final(self).config == old(self).config,
            final(self).previous_direction == old(self).previous_direction,
    {
        let start = self.maze.get_starting_point();
        self.visited.clear();
        self.visited.insert(start, 1);
        self.path_followed.push((start, run));
        self.total_steps = self.total_steps.saturating_add(self.steps);
        self.steps = 0;
        self.current_location = start;
    }

    /// Puts the cell next to the current location in direction `d` on the lifetime
    /// record, with no visits, if it can be stepped onto and is not on record yet.
    fn mark_towards(&mut self, d: Direction)
        requires
            old(self).maze.wf(),
        ensures
            final(self).overall_visited@ == (match old(self).maze.spec_step(
                d,
                old(self).current_location,
            ) {
                Some(c) => if old(self).overall_visited@.contains_key(c) {
                    old(self).overall_visited@
                } else {
                    old(self).overall_visited@.insert(c, 0)
                },
                None => old(self).overall_visited@,
            }),
            final(self).same_but_lifetime_record(old(self)),
    {
        proof {
            self.maze.lemma_single_step(d, self.current_location);
        }
        let new_coords = match self.maze.move_from_with_walls(&d, &self.current_location, 1) {
            Ok(new) => new,
            Err(_) => {
                return ;
            },
        };
        if self.overall_visited.contains_key(&new_coords) {
            return ;
        }
        self.overall_visited.insert(new_coords, 0);
    }

    /// Whether two environments agree in everything but the weighted graph.
    pub open spec fn same_but_graph(&self, other: &Environment) -> bool {
        &&& self.path_followed == other.path_followed
        &&& self.current_location == other.current_location
        &&& self.previous_direction == other.previous_direction
        &&& self.maze == other.maze
        &&& self.steps == other.steps
        &&& self.total_steps == other.total_steps
        &&& self.config == other.config
        &&& self.visited == other.visited
        &&& self.overall_visited == other.overall_visited
    }

    /// Whether two environments agree in everything but the lifetime visit counter.
    pub open spec fn same_but_lifetime_record(&self, other: &Environment) -> bool {
        &&& self.path_followed == other.path_followed
        &&& self.current_location == other.current_location
        &&& self.previous_direction == other.previous_direction
        &&& self.maze == other.maze
        &&& self.steps == other.steps
        &&& self.total_steps == other.total_steps
        &&& self.config == other.config
        &&& self.visited == other.visited
        &&& self.weighted_graph == other.weighted_graph
    }

    /// Puts the cells that can be stepped onto from the current location on the
    /// lifetime record, each with no visits unless it is on record already.
    pub fn mark_nearby_as_visited(&mut self)
        requires
            old(self).maze.wf(),
        ensures
            final(self).overall_visited@ == nearby_marked(
                old(self).overall_visited@,
                old(self).maze,
                old(self).current_location,
            ),
            final(self).same_but_lifetime_record(old(self)),
    {
        self.mark_towards(Direction::North);
        self.mark_towards(Direction::South);
        self.mark_towards(Direction::East);
        self.mark_towards(Direction::West);
        proof {
            let m = old(self).overall_visited@;
            let maze = old(self).maze;
            let here = old(self).current_location;
            let marked = nearby_marked(m, maze, here);
            assert forall|c: Coordinate| marked.contains_key(c) implies self.overall_visited@.contains_key(
                c,
            ) by {
                if !m.contains_key(c) {
                    let d = choose|d: Direction| #[trigger] maze.spec_step(d, here) == Some(c);
                    match d {
                        Direction::North => {},
                        Direction::South => {},
                        Direction::East => {},
                        Direction::West => {},
                    }
                }
            }
            assert forall|c: Coordinate| self.overall_visited@.contains_key(c) implies marked.contains_key(
                c,
            ) by {
                if !m.contains_key(c) {
                    assert(maze.spec_step(Direction::North, here) == Some(c) || maze.spec_step(
                        Direction::South,
                        here,
                    ) == Some(c) || maze.spec_step(Direction::East, here) == Some(c)
                        || maze.spec_step(Direction::West, here) == Some(c));
                }
            }
            assert(self.overall_visited@ =~= marked);
        }
    }

    /// Moves the agent along the edge of the weighted graph that leaves the current
    /// location towards `direction`, cell by cell, and returns the number of steps
    /// taken. Every cell entered goes on the path, tagged with `run`, and is counted
    /// as visited. Where the graph has no such edge the agent stays, and its
    /// location goes on the path once more. A move that the maze blocks part of the
    /// way stops there.
    pub fn move_from_current(&mut self, direction: &Direction, run: usize) -> (taken: usize)
        requires
            old(self).maze.wf(),
        ensures
            old(self).moves_to(final(self), *direction, run, taken),
            old(self).spec_available_paths().weight(*direction) is None ==> taken == 0
                && final(self).current_location == old(self).current_location
                && final(self).path_followed@ == old(self).path_followed@.push(
                (old(self).current_location, run),
            ),
    {
        let d = *direction;
        let ghost before = *self;
        let ghost origin = self.current_location;
        let steps: usize = match self.weighted_graph.get(&self.current_location) {
            Some(node) => match node.get(direction) {
                Some(w) => w,
                None => 0,
            },
            None => 0,
        };
        assert(steps == before.spec_edge(d));
        if steps == 0 {
            self.steps = self.steps.saturating_add(1);
            self.path_followed.push((self.current_location, run));
            record_visit(&mut self.visited, self.current_location);
            record_visit(&mut self.overall_visited, self.current_location);
            proof {
                let cells = seq![origin];
                assert(cells.drop_last() =~= Seq::<Coordinate>::empty());
                assert(tagged(cells, run) =~= seq![(origin, run)]);
                assert(self.path_followed@ =~= before.path_followed@ + tagged(cells, run));
                reveal_with_fuel(visits_recorded, 2);
            }
            return 0;
        }
        let mut i: usize = 0;
        while i < steps
            invariant
                i <= steps,
                before == *old(self),
                steps == before.spec_edge(d),
                steps > 0,
                d == *direction,
                origin == before.current_location,
                self.maze.wf(),
                self.maze == before.maze,
                self.weighted_graph == before.weighted_graph,
                self.config == before.config,
                self.total_steps == before.total_steps,
                self.previous_direction == before.previous_direction,
                self.current_location == line_cell(origin, d, i as int),
                step(origin, d, i as int) == (
                    self.current_location.0 as int,
                    self.current_location.1 as int,
                ),
                i + self.maze.spec_free_run(self.current_location, d, (steps - i) as nat)
                    == before.spec_steps_taken(d),
                self.path_followed@ == before.path_followed@ + tagged(line_cells(origin, d, i as nat), run),
                self.visited@ == visits_recorded(before.visited@, line_cells(origin, d, i as nat)),
                self.overall_visited@ == visits_recorded(
                    before.overall_visited@,
                    line_cells(origin, d, i as nat),
                ),
                self.steps == clamped(before.steps + i),
            decreases steps - i,
        {
            proof {
                self.maze.lemma_single_step(d, self.current_location);
            }
            let intermediary_step = match self.maze.move_from_with_walls(
                direction,
                &self.current_location,
                1,
            ) {
                Ok(new_loc) => new_loc,
                Err(_) => {
                    return i;
                },
            };
            self.steps = self.steps.saturating_add(1);
            self.path_followed.push((intermediary_step, run));
            record_visit(&mut self.visited, intermediary_step);
            record_visit(&mut self.overall_visited, intermediary_step);
            self.current_location = intermediary_step;
            proof {
                let shorter = line_cells(origin, d, i as nat);
                let longer = line_cells(origin, d, (i + 1) as nat);
                assert(intermediary_step == line_cell(origin, d, i + 1));
                assert(longer.drop_last() =~= shorter);
                assert(longer.last() == intermediary_step);
                assert(tagged(longer, run) =~= tagged(shorter, run).push((intermediary_step, run)));
                assert(self.path_followed@ =~= before.path_followed@ + tagged(longer, run));
            }
            i += 1;
        }
        self.mark_nearby_as_visited();
        self.previous_direction = Some(*direction);
        steps
    }

    /// Makes the move that `action` asks for, and returns the number of steps
    /// taken; see [`Environment::move_from_current`].
    pub fn take_action(&mut self, action: Action) -> (taken: usize)
        requires
            old(self).maze.wf(),
        ensures
            old(self).moves_to(
                final(self),
                Direction::from_ordinal(action.direction as int),
                action.run,
                taken,
            ),
    {
        let dir = Direction::from(action.direction);
        self.move_from_current(&dir, action.run)
    }

    /// The edges that leave the current location, by direction.
    pub fn available_paths(&self) -> (r: DirectionMap)
        ensures
            r == self.spec_available_paths(),
    {
        match self.weighted_graph.get(&self.current_location) {
            Some(paths) => *paths,
            None => DirectionMap::new(),
        }
    }

    /// The run of the latest path entry; zero while the path is empty.
    pub fn get_current_run(&self) -> (r: usize)
        ensures
            r == (if self.path_followed@.len() == 0 {
                0
            } else {
                self.path_followed@.last().1
            }),
    {
        if self.path_followed.len() == 0 {
            return 0;
        }
        self.path_followed[self.path_followed.len() - 1].1
    }

    /// The cells of the path that are tagged with `run`, in order.
    pub fn cells_of_run(&self, run: usize) -> (cells: Vec<Coordinate>)
        ensures
            cells@ == run_cells(self.path_followed@, run),
    {
        let mut cells: Vec<Coordinate> = Vec::new();
        let mut i: usize = 0;
        while i < self.path_followed.len()
            invariant
                i <= self.path_followed@.len(),
                cells@ == run_cells(self.path_followed@.take(i as int), run),
            decreases self.path_followed@.len() - i,
        {
            let entry = self.path_followed[i];
            proof {
                assert(self.path_followed@.take(i + 1).drop_last() =~= self.path_followed@.take(
                    i as int,
                ));
            }
            if entry.1 == run {
                cells.push(entry.0);
            }
            i += 1;
        }
        proof {
            assert(self.path_followed@.take(i as int) =~= self.path_followed@);
        }
        cells
    }

    /// The score of one run: the score of its cells over the weighted graph (see
    /// [`spec_score`]), and whether the run ended inside the end region. A run of
    /// one cell scores nothing, and succeeds if that cell lies in the end region; a
    /// run without cells scores nothing and does not succeed.
    pub fn calculate_run_score(&self, run_to_score: usize) -> (r: (usize, usize, usize, bool))
        ensures
            ({
                let cells = run_cells(self.path_followed@, run_to_score);
                let score = spec_score(cells, self.weighted_graph@);
                r == (
                    score.0,
                    score.1,
                    score.2,
                    cells.len() >= 1 && self.maze.in_end(cells.last()),
                )
            }),
    {
        let filtered_path = self.cells_of_run(run_to_score);
        if filtered_path.len() == 0 {
            return (0, 0, 0, false);
        }
        let (total_run_score, hit_count, reverse_count) = calcualte_score_for_coordinate_vector(
            &filtered_path,
            &self.weighted_graph,
        );
        let last = filtered_path[filtered_path.len() - 1];
        (total_run_score, hit_count, reverse_count, self.maze.is_end(last))
    }

    /// Makes the moves of `path` one after the other, all in run `run`. Only the
    /// directions of the path are read. The environment passes through one state
    /// for each move, each of them the result of [`Environment::move_from_current`]
    /// on the state before.
    pub fn move_path_vec(&mut self, path: &Vec<(Coordinate, Direction)>, run: usize)
        requires
            old(self).maze.wf(),
        ensures
            exists|states: Seq<Environment>, taken: Seq<usize>| #[trigger]
                old(self).moves_through(final(self), path@, run, states, taken),
            final(self).maze == old(self).maze,
            final(self).weighted_graph == old(self).weighted_graph,
            old(self).path_followed@.is_prefix_of(final(self).path_followed@),
    {
        let ghost mut states: Seq<Environment> = seq![*self];
        let ghost mut taken: Seq<usize> = Seq::empty();
        let mut i: usize = 0;
        while i < path.len()
            invariant
                i <= path@.len(),
                self.maze.wf(),
                self.maze == old(self).maze,
                self.weighted_graph == old(self).weighted_graph,
                old(self).path_followed@.is_prefix_of(self.path_followed@),
                states.len() == i + 1,
                taken.len() == i,
                states[0] == *old(self),
                states.last() == *self,
                forall|j: int|
                    0 <= j < i ==> #[trigger] Environment::is_move_at(states, taken, path@, run, j),
            decreases path@.len() - i,
        {
            let direction = path[i].1;
            let n = self.move_from_current(&direction, run);
            proof {
                let longer = states.push(*self);
                let more = taken.push(n);
                assert forall|j: int| 0 <= j < i + 1 implies #[trigger] Environment::is_move_at(
                    longer,
                    more,
                    path@,
                    run,
                    j,
                ) by {
                    if j < i {
                        assert(Environment::is_move_at(states, taken, path@, run, j));
                        assert(longer[j] == states[j]);
                        assert(longer[j + 1] == states[j + 1]);
                        assert(more[j] == taken[j]);
                    }
                }
                states = longer;
                taken = more;
            }
            i += 1;
        }
        assert(old(self).moves_through(self, path@, run, states, taken));
    }
}

} // verus!
