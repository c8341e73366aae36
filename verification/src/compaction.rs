//! Compaction of the walled grid into a weighted graph over its decision nodes: each
//! straight run of cells between two of them becomes one edge, weighted by its length.

use crate::coordinate_map::{DirectionMap, VisitCounter, WeightedGraph};
use crate::coordinate_set::CoordinateSet;
use crate::direction::{lemma_opposite_involution, Coordinate, Direction};
use crate::maze::{carve_target, inside, step, Maze, MoveError};
use vstd::prelude::*;

verus! {

impl Maze {
    /// One step from `c` towards `d`, if `c` is on the grid and open towards `d` and
    /// the step stays on the grid.
    pub open spec fn spec_step(&self, d: Direction, c: Coordinate) -> Option<Coordinate> {
        if self.contains(c) && !self.wall(c, d) && inside(
            self.width as int,
            self.height as int,
            step(c, d, 1),
        ) {
            Some(carve_target((c, d)))
        } else {
            None
        }
    }

    /// How many steps of at most `limit` can be taken from `c` towards `d` before
    /// the way is blocked.
    pub open spec fn spec_free_run(&self, c: Coordinate, d: Direction, limit: nat) -> nat
        decreases limit,
    {
        if limit == 0 {
            0
        } else {
            match self.spec_step(d, c) {
                None => 0,
                Some(next) => 1 + self.spec_free_run(next, d, (limit - 1) as nat),
            }
        }
    }

    /// How many cells lie between `c` and the rim of the grid in direction `d`.
    pub open spec fn room(&self, c: Coordinate, d: Direction) -> nat {
        if !self.contains(c) {
            0
        } else {
            match d {
                Direction::North => c.1 as nat,
                Direction::South => (self.height - 1 - c.1) as nat,
                Direction::East => (self.width - 1 - c.0) as nat,
                Direction::West => c.0 as nat,
            }
        }
    }

    /// The length of the run that starts at `c` and goes towards `d`: the number of
    /// steps until a cell of `nodes` is reached or the way is blocked.
    pub open spec fn spec_follow_path(
        &self,
        c: Coordinate,
        d: Direction,
        nodes: Set<Coordinate>,
    ) -> nat
        decreases self.room(c, d),
    {
        match self.spec_step(d, c) {
            None => 0,
            Some(next) => if nodes.contains(next) {
                1
            } else {
                1 + self.spec_follow_path(next, d, nodes)
            },
        }
    }

    /// Whether the cell `c` calls for a decision by the shape of its walls.
    pub open spec fn is_decision_cell(&self, c: Coordinate) -> bool {
        self.grid@[c.0 as int]@[c.1 as int].walls.is_decision()
    }

    /// The nodes of the weighted graph: the start, the cells of the end region, and
    /// of the scanned cells either those that call for a decision (`compact`) or all.
    /// With `visited` given only its keys are scanned, else the whole grid.
    pub open spec fn graph_nodes(
        &self,
        visited: Option<Map<Coordinate, usize>>,
        compact: bool,
    ) -> Set<Coordinate> {
        Set::new(
            |c: Coordinate|
                c == self.start || self.in_end(c) || (self.contains(c) && (visited is None
                    || visited.unwrap().contains_key(c)) && (!compact || self.is_decision_cell(c))),
        )
    }

    /// The entry of the weighted graph for the node `c`: for each direction the length
    /// of the run towards it, where that is not zero.
    pub open spec fn graph_entry(&self, c: Coordinate, nodes: Set<Coordinate>) -> DirectionMap {
        DirectionMap {
            north: self.graph_weight(c, Direction::North, nodes),
            east: self.graph_weight(c, Direction::East, nodes),
            south: self.graph_weight(c, Direction::South, nodes),
            west: self.graph_weight(c, Direction::West, nodes),
        }
    }

    /// The weight of the edge that leaves `c` towards `d`, if there is one.
    pub open spec fn graph_weight(
        &self,
        c: Coordinate,
        d: Direction,
        nodes: Set<Coordinate>,
    ) -> Option<usize> {
        let n = self.spec_follow_path(c, d, nodes);
        if n > 0 {
            Some(n as usize)
        } else {
            None
        }
    }

    /// The weighted graph of the maze over the given nodes.
    pub open spec fn spec_weighted_graph(&self, nodes: Set<Coordinate>) -> Map<
        Coordinate,
        DirectionMap,
    > {
        Map::new(|c: Coordinate| nodes.contains(c), |c: Coordinate| self.graph_entry(c, nodes))
    }

    /// A single step with walls is the walk of one step.
    pub proof fn lemma_single_step(&self, d: Direction, c: Coordinate)
        ensures
            self.spec_move_from_with_walls(d, c, 1) is Ok <==> self.spec_step(d, c) is Some,
            self.spec_step(d, c) matches Some(next) ==> self.spec_move_from_with_walls(d, c, 1)
                == Ok::<Coordinate, MoveError>(next) && self.contains(next) && self.room(next, d) + 1
                == self.room(c, d),
    {
        reveal_with_fuel(Maze::spec_move_from_with_walls, 2);
    }

    /// A run is never longer than the room towards the rim.
    pub proof fn lemma_follow_path_bound(&self, c: Coordinate, d: Direction, nodes: Set<Coordinate>)
        ensures
            self.spec_follow_path(c, d, nodes) <= self.room(c, d),
        decreases self.room(c, d),
    {
        match self.spec_step(d, c) {
            None => {},
            Some(next) => {
                self.lemma_single_step(d, c);
                if !nodes.contains(next) {
                    self.lemma_follow_path_bound(next, d, nodes);
                }
            },
        }
    }

    /// Walks from `coordinates` towards `direction` through open walls until a cell
    /// of `decision_nodes` is reached or the way is blocked, and returns the number of
    /// steps taken.
    pub fn follow_path(
        &self,
        coordinates: &Coordinate,
        direction: &Direction,
        decision_nodes: &CoordinateSet,
    ) -> (steps: usize)
        requires
            self.wf(),
            decision_nodes.wf(),
        ensures
            steps == self.spec_follow_path(*coordinates, *direction, decision_nodes@),
    {
        let mut steps: usize = 0;
        let mut current = *coordinates;
        proof {
            self.lemma_follow_path_bound(*coordinates, *direction, decision_nodes@);
        }
        loop
            invariant
                self.wf(),
                decision_nodes.wf(),
                steps + self.spec_follow_path(current, *direction, decision_nodes@)
                    == self.spec_follow_path(*coordinates, *direction, decision_nodes@),
                self.spec_follow_path(*coordinates, *direction, decision_nodes@) <= usize::MAX,
            decreases self.room(current, *direction),
        {
            proof {
                self.lemma_single_step(*direction, current);
            }
            current =
            match self.move_from_with_walls(direction, &current, 1) {
                Ok(next) => next,
                Err(_) => {
                    return steps;
                },
            };
            steps += 1;
            if decision_nodes.contains(&current) {
                return steps;
            }
        }
    }

    /// Whether the cell at `c` is a node of the graph that is being built.
    fn scans_as_node(&self, c: Coordinate, visited: Option<&VisitCounter>, compact: bool) -> (r:
        bool)
        requires
            self.wf(),
            self.contains(c),
        ensures
            r == self.graph_nodes(
                match visited {
                    Some(v) => Some(v@),
                    None => None,
                },
                compact,
            ).contains(c),
    {
        if c.0 == self.start.0 && c.1 == self.start.1 {
            return true;
        }
        if self.is_end(c) {
            return true;
        }
        let scanned = match visited {
            Some(v) => v.contains_key(&c),
            None => true,
        };
        scanned && (!compact || self.grid[c.0][c.1].walls.decides())
    }

    /// The graph over the decision nodes of the maze. The nodes are the start, the
    /// end region, and every scanned cell that calls for a decision; with
    /// `skip_non_decision_nodes` unset, every scanned cell. With `visited` given only
    /// its keys are scanned. Each node is bound to the lengths of the runs that leave
    /// it; a direction in which no step can be taken has no entry.
    pub fn convert_to_weighted_graph(
        &self,
        visited: Option<&VisitCounter>,
        skip_non_decision_nodes: bool,
    ) -> (graph: WeightedGraph)
        requires
            self.wf(),
        ensures
            graph@ == self.spec_weighted_graph(
                self.graph_nodes(
                    match visited {
                        Some(v) => Some(v@),
                        None => None,
                    },
                    skip_non_decision_nodes,
                ),
            ),
    {
        let ghost scanned: Option<Map<Coordinate, usize>> = match visited {
            Some(v) => Some(v@),
            None => None,
        };
        let ghost nodes = self.graph_nodes(scanned, skip_non_decision_nodes);
        let mut decision_set = CoordinateSet::new(self.width, self.height);
        let mut x: usize = 0;
        while x < self.width
            invariant
                self.wf(),
                x <= self.width,
                decision_set.wf(),
                decision_set.grid_width() == self.width,
                decision_set.grid_height() == self.height,
                scanned == (match visited {
                    Some(v) => Some(v@),
                    None => None,
                }),
                nodes == self.graph_nodes(scanned, skip_non_decision_nodes),
                forall|c: Coordinate|
                    #[trigger] decision_set.has(c) == (nodes.contains(c) && c.0 < x),
            decreases self.width - x,
        {
            let mut y: usize = 0;
            while y < self.height
                invariant
                    self.wf(),
                    x < self.width,
                    y <= self.height,
                    decision_set.wf(),
                    decision_set.grid_width() == self.width,
                    decision_set.grid_height() == self.height,
                    scanned == (match visited {
                        Some(v) => Some(v@),
                        None => None,
                    }),
                    nodes == self.graph_nodes(scanned, skip_non_decision_nodes),
                    forall|c: Coordinate|
                        #[trigger] decision_set.has(c) == (nodes.contains(c) && (c.0 < x || (c.0
                            == x && c.1 < y))),
                decreases self.height - y,
            {
                if self.scans_as_node((x, y), visited, skip_non_decision_nodes) {
                    decision_set.insert((x, y));
                }
                y += 1;
            }
            x += 1;
        }
        assert(decision_set@ =~= nodes);
        let mut graph: WeightedGraph = WeightedGraph::new();
        let mut x: usize = 0;
        while x < self.width
            invariant
                self.wf(),
                x <= self.width,
                decision_set.wf(),
                decision_set@ == nodes,
                forall|c: Coordinate| nodes.contains(c) ==> self.contains(c),
                graph@.dom() =~= Set::new(|c: Coordinate| nodes.contains(c) && c.0 < x),
                forall|c: Coordinate|
                    graph@.contains_key(c) ==> #[trigger] graph@[c] == self.graph_entry(c, nodes),
            decreases self.width - x,
        {
            let mut y: usize = 0;
            while y < self.height
                invariant
                    self.wf(),
                    x < self.width,
                    y <= self.height,
                    decision_set.wf(),
                    decision_set@ == nodes,
                    forall|c: Coordinate| nodes.contains(c) ==> self.contains(c),
                    graph@.dom() =~= Set::new(
                        |c: Coordinate| nodes.contains(c) && (c.0 < x || (c.0 == x && c.1 < y)),
                    ),
                    forall|c: Coordinate|
                        graph@.contains_key(c) ==> #[trigger] graph@[c] == self.graph_entry(c, nodes),
                decreases self.height - y,
            {
                let c: Coordinate = (x, y);
                if decision_set.contains(&c) {
                    let entry = self.node_entry(c, &decision_set);
                    graph.insert(c, entry);
                }
                y += 1;
            }
            x += 1;
        }
        assert(graph@ =~= self.spec_weighted_graph(nodes));
        graph
    }

    /// The runs that leave `c`, as an entry of the weighted graph.
    fn node_entry(&self, c: Coordinate, decision_nodes: &CoordinateSet) -> (entry: DirectionMap)
        requires
            self.wf(),
            decision_nodes.wf(),
        ensures
            entry == self.graph_entry(c, decision_nodes@),
    {
        let mut entry = DirectionMap::new();
        let north = self.follow_path(&c, &Direction::North, decision_nodes);
        if north > 0 {
            entry.insert(Direction::North, north);
        }
        let east = self.follow_path(&c, &Direction::East, decision_nodes);
        if east > 0 {
            entry.insert(Direction::East, east);
        }
        let south = self.follow_path(&c, &Direction::South, decision_nodes);
        if south > 0 {
            entry.insert(Direction::South, south);
        }
        let west = self.follow_path(&c, &Direction::West, decision_nodes);
        if west > 0 {
            entry.insert(Direction::West, west);
        }
        entry
    }
}

/// Where a run of positive length leads: walking its length lands on the grid, on a
/// cell that was entered through an open wall and that is a node or is blocked ahead,
/// and every shorter walk lands on a cell that is no node.
pub proof fn lemma_run_ends(maze: Maze, c: Coordinate, d: Direction, nodes: Set<Coordinate>)
    requires
        maze.wf(),
        maze.spec_follow_path(c, d, nodes) > 0,
    ensures
        ({
            let n = maze.spec_follow_path(c, d, nodes);
            &&& maze.spec_move_from_with_walls(d, c, n) matches Ok(t) && maze.contains(t) && (
            nodes.contains(t) || maze.spec_step(d, t) is None) && (exists|p: Coordinate|
                maze.spec_step(d, p) == Some(t))
            &&& forall|k: nat|
                0 < k < n ==> (#[trigger] maze.spec_move_from_with_walls(d, c, k) matches Ok(t)
                    && !nodes.contains(t))
        }),
    decreases maze.room(c, d),
{
    let n = maze.spec_follow_path(c, d, nodes);
    let next = maze.spec_step(d, c).unwrap();
    maze.lemma_single_step(d, c);
    reveal_with_fuel(Maze::spec_move_from_with_walls, 2);
    if nodes.contains(next) || maze.spec_follow_path(next, d, nodes) == 0 {
        assert(n == 1);
        assert(maze.spec_step(d, c) == Some(next));
    } else {
        lemma_run_ends(maze, next, d, nodes);
        let m = maze.spec_follow_path(next, d, nodes);
        assert(n == m + 1);
        assert(maze.spec_move_from_with_walls(d, c, n) == maze.spec_move_from_with_walls(
            d,
            next,
            m,
        ));
        assert forall|k: nat| 0 < k < n implies (#[trigger] maze.spec_move_from_with_walls(d, c, k)
            matches Ok(t) && !nodes.contains(t)) by {
            if k > 1 {
                assert(maze.spec_move_from_with_walls(d, c, k) == maze.spec_move_from_with_walls(
                    d,
                    next,
                    (k - 1) as nat,
                ));
            }
        }
    }
}

/// Every edge of the compacted graph ends at a decision node, and at the first one on
/// its way: in a maze whose walls agree with each other, walking the weight of an edge
/// from its node through open walls lands on a node of the graph, and no shorter walk
/// does.
pub proof fn lemma_compacted_edges_join_decision_nodes(maze: Maze, c: Coordinate, d: Direction)
    requires
        maze.wf(),
        maze.walls_consistent(),
        maze.graph_nodes(None, true).contains(c),
        maze.graph_weight(c, d, maze.graph_nodes(None, true)) is Some,
    ensures
        ({
            let nodes = maze.graph_nodes(None, true);
            let w = maze.graph_weight(c, d, nodes).unwrap();
            &&& maze.spec_move_from_with_walls(d, c, w as nat) matches Ok(t) && nodes.contains(t)
            &&& forall|k: nat|
                0 < k < w ==> (#[trigger] maze.spec_move_from_with_walls(d, c, k) matches Ok(t)
                    && !nodes.contains(t))
        }),
{
    let nodes = maze.graph_nodes(None, true);
    let n = maze.spec_follow_path(c, d, nodes);
    maze.lemma_follow_path_bound(c, d, nodes);
    lemma_run_ends(maze, c, d, nodes);
    let t = maze.spec_move_from_with_walls(d, c, n).unwrap();
    if !nodes.contains(t) {
        let p = choose|p: Coordinate| maze.spec_step(d, p) == Some(t);
        lemma_opposite_involution(d);
        // The cell was entered from `p`, so it is open towards `p`; it is blocked ahead,
        // so it is closed towards `d`: it cannot be a straight passage.
        assert(maze.wall(p, d) == maze.wall(t, d.opposite()));
        assert(!maze.wall(t, d.opposite()));
        assert(maze.wall(t, d));
        let walls = maze.grid@[t.0 as int]@[t.1 as int].walls;
        assert(walls.has(d) && !walls.has(d.opposite()));
        if walls.is_straight() {
            let e = choose|e: Direction| !walls.has(e) && !walls.has(#[trigger] e.opposite());
            assert(false);
        }
        assert(maze.is_decision_cell(t));
        assert(false);
    }
}

} // verus!
