//! The weighted graph against the passages of the maze: a node that can be reached
//! through the passages can be reached along the edges of the graph.

use crate::connectivity::{is_closed, reaches};
use crate::coordinate_map::DirectionMap;
use crate::direction::{lemma_opposite_involution, Coordinate, Direction};
use crate::maze::{carve_target, inside, step, Maze, MoveError};
use crate::reachability::{maze_links, passage_links};
use crate::solving_algorithms::routes::{
    connects, has_edge, has_edge_towards, lemma_route_push, reachable,
};
use vstd::prelude::*;

verus! {

/// Whether `nodes` has every cell of the grid that calls for a decision.
pub open spec fn holds_decisions(maze: Maze, nodes: Set<Coordinate>) -> bool {
    forall|c: Coordinate| maze.contains(c) && #[trigger] maze.is_decision_cell(c) ==> nodes.contains(c)
}

/// The cell `k` steps from `c` towards `d`, where that lies on the grid.
pub open spec fn cell_at(c: Coordinate, d: Direction, k: int) -> Coordinate {
    (step(c, d, k).0 as usize, step(c, d, k).1 as usize)
}

/// Whether `c` is the cell `k` steps along the run that leaves the node `n` towards
/// `d`.
pub open spec fn on_run(
    maze: Maze,
    nodes: Set<Coordinate>,
    n: Coordinate,
    d: Direction,
    k: int,
    c: Coordinate,
) -> bool {
    &&& nodes.contains(n)
    &&& maze.contains(n)
    &&& 0 <= k <= maze.spec_follow_path(n, d, nodes)
    &&& step(n, d, k) == (c.0 as int, c.1 as int)
}

/// Whether `c` lies on a run that leaves a node which the graph over `nodes` reaches
/// from `a`.
pub open spec fn anchored(maze: Maze, nodes: Set<Coordinate>, a: Coordinate, c: Coordinate) -> bool {
    exists|n: Coordinate, d: Direction, k: int|
        reachable(maze, maze.spec_weighted_graph(nodes), a, n) && #[trigger] on_run(
            maze,
            nodes,
            n,
            d,
            k,
            c,
        )
}

/// The cells of a run before its end: each lies on the grid, is open towards the
/// next, is no node unless it is the first, and has the rest of the run before it.
proof fn lemma_run_cell(maze: Maze, nodes: Set<Coordinate>, c: Coordinate, d: Direction, k: int)
    requires
        maze.wf(),
        0 <= k < maze.spec_follow_path(c, d, nodes),
    ensures
        inside(maze.width as int, maze.height as int, step(c, d, k)),
        inside(maze.width as int, maze.height as int, step(c, d, k + 1)),
        maze.spec_step(d, cell_at(c, d, k)) == Some(cell_at(c, d, k + 1)),
        k > 0 ==> !nodes.contains(cell_at(c, d, k)),
        maze.spec_follow_path(cell_at(c, d, k), d, nodes) == maze.spec_follow_path(c, d, nodes) - k,
    decreases k,
{
    let first = maze.spec_step(d, c).unwrap();
    assert(first == cell_at(c, d, 1));
    if k > 0 {
        lemma_run_cell(maze, nodes, first, d, k - 1);
        assert(step(first, d, k - 1) == step(c, d, k));
        assert(step(first, d, k) == step(c, d, k + 1));
    }
}

/// A run of the graph ends at a node, and the graph has the edge from the node where
/// the run starts to that node.
proof fn lemma_run_end(maze: Maze, nodes: Set<Coordinate>, n: Coordinate, d: Direction)
    requires
        maze.wf(),
        maze.walls_consistent(),
        holds_decisions(maze, nodes),
        maze.spec_follow_path(n, d, nodes) > 0,
    ensures
        ({
            let w = maze.spec_follow_path(n, d, nodes) as int;
            &&& inside(maze.width as int, maze.height as int, step(n, d, w))
            &&& nodes.contains(cell_at(n, d, w))
            &&& nodes.contains(n) ==> has_edge_towards(
                maze,
                maze.spec_weighted_graph(nodes),
                n,
                d,
                cell_at(n, d, w),
            )
        }),
{
    let w = maze.spec_follow_path(n, d, nodes) as int;
    lemma_run_cell(maze, nodes, n, d, w - 1);
    maze.lemma_follow_path_bound(n, d, nodes);
    let here = cell_at(n, d, w - 1);
    let t = cell_at(n, d, w);
    assert(maze.spec_step(d, here) == Some(t));
    assert(maze.spec_follow_path(here, d, nodes) == 1);
    if !nodes.contains(t) {
        assert(maze.spec_follow_path(t, d, nodes) == 0);
        assert(maze.spec_step(d, t) is None);
        assert(t == carve_target((here, d)));
        assert(maze.wall(here, d) == maze.wall(t, d.opposite()));
        assert(maze.wall(t, d));
        lemma_opposite_involution(d);
        let walls = maze.grid@[t.0 as int]@[t.1 as int].walls;
        assert(walls.has(d) && !walls.has(d.opposite()));
        if walls.is_straight() {
            let e = choose|e: Direction| !walls.has(e) && !walls.has(#[trigger] e.opposite());
            assert(false);
        }
        assert(maze.is_decision_cell(t));
        assert(false);
    }
    if nodes.contains(n) {
        let graph = maze.spec_weighted_graph(nodes);
        assert(graph.contains_key(n));
        assert(graph[n].weight(d) == maze.graph_weight(n, d, nodes));
        assert(graph[n].steps(d) == w);
        assert(maze.spec_move_from(d, n, w) == Ok::<Coordinate, MoveError>(t));
    }
}

/// A node that lies on a run from a node that the graph reaches is reached itself.
proof fn lemma_anchored_node(maze: Maze, nodes: Set<Coordinate>, a: Coordinate, x: Coordinate)
    requires
        maze.wf(),
        maze.walls_consistent(),
        holds_decisions(maze, nodes),
        anchored(maze, nodes, a, x),
        nodes.contains(x),
    ensures
        reachable(maze, maze.spec_weighted_graph(nodes), a, x),
{
    let graph = maze.spec_weighted_graph(nodes);
    let (n, d, k) = choose|n: Coordinate, d: Direction, k: int|
        reachable(maze, graph, a, n) && #[trigger] on_run(maze, nodes, n, d, k, x);
    let w = maze.spec_follow_path(n, d, nodes) as int;
    if k == 0 {
        assert(x == n);
    } else if k < w {
        lemma_run_cell(maze, nodes, n, d, k);
        assert(cell_at(n, d, k) == x);
    } else {
        lemma_run_end(maze, nodes, n, d);
        assert(cell_at(n, d, w) == x);
        let p = choose|p: Seq<Coordinate>| connects(maze, graph, p, a, n);
        assert(has_edge_towards(maze, graph, n, d, x));
        assert(has_edge(maze, graph, p.last(), x));
        lemma_route_push(maze, graph, p, x);
        assert(connects(maze, graph, p.push(x), a, x));
    }
}

/// A step through a passage leads from a cell on a run to a cell on a run.
proof fn lemma_anchored_step(
    maze: Maze,
    nodes: Set<Coordinate>,
    a: Coordinate,
    x: Coordinate,
    y: Coordinate,
)
    requires
        maze.wf(),
        maze.walls_consistent(),
        holds_decisions(maze, nodes),
        maze.contains(x),
        anchored(maze, nodes, a, x),
        maze.passage(x, y),
    ensures
        maze.contains(y),
        anchored(maze, nodes, a, y),
{
    let graph = maze.spec_weighted_graph(nodes);
    let e = choose|e: Direction| #[trigger] maze.spec_step(e, x) == Some(y);
    assert(y == cell_at(x, e, 1));
    if nodes.contains(x) {
        lemma_anchored_node(maze, nodes, a, x);
        assert(maze.spec_follow_path(x, e, nodes) >= 1);
        assert(on_run(maze, nodes, x, e, 1, y));
    } else {
        let (n, d, k) = choose|n: Coordinate, d: Direction, k: int|
            reachable(maze, graph, a, n) && #[trigger] on_run(maze, nodes, n, d, k, x);
        let w = maze.spec_follow_path(n, d, nodes) as int;
        assert(k != 0);
        if k == w {
            lemma_run_end(maze, nodes, n, d);
            assert(cell_at(n, d, w) == x);
            assert(false);
        }
        lemma_run_cell(maze, nodes, n, d, k);
        lemma_run_cell(maze, nodes, n, d, k - 1);
        let before = cell_at(n, d, k - 1);
        let after = cell_at(n, d, k + 1);
        assert(cell_at(n, d, k) == x);
        assert(maze.spec_step(d, before) == Some(x));
        assert(maze.spec_step(d, x) == Some(after));
        assert(x == carve_target((before, d)));
        assert(maze.wall(before, d) == maze.wall(x, d.opposite()));
        lemma_opposite_involution(d);
        let walls = maze.grid@[x.0 as int]@[x.1 as int].walls;
        assert(!walls.has(d) && !walls.has(d.opposite()) && !walls.has(e));
        assert(!maze.is_decision_cell(x));
        assert(walls.open_count() == 2);
        assert(e == d || e == d.opposite());
        if e == d {
            assert(y == after);
            assert(on_run(maze, nodes, n, d, k + 1, y));
        } else {
            assert(step(x, e, 1) == step(n, d, k - 1));
            assert(y == before);
            assert(on_run(maze, nodes, n, d, k - 1, y));
        }
    }
}

/// The weighted graph loses no way through the maze: in a maze whose walls agree
/// with each other, a node of the graph that can be reached from another through the
/// passages of the maze can be reached from it along the edges of the graph. This
/// holds of the graph over the decision nodes and of the graph over all cells.
pub proof fn lemma_graph_keeps_passages(maze: Maze, compact: bool, a: Coordinate, b: Coordinate)
    requires
        maze.wf(),
        maze.walls_consistent(),
        maze.graph_nodes(None, compact).contains(a),
        maze.graph_nodes(None, compact).contains(b),
        reaches(passage_links(maze), a, b),
    ensures
        reachable(
            maze,
            maze.spec_weighted_graph(maze.graph_nodes(None, compact)),
            a,
            b,
        ),
{
    let nodes = maze.graph_nodes(None, compact);
    let graph = maze.spec_weighted_graph(nodes);
    let links = passage_links(maze);
    assert(maze.contains(a)) by {
        if maze.in_end(a) {
            let i = choose|i: int| 0 <= i < maze.end@.len() && maze.end@[i] == a;
            assert(maze.contains(maze.end@[i]));
        }
    }
    let cells = Set::new(|c: Coordinate| maze.contains(c) && anchored(maze, nodes, a, c));
    assert(is_closed(links, cells)) by {
        assert forall|x: Coordinate, y: Coordinate| cells.contains(x) && #[trigger] links(
            x,
            y,
        ) implies cells.contains(y) by {
            lemma_anchored_step(maze, nodes, a, x, y);
        }
    }
    let alone = seq![a];
    assert(connects(maze, graph, alone, a, a));
    assert(on_run(maze, nodes, a, Direction::North, 0, a));
    assert(cells.contains(a));
    assert(cells.contains(b));
    lemma_anchored_node(maze, nodes, a, b);
}

/// Whether the graph over `nodes` reaches some cell of the end region from `a`.
pub open spec fn reaches_end_region(maze: Maze, nodes: Set<Coordinate>, a: Coordinate) -> bool {
    exists|e: Coordinate| #[trigger]
        maze.in_end(e) && reachable(maze, maze.spec_weighted_graph(nodes), a, e)
}

/// The weighted graph leads to the end region wherever the maze does: in a maze
/// whose walls agree with each other, if a cell of the end region can be reached
/// from a node when the end region counts as one place, then the graph has a route
/// from that node to some cell of the end region. So a solver that is sent from the
/// start of a connected maze to the right cell of its end region finds a route.
pub proof fn lemma_graph_reaches_end_region(maze: Maze, compact: bool, a: Coordinate, b: Coordinate)
    requires
        maze.wf(),
        maze.walls_consistent(),
        maze.graph_nodes(None, compact).contains(a),
        maze.in_end(b),
        reaches(maze_links(maze), a, b),
    ensures
        reaches_end_region(maze, maze.graph_nodes(None, compact), a),
{
    let nodes = maze.graph_nodes(None, compact);
    let graph = maze.spec_weighted_graph(nodes);
    let links = maze_links(maze);
    assert(maze.contains(a)) by {
        if maze.in_end(a) {
            let i = choose|i: int| 0 <= i < maze.end@.len() && maze.end@[i] == a;
            assert(maze.contains(maze.end@[i]));
        }
    }
    let alone = seq![a];
    assert(connects(maze, graph, alone, a, a));
    assert(on_run(maze, nodes, a, Direction::North, 0, a));
    if !reaches_end_region(maze, nodes, a) {
        // No cell of the end region lies on a run, so the cells on runs are closed
        // under the links of the maze, and the end region is not among them.
        let cells = Set::new(|c: Coordinate| maze.contains(c) && anchored(maze, nodes, a, c));
        assert forall|c: Coordinate| cells.contains(c) implies !maze.in_end(c) by {
            if maze.in_end(c) {
                lemma_anchored_node(maze, nodes, a, c);
            }
        }
        assert(is_closed(links, cells)) by {
            assert forall|x: Coordinate, y: Coordinate| cells.contains(x) && #[trigger] links(
                x,
                y,
            ) implies cells.contains(y) by {
                lemma_anchored_step(maze, nodes, a, x, y);
            }
        }
        assert(cells.contains(a));
        assert(cells.contains(b));
    }
}

} // verus!
