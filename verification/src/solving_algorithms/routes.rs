//! Routes through the weighted graph: what it means to follow its edges, how long a
//! route is, and which cells can be reached.

use crate::coordinate_map::DirectionMap;
use crate::direction::{spec_direction_between, Coordinate, Direction};
use crate::maze::{Maze, MoveError};
use vstd::prelude::*;

verus! {

/// The number of steps between two cells when only moves along the axes count.
pub open spec fn distance(a: Coordinate, b: Coordinate) -> nat {
    ((if a.0 >= b.0 {
        a.0 - b.0
    } else {
        b.0 - a.0
    }) + (if a.1 >= b.1 {
        a.1 - b.1
    } else {
        b.1 - a.1
    })) as nat
}

/// The number of steps between two cells when only moves along the axes count.
pub fn calculate_manhattan_distance(pos1: Coordinate, pos2: Coordinate) -> (r: usize)
    requires
        distance(pos1, pos2) <= usize::MAX,
    ensures
        r == distance(pos1, pos2),
{
    let dx = if pos1.0 >= pos2.0 {
        pos1.0 - pos2.0
    } else {
        pos2.0 - pos1.0
    };
    let dy = if pos1.1 >= pos2.1 {
        pos1.1 - pos2.1
    } else {
        pos2.1 - pos1.1
    };
    dx + dy
}

/// Whether the graph has an edge that leaves `a` towards `d` and ends at `b`: the
/// cell that lies as many steps from `a` as the edge weighs, on the grid. A weight of
/// zero is no edge.
pub open spec fn has_edge_towards(
    maze: Maze,
    graph: Map<Coordinate, DirectionMap>,
    a: Coordinate,
    d: Direction,
    b: Coordinate,
) -> bool {
    &&& graph.contains_key(a)
    &&& graph[a].steps(d) > 0
    &&& maze.spec_move_from(d, a, graph[a].steps(d) as int) == Ok::<Coordinate, MoveError>(b)
}

/// Whether the graph has an edge from `a` to `b`.
pub open spec fn has_edge(
    maze: Maze,
    graph: Map<Coordinate, DirectionMap>,
    a: Coordinate,
    b: Coordinate,
) -> bool {
    exists|d: Direction| has_edge_towards(maze, graph, a, d, b)
}

/// Whether the graph has an edge from the cell at place `i` of `p` to the next.
pub open spec fn is_leg(
    maze: Maze,
    graph: Map<Coordinate, DirectionMap>,
    p: Seq<Coordinate>,
    i: int,
) -> bool {
    has_edge(maze, graph, p[i], p[i + 1])
}

/// Whether `p` is a route: at least one cell, and an edge of the graph from each
/// cell to the next.
pub open spec fn is_route(maze: Maze, graph: Map<Coordinate, DirectionMap>, p: Seq<Coordinate>) -> bool {
    &&& p.len() >= 1
    &&& forall|i: int| 0 <= i < p.len() - 1 ==> #[trigger] is_leg(maze, graph, p, i)
}

/// Whether `p` is a route from `a` to `b`.
pub open spec fn connects(
    maze: Maze,
    graph: Map<Coordinate, DirectionMap>,
    p: Seq<Coordinate>,
    a: Coordinate,
    b: Coordinate,
) -> bool {
    is_route(maze, graph, p) && p.first() == a && p.last() == b
}

/// Whether some route leads from `a` to `b`.
pub open spec fn reachable(
    maze: Maze,
    graph: Map<Coordinate, DirectionMap>,
    a: Coordinate,
    b: Coordinate,
) -> bool {
    exists|p: Seq<Coordinate>| connects(maze, graph, p, a, b)
}

/// The total weight of a route. An edge weighs as much as its two ends are apart,
/// so the sum is taken over the distances between consecutive cells.
pub open spec fn route_length(p: Seq<Coordinate>) -> nat
    decreases p.len(),
{
    if p.len() <= 1 {
        0
    } else {
        route_length(p.drop_last()) + distance(p[p.len() - 2], p.last())
    }
}

/// Whether `p` is a route from `a` to `b` that no other route from `a` to `b`
/// undercuts.
pub open spec fn is_shortest_route(
    maze: Maze,
    graph: Map<Coordinate, DirectionMap>,
    p: Seq<Coordinate>,
    a: Coordinate,
    b: Coordinate,
) -> bool {
    &&& connects(maze, graph, p, a, b)
    &&& forall|q: Seq<Coordinate>|
        connects(maze, graph, q, a, b) ==> route_length(p) <= #[trigger] route_length(q)
}

/// An edge ends on the grid at another cell, in the direction in which it leaves,
/// and weighs as much as its ends are apart.
pub proof fn lemma_edge_ends(
    maze: Maze,
    graph: Map<Coordinate, DirectionMap>,
    a: Coordinate,
    d: Direction,
    b: Coordinate,
)
    requires
        has_edge_towards(maze, graph, a, d, b),
    ensures
        maze.contains(b),
        has_edge(maze, graph, a, b),
        distance(a, b) == graph[a].steps(d),
        distance(a, b) > 0,
        a != b,
        spec_direction_between(a, b) == Some(d),
{
}

/// The steps of a route, each as the cell it starts from and the direction it takes.
/// A route of one cell has no steps, nor has an empty list of cells.
pub open spec fn route_steps(p: Seq<Coordinate>) -> Seq<(Coordinate, Direction)> {
    Seq::new(
        if p.len() == 0 {
            0nat
        } else {
            (p.len() - 1) as nat
        },
        |i: int|
            (
                p[i],
                match spec_direction_between(p[i], p[i + 1]) {
                    Some(d) => d,
                    None => Direction::North,
                },
            ),
    )
}

/// A route with one more edge at its front is a route, longer by that edge.
pub proof fn lemma_route_prepend(
    maze: Maze,
    graph: Map<Coordinate, DirectionMap>,
    a: Coordinate,
    p: Seq<Coordinate>,
)
    requires
        is_route(maze, graph, p),
        has_edge(maze, graph, a, p.first()),
    ensures
        is_route(maze, graph, p.insert(0, a)),
        p.insert(0, a).first() == a,
        p.insert(0, a).last() == p.last(),
        route_length(p.insert(0, a)) == distance(a, p.first()) + route_length(p),
    decreases p.len(),
{
    let q = p.insert(0, a);
    assert forall|i: int| 0 <= i < q.len() - 1 implies #[trigger] is_leg(maze, graph, q, i) by {
        if i > 0 {
            assert(is_leg(maze, graph, p, i - 1));
        }
    }
    if p.len() == 1 {
        assert(q.drop_last() =~= seq![a]);
        assert(route_length(q.drop_last()) == 0);
    } else {
        lemma_route_drop_last(maze, graph, p);
        lemma_route_prepend(maze, graph, a, p.drop_last());
        assert(q.drop_last() =~= p.drop_last().insert(0, a));
    }
}

/// A route with one more edge at its end is a route, longer by that edge.
pub proof fn lemma_route_push(
    maze: Maze,
    graph: Map<Coordinate, DirectionMap>,
    p: Seq<Coordinate>,
    b: Coordinate,
)
    requires
        is_route(maze, graph, p),
        has_edge(maze, graph, p.last(), b),
    ensures
        is_route(maze, graph, p.push(b)),
        p.push(b).first() == p.first(),
        p.push(b).last() == b,
        route_length(p.push(b)) == route_length(p) + distance(p.last(), b),
{
    let q = p.push(b);
    assert(q.drop_last() =~= p);
    assert forall|i: int| 0 <= i < q.len() - 1 implies #[trigger] is_leg(maze, graph, q, i) by {
        if i < p.len() - 1 {
            assert(is_leg(maze, graph, p, i));
        }
    }
}

/// A route without its last cell is a route, if a cell is left.
pub proof fn lemma_route_drop_last(maze: Maze, graph: Map<Coordinate, DirectionMap>, p: Seq<Coordinate>)
    requires
        is_route(maze, graph, p),
        p.len() >= 2,
    ensures
        is_route(maze, graph, p.drop_last()),
        p.drop_last().first() == p.first(),
        has_edge(maze, graph, p.drop_last().last(), p.last()),
        route_length(p) == route_length(p.drop_last()) + distance(p.drop_last().last(), p.last()),
{
    let q = p.drop_last();
    assert forall|i: int| 0 <= i < q.len() - 1 implies #[trigger] is_leg(maze, graph, q, i) by {
        assert(is_leg(maze, graph, p, i));
    }
    assert(is_leg(maze, graph, p, p.len() - 2));
}

/// A set of cells that holds `a` and, with each cell, the ends of the edges that
/// leave it, holds every cell that can be reached from `a`.
pub proof fn lemma_closed_set_holds_reachable(
    maze: Maze,
    graph: Map<Coordinate, DirectionMap>,
    cells: Set<Coordinate>,
    p: Seq<Coordinate>,
)
    requires
        is_route(maze, graph, p),
        cells.contains(p.first()),
        forall|v: Coordinate, b: Coordinate|
            cells.contains(v) && #[trigger] has_edge(maze, graph, v, b) ==> cells.contains(b),
    ensures
        cells.contains(p.last()),
    decreases p.len(),
{
    if p.len() >= 2 {
        lemma_route_drop_last(maze, graph, p);
        lemma_closed_set_holds_reachable(maze, graph, cells, p.drop_last());
    }
}

} // verus!
