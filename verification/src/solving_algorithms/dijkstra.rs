//! Dijkstra's algorithm over the weighted graph: the distances of all cells that can
//! be reached from a source, and a shortest route to one of them.

use crate::coordinate_map::{CoordinateMap, DirectionMap};
use crate::coordinate_set::CoordinateSet;
use crate::direction::{Coordinate, Direction};
use crate::environment::Environment;
use crate::maze::Maze;
use crate::solving_algorithms::routes::{
    connects, distance, has_edge, has_edge_towards, is_leg, is_route, is_shortest_route,
    lemma_closed_set_holds_reachable, lemma_edge_ends, lemma_route_drop_last,
    lemma_route_prepend, lemma_route_push, reachable, route_length,
};
use vstd::prelude::*;

verus! {

/// Why no route was returned.
#[derive(Debug, Clone, Copy, PartialEq, Eq, Structural)]
pub enum SolveError {
    /// No route leads from the start to the end.
    Unreachable,
}

/// For each cell reached its distance from the source and the cell before it on a
/// shortest route.
pub type PathMap = Map<Coordinate, (u128, Coordinate)>;

/// Whether some route from `start` to `n` has the length `length`.
pub open spec fn has_route_of_length(
    maze: Maze,
    graph: Map<Coordinate, DirectionMap>,
    start: Coordinate,
    n: Coordinate,
    length: int,
) -> bool {
    exists|p: Seq<Coordinate>| #[trigger]
        connects(maze, graph, p, start, n) && route_length(p) == length
}

/// Whether the entry of `n` names a cell before it that has an entry, with an edge
/// from there to `n` that is not empty, and is the sum of that cell's distance and
/// the edge.
pub open spec fn is_linked(
    maze: Maze,
    graph: Map<Coordinate, DirectionMap>,
    tree: PathMap,
    n: Coordinate,
) -> bool {
    let (length, before) = tree[n];
    &&& tree.contains_key(before)
    &&& has_edge(maze, graph, before, n)
    &&& length == tree[before].0 + distance(before, n)
    &&& distance(before, n) > 0
}

/// Whether `tree` records, for exactly the cells that can be reached from `start`,
/// the length of a shortest route from `start` and the cell before on such a route.
pub open spec fn is_shortest_path_tree(
    maze: Maze,
    graph: Map<Coordinate, DirectionMap>,
    start: Coordinate,
    tree: PathMap,
) -> bool {
    &&& tree.contains_key(start) && tree[start] == (0u128, start)
    &&& forall|n: Coordinate| #[trigger]
        tree.contains_key(n) <==> reachable(maze, graph, start, n)
    &&& forall|n: Coordinate|
        tree.contains_key(n) && n != start ==> #[trigger] is_linked(maze, graph, tree, n)
    &&& forall|n: Coordinate|
        tree.contains_key(n) ==> #[trigger] has_route_of_length(
            maze,
            graph,
            start,
            n,
            tree[n].0 as int,
        )
    &&& forall|n: Coordinate, q: Seq<Coordinate>|
        tree.contains_key(n) && #[trigger] connects(maze, graph, q, start, n) ==> tree[n].0
            <= route_length(q)
    &&& forall|q: Coordinate, d: Direction, n: Coordinate|
        tree.contains_key(q) ==> #[trigger] is_first_choice(maze, graph, tree, q, d, n)
}

/// The place of the entry of `n` in the order of the queue: by its distance, then
/// by its column, then by its row.
pub open spec fn key_of(tree: PathMap, n: Coordinate) -> (u128, Coordinate) {
    (tree[n].0, n)
}

/// Whether the entry of `n` names the first choice as far as `q` goes: if the edge
/// that leaves `q` towards `d` ends at `n` and lies on a shortest route to `n`, the
/// cell that the entry of `n` names comes no later than `q` in the order of the
/// queue. So where several cells could stand before `n` on a shortest route, the
/// entry names the one that is settled first.
pub open spec fn is_first_choice(
    maze: Maze,
    graph: Map<Coordinate, DirectionMap>,
    tree: PathMap,
    q: Coordinate,
    d: Direction,
    n: Coordinate,
) -> bool {
    has_edge_towards(maze, graph, q, d, n) && tree.contains_key(n) && tree[n].0 == tree[q].0
        + distance(q, n) ==> queue_before(key_of(tree, tree[n].1), key_of(tree, q))
}

/// What the search keeps true of the order in which it settles: every settled cell
/// comes before every cell that waits, in the order of the queue.
#[verifier::opaque]
pub open spec fn order_ok(tree: PathMap, settled: Set<Coordinate>) -> bool {
    forall|v: Coordinate, u: Coordinate|
        settled.contains(v) && tree.contains_key(u) && !settled.contains(u) ==> #[trigger] queue_before(
            key_of(tree, v),
            key_of(tree, u),
        )
}

/// Whether `current` comes last of the settled cells in the order of the queue.
#[verifier::opaque]
pub open spec fn last_ok(tree: PathMap, settled: Set<Coordinate>, current: Coordinate) -> bool {
    forall|v: Coordinate|
        settled.contains(v) ==> #[trigger] queue_before(key_of(tree, v), key_of(tree, current))
}

/// What the search keeps true of its choices: every entry names the first choice as
/// far as the settled cells go, but for the edges that leave `current` towards one of
/// the directions from the compass position `done` on.
#[verifier::opaque]
pub open spec fn first_ok(
    maze: Maze,
    graph: Map<Coordinate, DirectionMap>,
    tree: PathMap,
    settled: Set<Coordinate>,
    current: Coordinate,
    done: int,
) -> bool {
    forall|q: Coordinate, d: Direction, n: Coordinate|
        settled.contains(q) && !(q == current && d.ordinal() >= done) ==> #[trigger] is_first_choice(
            maze,
            graph,
            tree,
            q,
            d,
            n,
        )
}

/// What the search keeps true of the entries made so far: the source is at distance
/// zero; every other entry names a settled cell before it, an edge from there, and
/// the sum of that cell's distance and the edge; and every entry is the length of a
/// route.
#[verifier::opaque]
pub open spec fn tree_ok(
    maze: Maze,
    graph: Map<Coordinate, DirectionMap>,
    start: Coordinate,
    tree: PathMap,
    settled: Set<Coordinate>,
) -> bool {
    &&& tree.contains_key(start) && tree[start] == (0u128, start)
    &&& maze.contains(start)
    &&& forall|n: Coordinate|
        tree.contains_key(n) ==> #[trigger] entry_ok(maze, graph, start, tree, settled, n)
}

/// What the search keeps true of the entry of `n`: it is the length of a route to
/// `n`, and unless `n` is the source it names a settled cell before it and is linked
/// to that cell's entry.
pub open spec fn entry_ok(
    maze: Maze,
    graph: Map<Coordinate, DirectionMap>,
    start: Coordinate,
    tree: PathMap,
    settled: Set<Coordinate>,
    n: Coordinate,
) -> bool {
    &&& maze.contains(n)
    &&& has_route_of_length(maze, graph, start, n, tree[n].0 as int)
    &&& n != start ==> settled.contains(tree[n].1) && is_linked(maze, graph, tree, n)
}

/// What the search keeps true of the settled cells: each has an entry that no route
/// undercuts. Until the source is settled nothing is, and the source has the only
/// entry.
#[verifier::opaque]
pub open spec fn settled_ok(
    maze: Maze,
    graph: Map<Coordinate, DirectionMap>,
    start: Coordinate,
    tree: PathMap,
    settled: Set<Coordinate>,
) -> bool {
    &&& forall|v: Coordinate| #[trigger] settled.contains(v) ==> tree.contains_key(v)
    &&& forall|v: Coordinate, q: Seq<Coordinate>|
        settled.contains(v) && #[trigger] connects(maze, graph, q, start, v) ==> tree[v].0
            <= route_length(q)
    &&& !settled.contains(start) ==> forall|n: Coordinate|
        (#[trigger] tree.contains_key(n) ==> n == start) && !settled.contains(n)
}

/// Whether the edge that leaves `v` towards `d` has been followed: its end has an
/// entry that is at most the distance of `v` plus the edge.
pub open spec fn edge_relaxed(
    maze: Maze,
    graph: Map<Coordinate, DirectionMap>,
    tree: PathMap,
    v: Coordinate,
    d: Direction,
) -> bool {
    forall|b: Coordinate| #[trigger]
        has_edge_towards(maze, graph, v, d, b) ==> tree.contains_key(b) && tree[b].0 <= tree[v].0
            + distance(v, b)
}

/// What the search keeps true of the edges: all edges that leave a settled cell have
/// been followed, but for those that leave `current` towards one of the directions
/// from the compass position `done` on.
#[verifier::opaque]
pub open spec fn edges_ok(
    maze: Maze,
    graph: Map<Coordinate, DirectionMap>,
    tree: PathMap,
    settled: Set<Coordinate>,
    current: Coordinate,
    done: int,
) -> bool {
    forall|v: Coordinate, d: Direction|
        settled.contains(v) && !(v == current && d.ordinal() >= done) ==> #[trigger] edge_relaxed(
            maze,
            graph,
            tree,
            v,
            d,
        )
}

/// What the search keeps true of its queue: every cell with an entry that is not
/// settled waits in the queue at its current distance, and nothing waits at less than
/// its cell's current distance.
#[verifier::opaque]
pub open spec fn queue_ok(tree: PathMap, settled: Set<Coordinate>, queue: Seq<(u128, Coordinate)>) -> bool {
    &&& forall|n: Coordinate| #[trigger]
        tree.contains_key(n) && !settled.contains(n) ==> queue.contains((tree[n].0, n))
    &&& forall|i: int|
        0 <= i < queue.len() ==> tree.contains_key((#[trigger] queue[i]).1) && tree[queue[i].1].0
            <= queue[i].0
}

/// Whether every distance on record is at most `bound`.
#[verifier::opaque]
pub open spec fn bound_ok(tree: PathMap, bound: int) -> bool {
    forall|n: Coordinate| #[trigger] tree.contains_key(n) ==> tree[n].0 <= bound
}

/// Whether `a` comes before `b` in the order of the queue: by distance, then by
/// column, then by row.
pub open spec fn queue_before(a: (u128, Coordinate), b: (u128, Coordinate)) -> bool {
    a.0 < b.0 || (a.0 == b.0 && (a.1.0 < b.1.0 || (a.1.0 == b.1.0 && a.1.1 <= b.1.1)))
}

/// Takes the entry that comes first in the order of the queue out of it.
fn pop_min(queue: &mut Vec<(u128, Coordinate)>) -> (entry: (u128, Coordinate))
    requires
        old(queue)@.len() > 0,
    ensures
        old(queue)@.contains(entry),
        final(queue)@.len() == old(queue)@.len() - 1,
        forall|j: int| 0 <= j < old(queue)@.len() ==> queue_before(entry, #[trigger] old(queue)@[j]),
        forall|j: int|
            0 <= j < old(queue)@.len() ==> (#[trigger] old(queue)@[j]) == entry
                || final(queue)@.contains(old(queue)@[j]),
        forall|k: int|
            0 <= k < final(queue)@.len() ==> old(queue)@.contains(#[trigger] final(queue)@[k]),
{
    let mut best: usize = 0;
    let mut i: usize = 1;
    while i < queue.len()
        invariant
            1 <= i <= queue@.len(),
            best < i,
            forall|j: int| 0 <= j < i ==> queue_before(queue@[best as int], #[trigger] queue@[j]),
        decreases queue@.len() - i,
    {
        let a = queue[i];
        let b = queue[best];
        if a.0 < b.0 || (a.0 == b.0 && (a.1.0 < b.1.0 || (a.1.0 == b.1.0 && a.1.1 <= b.1.1))) {
            best = i;
        }
        i += 1;
    }
    let ghost before = queue@;
    let entry = queue.swap_remove(best);
    proof {
        let after = queue@;
        assert(before[best as int] == entry);
        assert forall|j: int| 0 <= j < before.len() implies (#[trigger] before[j]) == entry
            || after.contains(before[j]) by {
            if j == best {
            } else if j == before.len() - 1 {
                assert(after[best as int] == before[j]);
            } else {
                assert(after[j] == before[j]);
            }
        }
        assert forall|k: int| 0 <= k < after.len() implies before.contains(#[trigger] after[k]) by {
            if k == best {
                assert(before[before.len() - 1] == after[k]);
            } else {
                assert(before[k] == after[k]);
            }
        }
    }
    entry
}

/// No route from the source to a cell that is not settled is shorter than the least
/// distance on record for such a cell.
proof fn lemma_frontier_bound(
    maze: Maze,
    graph: Map<Coordinate, DirectionMap>,
    start: Coordinate,
    tree: PathMap,
    settled: Set<Coordinate>,
    least: int,
    q: Seq<Coordinate>,
)
    requires
        settled_ok(maze, graph, start, tree, settled),
        forall|v: Coordinate, d: Direction|
            settled.contains(v) ==> #[trigger] edge_relaxed(maze, graph, tree, v, d),
        settled.contains(start),
        forall|m: Coordinate| #[trigger]
            tree.contains_key(m) && !settled.contains(m) ==> tree[m].0 >= least,
        is_route(maze, graph, q),
        q.first() == start,
        !settled.contains(q.last()),
    ensures
        route_length(q) >= least,
    decreases q.len(),
{
    reveal(settled_ok);
    if q.len() >= 2 {
        let m = q.last();
        let front = q.drop_last();
        let z = front.last();
        lemma_route_drop_last(maze, graph, q);
        if settled.contains(z) {
            assert(connects(maze, graph, front, start, z));
            let d = choose|d: Direction| has_edge_towards(maze, graph, z, d, m);
            assert(edge_relaxed(maze, graph, tree, z, d));
        } else {
            lemma_frontier_bound(maze, graph, start, tree, settled, least, front);
        }
    }
}

/// What follows when the entry that comes first in the queue belongs to a cell that
/// is not settled: its distance is the cell's current one and is final, so the cell
/// can be settled.
proof fn lemma_settle(
    maze: Maze,
    graph: Map<Coordinate, DirectionMap>,
    start: Coordinate,
    tree: PathMap,
    settled: Set<Coordinate>,
    queue: Seq<(u128, Coordinate)>,
    rest: Seq<(u128, Coordinate)>,
    entry: (u128, Coordinate),
)
    requires
        tree_ok(maze, graph, start, tree, settled),
        settled_ok(maze, graph, start, tree, settled),
        forall|v: Coordinate, d: Direction|
            settled.contains(v) ==> #[trigger] edge_relaxed(maze, graph, tree, v, d),
        queue_ok(tree, settled, queue),
        queue.contains(entry),
        forall|j: int| 0 <= j < queue.len() ==> queue_before(entry, #[trigger] queue[j]),
        forall|j: int|
            0 <= j < queue.len() ==> (#[trigger] queue[j]) == entry || rest.contains(queue[j]),
        forall|k: int| 0 <= k < rest.len() ==> queue.contains(#[trigger] rest[k]),
        !settled.contains(entry.1),
        order_ok(tree, settled),
        first_ok(maze, graph, tree, settled, start, 4),
    ensures
        tree.contains_key(entry.1),
        tree[entry.1].0 == entry.0,
        maze.contains(entry.1),
        tree_ok(maze, graph, start, tree, settled.insert(entry.1)),
        settled_ok(maze, graph, start, tree, settled.insert(entry.1)),
        queue_ok(tree, settled.insert(entry.1), rest),
        edges_ok(maze, graph, tree, settled.insert(entry.1), entry.1, 0),
        order_ok(tree, settled.insert(entry.1)),
        last_ok(tree, settled.insert(entry.1), entry.1),
        first_ok(maze, graph, tree, settled.insert(entry.1), entry.1, 0),
{
    reveal(tree_ok);
    reveal(settled_ok);
    reveal(queue_ok);
    reveal(edges_ok);
    let (d, n) = entry;
    let i = choose|i: int| 0 <= i < queue.len() && queue[i] == entry;
    assert(tree.contains_key(queue[i].1));
    assert(entry_ok(maze, graph, start, tree, settled, n));
    assert(queue.contains((tree[n].0, n)));
    let j = choose|j: int| 0 <= j < queue.len() && queue[j] == (tree[n].0, n);
    assert(queue_before(entry, queue[j]));
    assert(tree[n].0 == d);
    let grown = settled.insert(n);
    assert forall|m: Coordinate| #[trigger] tree.contains_key(m) && !settled.contains(m) implies tree[m].0
        >= d by {
        let k = choose|k: int| 0 <= k < queue.len() && queue[k] == (tree[m].0, m);
        assert(queue_before(entry, queue[k]));
    }
    assert forall|v: Coordinate, q: Seq<Coordinate>|
        grown.contains(v) && #[trigger] connects(maze, graph, q, start, v) implies tree[v].0
        <= route_length(q) by {
        if v == n {
            if settled.contains(start) {
                lemma_frontier_bound(maze, graph, start, tree, settled, d as int, q);
            } else {
                assert(n == start);
            }
        }
    }
    if !settled.contains(start) {
        assert(n == start);
    }
    assert forall|m: Coordinate| tree.contains_key(m) implies #[trigger] entry_ok(
        maze,
        graph,
        start,
        tree,
        grown,
        m,
    ) by {
        assert(entry_ok(maze, graph, start, tree, settled, m));
    }
    assert forall|m: Coordinate| #[trigger] tree.contains_key(m) && !grown.contains(m) implies rest.contains(
        (tree[m].0, m),
    ) by {
        let k = choose|k: int| 0 <= k < queue.len() && queue[k] == (tree[m].0, m);
        assert(queue[k] == entry || rest.contains(queue[k]));
    }
    assert forall|k: int| 0 <= k < rest.len() implies tree.contains_key((#[trigger] rest[k]).1)
        && tree[rest[k].1].0 <= rest[k].0 by {
        assert(queue.contains(rest[k]));
        let i2 = choose|i2: int| 0 <= i2 < queue.len() && queue[i2] == rest[k];
        assert(tree.contains_key(queue[i2].1));
    }
    // The cell settled now comes after all settled before, and before all that wait.
    reveal(order_ok);
    reveal(last_ok);
    reveal(first_ok);
    assert(key_of(tree, n) == entry);
    assert forall|v: Coordinate, u: Coordinate|
        grown.contains(v) && tree.contains_key(u) && !grown.contains(u) implies #[trigger] queue_before(
        key_of(tree, v),
        key_of(tree, u),
    ) by {
        if v == n {
            let k = choose|k: int| 0 <= k < queue.len() && queue[k] == (tree[u].0, u);
            assert(queue_before(entry, queue[k]));
        }
    }
    assert forall|v: Coordinate| grown.contains(v) implies #[trigger] queue_before(
        key_of(tree, v),
        key_of(tree, n),
    ) by {}
    assert forall|q: Coordinate, e: Direction, m: Coordinate|
        grown.contains(q) && !(q == n && e.ordinal() >= 0) implies #[trigger] is_first_choice(
        maze,
        graph,
        tree,
        q,
        e,
        m,
    ) by {
        assert(settled.contains(q));
    }
}

/// Dropping a stale entry, one whose cell is settled, keeps the queue in order.
proof fn lemma_skip(
    tree: PathMap,
    settled: Set<Coordinate>,
    queue: Seq<(u128, Coordinate)>,
    rest: Seq<(u128, Coordinate)>,
    entry: (u128, Coordinate),
)
    requires
        queue_ok(tree, settled, queue),
        forall|j: int|
            0 <= j < queue.len() ==> (#[trigger] queue[j]) == entry || rest.contains(queue[j]),
        forall|k: int| 0 <= k < rest.len() ==> queue.contains(#[trigger] rest[k]),
        settled.contains(entry.1),
    ensures
        queue_ok(tree, settled, rest),
{
    reveal(queue_ok);
    assert forall|m: Coordinate| #[trigger] tree.contains_key(m) && !settled.contains(m) implies rest.contains(
        (tree[m].0, m),
    ) by {
        let k = choose|k: int| 0 <= k < queue.len() && queue[k] == (tree[m].0, m);
        assert(queue[k] == entry || rest.contains(queue[k]));
    }
    assert forall|k: int| 0 <= k < rest.len() implies tree.contains_key((#[trigger] rest[k]).1)
        && tree[rest[k].1].0 <= rest[k].0 by {
        assert(queue.contains(rest[k]));
        let i2 = choose|i2: int| 0 <= i2 < queue.len() && queue[i2] == rest[k];
        assert(tree.contains_key(queue[i2].1));
    }
}

/// An edge that ends at a settled cell is followed already: the entry of its end is
/// final, so the route over this edge does not undercut it.
proof fn lemma_relax_settled(
    maze: Maze,
    graph: Map<Coordinate, DirectionMap>,
    start: Coordinate,
    tree: PathMap,
    settled: Set<Coordinate>,
    current: Coordinate,
    d: Direction,
    b: Coordinate,
)
    requires
        tree_ok(maze, graph, start, tree, settled),
        settled_ok(maze, graph, start, tree, settled),
        tree.contains_key(current),
        has_edge_towards(maze, graph, current, d, b),
        settled.contains(b),
    ensures
        tree.contains_key(b),
        tree[b].0 <= tree[current].0 + distance(current, b),
{
    reveal(tree_ok);
    reveal(settled_ok);
    assert(entry_ok(maze, graph, start, tree, settled, current));
    let p = choose|p: Seq<Coordinate>| #[trigger]
        connects(maze, graph, p, start, current) && route_length(p) == tree[current].0;
    lemma_edge_ends(maze, graph, current, d, b);
    lemma_route_push(maze, graph, p, b);
    assert(connects(maze, graph, p.push(b), start, b));
}

/// Recording a distance for a cell that is not settled, reached over an edge from
/// the settled cell `current`, keeps the entries in order.
proof fn lemma_update_tree(
    maze: Maze,
    graph: Map<Coordinate, DirectionMap>,
    start: Coordinate,
    tree: PathMap,
    settled: Set<Coordinate>,
    current: Coordinate,
    d: Direction,
    b: Coordinate,
)
    requires
        tree_ok(maze, graph, start, tree, settled),
        settled.contains(current),
        settled.contains(start),
        tree.contains_key(current),
        has_edge_towards(maze, graph, current, d, b),
        !settled.contains(b),
        tree[current].0 + distance(current, b) <= u128::MAX,
    ensures
        tree_ok(
            maze,
            graph,
            start,
            tree.insert(b, ((tree[current].0 + distance(current, b)) as u128, current)),
            settled,
        ),
{
    reveal(tree_ok);
    let length = (tree[current].0 + distance(current, b)) as u128;
    let updated = tree.insert(b, (length, current));
    lemma_edge_ends(maze, graph, current, d, b);
    assert(entry_ok(maze, graph, start, tree, settled, current));
    let p = choose|p: Seq<Coordinate>| #[trigger]
        connects(maze, graph, p, start, current) && route_length(p) == tree[current].0;
    lemma_route_push(maze, graph, p, b);
    assert(connects(maze, graph, p.push(b), start, b));
    assert(has_route_of_length(maze, graph, start, b, length as int));
    assert(b != current);
    assert(distance(current, b) > 0);
    assert forall|n: Coordinate| updated.contains_key(n) implies #[trigger] entry_ok(
        maze,
        graph,
        start,
        updated,
        settled,
        n,
    ) by {
        if n != b {
            assert(entry_ok(maze, graph, start, tree, settled, n));
        }
    }
}

/// A change to the entry of a cell that is not settled leaves what is true of the
/// settled cells as it is. Once a cell is settled, the source is.
proof fn lemma_update_settled(
    maze: Maze,
    graph: Map<Coordinate, DirectionMap>,
    start: Coordinate,
    tree: PathMap,
    settled: Set<Coordinate>,
    current: Coordinate,
    b: Coordinate,
    entry: (u128, Coordinate),
)
    requires
        settled_ok(maze, graph, start, tree, settled),
        settled.contains(current),
        !settled.contains(b),
    ensures
        settled.contains(start),
        settled_ok(maze, graph, start, tree.insert(b, entry), settled),
{
    reveal(settled_ok);
}

/// Once a cell is settled, the source is.
proof fn lemma_source_is_settled(
    maze: Maze,
    graph: Map<Coordinate, DirectionMap>,
    start: Coordinate,
    tree: PathMap,
    settled: Set<Coordinate>,
    current: Coordinate,
)
    requires
        settled_ok(maze, graph, start, tree, settled),
        settled.contains(current),
    ensures
        settled.contains(start),
{
    reveal(settled_ok);
}

/// Recording for the end of an edge the distance over that edge, or less, makes the
/// edge count as followed, and changes nothing for the edges followed before.
proof fn lemma_update_edges(
    maze: Maze,
    graph: Map<Coordinate, DirectionMap>,
    tree: PathMap,
    settled: Set<Coordinate>,
    current: Coordinate,
    d: Direction,
    b: Coordinate,
)
    requires
        edges_ok(maze, graph, tree, settled, current, d.ordinal()),
        settled.contains(current),
        tree.contains_key(current),
        has_edge_towards(maze, graph, current, d, b),
        !settled.contains(b),
        !tree.contains_key(b) || tree[current].0 + distance(current, b) < tree[b].0,
        tree[current].0 + distance(current, b) <= u128::MAX,
    ensures
        edges_ok(
            maze,
            graph,
            tree.insert(b, ((tree[current].0 + distance(current, b)) as u128, current)),
            settled,
            current,
            d.ordinal() + 1,
        ),
{
    reveal(edges_ok);
    let length = (tree[current].0 + distance(current, b)) as u128;
    let updated = tree.insert(b, (length, current));
    assert forall|v: Coordinate, e: Direction|
        settled.contains(v) && !(v == current && e.ordinal() >= d.ordinal() + 1) implies #[trigger] edge_relaxed(
        maze,
        graph,
        updated,
        v,
        e,
    ) by {
        if v == current && e == d {
            assert forall|c: Coordinate| #[trigger]
                has_edge_towards(maze, graph, v, e, c) implies updated.contains_key(c)
                && updated[c].0 <= updated[v].0 + distance(v, c) by {
                assert(c == b);
            }
        } else {
            assert(edge_relaxed(maze, graph, tree, v, e));
            assert forall|c: Coordinate| #[trigger]
                has_edge_towards(maze, graph, v, e, c) implies updated.contains_key(c)
                && updated[c].0 <= updated[v].0 + distance(v, c) by {
                assert(tree.contains_key(c) && tree[c].0 <= tree[v].0 + distance(v, c));
            }
        }
    }
}

/// Recording a shorter distance for a cell and queueing the cell at that distance
/// keeps the queue in order.
proof fn lemma_update_queue(
    tree: PathMap,
    settled: Set<Coordinate>,
    queue: Seq<(u128, Coordinate)>,
    b: Coordinate,
    entry: (u128, Coordinate),
)
    requires
        queue_ok(tree, settled, queue),
        !tree.contains_key(b) || entry.0 < tree[b].0,
    ensures
        queue_ok(tree.insert(b, entry), settled, queue.push((entry.0, b))),
{
    reveal(queue_ok);
    let updated = tree.insert(b, entry);
    let longer = queue.push((entry.0, b));
    assert forall|n: Coordinate| #[trigger]
        updated.contains_key(n) && !settled.contains(n) implies longer.contains(
        (updated[n].0, n),
    ) by {
        if n == b {
            assert(longer[queue.len() as int] == (entry.0, b));
        } else {
            let k = choose|k: int| 0 <= k < queue.len() && queue[k] == (tree[n].0, n);
            assert(longer[k] == queue[k]);
        }
    }
    assert forall|i: int| 0 <= i < longer.len() implies updated.contains_key(
        (#[trigger] longer[i]).1,
    ) && updated[longer[i].1].0 <= longer[i].0 by {
        if i < queue.len() {
            assert(longer[i] == queue[i]);
            assert(tree.contains_key(queue[i].1));
        }
    }
}

/// An entry within the bound keeps the entries within the bound.
proof fn lemma_update_bound(tree: PathMap, bound: int, b: Coordinate, entry: (u128, Coordinate))
    requires
        bound_ok(tree, bound),
        entry.0 <= bound,
    ensures
        bound_ok(tree.insert(b, entry), bound),
{
    reveal(bound_ok);
}

/// Recording a distance over an edge from the cell settled last keeps the order of
/// settling: the new entry is further than every settled cell.
proof fn lemma_update_order(
    tree: PathMap,
    settled: Set<Coordinate>,
    current: Coordinate,
    b: Coordinate,
    entry: (u128, Coordinate),
)
    requires
        order_ok(tree, settled),
        last_ok(tree, settled, current),
        settled.contains(current),
        !settled.contains(b),
        entry.0 > tree[current].0,
    ensures
        order_ok(tree.insert(b, entry), settled),
        last_ok(tree.insert(b, entry), settled, current),
{
    reveal(order_ok);
    reveal(last_ok);
    let updated = tree.insert(b, entry);
    assert forall|v: Coordinate, u: Coordinate|
        settled.contains(v) && updated.contains_key(u) && !settled.contains(u) implies #[trigger] queue_before(
        key_of(updated, v),
        key_of(updated, u),
    ) by {
        assert(key_of(updated, v) == key_of(tree, v));
        assert(queue_before(key_of(tree, v), key_of(tree, current)));
        if u != b {
            assert(queue_before(key_of(tree, v), key_of(tree, u)));
        }
    }
    assert forall|v: Coordinate| settled.contains(v) implies #[trigger] queue_before(
        key_of(updated, v),
        key_of(updated, current),
    ) by {
        assert(queue_before(key_of(tree, v), key_of(tree, current)));
    }
}

/// Recording a shorter distance for the end of an edge that leaves the cell settled
/// last keeps every entry the first choice.
proof fn lemma_update_first(
    maze: Maze,
    graph: Map<Coordinate, DirectionMap>,
    start: Coordinate,
    tree: PathMap,
    settled: Set<Coordinate>,
    current: Coordinate,
    d: Direction,
    b: Coordinate,
)
    requires
        tree_ok(maze, graph, start, tree, settled),
        edges_ok(maze, graph, tree, settled, current, d.ordinal()),
        first_ok(maze, graph, tree, settled, current, d.ordinal()),
        settled.contains(current),
        settled.contains(start),
        tree.contains_key(current),
        has_edge_towards(maze, graph, current, d, b),
        !settled.contains(b),
        !tree.contains_key(b) || tree[current].0 + distance(current, b) < tree[b].0,
        tree[current].0 + distance(current, b) <= u128::MAX,
    ensures
        first_ok(
            maze,
            graph,
            tree.insert(b, ((tree[current].0 + distance(current, b)) as u128, current)),
            settled,
            current,
            d.ordinal() + 1,
        ),
{
    reveal(tree_ok);
    reveal(edges_ok);
    reveal(first_ok);
    let length = (tree[current].0 + distance(current, b)) as u128;
    let updated = tree.insert(b, (length, current));
    assert forall|q: Coordinate, e: Direction, n: Coordinate|
        settled.contains(q) && !(q == current && e.ordinal() >= d.ordinal() + 1) implies #[trigger] is_first_choice(
        maze,
        graph,
        updated,
        q,
        e,
        n,
    ) by {
        if has_edge_towards(maze, graph, q, e, n) && updated.contains_key(n) && updated[n].0
            == updated[q].0 + distance(q, n) {
            lemma_edge_ends(maze, graph, q, e, n);
            if n == b {
                if !(q == current && e == d) {
                    // An edge followed before: what it offers was on record already.
                    assert(edge_relaxed(maze, graph, tree, q, e));
                    assert(false);
                }
            } else {
                assert(is_first_choice(maze, graph, tree, q, e, n));
                assert(n != start);
                assert(entry_ok(maze, graph, start, tree, settled, n));
            }
        }
    }
}

/// An edge that offers nothing new keeps every entry the first choice: where it
/// offers as much as is on record, the record names a cell settled before.
proof fn lemma_keep_first(
    maze: Maze,
    graph: Map<Coordinate, DirectionMap>,
    start: Coordinate,
    tree: PathMap,
    settled: Set<Coordinate>,
    current: Coordinate,
    d: Direction,
)
    requires
        tree_ok(maze, graph, start, tree, settled),
        first_ok(maze, graph, tree, settled, current, d.ordinal()),
        last_ok(tree, settled, current),
        settled.contains(current),
        settled.contains(start),
        forall|b: Coordinate| #[trigger]
            has_edge_towards(maze, graph, current, d, b) ==> tree.contains_key(b) && tree[b].0
                <= tree[current].0 + distance(current, b),
    ensures
        first_ok(maze, graph, tree, settled, current, d.ordinal() + 1),
{
    reveal(tree_ok);
    reveal(first_ok);
    reveal(last_ok);
    assert forall|q: Coordinate, e: Direction, n: Coordinate|
        settled.contains(q) && !(q == current && e.ordinal() >= d.ordinal() + 1) implies #[trigger] is_first_choice(
        maze,
        graph,
        tree,
        q,
        e,
        n,
    ) by {
        if q == current && e == d {
            if has_edge_towards(maze, graph, q, e, n) && tree.contains_key(n) && tree[n].0
                == tree[q].0 + distance(q, n) {
                lemma_edge_ends(maze, graph, q, e, n);
                if settled.contains(n) {
                    assert(queue_before(key_of(tree, n), key_of(tree, current)));
                    assert(false);
                } else {
                    assert(entry_ok(maze, graph, start, tree, settled, n));
                    assert(queue_before(key_of(tree, tree[n].1), key_of(tree, current)));
                }
            }
        } else {
            assert(is_first_choice(maze, graph, tree, q, e, n));
        }
    }
}

/// An edge whose end has an entry that is short enough already counts as followed,
/// and so does a direction without an edge.
proof fn lemma_relax_keep(
    maze: Maze,
    graph: Map<Coordinate, DirectionMap>,
    tree: PathMap,
    settled: Set<Coordinate>,
    current: Coordinate,
    d: Direction,
)
    requires
        edges_ok(maze, graph, tree, settled, current, d.ordinal()),
        edge_relaxed(maze, graph, tree, current, d),
    ensures
        edges_ok(maze, graph, tree, settled, current, d.ordinal() + 1),
{
    reveal(edges_ok);
}

/// However large the grid, the distances on it are numbers: as many times the
/// longest edge as there are cells fits into 128 bits.
proof fn lemma_bound_fits(width: int, height: int, count: int)
    requires
        1 <= width,
        1 <= height,
        width * height <= usize::MAX,
        0 <= count <= width * height,
    ensures
        count * (width + height) <= width * height * (width + height),
        width * height * (width + height) <= u128::MAX,
{
    let cells: int = width * height;
    let most: int = u64::MAX as int;
    assert(width + height <= cells + 1) by (nonlinear_arith)
        requires
            1 <= width,
            1 <= height,
            cells == width * height,
    ;
    assert(count * (width + height) <= cells * (width + height)) by (nonlinear_arith)
        requires
            0 <= count <= cells,
            0 <= width + height,
    ;
    assert(cells * (width + height) <= most * (most + 1)) by (nonlinear_arith)
        requires
            0 <= cells <= most,
            0 <= width + height <= cells + 1,
    ;
    assert(most * (most + 1) <= u128::MAX);
}

/// Follows the edge that leaves the settled cell `current` towards `d`: where its
/// end is not settled and the way over `current` is shorter than what is on record
/// for it, the record is replaced and the end is queued at the new distance.
fn relax(
    env: &Environment,
    path_map: &mut CoordinateMap<(u128, Coordinate)>,
    queue: &mut Vec<(u128, Coordinate)>,
    visited: &CoordinateSet,
    current: Coordinate,
    reached: u128,
    d: Direction,
    Ghost(start): Ghost<Coordinate>,
)
    requires
        env.maze.wf(),
        visited.wf(),
        visited.grid_width() == env.maze.width,
        visited.grid_height() == env.maze.height,
        visited.has(current),
        env.maze.contains(current),
        old(path_map)@.contains_key(current),
        old(path_map)@[current].0 == reached,
        reached + env.maze.width + env.maze.height <= visited.count() * (env.maze.width
            + env.maze.height),
        tree_ok(env.maze, env.weighted_graph@, start, old(path_map)@, visited@),
        settled_ok(env.maze, env.weighted_graph@, start, old(path_map)@, visited@),
        edges_ok(env.maze, env.weighted_graph@, old(path_map)@, visited@, current, d.ordinal()),
        queue_ok(old(path_map)@, visited@, old(queue)@),
        bound_ok(
            old(path_map)@,
            visited.count() * (env.maze.width + env.maze.height),
        ),
        order_ok(old(path_map)@, visited@),
        last_ok(old(path_map)@, visited@, current),
        first_ok(env.maze, env.weighted_graph@, old(path_map)@, visited@, current, d.ordinal()),
    ensures
        final(path_map)@.contains_key(current),
        final(path_map)@[current].0 == reached,
        tree_ok(env.maze, env.weighted_graph@, start, final(path_map)@, visited@),
        settled_ok(env.maze, env.weighted_graph@, start, final(path_map)@, visited@),
        edges_ok(
            env.maze,
            env.weighted_graph@,
            final(path_map)@,
            visited@,
            current,
            d.ordinal() + 1,
        ),
        queue_ok(final(path_map)@, visited@, final(queue)@),
        bound_ok(
            final(path_map)@,
            visited.count() * (env.maze.width + env.maze.height),
        ),
        order_ok(final(path_map)@, visited@),
        last_ok(final(path_map)@, visited@, current),
        first_ok(
            env.maze,
            env.weighted_graph@,
            final(path_map)@,
            visited@,
            current,
            d.ordinal() + 1,
        ),
        final(queue)@.len() <= old(queue)@.len() + 1,
{
    let ghost maze = env.maze;
    let ghost graph = env.weighted_graph@;
    let ghost tree = path_map@;
    let ghost bound = visited.count() * (env.maze.width + env.maze.height);
    proof {
        lemma_source_is_settled(maze, graph, start, tree, visited@, current);
    }
    let weight: Option<usize> = match env.weighted_graph.get(&current) {
        Some(node) => node.get(&d),
        None => None,
    };
    let neighbor: Option<Coordinate> = match weight {
        Some(steps) => if steps > 0 {
            match env.maze.move_from(&d, &current, steps) {
                Ok(c) => Some(c),
                Err(_) => None,
            }
        } else {
            None
        },
        None => None,
    };
    match neighbor {
        None => {
            proof {
                assert(edge_relaxed(maze, graph, tree, current, d));
                lemma_relax_keep(maze, graph, tree, visited@, current, d);
                lemma_keep_first(maze, graph, start, tree, visited@, current, d);
            }
        },
        Some(b) => {
            proof {
                lemma_edge_ends(maze, graph, current, d, b);
            }
            assert(has_edge_towards(maze, graph, current, d, b));
            if visited.contains(&b) {
                proof {
                    lemma_relax_settled(maze, graph, start, tree, visited@, current, d, b);
                    assert(edge_relaxed(maze, graph, tree, current, d)) by {
                        assert forall|c: Coordinate| #[trigger]
                            has_edge_towards(maze, graph, current, d, c) implies tree.contains_key(c)
                            && tree[c].0 <= tree[current].0 + distance(current, c) by {
                            assert(c == b);
                        }
                    }
                    lemma_relax_keep(maze, graph, tree, visited@, current, d);
                    lemma_keep_first(maze, graph, start, tree, visited@, current, d);
                }
            } else {
                let steps = weight.unwrap();
                assert(steps == distance(current, b));
                assert(steps <= env.maze.width + env.maze.height);
                proof {
                    visited.lemma_count_bound();
                }
                proof {
                    lemma_bound_fits(
                        env.maze.width as int,
                        env.maze.height as int,
                        visited.count() as int,
                    );
                }
                let tentative: u128 = reached + steps as u128;
                let shorter = match path_map.get(&b) {
                    Some(known) => tentative < known.0,
                    None => true,
                };
                if shorter {
                    proof {
                        let settled = visited@;
                        let entry = (tentative, current);
                        lemma_update_settled(maze, graph, start, tree, settled, current, b, entry);
                        lemma_update_tree(maze, graph, start, tree, settled, current, d, b);
                        lemma_update_edges(maze, graph, tree, settled, current, d, b);
                        lemma_update_queue(tree, settled, queue@, b, entry);
                        lemma_update_bound(tree, bound as int, b, entry);
                        lemma_update_order(tree, settled, current, b, entry);
                        lemma_update_first(maze, graph, start, tree, settled, current, d, b);
                    }
                    path_map.insert(b, (tentative, current));
                    queue.push((tentative, b));
                } else {
                    proof {
                        assert(edge_relaxed(maze, graph, tree, current, d)) by {
                            assert forall|c: Coordinate| #[trigger]
                                has_edge_towards(maze, graph, current, d, c) implies tree.contains_key(
                                c,
                            ) && tree[c].0 <= tree[current].0 + distance(current, c) by {
                                assert(c == b);
                            }
                        }
                        lemma_relax_keep(maze, graph, tree, visited@, current, d);
                        lemma_keep_first(maze, graph, start, tree, visited@, current, d);
                    }
                }
            }
        },
    }
}

/// What is true once the queue is empty: the entries form the tree of shortest
/// routes from the source.
proof fn lemma_finished(
    maze: Maze,
    graph: Map<Coordinate, DirectionMap>,
    start: Coordinate,
    tree: PathMap,
    settled: Set<Coordinate>,
)
    requires
        tree_ok(maze, graph, start, tree, settled),
        settled_ok(maze, graph, start, tree, settled),
        forall|v: Coordinate, d: Direction|
            settled.contains(v) ==> #[trigger] edge_relaxed(maze, graph, tree, v, d),
        queue_ok(tree, settled, Seq::<(u128, Coordinate)>::empty()),
        first_ok(maze, graph, tree, settled, start, 4),
    ensures
        is_shortest_path_tree(maze, graph, start, tree),
{
    reveal(tree_ok);
    reveal(settled_ok);
    reveal(queue_ok);
    reveal(first_ok);
    assert forall|n: Coordinate| #[trigger] tree.contains_key(n) implies settled.contains(n) by {
        if !settled.contains(n) {
            assert(Seq::<(u128, Coordinate)>::empty().contains((tree[n].0, n)));
        }
    }
    assert forall|n: Coordinate| tree.contains_key(n) implies #[trigger] has_route_of_length(
        maze,
        graph,
        start,
        n,
        tree[n].0 as int,
    ) by {
        assert(entry_ok(maze, graph, start, tree, settled, n));
    }
    assert forall|n: Coordinate| tree.contains_key(n) && n != start implies #[trigger] is_linked(
        maze,
        graph,
        tree,
        n,
    ) by {
        assert(entry_ok(maze, graph, start, tree, settled, n));
    }
    assert forall|n: Coordinate| #[trigger]
        tree.contains_key(n) <==> reachable(maze, graph, start, n) by {
        if tree.contains_key(n) {
            assert(has_route_of_length(maze, graph, start, n, tree[n].0 as int));
        }
        if reachable(maze, graph, start, n) {
            let p = choose|p: Seq<Coordinate>| connects(maze, graph, p, start, n);
            assert forall|v: Coordinate, b: Coordinate|
                settled.contains(v) && #[trigger] has_edge(maze, graph, v, b) implies settled.contains(
                b,
            ) by {
                let d = choose|d: Direction| has_edge_towards(maze, graph, v, d, b);
                assert(edge_relaxed(maze, graph, tree, v, d));
            }
            lemma_closed_set_holds_reachable(maze, graph, settled, p);
        }
    }
}

/// Whether the cell at place `i` of `p` is entered from the cell that its entry in
/// `tree` names: the cell before it in `p`.
pub open spec fn is_tree_leg(tree: PathMap, p: Seq<Coordinate>, i: int) -> bool {
    tree[p[i]].1 == p[i - 1]
}

/// Whether `p` runs along `tree`: every cell but the first is entered from the cell
/// that its entry names.
pub open spec fn runs_along(tree: PathMap, p: Seq<Coordinate>) -> bool {
    forall|i: int| 0 < i < p.len() ==> #[trigger] is_tree_leg(tree, p, i)
}

/// A shortest route from `start` to `end` along the edges of the weighted graph, or
/// the error `Unreachable` if no route leads there. Of several shortest routes it is
/// the one that runs along the tree of [`dijkstra_tree`].
pub fn dijkstra_solve(env: &Environment, start: Coordinate, end: Coordinate) -> (r: Result<
    Vec<Coordinate>,
    SolveError,
>)
    requires
        env.maze.wf(),
        env.maze.contains(start),
    ensures
        r is Ok <==> reachable(env.maze, env.weighted_graph@, start, end),
        r matches Ok(path) ==> is_shortest_route(
            env.maze,
            env.weighted_graph@,
            path@,
            start,
            end,
        ) && exists|tree: PathMap| #[trigger]
            is_shortest_path_tree(env.maze, env.weighted_graph@, start, tree) && runs_along(
                tree,
                path@,
            ),
        r matches Err(e) ==> e == SolveError::Unreachable,
{
    let ghost maze = env.maze;
    let ghost graph = env.weighted_graph@;
    let path_map = dijkstra_tree(env, start);
    let ghost tree = path_map@;
    if !path_map.contains_key(&end) {
        return Err(SolveError::Unreachable);
    }
    let mut previous = end;
    let mut path_followed: Vec<Coordinate> = Vec::new();
    path_followed.push(end);
    proof {
        assert(is_route(maze, graph, path_followed@));
        assert(route_length(path_followed@) == 0);
    }
    while !(previous.0 == start.0 && previous.1 == start.1)
        invariant
            tree == path_map@,
            is_shortest_path_tree(maze, graph, start, tree),
            tree.contains_key(previous),
            tree.contains_key(end),
            is_route(maze, graph, path_followed@),
            path_followed@.first() == previous,
            path_followed@.last() == end,
            route_length(path_followed@) + tree[previous].0 == tree[end].0,
            runs_along(tree, path_followed@),
        decreases tree[previous].0,
    {
        assert(is_linked(maze, graph, tree, previous));
        let before = match path_map.get(&previous) {
            Some(entry) => entry.1,
            None => {
                return Err(SolveError::Unreachable);
            },
        };
        let ghost shorter = path_followed@;
        proof {
            lemma_route_prepend(maze, graph, before, path_followed@);
        }
        path_followed.insert(0, before);
        proof {
            assert forall|i: int| 0 < i < path_followed@.len() implies #[trigger] is_tree_leg(
                tree,
                path_followed@,
                i,
            ) by {
                if i > 1 {
                    assert(is_tree_leg(tree, shorter, i - 1));
                }
            }
        }
        previous = before;
    }
    proof {
        assert(previous == start);
        assert(connects(maze, graph, path_followed@, start, end));
        assert forall|q: Seq<Coordinate>| connects(maze, graph, q, start, end) implies route_length(
            path_followed@,
        ) <= #[trigger] route_length(q) by {}
    }
    Ok(path_followed)
}

/// The tree of shortest routes from a source is one: two maps that both record, for
/// the cells that can be reached, the length of a shortest route and the first
/// choice of the cell before, are the same map.
pub proof fn lemma_shortest_path_tree_is_unique(
    maze: Maze,
    graph: Map<Coordinate, DirectionMap>,
    start: Coordinate,
    one: PathMap,
    other: PathMap,
)
    requires
        is_shortest_path_tree(maze, graph, start, one),
        is_shortest_path_tree(maze, graph, start, other),
    ensures
        one == other,
{
    assert forall|n: Coordinate| one.contains_key(n) == other.contains_key(n) by {
        assert(one.contains_key(n) <==> reachable(maze, graph, start, n));
        assert(other.contains_key(n) <==> reachable(maze, graph, start, n));
    }
    // The distances are the same: each is the length of a route, which the other
    // does not exceed.
    assert forall|n: Coordinate| one.contains_key(n) implies one[n].0 == other[n].0 by {
        assert(has_route_of_length(maze, graph, start, n, one[n].0 as int));
        assert(has_route_of_length(maze, graph, start, n, other[n].0 as int));
        let p = choose|p: Seq<Coordinate>| #[trigger]
            connects(maze, graph, p, start, n) && route_length(p) == one[n].0;
        let q = choose|q: Seq<Coordinate>| #[trigger]
            connects(maze, graph, q, start, n) && route_length(q) == other[n].0;
        assert(other[n].0 <= route_length(p));
        assert(one[n].0 <= route_length(q));
    }
    // The cells before are the same: each is a choice, and comes no later than the
    // other.
    assert forall|n: Coordinate| one.contains_key(n) implies one[n] == other[n] by {
        if n != start {
            assert(is_linked(maze, graph, one, n));
            assert(is_linked(maze, graph, other, n));
            let a = one[n].1;
            let b = other[n].1;
            assert(one[a].0 == other[a].0);
            assert(one[b].0 == other[b].0);
            let da = choose|d: Direction| has_edge_towards(maze, graph, a, d, n);
            let db = choose|d: Direction| has_edge_towards(maze, graph, b, d, n);
            assert(is_first_choice(maze, graph, other, a, da, n));
            assert(is_first_choice(maze, graph, one, b, db, n));
        }
    }
    assert(one =~= other);
}

/// The route that Dijkstra's algorithm returns is never longer than the route that
/// depth-first search returns, or any other route between the same two cells.
pub proof fn lemma_shortest_route_is_not_longer(
    maze: Maze,
    graph: Map<Coordinate, DirectionMap>,
    start: Coordinate,
    end: Coordinate,
    shortest: Seq<Coordinate>,
    found: Seq<Coordinate>,
)
    requires
        is_shortest_route(maze, graph, shortest, start, end),
        connects(maze, graph, found, start, end),
    ensures
        route_length(shortest) <= route_length(found),
{
}

/// The tree of shortest routes from `start` along the edges of the weighted graph:
/// for each cell that can be reached its distance and the cell before it on a
/// shortest route. Among cells at the same distance the one further west is settled
/// first, and among those the one further north. Distances are kept in 128 bits,
/// which hold them on every grid.
pub fn dijkstra_tree(env: &Environment, start: Coordinate) -> (path_map: CoordinateMap<
    (u128, Coordinate),
>)
    requires
        env.maze.wf(),
        env.maze.contains(start),
    ensures
        is_shortest_path_tree(env.maze, env.weighted_graph@, start, path_map@),
        forall|n: Coordinate| #[trigger]
            path_map@.contains_key(n) ==> path_map@[n].0 <= env.maze.width * env.maze.height * (
            env.maze.width + env.maze.height),
{
    let ghost maze = env.maze;
    let ghost graph = env.weighted_graph@;
    let mut queue: Vec<(u128, Coordinate)> = Vec::new();
    let mut path_map: CoordinateMap<(u128, Coordinate)> = CoordinateMap::new();
    let mut visited = CoordinateSet::new(env.maze.width, env.maze.height);
    path_map.insert(start, (0, start));
    queue.push((0, start));
    proof {
        reveal(tree_ok);
        reveal(settled_ok);
        reveal(queue_ok);
        reveal(bound_ok);
        reveal(order_ok);
        reveal(first_ok);
        let p = seq![start];
        assert(connects(maze, graph, p, start, start));
        assert(route_length(p) == 0);
        assert(has_route_of_length(maze, graph, start, start, 0));
        assert(queue@[0] == (0u128, start));
        assert(visited.count() * (maze.width + maze.height) == 0) by (nonlinear_arith)
            requires
                visited.count() == 0,
        ;
    }
    while queue.len() > 0
        invariant
            maze == env.maze,
            graph == env.weighted_graph@,
            maze.wf(),
            visited.wf(),
            visited.grid_width() == maze.width,
            visited.grid_height() == maze.height,
            tree_ok(maze, graph, start, path_map@, visited@),
            settled_ok(maze, graph, start, path_map@, visited@),
            forall|v: Coordinate, d: Direction|
                visited@.contains(v) ==> #[trigger] edge_relaxed(maze, graph, path_map@, v, d),
            queue_ok(path_map@, visited@, queue@),
            bound_ok(path_map@, visited.count() * (maze.width + maze.height)),
            order_ok(path_map@, visited@),
            first_ok(maze, graph, path_map@, visited@, start, 4),
        decreases maze.width * maze.height - visited.count(), queue@.len(),
    {
        let ghost queue_before_pop = queue@;
        let ghost settled = visited@;
        let ghost count = visited.count();
        let entry = pop_min(&mut queue);
        let (reached, current) = entry;
        if visited.contains(&current) {
            proof {
                lemma_skip(path_map@, settled, queue_before_pop, queue@, entry);
            }
        } else {
            proof {
                lemma_settle(
                    maze,
                    graph,
                    start,
                    path_map@,
                    settled,
                    queue_before_pop,
                    queue@,
                    entry,
                );
                reveal(bound_ok);
                assert(path_map@[current].0 <= count * (maze.width + maze.height));
                visited.lemma_count_bound();
            }
            visited.insert(current);
            proof {
                assert(visited@ =~= settled.insert(current));
                let m = maze.width + maze.height;
                assert((count + 1) * m == count * m + m) by (nonlinear_arith);
                assert(bound_ok(path_map@, (count + 1) * m));
                visited.lemma_count_bound();
            }
            relax(env, &mut path_map, &mut queue, &visited, current, reached, Direction::North, Ghost(start));
            relax(env, &mut path_map, &mut queue, &visited, current, reached, Direction::East, Ghost(start));
            relax(env, &mut path_map, &mut queue, &visited, current, reached, Direction::South, Ghost(start));
            relax(env, &mut path_map, &mut queue, &visited, current, reached, Direction::West, Ghost(start));
            proof {
                reveal(edges_ok);
                reveal(first_ok);
            }
        }
    }
    proof {
        assert(queue@ =~= Seq::<(u128, Coordinate)>::empty());
        lemma_finished(maze, graph, start, path_map@, visited@);
        reveal(bound_ok);
        visited.lemma_count_bound();
        lemma_bound_fits(maze.width as int, maze.height as int, visited.count() as int);
    }
    path_map
}

/// The tree `tree` with its distances in 128 bits.
pub open spec fn widened(tree: Map<Coordinate, (usize, Coordinate)>) -> PathMap {
    Map::new(
        |c: Coordinate| tree.contains_key(c),
        |c: Coordinate| (tree[c].0 as u128, tree[c].1),
    )
}

/// The distances of all cells that can be reached from `start` along the edges of
/// the weighted graph, each with the cell before it on a shortest route: the tree of
/// [`dijkstra_tree`], on a grid whose distances fit into `usize`.
pub fn dijkstra_graph(env: &Environment, start: Coordinate) -> (path_map: CoordinateMap<
    (usize, Coordinate),
>)
    requires
        env.maze.wf(),
        env.maze.contains(start),
        env.maze.width * env.maze.height * (env.maze.width + env.maze.height) <= usize::MAX,
    ensures
        is_shortest_path_tree(env.maze, env.weighted_graph@, start, widened(path_map@)),
{
    let ghost maze = env.maze;
    let ghost graph = env.weighted_graph@;
    let tree = dijkstra_tree(env, start);
    let mut path_map: CoordinateMap<(usize, Coordinate)> = CoordinateMap::new();
    proof {
        assert forall|c: Coordinate| #[trigger] tree@.contains_key(c) implies maze.contains(c) by {
            lemma_reached_on_grid(maze, graph, start, c);
        }
    }
    let mut x: usize = 0;
    while x < env.maze.width
        invariant
            maze == env.maze,
            maze.wf(),
            x <= maze.width,
            forall|n: Coordinate| #[trigger]
                tree@.contains_key(n) ==> tree@[n].0 <= usize::MAX && maze.contains(n),
            forall|c: Coordinate|
                #[trigger] path_map@.contains_key(c) == (tree@.contains_key(c) && c.0 < x),
            forall|c: Coordinate| #[trigger]
                path_map@.contains_key(c) ==> path_map@[c].0 == tree@[c].0 && path_map@[c].1
                    == tree@[c].1,
        decreases maze.width - x,
    {
        let mut y: usize = 0;
        while y < env.maze.height
            invariant
                maze == env.maze,
                maze.wf(),
                x < maze.width,
                y <= maze.height,
                forall|n: Coordinate| #[trigger]
                    tree@.contains_key(n) ==> tree@[n].0 <= usize::MAX && maze.contains(n),
                forall|c: Coordinate|
                    #[trigger] path_map@.contains_key(c) == (tree@.contains_key(c) && (c.0 < x || (
                    c.0 == x && c.1 < y))),
                forall|c: Coordinate| #[trigger]
                    path_map@.contains_key(c) ==> path_map@[c].0 == tree@[c].0 && path_map@[c].1
                        == tree@[c].1,
            decreases maze.height - y,
        {
            match tree.get(&(x, y)) {
                Some(entry) => {
                    path_map.insert((x, y), (entry.0 as usize, entry.1));
                },
                None => {},
            }
            y += 1;
        }
        x += 1;
    }
    proof {
        assert forall|c: Coordinate| #[trigger] tree@.contains_key(c) implies path_map@.contains_key(
            c,
        ) by {
            assert(maze.contains(c));
        }
        assert(widened(path_map@) =~= tree@);
    }
    path_map
}

/// A cell that can be reached from a cell of the grid lies on the grid.
proof fn lemma_reached_on_grid(
    maze: Maze,
    graph: Map<Coordinate, DirectionMap>,
    start: Coordinate,
    n: Coordinate,
)
    requires
        maze.contains(start),
        reachable(maze, graph, start, n),
    ensures
        maze.contains(n),
{
    let p = choose|p: Seq<Coordinate>| connects(maze, graph, p, start, n);
    if p.len() > 1 {
        let before = p[p.len() - 2];
        assert(is_leg(maze, graph, p, p.len() - 2));
        let d = choose|d: Direction| has_edge_towards(maze, graph, before, d, n);
        lemma_edge_ends(maze, graph, before, d, n);
    }
}

} // verus!
