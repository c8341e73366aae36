//! Randomized Kruskal's algorithm: the walls of the grid are taken in random order,
//! and a wall comes down if it stands between two components.

use crate::connectivity::{
    is_closed, lemma_grid_is_connected, lemma_link_reaches, lemma_reaches_itself,
    lemma_reaches_monotone, lemma_reaches_transitive, reaches,
};
use crate::coordinate_set::{cell_index, lemma_cell_index, lemma_index_cell};
use crate::direction::{lemma_opposite_involution, Coordinate, Direction};
use crate::disjoint_sets::{
    lemma_fresh_roots, lemma_merged_roots, lemma_one_set, merged_roots, roots_wf, set_count,
    uf_find, uf_new, uf_roots, uf_union,
};
use crate::maze::{carve_target, carve_valid, inside, is_grid_edge, step, Carve, Maze};
use crate::rng::choose_index;
use crate::spanning::{
    carve_joins, carve_links, closes_cycle, crosses_end, door_in_use, edge_of, grid_links, has_single_door,
    is_carve_list, is_forest, is_saturated, is_spanning_tree, lemma_carve_links_grow,
    lemma_same_edge_same_cells, node_count, outside_hangs_together, outside_links,
};
use rand::rngs::StdRng;
use union_find::{QuickUnionUf, UnionBySize};
use vstd::prelude::*;

verus! {

/// The root of the component of the cell `c`.
pub open spec fn root_at(width: int, roots: Seq<usize>, c: Coordinate) -> usize {
    roots[cell_index(width, c)]
}

/// What the algorithm keeps true of its components: the cells of one component can
/// be reached from each other along the carves; every carve lies inside a component;
/// the carves and the components together are as many as the places of the grid; and
/// the end region lies inside one component.
#[verifier::opaque]
pub open spec fn classes_ok(maze: &Maze, roots: Seq<usize>, carves: Seq<Carve>) -> bool {
    let w = maze.width as int;
    let h = maze.height as int;
    &&& roots.len() == w * h
    &&& roots_wf(roots)
    &&& is_carve_list(w, h, maze.end@, carves)
    &&& forall|i: int|
        0 <= i < carves.len() ==> root_at(w, roots, (#[trigger] carves[i]).0) == root_at(
            w,
            roots,
            carve_target(carves[i]),
        )
    &&& forall|a: Coordinate, b: Coordinate|
        maze.contains(a) && maze.contains(b) && root_at(w, roots, a) == root_at(w, roots, b)
            ==> #[trigger] reaches(carve_links(w, h, maze.end@, carves), a, b)
    &&& carves.len() + set_count(roots) == node_count(w, h, maze.end@)
    &&& forall|i: int, j: int|
        0 <= i < maze.end@.len() && 0 <= j < maze.end@.len() ==> root_at(
            w,
            roots,
            #[trigger] maze.end@[i],
        ) == root_at(w, roots, #[trigger] maze.end@[j])
}

/// What the algorithm keeps true of the walls: a wall that is no longer in the pool
/// stands inside a component, or crosses the border of the end region while the door
/// is in use. The door, once in use, is a carve that joins the end region to a cell
/// outside; and no second carve crosses that border. Every carve came from the pool.
#[verifier::opaque]
pub open spec fn pool_ok(
    maze: &Maze,
    roots: Seq<usize>,
    pool: Seq<Carve>,
    door: Option<Carve>,
    carves: Seq<Carve>,
) -> bool {
    let w = maze.width as int;
    let h = maze.height as int;
    &&& forall|i: int| 0 <= i < pool.len() ==> is_grid_edge(w, h, #[trigger] pool[i])
    &&& forall|e: Carve| #[trigger]
        is_grid_edge(w, h, e) ==> pool.contains(e) || root_at(w, roots, e.0) == root_at(
            w,
            roots,
            carve_target(e),
        ) || (crosses_end(maze.end@, e) && door is Some)
    &&& door matches Some(e) ==> carve_valid(w, h, e) && crosses_end(maze.end@, e) && root_at(
        w,
        roots,
        e.0,
    ) == root_at(w, roots, carve_target(e))
    &&& has_single_door(maze.end@, carves)
    &&& door is None ==> forall|i: int|
        0 <= i < carves.len() ==> !crosses_end(maze.end@, #[trigger] carves[i])
    &&& door matches Some(e) ==> carves.contains(e)
    &&& forall|i: int| 0 <= i < carves.len() ==> is_grid_edge(w, h, #[trigger] carves[i])
}

/// Whether the first `k` cells of the end region are one component and every other
/// cell is a component of its own.
#[verifier::opaque]
pub open spec fn end_joined(maze: &Maze, roots: Seq<usize>, k: int) -> bool {
    let w = maze.width as int;
    let h = maze.height as int;
    let end = maze.end@;
    &&& roots.len() == w * h
    &&& roots_wf(roots)
    &&& set_count(roots) + k == w * h + 1
    &&& exists|j: int| 0 <= j < k && root_at(w, roots, end[0]) == cell_index(w, #[trigger] end[j])
    &&& forall|c: Coordinate| #[trigger]
        maze.contains(c) ==> root_at(w, roots, c) == (if end.take(k).contains(c) {
            root_at(w, roots, end[0])
        } else {
            cell_index(w, c) as usize
        })
}

/// The place of a cell in the row-by-row listing of the grid.
fn index_of(maze: &Maze, c: Coordinate) -> (i: usize)
    requires
        maze.wf(),
        maze.contains(c),
    ensures
        i == cell_index(maze.width as int, c),
        i < maze.width * maze.height,
{
    proof {
        lemma_cell_index(maze.width as int, maze.height as int, c);
    }
    c.1 * maze.width + c.0
}

/// All walls between two cells of the grid, each named from its western or northern
/// side.
pub fn all_edges(maze: &Maze) -> (edges: Vec<Carve>)
    requires
        maze.wf(),
    ensures
        forall|i: int|
            0 <= i < edges@.len() ==> is_grid_edge(
                maze.width as int,
                maze.height as int,
                #[trigger] edges@[i],
            ),
        forall|e: Carve| #[trigger]
            is_grid_edge(maze.width as int, maze.height as int, e) ==> edges@.contains(e),
{
    let ghost w = maze.width as int;
    let ghost h = maze.height as int;
    let mut edges: Vec<Carve> = Vec::new();
    let mut x: usize = 0;
    while x < maze.width
        invariant
            maze.wf(),
            w == maze.width,
            h == maze.height,
            x <= maze.width,
            forall|i: int| 0 <= i < edges@.len() ==> is_grid_edge(w, h, #[trigger] edges@[i]),
            forall|e: Carve| #[trigger] is_grid_edge(w, h, e) && e.0.0 < x ==> edges@.contains(e),
        decreases maze.width - x,
    {
        let mut y: usize = 0;
        while y < maze.height
            invariant
                maze.wf(),
                w == maze.width,
                h == maze.height,
                x < maze.width,
                y <= maze.height,
                forall|i: int| 0 <= i < edges@.len() ==> is_grid_edge(w, h, #[trigger] edges@[i]),
                forall|e: Carve| #[trigger]
                    is_grid_edge(w, h, e) && (e.0.0 < x || (e.0.0 == x && e.0.1 < y))
                        ==> edges@.contains(e),
            decreases maze.height - y,
        {
            let ghost e0 = edges@;
            if x + 1 < maze.width {
                edges.push(((x, y), Direction::East));
            }
            let ghost e1 = edges@;
            if y + 1 < maze.height {
                edges.push(((x, y), Direction::South));
            }
            proof {
                let e2 = edges@;
                assert forall|i: int| 0 <= i < e2.len() implies is_grid_edge(w, h, #[trigger] e2[i]) by {
                    if i < e0.len() {
                        assert(e2[i] == e0[i]);
                    }
                }
                assert forall|e: Carve| #[trigger]
                    is_grid_edge(w, h, e) && (e.0.0 < x || (e.0.0 == x && e.0.1 < y + 1)) implies e2.contains(
                    e,
                ) by {
                    if e.0 == (x, y) {
                        if e.1 == Direction::East {
                            assert(e2[e0.len() as int] == e);
                        } else {
                            assert(e2[e1.len() as int] == e);
                        }
                    } else {
                        let k = choose|k: int| 0 <= k < e0.len() && e0[k] == e;
                        assert(e2[k] == e);
                    }
                }
            }
            y += 1;
        }
        x += 1;
    }
    edges
}

/// Makes the end region one component of a fresh structure.
fn join_end(maze: &Maze, uf: &mut QuickUnionUf<UnionBySize>)
    requires
        maze.wf(),
        uf_roots(*old(uf)).len() == maze.width * maze.height,
        forall|i: int| 0 <= i < uf_roots(*old(uf)).len() ==> #[trigger] uf_roots(*old(uf))[i] == i,
    ensures
        classes_ok(maze, uf_roots(*final(uf)), Seq::<Carve>::empty()),
{
    let ghost w = maze.width as int;
    let ghost h = maze.height as int;
    let ghost end = maze.end@;
    proof {
        lemma_fresh_roots(uf_roots(*uf));
    }
    if maze.end.len() == 0 {
        proof {
            lemma_fresh_classes(maze, uf_roots(*uf));
        }
        return ;
    }
    let first = index_of(maze, maze.end[0]);
    proof {
        reveal(end_joined);
        let roots = uf_roots(*uf);
        assert(root_at(w, roots, end[0]) == cell_index(w, end[0]));
        assert forall|c: Coordinate| #[trigger] maze.contains(c) implies root_at(w, roots, c) == (
        if end.take(1).contains(c) {
            root_at(w, roots, end[0])
        } else {
            cell_index(w, c) as usize
        }) by {
            lemma_cell_index(w, h, c);
            let single = end.take(1);
            if single.contains(c) {
                let j = choose|j: int| 0 <= j < single.len() && single[j] == c;
                assert(c == end[0]);
            }
        }
    }
    let mut k: usize = 1;
    while k < maze.end.len()
        invariant
            maze.wf(),
            w == maze.width,
            h == maze.height,
            end == maze.end@,
            1 <= k <= end.len(),
            first == cell_index(w, end[0]),
            first < w * h,
            end_joined(maze, uf_roots(*uf), k as int),
        decreases end.len() - k,
    {
        let ghost before = uf_roots(*uf);
        let other = index_of(maze, maze.end[k]);
        proof {
            reveal(end_joined);
        }
        uf_union(uf, first, other);
        proof {
            lemma_join_end_step(maze, before, uf_roots(*uf), k as int);
        }
        k += 1;
    }
    proof {
        lemma_joined_classes(maze, uf_roots(*uf));
    }
}

/// In a fresh structure the components are in order: every cell is one.
proof fn lemma_fresh_classes(maze: &Maze, roots: Seq<usize>)
    requires
        maze.wf(),
        maze.end@.len() == 0,
        roots.len() == maze.width * maze.height,
        forall|i: int| 0 <= i < roots.len() ==> #[trigger] roots[i] == i,
    ensures
        classes_ok(maze, roots, Seq::<Carve>::empty()),
{
    reveal(classes_ok);
    let w = maze.width as int;
    let h = maze.height as int;
    lemma_fresh_roots(roots);
    let links = carve_links(w, h, maze.end@, Seq::<Carve>::empty());
    assert forall|a: Coordinate, b: Coordinate|
        maze.contains(a) && maze.contains(b) && root_at(w, roots, a) == root_at(
            w,
            roots,
            b,
        ) implies #[trigger] reaches(links, a, b) by {
        lemma_cell_index(w, h, a);
        lemma_cell_index(w, h, b);
        assert(a == b);
        lemma_reaches_itself(links, a);
    }
}

/// Merging the next cell of the end region into the component of the first keeps
/// the rest of the cells apart.
proof fn lemma_join_end_step(maze: &Maze, before: Seq<usize>, after: Seq<usize>, k: int)
    requires
        maze.wf(),
        1 <= k < maze.end@.len(),
        end_joined(maze, before, k),
        merged_roots(
            before,
            after,
            cell_index(maze.width as int, maze.end@[0]),
            cell_index(maze.width as int, maze.end@[k]),
            after[cell_index(maze.width as int, maze.end@[0])],
        ),
    ensures
        end_joined(maze, after, k + 1),
{
    reveal(end_joined);
    let w = maze.width as int;
    let h = maze.height as int;
    let end = maze.end@;
    let a = cell_index(w, end[0]);
    let b = cell_index(w, end[k]);
    lemma_cell_index(w, h, end[0]);
    lemma_cell_index(w, h, end[k]);
    let winner = after[a];
    lemma_merged_roots(before, after, a, b, winner);
    let j0 = choose|j: int| 0 <= j < k && root_at(w, before, end[0]) == cell_index(w, #[trigger] end[j]);
    // The next cell is still a component of its own.
    assert(!end.take(k).contains(end[k])) by {
        let shorter = end.take(k);
        if shorter.contains(end[k]) {
            let j = choose|j: int| 0 <= j < shorter.len() && shorter[j] == end[k];
            assert(end[j] == end[k]);
        }
    }
    assert(maze.contains(end[k]));
    assert(before[b] == b);
    lemma_cell_index(w, h, end[j0]);
    assert(end[j0] != end[k]);
    assert(before[a] != before[b]);
    let jw: int = if winner == before[a] {
        j0
    } else {
        k
    };
    assert(0 <= jw < k + 1 && root_at(w, after, end[0]) == cell_index(w, end[jw]));
    assert forall|c: Coordinate| #[trigger] maze.contains(c) implies root_at(w, after, c) == (
    if end.take(k + 1).contains(c) {
        root_at(w, after, end[0])
    } else {
        cell_index(w, c) as usize
    }) by {
        lemma_cell_index(w, h, c);
        let i = cell_index(w, c);
        let shorter = end.take(k);
        let longer = end.take(k + 1);
        if shorter.contains(c) {
            let j = choose|j: int| 0 <= j < shorter.len() && shorter[j] == c;
            assert(longer[j] == c);
        } else if c == end[k] {
            assert(longer[k] == c);
        } else {
            if longer.contains(c) {
                let j = choose|j: int| 0 <= j < longer.len() && longer[j] == c;
                if j < k {
                    assert(shorter[j] == c);
                }
            }
            assert(before[i] == i);
            assert(shorter[j0] == end[j0]);
            assert(c != end[j0]);
            assert(i != before[a]);
        }
    }
}

/// Once the whole end region is one component and every other cell one of its own,
/// the components are in order.
proof fn lemma_joined_classes(maze: &Maze, roots: Seq<usize>)
    requires
        maze.wf(),
        maze.end@.len() > 0,
        end_joined(maze, roots, maze.end@.len() as int),
    ensures
        classes_ok(maze, roots, Seq::<Carve>::empty()),
{
    reveal(end_joined);
    reveal(classes_ok);
    let w = maze.width as int;
    let h = maze.height as int;
    let end = maze.end@;
    assert(end.take(end.len() as int) =~= end);
    let links = carve_links(w, h, end, Seq::<Carve>::empty());
    let j0 = choose|j: int|
        0 <= j < end.len() && root_at(w, roots, end[0]) == cell_index(w, #[trigger] end[j]);
    assert forall|a: Coordinate, b: Coordinate|
        maze.contains(a) && maze.contains(b) && root_at(w, roots, a) == root_at(
            w,
            roots,
            b,
        ) implies #[trigger] reaches(links, a, b) by {
        lemma_cell_index(w, h, a);
        lemma_cell_index(w, h, b);
        lemma_cell_index(w, h, end[j0]);
        if end.contains(a) && end.contains(b) {
            assert(links(a, b));
            lemma_link_reaches(links, a, b);
        } else if !end.contains(a) && !end.contains(b) {
            assert(a == b);
            lemma_reaches_itself(links, a);
        } else {
            let inner = if end.contains(a) {
                a
            } else {
                b
            };
            let outer = if end.contains(a) {
                b
            } else {
                a
            };
            assert(cell_index(w, outer) == cell_index(w, end[j0]));
            assert(outer == end[j0]);
            assert(false);
        }
    }
    assert forall|i: int, j: int| 0 <= i < end.len() && 0 <= j < end.len() implies root_at(
        w,
        roots,
        #[trigger] end[i],
    ) == root_at(w, roots, #[trigger] end[j]) by {
        assert(maze.contains(end[i]) && maze.contains(end[j]));
        assert(end.contains(end[i]) && end.contains(end[j]));
    }
}

/// Taking down a wall between two components keeps the components in order.
proof fn lemma_accept(maze: &Maze, before: Seq<usize>, after: Seq<usize>, carves: Seq<Carve>, edge: Carve)
    requires
        maze.wf(),
        classes_ok(maze, before, carves),
        carve_valid(maze.width as int, maze.height as int, edge),
        root_at(maze.width as int, before, edge.0) != root_at(
            maze.width as int,
            before,
            carve_target(edge),
        ),
        merged_roots(
            before,
            after,
            cell_index(maze.width as int, edge.0),
            cell_index(maze.width as int, carve_target(edge)),
            after[cell_index(maze.width as int, edge.0)],
        ),
    ensures
        classes_ok(maze, after, carves.push(edge)),
        forall|x: Coordinate, y: Coordinate|
            maze.contains(x) && maze.contains(y) && root_at(maze.width as int, before, x)
                == root_at(maze.width as int, before, y) ==> #[trigger] root_at(
                maze.width as int,
                after,
                x,
            ) == #[trigger] root_at(maze.width as int, after, y),
        root_at(maze.width as int, after, edge.0) == root_at(
            maze.width as int,
            after,
            carve_target(edge),
        ),
{
    reveal(classes_ok);
    let w = maze.width as int;
    let h = maze.height as int;
    let end = maze.end@;
    let from = edge.0;
    let to = carve_target(edge);
    let a = cell_index(w, from);
    let b = cell_index(w, to);
    lemma_cell_index(w, h, from);
    lemma_cell_index(w, h, to);
    let winner = after[a];
    lemma_merged_roots(before, after, a, b, winner);
    let longer = carves.push(edge);
    let links = carve_links(w, h, end, carves);
    let more = carve_links(w, h, end, longer);
    lemma_carve_links_grow(w, h, end, carves, edge);
    assert forall|x: Coordinate, y: Coordinate|
        maze.contains(x) && maze.contains(y) && root_at(w, before, x) == root_at(
            w,
            before,
            y,
        ) implies #[trigger] root_at(w, after, x) == #[trigger] root_at(w, after, y) by {
        lemma_cell_index(w, h, x);
        lemma_cell_index(w, h, y);
    }
    // The wall does not lie inside the end region, which is one component.
    if end.contains(from) && end.contains(to) {
        let i = choose|i: int| 0 <= i < end.len() && end[i] == from;
        let j = choose|j: int| 0 <= j < end.len() && end[j] == to;
        assert(root_at(w, before, end[i]) == root_at(w, before, end[j]));
    }
    assert(is_carve_list(w, h, end, longer)) by {
        assert forall|i: int| 0 <= i < longer.len() implies carve_valid(w, h, #[trigger] longer[i])
            && !(end.contains(longer[i].0) && end.contains(carve_target(longer[i]))) by {
            if i < carves.len() {
                assert(longer[i] == carves[i]);
            }
        }
        assert forall|i: int, j: int| 0 <= i < j < longer.len() implies edge_of(
            #[trigger] longer[i],
        ) != edge_of(#[trigger] longer[j]) by {
            assert(longer[i] == carves[i]);
            if j < carves.len() {
                assert(longer[j] == carves[j]);
            } else if edge_of(carves[i]) == edge_of(edge) {
                lemma_same_edge_same_cells(w, h, carves[i], edge);
                assert(root_at(w, before, carves[i].0) == root_at(w, before, carve_target(carves[i])));
            }
        }
    }
    assert forall|i: int| 0 <= i < longer.len() implies root_at(w, after, (#[trigger] longer[i]).0)
        == root_at(w, after, carve_target(longer[i])) by {
        if i < carves.len() {
            assert(longer[i] == carves[i]);
            assert(carve_valid(w, h, carves[i]));
            assert(root_at(w, before, carves[i].0) == root_at(w, before, carve_target(carves[i])));
            lemma_cell_index(w, h, carves[i].0);
            lemma_cell_index(w, h, carve_target(carves[i]));
        }
    }
    assert forall|x: Coordinate, y: Coordinate|
        maze.contains(x) && maze.contains(y) && root_at(w, after, x) == root_at(
            w,
            after,
            y,
        ) implies #[trigger] reaches(more, x, y) by {
        lemma_cell_index(w, h, x);
        lemma_cell_index(w, h, y);
        let rx = root_at(w, before, x);
        let ry = root_at(w, before, y);
        let ra = before[a];
        let rb = before[b];
        if rx == ry {
            assert(reaches(links, x, y));
            lemma_reaches_monotone(links, more, x, y);
        } else {
            // One of the two was in the component of one end of the wall, the other
            // in that of the other end.
            let near = if rx == ra {
                from
            } else {
                to
            };
            let far = if rx == ra {
                to
            } else {
                from
            };
            assert(root_at(w, before, x) == root_at(w, before, near));
            assert(root_at(w, before, far) == root_at(w, before, y));
            assert(reaches(links, x, near));
            assert(reaches(links, far, y));
            lemma_reaches_monotone(links, more, x, near);
            lemma_reaches_monotone(links, more, far, y);
            assert(more(near, far));
            lemma_link_reaches(more, near, far);
            lemma_reaches_transitive(more, x, near, far);
            lemma_reaches_transitive(more, x, far, y);
        }
    }
    assert forall|i: int, j: int| 0 <= i < end.len() && 0 <= j < end.len() implies root_at(
        w,
        after,
        #[trigger] end[i],
    ) == root_at(w, after, #[trigger] end[j]) by {
        assert(root_at(w, before, end[i]) == root_at(w, before, end[j]));
        assert(maze.contains(end[i]) && maze.contains(end[j]));
    }
}

/// Whatever becomes of a wall taken from the pool, as long as it ends up inside a
/// component or is a crossing refused because the door is in use, the walls stay in
/// order.
proof fn lemma_pool_step(
    maze: &Maze,
    roots: Seq<usize>,
    new_roots: Seq<usize>,
    pool: Seq<Carve>,
    new_pool: Seq<Carve>,
    door: Option<Carve>,
    new_door: Option<Carve>,
    carves: Seq<Carve>,
    new_carves: Seq<Carve>,
    edge: Carve,
)
    requires
        maze.wf(),
        pool_ok(maze, roots, pool, door, carves),
        pool.contains(edge),
        forall|e: Carve| pool.contains(e) && e != edge ==> new_pool.contains(e),
        forall|i: int| 0 <= i < new_pool.len() ==> pool.contains(#[trigger] new_pool[i]),
        forall|x: Coordinate, y: Coordinate|
            maze.contains(x) && maze.contains(y) && root_at(maze.width as int, roots, x)
                == root_at(maze.width as int, roots, y) ==> #[trigger] root_at(
                maze.width as int,
                new_roots,
                x,
            ) == #[trigger] root_at(maze.width as int, new_roots, y),
        root_at(maze.width as int, new_roots, edge.0) == root_at(
            maze.width as int,
            new_roots,
            carve_target(edge),
        ) || (crosses_end(maze.end@, edge) && door is Some),
        (new_carves == carves && new_door == door) || (new_carves == carves.push(edge) && root_at(
            maze.width as int,
            new_roots,
            edge.0,
        ) == root_at(maze.width as int, new_roots, carve_target(edge)) && (if crosses_end(
            maze.end@,
            edge,
        ) {
            door is None && new_door == Some(edge)
        } else {
            new_door == door
        })),
    ensures
        pool_ok(maze, new_roots, new_pool, new_door, new_carves),
{
    reveal(pool_ok);
    let w = maze.width as int;
    let h = maze.height as int;
    let end = maze.end@;
    let k = choose|k: int| 0 <= k < pool.len() && pool[k] == edge;
    assert(is_grid_edge(w, h, pool[k]));
    assert forall|i: int| 0 <= i < new_pool.len() implies is_grid_edge(w, h, #[trigger] new_pool[i]) by {
        let j = choose|j: int| 0 <= j < pool.len() && pool[j] == new_pool[i];
        assert(is_grid_edge(w, h, pool[j]));
    }
    assert forall|e: Carve| #[trigger] is_grid_edge(w, h, e) implies new_pool.contains(e) || root_at(
        w,
        new_roots,
        e.0,
    ) == root_at(w, new_roots, carve_target(e)) || (crosses_end(end, e) && new_door is Some) by {
        if e != edge {
            if !pool.contains(e) && !(crosses_end(end, e) && door is Some) {
                assert(root_at(w, roots, e.0) == root_at(w, roots, carve_target(e)));
                assert(maze.contains(e.0) && maze.contains(carve_target(e)));
            }
        }
    }
    if let Some(e) = door {
        assert(maze.contains(e.0) && maze.contains(carve_target(e)));
    }
    if new_carves != carves {
        assert(new_carves[carves.len() as int] == edge);
        if let Some(e) = door {
            let i = choose|i: int| 0 <= i < carves.len() && carves[i] == e;
            assert(new_carves[i] == e);
        }
        assert forall|i: int| 0 <= i < new_carves.len() implies is_grid_edge(
            w,
            h,
            #[trigger] new_carves[i],
        ) by {
            if i < carves.len() {
                assert(new_carves[i] == carves[i]);
            }
        }
        assert forall|i: int, j: int| 0 <= i < j < new_carves.len() implies !(crosses_end(
            end,
            #[trigger] new_carves[i],
        ) && crosses_end(end, #[trigger] new_carves[j])) by {
            assert(new_carves[i] == carves[i]);
            if j < carves.len() {
                assert(new_carves[j] == carves[j]);
            }
        }
        if new_door is None {
            assert forall|i: int| 0 <= i < new_carves.len() implies !crosses_end(
                end,
                #[trigger] new_carves[i],
            ) by {
                if i < carves.len() {
                    assert(new_carves[i] == carves[i]);
                }
            }
        }
    }
}

/// Once the pool is empty the carves are a spanning tree, provided the cells
/// outside the end region hang together.
proof fn lemma_pool_exhausted(maze: &Maze, roots: Seq<usize>, door: Option<Carve>, carves: Seq<Carve>)
    requires
        maze.wf(),
        classes_ok(maze, roots, carves),
        pool_ok(maze, roots, Seq::<Carve>::empty(), door, carves),
        outside_hangs_together(maze.width as int, maze.height as int, maze.end@),
    ensures
        is_spanning_tree(maze.width as int, maze.height as int, maze.end@, carves),
{
    reveal(classes_ok);
    reveal(pool_ok);
    let w = maze.width as int;
    let h = maze.height as int;
    let end = maze.end@;
    let none = Seq::<Carve>::empty();
    // Cells next to each other are in one component, unless the wall between them
    // is a crossing that was refused.
    assert forall|a: Coordinate, d: Direction|
        maze.contains(a) && inside(w, h, #[trigger] step(a, d, 1)) implies root_at(w, roots, a)
        == root_at(w, roots, carve_target((a, d))) || (crosses_end(end, (a, d))
        && door is Some) by {
        let e = edge_of((a, d));
        lemma_opposite_involution(d);
        assert(is_grid_edge(w, h, e));
        assert(!none.contains(e));
    }
    let origin: Coordinate = (0, 0);
    assert forall|c: Coordinate| #[trigger] maze.contains(c) implies root_at(w, roots, c)
        == root_at(w, roots, origin) by {
        lemma_same_component(maze, roots, door, c, origin);
    }
    assert forall|i: int, j: int| 0 <= i < roots.len() && 0 <= j < roots.len() implies roots[i]
        == roots[j] by {
        lemma_index_cell(w, h, i);
        lemma_index_cell(w, h, j);
        let ci: Coordinate = ((i % w) as usize, (i / w) as usize);
        let cj: Coordinate = ((j % w) as usize, (j / w) as usize);
        assert(maze.contains(ci));
        assert(maze.contains(cj));
        assert(root_at(w, roots, ci) == root_at(w, roots, origin));
        assert(root_at(w, roots, cj) == root_at(w, roots, origin));
    }
    assert(w * h >= 1) by (nonlinear_arith)
        requires
            w >= 1,
            h >= 1,
    ;
    lemma_one_set(roots);
    let all = Set::new(|c: Coordinate| inside(w, h, (c.0 as int, c.1 as int)));
    assert forall|a: Coordinate, b: Coordinate| all.contains(a) && all.contains(b) implies #[trigger] reaches(
        carve_links(w, h, end, carves),
        a,
        b,
    ) by {
        assert(maze.contains(a));
        assert(maze.contains(b));
        assert(root_at(w, roots, a) == root_at(w, roots, origin));
        assert(root_at(w, roots, b) == root_at(w, roots, origin));
    }
}

/// With the pool empty, any two cells are in one component, provided the cells
/// outside the end region hang together.
proof fn lemma_same_component(
    maze: &Maze,
    roots: Seq<usize>,
    door: Option<Carve>,
    a: Coordinate,
    b: Coordinate,
)
    requires
        maze.wf(),
        maze.contains(a),
        maze.contains(b),
        forall|i: int, j: int|
            0 <= i < maze.end@.len() && 0 <= j < maze.end@.len() ==> root_at(
                maze.width as int,
                roots,
                #[trigger] maze.end@[i],
            ) == root_at(maze.width as int, roots, #[trigger] maze.end@[j]),
        forall|c: Coordinate, d: Direction|
            maze.contains(c) && inside(
                maze.width as int,
                maze.height as int,
                #[trigger] step(c, d, 1),
            ) ==> root_at(maze.width as int, roots, c) == root_at(
                maze.width as int,
                roots,
                carve_target((c, d)),
            ) || (crosses_end(maze.end@, (c, d)) && door is Some),
        door matches Some(e) ==> carve_valid(maze.width as int, maze.height as int, e)
            && crosses_end(maze.end@, e) && root_at(maze.width as int, roots, e.0) == root_at(
            maze.width as int,
            roots,
            carve_target(e),
        ),
        outside_hangs_together(maze.width as int, maze.height as int, maze.end@),
    ensures
        root_at(maze.width as int, roots, a) == root_at(maze.width as int, roots, b),
{
    let w = maze.width as int;
    let h = maze.height as int;
    let end = maze.end@;
    match door {
        None => {
            let links = grid_links(w, h);
            let cells = Set::new(
                |c: Coordinate| maze.contains(c) && root_at(w, roots, c) == root_at(w, roots, a),
            );
            assert(is_closed(links, cells)) by {
                assert forall|x: Coordinate, y: Coordinate|
                    cells.contains(x) && #[trigger] links(x, y) implies cells.contains(y) by {
                    let d = choose|d: Direction|
                        inside(w, h, #[trigger] step(x, d, 1)) && carve_target((x, d)) == y;
                    assert(root_at(w, roots, x) == root_at(w, roots, carve_target((x, d))));
                }
            }
            lemma_grid_is_connected(links, w, h, cells, a, b);
        },
        Some(e) => {
            let inner = if end.contains(e.0) {
                e.0
            } else {
                carve_target(e)
            };
            let outer = if end.contains(e.0) {
                carve_target(e)
            } else {
                e.0
            };
            let links = outside_links(w, h, end);
            let cells = Set::new(
                |c: Coordinate|
                    maze.contains(c) && !end.contains(c) && root_at(w, roots, c) == root_at(
                        w,
                        roots,
                        outer,
                    ),
            );
            assert(is_closed(links, cells)) by {
                assert forall|x: Coordinate, y: Coordinate|
                    cells.contains(x) && #[trigger] links(x, y) implies cells.contains(y) by {
                    let d = choose|d: Direction|
                        inside(w, h, #[trigger] step(x, d, 1)) && carve_target((x, d)) == y;
                    assert(root_at(w, roots, x) == root_at(w, roots, carve_target((x, d)))
                        || crosses_end(end, (x, d)));
                }
            }
            assert(cells.contains(outer));
            let ia = choose|i: int| 0 <= i < end.len() && end[i] == inner;
            assert forall|c: Coordinate| maze.contains(c) implies root_at(w, roots, c) == root_at(
                w,
                roots,
                outer,
            ) by {
                if end.contains(c) {
                    let i = choose|i: int| 0 <= i < end.len() && end[i] == c;
                    assert(root_at(w, roots, end[i]) == root_at(w, roots, end[ia]));
                } else {
                    assert(reaches(links, outer, c));
                    assert(cells.contains(c));
                }
            }
        },
    }
}

/// Cells that the carves join are in one component.
proof fn lemma_joined_share_root(
    maze: &Maze,
    roots: Seq<usize>,
    carves: Seq<Carve>,
    a: Coordinate,
    b: Coordinate,
)
    requires
        maze.wf(),
        classes_ok(maze, roots, carves),
        maze.contains(a),
        reaches(carve_links(maze.width as int, maze.height as int, maze.end@, carves), a, b),
    ensures
        maze.contains(b),
        root_at(maze.width as int, roots, a) == root_at(maze.width as int, roots, b),
{
    reveal(classes_ok);
    let w = maze.width as int;
    let h = maze.height as int;
    let end = maze.end@;
    let links = carve_links(w, h, end, carves);
    let cells = Set::new(
        |c: Coordinate| maze.contains(c) && root_at(w, roots, c) == root_at(w, roots, a),
    );
    assert(is_closed(links, cells)) by {
        assert forall|x: Coordinate, y: Coordinate|
            cells.contains(x) && #[trigger] links(x, y) implies cells.contains(y) by {
            if end.contains(x) && end.contains(y) {
                let i = choose|i: int| 0 <= i < end.len() && end[i] == x;
                let j = choose|j: int| 0 <= j < end.len() && end[j] == y;
                assert(root_at(w, roots, end[i]) == root_at(w, roots, end[j]));
                assert(maze.contains(end[j]));
            } else {
                let i = choose|i: int|
                    0 <= i < carves.len() && carve_joins(w, h, #[trigger] carves[i], x, y);
                assert(root_at(w, roots, carves[i].0) == root_at(w, roots, carve_target(carves[i])));
            }
        }
    }
    assert(cells.contains(a));
    assert(cells.contains(b));
}

/// A carve between two cells that the carves so far do not join keeps a forest a
/// forest.
proof fn lemma_forest_grows(
    width: int,
    height: int,
    end: Seq<Coordinate>,
    carves: Seq<Carve>,
    edge: Carve,
)
    requires
        is_forest(width, height, end, carves),
        !reaches(carve_links(width, height, end, carves), edge.0, carve_target(edge)),
    ensures
        is_forest(width, height, end, carves.push(edge)),
{
    let longer = carves.push(edge);
    assert forall|i: int| 0 <= i < longer.len() implies !#[trigger] closes_cycle(
        width,
        height,
        end,
        longer,
        i,
    ) by {
        if i < carves.len() {
            assert(longer.take(i) =~= carves.take(i));
            assert(longer[i] == carves[i]);
            assert(!closes_cycle(width, height, end, carves, i));
        } else {
            assert(longer.take(i) =~= carves);
        }
    }
}

/// Once the pool is empty no wall is left that could come down.
proof fn lemma_pool_saturated(maze: &Maze, roots: Seq<usize>, door: Option<Carve>, carves: Seq<Carve>)
    requires
        maze.wf(),
        classes_ok(maze, roots, carves),
        pool_ok(maze, roots, Seq::<Carve>::empty(), door, carves),
    ensures
        is_saturated(maze.width as int, maze.height as int, maze.end@, carves),
        forall|i: int|
            0 <= i < carves.len() ==> is_grid_edge(
                maze.width as int,
                maze.height as int,
                #[trigger] carves[i],
            ),
{
    reveal(classes_ok);
    reveal(pool_ok);
    let w = maze.width as int;
    let h = maze.height as int;
    let end = maze.end@;
    let none = Seq::<Carve>::empty();
    assert forall|e: Carve| #[trigger] is_grid_edge(w, h, e) implies reaches(
        carve_links(w, h, end, carves),
        e.0,
        carve_target(e),
    ) || (crosses_end(end, e) && door_in_use(end, carves)) by {
        assert(!none.contains(e));
        assert(maze.contains(e.0) && maze.contains(carve_target(e)));
        if let Some(used) = door {
            let i = choose|i: int| 0 <= i < carves.len() && carves[i] == used;
            assert(crosses_end(end, carves[i]));
        }
    }
}

/// What holds of the carves that randomized Kruskal's algorithm gives: they name
/// each wall once and from its western or northern side, none inside the end region
/// and at most one across its border; they are a forest; and no wall is left that
/// could come down.
pub open spec fn is_kruzkals_maze(width: int, height: int, end: Seq<Coordinate>, carves: Seq<Carve>) -> bool {
    &&& is_carve_list(width, height, end, carves)
    &&& forall|i: int| 0 <= i < carves.len() ==> is_grid_edge(width, height, #[trigger] carves[i])
    &&& has_single_door(end, carves)
    &&& is_forest(width, height, end, carves)
    &&& is_saturated(width, height, end, carves)
}

/// The carves of a maze by randomized Kruskal's algorithm. The walls between the
/// cells of the grid form a pool; the end region is one component from the start;
/// again and again a wall is drawn from the pool at random, and comes down if it
/// stands between two components, which then are one. The end region has one door:
/// once a wall between it and the outside is down, every other such wall is left
/// standing.
///
/// The carves name each wall once and from its western or northern side, none
/// inside the end region, and at most one that crosses its border. They are a
/// forest, and no wall is left that could come down: every wall that stands has the
/// same component on both sides, or crosses the border of the end region, whose door
/// is in use. So they are a spanning tree of the grid, the end region taken as one
/// place, wherever the single door allows one: where the cells outside the end region
/// hang together.
pub fn random_kruzkals_maze(maze: &Maze, rng: StdRng) -> (walls_to_break: Vec<Carve>)
    requires
        maze.wf(),
    ensures
        is_carve_list(maze.width as int, maze.height as int, maze.end@, walls_to_break@),
        forall|i: int|
            0 <= i < walls_to_break@.len() ==> is_grid_edge(
                maze.width as int,
                maze.height as int,
                #[trigger] walls_to_break@[i],
            ),
        has_single_door(maze.end@, walls_to_break@),
        is_forest(maze.width as int, maze.height as int, maze.end@, walls_to_break@),
        is_saturated(maze.width as int, maze.height as int, maze.end@, walls_to_break@),
        outside_hangs_together(maze.width as int, maze.height as int, maze.end@)
            ==> is_spanning_tree(
            maze.width as int,
            maze.height as int,
            maze.end@,
            walls_to_break@,
        ),
{
    let mut rng = rng;
    let mut walls_to_break: Vec<Carve> = Vec::new();
    let mut union_find = uf_new(maze.width * maze.height);
    join_end(maze, &mut union_find);
    let mut edge_set = all_edges(maze);
    let mut door: Option<Carve> = None;
    proof {
        reveal(pool_ok);
        reveal(classes_ok);
    }
    while edge_set.len() > 0
        invariant
            maze.wf(),
            classes_ok(maze, uf_roots(union_find), walls_to_break@),
            pool_ok(maze, uf_roots(union_find), edge_set@, door, walls_to_break@),
            is_forest(maze.width as int, maze.height as int, maze.end@, walls_to_break@),
        decreases edge_set@.len(),
    {
        let ghost roots = uf_roots(union_find);
        let ghost pool = edge_set@;
        let ghost carves = walls_to_break@;
        let index = match choose_index(&mut rng, edge_set.len()) {
            Some(i) => i,
            None => 0,
        };
        let random_edge = edge_set.swap_remove(index);
        proof {
            reveal(pool_ok);
            reveal(classes_ok);
            assert(pool[index as int] == random_edge);
            assert(is_grid_edge(maze.width as int, maze.height as int, pool[index as int]));
            assert forall|e: Carve| pool.contains(e) && e != random_edge implies edge_set@.contains(
                e,
            ) by {
                let k = choose|k: int| 0 <= k < pool.len() && pool[k] == e;
                if k == pool.len() - 1 {
                    assert(edge_set@[index as int] == e);
                } else {
                    assert(edge_set@[k] == e);
                }
            }
            assert forall|i: int| 0 <= i < edge_set@.len() implies pool.contains(
                #[trigger] edge_set@[i],
            ) by {
                if i == index {
                    assert(pool[pool.len() - 1] == edge_set@[i]);
                } else {
                    assert(pool[i] == edge_set@[i]);
                }
            }
        }
        let new_cell = match maze.move_from(&random_edge.1, &random_edge.0, 1) {
            Ok(coordinates) => coordinates,
            Err(_) => random_edge.0,
        };
        let crossing = maze.is_end(random_edge.0) != maze.is_end(new_cell);
        if crossing && door.is_some() {
            proof {
                lemma_pool_step(
                    maze,
                    roots,
                    roots,
                    pool,
                    edge_set@,
                    door,
                    door,
                    carves,
                    carves,
                    random_edge,
                );
            }
            continue ;
        }
        let cell_union_set = index_of(maze, random_edge.0);
        let new_cell_union_set = index_of(maze, new_cell);
        let root = uf_find(&mut union_find, cell_union_set);
        let new_root = uf_find(&mut union_find, new_cell_union_set);
        if root == new_root {
            proof {
                lemma_pool_step(
                    maze,
                    roots,
                    roots,
                    pool,
                    edge_set@,
                    door,
                    door,
                    carves,
                    carves,
                    random_edge,
                );
            }
            continue ;
        }
        uf_union(&mut union_find, cell_union_set, new_cell_union_set);
        walls_to_break.push(random_edge);
        let ghost old_door = door;
        if crossing {
            door = Some(random_edge);
        }
        proof {
            if reaches(
                carve_links(maze.width as int, maze.height as int, maze.end@, carves),
                random_edge.0,
                carve_target(random_edge),
            ) {
                lemma_joined_share_root(
                    maze,
                    roots,
                    carves,
                    random_edge.0,
                    carve_target(random_edge),
                );
            }
            lemma_forest_grows(
                maze.width as int,
                maze.height as int,
                maze.end@,
                carves,
                random_edge,
            );
            lemma_accept(maze, roots, uf_roots(union_find), carves, random_edge);
            lemma_pool_step(
                maze,
                roots,
                uf_roots(union_find),
                pool,
                edge_set@,
                old_door,
                door,
                carves,
                walls_to_break@,
                random_edge,
            );
        }
    }
    proof {
        assert(edge_set@ =~= Seq::<Carve>::empty());
        lemma_pool_saturated(maze, uf_roots(union_find), door, walls_to_break@);
        if outside_hangs_together(maze.width as int, maze.height as int, maze.end@) {
            lemma_pool_exhausted(maze, uf_roots(union_find), door, walls_to_break@);
        }
        reveal(classes_ok);
        reveal(pool_ok);
    }
    walls_to_break
}

} // verus!
