//! Perfect mazes: what it means for a maze to be a spanning tree of its grid, and
//! that the carves of the generators make one.

use crate::connectivity::{
    adjacent, is_closed, is_symmetric, lemma_link_reaches, lemma_reaches_itself,
    lemma_reaches_monotone, lemma_reaches_refine, lemma_reaches_symmetric,
    lemma_reaches_transitive, reaches,
};
use crate::direction::{lemma_opposite_involution, Coordinate, Direction};
use crate::maze::{
    carve_opens, carve_target, carve_valid, carves_open, end_block, inside, is_grid_edge, step,
    Carve, Maze,
};
use crate::reachability::{maze_links, passage_links};
use crate::spanning::{
    carve_joins, carve_links, edge_of, is_spanning_tree, node_count, outside_hangs_together,
    outside_links,
};
use vstd::prelude::*;

verus! {

impl Maze {
    /// The open walls of the maze, each named from its western or northern side.
    /// Walls inside the end region do not count: the end region is one place.
    pub open spec fn open_edges(&self) -> Set<Carve> {
        Set::new(
            |e: Carve|
                is_grid_edge(self.width as int, self.height as int, e) && !self.wall(e.0, e.1)
                    && !(self.in_end(e.0) && self.in_end(carve_target(e))),
        )
    }

    /// Whether the maze is perfect: connected, with one open wall less than it has
    /// places, the end region taken as one place. There is then exactly one way
    /// between any two places.
    pub open spec fn is_perfect(&self) -> bool {
        &&& self.is_connected()
        &&& self.open_edges().finite()
        &&& self.open_edges().len() + 1 == node_count(
            self.width as int,
            self.height as int,
            self.end@,
        )
    }

    /// Whether every wall of the maze stands.
    pub open spec fn is_fully_walled(&self) -> bool {
        forall|c: Coordinate, d: Direction| self.contains(c) ==> #[trigger] self.wall(c, d)
    }

    /// Whether `carved` is this maze with the walls of `carves` taken down, and
    /// nothing else changed.
    pub open spec fn is_carved_to(&self, carved: &Maze, carves: Seq<Carve>) -> bool {
        &&& carved.wf()
        &&& carved.same_frame(self)
        &&& forall|c: Coordinate, d: Direction|
            carved.contains(c) ==> #[trigger] carved.wall(c, d) == (self.wall(c, d) && !carves_open(
                self.width as int,
                self.height as int,
                carves,
                c,
                d,
            ))
    }
}

/// A fully walled maze in which the carves of a spanning tree are made is perfect:
/// every cell can be reached from every other, and the open walls are one less than
/// the places, the end region taken as one place.
pub proof fn lemma_spanning_tree_carves_perfect_maze(walled: Maze, carved: Maze, carves: Seq<Carve>)
    requires
        walled.wf(),
        walled.is_fully_walled(),
        walled.is_carved_to(&carved, carves),
        is_spanning_tree(walled.width as int, walled.height as int, walled.end@, carves),
    ensures
        carved.is_perfect(),
{
    let w = walled.width as int;
    let h = walled.height as int;
    let end = walled.end@;
    let coarse = carve_links(w, h, end, carves);
    let fine = maze_links(carved);
    // Every link that the carves make is a link of the carved maze.
    assert forall|a: Coordinate, b: Coordinate| #[trigger] coarse(a, b) implies fine(a, b) by {
        if !(end.contains(a) && end.contains(b)) {
            let i = choose|i: int| 0 <= i < carves.len() && carve_joins(w, h, #[trigger] carves[i], a, b);
            let carve = carves[i];
            lemma_opposite_involution(carve.1);
            if carve.0 == a {
                assert(carve_opens(w, h, carves[i], a, carve.1));
                assert(!carved.wall(a, carve.1));
                assert(carved.spec_step(carve.1, a) == Some(b));
            } else {
                assert(carve_opens(w, h, carves[i], a, carve.1.opposite()));
                assert(!carved.wall(a, carve.1.opposite()));
                assert(carved.spec_step(carve.1.opposite(), a) == Some(b));
            }
        }
    }
    assert forall|a: Coordinate, b: Coordinate|
        carved.contains(a) && carved.contains(b) implies #[trigger] reaches(fine, a, b) by {
        assert(reaches(coarse, a, b));
        lemma_reaches_monotone(coarse, fine, a, b);
    }
    // The open walls of the carved maze are the walls that the carves name.
    let edges = Seq::new(carves.len(), |i: int| edge_of(carves[i]));
    assert(carved.open_edges() =~= edges.to_set()) by {
        assert forall|e: Carve| carved.open_edges().contains(e) implies edges.to_set().contains(
            e,
        ) by {
            assert(walled.wall(e.0, e.1));
            assert(carved.wall(e.0, e.1) == (walled.wall(e.0, e.1) && !carves_open(
                w,
                h,
                carves,
                e.0,
                e.1,
            )));
            let i = choose|i: int| 0 <= i < carves.len() && carve_opens(w, h, #[trigger] carves[i], e.0, e.1);
            lemma_opposite_involution(carves[i].1);
            assert(edges[i] == e);
        }
        assert forall|e: Carve| edges.to_set().contains(e) implies carved.open_edges().contains(
            e,
        ) by {
            let i = choose|i: int| 0 <= i < edges.len() && edges[i] == e;
            let carve = carves[i];
            lemma_opposite_involution(carve.1);
            assert(carve_valid(w, h, carve));
            assert(carve_opens(w, h, carves[i], e.0, e.1));
            assert(carved.wall(e.0, e.1) == (walled.wall(e.0, e.1) && !carves_open(
                w,
                h,
                carves,
                e.0,
                e.1,
            )));
        }
    }
    assert(edges.no_duplicates()) by {
        assert forall|i: int, j: int| 0 <= i < edges.len() && 0 <= j < edges.len() && i
            != j implies edges[i] != edges[j] by {
            if i < j {
                assert(edge_of(carves[i]) != edge_of(carves[j]));
            } else {
                assert(edge_of(carves[j]) != edge_of(carves[i]));
            }
        }
    }
    edges.unique_seq_to_set();
    vstd::seq_lib::seq_to_set_is_finite(edges);
}

/// Taking walls down keeps a connected maze connected: whatever could be reached
/// before can be reached after, and no cell is open towards fewer directions than
/// before. This holds of braiding in particular.
pub proof fn lemma_fewer_walls_keep_connected(before: Maze, after: Maze, removed: Seq<Carve>)
    requires
        before.wf(),
        before.is_carved_to(&after, removed),
    ensures
        forall|a: Coordinate, b: Coordinate|
            reaches(maze_links(before), a, b) ==> #[trigger] reaches(maze_links(after), a, b),
        before.is_connected() ==> after.is_connected(),
        forall|c: Coordinate|
            before.contains(c) ==> #[trigger] after.open_count_at(c) >= before.open_count_at(c),
{
    let coarse = maze_links(before);
    let fine = maze_links(after);
    assert forall|x: Coordinate, y: Coordinate| #[trigger] coarse(x, y) implies fine(x, y) by {
        if before.passage(x, y) {
            let d = choose|d: Direction| #[trigger] before.spec_step(d, x) == Some(y);
            assert(after.wall(x, d) == (before.wall(x, d) && !carves_open(
                before.width as int,
                before.height as int,
                removed,
                x,
                d,
            )));
            assert(after.spec_step(d, x) == Some(y));
        }
    }
    assert forall|a: Coordinate, b: Coordinate| reaches(coarse, a, b) implies #[trigger] reaches(
        fine,
        a,
        b,
    ) by {
        lemma_reaches_monotone(coarse, fine, a, b);
    }
    if before.is_connected() {
        assert forall|a: Coordinate, b: Coordinate|
            after.contains(a) && after.contains(b) implies #[trigger] reaches(fine, a, b) by {
            assert(reaches(coarse, a, b));
        }
    }
    assert forall|c: Coordinate| before.contains(c) implies #[trigger] after.open_count_at(c)
        >= before.open_count_at(c) by {
        assert(after.wall(c, Direction::North) ==> before.wall(c, Direction::North));
        assert(after.wall(c, Direction::East) ==> before.wall(c, Direction::East));
        assert(after.wall(c, Direction::South) ==> before.wall(c, Direction::South));
        assert(after.wall(c, Direction::West) ==> before.wall(c, Direction::West));
    }
}

/// Which cells an end block holds: the cells of the grid in the two columns and the
/// two rows that the block spans.
pub proof fn lemma_end_block_cells(width: int, height: int, center: Coordinate, c: Coordinate)
    ensures
        end_block(width, height, center).contains(c) <==> (inside(
            width,
            height,
            (c.0 as int, c.1 as int),
        ) && (c.0 == center.0 || c.0 == center.0 - 1) && (c.1 == center.1 || c.1 == center.1
            - 1)),
        end_block(width, height, center).no_duplicates(),
{
    let block = end_block(width, height, center);
    if block.contains(c) {
        let i = choose|i: int| 0 <= i < block.len() && block[i] == c;
    }
    if inside(width, height, (c.0 as int, c.1 as int)) && (c.0 == center.0 || c.0 == center.0
        - 1) && (c.1 == center.1 || c.1 == center.1 - 1) {
        let c0 = inside(width, height, (center.0 as int, center.1 as int));
        let c1 = inside(width, height, (center.0 - 1, center.1 as int));
        let c2 = inside(width, height, (center.0 as int, center.1 - 1));
        let n0: int = if c0 {
            1
        } else {
            0
        };
        let n1: int = if c1 {
            1
        } else {
            0
        };
        let n2: int = if c2 {
            1
        } else {
            0
        };
        let k: int = if c.0 == center.0 && c.1 == center.1 {
            0
        } else if c.1 == center.1 {
            n0
        } else if c.0 == center.0 {
            n0 + n1
        } else {
            n0 + n1 + n2
        };
        assert(block[k] == c);
    }
}

/// Opening the end region up leaves a connected maze connected without its help:
/// where the end region is a block, as [`Maze::set_end`] makes it, and every cell
/// can be reached from every other with the end region taken as one place, then
/// after [`Maze::break_end_walls`] every cell can be reached from every other through
/// open walls alone.
pub proof fn lemma_open_end_keeps_connected(before: Maze, after: Maze, center: Coordinate)
    requires
        before.wf(),
        after.wf(),
        after.same_frame(&before),
        before.end@ == end_block(before.width as int, before.height as int, center),
        before.is_connected(),
        forall|c: Coordinate, d: Direction|
            after.contains(c) ==> #[trigger] after.wall(c, d) == (before.wall(c, d)
                && !before.end_joins(c, d)),
    ensures
        forall|a: Coordinate, b: Coordinate|
            after.contains(a) && after.contains(b) ==> #[trigger] reaches(
                passage_links(after),
                a,
                b,
            ),
{
    let w = before.width as int;
    let h = before.height as int;
    let end = before.end@;
    let coarse = maze_links(before);
    let fine = passage_links(after);
    assert forall|x: Coordinate, y: Coordinate| #[trigger] coarse(x, y) implies reaches(fine, x, y) by {
        if before.passage(x, y) {
            let d = choose|d: Direction| #[trigger] before.spec_step(d, x) == Some(y);
            assert(after.spec_step(d, x) == Some(y));
            assert(fine(x, y));
            lemma_link_reaches(fine, x, y);
        } else {
            lemma_end_block_cells(w, h, center, x);
            lemma_end_block_cells(w, h, center, y);
            // The cell in the column of `x` and the row of `y` belongs to the block,
            // and lies next to both or is one of them.
            let z: Coordinate = (x.0, y.1);
            lemma_end_block_cells(w, h, center, z);
            lemma_block_neighbours(before, after, center, x, z);
            lemma_block_neighbours(before, after, center, z, y);
            lemma_reaches_transitive(fine, x, z, y);
        }
    }
    assert forall|a: Coordinate, b: Coordinate|
        after.contains(a) && after.contains(b) implies #[trigger] reaches(fine, a, b) by {
        assert(reaches(coarse, a, b));
        lemma_reaches_refine(coarse, fine, a, b);
    }
}

/// Two cells of the end block that share a row or a column are the same cell or
/// joined by a passage once the end region is opened up.
proof fn lemma_block_neighbours(before: Maze, after: Maze, center: Coordinate, x: Coordinate, y: Coordinate)
    requires
        before.wf(),
        after.wf(),
        after.same_frame(&before),
        before.end@ == end_block(before.width as int, before.height as int, center),
        before.in_end(x),
        before.in_end(y),
        x.0 == y.0 || x.1 == y.1,
        forall|c: Coordinate, d: Direction|
            after.contains(c) ==> #[trigger] after.wall(c, d) == (before.wall(c, d)
                && !before.end_joins(c, d)),
    ensures
        reaches(passage_links(after), x, y),
{
    let w = before.width as int;
    let h = before.height as int;
    let fine = passage_links(after);
    lemma_end_block_cells(w, h, center, x);
    lemma_end_block_cells(w, h, center, y);
    if x == y {
        lemma_reaches_itself(fine, x);
    } else {
        let d = if x.0 == y.0 {
            if y.1 > x.1 {
                Direction::South
            } else {
                Direction::North
            }
        } else {
            if y.0 > x.0 {
                Direction::East
            } else {
                Direction::West
            }
        };
        assert(carve_target((x, d)) == y);
        assert(before.end_joins(x, d));
        assert(!after.wall(x, d));
        assert(after.spec_step(d, x) == Some(y));
        assert(fine(x, y));
        lemma_link_reaches(fine, x, y);
    }
}

/// Without an end region the cells outside it hang together: they are the grid.
pub proof fn lemma_grid_without_end_hangs_together(width: int, height: int)
    requires
        width <= usize::MAX,
        height <= usize::MAX,
    ensures
        outside_hangs_together(width, height, Seq::<Coordinate>::empty()),
{
    let end = Seq::<Coordinate>::empty();
    let links = outside_links(width, height, end);
    assert forall|a: Coordinate, b: Coordinate|
        inside(width, height, (a.0 as int, a.1 as int)) && inside(
            width,
            height,
            (b.0 as int, b.1 as int),
        ) && !end.contains(a) && !end.contains(b) implies #[trigger] reaches(links, a, b) by {
        assert forall|cells: Set<Coordinate>| #[trigger]
            is_closed(links, cells) && cells.contains(a) implies cells.contains(b) by {
            crate::connectivity::lemma_grid_is_connected(links, width, height, cells, a, b);
        }
    }
}

/// Along a straight run of cells outside the end region, the far end is reached
/// from the near end.
proof fn lemma_outside_run(
    width: int,
    height: int,
    end: Seq<Coordinate>,
    from: Coordinate,
    d: Direction,
    k: int,
)
    requires
        0 <= k,
        width <= usize::MAX,
        height <= usize::MAX,
        forall|i: int|
            0 <= i <= k ==> inside(width, height, #[trigger] step(from, d, i)) && !end.contains(
                ((step(from, d, i).0) as usize, (step(from, d, i).1) as usize),
            ),
    ensures
        reaches(
            outside_links(width, height, end),
            from,
            ((step(from, d, k).0) as usize, (step(from, d, k).1) as usize),
        ),
    decreases k,
{
    let links = outside_links(width, height, end);
    if k == 0 {
        assert(inside(width, height, step(from, d, 0)));
        lemma_reaches_itself(links, from);
    } else {
        lemma_outside_run(width, height, end, from, d, k - 1);
        let p = step(from, d, k - 1);
        let q = step(from, d, k);
        assert(inside(width, height, p) && inside(width, height, q));
        let near: Coordinate = (p.0 as usize, p.1 as usize);
        let far: Coordinate = (q.0 as usize, q.1 as usize);
        assert(step(near, d, 1) == q);
        assert(adjacent(width, height, near, far));
        assert(links(near, far));
        lemma_link_reaches(links, near, far);
        lemma_reaches_transitive(links, from, near, far);
    }
}

/// Every cell outside an end block that touches no rim of the grid reaches the
/// north-west corner of the grid without entering the block.
proof fn lemma_reaches_corner(width: int, height: int, center: Coordinate, c: Coordinate)
    requires
        2 <= center.0 <= width - 2,
        2 <= center.1 <= height - 2,
        width <= usize::MAX,
        height <= usize::MAX,
        inside(width, height, (c.0 as int, c.1 as int)),
        !end_block(width, height, center).contains(c),
    ensures
        reaches(outside_links(width, height, end_block(width, height, center)), c, (0usize, 0usize)),
{
    let end = end_block(width, height, center);
    let links = outside_links(width, height, end);
    let origin: Coordinate = (0, 0);
    assert forall|x: Coordinate| end.contains(x) <==> (inside(width, height, (x.0 as int, x.1 as int))
        && (x.0 == center.0 || x.0 == center.0 - 1) && (x.1 == center.1 || x.1 == center.1
        - 1)) by {
        lemma_end_block_cells(width, height, center, x);
    }
    let in_rows = c.1 == center.1 || c.1 == center.1 - 1;
    if !in_rows || c.0 < center.0 - 1 {
        // West along the row, then north along the western rim.
        let rim: Coordinate = (0, c.1);
        lemma_outside_run(width, height, end, c, Direction::West, c.0 as int);
        lemma_outside_run(width, height, end, rim, Direction::North, c.1 as int);
        lemma_reaches_transitive(links, c, rim, origin);
    } else {
        // East along the row, north along the eastern rim, west along the northern.
        let east: Coordinate = ((width - 1) as usize, c.1);
        let corner: Coordinate = ((width - 1) as usize, 0);
        lemma_outside_run(width, height, end, c, Direction::East, width - 1 - c.0);
        lemma_outside_run(width, height, end, east, Direction::North, c.1 as int);
        lemma_outside_run(width, height, end, corner, Direction::West, width - 1);
        lemma_reaches_transitive(links, c, east, corner);
        lemma_reaches_transitive(links, c, corner, origin);
    }
}

/// Around an end block that touches no rim of the grid the cells outside hang
/// together. The block of [`Maze::init_maze`] is such a block on every grid of at
/// least four columns and four rows.
pub proof fn lemma_inner_block_hangs_together(width: int, height: int, center: Coordinate)
    requires
        2 <= center.0 <= width - 2,
        2 <= center.1 <= height - 2,
        width <= usize::MAX,
        height <= usize::MAX,
    ensures
        outside_hangs_together(width, height, end_block(width, height, center)),
{
    let end = end_block(width, height, center);
    let links = outside_links(width, height, end);
    let origin: Coordinate = (0, 0);
    assert(is_symmetric(links)) by {
        assert forall|a: Coordinate, b: Coordinate| #[trigger] links(a, b) implies links(b, a) by {
            let d = choose|d: Direction|
                inside(width, height, #[trigger] step(a, d, 1)) && carve_target((a, d)) == b;
            lemma_opposite_involution(d);
            assert(inside(width, height, step(b, d.opposite(), 1)) && carve_target(
                (b, d.opposite()),
            ) == a);
        }
    }
    assert forall|a: Coordinate, b: Coordinate|
        inside(width, height, (a.0 as int, a.1 as int)) && inside(
            width,
            height,
            (b.0 as int, b.1 as int),
        ) && !end.contains(a) && !end.contains(b) implies #[trigger] reaches(links, a, b) by {
        lemma_reaches_corner(width, height, center, a);
        lemma_reaches_corner(width, height, center, b);
        lemma_reaches_symmetric(links, b, origin);
        lemma_reaches_transitive(links, a, origin, b);
    }
}

/// On a grid of at least four columns and four rows the end block around the
/// middle, as [`Maze::init_maze`] makes it, touches no rim, so the cells outside it
/// hang together and every generator gives a spanning tree.
pub proof fn lemma_middle_block_hangs_together(width: usize, height: usize)
    requires
        width >= 4,
        height >= 4,
    ensures
        outside_hangs_together(
            width as int,
            height as int,
            end_block(width as int, height as int, (width / 2, height / 2)),
        ),
{
    lemma_inner_block_hangs_together(width as int, height as int, (width / 2, height / 2));
}

} // verus!
