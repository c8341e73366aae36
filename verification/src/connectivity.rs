//! Which cells of a grid are connected, for any way of linking cells: the cells
//! connected to a cell are those that every set holds which holds the cell and is
//! closed under the links.

use crate::direction::{Coordinate, Direction};
use crate::maze::{carve_target, inside, step};
use vstd::prelude::*;

verus! {

/// A way of linking cells: whether the first cell is linked to the second.
pub type Links = spec_fn(Coordinate, Coordinate) -> bool;

/// Whether `cells` holds, with each of its cells, every cell that the cell is linked
/// to.
pub open spec fn is_closed(links: Links, cells: Set<Coordinate>) -> bool {
    forall|a: Coordinate, b: Coordinate| cells.contains(a) && #[trigger] links(a, b) ==> cells.contains(b)
}

/// Whether `b` can be reached from `a` along the links: it belongs to every closed
/// set that `a` belongs to.
pub open spec fn reaches(links: Links, a: Coordinate, b: Coordinate) -> bool {
    forall|cells: Set<Coordinate>| #[trigger] is_closed(links, cells) && cells.contains(a) ==> cells.contains(b)
}

/// Whether every link has its reverse.
pub open spec fn is_symmetric(links: Links) -> bool {
    forall|a: Coordinate, b: Coordinate| #[trigger] links(a, b) ==> links(b, a)
}

/// Whether `b` lies on the grid next to `a`.
pub open spec fn adjacent(width: int, height: int, a: Coordinate, b: Coordinate) -> bool {
    &&& inside(width, height, (a.0 as int, a.1 as int))
    &&& exists|d: Direction|
        inside(width, height, #[trigger] step(a, d, 1)) && carve_target((a, d)) == b
}

/// Every cell reaches itself.
pub proof fn lemma_reaches_itself(links: Links, a: Coordinate)
    ensures
        reaches(links, a, a),
{
}

/// A cell reaches what it is linked to.
pub proof fn lemma_link_reaches(links: Links, a: Coordinate, b: Coordinate)
    requires
        links(a, b),
    ensures
        reaches(links, a, b),
{
}

/// What is reached from a cell that is reached is reached.
pub proof fn lemma_reaches_transitive(links: Links, a: Coordinate, b: Coordinate, c: Coordinate)
    requires
        reaches(links, a, b),
        reaches(links, b, c),
    ensures
        reaches(links, a, c),
{
    assert forall|cells: Set<Coordinate>| #[trigger]
        is_closed(links, cells) && cells.contains(a) implies cells.contains(c) by {
        assert(cells.contains(b));
    }
}

/// With more links, nothing that was reached is lost.
pub proof fn lemma_reaches_monotone(fewer: Links, more: Links, a: Coordinate, b: Coordinate)
    requires
        forall|x: Coordinate, y: Coordinate| #[trigger] fewer(x, y) ==> more(x, y),
        reaches(fewer, a, b),
    ensures
        reaches(more, a, b),
{
    assert forall|cells: Set<Coordinate>| #[trigger]
        is_closed(more, cells) && cells.contains(a) implies cells.contains(b) by {
        assert(is_closed(fewer, cells));
    }
}

/// Where every link of one kind is a way along links of another kind, what is
/// reached along the first kind is reached along the second.
pub proof fn lemma_reaches_refine(coarse: Links, fine: Links, a: Coordinate, b: Coordinate)
    requires
        forall|x: Coordinate, y: Coordinate| #[trigger] coarse(x, y) ==> reaches(fine, x, y),
        reaches(coarse, a, b),
    ensures
        reaches(fine, a, b),
{
    assert forall|cells: Set<Coordinate>| #[trigger]
        is_closed(fine, cells) && cells.contains(a) implies cells.contains(b) by {
        assert(is_closed(coarse, cells)) by {
            assert forall|x: Coordinate, y: Coordinate|
                cells.contains(x) && #[trigger] coarse(x, y) implies cells.contains(y) by {
                assert(reaches(fine, x, y));
            }
        }
    }
}

/// Where every link has its reverse, what reaches a cell is reached from it.
pub proof fn lemma_reaches_symmetric(links: Links, a: Coordinate, b: Coordinate)
    requires
        is_symmetric(links),
        reaches(links, a, b),
    ensures
        reaches(links, b, a),
{
    let back = Set::new(|x: Coordinate| reaches(links, a, x) && reaches(links, x, a));
    assert(is_closed(links, back)) by {
        assert forall|x: Coordinate, y: Coordinate| back.contains(x) && #[trigger] links(
            x,
            y,
        ) implies back.contains(y) by {
            lemma_link_reaches(links, x, y);
            lemma_reaches_transitive(links, a, x, y);
            assert(links(y, x));
            lemma_link_reaches(links, y, x);
            lemma_reaches_transitive(links, y, x, a);
        }
    }
    lemma_reaches_itself(links, a);
    assert(back.contains(a));
    assert(back.contains(b));
}

/// A closed set that holds a cell holds every cell of the cell's row, where cells
/// next to each other on the grid are linked.
proof fn lemma_closed_holds_row(
    links: Links,
    width: int,
    height: int,
    cells: Set<Coordinate>,
    a: Coordinate,
    x: int,
)
    requires
        forall|p: Coordinate, q: Coordinate| adjacent(width, height, p, q) ==> #[trigger] links(p, q),
        is_closed(links, cells),
        cells.contains(a),
        inside(width, height, (a.0 as int, a.1 as int)),
        0 <= x < width <= usize::MAX,
    ensures
        cells.contains((x as usize, a.1)),
    decreases
            (if x >= a.0 {
                x - a.0
            } else {
                a.0 - x
            }),
{
    if x > a.0 {
        lemma_closed_holds_row(links, width, height, cells, a, x - 1);
        let p: Coordinate = ((x - 1) as usize, a.1);
        let q: Coordinate = (x as usize, a.1);
        assert(step(p, Direction::East, 1) == (x, a.1 as int));
        assert(adjacent(width, height, p, q));
        assert(links(p, q));
    } else if x < a.0 {
        lemma_closed_holds_row(links, width, height, cells, a, x + 1);
        let p: Coordinate = ((x + 1) as usize, a.1);
        let q: Coordinate = (x as usize, a.1);
        assert(step(p, Direction::West, 1) == (x, a.1 as int));
        assert(adjacent(width, height, p, q));
        assert(links(p, q));
    }
}

/// A closed set that holds a cell holds every cell of the cell's column, where cells
/// next to each other on the grid are linked.
proof fn lemma_closed_holds_column(
    links: Links,
    width: int,
    height: int,
    cells: Set<Coordinate>,
    a: Coordinate,
    y: int,
)
    requires
        forall|p: Coordinate, q: Coordinate| adjacent(width, height, p, q) ==> #[trigger] links(p, q),
        is_closed(links, cells),
        cells.contains(a),
        inside(width, height, (a.0 as int, a.1 as int)),
        0 <= y < height <= usize::MAX,
    ensures
        cells.contains((a.0, y as usize)),
    decreases
            (if y >= a.1 {
                y - a.1
            } else {
                a.1 - y
            }),
{
    if y > a.1 {
        lemma_closed_holds_column(links, width, height, cells, a, y - 1);
        let p: Coordinate = (a.0, (y - 1) as usize);
        let q: Coordinate = (a.0, y as usize);
        assert(step(p, Direction::South, 1) == (a.0 as int, y));
        assert(adjacent(width, height, p, q));
        assert(links(p, q));
    } else if y < a.1 {
        lemma_closed_holds_column(links, width, height, cells, a, y + 1);
        let p: Coordinate = (a.0, (y + 1) as usize);
        let q: Coordinate = (a.0, y as usize);
        assert(step(p, Direction::North, 1) == (a.0 as int, y));
        assert(adjacent(width, height, p, q));
        assert(links(p, q));
    }
}

/// A grid hangs together: where cells next to each other are linked, a closed set
/// that holds one cell of the grid holds them all.
pub proof fn lemma_grid_is_connected(
    links: Links,
    width: int,
    height: int,
    cells: Set<Coordinate>,
    a: Coordinate,
    b: Coordinate,
)
    requires
        forall|p: Coordinate, q: Coordinate| adjacent(width, height, p, q) ==> #[trigger] links(p, q),
        is_closed(links, cells),
        cells.contains(a),
        inside(width, height, (a.0 as int, a.1 as int)),
        inside(width, height, (b.0 as int, b.1 as int)),
        width <= usize::MAX,
        height <= usize::MAX,
    ensures
        cells.contains(b),
{
    lemma_closed_holds_row(links, width, height, cells, a, b.0 as int);
    lemma_closed_holds_column(links, width, height, cells, (b.0, a.1), b.1 as int);
}

} // verus!
