//! What it means for a list of carves to be a spanning tree of the grid, the end
//! region taken as one node.

use crate::connectivity::{
    adjacent, is_symmetric, lemma_reaches_symmetric, lemma_reaches_transitive, reaches, Links,
};
use crate::direction::{lemma_opposite_involution, Coordinate, Direction};
use crate::maze::{carve_target, carve_valid, inside, is_grid_edge, step, Carve};
use vstd::prelude::*;

verus! {

/// Whether `carve` takes down the wall between `a` and `b`.
pub open spec fn carve_joins(width: int, height: int, carve: Carve, a: Coordinate, b: Coordinate) -> bool {
    &&& carve_valid(width, height, carve)
    &&& (carve.0 == a && carve_target(carve) == b) || (carve.0 == b && carve_target(carve) == a)
}

/// Whether `a` and `b` hang together directly once `carves` are made: a carve takes
/// down the wall between them, or both belong to the end region.
pub open spec fn carved_together(
    width: int,
    height: int,
    end: Seq<Coordinate>,
    carves: Seq<Carve>,
    a: Coordinate,
    b: Coordinate,
) -> bool {
    ||| end.contains(a) && end.contains(b)
    ||| exists|i: int| 0 <= i < carves.len() && carve_joins(width, height, #[trigger] carves[i], a, b)
}

/// The links that `carves` make on a fully walled grid, the end region taken as one
/// place.
pub open spec fn carve_links(width: int, height: int, end: Seq<Coordinate>, carves: Seq<Carve>) -> Links {
    |a: Coordinate, b: Coordinate| carved_together(width, height, end, carves, a, b)
}

/// The number of places of the grid when the end region counts as one.
pub open spec fn node_count(width: int, height: int, end: Seq<Coordinate>) -> int {
    if end.len() == 0 {
        width * height
    } else {
        width * height - end.len() + 1
    }
}

/// The wall that `carve` takes down, named from its western or northern side.
pub open spec fn edge_of(carve: Carve) -> Carve {
    match carve.1 {
        Direction::East => carve,
        Direction::South => carve,
        Direction::North => (carve_target(carve), Direction::South),
        Direction::West => (carve_target(carve), Direction::East),
    }
}

/// Whether `carve` leads from the end region to the outside or the other way round.
pub open spec fn crosses_end(end: Seq<Coordinate>, carve: Carve) -> bool {
    end.contains(carve.0) != end.contains(carve_target(carve))
}

/// Whether `carves` are a tree on the cells `covered`: every carve takes down a wall
/// of the grid that does not lie inside the end region, no wall is named twice, there
/// is one carve less than there are places covered, and every covered cell can be
/// reached from every other along the carves.
pub open spec fn is_tree_on(
    width: int,
    height: int,
    end: Seq<Coordinate>,
    carves: Seq<Carve>,
    covered: Set<Coordinate>,
    covered_places: int,
) -> bool {
    &&& forall|i: int|
        0 <= i < carves.len() ==> carve_valid(width, height, #[trigger] carves[i]) && !(
        end.contains(carves[i].0) && end.contains(carve_target(carves[i])))
    &&& forall|i: int, j: int|
        0 <= i < j < carves.len() ==> edge_of(#[trigger] carves[i]) != edge_of(#[trigger] carves[j])
    &&& carves.len() + 1 == covered_places
    &&& forall|a: Coordinate, b: Coordinate|
        covered.contains(a) && covered.contains(b) ==> #[trigger] reaches(
            carve_links(width, height, end, carves),
            a,
            b,
        )
}

/// Whether `carves` are a spanning tree of the grid with the end region taken as one
/// place: a tree on all cells.
pub open spec fn is_spanning_tree(width: int, height: int, end: Seq<Coordinate>, carves: Seq<Carve>) -> bool {
    is_tree_on(
        width,
        height,
        end,
        carves,
        Set::new(|c: Coordinate| inside(width, height, (c.0 as int, c.1 as int))),
        node_count(width, height, end),
    )
}

/// Whether at most one of `carves` leads into or out of the end region.
pub open spec fn has_single_door(end: Seq<Coordinate>, carves: Seq<Carve>) -> bool {
    forall|i: int, j: int|
        0 <= i < j < carves.len() ==> !(crosses_end(end, #[trigger] carves[i]) && crosses_end(
            end,
            #[trigger] carves[j],
        ))
}

/// The links between cells next to each other on the grid that both lie outside
/// the end region.
pub open spec fn outside_links(width: int, height: int, end: Seq<Coordinate>) -> Links {
    |a: Coordinate, b: Coordinate| adjacent(width, height, a, b) && !end.contains(a) && !end.contains(b)
}

/// The links between cells next to each other on the grid.
pub open spec fn grid_links(width: int, height: int) -> Links {
    |a: Coordinate, b: Coordinate| adjacent(width, height, a, b)
}

/// Whether the cells outside the end region hang together without it: each can be
/// reached from each by steps across the grid that stay outside. An end region that
/// cuts the grid in two, as a block does that spans a grid two cells wide, leaves no
/// spanning tree with a single door.
pub open spec fn outside_hangs_together(width: int, height: int, end: Seq<Coordinate>) -> bool {
    forall|a: Coordinate, b: Coordinate|
        inside(width, height, (a.0 as int, a.1 as int)) && inside(
            width,
            height,
            (b.0 as int, b.1 as int),
        ) && !end.contains(a) && !end.contains(b) ==> #[trigger] reaches(
            outside_links(width, height, end),
            a,
            b,
        )
}

/// Whether every carve takes down a wall of the grid that does not lie inside the
/// end region, and no wall is named twice.
pub open spec fn is_carve_list(width: int, height: int, end: Seq<Coordinate>, carves: Seq<Carve>) -> bool {
    &&& forall|i: int|
        0 <= i < carves.len() ==> carve_valid(width, height, #[trigger] carves[i]) && !(
        end.contains(carves[i].0) && end.contains(carve_target(carves[i])))
    &&& forall|i: int, j: int|
        0 <= i < j < carves.len() ==> edge_of(#[trigger] carves[i]) != edge_of(#[trigger] carves[j])
}

/// Whether the carve at `i` joins two cells that the carves before it join already,
/// the end region taken as one place.
pub open spec fn closes_cycle(
    width: int,
    height: int,
    end: Seq<Coordinate>,
    carves: Seq<Carve>,
    i: int,
) -> bool {
    reaches(
        carve_links(width, height, end, carves.take(i)),
        carves[i].0,
        carve_target(carves[i]),
    )
}

/// Whether `carves` are a forest: no carve joins two cells that the carves before it
/// join already, so the carves open no way round.
pub open spec fn is_forest(width: int, height: int, end: Seq<Coordinate>, carves: Seq<Carve>) -> bool {
    forall|i: int| 0 <= i < carves.len() ==> !#[trigger] closes_cycle(width, height, end, carves, i)
}

/// Whether some carve leads into or out of the end region.
pub open spec fn door_in_use(end: Seq<Coordinate>, carves: Seq<Carve>) -> bool {
    exists|i: int| 0 <= i < carves.len() && crosses_end(end, #[trigger] carves[i])
}

/// Whether no wall is left that could come down: every wall of the grid stands
/// between two cells that the carves join, or crosses the border of the end region
/// while the door of the end region is in use.
pub open spec fn is_saturated(width: int, height: int, end: Seq<Coordinate>, carves: Seq<Carve>) -> bool {
    forall|e: Carve| #[trigger]
        is_grid_edge(width, height, e) ==> reaches(
            carve_links(width, height, end, carves),
            e.0,
            carve_target(e),
        ) || (crosses_end(end, e) && door_in_use(end, carves))
}

/// Whether two cells are one place: the same cell, or both of the end region.
pub open spec fn shares_place(end: Seq<Coordinate>, a: Coordinate, b: Coordinate) -> bool {
    a == b || (end.contains(a) && end.contains(b))
}

/// The end of `carve` that a growing tree does not cover yet when the carve is made:
/// the cell where it starts with `fresh_source`, else the cell where it ends.
pub open spec fn fresh_end(carve: Carve, fresh_source: bool) -> Coordinate {
    if fresh_source {
        carve.0
    } else {
        carve_target(carve)
    }
}

/// The other end of `carve`, which the growing tree covers already.
pub open spec fn known_end(carve: Carve, fresh_source: bool) -> Coordinate {
    if fresh_source {
        carve_target(carve)
    } else {
        carve.0
    }
}

/// Whether `cell` hangs on the tree that the first `n` carves make from `root`: it
/// is one place with the root, or with the fresh end of one of these carves.
pub open spec fn hangs_on(
    end: Seq<Coordinate>,
    carves: Seq<Carve>,
    fresh_source: bool,
    root: Coordinate,
    cell: Coordinate,
    n: int,
) -> bool {
    shares_place(end, root, cell) || exists|j: int|
        0 <= j < n && shares_place(end, fresh_end(#[trigger] carves[j], fresh_source), cell)
}

/// Whether the carve at `i` lets the tree grow by one place: its known end hangs on
/// the tree that the carves before it make, and its fresh end does not.
pub open spec fn grows_at(
    end: Seq<Coordinate>,
    carves: Seq<Carve>,
    fresh_source: bool,
    root: Coordinate,
    i: int,
) -> bool {
    &&& hangs_on(end, carves, fresh_source, root, known_end(carves[i], fresh_source), i)
    &&& !hangs_on(end, carves, fresh_source, root, fresh_end(carves[i], fresh_source), i)
}

/// Whether `carves`, in their order, grow a tree from `root`: each carve joins a
/// place that the tree has (the place of the root, or one that an earlier carve
/// brought) to a place that it has not. With `fresh_source` a carve starts at the new
/// place and leads towards the root; without, it starts on the tree and leads away
/// from the root.
pub open spec fn grows_from(
    width: int,
    height: int,
    end: Seq<Coordinate>,
    carves: Seq<Carve>,
    fresh_source: bool,
    root: Coordinate,
) -> bool {
    &&& inside(width, height, (root.0 as int, root.1 as int))
    &&& forall|i: int|
        0 <= i < carves.len() ==> #[trigger] grows_at(end, carves, fresh_source, root, i)
}

/// Whether the tree that `carves` grow from `root` has every cell of the grid.
pub open spec fn covers_grid(
    width: int,
    height: int,
    end: Seq<Coordinate>,
    carves: Seq<Carve>,
    fresh_source: bool,
    root: Coordinate,
) -> bool {
    forall|c: Coordinate|
        inside(width, height, (c.0 as int, c.1 as int)) ==> #[trigger] hangs_on(
            end,
            carves,
            fresh_source,
            root,
            c,
            carves.len() as int,
        )
}

/// Whether the tree that `carves` grow from `root` can grow no further: every cell
/// next to a cell of the tree belongs to the tree too, unless the step leaves the end
/// region, whose door is in use.
pub open spec fn is_grown_out(
    width: int,
    height: int,
    end: Seq<Coordinate>,
    carves: Seq<Carve>,
    fresh_source: bool,
    root: Coordinate,
) -> bool {
    forall|v: Coordinate, d: Direction|
        inside(width, height, (v.0 as int, v.1 as int)) && inside(
            width,
            height,
            #[trigger] step(v, d, 1),
        ) && hangs_on(end, carves, fresh_source, root, v, carves.len() as int) ==> hangs_on(
            end,
            carves,
            fresh_source,
            root,
            carve_target((v, d)),
            carves.len() as int,
        ) || (end.contains(v) && door_in_use(end, carves))
}

/// Whether `cell` hangs on the first `n` carves does not depend on the later ones,
/// and a cell that hangs on the tree keeps doing so as the tree grows.
pub proof fn lemma_hangs_on_prefix(
    end: Seq<Coordinate>,
    carves: Seq<Carve>,
    longer: Seq<Carve>,
    fresh_source: bool,
    root: Coordinate,
    cell: Coordinate,
    n: int,
    m: int,
)
    requires
        0 <= n <= m,
        n <= carves.len(),
        m <= longer.len(),
        forall|j: int| 0 <= j < n ==> carves[j] == longer[j],
    ensures
        hangs_on(end, carves, fresh_source, root, cell, n) == hangs_on(
            end,
            longer,
            fresh_source,
            root,
            cell,
            n,
        ),
        hangs_on(end, carves, fresh_source, root, cell, n) ==> hangs_on(
            end,
            longer,
            fresh_source,
            root,
            cell,
            m,
        ),
{
    if hangs_on(end, carves, fresh_source, root, cell, n) && !shares_place(end, root, cell) {
        let j = choose|j: int|
            0 <= j < n && shares_place(end, fresh_end(#[trigger] carves[j], fresh_source), cell);
        assert(shares_place(end, fresh_end(longer[j], fresh_source), cell));
    }
    if hangs_on(end, longer, fresh_source, root, cell, n) && !shares_place(end, root, cell) {
        let j = choose|j: int|
            0 <= j < n && shares_place(end, fresh_end(#[trigger] longer[j], fresh_source), cell);
        assert(shares_place(end, fresh_end(carves[j], fresh_source), cell));
    }
}

/// What it means cell by cell that carves grow a tree from `root`, where the root
/// belongs to the end region or there is no end region: the fresh ends of the carves
/// are cells of their own, all different and none of the place of the root; the
/// known end of each carve belongs to the place of the root or is the fresh end of an
/// earlier carve; and once the tree has every cell of the grid, every cell outside
/// the place of the root is the fresh end of a carve.
pub proof fn lemma_grown_tree_cell_by_cell(
    width: int,
    height: int,
    end: Seq<Coordinate>,
    carves: Seq<Carve>,
    fresh_source: bool,
    root: Coordinate,
)
    requires
        grows_from(width, height, end, carves, fresh_source, root),
        end.len() == 0 || end.contains(root),
    ensures
        forall|i: int|
            0 <= i < carves.len() ==> !end.contains(fresh_end(#[trigger] carves[i], fresh_source))
                && fresh_end(carves[i], fresh_source) != root,
        forall|i: int, j: int|
            0 <= i < j < carves.len() ==> fresh_end(#[trigger] carves[i], fresh_source)
                != fresh_end(#[trigger] carves[j], fresh_source),
        forall|i: int|
            0 <= i < carves.len() ==> shares_place(
                end,
                root,
                known_end(#[trigger] carves[i], fresh_source),
            ) || exists|j: int|
                0 <= j < i && fresh_end(#[trigger] carves[j], fresh_source) == known_end(
                    carves[i],
                    fresh_source,
                ),
        covers_grid(width, height, end, carves, fresh_source, root) ==> forall|c: Coordinate|
            inside(width, height, (c.0 as int, c.1 as int)) && !shares_place(end, root, c)
                ==> exists|i: int|
                0 <= i < carves.len() && fresh_end(#[trigger] carves[i], fresh_source) == c,
{
    assert forall|i: int| 0 <= i < carves.len() implies !end.contains(
        fresh_end(#[trigger] carves[i], fresh_source),
    ) && fresh_end(carves[i], fresh_source) != root by {
        assert(grows_at(end, carves, fresh_source, root, i));
        if end.len() > 0 {
            assert(end.contains(end[0]));
        }
    }
    assert forall|i: int, j: int| 0 <= i < j < carves.len() implies fresh_end(
        #[trigger] carves[i],
        fresh_source,
    ) != fresh_end(#[trigger] carves[j], fresh_source) by {
        assert(grows_at(end, carves, fresh_source, root, j));
        assert(shares_place(
            end,
            fresh_end(carves[i], fresh_source),
            fresh_end(carves[i], fresh_source),
        ));
    }
    assert forall|i: int| 0 <= i < carves.len() implies shares_place(
        end,
        root,
        known_end(#[trigger] carves[i], fresh_source),
    ) || exists|j: int|
        0 <= j < i && fresh_end(#[trigger] carves[j], fresh_source) == known_end(
            carves[i],
            fresh_source,
        ) by {
        assert(grows_at(end, carves, fresh_source, root, i));
        let known = known_end(carves[i], fresh_source);
        if !shares_place(end, root, known) {
            let j = choose|j: int|
                0 <= j < i && shares_place(end, fresh_end(#[trigger] carves[j], fresh_source), known);
            assert(!end.contains(fresh_end(carves[j], fresh_source)));
        }
    }
    if covers_grid(width, height, end, carves, fresh_source, root) {
        assert forall|c: Coordinate|
            inside(width, height, (c.0 as int, c.1 as int)) && !shares_place(
                end,
                root,
                c,
            ) implies exists|i: int|
            0 <= i < carves.len() && fresh_end(#[trigger] carves[i], fresh_source) == c by {
            assert(hangs_on(end, carves, fresh_source, root, c, carves.len() as int));
            let j = choose|j: int|
                0 <= j < carves.len() && shares_place(
                    end,
                    fresh_end(#[trigger] carves[j], fresh_source),
                    c,
                );
            assert(!end.contains(fresh_end(carves[j], fresh_source)));
        }
    }
}

/// A tree that grows out of the end region leaves it by its first carve, and, with
/// a single door, by no other: the carves that start in the end region are the first
/// carve alone.
pub proof fn lemma_grown_tree_leaves_end_once(
    width: int,
    height: int,
    end: Seq<Coordinate>,
    carves: Seq<Carve>,
    root: Coordinate,
)
    requires
        grows_from(width, height, end, carves, false, root),
        end.contains(root),
        has_single_door(end, carves),
    ensures
        forall|i: int| 0 <= i < carves.len() ==> (end.contains((#[trigger] carves[i]).0) <==> i == 0),
        forall|i: int| 0 <= i < carves.len() ==> !end.contains(carve_target(#[trigger] carves[i])),
{
    lemma_grown_tree_cell_by_cell(width, height, end, carves, false, root);
    assert forall|i: int| 0 <= i < carves.len() implies !end.contains(
        carve_target(#[trigger] carves[i]),
    ) by {
        assert(fresh_end(carves[i], false) == carve_target(carves[i]));
    }
    if carves.len() > 0 {
        assert(grows_at(end, carves, false, root, 0));
        assert(end.contains(carves[0].0));
        assert(crosses_end(end, carves[0]));
        assert forall|i: int| 0 < i < carves.len() implies !end.contains((#[trigger] carves[i]).0) by {
            if end.contains(carves[i].0) {
                assert(crosses_end(end, carves[i]));
            }
        }
    }
}

/// The links that carves make go both ways.
pub proof fn lemma_carve_links_symmetric(width: int, height: int, end: Seq<Coordinate>, carves: Seq<Carve>)
    ensures
        is_symmetric(carve_links(width, height, end, carves)),
{
    let links = carve_links(width, height, end, carves);
    assert forall|a: Coordinate, b: Coordinate| #[trigger] links(a, b) implies links(b, a) by {
        if !(end.contains(a) && end.contains(b)) {
            let i = choose|i: int|
                0 <= i < carves.len() && carve_joins(width, height, #[trigger] carves[i], a, b);
            assert(carve_joins(width, height, carves[i], b, a));
        }
    }
}

/// One more carve loses no link.
pub proof fn lemma_carve_links_grow(
    width: int,
    height: int,
    end: Seq<Coordinate>,
    carves: Seq<Carve>,
    carve: Carve,
)
    ensures
        forall|a: Coordinate, b: Coordinate|
            #[trigger] carve_links(width, height, end, carves)(a, b) ==> carve_links(
                width,
                height,
                end,
                carves.push(carve),
            )(a, b),
        carve_valid(width, height, carve) ==> carve_links(width, height, end, carves.push(carve))(
            carve.0,
            carve_target(carve),
        ) && carve_links(width, height, end, carves.push(carve))(carve_target(carve), carve.0),
{
    let longer = carves.push(carve);
    assert forall|a: Coordinate, b: Coordinate| #[trigger]
        carve_links(width, height, end, carves)(a, b) implies carve_links(
        width,
        height,
        end,
        longer,
    )(a, b) by {
        if !(end.contains(a) && end.contains(b)) {
            let i = choose|i: int|
                0 <= i < carves.len() && carve_joins(width, height, #[trigger] carves[i], a, b);
            assert(longer[i] == carves[i]);
        }
    }
    if carve_valid(width, height, carve) {
        assert(longer[carves.len() as int] == carve);
        assert(carve_joins(width, height, longer[carves.len() as int], carve.0, carve_target(carve)));
        assert(carve_joins(width, height, longer[carves.len() as int], carve_target(carve), carve.0));
    }
}

/// Two carves that take down the same wall join the same two cells.
pub proof fn lemma_same_edge_same_cells(width: int, height: int, a: Carve, b: Carve)
    requires
        carve_valid(width, height, a),
        carve_valid(width, height, b),
        edge_of(a) == edge_of(b),
    ensures
        (a.0 == b.0 && carve_target(a) == carve_target(b)) || (a.0 == carve_target(b)
            && carve_target(a) == b.0),
{
    lemma_opposite_involution(a.1);
    lemma_opposite_involution(b.1);
}

/// Where every cell can be reached from one cell, every cell can be reached from
/// every other.
pub proof fn lemma_rooted_is_connected(
    width: int,
    height: int,
    end: Seq<Coordinate>,
    carves: Seq<Carve>,
    root: Coordinate,
    a: Coordinate,
    b: Coordinate,
)
    requires
        reaches(carve_links(width, height, end, carves), root, a),
        reaches(carve_links(width, height, end, carves), root, b),
    ensures
        reaches(carve_links(width, height, end, carves), a, b),
{
    let links = carve_links(width, height, end, carves);
    lemma_carve_links_symmetric(width, height, end, carves);
    lemma_reaches_symmetric(links, root, a);
    lemma_reaches_transitive(links, a, root, b);
}

} // verus!
