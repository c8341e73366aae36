//! The walled grid: cells, the start, the end region, and the operations that move
//! across the grid and take walls down.

use crate::direction::{lemma_opposite_involution, Coordinate, Direction};
use crate::walls::WallSet;
use vstd::prelude::*;

verus! {

/// Why a move across the grid failed.
#[derive(Debug, Clone, Copy, PartialEq, Eq, Structural)]
pub enum MoveError {
    /// The move would leave the grid.
    OutOfBounds,
    /// A wall stands in the way.
    InvalidDirection,
}

/// One cell of the grid: where it lies and in which directions it is closed.
#[derive(Debug, Clone, Copy, PartialEq, Eq)]
pub struct Cell {
    pub coordinate: Coordinate,
    pub walls: WallSet,
}

/// A step to take a wall down: the wall of `.0` towards `.1`, together with the wall
/// that faces it from the neighbouring cell.
pub type Carve = (Coordinate, Direction);

/// A grid of `width` columns and `height` rows. `grid[x][y]` is the cell in column `x`
/// and row `y`; row 0 is the northern edge.
#[derive(Debug)]
pub struct Maze {
    pub width: usize,
    pub height: usize,
    pub grid: Vec<Vec<Cell>>,
    pub start: Coordinate,
    /// The cells of the end region, each listed once.
    pub end: Vec<Coordinate>,
}

/// The point `k` steps from `c` in direction `d`, on the unbounded integer plane.
pub open spec fn step(c: Coordinate, d: Direction, k: int) -> (int, int) {
    match d {
        Direction::North => (c.0 as int, c.1 - k),
        Direction::South => (c.0 as int, c.1 + k),
        Direction::East => (c.0 + k, c.1 as int),
        Direction::West => (c.0 - k, c.1 as int),
    }
}

/// Whether a point of the plane lies on a grid of the given size.
pub open spec fn inside(width: int, height: int, p: (int, int)) -> bool {
    0 <= p.0 < width && 0 <= p.1 < height
}

/// The cells of the two-by-two block whose south-east corner is `center`, in the
/// order in which an end region lists them, without those that fall off the grid.
pub open spec fn end_block(width: int, height: int, center: Coordinate) -> Seq<Coordinate> {
    let c0 = if inside(width, height, (center.0 as int, center.1 as int)) {
        seq![center]
    } else {
        Seq::<Coordinate>::empty()
    };
    let c1 = if inside(width, height, (center.0 - 1, center.1 as int)) {
        seq![((center.0 - 1) as usize, center.1)]
    } else {
        Seq::<Coordinate>::empty()
    };
    let c2 = if inside(width, height, (center.0 as int, center.1 - 1)) {
        seq![(center.0, (center.1 - 1) as usize)]
    } else {
        Seq::<Coordinate>::empty()
    };
    let c3 = if inside(width, height, (center.0 - 1, center.1 - 1)) {
        seq![((center.0 - 1) as usize, (center.1 - 1) as usize)]
    } else {
        Seq::<Coordinate>::empty()
    };
    c0 + c1 + c2 + c3
}

/// Whether `carve` names a wall between two cells of a grid of the given size.
pub open spec fn carve_valid(width: int, height: int, carve: Carve) -> bool {
    &&& inside(width, height, (carve.0.0 as int, carve.0.1 as int))
    &&& inside(width, height, step(carve.0, carve.1, 1))
}

/// Whether `e` names a wall between two cells of the grid from its western or
/// northern side.
pub open spec fn is_grid_edge(width: int, height: int, e: Carve) -> bool {
    carve_valid(width, height, e) && (e.1 == Direction::East || e.1 == Direction::South)
}

/// The cell on the far side of the wall that `carve` names.
pub open spec fn carve_target(carve: Carve) -> Coordinate {
    let t = step(carve.0, carve.1, 1);
    (t.0 as usize, t.1 as usize)
}

/// Whether taking down the wall that `carve` names opens the cell `c` towards `d`:
/// it does so on its own side, and on the far side in the opposite direction. A carve
/// that does not lie on the grid opens nothing.
pub open spec fn carve_opens(width: int, height: int, carve: Carve, c: Coordinate, d: Direction) -> bool {
    &&& carve_valid(width, height, carve)
    &&& (carve.0 == c && carve.1 == d) || (carve_target(carve) == c && carve.1.opposite() == d)
}

/// Whether some carve of `path` opens the cell `c` towards `d`.
pub open spec fn carves_open(
    width: int,
    height: int,
    path: Seq<Carve>,
    c: Coordinate,
    d: Direction,
) -> bool {
    exists|i: int| 0 <= i < path.len() && carve_opens(width, height, #[trigger] path[i], c, d)
}

impl Clone for Maze {
    fn clone(&self) -> (r: Maze)
        ensures
            r.same_frame(self),
            r.grid@.len() == self.grid@.len(),
            forall|x: int| 0 <= x < self.grid@.len() ==> (#[trigger] r.grid@[x])@ == self.grid@[x]@,
    {
        let mut grid: Vec<Vec<Cell>> = Vec::new();
        let mut x: usize = 0;
        while x < self.grid.len()
            invariant
                x <= self.grid@.len(),
                grid@.len() == x,
                forall|i: int| 0 <= i < x ==> (#[trigger] grid@[i])@ == self.grid@[i]@,
            decreases self.grid@.len() - x,
        {
            let mut column: Vec<Cell> = Vec::new();
            let mut y: usize = 0;
            while y < self.grid[x].len()
                invariant
                    x < self.grid@.len(),
                    y <= self.grid@[x as int]@.len(),
                    column@ == self.grid@[x as int]@.take(y as int),
                decreases self.grid@[x as int]@.len() - y,
            {
                column.push(self.grid[x][y]);
                assert(column@ =~= self.grid@[x as int]@.take(y + 1));
                y += 1;
            }
            assert(column@ =~= self.grid@[x as int]@);
            grid.push(column);
            x += 1;
        }
        let mut end: Vec<Coordinate> = Vec::new();
        let mut i: usize = 0;
        while i < self.end.len()
            invariant
                i <= self.end@.len(),
                end@ == self.end@.take(i as int),
            decreases self.end@.len() - i,
        {
            end.push(self.end[i]);
            assert(end@ =~= self.end@.take(i + 1));
            i += 1;
        }
        assert(end@ =~= self.end@);
        Maze { width: self.width, height: self.height, grid, start: self.start, end }
    }
}

impl Maze {
    /// Whether `c` is a cell of this grid.
    pub open spec fn contains(&self, c: Coordinate) -> bool {
        c.0 < self.width && c.1 < self.height
    }

    /// The shape that every operation relies on: the grid has the stated size, every
    /// cell knows its own coordinate, the start and the end region lie on the grid,
    /// and no cell is listed twice in the end region.
    pub open spec fn wf(&self) -> bool {
        &&& self.width >= 1
        &&& self.height >= 1
        &&& self.width * self.height <= usize::MAX
        &&& self.grid@.len() == self.width
        &&& forall|x: int| 0 <= x < self.width ==> (#[trigger] self.grid@[x])@.len() == self.height
        &&& forall|x: int, y: int|
            0 <= x < self.width && 0 <= y < self.height ==> (#[trigger] self.grid@[x]@[y]).coordinate
                == (x as usize, y as usize)
        &&& self.contains(self.start)
        &&& forall|i: int| 0 <= i < self.end@.len() ==> self.contains(#[trigger] self.end@[i])
        &&& self.end@.no_duplicates()
    }

    /// Whether the cell `c` is closed towards `d`.
    pub open spec fn wall(&self, c: Coordinate, d: Direction) -> bool {
        self.grid@[c.0 as int]@[c.1 as int].walls.has(d)
    }

    /// Whether `c` belongs to the end region.
    pub open spec fn in_end(&self, c: Coordinate) -> bool {
        self.end@.contains(c)
    }

    /// Whether two mazes have the same size, start and end region.
    pub open spec fn same_frame(&self, other: &Maze) -> bool {
        &&& self.width == other.width
        &&& self.height == other.height
        &&& self.start == other.start
        &&& self.end@ == other.end@
    }

    /// Whether the walls agree with each other: two neighbouring cells are either both
    /// open or both closed towards each other, and every cell on the rim is closed
    /// towards the outside.
    pub open spec fn walls_consistent(&self) -> bool {
        forall|c: Coordinate, d: Direction|
            self.contains(c) ==> #[trigger] self.wall(c, d) == (if inside(
                self.width as int,
                self.height as int,
                step(c, d, 1),
            ) {
                self.wall(carve_target((c, d)), d.opposite())
            } else {
                true
            })
    }

    /// Whether the end region joins the cell `c` to its neighbour towards `d`: both
    /// belong to it.
    pub open spec fn end_joins(&self, c: Coordinate, d: Direction) -> bool {
        &&& self.in_end(c)
        &&& inside(self.width as int, self.height as int, step(c, d, 1))
        &&& self.in_end(carve_target((c, d)))
    }

    /// Where `steps` steps from `c` towards `d` lead, walls ignored.
    pub open spec fn spec_move_from(&self, d: Direction, c: Coordinate, steps: int) -> Result<
        Coordinate,
        MoveError,
    > {
        let t = step(c, d, steps);
        if inside(self.width as int, self.height as int, t) {
            Ok((t.0 as usize, t.1 as usize))
        } else {
            Err(MoveError::OutOfBounds)
        }
    }

    /// Where `steps` single steps from `c` towards `d` lead when each step has to
    /// start on the grid at a cell that is open towards `d`, and has to end on the grid.
    pub open spec fn spec_move_from_with_walls(
        &self,
        d: Direction,
        c: Coordinate,
        steps: nat,
    ) -> Result<Coordinate, MoveError>
        decreases steps,
    {
        if steps == 0 {
            Ok(c)
        } else if !self.contains(c) {
            Err(MoveError::OutOfBounds)
        } else if self.wall(c, d) {
            Err(MoveError::InvalidDirection)
        } else {
            match self.spec_move_from(d, c, 1) {
                Ok(next) => self.spec_move_from_with_walls(d, next, (steps - 1) as nat),
                Err(_) => Err(MoveError::OutOfBounds),
            }
        }
    }

    /// A grid in which every cell is closed on all four sides. The start is the
    /// south-west corner; the end region is empty.
    pub fn new(width: usize, height: usize) -> (maze: Maze)
        requires
            width >= 1,
            height >= 1,
            width * height <= usize::MAX,
        ensures
            maze.wf(),
            maze.width == width,
            maze.height == height,
            maze.start == (0usize, (height - 1) as usize),
            maze.end@.len() == 0,
            forall|c: Coordinate, d: Direction| maze.contains(c) ==> maze.wall(c, d),
            maze.walls_consistent(),
    {
        let mut grid: Vec<Vec<Cell>> = Vec::new();
        let mut x: usize = 0;
        while x < width
            invariant
                x <= width,
                grid@.len() == x,
                forall|i: int| 0 <= i < x ==> (#[trigger] grid@[i])@.len() == height,
                forall|i: int, j: int|
                    0 <= i < x && 0 <= j < height ==> (#[trigger] grid@[i]@[j]) == (Cell {
                        coordinate: (i as usize, j as usize),
                        walls: WallSet { north: true, east: true, south: true, west: true },
                    }),
            decreases width - x,
        {
            let mut column: Vec<Cell> = Vec::new();
            let mut y: usize = 0;
            while y < height
                invariant
                    y <= height,
                    column@.len() == y,
                    forall|j: int|
                        0 <= j < y ==> (#[trigger] column@[j]) == (Cell {
                            coordinate: (x, j as usize),
                            walls: WallSet { north: true, east: true, south: true, west: true },
                        }),
                decreases height - y,
            {
                column.push(Cell { coordinate: (x, y), walls: WallSet::all() });
                y += 1;
            }
            grid.push(column);
            x += 1;
        }
        let maze = Maze { width, height, grid, start: (0, height - 1), end: Vec::new() };
        proof {
            lemma_fully_walled_is_consistent(maze);
        }
        maze
    }

    /// A fully walled grid whose end region is the block around the middle.
    pub fn init_maze(width: usize, height: usize) -> (maze: Maze)
        requires
            width >= 1,
            height >= 1,
            width * height <= usize::MAX,
        ensures
            maze.wf(),
            maze.width == width,
            maze.height == height,
            maze.start == (0usize, (height - 1) as usize),
            maze.end@ == end_block(width as int, height as int, (width / 2, height / 2)),
            forall|c: Coordinate, d: Direction| maze.contains(c) ==> maze.wall(c, d),
            maze.walls_consistent(),
    {
        let mut maze = Maze::new(width, height);
        let ghost fresh = maze;
        maze.set_end((width / 2, height / 2));
        let ghost with_end = maze;
        maze.set_starting_point((0, height - 1), None);
        assert forall|c: Coordinate, d: Direction| maze.contains(c) implies maze.wall(c, d) by {
            assert(fresh.wall(c, d));
            assert(with_end.wall(c, d));
        }
        proof {
            lemma_fully_walled_is_consistent(maze);
        }
        maze
    }

    /// Makes the end region the two-by-two block that `center` closes towards the
    /// south-east: `center`, its western and its northern neighbour, and the cell
    /// between those two. Cells that would lie off the grid are left out.
    pub fn set_end(&mut self, center: Coordinate)
        requires
            old(self).wf(),
        ensures
            final(self).wf(),
            final(self).width == old(self).width,
            final(self).height == old(self).height,
            final(self).start == old(self).start,
            final(self).grid == old(self).grid,
            final(self).end@ == end_block(
                old(self).width as int,
                old(self).height as int,
                center,
            ),
    {
        let (cx, cy) = center;
        let mut end: Vec<Coordinate> = Vec::new();
        if cx < self.width && cy < self.height {
            end.push((cx, cy));
        }
        if cx >= 1 && cx - 1 < self.width && cy < self.height {
            end.push((cx - 1, cy));
        }
        if cy >= 1 && cx < self.width && cy - 1 < self.height {
            end.push((cx, cy - 1));
        }
        if cx >= 1 && cy >= 1 && cx - 1 < self.width && cy - 1 < self.height {
            end.push((cx - 1, cy - 1));
        }
        assert(end@ =~= end_block(self.width as int, self.height as int, center));
        self.end = end;
    }

    /// The end region of [`Maze::set_end`], under its longer name.
    pub fn set_2x2_end(&mut self, cell: Coordinate)
        requires
            old(self).wf(),
        ensures
            final(self).wf(),
            final(self).width == old(self).width,
            final(self).height == old(self).height,
            final(self).start == old(self).start,
            final(self).grid == old(self).grid,
            final(self).end@ == end_block(old(self).width as int, old(self).height as int, cell),
    {
        self.set_end(cell);
    }

    pub fn number_of_cells(&self) -> (n: usize)
        requires
            self.wf(),
        ensures
            n == self.width * self.height,
    {
        self.width * self.height
    }

    /// Whether a point given by signed numbers is a cell of the grid.
    pub fn in_bounds(&self, cell: (i32, i32)) -> (r: bool)
        ensures
            r == inside(self.width as int, self.height as int, (cell.0 as int, cell.1 as int)),
    {
        cell.0 >= 0 && cell.1 >= 0 && (cell.0 as usize) < self.width && (cell.1 as usize)
            < self.height
    }

    pub fn get_starting_point(&self) -> (r: Coordinate)
        ensures
            r == self.start,
    {
        self.start
    }

    pub fn get_end_point(&self) -> (r: &Vec<Coordinate>)
        ensures
            r@ == self.end@,
    {
        &self.end
    }

    /// Moves the start to `coordinates` and, if a direction is given, opens that cell
    /// towards it.
    pub fn set_starting_point(&mut self, coordinates: Coordinate, delete_wall: Option<&Direction>)
        requires
            old(self).wf(),
            old(self).contains(coordinates),
        ensures
            final(self).wf(),
            final(self).width == old(self).width,
            final(self).height == old(self).height,
            final(self).end@ == old(self).end@,
            final(self).start == coordinates,
            forall|c: Coordinate, d: Direction|
                final(self).contains(c) ==> final(self).wall(c, d) == (old(self).wall(c, d) && !(
                delete_wall == Some(&d) && c == coordinates)),
    {
        self.start = coordinates;
        if let Some(wall) = delete_wall {
            self.open_wall(coordinates, *wall);
        }
    }

    /// The cell at `coord`.
    pub fn get_cell(&self, coord: Coordinate) -> (cell: &Cell)
        requires
            self.wf(),
            self.contains(coord),
        ensures
            *cell == self.grid@[coord.0 as int]@[coord.1 as int],
            cell.coordinate == coord,
    {
        &self.grid[coord.0][coord.1]
    }

    /// Whether the cell at `c` is closed towards `d`.
    pub fn has_wall(&self, c: Coordinate, d: Direction) -> (r: bool)
        requires
            self.wf(),
            self.contains(c),
        ensures
            r == self.wall(c, d),
    {
        self.grid[c.0][c.1].walls.contains(&d)
    }

    /// Opens the cell at `c` towards `d`, and nothing else.
    pub fn open_wall(&mut self, c: Coordinate, d: Direction)
        requires
            old(self).wf(),
            old(self).contains(c),
        ensures
            final(self).wf(),
            final(self).same_frame(old(self)),
            forall|c2: Coordinate, d2: Direction|
                final(self).contains(c2) ==> final(self).wall(c2, d2) == (old(self).wall(c2, d2)
                    && !(c2 == c && d2 == d)),
    {
        let mut column = self.grid[c.0].clone();
        assert(column@ =~= self.grid@[c.0 as int]@) by {
            assert(column@.len() == self.grid@[c.0 as int]@.len());
        }
        let mut cell = column[c.1];
        cell.walls.remove(&d);
        column.set(c.1, cell);
        self.grid.set(c.0, column);
    }

    /// Whether `c` belongs to the end region.
    pub fn is_end(&self, c: Coordinate) -> (r: bool)
        ensures
            r == self.in_end(c),
    {
        let mut i: usize = 0;
        while i < self.end.len()
            invariant
                i <= self.end@.len(),
                forall|j: int| 0 <= j < i ==> self.end@[j] != c,
            decreases self.end@.len() - i,
        {
            let e = self.end[i];
            if e.0 == c.0 && e.1 == c.1 {
                return true;
            }
            i += 1;
        }
        false
    }

    /// Takes down the wall that `carve` names, on both of its sides. A carve that does
    /// not lie on the grid changes nothing.
    pub fn break_wall(&mut self, carve: Carve)
        requires
            old(self).wf(),
        ensures
            final(self).wf(),
            final(self).same_frame(old(self)),
            forall|c: Coordinate, d: Direction|
                final(self).contains(c) ==> #[trigger] final(self).wall(c, d) == (old(self).wall(
                    c,
                    d,
                ) && !carve_opens(old(self).width as int, old(self).height as int, carve, c, d)),
    {
        let (from, direction) = carve;
        if !(from.0 < self.width && from.1 < self.height) {
            return ;
        }
        let next = match self.move_from(&direction, &from, 1) {
            Ok(coordinates) => coordinates,
            Err(_) => {
                return ;
            },
        };
        let ghost before = *self;
        self.open_wall(next, direction.opposite_direction());
        let ghost half = *self;
        self.open_wall(from, direction);
        assert forall|c: Coordinate, d: Direction| self.contains(c) implies #[trigger] self.wall(
            c,
            d,
        ) == (before.wall(c, d) && !carve_opens(
            before.width as int,
            before.height as int,
            carve,
            c,
            d,
        )) by {
            assert(half.wall(c, d) == (before.wall(c, d) && !(c == next && d
                == direction.opposite())));
        }
    }

    /// Takes down the wall that the entry at place `index` of `path` names; see
    /// [`Maze::break_wall`].
    pub fn break_wall_for_path(&mut self, path: &Vec<Carve>, index: usize)
        requires
            old(self).wf(),
            index < path@.len(),
        ensures
            final(self).wf(),
            final(self).same_frame(old(self)),
            forall|c: Coordinate, d: Direction|
                final(self).contains(c) ==> #[trigger] final(self).wall(c, d) == (old(self).wall(
                    c,
                    d,
                ) && !carve_opens(
                    old(self).width as int,
                    old(self).height as int,
                    path@[index as int],
                    c,
                    d,
                )),
    {
        self.break_wall(path[index]);
    }

    /// Takes down, for each entry of `path`, the wall of the entry's cell in the
    /// entry's direction together with the wall that faces it. An entry that does not
    /// name a wall between two cells of the grid is passed over.
    pub fn break_walls_for_path(&mut self, path: Vec<Carve>)
        requires
            old(self).wf(),
        ensures
            final(self).wf(),
            final(self).same_frame(old(self)),
            forall|c: Coordinate, d: Direction|
                final(self).contains(c) ==> #[trigger] final(self).wall(c, d) == (old(self).wall(
                    c,
                    d,
                ) && !carves_open(old(self).width as int, old(self).height as int, path@, c, d)),
            old(self).walls_consistent() ==> final(self).walls_consistent(),
    {
        let mut index: usize = 0;
        while index < path.len()
            invariant
                index <= path@.len(),
                self.wf(),
                self.same_frame(old(self)),
                forall|c: Coordinate, d: Direction|
                    self.contains(c) ==> #[trigger] self.wall(c, d) == (old(self).wall(c, d)
                        && !carves_open(
                        old(self).width as int,
                        old(self).height as int,
                        path@.take(index as int),
                        c,
                        d,
                    )),
            decreases path@.len() - index,
        {
            let ghost before = *self;
            self.break_wall(path[index]);
            proof {
                let w = old(self).width as int;
                let h = old(self).height as int;
                let done = path@.take(index as int);
                let more = path@.take(index + 1);
                assert forall|c: Coordinate, d: Direction| self.contains(c) implies #[trigger] self.wall(
                    c,
                    d,
                ) == (old(self).wall(c, d) && !carves_open(w, h, more, c, d)) by {
                    assert(before.wall(c, d) == (old(self).wall(c, d) && !carves_open(
                        w,
                        h,
                        done,
                        c,
                        d,
                    )));
                    if carves_open(w, h, more, c, d) {
                        let i = choose|i: int|
                            0 <= i < more.len() && carve_opens(w, h, #[trigger] more[i], c, d);
                        if i < index {
                            assert(done[i] == more[i]);
                        }
                    }
                    if carves_open(w, h, done, c, d) {
                        let i = choose|i: int|
                            0 <= i < done.len() && carve_opens(w, h, #[trigger] done[i], c, d);
                        assert(more[i] == done[i]);
                    }
                    if carve_opens(w, h, path@[index as int], c, d) {
                        assert(more[index as int] == path@[index as int]);
                    }
                }
            }
            index += 1;
        }
        proof {
            assert(path@.take(index as int) =~= path@);
            if old(self).walls_consistent() {
                lemma_carving_keeps_walls_consistent(*old(self), *self, path@);
            }
        }
    }

    /// Opens the end region up into one room: every wall between two of its cells
    /// comes down.
    pub fn break_end_walls(&mut self)
        requires
            old(self).wf(),
        ensures
            final(self).wf(),
            final(self).same_frame(old(self)),
            forall|c: Coordinate, d: Direction|
                final(self).contains(c) ==> #[trigger] final(self).wall(c, d) == (old(self).wall(
                    c,
                    d,
                ) && !old(self).end_joins(c, d)),
            old(self).walls_consistent() ==> final(self).walls_consistent(),
    {
        let mut path: Vec<Carve> = Vec::new();
        let mut i: usize = 0;
        while i < self.end.len()
            invariant
                self.wf(),
                i <= self.end@.len(),
                forall|k: int| 0 <= k < path@.len() ==> self.end_joins((#[trigger] path@[k]).0, path@[k].1),
                forall|j: int, d: Direction|
                    0 <= j < i && #[trigger] self.end_joins(self.end@[j], d) ==> path@.contains(
                        (self.end@[j], d),
                    ),
            decreases self.end@.len() - i,
        {
            let current = self.end[i];
            let ghost at_first = path@;
            self.push_end_join(&mut path, current, Direction::North);
            let ghost past_north = path@;
            self.push_end_join(&mut path, current, Direction::East);
            let ghost past_east = path@;
            self.push_end_join(&mut path, current, Direction::South);
            let ghost past_south = path@;
            self.push_end_join(&mut path, current, Direction::West);
            proof {
                let at_last = path@;
                assert forall|j: int, d: Direction|
                    0 <= j < i + 1 && #[trigger] self.end_joins(self.end@[j], d) implies at_last.contains(
                    (self.end@[j], d),
                ) by {
                    let e = (self.end@[j], d);
                    let k: int = if j < i {
                        assert(at_first.contains(e));
                        choose|k: int| 0 <= k < at_first.len() && at_first[k] == e
                    } else {
                        match d {
                            Direction::North => at_first.len() as int,
                            Direction::East => past_north.len() as int,
                            Direction::South => past_east.len() as int,
                            Direction::West => past_south.len() as int,
                        }
                    };
                    assert(at_last[k] == e);
                }
            }
            i += 1;
        }
        let ghost joins = path@;
        self.break_walls_for_path(path);
        proof {
            let w = old(self).width as int;
            let h = old(self).height as int;
            assert forall|c: Coordinate, d: Direction| self.contains(c) implies (carves_open(
                w,
                h,
                joins,
                c,
                d,
            ) <==> old(self).end_joins(c, d)) by {
                if old(self).end_joins(c, d) {
                    let j = choose|j: int| 0 <= j < old(self).end@.len() && old(self).end@[j] == c;
                    assert(joins.contains((old(self).end@[j], d)));
                    let k = choose|k: int| 0 <= k < joins.len() && joins[k] == (c, d);
                    assert(carve_opens(w, h, joins[k], c, d));
                }
                if carves_open(w, h, joins, c, d) {
                    let k = choose|k: int|
                        0 <= k < joins.len() && carve_opens(w, h, #[trigger] joins[k], c, d);
                    assert(old(self).end_joins(joins[k].0, joins[k].1));
                    lemma_opposite_involution(joins[k].1);
                }
            }
        }
    }

    /// Appends `(c, d)` to `path` if the end region joins `c` to its neighbour
    /// towards `d`.
    fn push_end_join(&self, path: &mut Vec<Carve>, c: Coordinate, d: Direction)
        requires
            self.wf(),
        ensures
            final(path)@ == (if self.end_joins(c, d) {
                old(path)@.push((c, d))
            } else {
                old(path)@
            }),
    {
        if self.is_end(c) {
            if let Ok(neighbor) = self.move_from(&d, &c, 1) {
                if self.is_end(neighbor) {
                    path.push((c, d));
                }
            }
        }
    }

    /// The cell `steps` cells away from `coordinates` towards `direction`, whatever
    /// walls lie between. Fails if that point is off the grid.
    pub fn move_from(&self, direction: &Direction, coordinates: &Coordinate, steps: usize) -> (r:
        Result<Coordinate, MoveError>)
        ensures
            r == self.spec_move_from(*direction, *coordinates, steps as int),
    {
        let (x, y) = *coordinates;
        let target: Option<Coordinate> = match direction {
            Direction::North => if steps <= y {
                Some((x, y - steps))
            } else {
                None
            },
            Direction::South => match y.checked_add(steps) {
                Some(ty) => Some((x, ty)),
                None => None,
            },
            Direction::East => match x.checked_add(steps) {
                Some(tx) => Some((tx, y)),
                None => None,
            },
            Direction::West => if steps <= x {
                Some((x - steps, y))
            } else {
                None
            },
        };
        match target {
            Some((tx, ty)) => {
                if tx < self.width && ty < self.height {
                    Ok((tx, ty))
                } else {
                    Err(MoveError::OutOfBounds)
                }
            },
            None => Err(MoveError::OutOfBounds),
        }
    }

    /// Takes `steps` single steps from `coordinates` towards `direction`. A step that
    /// starts at a cell closed in that direction fails with `InvalidDirection`; one
    /// that starts or ends off the grid fails with `OutOfBounds`.
    pub fn move_from_with_walls(
        &self,
        direction: &Direction,
        coordinates: &Coordinate,
        steps: usize,
    ) -> (r: Result<Coordinate, MoveError>)
        requires
            self.wf(),
        ensures
            r == self.spec_move_from_with_walls(*direction, *coordinates, steps as nat),
    {
        let mut current = *coordinates;
        let mut taken: usize = 0;
        while taken < steps
            invariant
                self.wf(),
                taken <= steps,
                self.spec_move_from_with_walls(*direction, *coordinates, steps as nat)
                    == self.spec_move_from_with_walls(*direction, current, (steps - taken) as nat),
            decreases steps - taken,
        {
            if !(current.0 < self.width && current.1 < self.height) {
                return Err(MoveError::OutOfBounds);
            }
            if self.has_wall(current, *direction) {
                return Err(MoveError::InvalidDirection);
            }
            current =
            match self.move_from(direction, &current, 1) {
                Ok(c) => c,
                Err(_) => {
                    return Err(MoveError::OutOfBounds);
                },
            };
            taken += 1;
        }
        Ok(current)
    }
}

/// In a maze in which every wall stands, the walls agree with each other.
pub proof fn lemma_fully_walled_is_consistent(maze: Maze)
    requires
        maze.wf(),
        forall|c: Coordinate, d: Direction| maze.contains(c) ==> maze.wall(c, d),
    ensures
        maze.walls_consistent(),
{
    assert forall|c: Coordinate, d: Direction| maze.contains(c) implies #[trigger] maze.wall(c, d)
        == (if inside(maze.width as int, maze.height as int, step(c, d, 1)) {
        maze.wall(carve_target((c, d)), d.opposite())
    } else {
        true
    }) by {
        if inside(maze.width as int, maze.height as int, step(c, d, 1)) {
            assert(maze.wall(carve_target((c, d)), d.opposite()));
        }
    }
}

/// Taking walls down in pairs keeps the walls of a maze in agreement with each other.
pub proof fn lemma_carving_keeps_walls_consistent(before: Maze, after: Maze, path: Seq<Carve>)
    requires
        before.wf(),
        after.wf(),
        after.same_frame(&before),
        before.walls_consistent(),
        forall|c: Coordinate, d: Direction|
            after.contains(c) ==> #[trigger] after.wall(c, d) == (before.wall(c, d) && !carves_open(
                before.width as int,
                before.height as int,
                path,
                c,
                d,
            )),
    ensures
        after.walls_consistent(),
{
    let w = before.width as int;
    let h = before.height as int;
    assert forall|c: Coordinate, d: Direction| after.contains(c) implies #[trigger] after.wall(c, d)
        == (if inside(w, h, step(c, d, 1)) {
        after.wall(carve_target((c, d)), d.opposite())
    } else {
        true
    }) by {
        lemma_opposite_involution(d);
        assert(before.wall(c, d) == (if inside(w, h, step(c, d, 1)) {
            before.wall(carve_target((c, d)), d.opposite())
        } else {
            true
        }));
        if inside(w, h, step(c, d, 1)) {
            let n = carve_target((c, d));
            let e = d.opposite();
            assert(after.wall(n, e) == (before.wall(n, e) && !carves_open(w, h, path, n, e)));
            if carves_open(w, h, path, c, d) {
                let i = choose|i: int| 0 <= i < path.len() && carve_opens(w, h, #[trigger] path[i], c, d);
                lemma_opposite_involution(path[i].1);
                assert(carve_opens(w, h, path[i], n, e));
            }
            if carves_open(w, h, path, n, e) {
                let i = choose|i: int| 0 <= i < path.len() && carve_opens(w, h, #[trigger] path[i], n, e);
                lemma_opposite_involution(path[i].1);
                assert(carve_opens(w, h, path[i], c, d));
            }
        } else {
            if carves_open(w, h, path, c, d) {
                let i = choose|i: int| 0 <= i < path.len() && carve_opens(w, h, #[trigger] path[i], c, d);
                lemma_opposite_involution(path[i].1);
            }
        }
    }
}

} // verus!
