//! A set of cells of a grid, kept as one flag per cell.

use crate::direction::Coordinate;
use vstd::prelude::*;

verus! {

/// How many entries of `flags` are set.
pub open spec fn count_set(flags: Seq<bool>) -> nat
    decreases flags.len(),
{
    if flags.len() == 0 {
        0
    } else {
        count_set(flags.drop_last()) + (if flags.last() { 1nat } else { 0nat })
    }
}

/// No more flags are set than there are flags.
pub proof fn lemma_count_set_bound(flags: Seq<bool>)
    ensures
        count_set(flags) <= flags.len(),
    decreases flags.len(),
{
    if flags.len() > 0 {
        lemma_count_set_bound(flags.drop_last());
    }
}

/// Changing one flag changes the count by that flag alone.
pub proof fn lemma_count_set_update(flags: Seq<bool>, i: int, b: bool)
    requires
        0 <= i < flags.len(),
    ensures
        count_set(flags.update(i, b)) == count_set(flags) - (if flags[i] { 1int } else { 0 }) + (if b {
            1int
        } else {
            0
        }),
    decreases flags.len(),
{
    let after = flags.update(i, b);
    if i == flags.len() - 1 {
        assert(after.drop_last() =~= flags.drop_last());
    } else {
        assert(after.drop_last() =~= flags.drop_last().update(i, b));
        lemma_count_set_update(flags.drop_last(), i, b);
    }
}

/// The count is zero exactly when no flag is set, and equals the length exactly when
/// every flag is set.
pub proof fn lemma_count_set_extremes(flags: Seq<bool>)
    ensures
        count_set(flags) == 0 <==> (forall|i: int| 0 <= i < flags.len() ==> !flags[i]),
        count_set(flags) == flags.len() <==> (forall|i: int| 0 <= i < flags.len() ==> flags[i]),
    decreases flags.len(),
{
    if flags.len() > 0 {
        let front = flags.drop_last();
        lemma_count_set_extremes(front);
        lemma_count_set_bound(front);
        assert forall|i: int| 0 <= i < front.len() implies front[i] == flags[i] by {}
        if forall|i: int| 0 <= i < flags.len() ==> !flags[i] {
            assert forall|i: int| 0 <= i < front.len() implies !front[i] by {
                assert(front[i] == flags[i]);
            }
        }
        if forall|i: int| 0 <= i < flags.len() ==> flags[i] {
            assert forall|i: int| 0 <= i < front.len() implies front[i] by {
                assert(front[i] == flags[i]);
            }
        }
        if count_set(flags) == 0 {
            assert forall|i: int| 0 <= i < flags.len() implies !flags[i] by {
                if i < front.len() {
                    assert(front[i] == flags[i]);
                }
            }
        }
        if count_set(flags) == flags.len() {
            assert forall|i: int| 0 <= i < flags.len() implies flags[i] by {
                if i < front.len() {
                    assert(front[i] == flags[i]);
                }
            }
        }
    }
}

/// The place of the cell `(x, y)` in a row-by-row listing of a grid `width` wide.
pub open spec fn cell_index(width: int, c: Coordinate) -> int {
    c.1 * width + c.0
}

/// Every cell of a grid has a place of its own in the row-by-row listing, below the
/// number of cells, and the place determines the cell.
pub proof fn lemma_cell_index(width: int, height: int, c: Coordinate)
    requires
        0 <= c.0 < width,
        0 <= c.1 < height,
    ensures
        0 <= cell_index(width, c) < width * height,
        cell_index(width, c) % width == c.0,
        cell_index(width, c) / width == c.1,
{
    let x = c.0 as int;
    let y = c.1 as int;
    assert(y * width + x < width * height) by (nonlinear_arith)
        requires
            0 <= x < width,
            0 <= y < height,
    ;
    assert(0 <= y * width) by (nonlinear_arith)
        requires
            0 <= y,
            0 < width,
    ;
    vstd::arithmetic::div_mod::lemma_fundamental_div_mod_converse(y * width + x, width, y, x);
}

/// Every place below the number of cells of a grid is the place of a cell: of the
/// cell whose column is the remainder and whose row is the quotient by the width.
pub proof fn lemma_index_cell(width: int, height: int, i: int)
    requires
        0 <= i < width * height,
        0 <= width <= usize::MAX,
        0 <= height <= usize::MAX,
    ensures
        0 <= i % width < width,
        0 <= i / width < height,
        cell_index(width, ((i % width) as usize, (i / width) as usize)) == i,
{
    let w = width;
    let h = height;
    assert(w > 0) by (nonlinear_arith)
        requires
            0 <= i < w * h,
            0 <= w,
            0 <= h,
    ;
    vstd::arithmetic::div_mod::lemma_fundamental_div_mod(i, w);
    assert(0 <= i / w < h) by (nonlinear_arith)
        requires
            0 <= i < w * h,
            0 < w,
            i == w * (i / w) + i % w,
            0 <= i % w < w,
    ;
    assert((i / w) * w + i % w == i) by (nonlinear_arith)
        requires
            i == w * (i / w) + i % w,
    ;
}

/// A set of cells of a grid of fixed size.
#[derive(Debug)]
pub struct CoordinateSet {
    width: usize,
    height: usize,
    flags: Vec<bool>,
    count: usize,
}

impl CoordinateSet {
    /// The invariant of the representation.
    pub closed spec fn wf(&self) -> bool {
        &&& self.width * self.height <= usize::MAX
        &&& self.flags@.len() == self.width * self.height
        &&& self.count == count_set(self.flags@)
    }

    /// The width of the grid that the cells are taken from.
    pub closed spec fn grid_width(&self) -> int {
        self.width as int
    }

    /// The height of the grid that the cells are taken from.
    pub closed spec fn grid_height(&self) -> int {
        self.height as int
    }

    /// Whether `c` is in the set. A point off the grid never is.
    pub closed spec fn has(&self, c: Coordinate) -> bool {
        c.0 < self.width && c.1 < self.height && self.flags@[cell_index(self.width as int, c)]
    }

    /// The number of cells in the set.
    pub closed spec fn count(&self) -> nat {
        self.count as nat
    }

    /// The cells of the set.
    pub open spec fn view(&self) -> Set<Coordinate> {
        Set::new(|c: Coordinate| self.has(c))
    }

    /// The empty set of cells of a grid of the given size.
    pub fn new(width: usize, height: usize) -> (r: CoordinateSet)
        requires
            width * height <= usize::MAX,
        ensures
            r.wf(),
            r.grid_width() == width,
            r.grid_height() == height,
            r.count() == 0,
            forall|c: Coordinate| !r.has(c),
    {
        let total = width * height;
        let mut flags: Vec<bool> = Vec::new();
        let mut i: usize = 0;
        while i < total
            invariant
                i <= total,
                flags@.len() == i,
                forall|j: int| 0 <= j < i ==> !flags@[j],
            decreases total - i,
        {
            flags.push(false);
            i += 1;
        }
        proof {
            lemma_count_set_extremes(flags@);
            assert forall|c: Coordinate| c.0 < width && c.1 < height implies !flags@[cell_index(
                width as int,
                c,
            )] by {
                lemma_cell_index(width as int, height as int, c);
            }
        }
        CoordinateSet { width, height, flags, count: 0 }
    }

    pub fn contains(&self, c: &Coordinate) -> (r: bool)
        requires
            self.wf(),
        ensures
            r == self.has(*c),
    {
        if c.0 < self.width && c.1 < self.height {
            proof {
                lemma_cell_index(self.width as int, self.height as int, *c);
            }
            self.flags[c.1 * self.width + c.0]
        } else {
            false
        }
    }

    /// Puts `c` into the set. Returns whether it was new; a point off the grid is not
    /// taken in and counts as not new.
    pub fn insert(&mut self, c: Coordinate) -> (r: bool)
        requires
            old(self).wf(),
        ensures
            final(self).wf(),
            final(self).grid_width() == old(self).grid_width(),
            final(self).grid_height() == old(self).grid_height(),
            r == (!old(self).has(c) && c.0 < old(self).grid_width() && c.1 < old(
                self,
            ).grid_height()),
            final(self).count() == old(self).count() + (if r { 1nat } else { 0nat }),
            forall|other: Coordinate|
                #[trigger] final(self).has(other) == (old(self).has(other) || (other == c && r)),
    {
        if c.0 < self.width && c.1 < self.height {
            proof {
                lemma_cell_index(self.width as int, self.height as int, c);
            }
            let index = c.1 * self.width + c.0;
            if self.flags[index] {
                false
            } else {
                proof {
                    lemma_count_set_update(self.flags@, index as int, true);
                    lemma_count_set_bound(self.flags@.update(index as int, true));
                }
                self.flags.set(index, true);
                self.count = self.count + 1;
                assert forall|other: Coordinate| #[trigger]
                    self.has(other) == (old(self).has(other) || other == c) by {
                    if other.0 < self.width && other.1 < self.height {
                        lemma_cell_index(self.width as int, self.height as int, other);
                    }
                }
                true
            }
        } else {
            false
        }
    }

    /// The number of cells in the set.
    pub fn len(&self) -> (r: usize)
        requires
            self.wf(),
        ensures
            r == self.count(),
            r <= self.grid_width() * self.grid_height(),
    {
        proof {
            lemma_count_set_bound(self.flags@);
        }
        self.count
    }

    /// Every cell of a set lies on its grid.
    pub proof fn lemma_has_on_grid(&self, c: Coordinate)
        requires
            self.has(c),
        ensures
            c.0 < self.grid_width(),
            c.1 < self.grid_height(),
    {
    }

    /// A set without cells holds none.
    pub proof fn lemma_empty(&self)
        requires
            self.wf(),
        ensures
            self.count() == 0 <==> (forall|c: Coordinate| !self.has(c)),
    {
        let w = self.width as int;
        let h = self.height as int;
        lemma_count_set_extremes(self.flags@);
        if self.count() == 0 {
            assert forall|c: Coordinate| !self.has(c) by {
                if c.0 < w && c.1 < h {
                    lemma_cell_index(w, h, c);
                }
            }
        }
        if forall|c: Coordinate| !self.has(c) {
            assert forall|i: int| 0 <= i < self.flags@.len() implies !self.flags@[i] by {
                assert(w > 0) by (nonlinear_arith)
                    requires
                        0 <= i < w * h,
                        0 <= w,
                        0 <= h,
                ;
                let c: Coordinate = ((i % w) as usize, (i / w) as usize);
                vstd::arithmetic::div_mod::lemma_fundamental_div_mod(i, w);
                assert(0 <= i / w < h) by (nonlinear_arith)
                    requires
                        0 <= i < w * h,
                        0 < w,
                        i == w * (i / w) + i % w,
                        0 <= i % w < w,
                ;
                assert(cell_index(w, c) == i) by (nonlinear_arith)
                    requires
                        cell_index(w, c) == (i / w) * w + i % w,
                        i == w * (i / w) + i % w,
                ;
                assert(!self.has(c));
            }
        }
    }

    /// A set holds no more cells than its grid has.
    pub proof fn lemma_count_bound(&self)
        requires
            self.wf(),
        ensures
            self.count() <= self.grid_width() * self.grid_height(),
    {
        lemma_count_set_bound(self.flags@);
    }

    /// A set that holds every cell of its grid has as many cells as the grid, and the
    /// other way round.
    pub proof fn lemma_full(&self)
        requires
            self.wf(),
        ensures
            self.count() == self.grid_width() * self.grid_height() <==> (forall|c: Coordinate|
                c.0 < self.grid_width() && c.1 < self.grid_height() ==> self.has(c)),
    {
        let w = self.width as int;
        let h = self.height as int;
        lemma_count_set_extremes(self.flags@);
        if forall|c: Coordinate| c.0 < w && c.1 < h ==> self.has(c) {
            assert forall|i: int| 0 <= i < self.flags@.len() implies self.flags@[i] by {
                assert(w > 0) by (nonlinear_arith)
                    requires
                        0 <= i < w * h,
                        0 <= w,
                        0 <= h,
                ;
                let c: Coordinate = ((i % w) as usize, (i / w) as usize);
                vstd::arithmetic::div_mod::lemma_fundamental_div_mod(i, w);
                assert(0 <= i / w < h) by (nonlinear_arith)
                    requires
                        0 <= i < w * h,
                        0 < w,
                        i == w * (i / w) + i % w,
                        0 <= i % w < w,
                ;
                assert(cell_index(w, c) == i) by (nonlinear_arith)
                    requires
                        cell_index(w, c) == (i / w) * w + i % w,
                        i == w * (i / w) + i % w,
                ;
                assert(self.has(c));
            }
        }
        if self.count() == w * h {
            assert forall|c: Coordinate| c.0 < w && c.1 < h implies self.has(c) by {
                lemma_cell_index(w, h, c);
            }
        }
    }
}

} // verus!
