//! A row-major plane of cells, addressed by column and row.

use vstd::prelude::*;

verus! {

/// A plane of `w` columns stored row after row.
#[derive(Debug)]
pub struct MultiVec<T> {
    pub inner: Vec<T>,
    pub w: usize,
}

/// In a plane of `w` columns, two cells with the same offset are the same
/// cell.
pub proof fn lemma_offset_unique(w: int, x: int, y: int, x2: int, y2: int)
    requires
        0 <= x < w,
        0 <= x2 < w,
        y * w + x == y2 * w + x2,
    ensures
        x == x2,
        y == y2,
{
    if y < y2 {
        assert((y2 - y) * w >= w) by (nonlinear_arith)
            requires
                y2 - y >= 1,
                w > 0,
        ;
        assert((y2 - y) * w == y2 * w - y * w) by (nonlinear_arith);
    } else if y2 < y {
        assert((y - y2) * w >= w) by (nonlinear_arith)
            requires
                y - y2 >= 1,
                w > 0,
        ;
        assert((y - y2) * w == y * w - y2 * w) by (nonlinear_arith);
    }
}

/// In a plane of `w` columns and `h` rows, the cell `(x, y)` has an offset
/// below `w * h`.
pub proof fn lemma_offset_inside(w: int, h: int, x: int, y: int)
    requires
        0 <= x < w,
        0 <= y < h,
    ensures
        0 <= y * w + x < w * h,
{
    assert(y * w >= 0) by (nonlinear_arith)
        requires
            y >= 0,
            w > 0,
    ;
    assert(y * w + w <= w * h) by (nonlinear_arith)
        requires
            y + 1 <= h,
            w > 0,
    ;
}

impl<T> MultiVec<T> {
    /// Offset of the cell `(x, y)` in the storage.
    pub open spec fn offset(&self, x: int, y: int) -> int {
        y * (self.w as int) + x
    }

    /// Whether the plane has a cell `(x, y)`.
    pub open spec fn holds(&self, x: int, y: int) -> bool {
        0 <= x < self.w && 0 <= y && self.offset(x, y) < self.inner.len()
    }

    /// The content of the cell `(x, y)`.
    pub open spec fn at(&self, x: int, y: int) -> T {
        self.inner@[self.offset(x, y)]
    }

    /// Reads the cell `(x, y)`.
    pub fn get(&self, x: i32, y: i32) -> (r: &T)
        requires
            self.holds(x as int, y as int),
        ensures
            *r == self.at(x as int, y as int),
    {
        assert((y as int) * (self.w as int) >= 0) by (nonlinear_arith)
            requires
                y >= 0,
                self.w >= 0,
        ;
        let i: usize = y as usize * self.w + x as usize;
        &self.inner[i]
    }

    /// Writes `v` to the cell `(x, y)` and leaves every other cell as it was.
    pub fn set(&mut self, x: i32, y: i32, v: T)
        requires
            old(self).holds(x as int, y as int),
        ensures
            final(self).w == old(self).w,
            final(self).inner.len() == old(self).inner.len(),
            final(self).inner@ == old(self).inner@.update(old(self).offset(x as int, y as int), v),
            final(self).at(x as int, y as int) == v,
            forall|x2: int, y2: int|
                old(self).holds(x2, y2) && !(x2 == x && y2 == y) ==> #[trigger] final(self).at(
                    x2,
                    y2,
                ) == old(self).at(x2, y2),
            forall|x2: int, y2: int| #[trigger] final(self).holds(x2, y2) == old(self).holds(x2, y2),
    {
        assert((y as int) * (self.w as int) >= 0) by (nonlinear_arith)
            requires
                y >= 0,
                self.w >= 0,
        ;
        let i: usize = y as usize * self.w + x as usize;
        let ghost w = self.w as int;
        assert forall|x2: int, y2: int|
            self.holds(x2, y2) && !(x2 == x && y2 == y) implies self.offset(x2, y2) != i by {
            if self.offset(x2, y2) == i {
                lemma_offset_unique(w, x as int, y as int, x2, y2);
            }
        }
        self.inner[i] = v;
    }
}

} // verus!
