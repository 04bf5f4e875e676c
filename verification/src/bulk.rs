//! Setting or clearing whole shapes of cells at once: rectangles, rows,
//! plus signs and diamonds.
use vstd::prelude::*;
use crate::board::BitBoard;
use crate::grid::{cells, in_board, rect_cells, row_segment};
use crate::layout::BitLayout;

verus! {

/// The in-board cells of the plus sign of arm length `r` centred on `(x, y)`.
pub open spec fn plus_cells<const W: usize, const H: usize>(x: int, y: int, r: int) -> Set<(int, int)> {
    Set::new(
        |c: (int, int)|
            in_board::<W, H>(c.0, c.1) && ((c.0 == x && y - r <= c.1 <= y + r) || (c.1 == y && x - r
                <= c.0 <= x + r)),
    )
}

/// Distance between two integers.
pub open spec fn dist(a: int, b: int) -> int {
    if a >= b {
        a - b
    } else {
        b - a
    }
}

/// The in-board cells within Manhattan distance `r` of `(x, y)`.
pub open spec fn diamond_cells<const W: usize, const H: usize>(x: int, y: int, r: int) -> Set<
    (int, int),
> {
    Set::new(
        |c: (int, int)| in_board::<W, H>(c.0, c.1) && dist(c.0, x) + dist(c.1, y) <= r,
    )
}

/// The cells of `diamond_cells` in the rows above `y + dy`.
spec fn diamond_rows_below<const W: usize, const H: usize>(x: int, y: int, r: int, dy: int) -> Set<
    (int, int),
> {
    Set::new(
        |c: (int, int)|
            in_board::<W, H>(c.0, c.1) && c.1 < y + dy && dist(c.0, x) + dist(c.1, y) <= r,
    )
}

/// `s` with `t` added (`value`) or taken away.
pub open spec fn paint(s: Set<(int, int)>, t: Set<(int, int)>, value: bool) -> Set<(int, int)> {
    if value {
        s.union(t)
    } else {
        s.difference(t)
    }
}

impl<const W: usize, const H: usize, L: BitLayout<W, H>> BitBoard<W, H, L> {
    /// Fills a rectangular range in batch (optimized version).
    pub fn set_rect(&mut self, x: i32, y: i32, width: i32, height: i32, value: bool)
        requires
            old(self).wf(),
        ensures
            final(self).wf(),
            final(self)@ == paint(
                old(self)@,
                rect_cells::<W, H>(x as int, y as int, width as int, height as int),
                value,
            ),
    {
        proof {
            self.lemma_unfold();
        }
        L::rect_op(&mut self.data, &mut self.block_mask, x, y, width, height, value);
        proof {
            self.lemma_unfold();
        }
    }

    /// Sets values for a range in a specified row in batch (internal word optimization).
    pub fn set_row(&mut self, y: i32, min_x: i32, max_x: i32, value: bool)
        requires
            old(self).wf(),
        ensures
            final(self).wf(),
            final(self)@ == paint(
                old(self)@,
                row_segment::<W, H>(y as int, min_x as int, max_x as int),
                value,
            ),
    {
        proof {
            self.lemma_unfold();
        }
        L::set_row(&mut self.data, &mut self.block_mask, y, min_x, max_x, value);
        proof {
            self.lemma_unfold();
        }
    }

    /// Fills a plus-shaped area centered at the specified coordinates (nothing
    /// for a negative range).
    pub fn set_plus(&mut self, x: i32, y: i32, range: i32, value: bool)
        requires
            old(self).wf(),
            range < 0 || (range * 2 + 1 <= i32::MAX && x - range >= i32::MIN && y - range
                >= i32::MIN),
        ensures
            final(self).wf(),
            final(self)@ == paint(old(self)@, plus_cells::<W, H>(x as int, y as int, range as int), value),
    {
        if range < 0 {
            proof {
                assert(plus_cells::<W, H>(x as int, y as int, range as int) =~= Set::<(int, int)>::empty());
                assert(paint(old(self)@, Set::<(int, int)>::empty(), value) =~= old(self)@);
            }
            return;
        }
        // Vertical
        self.set_rect(x, y - range, 1, range * 2 + 1, value);
        // Horizontal
        self.set_rect(x - range, y, range * 2 + 1, 1, value);
        proof {
            let v = rect_cells::<W, H>(x as int, y - range, 1, range * 2 + 1);
            let h = rect_cells::<W, H>(x - range, y as int, range * 2 + 1, 1);
            assert(plus_cells::<W, H>(x as int, y as int, range as int) =~= v.union(h));
            assert(paint(paint(old(self)@, v, value), h, value) =~= paint(old(self)@, v.union(h), value));
        }
    }

    /// Fills a diamond-shaped area (within Manhattan distance) centered at the
    /// specified coordinates (nothing for a negative range).
    pub fn set_diamond(&mut self, x: i32, y: i32, range: i32, value: bool)
        requires
            old(self).wf(),
            range < 0 || (x - range >= i32::MIN && x + range <= i32::MAX && y - range >= i32::MIN
                && y + range <= i32::MAX),
        ensures
            final(self).wf(),
            final(self)@ == paint(
                old(self)@,
                diamond_cells::<W, H>(x as int, y as int, range as int),
                value,
            ),
    {
        let ghost s0 = self@;
        if range < 0 {
            proof {
                assert(diamond_cells::<W, H>(x as int, y as int, range as int) =~= Set::<
                    (int, int),
                >::empty());
                assert(paint(s0, Set::<(int, int)>::empty(), value) =~= s0);
            }
            return;
        }
        let mut dy: i64 = -(range as i64);
        proof {
            assert(diamond_rows_below::<W, H>(x as int, y as int, range as int, dy as int) =~= Set::<
                (int, int),
            >::empty());
            assert(paint(s0, Set::<(int, int)>::empty(), value) =~= s0);
        }
        while dy <= range as i64
            invariant
                self.wf(),
                0 <= range,
                x - range >= i32::MIN,
                x + range <= i32::MAX,
                y - range >= i32::MIN,
                y + range <= i32::MAX,
                -range <= dy <= range + 1,
                self@ == paint(
                    s0,
                    diamond_rows_below::<W, H>(x as int, y as int, range as int, dy as int),
                    value,
                ),
            decreases range + 1 - dy,
        {
            let ady: i64 = if dy < 0 {
                -dy
            } else {
                dy
            };
            let h_width = (range as i64 - ady) as i32;
            let row = (y as i64 + dy) as i32;
            self.set_row(row, x - h_width, x + h_width, value);
            proof {
                let before = diamond_rows_below::<W, H>(x as int, y as int, range as int, dy as int);
                let after = diamond_rows_below::<W, H>(x as int, y as int, range as int, dy + 1);
                let seg = row_segment::<W, H>(row as int, x - h_width, x + h_width);
                assert(after =~= before.union(seg));
                assert(paint(paint(s0, before, value), seg, value) =~= paint(s0, after, value));
            }
            dy = dy + 1;
        }
        proof {
            assert(diamond_rows_below::<W, H>(x as int, y as int, range as int, dy as int)
                =~= diamond_cells::<W, H>(x as int, y as int, range as int));
        }
    }

    /// Creates a mask where only the specified rectangular range is set to 1.
    /// Used for fast extraction and limitation of range information.
    pub fn mask_rect(x: i32, y: i32, width: i32, height: i32) -> (r: Self)
        requires
            L::dims_ok(),
        ensures
            r.wf(),
            r@ == rect_cells::<W, H>(x as int, y as int, width as int, height as int),
    {
        let mut res = Self::new();
        res.set_rect(x, y, width, height, true);
        proof {
            assert(paint(Set::<(int, int)>::empty(), rect_cells::<W, H>(x as int, y as int, width as int, height as int), true)
                =~= rect_cells::<W, H>(x as int, y as int, width as int, height as int));
        }
        res
    }
}

} // verus!
