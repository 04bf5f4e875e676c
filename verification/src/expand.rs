//! Placement and search helpers: where a rectangle fits, and one step of a
//! breadth-first wavefront.
use vstd::prelude::*;
use core::ops::{BitAndAssign, BitOrAssign};
use crate::bits::{word_bit, lemma_bit_ops, lemma_zero_and_full};
use crate::board::BitBoard;
use crate::grid::{cells, grid_ok, block_exact, clean, data_bit, in_board, block_len, set_block_bit,
    fill_zero, shifted_cells_h, shifted_cells_v};
use crate::layout::{BitLayout, LayoutGeometry};
use crate::morphology::on_board;

verus! {

/// The in-board cells `c` such that the `w x h` rectangle with top-left
/// corner `c` lies in `s`.
pub open spec fn anchors<const W: usize, const H: usize>(s: Set<(int, int)>, w: int, h: int) -> Set<
    (int, int),
> {
    Set::new(
        |c: (int, int)|
            in_board::<W, H>(c.0, c.1) && forall|a: int, b: int|
                0 <= a < w && 0 <= b < h ==> #[trigger] s.contains((c.0 + a, c.1 + b)),
    )
}

/// The in-board cells next to a cell of `s` (up, down, left or right).
pub open spec fn neighbours<const W: usize, const H: usize>(s: Set<(int, int)>) -> Set<(int, int)> {
    Set::new(
        |c: (int, int)|
            in_board::<W, H>(c.0, c.1) && (s.contains((c.0, c.1 + 1)) || s.contains((c.0, c.1 - 1))
                || s.contains((c.0 - 1, c.1)) || s.contains((c.0 + 1, c.1))),
    )
}

/// The cells of the next wavefront: neighbours of `front` that are
/// passable and not visited yet.
pub open spec fn next_front<const W: usize, const H: usize>(
    front: Set<(int, int)>,
    passable: Set<(int, int)>,
    visited: Set<(int, int)>,
) -> Set<(int, int)> {
    neighbours::<W, H>(front).intersect(passable).difference(visited)
}

/// Cells whose first `n` cells down the column lie in `s`.
spec fn column_run<const W: usize, const H: usize>(s: Set<(int, int)>, n: int) -> Set<(int, int)> {
    Set::new(
        |c: (int, int)|
            in_board::<W, H>(c.0, c.1) && forall|b: int| 0 <= b < n ==> #[trigger] s.contains((c.0, c.1 + b)),
    )
}

/// Cells whose first `n` cells along the row lie in `s`.
spec fn row_run<const W: usize, const H: usize>(s: Set<(int, int)>, n: int) -> Set<(int, int)> {
    Set::new(
        |c: (int, int)|
            in_board::<W, H>(c.0, c.1) && forall|a: int| 0 <= a < n ==> #[trigger] s.contains((c.0 + a, c.1)),
    )
}

proof fn lemma_runs_one<const W: usize, const H: usize>(s: Set<(int, int)>)
    requires
        on_board::<W, H>(s),
    ensures
        column_run::<W, H>(s, 1) == s,
        row_run::<W, H>(s, 1) == s,
{
    assert forall|c: (int, int)| column_run::<W, H>(s, 1).contains(c) implies #[trigger] s.contains(c) by {
        assert(s.contains((c.0, c.1 + 0)));
    }
    assert forall|c: (int, int)| row_run::<W, H>(s, 1).contains(c) implies #[trigger] s.contains(c) by {
        assert(s.contains((c.0 + 0, c.1)));
    }
    assert(column_run::<W, H>(s, 1) =~= s);
    assert(row_run::<W, H>(s, 1) =~= s);
}

/// Intersecting a run of `n` with itself moved back by `d <= n` gives a run
/// of `n + d`.
proof fn lemma_run_round<const W: usize, const H: usize>(s0: Set<(int, int)>, n: int, d: int)
    requires
        on_board::<W, H>(s0),
        1 <= d <= n,
    ensures
        ({
            let s = column_run::<W, H>(s0, n);
            s.intersect(shifted_cells_v::<W, H>(s, -d)) == column_run::<W, H>(s0, n + d)
        }),
        ({
            let s = row_run::<W, H>(s0, n);
            s.intersect(shifted_cells_h::<W, H>(s, -d)) == row_run::<W, H>(s0, n + d)
        }),
{
    let s = column_run::<W, H>(s0, n);
    let goal = column_run::<W, H>(s0, n + d);
    assert forall|c: (int, int)| s.intersect(shifted_cells_v::<W, H>(s, -d)).contains(c) implies #[trigger] goal.contains(c) by {
        assert(s.contains((c.0, c.1 + d)));
        assert forall|b: int| 0 <= b < n + d implies #[trigger] s0.contains((c.0, c.1 + b)) by {
            if b >= n {
                assert(s0.contains((c.0, c.1 + d + (b - d))));
            }
        }
    }
    assert forall|c: (int, int)| #[trigger] goal.contains(c) implies s.intersect(shifted_cells_v::<W, H>(s, -d)).contains(c) by {
        assert(s0.contains((c.0, c.1 + d)));
        assert forall|b: int| 0 <= b < n implies #[trigger] s0.contains((c.0, c.1 + d + b)) by {
            assert(s0.contains((c.0, c.1 + (d + b))));
        }
        assert(s.contains((c.0, c.1 + d)));
    }
    assert(s.intersect(shifted_cells_v::<W, H>(s, -d)) =~= goal);
    let t = row_run::<W, H>(s0, n);
    let goal2 = row_run::<W, H>(s0, n + d);
    assert forall|c: (int, int)| t.intersect(shifted_cells_h::<W, H>(t, -d)).contains(c) implies #[trigger] goal2.contains(c) by {
        assert(t.contains((c.0 + d, c.1)));
        assert forall|a: int| 0 <= a < n + d implies #[trigger] s0.contains((c.0 + a, c.1)) by {
            if a >= n {
                assert(s0.contains((c.0 + d + (a - d), c.1)));
            }
        }
    }
    assert forall|c: (int, int)| #[trigger] goal2.contains(c) implies t.intersect(shifted_cells_h::<W, H>(t, -d)).contains(c) by {
        assert(s0.contains((c.0 + d, c.1)));
        assert forall|a: int| 0 <= a < n implies #[trigger] s0.contains((c.0 + d + a, c.1)) by {
            assert(s0.contains((c.0 + (d + a), c.1)));
        }
        assert(t.contains((c.0 + d, c.1)));
    }
    assert(t.intersect(shifted_cells_h::<W, H>(t, -d)) =~= goal2);
}

proof fn lemma_runs_anchors<const W: usize, const H: usize>(s0: Set<(int, int)>, w: int, h: int)
    requires
        on_board::<W, H>(s0),
        1 <= h,
    ensures
        row_run::<W, H>(column_run::<W, H>(s0, h), w) == anchors::<W, H>(s0, w, h),
{
    let cr = column_run::<W, H>(s0, h);
    assert forall|c: (int, int)| row_run::<W, H>(cr, w).contains(c) implies #[trigger] anchors::<W, H>(s0, w, h).contains(c) by {
        assert forall|a: int, b: int| 0 <= a < w && 0 <= b < h implies #[trigger] s0.contains((c.0 + a, c.1 + b)) by {
            assert(cr.contains((c.0 + a, c.1)));
        }
    }
    assert forall|c: (int, int)| #[trigger] anchors::<W, H>(s0, w, h).contains(c) implies row_run::<W, H>(cr, w).contains(c) by {
        assert forall|a: int| 0 <= a < w implies #[trigger] cr.contains((c.0 + a, c.1)) by {
            assert(s0.contains((c.0 + a, c.1 + 0)));
            assert forall|b: int| 0 <= b < h implies #[trigger] s0.contains((c.0 + a, c.1 + b)) by {}
        }
    }
    assert(row_run::<W, H>(cr, w) =~= anchors::<W, H>(s0, w, h));
}

/// `out &= passable & !visited`, word by word, rebuilding the mask of `out`.
fn restrict_words(out: &mut Vec<u64>, out_block: &mut Vec<u64>, passable: &Vec<u64>, visited: &Vec<u64>)
    requires
        passable.len() == old(out).len(),
        visited.len() == old(out).len(),
        old(out_block).len() == block_len(old(out).len() as int),
    ensures
        final(out).len() == old(out).len(),
        forall|p: int|
            #[trigger] data_bit(final(out)@, p) == (data_bit(old(out)@, p) && data_bit(passable@, p)
                && !data_bit(visited@, p)),
        block_exact(final(out)@, final(out_block)@),
{
    let ghost o0 = out@;
    fill_zero(out_block);
    proof {
        lemma_zero_and_full();
        assert forall|p: int| !#[trigger] data_bit(out_block@, p) by {
            if 0 <= p < out_block.len() * 64 {
                assert(out_block@[p / 64] == 0);
            }
        }
    }
    let n = out.len();
    let mut i: usize = 0;
    while i < n
        invariant
            n == o0.len(),
            out.len() == n,
            passable.len() == n,
            visited.len() == n,
            out_block.len() == block_len(n as int),
            i <= n,
            forall|j: int| 0 <= j < i ==> out@[j] == o0[j] & (passable@[j] & !visited@[j]),
            forall|j: int| i <= j < n ==> out@[j] == o0[j],
            forall|j: int| #[trigger] data_bit(out_block@, j) == (0 <= j < i && out@[j] != 0),
        decreases n - i,
    {
        let v = out[i] & (passable[i] & !visited[i]);
        out.set(i, v);
        if v != 0 {
            set_block_bit(out_block, i);
        }
        i += 1;
    }
    proof {
        assert forall|p: int|
            #[trigger] data_bit(out@, p) == (data_bit(o0, p) && data_bit(passable@, p) && !data_bit(
                visited@,
                p,
            )) by {
            if 0 <= p < n * 64 {
                let w = p / 64;
                lemma_bit_ops(passable@[w], visited@[w]);
                lemma_bit_ops(o0[w], passable@[w] & !visited@[w]);
            }
        }
    }
}

impl<const W: usize, const H: usize, L: BitLayout<W, H>> BitBoard<W, H, L> {
    /// Efficiently calculates areas (set of top-left coordinates) where a unit of a given size can fit.
    /// Performs (size - 1) bitwise AND operations with vertical and horizontal shifts exponentially.
    /// A zero width or height counts as one.
    pub fn fit_rect_anchor(&self, width: u32, height: u32) -> (r: Self)
        requires
            self.wf(),
        ensures
            r.wf(),
            r@ == anchors::<W, H>(
                self@,
                if width == 0 {
                    1
                } else {
                    width as int
                },
                if height == 0 {
                    1
                } else {
                    height as int
                },
            ),
    {
        let mut res = self.clone();
        let mut scratch = Self::new();
        proof {
            self.lemma_unfold();
        }
        res.fit_rect_anchor_with_buffer(width, height, &mut scratch);
        res
    }

    /// In-place / allocation-free version of `fit_rect_anchor`.
    /// Overwrites `self` with the result and reuses `scratch` as a shift buffer.
    pub fn fit_rect_anchor_with_buffer(&mut self, width: u32, height: u32, scratch: &mut Self)
        requires
            old(self).wf(),
            old(scratch).wf(),
        ensures
            final(self).wf(),
            final(scratch).wf(),
            final(self)@ == anchors::<W, H>(
                old(self)@,
                if width == 0 {
                    1
                } else {
                    width as int
                },
                if height == 0 {
                    1
                } else {
                    height as int
                },
            ),
    {
        let ghost s0 = self@;
        proof {
            self.lemma_view_on_board();
            lemma_runs_one::<W, H>(s0);
        }
        // Vertical reduction
        let mut current_h: u32 = 1;
        while current_h < height
            invariant
                self.wf(),
                scratch.wf(),
                1 <= current_h,
                current_h <= height || current_h == 1,
                on_board::<W, H>(s0),
                self@ == column_run::<W, H>(s0, current_h as int),
            decreases height - current_h,
        {
            let d = if height - current_h < current_h {
                height - current_h
            } else {
                current_h
            };
            self.shift_vertical_into(-(d as i32), scratch);
            self.bitand_assign(scratch);
            proof {
                lemma_run_round::<W, H>(s0, current_h as int, d as int);
            }
            current_h += d;
        }
        let ghost t0 = self@;
        let ghost h_eff: int = if height == 0 {
            1
        } else {
            height as int
        };
        proof {
            assert(t0 == column_run::<W, H>(s0, h_eff));
            self.lemma_view_on_board();
            lemma_runs_one::<W, H>(t0);
        }
        // Horizontal reduction
        let mut current_w: u32 = 1;
        while current_w < width
            invariant
                self.wf(),
                scratch.wf(),
                1 <= current_w,
                current_w <= width || current_w == 1,
                on_board::<W, H>(t0),
                self@ == row_run::<W, H>(t0, current_w as int),
            decreases width - current_w,
        {
            let d = if width - current_w < current_w {
                width - current_w
            } else {
                current_w
            };
            self.shift_horizontal_into(-(d as i32), scratch);
            self.bitand_assign(scratch);
            proof {
                lemma_run_round::<W, H>(t0, current_w as int, d as int);
            }
            current_w += d;
        }
        proof {
            let w_eff: int = if width == 0 {
                1
            } else {
                width as int
            };
            assert(self@ == row_run::<W, H>(t0, w_eff));
            lemma_runs_anchors::<W, H>(s0, w_eff, h_eff);
        }
        proof {
            self.lemma_wf_parts();
        }
        self.finalize();
    }

    /// Expands the BFS wavefront by one step: the cells next to `self`
    /// (up, down, left, right) that are passable and not visited yet; they
    /// are added to `visited`.
    pub fn flood_expand(&self, passable: &Self, visited: &mut Self) -> (r: Self)
        requires
            self.wf(),
            passable.wf(),
            old(visited).wf(),
        ensures
            r.wf(),
            final(visited).wf(),
            r@ == next_front::<W, H>(self@, passable@, old(visited)@),
            final(visited)@ == old(visited)@.union(r@),
    {
        proof {
            self.lemma_unfold();
        }
        let mut next = Self::default();
        self.flood_expand_into(passable, visited, &mut next);
        next
    }

    /// Allocation-reduced version of `flood_expand`.
    pub fn flood_expand_into(&self, passable: &Self, visited: &mut Self, out: &mut Self)
        requires
            self.wf(),
            passable.wf(),
            old(visited).wf(),
            old(out).wf(),
        ensures
            final(out).wf(),
            final(visited).wf(),
            final(out)@ == next_front::<W, H>(self@, passable@, old(visited)@),
            final(visited)@ == old(visited)@.union(final(out)@),
    {
        proof {
            self.lemma_unfold();
        }
        let mut temp = Self::new();
        out.clear();

        // Expand in 4 directions (up, down, left, right)
        self.shift_vertical_into(-1, &mut temp);
        out.bitor_assign(&temp);
        self.shift_vertical_into(1, &mut temp);
        out.bitor_assign(&temp);
        self.shift_horizontal_into(1, &mut temp);
        out.bitor_assign(&temp);
        self.shift_horizontal_into(-1, &mut temp);
        out.bitor_assign(&temp);
        let ghost around = out@;
        proof {
            assert(around =~= neighbours::<W, H>(self@));
            out.lemma_unfold();
            passable.lemma_unfold();
            visited.lemma_unfold();
            L::lemma_geometry();
        }
        // Apply passable mask and exclude visited tiles, while building block_mask in the same pass.
        restrict_words(&mut out.data, &mut out.block_mask, &passable.data, &visited.data);
        proof {
            assert(clean::<W, H, L>(out.data@));
            assert(cells::<W, H, L>(out.data@) =~= next_front::<W, H>(self@, passable@, visited@));
            out.lemma_unfold();
        }
        visited.bitor_assign(out);
    }
}

} // verus!
