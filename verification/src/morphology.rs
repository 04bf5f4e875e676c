//! Morphology: dilation and erosion by a square window, built from shifts
//! whose distances double at each round.
use vstd::prelude::*;
use core::ops::{BitAndAssign, BitOrAssign};
use crate::board::BitBoard;
use crate::grid::{in_board, shifted_cells_h, shifted_cells_v};
use crate::layout::BitLayout;

verus! {

/// The in-board cells within Chebyshev distance `r` of a cell of `s`.
pub open spec fn dilated<const W: usize, const H: usize>(s: Set<(int, int)>, r: int) -> Set<(int, int)> {
    Set::new(
        |c: (int, int)|
            in_board::<W, H>(c.0, c.1) && exists|a: int, b: int|
                -r <= a <= r && -r <= b <= r && #[trigger] s.contains((c.0 + a, c.1 + b)),
    )
}

/// The in-board cells whose whole square of radius `r` lies in `s`.
pub open spec fn eroded<const W: usize, const H: usize>(s: Set<(int, int)>, r: int) -> Set<(int, int)> {
    Set::new(
        |c: (int, int)|
            in_board::<W, H>(c.0, c.1) && forall|a: int, b: int|
                -r <= a <= r && -r <= b <= r ==> #[trigger] s.contains((c.0 + a, c.1 + b)),
    )
}

/// Every cell of `s` is on the board.
pub open spec fn on_board<const W: usize, const H: usize>(s: Set<(int, int)>) -> bool {
    forall|c: (int, int)| #[trigger] s.contains(c) ==> in_board::<W, H>(c.0, c.1)
}

/// The in-board cells with a cell of `s` within `r` along one axis.
spec fn reach<const W: usize, const H: usize>(s: Set<(int, int)>, r: int, vertical: bool) -> Set<
    (int, int),
> {
    Set::new(
        |c: (int, int)|
            in_board::<W, H>(c.0, c.1) && exists|a: int|
                -r <= a <= r && #[trigger] s.contains(step(c, a, vertical)),
    )
}

/// The in-board cells with all cells within `r` along one axis in `s`.
spec fn hold<const W: usize, const H: usize>(s: Set<(int, int)>, r: int, vertical: bool) -> Set<
    (int, int),
> {
    Set::new(
        |c: (int, int)|
            in_board::<W, H>(c.0, c.1) && forall|a: int|
                -r <= a <= r ==> #[trigger] s.contains(step(c, a, vertical)),
    )
}

/// `c` moved by `a` along one axis.
spec fn step(c: (int, int), a: int, vertical: bool) -> (int, int) {
    if vertical {
        (c.0, c.1 + a)
    } else {
        (c.0 + a, c.1)
    }
}

/// `s` shifted by `d` along one axis.
spec fn shifted<const W: usize, const H: usize>(s: Set<(int, int)>, d: int, vertical: bool) -> Set<
    (int, int),
> {
    if vertical {
        shifted_cells_v::<W, H>(s, d)
    } else {
        shifted_cells_h::<W, H>(s, d)
    }
}

/// A round of growing by `d`: the reach of `r` becomes a reach of `r + d`.
proof fn lemma_reach_round<const W: usize, const H: usize>(
    s0: Set<(int, int)>,
    r: int,
    d: int,
    vertical: bool,
)
    requires
        on_board::<W, H>(s0),
        0 <= r,
        1 <= d <= r + 1,
    ensures
        ({
            let s = reach::<W, H>(s0, r, vertical);
            let s1 = s.union(shifted::<W, H>(s, d, vertical));
            s1.union(shifted::<W, H>(s1, -d, vertical)) == reach::<W, H>(s0, r + d, vertical)
        }),
{
    let s = reach::<W, H>(s0, r, vertical);
    let s1 = s.union(shifted::<W, H>(s, d, vertical));
    let s2 = s1.union(shifted::<W, H>(s1, -d, vertical));
    let goal = reach::<W, H>(s0, r + d, vertical);
    assert forall|c: (int, int)| s2.contains(c) implies #[trigger] goal.contains(c) by {
        if s.contains(c) {
            let a = choose|a: int| -r <= a <= r && #[trigger] s0.contains(step(c, a, vertical));
            assert(s0.contains(step(c, a, vertical)));
        } else if shifted::<W, H>(s, d, vertical).contains(c) {
            let e = step(c, -d, vertical);
            assert(s.contains(e));
            let a = choose|a: int| -r <= a <= r && #[trigger] s0.contains(step(e, a, vertical));
            assert(step(e, a, vertical) == step(c, a - d, vertical));
        } else {
            let e = step(c, d, vertical);
            assert(s1.contains(e));
            if s.contains(e) {
                let a = choose|a: int| -r <= a <= r && #[trigger] s0.contains(step(e, a, vertical));
                assert(step(e, a, vertical) == step(c, a + d, vertical));
            } else {
                assert(step(e, -d, vertical) == c);
                assert(s.contains(c));
            }
        }
    }
    assert forall|c: (int, int)| #[trigger] goal.contains(c) implies s2.contains(c) by {
        let a = choose|a: int| -(r + d) <= a <= r + d && #[trigger] s0.contains(step(c, a, vertical));
        let t = step(c, a, vertical);
        assert(in_board::<W, H>(t.0, t.1));
        if -r <= a <= r {
            assert(s.contains(c));
        } else if a < -r {
            let e = step(c, -d, vertical);
            assert(step(e, a + d, vertical) == t);
            assert(in_board::<W, H>(e.0, e.1));
            assert(s.contains(e));
            assert(step(c, -d, vertical) == e);
            assert(shifted::<W, H>(s, d, vertical).contains(c));
        } else {
            let e = step(c, d, vertical);
            assert(step(e, a - d, vertical) == t);
            assert(in_board::<W, H>(e.0, e.1));
            assert(s.contains(e));
            assert(s1.contains(e));
            assert(shifted::<W, H>(s1, -d, vertical).contains(c));
        }
    }
    assert(s2 =~= goal);
}

/// A round of shrinking by `d`: the hold of `r` becomes a hold of `r + d`.
proof fn lemma_hold_round<const W: usize, const H: usize>(
    s0: Set<(int, int)>,
    r: int,
    d: int,
    vertical: bool,
)
    requires
        on_board::<W, H>(s0),
        0 <= r,
        1 <= d <= r + 1,
    ensures
        ({
            let s = hold::<W, H>(s0, r, vertical);
            let s1 = s.intersect(shifted::<W, H>(s, d, vertical));
            s1.intersect(shifted::<W, H>(s1, -d, vertical)) == hold::<W, H>(s0, r + d, vertical)
        }),
{
    let s = hold::<W, H>(s0, r, vertical);
    let s1 = s.intersect(shifted::<W, H>(s, d, vertical));
    let s2 = s1.intersect(shifted::<W, H>(s1, -d, vertical));
    let goal = hold::<W, H>(s0, r + d, vertical);
    assert forall|c: (int, int)| s2.contains(c) implies #[trigger] goal.contains(c) by {
        let lo = step(c, -d, vertical);
        let hi = step(c, d, vertical);
        assert(s.contains(lo));
        assert(s1.contains(hi));
        assert(s.contains(hi));
        assert forall|a: int| -(r + d) <= a <= r + d implies #[trigger] s0.contains(step(c, a, vertical)) by {
            if a < -r {
                assert(step(lo, a + d, vertical) == step(c, a, vertical));
                assert(s0.contains(step(lo, a + d, vertical)));
            } else if a > r {
                assert(step(hi, a - d, vertical) == step(c, a, vertical));
                assert(s0.contains(step(hi, a - d, vertical)));
            } else {
                assert(s0.contains(step(c, a, vertical)));
            }
        }
    }
    assert forall|c: (int, int)| #[trigger] goal.contains(c) implies s2.contains(c) by {
        let lo = step(c, -d, vertical);
        let hi = step(c, d, vertical);
        assert(s0.contains(step(c, -d, vertical)));
        assert(s0.contains(step(c, d, vertical)));
        assert forall|a: int| -r <= a <= r implies #[trigger] s0.contains(step(lo, a, vertical)) by {
            assert(step(lo, a, vertical) == step(c, a - d, vertical));
            assert(s0.contains(step(c, a - d, vertical)));
        }
        assert forall|a: int| -r <= a <= r implies #[trigger] s0.contains(step(hi, a, vertical)) by {
            assert(step(hi, a, vertical) == step(c, a + d, vertical));
            assert(s0.contains(step(c, a + d, vertical)));
        }
        assert forall|a: int| -r <= a <= r implies #[trigger] s0.contains(step(c, a, vertical)) by {
            assert(s0.contains(step(c, a, vertical)));
        }
        assert(s.contains(lo));
        assert(s.contains(hi));
        assert(s.contains(c));
        assert(step(hi, -d, vertical) == c);
        assert(step(lo, d, vertical) == c);
        assert(shifted::<W, H>(s, d, vertical).contains(c));
        assert(shifted::<W, H>(s, d, vertical).contains(hi));
        assert(s1.contains(hi));
    }
    assert(s2 =~= goal);
}

/// Reach or hold of radius 0 is the set itself.
proof fn lemma_round_zero<const W: usize, const H: usize>(s0: Set<(int, int)>, vertical: bool)
    requires
        on_board::<W, H>(s0),
    ensures
        reach::<W, H>(s0, 0, vertical) == s0,
        hold::<W, H>(s0, 0, vertical) == s0,
{
    assert forall|c: (int, int)| #[trigger] s0.contains(c) implies reach::<W, H>(s0, 0, vertical).contains(c) by {
        assert(step(c, 0, vertical) == c);
    }
    assert forall|c: (int, int)| reach::<W, H>(s0, 0, vertical).contains(c) implies #[trigger] s0.contains(c) by {
        let a = choose|a: int| -0 <= a <= 0 && #[trigger] s0.contains(step(c, a, vertical));
        assert(step(c, a, vertical) == c);
    }
    assert(reach::<W, H>(s0, 0, vertical) =~= s0);
    assert forall|c: (int, int)| #[trigger] s0.contains(c) implies hold::<W, H>(s0, 0, vertical).contains(c) by {
        assert forall|a: int| -0 <= a <= 0 implies #[trigger] s0.contains(step(c, a, vertical)) by {
            assert(step(c, a, vertical) == c);
        }
    }
    assert forall|c: (int, int)| hold::<W, H>(s0, 0, vertical).contains(c) implies #[trigger] s0.contains(c) by {
        assert(s0.contains(step(c, 0, vertical)));
        assert(step(c, 0, vertical) == c);
    }
    assert(hold::<W, H>(s0, 0, vertical) =~= s0);
}

/// Reaching along x then along y is dilation; holding along x then along y
/// is erosion.
proof fn lemma_two_axes<const W: usize, const H: usize>(s0: Set<(int, int)>, r: int)
    requires
        on_board::<W, H>(s0),
    ensures
        reach::<W, H>(reach::<W, H>(s0, r, false), r, true) == dilated::<W, H>(s0, r),
        hold::<W, H>(hold::<W, H>(s0, r, false), r, true) == eroded::<W, H>(s0, r),
{
    let rh = reach::<W, H>(s0, r, false);
    assert forall|c: (int, int)| #[trigger] reach::<W, H>(rh, r, true).contains(c) implies dilated::<W, H>(s0, r).contains(c) by {
        let b = choose|b: int| -r <= b <= r && #[trigger] rh.contains(step(c, b, true));
        let e = step(c, b, true);
        let a = choose|a: int| -r <= a <= r && #[trigger] s0.contains(step(e, a, false));
        assert(s0.contains((c.0 + a, c.1 + b)));
    }
    assert forall|c: (int, int)| #[trigger] dilated::<W, H>(s0, r).contains(c) implies reach::<W, H>(rh, r, true).contains(c) by {
        let (a, b) = choose|a: int, b: int| -r <= a <= r && -r <= b <= r && #[trigger] s0.contains((c.0 + a, c.1 + b));
        let e = step(c, b, true);
        assert(s0.contains(step(e, a, false)));
        assert(in_board::<W, H>(c.0 + a, c.1 + b));
        assert(rh.contains(e));
    }
    assert(reach::<W, H>(rh, r, true) =~= dilated::<W, H>(s0, r));
    let hh = hold::<W, H>(s0, r, false);
    assert forall|c: (int, int)| #[trigger] hold::<W, H>(hh, r, true).contains(c) implies eroded::<W, H>(s0, r).contains(c) by {
        assert forall|a: int, b: int| -r <= a <= r && -r <= b <= r implies #[trigger] s0.contains((c.0 + a, c.1 + b)) by {
            let e = step(c, b, true);
            assert(hh.contains(e));
            assert(s0.contains(step(e, a, false)));
        }
    }
    assert forall|c: (int, int)| #[trigger] eroded::<W, H>(s0, r).contains(c) implies hold::<W, H>(hh, r, true).contains(c) by {
        assert forall|b: int| -r <= b <= r implies #[trigger] hh.contains(step(c, b, true)) by {
            let e = step(c, b, true);
            assert(s0.contains((c.0 + 0, c.1 + b)));
            assert forall|a: int| -r <= a <= r implies #[trigger] s0.contains(step(e, a, false)) by {
                assert(s0.contains((c.0 + a, c.1 + b)));
            }
        }
    }
    assert(hold::<W, H>(hh, r, true) =~= eroded::<W, H>(s0, r));
}

impl<const W: usize, const H: usize, L: BitLayout<W, H>> BitBoard<W, H, L> {
    /// Rounds of shifting `self` both ways along one axis and merging the
    /// shifted copies in (`grow`) or intersecting with them, until the
    /// window reaches `steps`.
    fn apply_morphology_with_buffer(&mut self, steps: u32, buffer: &mut Self, vertical: bool, grow: bool)
        requires
            old(self).wf(),
            old(buffer).wf(),
            steps < u32::MAX,
        ensures
            final(self).wf(),
            final(buffer).wf(),
            final(self)@ == if grow {
                reach::<W, H>(old(self)@, steps as int, vertical)
            } else {
                hold::<W, H>(old(self)@, steps as int, vertical)
            },
    {
        let ghost s0 = self@;
        proof {
            self.lemma_view_on_board();
            lemma_round_zero::<W, H>(s0, vertical);
        }
        let mut current_range: u32 = 0;
        while current_range < steps
            invariant
                self.wf(),
                buffer.wf(),
                steps < u32::MAX,
                current_range <= steps,
                on_board::<W, H>(s0),
                self@ == if grow {
                    reach::<W, H>(s0, current_range as int, vertical)
                } else {
                    hold::<W, H>(s0, current_range as int, vertical)
                },
            decreases steps - current_range,
        {
            let d = if steps - current_range < current_range + 1 {
                steps - current_range
            } else {
                current_range + 1
            };
            let ghost s = self@;
            // Positive direction
            if vertical {
                self.shift_vertical_into(d as i32, buffer);
            } else {
                self.shift_horizontal_into(d as i32, buffer);
            }
            if grow {
                self.bitor_assign(buffer);
            } else {
                self.bitand_assign(buffer);
            }
            let ghost s1 = self@;
            // Negative direction
            if vertical {
                self.shift_vertical_into(-(d as i32), buffer);
            } else {
                self.shift_horizontal_into(-(d as i32), buffer);
            }
            if grow {
                self.bitor_assign(buffer);
            } else {
                self.bitand_assign(buffer);
            }
            proof {
                if grow {
                    lemma_reach_round::<W, H>(s0, current_range as int, d as int, vertical);
                } else {
                    lemma_hold_round::<W, H>(s0, current_range as int, d as int, vertical);
                }
                assert(s1 == if grow {
                    s.union(shifted::<W, H>(s, d as int, vertical))
                } else {
                    s.intersect(shifted::<W, H>(s, d as int, vertical))
                });
            }
            current_range += d;
        }
    }

    /// Dilates set bits in all 8 directions (allocation-avoidance version).
    pub fn dilate_with_buffer(&mut self, steps: u32, buffer: &mut Self)
        requires
            old(self).wf(),
            old(buffer).wf(),
            steps < u32::MAX,
        ensures
            final(self).wf(),
            final(buffer).wf(),
            final(self)@ == dilated::<W, H>(old(self)@, steps as int),
    {
        proof {
            self.lemma_view_on_board();
            lemma_two_axes::<W, H>(self@, steps as int);
        }
        if steps == 0 {
            proof {
                lemma_round_zero::<W, H>(self@, false);
                lemma_round_zero::<W, H>(self@, true);
            }
            return;
        }
        self.apply_morphology_with_buffer(steps, buffer, false, true);
        proof {
            self.lemma_view_on_board();
        }
        self.apply_morphology_with_buffer(steps, buffer, true, true);
        proof {
            self.lemma_wf_parts();
        }
        self.finalize();
    }

    /// Dilates set bits in all 8 directions.
    pub fn dilate(&self, steps: u32) -> (r: Self)
        requires
            self.wf(),
            steps < u32::MAX,
        ensures
            r.wf(),
            r@ == dilated::<W, H>(self@, steps as int),
    {
        if steps == 0 {
            proof {
                self.lemma_view_on_board();
                lemma_two_axes::<W, H>(self@, 0);
                lemma_round_zero::<W, H>(self@, false);
                lemma_round_zero::<W, H>(self@, true);
            }
            return self.clone();
        }
        let mut res = self.clone();
        let mut buffer = Self::new();
        proof {
            self.lemma_unfold();
        }
        res.dilate_with_buffer(steps, &mut buffer);
        res
    }

    /// Erodes set bits in all 8 directions (allocation-avoidance version);
    /// cells off the board count as unset.
    pub fn erode_with_buffer(&mut self, steps: u32, buffer: &mut Self)
        requires
            old(self).wf(),
            old(buffer).wf(),
            steps < u32::MAX,
        ensures
            final(self).wf(),
            final(buffer).wf(),
            final(self)@ == eroded::<W, H>(old(self)@, steps as int),
    {
        proof {
            self.lemma_view_on_board();
            lemma_two_axes::<W, H>(self@, steps as int);
        }
        if steps == 0 {
            proof {
                lemma_round_zero::<W, H>(self@, false);
                lemma_round_zero::<W, H>(self@, true);
            }
            return;
        }
        self.apply_morphology_with_buffer(steps, buffer, false, false);
        proof {
            self.lemma_view_on_board();
        }
        self.apply_morphology_with_buffer(steps, buffer, true, false);
        proof {
            self.lemma_wf_parts();
        }
        self.finalize();
    }

    /// Erodes set bits in all 8 directions; cells off the board count as unset.
    pub fn erode(&self, steps: u32) -> (r: Self)
        requires
            self.wf(),
            steps < u32::MAX,
        ensures
            r.wf(),
            r@ == eroded::<W, H>(self@, steps as int),
    {
        if steps == 0 {
            proof {
                self.lemma_view_on_board();
                lemma_two_axes::<W, H>(self@, 0);
                lemma_round_zero::<W, H>(self@, false);
                lemma_round_zero::<W, H>(self@, true);
            }
            return self.clone();
        }
        let mut res = self.clone();
        let mut buffer = Self::new();
        proof {
            self.lemma_unfold();
        }
        res.erode_with_buffer(steps, &mut buffer);
        res
    }
}

} // verus!
