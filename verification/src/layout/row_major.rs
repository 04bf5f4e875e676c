//! Row-major layout: every row starts on a word boundary and takes
//! `ceil(W / 64)` words; cell `(x, y)` is flat bit `y * 64 * ceil(W / 64) + x`.
use vstd::prelude::*;
use vstd::arithmetic::div_mod::{lemma_fundamental_div_mod_converse, lemma_fundamental_div_mod};
use super::{LayoutGeometry, BitLayout};
use crate::bits::{word_bit, make_mask, lemma_bit_ops, lemma_zero_and_full, lemma_single_bit};
use crate::grid::{cells, grid_ok, block_exact, data_bit, valid_pos, in_board, row_segment,
    rect_cells, block_len, all_zero, shifted_cells_h, shifted_cells_v, clean, fill_zero,
    rebuild_block, clear_block_bit};
use crate::runs::{apply_range, any_in_range, all_in_range};

verus! {

/// Standard row-aligned layout (Row-Major)
#[derive(Default, Clone, Copy, Debug, PartialEq, Eq)]
pub struct RowMajorLayout;

/// Words per row.
pub open spec fn row_words<const W: usize>() -> int {
    (W as int + 63) / 64
}

/// Flat bits per row.
pub open spec fn row_bits<const W: usize>() -> int {
    row_words::<W>() * 64
}

impl<const W: usize, const H: usize> LayoutGeometry<W, H> for RowMajorLayout {
    open spec fn dims_ok() -> bool {
        &&& 1 <= W <= 0x7fff_0000
        &&& 1 <= H <= 0x7fff_0000
        &&& row_words::<W>() * H * 64 + 64 <= usize::MAX
    }

    open spec fn spec_total_words() -> nat {
        (row_words::<W>() * H) as nat
    }

    open spec fn spec_pos(x: int, y: int) -> int {
        y * row_bits::<W>() + x
    }

    open spec fn spec_coord(p: int) -> (int, int) {
        (p % row_bits::<W>(), p / row_bits::<W>())
    }

    open spec fn spec_padding_word(w: int) -> bool {
        W % 64 != 0 && w % row_words::<W>() == row_words::<W>() - 1
    }

    open spec fn spec_index(x: int, y: int) -> int {
        y * W + x
    }

    open spec fn spec_has_padding() -> bool {
        W % 64 != 0
    }

    open spec fn spec_padding_mask() -> u64 {
        ((1u64 << ((W % 64) as u64)) - 1) as u64
    }

    open spec fn spec_tile(idx: usize) -> (i32, i32) {
        ((idx % W) as i32, (idx / W) as i32)
    }

    proof fn lemma_geometry() {
        let r = row_words::<W>();
        let s = row_bits::<W>();
        assert(r >= 1);
        assert(s >= W);
        assert(W + 63 >= s) by {
            assert(r * 64 <= W + 63);
        }
        assert(r * H >= H) by (nonlinear_arith)
            requires
                r >= 1,
                H >= 1,
        ;
        assert forall|x: int, y: int| #![trigger <Self as LayoutGeometry<W, H>>::spec_pos(x, y)] in_board::<W, H>(x, y) implies {
            &&& 0 <= <Self as LayoutGeometry<W, H>>::spec_pos(x, y) < <Self as LayoutGeometry<W, H>>::spec_total_words() * 64
            &&& <Self as LayoutGeometry<W, H>>::spec_coord(<Self as LayoutGeometry<W, H>>::spec_pos(x, y)) == (x, y)
        } by {
            lemma_pos_in_row::<W, H>(x, y);
        }
        assert forall|p: int| 0 <= p < <Self as LayoutGeometry<W, H>>::spec_total_words() * 64 implies {
            let c = #[trigger] <Self as LayoutGeometry<W, H>>::spec_coord(p);
            &&& 0 <= c.0 <= 0x7fff_ffff
            &&& 0 <= c.1 <= 0x7fff_ffff
        } by {
            lemma_coord_range::<W, H>(p);
        }
        assert forall|p: int|
            0 <= p < <Self as LayoutGeometry<W, H>>::spec_total_words() * 64 && !#[trigger] <Self as LayoutGeometry<W, H>>::spec_padding_word(
                p / 64,
            ) implies {
            let c = <Self as LayoutGeometry<W, H>>::spec_coord(p);
            in_board::<W, H>(c.0, c.1) && <Self as LayoutGeometry<W, H>>::spec_pos(c.0, c.1) == p
        } by {
            lemma_coord_range::<W, H>(p);
            lemma_split::<W>(p);
            let q = p / 64;
            if W % 64 == 0 {
                assert(s == W);
            } else {
                assert(q % r < r - 1);
                assert((q % r) * 64 + p % 64 < W) by (nonlinear_arith)
                    requires
                        q % r <= r - 2,
                        0 <= p % 64 < 64,
                        r * 64 <= W + 63,
                ;
            }
        }
        assert forall|x: int, y: int| #![trigger <Self as LayoutGeometry<W, H>>::spec_index(x, y)] in_board::<W, H>(x, y) implies {
            &&& 0 <= <Self as LayoutGeometry<W, H>>::spec_index(x, y) <= usize::MAX
            &&& <Self as LayoutGeometry<W, H>>::spec_tile(<Self as LayoutGeometry<W, H>>::spec_index(x, y) as usize) == (x as i32, y as i32)
        } by {
            assert(y * W + x < H * W) by (nonlinear_arith)
                requires
                    0 <= x < W,
                    0 <= y < H,
            ;
            assert(H * W <= r * H * 64) by (nonlinear_arith)
                requires
                    W <= r * 64,
                    H >= 1,
            ;
            assert(0 <= y * W) by (nonlinear_arith)
                requires
                    0 <= y,
                    W >= 1,
            ;
            lemma_fundamental_div_mod_converse(y * W + x, W as int, y, x);
        }
    }
}

/// An in-board cell's position splits back into its coordinates.
proof fn lemma_pos_in_row<const W: usize, const H: usize>(x: int, y: int)
    requires
        <RowMajorLayout as LayoutGeometry<W, H>>::dims_ok(),
        in_board::<W, H>(x, y),
    ensures
        0 <= y * row_bits::<W>() + x < row_words::<W>() * H * 64,
        (y * row_bits::<W>() + x) / row_bits::<W>() == y,
        (y * row_bits::<W>() + x) % row_bits::<W>() == x,
{
    let s = row_bits::<W>();
    assert(s >= W);
    lemma_fundamental_div_mod_converse(y * s + x, s, y, x);
    assert(y * s + x < H * s) by (nonlinear_arith)
        requires
            0 <= x < s,
            0 <= y < H,
    ;
    assert(0 <= y * s) by (nonlinear_arith)
        requires
            0 <= y,
            s >= 0,
    ;
    assert(H * s == row_words::<W>() * H * 64) by (nonlinear_arith)
        requires
            s == row_words::<W>() * 64,
    ;
}

/// Coordinates of stored positions are small.
proof fn lemma_coord_range<const W: usize, const H: usize>(p: int)
    requires
        <RowMajorLayout as LayoutGeometry<W, H>>::dims_ok(),
        0 <= p < row_words::<W>() * H * 64,
    ensures
        0 <= p % row_bits::<W>() < row_bits::<W>(),
        0 <= p / row_bits::<W>() < H,
        p == (p / row_bits::<W>()) * row_bits::<W>() + p % row_bits::<W>(),
        row_bits::<W>() <= W + 63,
{
    let s = row_bits::<W>();
    assert(s * 1 <= W + 63);
    assert(row_words::<W>() * H * 64 == H * s) by (nonlinear_arith)
        requires
            s == row_words::<W>() * 64,
    ;
    assert(p / s < H) by (nonlinear_arith)
        requires
            0 <= p < H * s,
            s > 0,
    ;
    lemma_fundamental_div_mod(p, s);
    assert(s * (p / s) == (p / s) * s) by (nonlinear_arith);
}

/// A flat position splits into row and column the same way as its word.
proof fn lemma_split<const W: usize>(p: int)
    requires
        0 <= p,
        W >= 1,
    ensures
        p / row_bits::<W>() == (p / 64) / row_words::<W>(),
        p % row_bits::<W>() == ((p / 64) % row_words::<W>()) * 64 + p % 64,
{
    let r = row_words::<W>();
    let q = p / 64;
    let a = q / r;
    let b = q % r;
    lemma_fundamental_div_mod(q, r);
    assert(r * a == a * r) by (nonlinear_arith);
    assert(q == a * r + b);
    assert(p == q * 64 + p % 64);
    assert(p == a * (r * 64) + (b * 64 + p % 64)) by (nonlinear_arith)
        requires
            q == a * r + b,
            p == q * 64 + p % 64,
    ;
    assert(0 <= b * 64 + p % 64 < r * 64) by (nonlinear_arith)
        requires
            0 <= b < r,
            0 <= p % 64 < 64,
    ;
    lemma_fundamental_div_mod_converse(p, r * 64, a, b * 64 + p % 64);
}

/// Flat position of column `x` of row `y`, as a word and bit.
proof fn lemma_row_word<const W: usize>(y: int, k: int, j: int)
    requires
        0 <= y,
        0 <= k < row_words::<W>(),
        0 <= j < 64,
    ensures
        (y * row_bits::<W>() + k * 64 + j) / 64 == y * row_words::<W>() + k,
        (y * row_bits::<W>() + k * 64 + j) % 64 == j,
{
    let r = row_words::<W>();
    assert(y * row_bits::<W>() + k * 64 + j == (y * r + k) * 64 + j) by (nonlinear_arith)
        requires
            row_bits::<W>() == r * 64,
    ;
    lemma_fundamental_div_mod_converse(y * row_bits::<W>() + k * 64 + j, 64, y * r + k, j);
}

/// Which flat positions stand for cells.
proof fn lemma_valid<const W: usize, const H: usize>(p: int)
    requires
        <RowMajorLayout as LayoutGeometry<W, H>>::dims_ok(),
    ensures
        valid_pos::<W, H, RowMajorLayout>(p) == (0 <= p < row_words::<W>() * H * 64 && p
            % row_bits::<W>() < W),
{
    if 0 <= p < row_words::<W>() * H * 64 {
        lemma_coord_range::<W, H>(p);
    }
}

/// The bit of row `y`, column `x` of `src` (false off the stored row).
pub open spec fn row_bit<const W: usize>(src: Seq<u64>, y: int, x: int) -> bool {
    0 <= x < row_bits::<W>() && data_bit(src, y * row_bits::<W>() + x)
}

/// Row `y` of `dst` holds row `y` of `src` moved right by `d` columns.
pub open spec fn row_moved<const W: usize>(dst: Seq<u64>, src: Seq<u64>, y: int, d: int) -> bool {
    forall|k: int, j: int|
        0 <= k < row_words::<W>() && 0 <= j < 64 ==> #[trigger] word_bit(
            dst[y * row_words::<W>() + k],
            j,
        ) == row_bit::<W>(src, y, k * 64 + j - d)
}

/// Words of row `y` from column-word `k0` on are zero.
pub open spec fn row_zero_from<const W: usize>(dst: Seq<u64>, y: int, k0: int) -> bool {
    forall|k: int| k0 <= k < row_words::<W>() ==> #[trigger] dst[y * row_words::<W>() + k] == 0
}

proof fn lemma_row_index<const W: usize, const H: usize>(y: int, k: int)
    requires
        <RowMajorLayout as LayoutGeometry<W, H>>::dims_ok(),
        0 <= y < H,
        0 <= k < row_words::<W>(),
    ensures
        0 <= y * row_words::<W>() + k < row_words::<W>() * H,
{
    let r = row_words::<W>();
    assert(y * r + k < r * H) by (nonlinear_arith)
        requires
            0 <= k < r,
            0 <= y < H,
    ;
    assert(0 <= y * r) by (nonlinear_arith)
        requires
            0 <= y,
            r >= 0,
    ;
}

/// The cell-level meaning of a fully moved storage.
proof fn lemma_moved_cells<const W: usize, const H: usize>(
    dst: Seq<u64>,
    src: Seq<u64>,
    dx: int,
    dy: int,
)
    requires
        <RowMajorLayout as LayoutGeometry<W, H>>::dims_ok(),
        src.len() == row_words::<W>() * H,
        dst.len() == row_words::<W>() * H,
        clean::<W, H, RowMajorLayout>(src),
        forall|y: int, x: int|
            0 <= y < H && 0 <= x < row_bits::<W>() ==> #[trigger] row_bit::<W>(dst, y, x) == (0
                <= y - dy < H && row_bit::<W>(src, y - dy, x - dx)),
    ensures
        forall|p: int|
            valid_pos::<W, H, RowMajorLayout>(p) ==> #[trigger] data_bit(dst, p) == (in_board::<
                W,
                H,
            >((p % row_bits::<W>()), (p / row_bits::<W>()))
                && cells::<W, H, RowMajorLayout>(src).contains(
                ((p % row_bits::<W>()) - dx, (p / row_bits::<W>()) - dy),
            )),
{
    let s = row_bits::<W>();
    assert forall|p: int| valid_pos::<W, H, RowMajorLayout>(p) implies #[trigger] data_bit(dst, p)
        == (in_board::<W, H>((p % row_bits::<W>()), (p / row_bits::<W>()))
        && cells::<W, H, RowMajorLayout>(src).contains(
        ((p % row_bits::<W>()) - dx, (p / row_bits::<W>()) - dy),
    )) by {
        lemma_coord_range::<W, H>(p);
        let x = p % s;
        let y = p / s;
        assert(row_bit::<W>(dst, y, x) == data_bit(dst, p));
        let sx = x - dx;
        let sy = y - dy;
        if 0 <= sy < H && 0 <= sx < s {
            let q = sy * s + sx;
            lemma_valid::<W, H>(q);
            if 0 <= sx < W {
                lemma_pos_in_row::<W, H>(sx, sy);
            } else {
                lemma_pos_in_row::<W, H>(0, sy);
                assert(q % s == sx) by {
                    lemma_fundamental_div_mod_converse(q, s, sy, sx);
                }
                assert(!data_bit(src, q));
            }
        }
    }
}

proof fn bv_shl_carry(a: u64, b: u64, bo: u64, j: u64) by (bit_vector)
    requires
        1 <= bo < 64,
        j < 64,
    ensures
        (((a << bo) | (b >> ((64 - bo) as u64))) >> j) & 1 == 1 <==> (if j >= bo {
            (a >> ((j - bo) as u64)) & 1 == 1
        } else {
            (b >> ((j + 64 - bo) as u64)) & 1 == 1
        }),
        (((a << bo) | 0u64) >> j) & 1 == 1 <==> (j >= bo && (a >> ((j - bo) as u64)) & 1 == 1),
{
}

proof fn bv_shr_carry(a: u64, b: u64, bo: u64, j: u64) by (bit_vector)
    requires
        1 <= bo < 64,
        j < 64,
    ensures
        (((a >> bo) | (b << ((64 - bo) as u64))) >> j) & 1 == 1 <==> (if j + bo < 64 {
            (a >> ((j + bo) as u64)) & 1 == 1
        } else {
            (b >> ((j + bo - 64) as u64)) & 1 == 1
        }),
        (((a >> bo) | 0u64) >> j) & 1 == 1 <==> (j + bo < 64 && (a >> ((j + bo) as u64)) & 1
            == 1),
{
}

/// Copies `src[from..from + n]` into `dst[to..to + n]`.
fn copy_words(src: &Vec<u64>, from: usize, dst: &mut Vec<u64>, to: usize, n: usize)
    requires
        from + n <= src.len(),
        to + n <= old(dst).len(),
    ensures
        final(dst).len() == old(dst).len(),
        forall|i: int|
            0 <= i < final(dst).len() ==> #[trigger] final(dst)@[i] == if to <= i < to + n {
                src@[i - to + from]
            } else {
                old(dst)@[i]
            },
{
    let mut k: usize = 0;
    while k < n
        invariant
            from + n <= src.len(),
            to + n <= dst.len(),
            dst.len() == old(dst).len(),
            k <= n,
            forall|i: int|
                0 <= i < dst.len() ==> #[trigger] dst@[i] == if to <= i < to + k {
                    src@[i - to + from]
                } else {
                    old(dst)@[i]
                },
        decreases n - k,
    {
        dst.set(to + k, src[from + k]);
        k += 1;
    }
}

impl RowMajorLayout {
    /// Generates a mask of the bits `start_bit..=end_bit`.
    fn make_mask(start_bit: usize, end_bit: usize) -> (m: u64)
        requires
            start_bit <= end_bit < 64,
        ensures
            forall|j: int| #[trigger] word_bit(m, j) == (start_bit <= j <= end_bit),
            m != 0,
    {
        make_mask(start_bit, end_bit)
    }
}


/// A run of columns of one row, as a run of flat positions.
proof fn lemma_span<const W: usize>(p: int, row: int, a: int, b: int)
    requires
        W >= 1,
        0 <= row,
        0 <= a <= b < row_bits::<W>(),
    ensures
        (row * row_bits::<W>() + a <= p <= row * row_bits::<W>() + b) == (0 <= p && p / row_bits::<
            W,
        >() == row && a <= p % row_bits::<W>() <= b),
{
    let s = row_bits::<W>();
    assert(0 <= row * s) by (nonlinear_arith)
        requires
            0 <= row,
            s >= 0,
    ;
    if 0 <= p {
        lemma_fundamental_div_mod(p, s);
        assert(s > 0);
        let q = p / s;
        let m = p % s;
        assert(p == q * s + m) by (nonlinear_arith)
            requires
                p == s * q + m,
        ;
        if q < row {
            assert(q * s + m < row * s) by (nonlinear_arith)
                requires
                    0 <= q < row,
                    m < s,
                    s > 0,
            ;
        } else if q > row {
            assert(q * s + m >= row * s + s) by (nonlinear_arith)
                requires
                    q >= row + 1,
                    m >= 0,
                    s > 0,
            ;
        }
    }
}

    /// Sets or clears the columns `x_lo..=x_hi` of row `row`.
    fn fill_span<const W: usize, const H: usize>(
        data: &mut Vec<u64>,
        block: &mut Vec<u64>,
        row: usize,
        x_lo: usize,
        x_hi: usize,
        value: bool,
    )
        requires
            <RowMajorLayout as LayoutGeometry<W, H>>::dims_ok(),
            old(data).len() == row_words::<W>() * H,
            block_exact(old(data)@, old(block)@),
            row < H,
            x_lo <= x_hi < W,
        ensures
            final(data).len() == old(data).len(),
            block_exact(final(data)@, final(block)@),
            forall|p: int|
                #[trigger] data_bit(final(data)@, p) == if 0 <= p && p / row_bits::<W>() == row
                    && x_lo <= p % row_bits::<W>() <= x_hi {
                    value
                } else {
                    data_bit(old(data)@, p)
                },
    {
        let row_u64s = (W + 63) / 64;
        proof {
            lemma_pos_in_row::<W, H>(x_hi as int, row as int);
            assert(row_bits::<W>() >= W);
        }
        let lo = row * (row_u64s * 64) + x_lo;
        let hi = row * (row_u64s * 64) + x_hi;
        apply_range(data, block, lo, hi, value);
        proof {
            assert forall|p: int|
                #[trigger] data_bit(data@, p) == if 0 <= p && p / row_bits::<W>() == row && x_lo
                    <= p % row_bits::<W>() <= x_hi {
                    value
                } else {
                    data_bit(old(data)@, p)
                } by {
                lemma_span::<W>(p, row as int, x_lo as int, x_hi as int);
            }
        }
    }

    /// Moves row `y` of `src` right (`positive`) or left by `wo` whole words.
    fn shift_row_aligned<const W: usize, const H: usize>(
        src: &Vec<u64>,
        dst: &mut Vec<u64>,
        y: usize,
        wo: usize,
        positive: bool,
    )
        requires
            <RowMajorLayout as LayoutGeometry<W, H>>::dims_ok(),
            src.len() == row_words::<W>() * H,
            old(dst).len() == row_words::<W>() * H,
            y < H,
            wo < row_words::<W>(),
            row_zero_from::<W>(old(dst)@, y as int, 0),
        ensures
            final(dst).len() == old(dst).len(),
            row_moved::<W>(
                final(dst)@,
                src@,
                y as int,
                if positive {
                    wo * 64
                } else {
                    -(wo * 64)
                },
            ),
            forall|i: int|
                0 <= i < old(dst).len() && !(y * row_words::<W>() <= i < (y + 1) * row_words::<W>())
                    ==> #[trigger] final(dst)@[i] == old(dst)@[i],
    {
        let row_u64s = (W + 63) / 64;
        proof {
            lemma_row_index::<W, H>(y as int, row_u64s - 1);
        }
        let row_base = y * row_u64s;
        let ghost r = row_words::<W>();
        let ghost d: int = if positive {
            wo * 64
        } else {
            -(wo * 64)
        };
        proof {
            assert((y + 1) * r == y * r + r) by (nonlinear_arith);
        }
        if positive {
            if wo < row_u64s {
                copy_words(src, row_base, dst, row_base + wo, row_u64s - wo);
            }
        } else if wo < row_u64s {
            copy_words(src, row_base + wo, dst, row_base, row_u64s - wo);
        }
        proof {
            lemma_zero_and_full();
            assert forall|k: int, j: int| 0 <= k < r && 0 <= j < 64 implies #[trigger] word_bit(
                dst@[y * r + k],
                j,
            ) == row_bit::<W>(src@, y as int, k * 64 + j - d) by {
                assert(dst@[y * r + k] == old(dst)@[y * r + k] || wo < r);
                let x = k * 64 + j - d;
                let sk = if positive {
                    k - wo
                } else {
                    k + wo
                };
                assert(x == sk * 64 + j);
                if 0 <= sk < r {
                    lemma_row_word::<W>(y as int, sk, j);
                    assert(dst@[y * r + k] == src@[y * r + sk]);
                } else if sk < 0 {
                    assert(x < 0);
                } else {
                    assert(x >= r * 64);
                }
            }
        }
    }

    /// Moves row `y` of `src` right (`positive`) or left by `wo` words and
    /// `bo` bits, carrying the bits that cross word boundaries.
    fn shift_row_carry<const W: usize, const H: usize>(
        src: &Vec<u64>,
        dst: &mut Vec<u64>,
        y: usize,
        wo: usize,
        bo: u32,
        positive: bool,
    )
        requires
            <RowMajorLayout as LayoutGeometry<W, H>>::dims_ok(),
            src.len() == row_words::<W>() * H,
            old(dst).len() == row_words::<W>() * H,
            y < H,
            1 <= bo < 64,
            wo < row_words::<W>(),
            row_zero_from::<W>(old(dst)@, y as int, 0),
        ensures
            final(dst).len() == old(dst).len(),
            row_moved::<W>(
                final(dst)@,
                src@,
                y as int,
                if positive {
                    wo * 64 + bo
                } else {
                    -(wo * 64 + bo)
                },
            ),
            forall|i: int|
                0 <= i < old(dst).len() && !(y * row_words::<W>() <= i < (y + 1) * row_words::<W>())
                    ==> #[trigger] final(dst)@[i] == old(dst)@[i],
    {
        let row_u64s = (W + 63) / 64;
        proof {
            lemma_row_index::<W, H>(y as int, row_u64s - 1);
        }
        let row_base = y * row_u64s;
        let inv_bit_offset = 64 - bo;
        let ghost r = row_words::<W>();
        let ghost d: int = if positive {
            wo * 64 + bo
        } else {
            -(wo * 64 + bo)
        };
        proof {
            assert((y + 1) * r == y * r + r) by (nonlinear_arith);
            assert(y * r + r + r <= r * H * 64) by (nonlinear_arith)
                requires
                    0 <= y < H,
                    r >= 1,
            ;
            <RowMajorLayout as LayoutGeometry<W, H>>::lemma_geometry();
            lemma_zero_and_full();
        }
        if positive {
            // From low to high words; the top bits of each word carry into the next one.
            let mut carry: u64 = 0;
            let mut i: usize = 0;
            proof {
                assert forall|k: int, j: int|
                    0 <= k < r && k < i + wo && 0 <= j < 64 implies #[trigger] word_bit(
                    dst@[y * r + k],
                    j,
                ) == row_bit::<W>(src@, y as int, k * 64 + j - d) by {
                    assert(dst@[y * r + k] == 0);
                }
            }
            while i < row_u64s
                invariant
                    dst.len() == old(dst).len(),
                    src.len() == dst.len(),
                    row_base == y * r,
                    row_u64s == r,
                    r == row_words::<W>(),
                    0 <= y * r,
                    y * r + r <= dst.len(),
                    i <= r,
                    inv_bit_offset == 64 - bo,
                    1 <= bo < 64,
                    d == wo * 64 + bo,
                    positive,
                    wo < r,
                    y * r + r + r <= usize::MAX,
                    carry == if i == 0 {
                        0u64
                    } else {
                        src@[y * r + i - 1] >> (inv_bit_offset as u64)
                    },
                    forall|k: int, j: int|
                        0 <= k < r && k < i + wo && 0 <= j < 64 ==> #[trigger] word_bit(
                            dst@[y * r + k],
                            j,
                        ) == row_bit::<W>(src@, y as int, k * 64 + j - d),
                    forall|k: int| 0 <= k < r && k >= i + wo ==> #[trigger] dst@[y * r + k] == 0,
                    forall|ii: int|
                        0 <= ii < dst.len() && !(y * r <= ii < y * r + r) ==> #[trigger] dst@[ii]
                            == old(dst)@[ii],
                decreases r - i,
            {
                let idx = row_base + i;
                let shifted_idx = idx + wo;
                if shifted_idx < row_base + row_u64s {
                    let val = src[idx];
                    dst.set(shifted_idx, (val << bo) | carry);
                    carry = val >> inv_bit_offset;
                    proof {
                        let k = (i + wo) as int;
                        assert forall|j: int| 0 <= j < 64 implies #[trigger] word_bit(
                            dst@[y * r + k],
                            j,
                        ) == row_bit::<W>(src@, y as int, k * 64 + j - d) by {
                            let x = k * 64 + j - d;
                            assert(x == i * 64 + j - bo);
                            if i == 0 {
                                bv_shl_carry(val, 0, bo as u64, j as u64);
                                if j >= bo {
                                    lemma_row_word::<W>(y as int, i as int, j - bo);
                                }
                            } else {
                                bv_shl_carry(val, src@[y * r + i - 1], bo as u64, j as u64);
                                if j >= bo {
                                    lemma_row_word::<W>(y as int, i as int, j - bo);
                                } else {
                                    lemma_row_word::<W>(y as int, i - 1, j + 64 - bo);
                                }
                            }
                        }
                    }
                } else {
                    carry = src[idx] >> inv_bit_offset;
                }
                i += 1;
            }
            proof {
                assert forall|k: int, j: int| 0 <= k < r && 0 <= j < 64 implies #[trigger] word_bit(
                    dst@[y * r + k],
                    j,
                ) == row_bit::<W>(src@, y as int, k * 64 + j - d) by {}
            }
        } else {
            // From high to low words; the low bits of each word carry into the previous one.
            let mut carry: u64 = 0;
            let mut i: usize = row_u64s;
            proof {
                assert forall|k: int, j: int|
                    0 <= k < r && k + wo >= i && 0 <= j < 64 implies #[trigger] word_bit(
                    dst@[y * r + k],
                    j,
                ) == row_bit::<W>(src@, y as int, k * 64 + j - d) by {
                    assert(dst@[y * r + k] == 0);
                    assert(k * 64 + j - d >= r * 64);
                }
            }
            while i > 0
                invariant
                    dst.len() == old(dst).len(),
                    src.len() == dst.len(),
                    row_base == y * r,
                    row_u64s == r,
                    r == row_words::<W>(),
                    0 <= y * r,
                    y * r + r <= dst.len(),
                    i <= r,
                    inv_bit_offset == 64 - bo,
                    1 <= bo < 64,
                    d == -(wo * 64 + bo),
                    !positive,
                    carry == if i == r {
                        0u64
                    } else {
                        src@[y * r + i] << (inv_bit_offset as u64)
                    },
                    forall|k: int, j: int|
                        0 <= k < r && k + wo >= i && 0 <= j < 64 ==> #[trigger] word_bit(
                            dst@[y * r + k],
                            j,
                        ) == row_bit::<W>(src@, y as int, k * 64 + j - d),
                    forall|k: int| 0 <= k < r && k + wo < i ==> #[trigger] dst@[y * r + k] == 0,
                    forall|ii: int|
                        0 <= ii < dst.len() && !(y * r <= ii < y * r + r) ==> #[trigger] dst@[ii]
                            == old(dst)@[ii],
                decreases i,
            {
                i -= 1;
                let idx = row_base + i;
                if idx >= wo {
                    let shifted_idx = idx - wo;
                    if shifted_idx >= row_base {
                        let val = src[idx];
                        dst.set(shifted_idx, (val >> bo) | carry);
                        carry = val << inv_bit_offset;
                        proof {
                            let k = i - wo;
                            assert forall|j: int| 0 <= j < 64 implies #[trigger] word_bit(
                                dst@[y * r + k],
                                j,
                            ) == row_bit::<W>(src@, y as int, k * 64 + j - d) by {
                                let x = k * 64 + j - d;
                                assert(x == i * 64 + j + bo);
                                if i + 1 == r {
                                    bv_shr_carry(val, 0, bo as u64, j as u64);
                                    if j + bo < 64 {
                                        lemma_row_word::<W>(y as int, i as int, j + bo);
                                    } else {
                                        assert(x >= r * 64);
                                    }
                                } else {
                                    bv_shr_carry(val, src@[y * r + i + 1], bo as u64, j as u64);
                                    if j + bo < 64 {
                                        lemma_row_word::<W>(y as int, i as int, j + bo);
                                    } else {
                                        lemma_row_word::<W>(y as int, i + 1, j + bo - 64);
                                    }
                                }
                            }
                        }
                    } else {
                        carry = src[idx] << inv_bit_offset;
                    }
                } else {
                    carry = src[idx] << inv_bit_offset;
                }
            }
        }
    }

impl<const W: usize, const H: usize> BitLayout<W, H> for RowMajorLayout {
    fn dims_supported() -> (r: bool) {
        if W < 1 || W > 0x7fff_0000 || H < 1 || H > 0x7fff_0000 {
            return false;
        }
        let r = (W + 63) / 64;
        // Rows times words per row, then bits, must fit the address space.
        match r.checked_mul(H) {
            Some(t) => t <= (usize::MAX - 64) / 64,
            None => false,
        }
    }

    fn total_words() -> (r: usize) {
        ((W + 63) / 64) * H
    }

    fn coord_to_word_bit(x: i32, y: i32) -> (r: Option<(usize, u32)>) {
        if x < 0 || y < 0 || x >= W as i32 || y >= H as i32 {
            return None;
        }
        let row_u64s = (W + 63) / 64;
        proof {
            lemma_pos_in_row::<W, H>(x as int, y as int);
            assert(y * row_u64s + x / 64 <= y * row_u64s * 64 + x) by (nonlinear_arith)
                requires
                    y >= 0,
                    x >= 0,
                    row_u64s >= 1,
            ;
            assert(0 <= y * row_u64s) by (nonlinear_arith)
                requires
                    y >= 0,
                    row_u64s >= 1,
            ;
            assert(y * row_bits::<W>() == y * row_u64s * 64) by (nonlinear_arith)
                requires
                    row_bits::<W>() == row_u64s * 64,
            ;
        }
        let word = y as usize * row_u64s + x as usize / 64;
        let bit = (x as usize % 64) as u32;
        proof {
            assert(word * 64 + bit == y * row_u64s * 64 + x) by (nonlinear_arith)
                requires
                    word == y * row_u64s + x / 64,
                    bit == x % 64,
                    x >= 0,
            ;
        }
        Some((word, bit))
    }

    fn word_bit_to_coord(word: usize, bit: u32) -> (r: (i32, i32)) {
        let row_u64s = (W + 63) / 64;
        let y = word / row_u64s;
        let x = (word % row_u64s) * 64 + bit as usize;
        proof {
            let p = word * 64 + bit;
            lemma_split::<W>(p);
            assert(p / 64 == word && p % 64 == bit);
            lemma_coord_range::<W, H>(p);
        }
        (x as i32, y as i32)
    }

    fn flat_index_to_coord(idx: usize) -> (r: (i32, i32)) {
        ((idx % W) as i32, (idx / W) as i32)
    }

    fn coord_to_flat_index(x: i32, y: i32) -> (r: Option<usize>) {
        if x < 0 || y < 0 || x >= W as i32 || y >= H as i32 {
            None
        } else {
            proof {
                <RowMajorLayout as LayoutGeometry<W, H>>::lemma_geometry();
                assert(<RowMajorLayout as LayoutGeometry<W, H>>::spec_index(x as int, y as int)
                    <= usize::MAX);
            }
            Some(y as usize * W + x as usize)
        }
    }

    fn has_padding() -> (r: bool) {
        !W.is_multiple_of(64)
    }

    fn padding_mask() -> (r: u64) {
        let n = (W % 64) as u64;
        assert(1u64 << n >= 1) by (bit_vector)
            requires
                n < 64,
        ;
        (1u64 << n) - 1
    }

    fn clear_padding(data: &mut Vec<u64>) {
        if !<Self as BitLayout<W, H>>::has_padding() {
            proof {
                assert forall|p: int| #[trigger] data_bit(data@, p) == (data_bit(old(data)@, p)
                    && valid_pos::<W, H, Self>(p)) by {
                    if 0 <= p < data.len() * 64 {
                        lemma_valid::<W, H>(p);
                        lemma_split::<W>(p);
                        lemma_fundamental_div_mod(W as int, 64);
                        assert(W as int == (W as int / 64) * 64);
                        lemma_fundamental_div_mod_converse(W as int + 63, 64, W as int / 64, 63);
                        assert(row_bits::<W>() == W);
                    }
                }
            }
            return;
        }
        let mask = <Self as BitLayout<W, H>>::padding_mask();
        proof {
            let n = (W % 64) as u64;
            assert(1u64 << n >= 1) by (bit_vector)
                requires
                    n < 64,
            ;
            assert forall|j: int| #[trigger] word_bit(mask, j) == (0 <= j < W % 64) by {
                if 0 <= j < 64 {
                    bv_low_mask(mask, n, j as u64);
                }
            }
        }
        let row_u64s = (W + 63) / 64;
        let ghost r = row_words::<W>();
        let mut row: usize = 0;
        while row < H
            invariant
                data.len() == old(data).len(),
                data.len() == r * H,
                row_u64s == r,
                r == row_words::<W>(),
                r >= 1,
                row <= H,
                <RowMajorLayout as LayoutGeometry<W, H>>::dims_ok(),
                forall|j: int| #[trigger] word_bit(mask, j) == (0 <= j < W % 64),
                forall|w: int|
                    0 <= w < data.len() ==> #[trigger] data@[w] == if w % r == r - 1 && w / r
                        < row {
                        old(data)@[w] & mask
                    } else {
                        old(data)@[w]
                    },
            decreases H - row,
        {
            proof {
                lemma_row_index::<W, H>(row as int, r - 1);
            }
            let last = row * row_u64s + row_u64s - 1;
            proof {
                lemma_fundamental_div_mod_converse(last as int, r, row as int, r - 1);
            }
            let v = data[last] & mask;
            data.set(last, v);
            proof {
                assert forall|w: int| 0 <= w < data.len() implies #[trigger] data@[w] == if w % r
                    == r - 1 && w / r < row + 1 {
                    old(data)@[w] & mask
                } else {
                    old(data)@[w]
                } by {
                    if w % r == r - 1 && w / r == row {
                        lemma_fundamental_div_mod(w, r);
                        assert(w == r * row + r - 1);
                        assert(r * row == row * r) by (nonlinear_arith);
                    }
                }
            }
            row += 1;
        }
        proof {
            assert forall|p: int| #[trigger] data_bit(data@, p) == (data_bit(old(data)@, p)
                && valid_pos::<W, H, Self>(p)) by {
                if 0 <= p < data.len() * 64 {
                    lemma_valid::<W, H>(p);
                    lemma_split::<W>(p);
                    let w = p / 64;
                    lemma_coord_range::<W, H>(p);
                    assert(w / r < H) by {
                        assert(p / row_bits::<W>() == w / r);
                    }
                    if w % r == r - 1 {
                        lemma_bit_ops(old(data)@[w], mask);
                        assert(r * 64 - 64 + W % 64 == W) by {
                            lemma_fundamental_div_mod(W as int, 64);
                        assert(W as int + 63 == (W as int / 64 + 1) * 64 + W as int % 64 - 1);
                        lemma_fundamental_div_mod_converse(
                            W as int + 63,
                            64,
                            W as int / 64 + 1,
                            W as int % 64 - 1,
                        );
                        assert(r == W / 64 + 1);
                        }
                    } else {
                        assert((w % r) * 64 + p % 64 < W) by (nonlinear_arith)
                            requires
                                w % r <= r - 2,
                                0 <= p % 64 < 64,
                                r * 64 <= W + 63,
                        ;
                    }
                }
            }
        }
    }

    fn fix_padding_block_mask(data: &Vec<u64>, block: &mut Vec<u64>) {
        if !<Self as BitLayout<W, H>>::has_padding() {
            return;
        }
        let row_u64s = (W + 63) / 64;
        let ghost r = row_words::<W>();
        let mut row: usize = 0;
        while row < H
            invariant
                data.len() == r * H,
                block.len() == block_len(data.len() as int),
                row_u64s == r,
                r == row_words::<W>(),
                r >= 1,
                row <= H,
                <RowMajorLayout as LayoutGeometry<W, H>>::dims_ok(),
                forall|i: int|
                    0 <= i < data.len() && data@[i] != 0 ==> #[trigger] data_bit(block@, i),
                forall|i: int|
                    #[trigger] data_bit(block@, i) ==> 0 <= i < data.len() && (data@[i] != 0 || (
                    i % r == r - 1 && i / r >= row)),
            decreases H - row,
        {
            proof {
                lemma_row_index::<W, H>(row as int, r - 1);
            }
            let idx = row * row_u64s + row_u64s - 1;
            proof {
                lemma_fundamental_div_mod_converse(idx as int, r, row as int, r - 1);
            }
            if data[idx] == 0 {
                clear_block_bit(block, idx);
            }
            proof {
                assert forall|i: int| #[trigger] data_bit(block@, i) implies 0 <= i < data.len() && (
                data@[i] != 0 || (i % r == r - 1 && i / r >= row + 1)) by {
                    if i % r == r - 1 && i / r == row && data@[i] == 0 {
                        lemma_fundamental_div_mod(i, r);
                        assert(i == r * row + r - 1);
                        assert(r * row == row * r) by (nonlinear_arith);
                    }
                }
            }
            row += 1;
        }
        proof {
            assert forall|i: int| #[trigger] data_bit(block@, i) implies 0 <= i < data.len()
                && data@[i] != 0 by {
                if i % r == r - 1 {
                    assert(i / r < H) by (nonlinear_arith)
                        requires
                            0 <= i < r * H,
                            r >= 1,
                    ;
                }
            }
        }
    }

    fn shift_horizontal(
        src: &Vec<u64>,
        block: &Vec<u64>,
        dst: &mut Vec<u64>,
        dst_block: &mut Vec<u64>,
        dist: i32,
    ) {
        proof {
            <RowMajorLayout as LayoutGeometry<W, H>>::lemma_geometry();
        }
        fill_zero(dst);
        fill_zero(dst_block);
        if dist == 0 {
            copy_words(src, 0, dst, 0, src.len());
            copy_words(block, 0, dst_block, 0, block.len());
            proof {
                assert(dst@ =~= src@);
                assert(dst_block@ =~= block@);
                assert forall|p: int| valid_pos::<W, H, Self>(p) implies #[trigger] data_bit(
                    dst@,
                    p,
                ) == shifted_cells_h::<W, H>(cells::<W, H, Self>(src@), dist as int).contains(
                    <Self as LayoutGeometry<W, H>>::spec_coord(p),
                ) by {}
            }
            return;
        }
        let abs_dist: usize = if dist < 0 {
            (0i64 - dist as i64) as usize
        } else {
            dist as usize
        };
        if abs_dist >= W {
            // Shifts by the board width or more clear everything.
            fill_zero(dst);
            fill_zero(dst_block);
            proof {
                crate::grid::lemma_zero_grid::<W, H, Self>(dst@, dst_block@);
                assert forall|p: int| valid_pos::<W, H, Self>(p) implies #[trigger] data_bit(
                    dst@,
                    p,
                ) == shifted_cells_h::<W, H>(cells::<W, H, Self>(src@), dist as int).contains(
                    <Self as LayoutGeometry<W, H>>::spec_coord(p),
                ) by {}
            }
            return;
        }
        let row_u64s = (W + 63) / 64;
        let word_offset = abs_dist / 64;
        let bit_offset = (abs_dist % 64) as u32;
        let ghost r = row_words::<W>();
        let ghost d = dist as int;
        let mut y: usize = 0;
        proof {
            assert forall|yy: int| 0 <= yy < H implies #[trigger] row_zero_from::<W>(dst@, yy, 0) by {
                assert forall|k: int| 0 <= k < r implies #[trigger] dst@[yy * r + k] == 0 by {
                    lemma_row_index::<W, H>(yy, k);
                }
            }
            assert(word_offset < r);
        }
        while y < H
            invariant
                <RowMajorLayout as LayoutGeometry<W, H>>::dims_ok(),
                src.len() == r * H,
                dst.len() == r * H,
                row_u64s == r,
                r == row_words::<W>(),
                y <= H,
                d == dist,
                d != 0,
                abs_dist == if d < 0 {
                    -d
                } else {
                    d
                },
                abs_dist < W,
                word_offset == abs_dist / 64,
                bit_offset == abs_dist % 64,
                word_offset < r,
                forall|yy: int| 0 <= yy < y ==> #[trigger] row_moved::<W>(dst@, src@, yy, d),
                forall|yy: int| y <= yy < H ==> #[trigger] row_zero_from::<W>(dst@, yy, 0),
            decreases H - y,
        {
            let ghost before = dst@;
            if bit_offset == 0 {
                shift_row_aligned::<W, H>(src, dst, y, word_offset, dist > 0);
            } else {
                shift_row_carry::<W, H>(src, dst, y, word_offset, bit_offset, dist > 0);
            }
            proof {
                assert(row_moved::<W>(dst@, src@, y as int, d));
                assert forall|yy: int| 0 <= yy < y implies #[trigger] row_moved::<W>(
                    dst@,
                    src@,
                    yy,
                    d,
                ) by {
                    assert(row_moved::<W>(before, src@, yy, d));
                    assert forall|k: int| 0 <= k < r implies #[trigger] dst@[yy * r + k]
                        == before[yy * r + k] by {
                        lemma_row_index::<W, H>(yy, k);
                        assert((yy + 1) * r <= y * r) by (nonlinear_arith)
                            requires
                                yy + 1 <= y,
                                r >= 0,
                        ;
                        assert((yy + 1) * r == yy * r + r) by (nonlinear_arith);
                    }
                }
                assert forall|yy: int| y + 1 <= yy < H implies #[trigger] row_zero_from::<W>(
                    dst@,
                    yy,
                    0,
                ) by {
                    assert(row_zero_from::<W>(before, yy, 0));
                    assert forall|k: int| 0 <= k < r implies #[trigger] dst@[yy * r + k] == 0 by {
                        lemma_row_index::<W, H>(yy, k);
                        assert((y + 1) * r <= yy * r) by (nonlinear_arith)
                            requires
                                y + 1 <= yy,
                                r >= 0,
                        ;
                        assert((y + 1) * r == y * r + r) by (nonlinear_arith);
                        assert(before[yy * r + k] == 0);
                    }
                }
            }
            y += 1;
        }
        rebuild_block(dst, dst_block);
        proof {
            lemma_rows_to_cells_h::<W, H>(dst@, src@, d);
        }
    }

    fn shift_vertical(
        src: &Vec<u64>,
        block: &Vec<u64>,
        dst: &mut Vec<u64>,
        dst_block: &mut Vec<u64>,
        dist: i32,
    ) {
        proof {
            <RowMajorLayout as LayoutGeometry<W, H>>::lemma_geometry();
        }
        fill_zero(dst);
        fill_zero(dst_block);
        if dist == 0 {
            copy_words(src, 0, dst, 0, src.len());
            copy_words(block, 0, dst_block, 0, block.len());
            proof {
                assert(dst@ =~= src@);
                assert(dst_block@ =~= block@);
                assert forall|p: int| valid_pos::<W, H, Self>(p) implies #[trigger] data_bit(
                    dst@,
                    p,
                ) == shifted_cells_v::<W, H>(cells::<W, H, Self>(src@), dist as int).contains(
                    <Self as LayoutGeometry<W, H>>::spec_coord(p),
                ) by {}
            }
            return;
        }
        let row_u64s = (W + 63) / 64;
        let abs_dist: usize = if dist < 0 {
            (0i64 - dist as i64) as usize
        } else {
            dist as usize
        };
        if abs_dist >= H {
            fill_zero(dst);
            fill_zero(dst_block);
            proof {
                crate::grid::lemma_zero_grid::<W, H, Self>(dst@, dst_block@);
                assert forall|p: int| valid_pos::<W, H, Self>(p) implies #[trigger] data_bit(
                    dst@,
                    p,
                ) == shifted_cells_v::<W, H>(cells::<W, H, Self>(src@), dist as int).contains(
                    <Self as LayoutGeometry<W, H>>::spec_coord(p),
                ) by {
                    lemma_coord_range::<W, H>(p);
                }
            }
            return;
        }
        let ghost r = row_words::<W>();
        proof {
            assert(abs_dist * r <= H * r) by (nonlinear_arith)
                requires
                    abs_dist < H,
                    r >= 0,
            ;
            assert(H * r == r * H) by (nonlinear_arith);
        }
        let word_offset = abs_dist * row_u64s;
        let n = src.len();
        if dist > 0 {
            copy_words(src, 0, dst, word_offset, n - word_offset);
        } else {
            copy_words(src, word_offset, dst, 0, n - word_offset);
        }
        // The mask is rebuilt from the moved words.
        rebuild_block(dst, dst_block);
        proof {
            let d = dist as int;
            assert forall|y: int, x: int| 0 <= y < H && 0 <= x < row_bits::<W>() implies #[trigger] row_bit::<
                W,
            >(dst@, y, x) == (0 <= y - d < H && row_bit::<W>(src@, y - d, x - 0)) by {
                let k = x / 64;
                let j = x % 64;
                assert(0 <= k < r);
                lemma_row_word::<W>(y, k, j);
                lemma_row_index::<W, H>(y, k);
                assert(x == k * 64 + j);
                assert(y * r + k - word_offset == (y - abs_dist) * r + k) by (nonlinear_arith)
                    requires
                        word_offset == abs_dist * r,
                ;
                assert(y * r + k + word_offset == (y + abs_dist) * r + k) by (nonlinear_arith)
                    requires
                        word_offset == abs_dist * r,
                ;
                if 0 <= y - d < H {
                    lemma_row_word::<W>(y - d, k, j);
                    lemma_row_index::<W, H>(y - d, k);
                } else if y - d < 0 {
                    assert(y * r + k < word_offset) by (nonlinear_arith)
                        requires
                            word_offset == abs_dist * r,
                            0 <= y < abs_dist,
                            0 <= k < r,
                    ;
                } else {
                    assert(y * r + k >= n - word_offset) by (nonlinear_arith)
                        requires
                            word_offset == abs_dist * r,
                            y + abs_dist >= H,
                            n == r * H,
                            k >= 0,
                            r >= 0,
                    ;
                }
                lemma_zero_and_full();
            }
            lemma_moved_cells::<W, H>(dst@, src@, 0, d);
            lemma_rows_copied_clean::<W, H>(dst@, src@, d);
        }
    }

    fn rect_op(
        data: &mut Vec<u64>,
        block: &mut Vec<u64>,
        x: i32,
        y: i32,
        width: i32,
        height: i32,
        value: bool,
    ) {
        let ghost rect = rect_cells::<W, H>(x as int, y as int, width as int, height as int);
        let ghost goal = if value {
            cells::<W, H, Self>(old(data)@).union(rect)
        } else {
            cells::<W, H, Self>(old(data)@).difference(rect)
        };
        proof {
            <RowMajorLayout as LayoutGeometry<W, H>>::lemma_geometry();
        }
        // Coordinates are widened so that sums cannot overflow.
        let x_end = x as i64 + width as i64;
        let y_end = y as i64 + height as i64;
        if y_end <= 0 || y as i64 >= H as i64 || x_end <= 0 || x as i64 >= W as i64 || width <= 0
            || height <= 0 {
            proof {
                assert(cells::<W, H, Self>(data@) =~= goal);
            }
            return;
        }
        let y1: usize = if y < 0 {
            0
        } else {
            y as usize
        };
        let y2: usize = if y_end > H as i64 {
            H
        } else {
            y_end as usize
        };
        let x1: usize = if x < 0 {
            0
        } else {
            x as usize
        };
        let x2: usize = if x_end > W as i64 {
            W
        } else {
            x_end as usize
        };
        let ghost s = row_bits::<W>();
        let mut row = y1;
        while row < y2
            invariant
                <RowMajorLayout as LayoutGeometry<W, H>>::dims_ok(),
                data.len() == old(data).len(),
                data.len() == row_words::<W>() * H,
                block_exact(data@, block@),
                y1 <= row <= y2 <= H,
                x1 < x2 <= W,
                s == row_bits::<W>(),
                forall|p: int|
                    #[trigger] data_bit(data@, p) == if 0 <= p && y1 <= p / s < row && x1 <= p % s
                        < x2 {
                        value
                    } else {
                        data_bit(old(data)@, p)
                    },
            decreases y2 - row,
        {
            fill_span::<W, H>(data, block, row, x1, x2 - 1, value);
            row += 1;
        }
        proof {
            assert forall|p: int| #[trigger] data_bit(data@, p) implies valid_pos::<W, H, Self>(p) by {
                lemma_valid::<W, H>(p);
                if !data_bit(old(data)@, p) {
                    lemma_coord_range::<W, H>(p);
                }
            }
            assert forall|c: (int, int)| #[trigger] cells::<W, H, Self>(data@).contains(c) == goal.contains(c) by {
                if in_board::<W, H>(c.0, c.1) {
                    lemma_pos_in_row::<W, H>(c.0, c.1);
                }
            }
            assert(cells::<W, H, Self>(data@) =~= goal);
        }
    }

    fn set_row(data: &mut Vec<u64>, block: &mut Vec<u64>, y: i32, min_x: i32, max_x: i32, value: bool) {
        let ghost seg = row_segment::<W, H>(y as int, min_x as int, max_x as int);
        let ghost goal = if value {
            cells::<W, H, Self>(old(data)@).union(seg)
        } else {
            cells::<W, H, Self>(old(data)@).difference(seg)
        };
        proof {
            <RowMajorLayout as LayoutGeometry<W, H>>::lemma_geometry();
        }
        if y < 0 || y >= H as i32 || min_x > max_x || min_x >= W as i32 || max_x <= -1 {
            proof {
                assert(cells::<W, H, Self>(data@) =~= goal);
            }
            return;
        }
        let min_x: usize = if min_x < 0 {
            0
        } else {
            min_x as usize
        };
        let max_x: usize = if max_x > W as i32 - 1 {
            W - 1
        } else {
            max_x as usize
        };
        fill_span::<W, H>(data, block, y as usize, min_x, max_x, value);
        proof {
            let s = row_bits::<W>();
            assert forall|p: int| #[trigger] data_bit(data@, p) implies valid_pos::<W, H, Self>(p) by {
                lemma_valid::<W, H>(p);
                if !data_bit(old(data)@, p) {
                    lemma_pos_in_row::<W, H>(0, y as int);
                    lemma_coord_range::<W, H>(p);
                    assert(p < row_words::<W>() * H * 64) by (nonlinear_arith)
                        requires
                            p / s == y,
                            y < H,
                            p % s < s,
                            p == (p / s) * s + p % s,
                            s == row_words::<W>() * 64,
                    ;
                }
            }
            assert forall|c: (int, int)| #[trigger] cells::<W, H, Self>(data@).contains(c) == goal.contains(c) by {
                if in_board::<W, H>(c.0, c.1) {
                    lemma_pos_in_row::<W, H>(c.0, c.1);
                }
            }
            assert(cells::<W, H, Self>(data@) =~= goal);
        }
    }

    fn has_any_in_row(data: &Vec<u64>, y: i32, min_x: i32, max_x: i32) -> (r: bool) {
        proof {
            <RowMajorLayout as LayoutGeometry<W, H>>::lemma_geometry();
        }
        if y < 0 || y >= H as i32 || min_x > max_x || min_x >= W as i32 || max_x < 0 {
            return false;
        }
        let x_lo: usize = if min_x < 0 {
            0
        } else {
            min_x as usize
        };
        let x_hi: usize = if max_x > W as i32 - 1 {
            W - 1
        } else {
            max_x as usize
        };
        let row_u64s = (W + 63) / 64;
        proof {
            lemma_pos_in_row::<W, H>(x_hi as int, y as int);
        }
        let lo = y as usize * (row_u64s * 64) + x_lo;
        let hi = y as usize * (row_u64s * 64) + x_hi;
        let r = any_in_range(data, lo, hi);
        proof {
            if r {
                let p = choose|p: int| lo <= p <= hi && #[trigger] data_bit(data@, p);
                lemma_span::<W>(p, y as int, x_lo as int, x_hi as int);
                let x = p % row_bits::<W>();
                lemma_coord_range::<W, H>(p);
                lemma_pos_in_row::<W, H>(x, y as int);
                assert(cells::<W, H, Self>(data@).contains((x, y as int)));
            } else {
                assert forall|x: int| min_x <= x <= max_x implies !#[trigger] cells::<W, H, Self>(
                    data@,
                ).contains((x, y as int)) by {
                    if in_board::<W, H>(x, y as int) {
                        lemma_pos_in_row::<W, H>(x, y as int);
                        lemma_span::<W>(
                            y * row_bits::<W>() + x,
                            y as int,
                            x_lo as int,
                            x_hi as int,
                        );
                    }
                }
            }
        }
        r
    }

    fn is_all_in_row(data: &Vec<u64>, y: i32, min_x: i32, max_x: i32) -> (r: bool) {
        proof {
            <RowMajorLayout as LayoutGeometry<W, H>>::lemma_geometry();
        }
        if y < 0 || y >= H as i32 || min_x > max_x || min_x >= W as i32 || max_x < 0 {
            proof {
                if min_x <= max_x {
                    assert(!cells::<W, H, Self>(data@).contains((min_x as int, y as int)));
                }
            }
            return false;
        }
        // Cells outside the board are unset, so a run that leaves the board is not all set.
        if min_x < 0 || max_x >= W as i32 {
            proof {
                if min_x < 0 {
                    assert(!cells::<W, H, Self>(data@).contains((min_x as int, y as int)));
                } else {
                    assert(!cells::<W, H, Self>(data@).contains((max_x as int, y as int)));
                }
            }
            return false;
        }
        let min_x = min_x as usize;
        let max_x = max_x as usize;
        let row_u64s = (W + 63) / 64;
        proof {
            lemma_pos_in_row::<W, H>(max_x as int, y as int);
        }
        let lo = y as usize * (row_u64s * 64) + min_x;
        let hi = y as usize * (row_u64s * 64) + max_x;
        let r = all_in_range(data, lo, hi);
        proof {
            if r {
                assert forall|x: int| min_x <= x <= max_x implies #[trigger] cells::<W, H, Self>(
                    data@,
                ).contains((x, y as int)) by {
                    lemma_pos_in_row::<W, H>(x, y as int);
                    lemma_span::<W>(y * row_bits::<W>() + x, y as int, min_x as int, max_x as int);
                }
            } else {
                let p = choose|p: int| lo <= p <= hi && !#[trigger] data_bit(data@, p);
                lemma_span::<W>(p, y as int, min_x as int, max_x as int);
                let x = p % row_bits::<W>();
                lemma_coord_range::<W, H>(p);
                lemma_pos_in_row::<W, H>(x, y as int);
                assert(!cells::<W, H, Self>(data@).contains((x, y as int)));
            }
        }
        r
    }
}

/// Fully moved rows give the moved set of cells.
proof fn lemma_rows_to_cells_h<const W: usize, const H: usize>(dst: Seq<u64>, src: Seq<u64>, d: int)
    requires
        <RowMajorLayout as LayoutGeometry<W, H>>::dims_ok(),
        src.len() == row_words::<W>() * H,
        dst.len() == row_words::<W>() * H,
        clean::<W, H, RowMajorLayout>(src),
        forall|yy: int| 0 <= yy < H ==> #[trigger] row_moved::<W>(dst, src, yy, d),
    ensures
        forall|p: int|
            valid_pos::<W, H, RowMajorLayout>(p) ==> #[trigger] data_bit(dst, p)
                == shifted_cells_h::<W, H>(cells::<W, H, RowMajorLayout>(src), d).contains(
                <RowMajorLayout as LayoutGeometry<W, H>>::spec_coord(p),
            ),
{
    let r = row_words::<W>();
    assert forall|y: int, x: int| 0 <= y < H && 0 <= x < row_bits::<W>() implies #[trigger] row_bit::<
        W,
    >(dst, y, x) == (0 <= y - 0 < H && row_bit::<W>(src, y - 0, x - d)) by {
        let k = x / 64;
        let j = x % 64;
        assert(row_moved::<W>(dst, src, y, d));
        lemma_row_word::<W>(y, k, j);
        lemma_row_index::<W, H>(y, k);
        assert(word_bit(dst[y * r + k], j) == row_bit::<W>(src, y, k * 64 + j - d));
    }
    lemma_moved_cells::<W, H>(dst, src, d, 0);
}

proof fn bv_low_mask(m: u64, n: u64, k: u64) by (bit_vector)
    requires
        n < 64,
        k < 64,
        m + 1 == 1u64 << n,
    ensures
        (m >> k) & 1 == 1 <==> k < n,
{
}

/// Rows copied whole from clean storage leave no bit off the board.
proof fn lemma_rows_copied_clean<const W: usize, const H: usize>(dst: Seq<u64>, src: Seq<u64>, d: int)
    requires
        <RowMajorLayout as LayoutGeometry<W, H>>::dims_ok(),
        src.len() == row_words::<W>() * H,
        dst.len() == src.len(),
        clean::<W, H, RowMajorLayout>(src),
        forall|y: int, x: int|
            0 <= y < H && 0 <= x < row_bits::<W>() ==> #[trigger] row_bit::<W>(dst, y, x) == (0 <= y - d < H
                && row_bit::<W>(src, y - d, x - 0)),
    ensures
        clean::<W, H, RowMajorLayout>(dst),
{
    let s = row_bits::<W>();
    assert forall|p: int| #[trigger] data_bit(dst, p) implies valid_pos::<W, H, RowMajorLayout>(p) by {
        lemma_coord_range::<W, H>(p);
        let y = p / s;
        let x = p % s;
        assert(row_bit::<W>(dst, y, x));
        let q = (y - d) * s + x;
        assert(data_bit(src, q));
        lemma_fundamental_div_mod_converse(q, s, y - d, x);
        lemma_valid::<W, H>(q);
        lemma_valid::<W, H>(p);
    }
}

} // verus!
