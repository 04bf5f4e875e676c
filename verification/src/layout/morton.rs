//! Morton (Z-order curve) layout: cell `(x, y)` is flat bit
//! `spread(x) | spread(y) << 1`, where `spread` moves bit `i` to bit `2 i`.
use vstd::prelude::*;
use vstd::arithmetic::power2::pow2;
use super::{LayoutGeometry, BitLayout};
use crate::bits::{word_bit, lemma_bit_ops, lemma_zero_and_full, lemma_single_bit, lemma_tz,
    bits_from_lowest, lemma_walk_start, lemma_walk_step};
use vstd::std_specs::bits::u64_trailing_zeros;
use crate::grid::{all_zero, lemma_words_skipped, lemma_low_bits_absent, cells, grid_ok, block_exact, data_bit, valid_pos, in_board, row_segment,
    rect_cells, block_len, clean, fill_zero, apply_word_mask, recalc_block_word};

verus! {

/// Morton Order (Z-order curve) layout
#[derive(Default, Clone, Copy, Debug, PartialEq, Eq)]
pub struct MortonLayout;

/// The low 16 bits of `x` moved to the even bit positions (bit `i` to bit `2 i`).
pub open spec fn spread(x: u32) -> u32 {
    let a = (x | (x << 8u32)) & 0x00FF_00FFu32;
    let b = (a | (a << 4u32)) & 0x0F0F_0F0Fu32;
    let c = (b | (b << 2u32)) & 0x3333_3333u32;
    (c | (c << 1u32)) & 0x5555_5555u32
}

/// The even bits of `x` gathered into the low 16 bits (bit `2 i` to bit `i`).
pub open spec fn compact(x: u32) -> u32 {
    let a = x & 0x5555_5555u32;
    let b = (a | (a >> 1u32)) & 0x3333_3333u32;
    let c = (b | (b >> 2u32)) & 0x0F0F_0F0Fu32;
    let d = (c | (c >> 4u32)) & 0x00FF_00FFu32;
    (d | (d >> 8u32)) & 0x0000_FFFFu32
}

/// Morton code of `(x, y)`: bits of `x` at even positions, bits of `y` at odd ones.
pub open spec fn morton(x: u32, y: u32) -> u64 {
    (spread(x) as u64) | ((spread(y) as u64) << 1u64)
}

/// The cell of Morton code `p`.
pub open spec fn unmorton(p: int) -> (int, int) {
    (compact(p as u32) as int, compact(((p as u64) >> 1u64) as u32) as int)
}

/// `2^k` for small `k`.
pub open spec fn pow2k(k: nat) -> int {
    (1u64 << (k as u64)) as int
}

/// Exponent of the smallest power of two, from `2^k` on, that is at least `n`.
pub open spec fn side_exp_from(n: int, k: nat) -> nat
    decreases 16 - k,
{
    if k >= 16 || n <= pow2k(k) {
        k
    } else {
        side_exp_from(n, k + 1)
    }
}

/// The board covers only part of its Morton square (or the square is
/// smaller than one 8x8 block), so some stored bits stand for no cell.
pub open spec fn part_of_square<const W: usize, const H: usize>() -> bool {
    !(W == side::<W, H>() && H == side::<W, H>() && side::<W, H>() >= 8)
}

/// Side of the smallest power-of-two square that holds a `W x H` board.
pub open spec fn side<const W: usize, const H: usize>() -> int {
    pow2k(side_exp_from(if W >= H { W as int } else { H as int }, 0))
}

/// Spreading and gathering undo each other on 16-bit values.
pub proof fn lemma_morton_roundtrip(x: u32, y: u32) by (bit_vector)
    requires
        x < 0x10000,
        y < 0x10000,
    ensures
        compact(morton(x, y) as u32) == x,
        compact((morton(x, y) >> 1u64) as u32) == y,
{
}

/// Every 32-bit code is the Morton code of the cell it decodes to.
pub proof fn lemma_unmorton_roundtrip(p: u64) by (bit_vector)
    requires
        p < 0x1_0000_0000,
    ensures
        morton(compact(p as u32), compact((p >> 1u64) as u32)) == p,
{
}

/// `spread` puts bit `i` of `x` at bit `2 i` and leaves odd bits clear.
pub proof fn lemma_spread_bits(x: u32, i: u32) by (bit_vector)
    requires
        x < 0x10000,
        i < 16,
    ensures
        (spread(x) >> ((2 * i) as u32)) & 1 == (x >> i) & 1,
        (spread(x) >> ((2 * i + 1) as u32)) & 1 == 0,
{
}

/// The Morton code puts bit `i` of `x` at bit `2 i` and bit `i` of `y` at
/// bit `2 i + 1`.
pub proof fn lemma_morton_bits(x: u32, y: u32, i: u32) by (bit_vector)
    requires
        x < 0x10000,
        y < 0x10000,
        i < 16,
    ensures
        (morton(x, y) >> ((2 * i) as u64)) & 1 == ((x >> i) & 1) as u64,
        (morton(x, y) >> ((2 * i + 1) as u64)) & 1 == ((y >> i) & 1) as u64,
{
}

/// Morton codes of 16-bit coordinates fit in 32 bits.
proof fn lemma_morton_small(x: u32, y: u32) by (bit_vector)
    requires
        x < 0x10000,
        y < 0x10000,
    ensures
        morton(x, y) < 0x1_0000_0000,
{
}

/// Bits `2 i` and `2 i + 1` of a word, read through its low 32 bits.
proof fn lemma_low_word_bits(m: u64, i: u32) by (bit_vector)
    requires
        i < 16,
    ensures
        (((m as u32) >> ((2 * i) as u32)) & 1) as u64 == (m >> ((2 * i) as u64)) & 1,
        ((((m >> 1u64) as u32) >> ((2 * i) as u32)) & 1) as u64 == (m >> ((2 * i + 1) as u64)) & 1,
{
}

/// `compact` puts bit `2 i` of `x` at bit `i` and leaves the bits from 16 on clear.
pub proof fn lemma_compact_bits(x: u32, i: u32) by (bit_vector)
    requires
        i < 16,
    ensures
        (compact(x) >> i) & 1 == (x >> ((2 * i) as u32)) & 1,
        compact(x) >> 16u32 == 0,
{
}

proof fn bv_code_bound(x: u32, y: u32, k: u32) by (bit_vector)
    requires
        k <= 16,
        x < (1u32 << k),
        y < (1u32 << k),
    ensures
        morton(x, y) < (1u64 << (2 * k) as u64),
{
}

proof fn bv_decode_bound(p: u64, k: u32) by (bit_vector)
    requires
        k <= 16,
        p < (1u64 << (2 * k) as u64),
    ensures
        compact(p as u32) < (1u32 << k),
        compact((p >> 1u64) as u32) < (1u32 << k),
{
}

proof fn bv_compact_small(v: u32) by (bit_vector)
    ensures
        compact(v) <= 0xffff,
        spread(v) & 0x5555_5555u32 == spread(v),
{
}

proof fn bv_pow32(k: u64) by (bit_vector)
    requires
        k < 31,
    ensures
        (1u64 << k) == (1u32 << (k as u32)) as u64,
{
}

/// `pow2k` is vstd's `pow2` for small exponents.
proof fn lemma_pow2k(k: nat)
    requires
        k < 63,
    ensures
        pow2k(k) == pow2(k),
        pow2k(k + 1) == 2 * pow2k(k),
        pow2k(k) >= 1,
{
    vstd::bits::lemma_u64_pow2_no_overflow(k);
    vstd::bits::lemma_u64_shl_is_mul(1, k as u64);
    vstd::bits::lemma_u64_pow2_no_overflow(k + 1);
    vstd::bits::lemma_u64_shl_is_mul(1, (k + 1) as u64);
    vstd::arithmetic::power2::lemma_pow2_unfold(k + 1);
}

/// `2^(2k)` is the square of `2^k`.
proof fn lemma_pow_square(k: nat)
    requires
        k <= 15,
    ensures
        pow2k(2 * k) == pow2k(k) * pow2k(k),
    decreases k,
{
    lemma_pow2k(k);
    lemma_pow2k(2 * k);
    vstd::arithmetic::power2::lemma_pow2_adds(k, k);
}

proof fn bv_block_split(x: u32, y: u32) by (bit_vector)
    requires
        x < 0x10000,
        y < 0x10000,
    ensures
        morton(x, y) == morton(x & !7u32, y & !7u32) | morton(x & 7u32, y & 7u32),
        morton(x & !7u32, y & !7u32) & 63u64 == 0,
        morton(x & 7u32, y & 7u32) < 64,
        x & !7u32 == (x / 8u32) << 3u32,
        x & 7u32 == x % 8u32,
        y & !7u32 == (y / 8u32) << 3u32,
        y & 7u32 == y % 8u32,
{
}

proof fn bv_or_add(a: u64, b: u64) by (bit_vector)
    requires
        a & 63u64 == 0,
        b < 64,
    ensures
        a | b == a + b,
        a % 64 == 0,
{
}

proof fn bv_or_add32(a: u32, b: u32) by (bit_vector)
    requires
        a & 7u32 == 0,
        b < 8,
    ensures
        a | b == a + b,
{
}

proof fn bv_block_word(x: u32, y: u32, b: u64) by (bit_vector)
    requires
        x < 0x10000,
        y < 0x10000,
        x & 7u32 == 0,
        y & 7u32 == 0,
        b < 64,
    ensures
        morton(x, y) & 63u64 == 0,
        (morton(x, y) | b) < 0x1_0000_0000,
        compact((morton(x, y) | b) as u32) == x | compact(b as u32),
        compact(((morton(x, y) | b) >> 1u64) as u32) == y | compact((b >> 1u64) as u32),
        compact(b as u32) < 8,
        compact((b >> 1u64) as u32) < 8,
{
}

/// Facts about the side of the Morton square.
proof fn lemma_side_exp(n: int, k: nat)
    requires
        1 <= n <= 32768,
        k <= 15,
    ensures
        side_exp_from(n, k) <= 15,
        k <= side_exp_from(n, k),
        n <= pow2k(side_exp_from(n, k)),
        side_exp_from(n, k) > k ==> pow2k((side_exp_from(n, k) - 1) as nat) < n,
    decreases 16 - k,
{
    lemma_pow2k(k);
    if n <= pow2k(k) {
    } else {
        if k == 15 {
            assert((1u64 << 15u64) == 32768) by (bit_vector);
        }
        lemma_side_exp(n, k + 1);
        lemma_pow2k(k + 1);
    }
}

/// The side, its exponent and the square are small.
pub proof fn lemma_side<const W: usize, const H: usize>()
    requires
        1 <= W <= 32768,
        1 <= H <= 32768,
    ensures
        ({
            let k = side_exp_from(if W >= H { W as int } else { H as int }, 0);
            &&& k <= 15
            &&& side::<W, H>() == pow2k(k)
            &&& side::<W, H>() == (1u32 << (k as u32)) as int
            &&& W <= side::<W, H>()
            &&& H <= side::<W, H>()
            &&& side::<W, H>() <= 32768
            &&& (1u64 << ((2 * k) as u64)) == side::<W, H>() * side::<W, H>()
            &&& side::<W, H>() >= 8 ==> side::<W, H>() % 8 == 0
        }),
{
    let n = if W >= H {
        W as int
    } else {
        H as int
    };
    lemma_side_exp(n, 0);
    let k = side_exp_from(n, 0);
    lemma_pow2k(k);
    bv_pow32(k as u64);
    lemma_pow_square(k);
    if k >= 3 {
        lemma_pow2k((k - 3) as nat);
        vstd::arithmetic::power2::lemma_pow2_adds((k - 3) as nat, 3);
        assert(pow2(3) == 8) by {
            vstd::arithmetic::power2::lemma2_to64();
        }
    } else {
        lemma_pow2k(0);
        lemma_pow2k(1);
        lemma_pow2k(2);
        assert(pow2(0) == 1 && pow2(1) == 2 && pow2(2) == 4 && pow2(3) == 8) by {
            vstd::arithmetic::power2::lemma2_to64();
        }
    }
    assert((1u64 << 15u64) == 32768) by (bit_vector);
    if k < 15 {
        bv_pow_mono(k as u64);
    }
}

proof fn bv_pow_mono(k: u64) by (bit_vector)
    requires
        k < 15,
    ensures
        (1u64 << k) < 32768,
{
}

impl<const W: usize, const H: usize> LayoutGeometry<W, H> for MortonLayout {
    open spec fn dims_ok() -> bool {
        1 <= W <= 32768 && 1 <= H <= 32768
    }

    open spec fn spec_total_words() -> nat {
        ((side::<W, H>() * side::<W, H>() + 63) / 64) as nat
    }

    open spec fn spec_pos(x: int, y: int) -> int {
        morton(x as u32, y as u32) as int
    }

    open spec fn spec_coord(p: int) -> (int, int) {
        unmorton(p)
    }

    open spec fn spec_has_padding() -> bool {
        false
    }

    open spec fn spec_padding_word(w: int) -> bool {
        part_of_square::<W, H>()
    }

    open spec fn spec_padding_mask() -> u64 {
        !0u64
    }

    open spec fn spec_index(x: int, y: int) -> int {
        morton(x as u32, y as u32) as int
    }

    open spec fn spec_tile(idx: usize) -> (i32, i32) {
        (compact(idx as u32) as i32, compact((idx >> 1usize) as u32) as i32)
    }

    proof fn lemma_geometry() {
        lemma_side::<W, H>();
        let s = side::<W, H>();
        let k = side_exp_from(if W >= H { W as int } else { H as int }, 0);
        let total = <Self as LayoutGeometry<W, H>>::spec_total_words();
        assert(s * s <= 32768 * 32768) by (nonlinear_arith)
            requires
                0 <= s <= 32768,
        ;
        assert(total * 64 <= s * s + 63);
        assert(total * 64 >= s * s);
        assert forall|x: int, y: int| #![trigger <Self as LayoutGeometry<W, H>>::spec_pos(x, y)] in_board::<W, H>(x, y) implies {
            &&& 0 <= <Self as LayoutGeometry<W, H>>::spec_pos(x, y) < total * 64
            &&& <Self as LayoutGeometry<W, H>>::spec_coord(<Self as LayoutGeometry<W, H>>::spec_pos(x, y)) == (x, y)
        } by {
            bv_code_bound(x as u32, y as u32, k as u32);
            lemma_morton_roundtrip(x as u32, y as u32);
            let m = morton(x as u32, y as u32);
            assert((m >> 1u64) as u32 == ((m as int as u64) >> 1u64) as u32);
        }
        assert forall|p: int| 0 <= p < total * 64 implies {
            let c = #[trigger] <Self as LayoutGeometry<W, H>>::spec_coord(p);
            &&& 0 <= c.0 <= 0x7fff_ffff
            &&& 0 <= c.1 <= 0x7fff_ffff
        } by {
            bv_compact_small(p as u32);
            bv_compact_small(((p as u64) >> 1u64) as u32);
        }
        assert forall|p: int|
            0 <= p < total * 64 && !#[trigger] <Self as LayoutGeometry<W, H>>::spec_padding_word(
                p / 64,
            ) implies {
            let c = <Self as LayoutGeometry<W, H>>::spec_coord(p);
            in_board::<W, H>(c.0, c.1) && <Self as LayoutGeometry<W, H>>::spec_pos(c.0, c.1) == p
        } by {
            assert(s % 8 == 0);
            let t = s / 8;
            assert(s * s == 64 * (t * t)) by (nonlinear_arith)
                requires
                    s == 8 * t,
            ;
            vstd::arithmetic::div_mod::lemma_mod_multiples_basic(t * t, 64);
            assert(total * 64 == s * s);
            let q = p as u64;
            bv_decode_bound(q, k as u32);
            lemma_unmorton_roundtrip(q);
        }
        assert forall|x: int, y: int| #![trigger <Self as LayoutGeometry<W, H>>::spec_index(x, y)] in_board::<W, H>(x, y) implies {
            &&& 0 <= <Self as LayoutGeometry<W, H>>::spec_index(x, y) <= usize::MAX
            &&& <Self as LayoutGeometry<W, H>>::spec_tile(<Self as LayoutGeometry<W, H>>::spec_index(x, y) as usize) == (x as i32, y as i32)
        } by {
            bv_code_bound(x as u32, y as u32, k as u32);
            lemma_morton_roundtrip(x as u32, y as u32);
            let m = morton(x as u32, y as u32);
            let i = m as int as usize;
            assert(i as u32 == m as u32);
            assert((i >> 1usize) as u32 == (m >> 1u64) as u32) by (bit_vector)
                requires
                    i as u64 == m,
            ;
        }
    }
}

impl MortonLayout {
    /// Expands a 16-bit value to 32 bits, inserting a 0 bit between each bit.
    /// Classic bit-spreading implementation that doubles the spacing at each step.
    pub fn interleave(x: u32) -> (r: u32)
        ensures
            r == spread(x),
            x < 0x10000 ==> forall|i: u32|
                #![auto]
                i < 16 ==> (r >> ((2 * i) as u32)) & 1 == (x >> i) & 1 && (r >> ((2 * i + 1) as u32)) & 1
                    == 0,
    {
        proof {
            if x < 0x10000 {
                assert forall|i: u32|
                    #![auto]
                    i < 16 implies (spread(x) >> ((2 * i) as u32)) & 1 == (x >> i) & 1 && (spread(x) >> ((2 * i
                        + 1) as u32)) & 1 == 0 by {
                    lemma_spread_bits(x, i);
                }
            }
        }
        let mut x = x;
        x = (x | (x << 8)) & 0x00FF_00FF;
        x = (x | (x << 4)) & 0x0F0F_0F0F;
        x = (x | (x << 2)) & 0x3333_3333;
        x = (x | (x << 1)) & 0x5555_5555;
        x
    }

    /// Inverse operation of `interleave`. Removes the inserted zeros and compresses 32 bits back to 16.
    pub fn deinterleave(x: u32) -> (r: u32)
        ensures
            r == compact(x),
            r < 0x10000,
            forall|i: u32| #![auto] i < 16 ==> (r >> i) & 1 == (x >> ((2 * i) as u32)) & 1,
    {
        proof {
            bv_compact_small(x);
            assert forall|i: u32| #![auto] i < 16 implies (compact(x) >> i) & 1 == (x >> ((2 * i) as u32)) & 1 by {
                lemma_compact_bits(x, i);
            }
        }
        let mut x = x;
        x &= 0x5555_5555;
        x = (x | (x >> 1)) & 0x3333_3333;
        x = (x | (x >> 2)) & 0x0F0F_0F0F;
        x = (x | (x >> 4)) & 0x00FF_00FF;
        x = (x | (x >> 8)) & 0x0000_FFFF;
        x
    }

    /// Converts (x, y) to Morton code: places x bits at even positions and y bits at odd positions.
    pub fn encode(x: u32, y: u32) -> (r: usize)
        ensures
            r as int == morton(x, y) as int,
            x < 0x10000 && y < 0x10000 ==> {
                &&& r < 0x1_0000_0000
                &&& forall|i: u32|
                    #![auto]
                    i < 16 ==> ((r as u64) >> ((2 * i) as u64)) & 1 == ((x >> i) & 1) as u64 && ((r as u64)
                        >> ((2 * i + 1) as u64)) & 1 == ((y >> i) & 1) as u64
            },
    {
        proof {
            if x < 0x10000 && y < 0x10000 {
                assert forall|i: u32|
                    #![auto]
                    i < 16 implies (morton(x, y) >> ((2 * i) as u64)) & 1 == ((x >> i) & 1) as u64 && (morton(
                        x,
                        y,
                    ) >> ((2 * i + 1) as u64)) & 1 == ((y >> i) & 1) as u64 by {
                    lemma_morton_bits(x, y, i);
                }
                lemma_morton_small(x, y);
            }
        }
        let sx = Self::interleave(x);
        let sy = Self::interleave(y);
        proof {
            bv_compact_small(y);
        }
        // Shift y by 1 bit to place it in odd positions, then OR with x (even positions)
        let r = (sx as usize) | ((sy as usize) << 1);
        assert(r as u64 == (sx as u64) | ((sy as u64) << 1u64)) by (bit_vector)
            requires
                r == (sx as usize) | ((sy as usize) << 1),
                sy & 0x5555_5555 == sy,
        ;
        r
    }

    /// Converts a Morton code back to (x, y).
    pub fn decode(morton: usize) -> (r: (u32, u32))
        ensures
            r == (compact(morton as u32), compact((morton >> 1usize) as u32)),
            r.0 < 0x10000,
            r.1 < 0x10000,
            forall|i: u32|
                #![auto]
                i < 16 ==> ((r.0 >> i) & 1) as u64 == ((morton as u64) >> ((2 * i) as u64)) & 1 && ((r.1
                    >> i) & 1) as u64 == ((morton as u64) >> ((2 * i + 1) as u64)) & 1,
    {
        proof {
            let m = morton as u64;
            bv_compact_small(morton as u32);
            bv_compact_small((morton >> 1usize) as u32);
            assert(morton as u32 == m as u32 && (morton >> 1usize) as u32 == (m >> 1u64) as u32) by (bit_vector)
                requires
                    m == morton as u64,
            ;
            let a = compact(morton as u32);
            let b = compact((morton >> 1usize) as u32);
            assert forall|i: u32|
                #![trigger (a >> i)]
                i < 16 implies ((a >> i) & 1) as u64 == (m >> ((2 * i) as u64)) & 1
                && ((b >> i) & 1) as u64 == (m >> ((2 * i + 1) as u64)) & 1 by {
                lemma_compact_bits(m as u32, i);
                lemma_compact_bits((m >> 1u64) as u32, i);
                lemma_low_word_bits(m, i);
            }
        }
        (Self::deinterleave(morton as u32), Self::deinterleave((morton >> 1) as u32))
    }
}


/// x-coordinate, within its 8x8 block, of bit `b` of a block word.
pub open spec fn local_x(b: int) -> int {
    compact(b as u32) as int
}

/// y-coordinate, within its 8x8 block, of bit `b` of a block word.
pub open spec fn local_y(b: int) -> int {
    compact(((b as u64) >> 1u64) as u32) as int
}

/// The word that holds the 8x8 block `(bx, by)`.
pub open spec fn block_word(bx: int, by: int) -> int {
    morton((8 * bx) as u32, (8 * by) as u32) as int / 64
}

/// Bit `b` of `m` is set exactly for the cells of an 8x8 block with local
/// coordinates in `lx0..=lx1` and `ly0..=ly1`.
pub open spec fn block_mask_ok(m: u64, lx0: int, lx1: int, ly0: int, ly1: int) -> bool {
    forall|b: int|
        #[trigger] word_bit(m, b) == (0 <= b < 64 && lx0 <= local_x(b) <= lx1 && ly0 <= local_y(b)
            <= ly1)
}

/// The cell `c` lies in block `(bx, by)` within the given local ranges.
pub open spec fn in_block(
    c: (int, int),
    bx: int,
    by: int,
    lx0: int,
    lx1: int,
    ly0: int,
    ly1: int,
) -> bool {
    &&& c.0 >= 0
    &&& c.1 >= 0
    &&& c.0 / 8 == bx
    &&& c.1 / 8 == by
    &&& lx0 <= c.0 % 8 <= lx1
    &&& ly0 <= c.1 % 8 <= ly1
}

proof fn bv_local_small(b: u64) by (bit_vector)
    requires
        b < 64,
    ensures
        compact(b as u32) < 8,
        compact((b >> 1u64) as u32) < 8,
{
}

proof fn bv_or_comm(a: u64, b: u64) by (bit_vector)
    ensures
        a | b == b | a,
{
}

proof fn bv_morton_axes(x: u32, y: u32) by (bit_vector)
    ensures
        morton(x, 0) | morton(0, y) == morton(x, y),
{
}

proof fn bv_shr_usize(m: usize) by (bit_vector)
    ensures
        (m >> 1usize) as u32 == ((m as u64) >> 1u64) as u32,
        m as u32 == (m as u64) as u32,
{
}

/// Bit `b` of the word of block `(bx, by)` holds cell `(8 bx + local_x(b), 8 by + local_y(b))`.
proof fn lemma_word_cell(bx: int, by: int, b: int)
    requires
        0 <= bx < 8192,
        0 <= by < 8192,
        0 <= b < 64,
    ensures
        block_word(bx, by) * 64 + b < 0x1_0000_0000,
        unmorton(block_word(bx, by) * 64 + b) == (8 * bx + local_x(b), 8 * by + local_y(b)),
        0 <= local_x(b) < 8,
        0 <= local_y(b) < 8,
{
    let x = (8 * bx) as u32;
    let y = (8 * by) as u32;
    assert(pow2(3) == 8) by {
        vstd::arithmetic::power2::lemma2_to64();
    }
    vstd::bits::lemma_u32_shl_is_mul(bx as u32, 3);
    vstd::bits::lemma_u32_shl_is_mul(by as u32, 3);
    assert(x & 7u32 == 0) by {
        bv_low_of_mul8(bx as u32);
    }
    assert(y & 7u32 == 0) by {
        bv_low_of_mul8(by as u32);
    }
    let m = morton(x, y);
    bv_block_word(x, y, b as u64);
    bv_or_add(m, b as u64);
    bv_or_add32(x, compact(b as u32));
    bv_or_add32(y, compact(((b as u64) >> 1u64) as u32));
    let p = m as int + b;
    assert((m | (b as u64)) as int == p);
    assert(block_word(bx, by) * 64 == m as int);
    assert((p as u64) == (m | (b as u64)));
}

proof fn bv_low_of_mul8(a: u32) by (bit_vector)
    requires
        a < 8192,
    ensures
        (a << 3u32) & 7u32 == 0,
        (a << 3u32) < 0x10000,
{
}

/// An in-board cell lives in the word of its 8x8 block, at the bit of its local coordinates.
proof fn lemma_cell_word(x: int, y: int)
    requires
        0 <= x < 0x10000,
        0 <= y < 0x10000,
    ensures
        morton(x as u32, y as u32) as int / 64 == block_word(x / 8, y / 8),
        morton(x as u32, y as u32) as int % 64 == morton((x % 8) as u32, (y % 8) as u32) as int,
        local_x(morton((x % 8) as u32, (y % 8) as u32) as int) == x % 8,
        local_y(morton((x % 8) as u32, (y % 8) as u32) as int) == y % 8,
{
    let ux = x as u32;
    let uy = y as u32;
    bv_block_split(ux, uy);
    assert(pow2(3) == 8) by {
        vstd::arithmetic::power2::lemma2_to64();
    }
    vstd::bits::lemma_u32_shl_is_mul(ux / 8u32, 3);
    vstd::bits::lemma_u32_shl_is_mul(uy / 8u32, 3);
    let hi = morton(ux & !7u32, uy & !7u32);
    let lo = morton(ux & 7u32, uy & 7u32);
    bv_or_add(hi, lo);
    assert((ux & !7u32) as int == 8 * (x / 8));
    assert((uy & !7u32) as int == 8 * (y / 8));
    assert(hi as int == morton((8 * (x / 8)) as u32, (8 * (y / 8)) as u32) as int);
    lemma_morton_roundtrip((x % 8) as u32, (y % 8) as u32);
    let l = morton((x % 8) as u32, (y % 8) as u32);
    assert(((l as int) as u64) == l);
}

/// Bits of an 8x8 block of the x (or y) coordinates `min..=max`.
fn range_mask(min: u32, max: u32, is_y: bool) -> (m: u64)
    requires
        min <= max < 8,
    ensures
        if is_y {
            block_mask_ok(m, 0, 7, min as int, max as int)
        } else {
            block_mask_ok(m, min as int, max as int, 0, 7)
        },
{
    let mut mask = 0u64;
    let mut i = min;
    proof {
        lemma_zero_and_full();
    }
    while i <= max
        invariant
            min <= i <= max + 1,
            max < 8,
            forall|b: int|
                #[trigger] word_bit(mask, b) == (0 <= b < 64 && 0 <= local_x(b) < 8 && 0
                    <= local_y(b) < 8 && min <= (if is_y {
                    local_y(b)
                } else {
                    local_x(b)
                }) < i),
        decreases max + 1 - i,
    {
        let mut j = 0u32;
        while j < 8
            invariant
                min <= i <= max,
                max < 8,
                j <= 8,
                forall|b: int|
                    #[trigger] word_bit(mask, b) == (0 <= b < 64 && 0 <= local_x(b) < 8 && 0
                        <= local_y(b) < 8 && ((min <= (if is_y {
                        local_y(b)
                    } else {
                        local_x(b)
                    }) < i) || ((if is_y {
                        local_y(b)
                    } else {
                        local_x(b)
                    }) == i && (if is_y {
                        local_x(b)
                    } else {
                        local_y(b)
                    }) < j))),
            decreases 8 - j,
        {
            let (x, y) = if is_y {
                (j, i)
            } else {
                (i, j)
            };
            let y_bits = (MortonLayout::interleave_u64(y)) << 1;
            let bit = y_bits | MortonLayout::interleave_u64(x);
            proof {
                bv_or_comm(y_bits, spread(x) as u64);
                lemma_morton_roundtrip(x, y);
                assert((1u32 << 3u32) == 8) by (bit_vector);
                assert((1u64 << 6u64) == 64) by (bit_vector);
                bv_code_bound(x, y, 3);
                assert(bit == morton(x, y));
                assert(bit < 64);
                lemma_single_bit(bit);
                lemma_bit_ops(mask, 1u64 << bit);
            }
            mask = mask | (1u64 << bit);
            proof {
                assert forall|b: int|
                    #[trigger] word_bit(mask, b) == (0 <= b < 64 && 0 <= local_x(b) < 8 && 0
                        <= local_y(b) < 8 && ((min <= (if is_y {
                        local_y(b)
                    } else {
                        local_x(b)
                    }) < i) || ((if is_y {
                        local_y(b)
                    } else {
                        local_x(b)
                    }) == i && (if is_y {
                        local_x(b)
                    } else {
                        local_y(b)
                    }) < j + 1))) by {
                    if 0 <= b < 64 {
                        lemma_unmorton_roundtrip(b as u64);
                        assert((b as u64) as u32 == b as u32);
                        if b == bit {
                            assert(local_x(b) == x && local_y(b) == y);
                        } else if local_x(b) == x && local_y(b) == y {
                            assert(morton(x, y) == b as u64);
                        }
                    }
                }
            }
            j += 1;
        }
        i += 1;
    }
    proof {
        assert forall|b: int| 0 <= b < 64 implies 0 <= #[trigger] local_x(b) < 8 && 0 <= local_y(b)
            < 8 by {
            bv_local_small(b as u64);
        }
    }
    mask
}

impl MortonLayout {
    /// `interleave`, widened to a word.
    fn interleave_u64(x: u32) -> (r: u64)
        ensures
            r == spread(x) as u64,
    {
        Self::interleave(x) as u64
    }

    /// Range masks of an 8x8 block: entry `[min][max]` holds the cells whose x
    /// (or, with `is_y`, y) lies in `min..=max`.
    pub fn compute_range_masks(is_y: bool) -> (table: Vec<Vec<u64>>)
        ensures
            table.len() == 8,
            forall|a: int| 0 <= a < 8 ==> #[trigger] table@[a].len() == 8,
            forall|a: int, b: int|
                0 <= a <= b < 8 ==> if is_y {
                    block_mask_ok(#[trigger] table@[a]@[b], 0, 7, a, b)
                } else {
                    block_mask_ok(table@[a]@[b], a, b, 0, 7)
                },
            forall|a: int, b: int| 0 <= b < a < 8 ==> #[trigger] table@[a]@[b] == 0,
    {
        let mut table: Vec<Vec<u64>> = Vec::new();
        let mut min = 0u32;
        while min < 8
            invariant
                min <= 8,
                table.len() == min,
                forall|a: int| 0 <= a < min ==> #[trigger] table@[a].len() == 8,
                forall|a: int, b: int|
                    0 <= a <= b < 8 && a < min ==> if is_y {
                        block_mask_ok(#[trigger] table@[a]@[b], 0, 7, a, b)
                    } else {
                        block_mask_ok(table@[a]@[b], a, b, 0, 7)
                    },
                forall|a: int, b: int| 0 <= b < a < min ==> #[trigger] table@[a]@[b] == 0,
            decreases 8 - min,
        {
            let mut row: Vec<u64> = Vec::new();
            let mut max = 0u32;
            while max < 8
                invariant
                    min < 8,
                    max <= 8,
                    row.len() == max,
                    forall|b: int|
                        0 <= b < max && min <= b ==> if is_y {
                            block_mask_ok(#[trigger] row@[b], 0, 7, min as int, b)
                        } else {
                            block_mask_ok(row@[b], min as int, b, 0, 7)
                        },
                    forall|b: int| 0 <= b < max && b < min ==> #[trigger] row@[b] == 0,
                decreases 8 - max,
            {
                if max < min {
                    row.push(0);
                } else {
                    row.push(range_mask(min, max, is_y));
                }
                max += 1;
            }
            table.push(row);
            min += 1;
        }
        table
    }

    /// Mask of the cells of an 8x8 block in `min_x..=max_x` by `min_y..=max_y`.
    fn mask_8x8rect(
        x_table: &Vec<Vec<u64>>,
        y_table: &Vec<Vec<u64>>,
        min_x: u32,
        max_x: u32,
        min_y: u32,
        max_y: u32,
    ) -> (m: u64)
        requires
            min_x <= max_x < 8,
            min_y <= max_y < 8,
            x_table.len() == 8,
            y_table.len() == 8,
            forall|a: int| 0 <= a < 8 ==> #[trigger] x_table@[a].len() == 8,
            forall|a: int| 0 <= a < 8 ==> #[trigger] y_table@[a].len() == 8,
            forall|a: int, b: int|
                0 <= a <= b < 8 ==> block_mask_ok(#[trigger] x_table@[a]@[b], a, b, 0, 7),
            forall|a: int, b: int|
                0 <= a <= b < 8 ==> block_mask_ok(#[trigger] y_table@[a]@[b], 0, 7, a, b),
        ensures
            block_mask_ok(m, min_x as int, max_x as int, min_y as int, max_y as int),
    {
        assert(x_table@[min_x as int].len() == 8);
        assert(y_table@[min_y as int].len() == 8);
        let a = x_table[min_x as usize][max_x as usize];
        let b = y_table[min_y as usize][max_y as usize];
        proof {
            lemma_bit_ops(a, b);
            assert(block_mask_ok(x_table@[min_x as int]@[max_x as int], min_x as int, max_x as int, 0, 7));
            assert(block_mask_ok(y_table@[min_y as int]@[max_y as int], 0, 7, min_y as int, max_y as int));
            assert forall|k: int| 0 <= k < 64 implies 0 <= #[trigger] local_x(k) < 8 && 0 <= local_y(k) < 8 by {
                bv_local_small(k as u64);
            }
        }
        a & b
    }
}


/// The tables of `compute_range_masks` for x and for y.
pub open spec fn tables_ok(x_table: Seq<Vec<u64>>, y_table: Seq<Vec<u64>>) -> bool {
    &&& x_table.len() == 8
    &&& y_table.len() == 8
    &&& forall|a: int| 0 <= a < 8 ==> #[trigger] x_table[a].len() == 8
    &&& forall|a: int| 0 <= a < 8 ==> #[trigger] y_table[a].len() == 8
    &&& forall|a: int, b: int|
        0 <= a <= b < 8 ==> block_mask_ok(#[trigger] x_table[a]@[b], a, b, 0, 7)
    &&& forall|a: int, b: int|
        0 <= a <= b < 8 ==> block_mask_ok(#[trigger] y_table[a]@[b], 0, 7, a, b)
}

/// An in-board cell's position is valid, in the word of its block.
proof fn lemma_cell_pos<const W: usize, const H: usize>(x: int, y: int)
    requires
        <MortonLayout as LayoutGeometry<W, H>>::dims_ok(),
        in_board::<W, H>(x, y),
    ensures
        valid_pos::<W, H, MortonLayout>(morton(x as u32, y as u32) as int),
        unmorton(morton(x as u32, y as u32) as int) == (x, y),
        morton(x as u32, y as u32) as int / 64 == block_word(x / 8, y / 8),
        morton(x as u32, y as u32) as int % 64 == morton((x % 8) as u32, (y % 8) as u32) as int,
        local_x(morton((x % 8) as u32, (y % 8) as u32) as int) == x % 8,
        local_y(morton((x % 8) as u32, (y % 8) as u32) as int) == y % 8,
{
    <MortonLayout as LayoutGeometry<W, H>>::lemma_geometry();
    assert(<MortonLayout as LayoutGeometry<W, H>>::spec_pos(x, y) == morton(x as u32, y as u32) as int);
    lemma_cell_word(x, y);
}

/// A position whose decoded cell is on the board is valid.
proof fn lemma_pos_of_cell<const W: usize, const H: usize>(p: int)
    requires
        <MortonLayout as LayoutGeometry<W, H>>::dims_ok(),
        0 <= p < 0x1_0000_0000,
        in_board::<W, H>(unmorton(p).0, unmorton(p).1),
    ensures
        valid_pos::<W, H, MortonLayout>(p),
        morton(unmorton(p).0 as u32, unmorton(p).1 as u32) as int == p,
{
    lemma_unmorton_roundtrip(p as u64);
    let c = unmorton(p);
    assert(c.0 as u32 == compact(p as u32));
    assert((p as u64) as u32 == p as u32);
    lemma_cell_pos::<W, H>(c.0, c.1);
}

/// Sets (`value`) or clears the cells of block `(bx, by)` within the given local ranges.
fn apply_block<const W: usize, const H: usize>(
    data: &mut Vec<u64>,
    block: &mut Vec<u64>,
    x_table: &Vec<Vec<u64>>,
    y_table: &Vec<Vec<u64>>,
    bx: u32,
    by: u32,
    lx0: u32,
    lx1: u32,
    ly0: u32,
    ly1: u32,
    word_idx: usize,
    value: bool,
)
    requires
        <MortonLayout as LayoutGeometry<W, H>>::dims_ok(),
        old(data).len() == <MortonLayout as LayoutGeometry<W, H>>::spec_total_words(),
        block_exact(old(data)@, old(block)@),
        tables_ok(x_table@, y_table@),
        lx0 <= lx1 < 8,
        ly0 <= ly1 < 8,
        8 * bx + lx1 < W,
        8 * by + ly1 < H,
        word_idx == block_word(bx as int, by as int),
    ensures
        final(data).len() == old(data).len(),
        block_exact(final(data)@, final(block)@),
        forall|p: int|
            #[trigger] data_bit(final(data)@, p) == if valid_pos::<W, H, MortonLayout>(p) && in_block(
                unmorton(p),
                bx as int,
                by as int,
                lx0 as int,
                lx1 as int,
                ly0 as int,
                ly1 as int,
            ) {
                value
            } else {
                data_bit(old(data)@, p)
            },
{
    proof {
        lemma_cell_pos::<W, H>(8 * bx as int, 8 * by as int);
        lemma_cell_pos::<W, H>(8 * bx + lx0 as int, 8 * by + ly0 as int);
        <MortonLayout as LayoutGeometry<W, H>>::lemma_geometry();
    }
    let mask = MortonLayout::mask_8x8rect(x_table, y_table, lx0, lx1, ly0, ly1);
    proof {
        let b0 = morton(lx0, ly0) as int;
        assert(word_bit(mask, b0));
        lemma_zero_and_full();
    }
    apply_word_mask(data, block, word_idx, mask, value);
    proof {
        assert forall|p: int|
            #[trigger] data_bit(data@, p) == if valid_pos::<W, H, MortonLayout>(p) && in_block(
                unmorton(p),
                bx as int,
                by as int,
                lx0 as int,
                lx1 as int,
                ly0 as int,
                ly1 as int,
            ) {
                value
            } else {
                data_bit(old(data)@, p)
            } by {
            if 0 <= p && p / 64 == word_idx {
                let b = p % 64;
                lemma_word_cell(bx as int, by as int, b);
                assert(p == word_idx * 64 + b);
                let c = unmorton(p);
                if word_bit(mask, b) {
                    lemma_pos_of_cell::<W, H>(p);
                }
            } else if valid_pos::<W, H, MortonLayout>(p) && in_block(
                unmorton(p),
                bx as int,
                by as int,
                lx0 as int,
                lx1 as int,
                ly0 as int,
                ly1 as int,
            ) {
                let c = unmorton(p);
                lemma_cell_pos::<W, H>(c.0, c.1);
            }
        }
    }
}

/// A block cell is a mask bit of its block's word.
proof fn lemma_block_cell_bit<const W: usize, const H: usize>(
    data: Seq<u64>,
    bx: int,
    by: int,
    lx0: int,
    lx1: int,
    ly0: int,
    ly1: int,
    mask: u64,
    c: (int, int),
)
    requires
        <MortonLayout as LayoutGeometry<W, H>>::dims_ok(),
        data.len() == <MortonLayout as LayoutGeometry<W, H>>::spec_total_words(),
        block_mask_ok(mask, lx0, lx1, ly0, ly1),
        0 <= lx0 <= lx1 < 8,
        0 <= ly0 <= ly1 < 8,
        8 * bx + lx1 < W,
        8 * by + ly1 < H,
        in_block(c, bx, by, lx0, lx1, ly0, ly1),
    ensures
        ({
            let b = morton((c.0 % 8) as u32, (c.1 % 8) as u32) as int;
            &&& 0 <= b < 64
            &&& word_bit(mask, b)
            &&& cells::<W, H, MortonLayout>(data).contains(c) == word_bit(data[block_word(bx, by)], b)
        }),
{
    lemma_cell_pos::<W, H>(c.0, c.1);
    let p = morton(c.0 as u32, c.1 as u32) as int;
    let w = block_word(bx, by);
    assert(p == w * 64 + p % 64);
    assert(p / 64 == w);
}

/// A mask bit of a block's word is a block cell.
proof fn lemma_block_bit_cell(
    bx: int,
    by: int,
    lx0: int,
    lx1: int,
    ly0: int,
    ly1: int,
    mask: u64,
    b: int,
)
    requires
        block_mask_ok(mask, lx0, lx1, ly0, ly1),
        0 <= bx < 8192,
        0 <= by < 8192,
        word_bit(mask, b),
    ensures
        ({
            let c = (8 * bx + local_x(b), 8 * by + local_y(b));
            &&& in_block(c, bx, by, lx0, lx1, ly0, ly1)
            &&& morton((c.0 % 8) as u32, (c.1 % 8) as u32) as int == b
        }),
{
    lemma_word_cell(bx, by, b);
    lemma_unmorton_roundtrip(b as u64);
    assert((b as u64) as u32 == b as u32);
}

/// What the mask of a block says about the cells of that block.
proof fn lemma_block_test<const W: usize, const H: usize>(
    data: Seq<u64>,
    bx: int,
    by: int,
    lx0: int,
    lx1: int,
    ly0: int,
    ly1: int,
    mask: u64,
)
    requires
        <MortonLayout as LayoutGeometry<W, H>>::dims_ok(),
        data.len() == <MortonLayout as LayoutGeometry<W, H>>::spec_total_words(),
        block_mask_ok(mask, lx0, lx1, ly0, ly1),
        0 <= lx0 <= lx1 < 8,
        0 <= ly0 <= ly1 < 8,
        0 <= bx,
        0 <= by,
        8 * bx + lx1 < W,
        8 * by + ly1 < H,
    ensures
        0 <= block_word(bx, by) < data.len(),
        ((data[block_word(bx, by)] & mask) != 0) == (exists|c: (int, int)|
            in_block(c, bx, by, lx0, lx1, ly0, ly1) && #[trigger] cells::<W, H, MortonLayout>(
                data,
            ).contains(c)),
        ((data[block_word(bx, by)] & mask) == mask) == (forall|c: (int, int)|
            in_block(c, bx, by, lx0, lx1, ly0, ly1) ==> #[trigger] cells::<W, H, MortonLayout>(
                data,
            ).contains(c)),
{
    let w = block_word(bx, by);
    lemma_cell_pos::<W, H>(8 * bx, 8 * by);
    <MortonLayout as LayoutGeometry<W, H>>::lemma_geometry();
    assert(0 <= w < data.len());
    crate::runs::lemma_and_nonzero(data[w], mask);
    crate::runs::lemma_and_covers(data[w], mask);
    if (data[w] & mask) != 0 {
        let b = choose|b: int| #[trigger] word_bit(mask, b) && word_bit(data[w], b);
        lemma_block_bit_cell(bx, by, lx0, lx1, ly0, ly1, mask, b);
        let c = (8 * bx + local_x(b), 8 * by + local_y(b));
        lemma_block_cell_bit::<W, H>(data, bx, by, lx0, lx1, ly0, ly1, mask, c);
        assert(cells::<W, H, MortonLayout>(data).contains(c));
    } else {
        assert forall|c: (int, int)| in_block(c, bx, by, lx0, lx1, ly0, ly1) implies !#[trigger] cells::<
            W,
            H,
            MortonLayout,
        >(data).contains(c) by {
            lemma_block_cell_bit::<W, H>(data, bx, by, lx0, lx1, ly0, ly1, mask, c);
        }
    }
    if (data[w] & mask) != mask {
        let b = choose|b: int| #[trigger] word_bit(mask, b) && !word_bit(data[w], b);
        lemma_block_bit_cell(bx, by, lx0, lx1, ly0, ly1, mask, b);
        let c = (8 * bx + local_x(b), 8 * by + local_y(b));
        lemma_block_cell_bit::<W, H>(data, bx, by, lx0, lx1, ly0, ly1, mask, c);
        assert(!cells::<W, H, MortonLayout>(data).contains(c));
    } else {
        assert forall|c: (int, int)| in_block(c, bx, by, lx0, lx1, ly0, ly1) implies #[trigger] cells::<
            W,
            H,
            MortonLayout,
        >(data).contains(c) by {
            lemma_block_cell_bit::<W, H>(data, bx, by, lx0, lx1, ly0, ly1, mask, c);
        }
    }
}

impl MortonLayout {
    /// Whether the board covers only part of its Morton square.
    fn part_of_square_exec<const W: usize, const H: usize>() -> (r: bool)
        requires
            <MortonLayout as LayoutGeometry<W, H>>::dims_ok(),
        ensures
            r == part_of_square::<W, H>(),
    {
        let s = MortonLayout::side_len::<W, H>();
        !(W == s && H == s && s >= 8)
    }

    /// Side of the Morton square: the smallest power of two that is at least `max(W, H)`.
    fn side_len<const W: usize, const H: usize>() -> (s: usize)
        requires
            <MortonLayout as LayoutGeometry<W, H>>::dims_ok(),
        ensures
            s == side::<W, H>(),
    {
        let m = if W >= H {
            W
        } else {
            H
        };
        let ghost n = m as int;
        let mut p: usize = 1;
        let ghost mut k: nat = 0;
        proof {
            lemma_side_exp(n, 0);
            lemma_pow2k(0);
            assert(pow2(0) == 1) by {
                vstd::arithmetic::power2::lemma2_to64();
            }
        }
        while p < m
            invariant
                1 <= n <= 32768,
                m == n,
                p == pow2k(k),
                k <= side_exp_from(n, 0),
                side_exp_from(n, k) == side_exp_from(n, 0),
                side_exp_from(n, 0) <= 15,
            decreases 16 - k,
        {
            proof {
                lemma_side_exp(n, k);
                lemma_pow2k(k);
                assert(k < 16);
            }
            p = p * 2;
            proof {
                k = k + 1;
            }
        }
        proof {
            lemma_side_exp(n, k);
        }
        p
    }

    /// Moves every set cell `(x, y)` of `src` to `(x + dx, y + dy)`, dropping
    /// cells that leave the board.
    fn apply_shift<const W: usize, const H: usize>(
        src: &Vec<u64>,
        block: &Vec<u64>,
        dst: &mut Vec<u64>,
        dst_block: &mut Vec<u64>,
        dx: i64,
        dy: i64,
    )
        requires
            grid_ok::<W, H, MortonLayout>(src@, block@),
            old(dst).len() == src.len(),
            old(dst_block).len() == block.len(),
            -0x8000_0000 <= dx <= 0x8000_0000,
            -0x8000_0000 <= dy <= 0x8000_0000,
        ensures
            final(dst).len() == old(dst).len(),
            block_exact(final(dst)@, final(dst_block)@),
            forall|p: int|
                #[trigger] data_bit(final(dst)@, p) == moved_bit::<W, H>(src@, p, dx as int, dy as int, (src.len() * 64) as int),
    {
        fill_zero(dst);
        fill_zero(dst_block);
        proof {
            crate::grid::lemma_zero_grid::<W, H, MortonLayout>(dst@, dst_block@);
            <MortonLayout as LayoutGeometry<W, H>>::lemma_geometry();
        }
        let bw = block.len();
        let mut block_idx: usize = 0;
        while block_idx < bw
            invariant
                -0x8000_0000 <= dx <= 0x8000_0000,
                -0x8000_0000 <= dy <= 0x8000_0000,
                grid_ok::<W, H, MortonLayout>(src@, block@),
                dst.len() == src.len(),
                dst_block.len() == block.len(),
                bw == block.len(),
                block_exact(dst@, dst_block@),
                block_idx <= bw,
                forall|p: int|
                    #[trigger] data_bit(dst@, p) == moved_bit::<W, H>(
                        src@,
                        p,
                        dx as int,
                        dy as int,
                        block_idx * 64 * 64,
                    ),
            decreases bw - block_idx,
        {
            let block_val = block[block_idx];
            let mut block_word = block_val;
            proof {
                lemma_walk_start(block_val);
                lemma_tz(block_val);
                lemma_words_skipped(src@, block@, block_idx as int, block_val, 0);
                lemma_moved_same::<W, H>(
                    src@,
                    block_idx * 64 * 64,
                    (block_idx * 64 + u64_trailing_zeros(block_val)) * 64,
                    dx as int,
                    dy as int,
                );
            }
            while block_word != 0
                invariant
                    -0x8000_0000 <= dx <= 0x8000_0000,
                    -0x8000_0000 <= dy <= 0x8000_0000,
                    grid_ok::<W, H, MortonLayout>(src@, block@),
                    dst.len() == src.len(),
                    dst_block.len() == block.len(),
                    bw == block.len(),
                    block_exact(dst@, dst_block@),
                    block_idx < bw,
                    block_val == block@[block_idx as int],
                    bits_from_lowest(block_val, block_word),
                    forall|p: int|
                        #[trigger] data_bit(dst@, p) == moved_bit::<W, H>(
                            src@,
                            p,
                            dx as int,
                            dy as int,
                            (block_idx * 64 + u64_trailing_zeros(block_word)) * 64,
                        ),
                decreases u64_trailing_zeros(block_val) - u64_trailing_zeros(block_word) + 64,
            {
                let bit = block_word.trailing_zeros();
                proof {
                    lemma_walk_step(block_val, block_word);
                    assert(data_bit(block@, block_idx * 64 + bit));
                    assert((block_idx * 64 + bit) / 64 == block_idx);
                    assert((block_idx * 64 + bit) % 64 == bit);
                }
                block_word = block_word & (block_word - 1);
                let word_idx = block_idx * 64 + bit as usize;
                let mut data_word = src[word_idx];
                proof {
                    lemma_walk_start(src@[word_idx as int]);
                    lemma_tz(src@[word_idx as int]);
                    lemma_low_bits_absent(src@, word_idx as int, u64_trailing_zeros(src@[word_idx as int]) as int);
                    lemma_moved_same::<W, H>(
                        src@,
                        word_idx * 64,
                        word_idx * 64 + u64_trailing_zeros(src@[word_idx as int]),
                        dx as int,
                        dy as int,
                    );
                }
                while data_word != 0
                    invariant
                        -0x8000_0000 <= dx <= 0x8000_0000,
                        -0x8000_0000 <= dy <= 0x8000_0000,
                        grid_ok::<W, H, MortonLayout>(src@, block@),
                        dst.len() == src.len(),
                        dst_block.len() == block.len(),
                        block_exact(dst@, dst_block@),
                        word_idx < src.len(),
                        bits_from_lowest(src@[word_idx as int], data_word),
                        forall|p: int|
                            #[trigger] data_bit(dst@, p) == moved_bit::<W, H>(
                                src@,
                                p,
                                dx as int,
                                dy as int,
                                word_idx * 64 + u64_trailing_zeros(data_word),
                            ),
                    decreases 64 - u64_trailing_zeros(data_word),
                {
                    let dbit = data_word.trailing_zeros();
                    proof {
                        lemma_walk_step(src@[word_idx as int], data_word);
                        lemma_tz(data_word & ((data_word - 1) as u64));
                    }
                    let ghost prev = data_word;
                    data_word = data_word & (data_word - 1);
                    let (x, y) = <MortonLayout as BitLayout<W, H>>::word_bit_to_coord(word_idx, dbit);
                    let ghost q = word_idx * 64 + dbit;
                    proof {
                        assert(q / 64 == word_idx && q % 64 == dbit);
                        assert(data_bit(src@, q));
                        assert(valid_pos::<W, H, MortonLayout>(q));
                    }
                    let nx = x as i64 + dx;
                    let ny = y as i64 + dy;
                    let ghost dst_before = dst@;
                    if 0 <= nx && nx < W as i64 && 0 <= ny && ny < H as i64 {
                        let code = MortonLayout::encode(nx as u32, ny as u32);
                        proof {
                            lemma_cell_pos::<W, H>(nx as int, ny as int);
                            lemma_single_bit((code % 64) as u64);
                            lemma_zero_and_full();
                            assert(word_bit(1u64 << ((code % 64) as u64), (code % 64) as int));
                        }
                        apply_word_mask(dst, dst_block, code / 64, 1u64 << ((code % 64) as u64), true);
                        proof {
                            lemma_moved_step::<W, H>(
                                src@,
                                dst_before,
                                dst@,
                                q,
                                word_idx * 64 + u64_trailing_zeros(prev),
                                word_idx * 64 + u64_trailing_zeros(data_word),
                                dx as int,
                                dy as int,
                                true,
                            );
                        }
                    } else {
                        proof {
                            lemma_moved_step::<W, H>(
                                src@,
                                dst_before,
                                dst@,
                                q,
                                word_idx * 64 + u64_trailing_zeros(prev),
                                word_idx * 64 + u64_trailing_zeros(data_word),
                                dx as int,
                                dy as int,
                                false,
                            );
                        }
                    }
                }
                proof {
                    lemma_tz(block_word);
                    lemma_words_skipped(src@, block@, block_idx as int, block_val, bit as int + 1);
                    lemma_moved_same::<W, H>(
                        src@,
                        (word_idx + 1) * 64,
                        (block_idx * 64 + u64_trailing_zeros(block_word)) * 64,
                        dx as int,
                        dy as int,
                    );
                }
            }
            proof {
                lemma_tz(block_word);
            }
            block_idx += 1;
        }
        proof {
            assert forall|p: int| #[trigger] data_bit(dst@, p) == moved_bit::<W, H>(
                src@,
                p,
                dx as int,
                dy as int,
                (src.len() * 64) as int,
            ) by {
                if valid_pos::<W, H, MortonLayout>(p) {
                    let c = unmorton(p);
                    let sx = c.0 - dx;
                    let sy = c.1 - dy;
                    if in_board::<W, H>(sx, sy) {
                        lemma_cell_pos::<W, H>(sx, sy);
                    }
                }
            }
        }
    }
}

/// The cell at position `p` is the move of a set cell of `src` whose
/// position is below `bound`.
pub open spec fn moved_bit<const W: usize, const H: usize>(
    src: Seq<u64>,
    p: int,
    dx: int,
    dy: int,
    bound: int,
) -> bool {
    let c = unmorton(p);
    let s = (c.0 - dx, c.1 - dy);
    &&& valid_pos::<W, H, MortonLayout>(p)
    &&& in_board::<W, H>(s.0, s.1)
    &&& data_bit(src, morton(s.0 as u32, s.1 as u32) as int)
    &&& morton(s.0 as u32, s.1 as u32) < bound
}


/// Moving the bound over positions with no set bit changes nothing.
proof fn lemma_moved_same<const W: usize, const H: usize>(
    src: Seq<u64>,
    b1: int,
    b2: int,
    dx: int,
    dy: int,
)
    requires
        b1 <= b2,
        forall|q: int| b1 <= q < b2 ==> !#[trigger] data_bit(src, q),
    ensures
        forall|p: int|
            #[trigger] moved_bit::<W, H>(src, p, dx, dy, b1) == moved_bit::<W, H>(
                src,
                p,
                dx,
                dy,
                b2,
            ),
{
}

/// Processing the set bit `q` of `src`: the target cell, when on the board, is set.
proof fn lemma_moved_step<const W: usize, const H: usize>(
    src: Seq<u64>,
    before: Seq<u64>,
    after: Seq<u64>,
    q: int,
    b1: int,
    b2: int,
    dx: int,
    dy: int,
    landed: bool,
)
    requires
        <MortonLayout as LayoutGeometry<W, H>>::dims_ok(),
        clean::<W, H, MortonLayout>(src),
        b1 == q,
        q < b2,
        data_bit(src, q),
        forall|r: int| q < r < b2 ==> !#[trigger] data_bit(src, r),
        forall|p: int| #[trigger] data_bit(before, p) == moved_bit::<W, H>(src, p, dx, dy, b1),
        landed ==> in_board::<W, H>(unmorton(q).0 + dx, unmorton(q).1 + dy),
        !landed ==> !in_board::<W, H>(unmorton(q).0 + dx, unmorton(q).1 + dy),
        landed ==> forall|p: int|
            #[trigger] data_bit(after, p) == (data_bit(before, p) || p == morton(
                (unmorton(q).0 + dx) as u32,
                (unmorton(q).1 + dy) as u32,
            ) as int),
        !landed ==> after == before,
    ensures
        forall|p: int| #[trigger] data_bit(after, p) == moved_bit::<W, H>(src, p, dx, dy, b2),
{
    let c = unmorton(q);
    assert(valid_pos::<W, H, MortonLayout>(q));
    assert forall|p: int| #[trigger] data_bit(after, p) == moved_bit::<W, H>(src, p, dx, dy, b2) by {
        let t = unmorton(p);
        let s = (t.0 - dx, t.1 - dy);
        if valid_pos::<W, H, MortonLayout>(p) && in_board::<W, H>(s.0, s.1) {
            lemma_cell_pos::<W, H>(s.0, s.1);
            if morton(s.0 as u32, s.1 as u32) as int == q {
                assert(s == c);
                assert(t == (c.0 + dx, c.1 + dy));
                assert(p == morton(t.0 as u32, t.1 as u32) as int);
            }
        }
        if landed {
            let tp = morton((c.0 + dx) as u32, (c.1 + dy) as u32) as int;
            lemma_cell_pos::<W, H>(c.0 + dx, c.1 + dy);
            if p == tp {
                assert(unmorton(p) == (c.0 + dx, c.1 + dy));
            }
        }
    }
}


impl<const W: usize, const H: usize> BitLayout<W, H> for MortonLayout {
    fn dims_supported() -> (r: bool) {
        1 <= W && W <= 32768 && 1 <= H && H <= 32768
    }

    fn total_words() -> (r: usize) {
        let max_dim = MortonLayout::side_len::<W, H>();
        proof {
            lemma_side::<W, H>();
            assert(max_dim * max_dim <= 32768 * 32768) by (nonlinear_arith)
                requires
                    max_dim <= 32768,
            ;
        }
        (max_dim * max_dim + 63) / 64
    }

    fn coord_to_word_bit(x: i32, y: i32) -> (r: Option<(usize, u32)>) {
        if x < 0 || y < 0 || x >= W as i32 || y >= H as i32 {
            return None;
        }
        let morton = MortonLayout::encode(x as u32, y as u32);
        Some((morton / 64, (morton % 64) as u32))
    }

    fn word_bit_to_coord(word: usize, bit: u32) -> (r: (i32, i32)) {
        proof {
            <MortonLayout as LayoutGeometry<W, H>>::lemma_geometry();
        }
        let morton = word * 64 + bit as usize;
        let (x, y) = MortonLayout::decode(morton);
        proof {
            bv_shr_usize(morton);
            bv_compact_small(morton as u32);
            bv_compact_small((morton >> 1usize) as u32);
        }
        (x as i32, y as i32)
    }

    fn flat_index_to_coord(idx: usize) -> (r: (i32, i32)) {
        let (x, y) = MortonLayout::decode(idx);
        proof {
            bv_compact_small(idx as u32);
            bv_compact_small((idx >> 1usize) as u32);
        }
        (x as i32, y as i32)
    }

    fn coord_to_flat_index(x: i32, y: i32) -> (r: Option<usize>) {
        if x < 0 || y < 0 || x >= W as i32 || y >= H as i32 {
            None
        } else {
            Some(MortonLayout::encode(x as u32, y as u32))
        }
    }

    /// Morton order has no end-of-row padding.
    fn has_padding() -> (r: bool) {
        false
    }

    fn padding_mask() -> (r: u64) {
        !0u64
    }

    fn clear_padding(data: &mut Vec<u64>) {
        proof {
            <MortonLayout as LayoutGeometry<W, H>>::lemma_geometry();
        }
        if !MortonLayout::part_of_square_exec::<W, H>() {
            proof {
                assert forall|p: int| #[trigger] data_bit(old(data)@, p) implies valid_pos::<W, H, Self>(p) by {
                    assert(!<Self as LayoutGeometry<W, H>>::spec_padding_word(p / 64));
                }
            }
            return;
        }
        let total = data.len();
        let mut w: usize = 0;
        proof {
            lemma_side::<W, H>();
            let sd = side::<W, H>();
            assert(sd * sd <= 32768 * 32768) by (nonlinear_arith)
                requires
                    0 <= sd <= 32768,
            ;
        }
        while w < total
            invariant
                <MortonLayout as LayoutGeometry<W, H>>::dims_ok(),
                total == data.len(),
                data.len() == old(data).len(),
                total == <MortonLayout as LayoutGeometry<W, H>>::spec_total_words(),
                total * 64 + 64 <= 0x8000_0000,
                w <= total,
                forall|i: int| w <= i < total ==> #[trigger] data@[i] == old(data)@[i],
                forall|p: int|
                    #[trigger] data_bit(data@, p) == if 0 <= p < w * 64 {
                        data_bit(old(data)@, p) && valid_pos::<W, H, MortonLayout>(p)
                    } else {
                        data_bit(old(data)@, p)
                    },
            decreases total - w,
        {
            // Mask of the bits of word `w` that stand for cells.
            let mut mask = 0u64;
            let mut j: usize = 0;
            proof {
                lemma_zero_and_full();
            }
            while j < 64
                invariant
                    <MortonLayout as LayoutGeometry<W, H>>::dims_ok(),
                    w < total,
                    total * 64 + 64 <= 0x8000_0000,
                    j <= 64,
                    forall|b: int|
                        #[trigger] word_bit(mask, b) == (0 <= b < j && in_board::<W, H>(
                            unmorton(w * 64 + b).0,
                            unmorton(w * 64 + b).1,
                        )),
                decreases 64 - j,
            {
                let (cx, cy) = MortonLayout::decode(w * 64 + j);
                proof {
                    bv_shr_usize((w * 64 + j) as usize);
                    lemma_single_bit(j as u64);
                    lemma_bit_ops(mask, 1u64 << (j as u64));
                }
                if (cx as usize) < W && (cy as usize) < H {
                    mask = mask | (1u64 << (j as u64));
                }
                j += 1;
            }
            let v = data[w] & mask;
            proof {
                lemma_bit_ops(data@[w as int], mask);
            }
            let ghost before = data@;
            data.set(w, v);
            proof {
                assert forall|p: int|
                    #[trigger] data_bit(data@, p) == if 0 <= p < (w + 1) * 64 {
                        data_bit(old(data)@, p) && valid_pos::<W, H, MortonLayout>(p)
                    } else {
                        data_bit(old(data)@, p)
                    } by {
                    if 0 <= p && p / 64 == w {
                        let b = p % 64;
                        assert(p == w * 64 + b);
                        assert(data@[w as int] == old(data)@[w as int] & mask);
                        assert(data_bit(data@, p) == (word_bit(old(data)@[w as int], b) && word_bit(mask, b)));
                        assert(word_bit(mask, b) == in_board::<W, H>(unmorton(p).0, unmorton(p).1));
                        if in_board::<W, H>(unmorton(p).0, unmorton(p).1) {
                            lemma_pos_of_cell::<W, H>(p);
                        }
                    } else if 0 <= p && p / 64 > w && p / 64 < total {
                        assert(data@[p / 64] == old(data)@[p / 64]);
                    } else if 0 <= p && p / 64 < w {
                        assert(data_bit(before, p) == (data_bit(old(data)@, p) && valid_pos::<W, H, MortonLayout>(p)));
                        assert(data@[p / 64] == before[p / 64]);
                    }
                }
            }
            w += 1;
        }
    }

    fn fix_padding_block_mask(data: &Vec<u64>, block: &mut Vec<u64>) {
        proof {
            <MortonLayout as LayoutGeometry<W, H>>::lemma_geometry();
        }
        if !MortonLayout::part_of_square_exec::<W, H>() {
            return;
        }
        let total = data.len();
        let mut w: usize = 0;
        while w < total
            invariant
                total == data.len(),
                block.len() == block_len(data.len() as int),
                w <= total,
                forall|i: int|
                    #[trigger] data_bit(block@, i) == if 0 <= i < w {
                        data@[i] != 0
                    } else {
                        data_bit(old(block)@, i)
                    },
                forall|i: int|
                    #[trigger] data_bit(old(block)@, i) ==> 0 <= i < data.len(),
            decreases total - w,
        {
            recalc_block_word(data, block, w);
            w += 1;
        }
    }

    /// In Morton order no bit off the board is ever set, whatever the distance.
    fn shift_horizontal(
        src: &Vec<u64>,
        block: &Vec<u64>,
        dst: &mut Vec<u64>,
        dst_block: &mut Vec<u64>,
        dist: i32,
    )
        ensures
            clean::<W, H, Self>(final(dst)@),
    {
        MortonLayout::apply_shift::<W, H>(src, block, dst, dst_block, dist as i64, 0);
        proof {
            lemma_moved_is_shift::<W, H>(src@, dst@, dist as int, 0);
            lemma_shift_storage::<W, H>(src@, block@, dst@, dst_block@, dist as int, 0);
        }
    }

    fn shift_vertical(
        src: &Vec<u64>,
        block: &Vec<u64>,
        dst: &mut Vec<u64>,
        dst_block: &mut Vec<u64>,
        dist: i32,
    ) {
        MortonLayout::apply_shift::<W, H>(src, block, dst, dst_block, 0, dist as i64);
        proof {
            lemma_moved_is_shift::<W, H>(src@, dst@, 0, dist as int);
            lemma_shift_storage::<W, H>(src@, block@, dst@, dst_block@, 0, dist as int);
        }
    }

    fn rect_op(
        data: &mut Vec<u64>,
        block: &mut Vec<u64>,
        x: i32,
        y: i32,
        width: i32,
        height: i32,
        value: bool,
    ) {
        let ghost rect = rect_cells::<W, H>(x as int, y as int, width as int, height as int);
        let ghost goal = if value {
            cells::<W, H, Self>(old(data)@).union(rect)
        } else {
            cells::<W, H, Self>(old(data)@).difference(rect)
        };
        proof {
            <MortonLayout as LayoutGeometry<W, H>>::lemma_geometry();
        }
        // Coordinates are widened so that sums cannot overflow.
        let x1: u32 = if x < 0 {
            0
        } else {
            x as u32
        };
        let y1: u32 = if y < 0 {
            0
        } else {
            y as u32
        };
        let xe = x as i64 + width as i64;
        let ye = y as i64 + height as i64;
        let x2: u32 = if xe < 0 {
            0
        } else if xe > W as i64 {
            W as u32
        } else {
            xe as u32
        };
        let y2: u32 = if ye < 0 {
            0
        } else if ye > H as i64 {
            H as u32
        } else {
            ye as u32
        };
        if x1 >= x2 || y1 >= y2 {
            proof {
                assert(cells::<W, H, Self>(data@) =~= goal);
            }
            return;
        }
        let x_table = MortonLayout::compute_range_masks(false);
        let y_table = MortonLayout::compute_range_masks(true);
        let min_blk_x = x1 / 8;
        let max_blk_x = (x2 - 1) / 8;
        let min_blk_y = y1 / 8;
        let max_blk_y = (y2 - 1) / 8;
        let mut by = min_blk_y;
        while by <= max_blk_y
            invariant
                <MortonLayout as LayoutGeometry<W, H>>::dims_ok(),
                data.len() == old(data).len(),
                data.len() == <MortonLayout as LayoutGeometry<W, H>>::spec_total_words(),
                block_exact(data@, block@),
                tables_ok(x_table@, y_table@),
                x1 < x2 <= W,
                y1 < y2 <= H,
                min_blk_x == x1 / 8,
                max_blk_x == (x2 - 1) / 8,
                min_blk_y == y1 / 8,
                max_blk_y == (y2 - 1) / 8,
                min_blk_y <= by <= max_blk_y + 1,
                forall|p: int|
                    #[trigger] data_bit(data@, p) == if valid_pos::<W, H, MortonLayout>(p)
                        && x1 <= unmorton(p).0 < x2 && y1 <= unmorton(p).1 < y2 && unmorton(p).1 / 8
                        < by {
                        value
                    } else {
                        data_bit(old(data)@, p)
                    },
            decreases max_blk_y + 1 - by,
        {
            let local_min_y = if by == min_blk_y {
                y1 % 8
            } else {
                0
            };
            let local_max_y = if by == max_blk_y {
                (y2 - 1) % 8
            } else {
                7
            };
            let y_bits = MortonLayout::encode(0, by * 8);
            let mut bx = min_blk_x;
            while bx <= max_blk_x
                invariant
                    <MortonLayout as LayoutGeometry<W, H>>::dims_ok(),
                    data.len() == old(data).len(),
                    data.len() == <MortonLayout as LayoutGeometry<W, H>>::spec_total_words(),
                    block_exact(data@, block@),
                    tables_ok(x_table@, y_table@),
                    x1 < x2 <= W,
                    y1 < y2 <= H,
                    min_blk_x == x1 / 8,
                    max_blk_x == (x2 - 1) / 8,
                    min_blk_y == y1 / 8,
                    max_blk_y == (y2 - 1) / 8,
                    min_blk_y <= by <= max_blk_y,
                    min_blk_x <= bx <= max_blk_x + 1,
                    local_min_y == if by == min_blk_y { y1 % 8 } else { 0 },
                    local_max_y == if by == max_blk_y { (y2 - 1) % 8 } else { 7 },
                    y_bits == morton(0, (by * 8) as u32),
                    forall|p: int|
                        #[trigger] data_bit(data@, p) == if valid_pos::<W, H, MortonLayout>(p)
                            && x1 <= unmorton(p).0 < x2 && y1 <= unmorton(p).1 < y2 && (unmorton(p).1
                            / 8 < by || (unmorton(p).1 / 8 == by && unmorton(p).0 / 8 < bx)) {
                            value
                        } else {
                            data_bit(old(data)@, p)
                        },
                decreases max_blk_x + 1 - bx,
            {
                let local_min_x = if bx == min_blk_x {
                    x1 % 8
                } else {
                    0
                };
                let local_max_x = if bx == max_blk_x {
                    (x2 - 1) % 8
                } else {
                    7
                };
                let x_bits = MortonLayout::encode(bx * 8, 0);
                proof {
                    bv_morton_axes((bx * 8) as u32, (by * 8) as u32);
                }
                let word_idx = (x_bits | y_bits) / 64;
                let ghost before = data@;
                apply_block::<W, H>(
                    data,
                    block,
                    &x_table,
                    &y_table,
                    bx,
                    by,
                    local_min_x,
                    local_max_x,
                    local_min_y,
                    local_max_y,
                    word_idx,
                    value,
                );
                proof {
                    assert forall|p: int|
                        #[trigger] data_bit(data@, p) == if valid_pos::<W, H, MortonLayout>(p)
                            && x1 <= unmorton(p).0 < x2 && y1 <= unmorton(p).1 < y2 && (unmorton(
                            p,
                        ).1 / 8 < by || (unmorton(p).1 / 8 == by && unmorton(p).0 / 8 < bx + 1)) {
                            value
                        } else {
                            data_bit(old(data)@, p)
                        } by {
                        assert(data_bit(before, p) == if valid_pos::<W, H, MortonLayout>(p)
                            && x1 <= unmorton(p).0 < x2 && y1 <= unmorton(p).1 < y2 && (unmorton(
                            p,
                        ).1 / 8 < by || (unmorton(p).1 / 8 == by && unmorton(p).0 / 8 < bx)) {
                            value
                        } else {
                            data_bit(old(data)@, p)
                        });
                    }
                }
                bx += 1;
            }
            by += 1;
        }
        proof {
            assert forall|p: int| #[trigger] data_bit(data@, p) implies valid_pos::<W, H, Self>(p) by {}
            assert forall|c: (int, int)| #[trigger] cells::<W, H, Self>(data@).contains(c) == goal.contains(c) by {
                if in_board::<W, H>(c.0, c.1) {
                    lemma_cell_pos::<W, H>(c.0, c.1);
                }
            }
            assert(cells::<W, H, Self>(data@) =~= goal);
        }
    }

    fn set_row(data: &mut Vec<u64>, block: &mut Vec<u64>, y: i32, min_x: i32, max_x: i32, value: bool) {
        let ghost seg = row_segment::<W, H>(y as int, min_x as int, max_x as int);
        let ghost goal = if value {
            cells::<W, H, Self>(old(data)@).union(seg)
        } else {
            cells::<W, H, Self>(old(data)@).difference(seg)
        };
        proof {
            <MortonLayout as LayoutGeometry<W, H>>::lemma_geometry();
        }
        if y < 0 || y >= H as i32 || min_x > max_x || min_x >= W as i32 || max_x < 0 {
            proof {
                assert(cells::<W, H, Self>(data@) =~= goal);
            }
            return;
        }
        let lo_x: u32 = if min_x < 0 {
            0
        } else {
            min_x as u32
        };
        let hi_x: u32 = if max_x > W as i32 - 1 {
            (W - 1) as u32
        } else {
            max_x as u32
        };
        let uy = y as u32;
        let x_table = MortonLayout::compute_range_masks(false);
        let y_table = MortonLayout::compute_range_masks(true);
        let min_blk_x = lo_x / 8;
        let max_blk_x = hi_x / 8;
        let by = uy / 8;
        let local_y = uy % 8;
        let mut bx = min_blk_x;
        while bx <= max_blk_x
            invariant
                <MortonLayout as LayoutGeometry<W, H>>::dims_ok(),
                data.len() == old(data).len(),
                data.len() == <MortonLayout as LayoutGeometry<W, H>>::spec_total_words(),
                block_exact(data@, block@),
                tables_ok(x_table@, y_table@),
                lo_x <= hi_x < W,
                uy < H,
                min_blk_x == lo_x / 8,
                max_blk_x == hi_x / 8,
                by == uy / 8,
                local_y == uy % 8,
                min_blk_x <= bx <= max_blk_x + 1,
                forall|p: int|
                    #[trigger] data_bit(data@, p) == if valid_pos::<W, H, MortonLayout>(p)
                        && unmorton(p).1 == uy && lo_x <= unmorton(p).0 <= hi_x && unmorton(p).0 / 8
                        < bx {
                        value
                    } else {
                        data_bit(old(data)@, p)
                    },
            decreases max_blk_x + 1 - bx,
        {
            let local_min_x = if bx == min_blk_x {
                lo_x % 8
            } else {
                0
            };
            let local_max_x = if bx == max_blk_x {
                hi_x % 8
            } else {
                7
            };
            let word_idx = MortonLayout::encode(bx * 8, by * 8) / 64;
            let ghost before = data@;
            apply_block::<W, H>(
                data,
                block,
                &x_table,
                &y_table,
                bx,
                by,
                local_min_x,
                local_max_x,
                local_y,
                local_y,
                word_idx,
                value,
            );
            proof {
                assert forall|p: int|
                    #[trigger] data_bit(data@, p) == if valid_pos::<W, H, MortonLayout>(p)
                        && unmorton(p).1 == uy && lo_x <= unmorton(p).0 <= hi_x && unmorton(p).0 / 8
                        < bx + 1 {
                        value
                    } else {
                        data_bit(old(data)@, p)
                    } by {
                    assert(data_bit(before, p) == if valid_pos::<W, H, MortonLayout>(p)
                        && unmorton(p).1 == uy && lo_x <= unmorton(p).0 <= hi_x && unmorton(p).0 / 8
                        < bx {
                        value
                    } else {
                        data_bit(old(data)@, p)
                    });
                }
            }
            bx += 1;
        }
        proof {
            assert forall|p: int| #[trigger] data_bit(data@, p) implies valid_pos::<W, H, Self>(p) by {}
            assert forall|c: (int, int)| #[trigger] cells::<W, H, Self>(data@).contains(c) == goal.contains(c) by {
                if in_board::<W, H>(c.0, c.1) {
                    lemma_cell_pos::<W, H>(c.0, c.1);
                }
            }
            assert(cells::<W, H, Self>(data@) =~= goal);
        }
    }

    fn has_any_in_row(data: &Vec<u64>, y: i32, min_x: i32, max_x: i32) -> (r: bool) {
        proof {
            <MortonLayout as LayoutGeometry<W, H>>::lemma_geometry();
        }
        if y < 0 || y >= H as i32 || min_x > max_x || min_x >= W as i32 || max_x < 0 {
            return false;
        }
        let lo_x: u32 = if min_x < 0 {
            0
        } else {
            min_x as u32
        };
        let hi_x: u32 = if max_x > W as i32 - 1 {
            (W - 1) as u32
        } else {
            max_x as u32
        };
        let uy = y as u32;
        let x_table = MortonLayout::compute_range_masks(false);
        let y_table = MortonLayout::compute_range_masks(true);
        let min_blk_x = lo_x / 8;
        let max_blk_x = hi_x / 8;
        let by = uy / 8;
        let local_y = uy % 8;
        let mut bx = min_blk_x;
        while bx <= max_blk_x
            invariant
                <MortonLayout as LayoutGeometry<W, H>>::dims_ok(),
                data.len() == <MortonLayout as LayoutGeometry<W, H>>::spec_total_words(),
                tables_ok(x_table@, y_table@),
                lo_x <= hi_x < W,
                uy < H,
                uy == y,
                min_x <= max_x,
                lo_x == if min_x < 0 { 0 } else { min_x as int },
                hi_x == if max_x > W - 1 { W - 1 } else { max_x as int },
                min_blk_x == lo_x / 8,
                max_blk_x == hi_x / 8,
                by == uy / 8,
                local_y == uy % 8,
                min_blk_x <= bx <= max_blk_x + 1,
                forall|x: int|
                    min_x <= x <= max_x && x / 8 < bx ==> !#[trigger] cells::<W, H, Self>(
                        data@,
                    ).contains((x, y as int)),
            decreases max_blk_x + 1 - bx,
        {
            let local_min_x = if bx == min_blk_x {
                lo_x % 8
            } else {
                0
            };
            let local_max_x = if bx == max_blk_x {
                hi_x % 8
            } else {
                7
            };
            let word_idx = MortonLayout::encode(bx * 8, by * 8) / 64;
            let mask = MortonLayout::mask_8x8rect(
                &x_table,
                &y_table,
                local_min_x,
                local_max_x,
                local_y,
                local_y,
            );
            proof {
                lemma_block_test::<W, H>(
                    data@,
                    bx as int,
                    by as int,
                    local_min_x as int,
                    local_max_x as int,
                    local_y as int,
                    local_y as int,
                    mask,
                );
            }
            if (data[word_idx] & mask) != 0 {
                proof {
                    let c = choose|c: (int, int)|
                        in_block(
                            c,
                            bx as int,
                            by as int,
                            local_min_x as int,
                            local_max_x as int,
                            local_y as int,
                            local_y as int,
                        ) && #[trigger] cells::<W, H, MortonLayout>(data@).contains(c);
                    assert(c.1 == y);
                    assert(min_x <= c.0 <= max_x);
                }
                return true;
            }
            proof {
                assert forall|x: int|
                    min_x <= x <= max_x && x / 8 < bx + 1 implies !#[trigger] cells::<W, H, Self>(
                    data@,
                ).contains((x, y as int)) by {
                    if x / 8 == bx && in_board::<W, H>(x, y as int) {
                        assert(in_block(
                            (x, y as int),
                            bx as int,
                            by as int,
                            local_min_x as int,
                            local_max_x as int,
                            local_y as int,
                            local_y as int,
                        ));
                    }
                }
            }
            bx += 1;
        }
        false
    }

    fn is_all_in_row(data: &Vec<u64>, y: i32, min_x: i32, max_x: i32) -> (r: bool) {
        proof {
            <MortonLayout as LayoutGeometry<W, H>>::lemma_geometry();
        }
        if y < 0 || y >= H as i32 || min_x > max_x || min_x >= W as i32 || max_x < 0 {
            proof {
                if min_x <= max_x {
                    assert(!cells::<W, H, Self>(data@).contains((min_x as int, y as int)));
                }
            }
            return false;
        }
        // Cells outside the board are unset, so a run that leaves the board is not all set.
        if min_x < 0 || max_x >= W as i32 {
            proof {
                if min_x < 0 {
                    assert(!cells::<W, H, Self>(data@).contains((min_x as int, y as int)));
                } else {
                    assert(!cells::<W, H, Self>(data@).contains((max_x as int, y as int)));
                }
            }
            return false;
        }
        let lo_x = min_x as u32;
        let hi_x = max_x as u32;
        let uy = y as u32;
        let x_table = MortonLayout::compute_range_masks(false);
        let y_table = MortonLayout::compute_range_masks(true);
        let min_blk_x = lo_x / 8;
        let max_blk_x = hi_x / 8;
        let by = uy / 8;
        let local_y = uy % 8;
        let mut bx = min_blk_x;
        while bx <= max_blk_x
            invariant
                <MortonLayout as LayoutGeometry<W, H>>::dims_ok(),
                data.len() == <MortonLayout as LayoutGeometry<W, H>>::spec_total_words(),
                tables_ok(x_table@, y_table@),
                lo_x <= hi_x < W,
                uy < H,
                uy == y,
                lo_x == min_x,
                hi_x == max_x,
                min_blk_x == lo_x / 8,
                max_blk_x == hi_x / 8,
                by == uy / 8,
                local_y == uy % 8,
                min_blk_x <= bx <= max_blk_x + 1,
                forall|x: int|
                    min_x <= x <= max_x && x / 8 < bx ==> #[trigger] cells::<W, H, Self>(
                        data@,
                    ).contains((x, y as int)),
            decreases max_blk_x + 1 - bx,
        {
            let local_min_x = if bx == min_blk_x {
                lo_x % 8
            } else {
                0
            };
            let local_max_x = if bx == max_blk_x {
                hi_x % 8
            } else {
                7
            };
            let word_idx = MortonLayout::encode(bx * 8, by * 8) / 64;
            let mask = MortonLayout::mask_8x8rect(
                &x_table,
                &y_table,
                local_min_x,
                local_max_x,
                local_y,
                local_y,
            );
            proof {
                lemma_block_test::<W, H>(
                    data@,
                    bx as int,
                    by as int,
                    local_min_x as int,
                    local_max_x as int,
                    local_y as int,
                    local_y as int,
                    mask,
                );
            }
            if (data[word_idx] & mask) != mask {
                proof {
                    let c = choose|c: (int, int)|
                        in_block(
                            c,
                            bx as int,
                            by as int,
                            local_min_x as int,
                            local_max_x as int,
                            local_y as int,
                            local_y as int,
                        ) && !#[trigger] cells::<W, H, MortonLayout>(data@).contains(c);
                    assert(c.1 == y);
                    assert(min_x <= c.0 <= max_x);
                }
                return false;
            }
            proof {
                assert forall|x: int|
                    min_x <= x <= max_x && x / 8 < bx + 1 implies #[trigger] cells::<W, H, Self>(
                    data@,
                ).contains((x, y as int)) by {
                    if x / 8 == bx {
                        assert(in_block(
                            (x, y as int),
                            bx as int,
                            by as int,
                            local_min_x as int,
                            local_max_x as int,
                            local_y as int,
                            local_y as int,
                        ));
                    }
                }
            }
            bx += 1;
        }
        true
    }
}

/// The moved bits of a whole storage are the shifted cells.
proof fn lemma_moved_is_shift<const W: usize, const H: usize>(
    src: Seq<u64>,
    dst: Seq<u64>,
    dx: int,
    dy: int,
)
    requires
        <MortonLayout as LayoutGeometry<W, H>>::dims_ok(),
        src.len() == <MortonLayout as LayoutGeometry<W, H>>::spec_total_words(),
        forall|p: int|
            #[trigger] data_bit(dst, p) == moved_bit::<W, H>(src, p, dx, dy, (src.len() * 64) as int),
    ensures
        forall|p: int|
            valid_pos::<W, H, MortonLayout>(p) ==> #[trigger] data_bit(dst, p) == (in_board::<W, H>(
                unmorton(p).0,
                unmorton(p).1,
            ) && cells::<W, H, MortonLayout>(src).contains((unmorton(p).0 - dx, unmorton(p).1 - dy))),
{
    assert forall|p: int|
        valid_pos::<W, H, MortonLayout>(p) implies #[trigger] data_bit(dst, p) == (in_board::<W, H>(
        unmorton(p).0,
        unmorton(p).1,
    ) && cells::<W, H, MortonLayout>(src).contains((unmorton(p).0 - dx, unmorton(p).1 - dy))) by {
        let sx = unmorton(p).0 - dx;
        let sy = unmorton(p).1 - dy;
        if in_board::<W, H>(sx, sy) {
            lemma_cell_pos::<W, H>(sx, sy);
        }
    }
}

/// What a finished shift leaves in the destination: no bit off the board,
/// a copy of the source for a zero shift, nothing for a shift by the board's
/// size or more.
proof fn lemma_shift_storage<const W: usize, const H: usize>(
    src: Seq<u64>,
    block: Seq<u64>,
    dst: Seq<u64>,
    dst_block: Seq<u64>,
    dx: int,
    dy: int,
)
    requires
        grid_ok::<W, H, MortonLayout>(src, block),
        block_exact(dst, dst_block),
        dst.len() == src.len(),
        forall|p: int|
            #[trigger] data_bit(dst, p) == moved_bit::<W, H>(src, p, dx, dy, (src.len() * 64) as int),
    ensures
        clean::<W, H, MortonLayout>(dst),
        dx == 0 && dy == 0 ==> dst == src && dst_block == block,
        dx >= W || dx <= -W || dy >= H || dy <= -H ==> all_zero(dst) && all_zero(dst_block),
{
    <MortonLayout as LayoutGeometry<W, H>>::lemma_geometry();
    lemma_moved_is_shift::<W, H>(src, dst, dx, dy);
    assert(clean::<W, H, MortonLayout>(dst));
    let moved = Set::new(
        |c: (int, int)| in_board::<W, H>(c.0, c.1) && cells::<W, H, MortonLayout>(src).contains((c.0 - dx, c.1 - dy)),
    );
    assert forall|c: (int, int)| #[trigger] cells::<W, H, MortonLayout>(dst).contains(c) == moved.contains(c) by {
        if in_board::<W, H>(c.0, c.1) {
            let p = <MortonLayout as LayoutGeometry<W, H>>::spec_pos(c.0, c.1);
            assert(valid_pos::<W, H, MortonLayout>(p));
            assert(unmorton(p) == c);
        }
    }
    assert(cells::<W, H, MortonLayout>(dst) =~= moved);
    if dx == 0 && dy == 0 {
        assert(moved =~= cells::<W, H, MortonLayout>(src));
        crate::grid::lemma_same_cells_same_words::<W, H, MortonLayout>(dst, dst_block, src, block);
    }
    if dx >= W || dx <= -W || dy >= H || dy <= -H {
        assert(moved =~= Set::<(int, int)>::empty());
        crate::grid::lemma_empty_is_zero::<W, H, MortonLayout>(dst, dst_block);
    }
}

} // verus!
