//! Word-level facts: single bits of a `u64`, masks of consecutive bits, the
//! lowest set bit, and the number of set bits.
use vstd::prelude::*;
use vstd::std_specs::bits::{u64_trailing_zeros, axiom_u64_trailing_zeros};

verus! {

/// Bit `j` (counted from the least significant end) of `w` is set.
pub open spec fn word_bit(w: u64, j: int) -> bool {
    0 <= j < 64 && (w >> (j as u64)) & 1 == 1
}

/// Number of set bits of `w` among the positions below `n`.
pub open spec fn ones_below(w: u64, n: int) -> nat
    decreases n,
{
    if n <= 0 {
        0
    } else {
        ones_below(w, n - 1) + if word_bit(w, n - 1) { 1nat } else { 0nat }
    }
}

/// Number of set bits of `w`.
pub open spec fn popcount(w: u64) -> nat {
    ones_below(w, 64)
}

/// `u64::count_ones`: the number of ones in the binary representation of `w`.
#[verifier::external_body]
pub(crate) fn count_word_ones(w: u64) -> (r: u32)
    ensures
        r == popcount(w),
{
    w.count_ones()
}

proof fn bv_or(a: u64, b: u64, k: u64) by (bit_vector)
    requires
        k < 64,
    ensures
        ((a | b) >> k) & 1 == 1 <==> ((a >> k) & 1 == 1 || (b >> k) & 1 == 1),
{
}

proof fn bv_and(a: u64, b: u64, k: u64) by (bit_vector)
    requires
        k < 64,
    ensures
        ((a & b) >> k) & 1 == 1 <==> ((a >> k) & 1 == 1 && (b >> k) & 1 == 1),
{
}

proof fn bv_xor(a: u64, b: u64, k: u64) by (bit_vector)
    requires
        k < 64,
    ensures
        ((a ^ b) >> k) & 1 == 1 <==> ((a >> k) & 1 == 1) != ((b >> k) & 1 == 1),
{
}

proof fn bv_not(a: u64, k: u64) by (bit_vector)
    requires
        k < 64,
    ensures
        ((!a) >> k) & 1 == 1 <==> !((a >> k) & 1 == 1),
{
}

proof fn bv_zero_full(k: u64) by (bit_vector)
    requires
        k < 64,
    ensures
        !((0u64 >> k) & 1 == 1),
        ((!0u64) >> k) & 1 == 1,
{
}

proof fn bv_single(k: u64, j: u64) by (bit_vector)
    requires
        k < 64,
        j < 64,
    ensures
        ((1u64 << k) >> j) & 1 == 1 <==> j == k,
{
}

/// Bitwise or, and, xor and complement act bit by bit.
pub proof fn lemma_bit_ops(a: u64, b: u64)
    ensures
        forall|j: int| #[trigger] word_bit(a | b, j) == (word_bit(a, j) || word_bit(b, j)),
        forall|j: int| #[trigger] word_bit(a & b, j) == (word_bit(a, j) && word_bit(b, j)),
        forall|j: int| #[trigger] word_bit(a ^ b, j) == (word_bit(a, j) != word_bit(b, j)),
        forall|j: int| #[trigger] word_bit(!a, j) == (0 <= j < 64 && !word_bit(a, j)),
        forall|j: int| #[trigger] word_bit(a & !b, j) == (word_bit(a, j) && !word_bit(b, j)),
{
    assert forall|j: int| #[trigger] word_bit(a | b, j) == (word_bit(a, j) || word_bit(b, j)) by {
        if 0 <= j < 64 {
            bv_or(a, b, j as u64);
        }
    }
    assert forall|j: int| #[trigger] word_bit(a & b, j) == (word_bit(a, j) && word_bit(b, j)) by {
        if 0 <= j < 64 {
            bv_and(a, b, j as u64);
        }
    }
    assert forall|j: int| #[trigger] word_bit(a ^ b, j) == (word_bit(a, j) != word_bit(b, j)) by {
        if 0 <= j < 64 {
            bv_xor(a, b, j as u64);
        }
    }
    assert forall|j: int| #[trigger] word_bit(!a, j) == (0 <= j < 64 && !word_bit(a, j)) by {
        if 0 <= j < 64 {
            bv_not(a, j as u64);
        }
    }
    assert forall|j: int| #[trigger] word_bit(a & !b, j) == (word_bit(a, j) && !word_bit(b, j)) by {
        if 0 <= j < 64 {
            bv_not(b, j as u64);
            bv_and(a, !b, j as u64);
        }
    }
}

/// No bit of zero is set; every bit of the all-ones word is.
pub proof fn lemma_zero_and_full()
    ensures
        forall|j: int| !#[trigger] word_bit(0u64, j),
        forall|j: int| #[trigger] word_bit(!0u64, j) == (0 <= j < 64),
{
    assert forall|j: int| !#[trigger] word_bit(0u64, j) by {
        if 0 <= j < 64 {
            bv_zero_full(j as u64);
        }
    }
    assert forall|j: int| #[trigger] word_bit(!0u64, j) == (0 <= j < 64) by {
        if 0 <= j < 64 {
            bv_zero_full(j as u64);
        }
    }
}

/// The word with only bit `k` set.
pub proof fn lemma_single_bit(k: u64)
    requires
        k < 64,
    ensures
        forall|j: int| #[trigger] word_bit(1u64 << k, j) == (j == k),
{
    assert forall|j: int| #[trigger] word_bit(1u64 << k, j) == (j == k) by {
        if 0 <= j < 64 {
            bv_single(k, j as u64);
        }
    }
}

/// The lowest set bit of a non-zero word is its number of trailing zeros,
/// and `w & (w - 1)` clears exactly that bit.
pub proof fn lemma_lowest_bit(w: u64)
    requires
        w != 0,
    ensures
        u64_trailing_zeros(w) < 64,
        word_bit(w, u64_trailing_zeros(w) as int),
        forall|j: int| 0 <= j < u64_trailing_zeros(w) ==> !#[trigger] word_bit(w, j),
        forall|j: int|
            #[trigger] word_bit(w & ((w - 1) as u64), j) == (word_bit(w, j) && j
                != u64_trailing_zeros(w)),
{
    axiom_u64_trailing_zeros(w);
    let t = u64_trailing_zeros(w) as u64;
    assert(t < 64);
    assert forall|j: int| 0 <= j < u64_trailing_zeros(w) implies !#[trigger] word_bit(w, j) by {
        let k = j as u64;
        assert((w >> k) & 1u64 == 0u64);
    }
    assert forall|j: int|
        #[trigger] word_bit(w & ((w - 1) as u64), j) == (word_bit(w, j) && j
            != u64_trailing_zeros(w)) by {
        if 0 <= j < 64 {
            let k = j as u64;
            if k < t {
                assert((w >> k) & 1u64 == 0u64);
                bv_low_clear_below(w, t, k);
            } else {
                bv_low_clear_above(w, t, k);
            }
        }
    }
}

proof fn bv_low_clear_below(w: u64, t: u64, k: u64) by (bit_vector)
    requires
        w != 0,
        k < t,
        t < 64,
        (w >> k) & 1 == 0,
    ensures
        !(((w & ((w - 1) as u64)) >> k) & 1 == 1),
{
}

proof fn bv_low_clear_above(w: u64, t: u64, k: u64) by (bit_vector)
    requires
        w != 0,
        t <= k,
        k < 64,
        t < 64,
        (w >> t) & 1 == 1,
        w << ((64 - t) as u64) == 0 || t == 0,
    ensures
        ((w & ((w - 1) as u64)) >> k) & 1 == 1 <==> ((w >> k) & 1 == 1 && k != t),
{
}

/// A word is zero exactly when none of its bits is set.
pub proof fn lemma_zero_iff_no_bits(w: u64)
    ensures
        (w == 0) == (forall|j: int| !#[trigger] word_bit(w, j)),
{
    lemma_zero_and_full();
    if w != 0 {
        lemma_lowest_bit(w);
    }
}

/// Words with the same bits are equal.
pub proof fn lemma_bits_eq(a: u64, b: u64)
    requires
        forall|j: int| 0 <= j < 64 ==> #[trigger] word_bit(a, j) == word_bit(b, j),
    ensures
        a == b,
{
    lemma_bit_ops(a, b);
    lemma_zero_iff_no_bits(a ^ b);
    assert(a ^ b == 0);
    assert(a ^ b == 0 ==> a == b) by (bit_vector);
}

proof fn bv_mask(t: u64, len: u64, s: u64, k: u64) by (bit_vector)
    requires
        1 <= len < 64,
        s + len <= 64,
        t + 1 == 1u64 << len,
        k < 64,
    ensures
        ((t << s) >> k) & 1 == 1 <==> (s <= k && k < s + len),
{
}

/// Mask whose set bits are exactly `start_bit..=end_bit`.
pub fn make_mask(start_bit: usize, end_bit: usize) -> (m: u64)
    requires
        start_bit <= end_bit < 64,
    ensures
        forall|j: int| #[trigger] word_bit(m, j) == (start_bit <= j <= end_bit),
        m != 0,
{
    let len = end_bit - start_bit + 1;
    if len == 64 {
        proof {
            lemma_zero_and_full();
            assert(word_bit(!0u64, 0));
        }
        !0u64
    } else {
        let l = len as u64;
        let s = start_bit as u64;
        assert(1u64 << l >= 1) by (bit_vector)
            requires
                l < 64,
        ;
        let t = (1u64 << l) - 1;
        let m = t << s;
        proof {
            assert forall|j: int| #[trigger] word_bit(m, j) == (start_bit <= j <= end_bit) by {
                if 0 <= j < 64 {
                    bv_mask(t, l, s, j as u64);
                }
            }
            assert(word_bit(m, start_bit as int));
            lemma_zero_and_full();
        }
        m
    }
}


/// Trailing zeros of a word: 64 for zero, else the lowest set bit.
pub proof fn lemma_tz(w: u64)
    ensures
        u64_trailing_zeros(w) <= 64,
        (w == 0) == (u64_trailing_zeros(w) == 64),
        forall|j: int| 0 <= j < u64_trailing_zeros(w) ==> !#[trigger] word_bit(w, j),
        w != 0 ==> word_bit(w, u64_trailing_zeros(w) as int),
{
    axiom_u64_trailing_zeros(w);
    lemma_zero_and_full();
    if w != 0 {
        lemma_lowest_bit(w);
    } else {
        assert forall|j: int| 0 <= j < u64_trailing_zeros(w) implies !#[trigger] word_bit(w, j) by {}
    }
}

/// The set bits of `r` are those of `w` from `r`'s lowest set bit on.
pub open spec fn bits_from_lowest(w: u64, r: u64) -> bool {
    forall|j: int| #[trigger] word_bit(r, j) == (word_bit(w, j) && j >= u64_trailing_zeros(r))
}

/// Starting to walk the set bits of `w`.
pub proof fn lemma_walk_start(w: u64)
    ensures
        bits_from_lowest(w, w),
{
    lemma_tz(w);
}

/// One step of walking the set bits of `w`: clearing the lowest set bit of
/// `r` moves on to the next set bit of `w`.
pub proof fn lemma_walk_step(w: u64, r: u64)
    requires
        bits_from_lowest(w, r),
        r != 0,
    ensures
        u64_trailing_zeros(r) < 64,
        word_bit(w, u64_trailing_zeros(r) as int),
        bits_from_lowest(w, r & ((r - 1) as u64)),
        u64_trailing_zeros(r) < u64_trailing_zeros(r & ((r - 1) as u64)),
        forall|j: int|
            u64_trailing_zeros(r) < j < u64_trailing_zeros(r & ((r - 1) as u64)) ==> !#[trigger] word_bit(
                w,
                j,
            ),
{
    let t = u64_trailing_zeros(r);
    let r2 = r & ((r - 1) as u64);
    lemma_lowest_bit(r);
    lemma_tz(r);
    lemma_tz(r2);
    assert(word_bit(r, t as int));
    if r2 != 0 {
        assert(word_bit(r2, u64_trailing_zeros(r2) as int));
    }
    assert forall|j: int| #[trigger] word_bit(r2, j) == (word_bit(w, j) && j >= u64_trailing_zeros(
        r2,
    )) by {
        if word_bit(w, j) && j >= u64_trailing_zeros(r2) {
            assert(j > t);
        }
    }
    assert forall|j: int| t < j < u64_trailing_zeros(r2) implies !#[trigger] word_bit(w, j) by {
        if word_bit(w, j) {
            assert(word_bit(r, j));
            assert(word_bit(r2, j));
        }
    }
}

proof fn bv_shr(m: u64, s: u64, j: u64, k: u64) by (bit_vector)
    requires
        s < 64,
        j < 64,
        k == j + s,
    ensures
        ((m >> s) >> j) & 1 == 1 <==> (k < 64 && (m >> k) & 1 == 1),
{
}

/// Bit `j` of `m >> s` is bit `j + s` of `m`.
pub proof fn lemma_shr_bits(m: u64, s: u64)
    requires
        s < 64,
    ensures
        forall|j: int| 0 <= j ==> #[trigger] word_bit(m >> s, j) == word_bit(m, j + s),
{
    assert forall|j: int| 0 <= j implies #[trigger] word_bit(m >> s, j) == word_bit(m, j + s) by {
        if j < 64 {
            bv_shr(m, s, j as u64, (j + s) as u64);
        }
    }
}

} // verus!
