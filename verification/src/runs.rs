//! Runs of consecutive flat bits: setting, clearing and testing them a word
//! at a time, with masks for the partial words at both ends.
use vstd::prelude::*;
use crate::bits::{word_bit, make_mask, lemma_bit_ops, lemma_zero_and_full, lemma_zero_iff_no_bits,
    lemma_bits_eq};
use crate::grid::{data_bit, block_exact, apply_word_mask};

verus! {

/// `(a & m) != 0` exactly when some bit of `m` is set in `a`.
pub proof fn lemma_and_nonzero(a: u64, m: u64)
    ensures
        ((a & m) != 0) == (exists|j: int| #[trigger] word_bit(m, j) && word_bit(a, j)),
{
    lemma_bit_ops(a, m);
    lemma_zero_iff_no_bits(a & m);
    if (a & m) != 0 {
        let j = choose|j: int| #[trigger] word_bit(a & m, j);
        assert(word_bit(m, j) && word_bit(a, j));
    } else {
        assert forall|j: int| #[trigger] word_bit(m, j) && word_bit(a, j) implies false by {
            assert(word_bit(a & m, j));
        }
    }
}

/// `(a & m) == m` exactly when every bit of `m` is set in `a`.
pub proof fn lemma_and_covers(a: u64, m: u64)
    ensures
        ((a & m) == m) == (forall|j: int| #[trigger] word_bit(m, j) ==> word_bit(a, j)),
{
    lemma_bit_ops(a, m);
    if forall|j: int| #[trigger] word_bit(m, j) ==> word_bit(a, j) {
        lemma_bits_eq(a & m, m);
    }
}

/// A word is all ones exactly when all of its 64 bits are set.
pub proof fn lemma_full_word(a: u64)
    ensures
        (a == !0u64) == (forall|j: int| 0 <= j < 64 ==> #[trigger] word_bit(a, j)),
{
    lemma_zero_and_full();
    if forall|j: int| 0 <= j < 64 ==> #[trigger] word_bit(a, j) {
        lemma_bits_eq(a, !0u64);
    }
}

proof fn lemma_word_split(p: int, w: int)
    requires
        p / 64 == w,
        0 <= p,
    ensures
        p == w * 64 + p % 64,
        0 <= p % 64 < 64,
{
}

/// Sets (`value`) or clears the flat bits `lo..=hi`, keeping the mask exact.
pub fn apply_range(data: &mut Vec<u64>, block: &mut Vec<u64>, lo: usize, hi: usize, value: bool)
    requires
        lo <= hi,
        hi < old(data).len() * 64,
        block_exact(old(data)@, old(block)@),
    ensures
        final(data).len() == old(data).len(),
        block_exact(final(data)@, final(block)@),
        forall|p: int|
            #[trigger] data_bit(final(data)@, p) == if lo <= p <= hi {
                value
            } else {
                data_bit(old(data)@, p)
            },
{
    let sw = lo / 64;
    let ew = hi / 64;
    if sw == ew {
        let mask = make_mask(lo % 64, hi % 64);
        apply_word_mask(data, block, sw, mask, value);
        proof {
            assert forall|p: int|
                #[trigger] data_bit(data@, p) == if lo <= p <= hi {
                    value
                } else {
                    data_bit(old(data)@, p)
                } by {
                if 0 <= p && p / 64 == sw {
                    lemma_word_split(p, sw as int);
                }
            }
        }
        return;
    }
    let s_mask = make_mask(lo % 64, 63);
    let e_mask = make_mask(0, hi % 64);
    apply_word_mask(data, block, sw, s_mask, value);
    proof {
        assert forall|p: int|
            #[trigger] data_bit(data@, p) == if lo <= p < (sw + 1) * 64 {
                value
            } else {
                data_bit(old(data)@, p)
            } by {
            if 0 <= p && p / 64 == sw {
                lemma_word_split(p, sw as int);
            }
        }
    }
    let mut w = sw + 1;
    while w < ew
        invariant
            sw < w <= ew,
            ew == hi / 64,
            sw == lo / 64,
            hi < data.len() * 64,
            data.len() == old(data).len(),
            block_exact(data@, block@),
            forall|p: int|
                #[trigger] data_bit(data@, p) == if lo <= p < w * 64 {
                    value
                } else {
                    data_bit(old(data)@, p)
                },
        decreases ew - w,
    {
        proof {
            lemma_zero_and_full();
            assert(word_bit(!0u64, 0));
        }
        apply_word_mask(data, block, w, !0u64, value);
        proof {
            assert forall|p: int|
                #[trigger] data_bit(data@, p) == if lo <= p < (w + 1) * 64 {
                    value
                } else {
                    data_bit(old(data)@, p)
                } by {
                if 0 <= p && p / 64 == w {
                    lemma_word_split(p, w as int);
                    assert(word_bit(!0u64, p % 64));
                }
            }
        }
        w += 1;
    }
    apply_word_mask(data, block, ew, e_mask, value);
    proof {
        assert forall|p: int|
            #[trigger] data_bit(data@, p) == if lo <= p <= hi {
                value
            } else {
                data_bit(old(data)@, p)
            } by {
            if 0 <= p && p / 64 == ew {
                lemma_word_split(p, ew as int);
            }
        }
    }
}

/// Whether some flat bit in `lo..=hi` is set.
pub fn any_in_range(data: &Vec<u64>, lo: usize, hi: usize) -> (r: bool)
    requires
        lo <= hi,
        hi < data.len() * 64,
    ensures
        r == exists|p: int| lo <= p <= hi && #[trigger] data_bit(data@, p),
{
    let sw = lo / 64;
    let ew = hi / 64;
    if sw == ew {
        let mask = make_mask(lo % 64, hi % 64);
        let r = (data[sw] & mask) != 0;
        proof {
            lemma_and_nonzero(data@[sw as int], mask);
            if r {
                let j = choose|j: int| #[trigger] word_bit(mask, j) && word_bit(data@[sw as int], j);
                let p = sw * 64 + j;
                assert(p / 64 == sw && p % 64 == j);
                assert(data_bit(data@, p));
            } else {
                assert forall|p: int| lo <= p <= hi implies !#[trigger] data_bit(data@, p) by {
                    lemma_word_split(p, sw as int);
                    assert(word_bit(mask, p % 64));
                }
            }
        }
        return r;
    }
    let s_mask = make_mask(lo % 64, 63);
    let e_mask = make_mask(0, hi % 64);
    let first = (data[sw] & s_mask) != 0;
    proof {
        lemma_and_nonzero(data@[sw as int], s_mask);
        if first {
            let j = choose|j: int| #[trigger] word_bit(s_mask, j) && word_bit(data@[sw as int], j);
            let p = sw * 64 + j;
            assert(p / 64 == sw && p % 64 == j);
            assert(data_bit(data@, p));
        } else {
            assert forall|p: int| lo <= p < (sw + 1) * 64 implies !#[trigger] data_bit(data@, p) by {
                lemma_word_split(p, sw as int);
                assert(word_bit(s_mask, p % 64));
            }
        }
    }
    if first {
        return true;
    }
    let mut w = sw + 1;
    while w < ew
        invariant
            sw < w <= ew,
            ew == hi / 64,
            sw == lo / 64,
            hi < data.len() * 64,
            forall|p: int| lo <= p < w * 64 ==> !#[trigger] data_bit(data@, p),
        decreases ew - w,
    {
        proof {
            lemma_zero_iff_no_bits(data@[w as int]);
        }
        if data[w] != 0 {
            proof {
                let j = choose|j: int| #[trigger] word_bit(data@[w as int], j);
                let p = w * 64 + j;
                assert(p / 64 == w && p % 64 == j);
                assert(data_bit(data@, p));
            }
            return true;
        }
        proof {
            assert forall|p: int| lo <= p < (w + 1) * 64 implies !#[trigger] data_bit(data@, p) by {
                if p >= w * 64 {
                    lemma_word_split(p, w as int);
                }
            }
        }
        w += 1;
    }
    let last = (data[ew] & e_mask) != 0;
    proof {
        lemma_and_nonzero(data@[ew as int], e_mask);
        if last {
            let j = choose|j: int| #[trigger] word_bit(e_mask, j) && word_bit(data@[ew as int], j);
            let p = ew * 64 + j;
            assert(p / 64 == ew && p % 64 == j);
            assert(data_bit(data@, p));
        } else {
            assert forall|p: int| lo <= p <= hi implies !#[trigger] data_bit(data@, p) by {
                if p >= ew * 64 {
                    lemma_word_split(p, ew as int);
                    assert(word_bit(e_mask, p % 64));
                }
            }
        }
    }
    last
}

/// Whether every flat bit in `lo..=hi` is set.
pub fn all_in_range(data: &Vec<u64>, lo: usize, hi: usize) -> (r: bool)
    requires
        lo <= hi,
        hi < data.len() * 64,
    ensures
        r == forall|p: int| lo <= p <= hi ==> #[trigger] data_bit(data@, p),
{
    let sw = lo / 64;
    let ew = hi / 64;
    if sw == ew {
        let mask = make_mask(lo % 64, hi % 64);
        let r = (data[sw] & mask) == mask;
        proof {
            lemma_and_covers(data@[sw as int], mask);
            if r {
                assert forall|p: int| lo <= p <= hi implies #[trigger] data_bit(data@, p) by {
                    lemma_word_split(p, sw as int);
                    assert(word_bit(mask, p % 64));
                }
            } else {
                let j = choose|j: int| #[trigger] word_bit(mask, j) && !word_bit(data@[sw as int], j);
                let p = sw * 64 + j;
                assert(p / 64 == sw && p % 64 == j);
                assert(!data_bit(data@, p));
            }
        }
        return r;
    }
    let s_mask = make_mask(lo % 64, 63);
    let e_mask = make_mask(0, hi % 64);
    let first = (data[sw] & s_mask) == s_mask;
    proof {
        lemma_and_covers(data@[sw as int], s_mask);
        if !first {
            let j = choose|j: int| #[trigger] word_bit(s_mask, j) && !word_bit(data@[sw as int], j);
            let p = sw * 64 + j;
            assert(p / 64 == sw && p % 64 == j);
            assert(!data_bit(data@, p));
        } else {
            assert forall|p: int| lo <= p < (sw + 1) * 64 implies #[trigger] data_bit(data@, p) by {
                lemma_word_split(p, sw as int);
                assert(word_bit(s_mask, p % 64));
            }
        }
    }
    if !first {
        return false;
    }
    let mut w = sw + 1;
    while w < ew
        invariant
            sw < w <= ew,
            ew == hi / 64,
            sw == lo / 64,
            hi < data.len() * 64,
            forall|p: int| lo <= p < w * 64 ==> #[trigger] data_bit(data@, p),
        decreases ew - w,
    {
        proof {
            lemma_full_word(data@[w as int]);
        }
        if data[w] != !0u64 {
            proof {
                let j = choose|j: int| 0 <= j < 64 && !#[trigger] word_bit(data@[w as int], j);
                let p = w * 64 + j;
                assert(p / 64 == w && p % 64 == j);
                assert(!data_bit(data@, p));
            }
            return false;
        }
        proof {
            assert forall|p: int| lo <= p < (w + 1) * 64 implies #[trigger] data_bit(data@, p) by {
                if p >= w * 64 {
                    lemma_word_split(p, w as int);
                }
            }
        }
        w += 1;
    }
    let last = (data[ew] & e_mask) == e_mask;
    proof {
        lemma_and_covers(data@[ew as int], e_mask);
        if last {
            assert forall|p: int| lo <= p <= hi implies #[trigger] data_bit(data@, p) by {
                if p >= ew * 64 {
                    lemma_word_split(p, ew as int);
                    assert(word_bit(e_mask, p % 64));
                }
            }
        } else {
            let j = choose|j: int| #[trigger] word_bit(e_mask, j) && !word_bit(data@[ew as int], j);
            let p = ew * 64 + j;
            assert(p / 64 == ew && p % 64 == j);
            assert(!data_bit(data@, p));
        }
    }
    last
}

} // verus!
