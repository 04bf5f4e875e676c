//! Bitwise operators on boards: and, or, xor (by reference, by value and
//! in place) and complement, all skipping empty words through the masks.
use vstd::prelude::*;
use core::ops::{BitAnd, BitAndAssign, BitOr, BitOrAssign, BitXor, BitXorAssign, Not};
use vstd::std_specs::bits::u64_trailing_zeros;
use vstd::std_specs::ops::{BitAndSpecImpl, BitOrSpecImpl, BitXorSpecImpl, NotSpecImpl};
use crate::bits::{word_bit, lemma_bit_ops, lemma_tz, lemma_walk_start, lemma_walk_step,
    bits_from_lowest, lemma_zero_iff_no_bits, lemma_zero_and_full, lemma_bits_eq};
use crate::board::BitBoard;
use crate::grid::{cells, board_cells, grid_ok, block_exact, clean, data_bit, valid_pos, in_board,
    block_len, set_block_bit, fill_zero, lemma_word_nonzero};
use crate::layout::{BitLayout, LayoutGeometry};

verus! {

/// The operation that a binary board operation applies word by word.
#[derive(Clone, Copy)]
enum WordOp {
    And,
    Or,
    Xor,
}

/// The operation on single bits.
spec fn bit_op(op: WordOp, x: bool, y: bool) -> bool {
    match op {
        WordOp::And => x && y,
        WordOp::Or => x || y,
        WordOp::Xor => x != y,
    }
}

/// The operation on words.
spec fn word_op_spec(op: WordOp, a: u64, b: u64) -> u64 {
    match op {
        WordOp::And => a & b,
        WordOp::Or => a | b,
        WordOp::Xor => a ^ b,
    }
}

/// The operation on sets of cells.
spec fn cell_op(op: WordOp, s: Set<(int, int)>, t: Set<(int, int)>) -> Set<(int, int)> {
    match op {
        WordOp::And => s.intersect(t),
        WordOp::Or => s.union(t),
        WordOp::Xor => s.difference(t).union(t.difference(s)),
    }
}

/// The mask bits to visit: words non-zero in both storages (`and_blocks`)
/// or in either.
spec fn block_comb(and_blocks: bool, x: u64, y: u64) -> u64 {
    if and_blocks {
        x & y
    } else {
        x | y
    }
}

fn word_op(op: WordOp, a: u64, b: u64) -> (r: u64)
    ensures
        r == word_op_spec(op, a, b),
{
    match op {
        WordOp::And => a & b,
        WordOp::Or => a | b,
        WordOp::Xor => a ^ b,
    }
}

proof fn lemma_word_op_bits(op: WordOp, a: u64, b: u64)
    ensures
        forall|j: int| #[trigger] word_bit(word_op_spec(op, a, b), j) == bit_op(op, word_bit(a, j), word_bit(b, j)),
{
    lemma_bit_ops(a, b);
}

/// What the mask bits of a word tell of the word pair.
proof fn lemma_block_word(
    and_blocks: bool,
    op: WordOp,
    d1: Seq<u64>,
    b1: Seq<u64>,
    d2: Seq<u64>,
    b2: Seq<u64>,
    w: int,
)
    requires
        block_exact(d1, b1),
        block_exact(d2, b2),
        d1.len() == d2.len(),
        0 <= w,
        w / 64 < b1.len(),
        and_blocks ==> op is And,
    ensures
        word_bit(block_comb(and_blocks, b1[w / 64], b2[w / 64]), w % 64) ==> w < d1.len(),
        w < d1.len() && !word_bit(block_comb(and_blocks, b1[w / 64], b2[w / 64]), w % 64) ==> {
            &&& word_op_spec(op, d1[w], d2[w]) == 0
            &&& !and_blocks ==> d1[w] == 0 && d2[w] == 0
        },
{
    lemma_bit_ops(b1[w / 64], b2[w / 64]);
    assert(data_bit(b1, w) == word_bit(b1[w / 64], w % 64));
    assert(data_bit(b2, w) == word_bit(b2[w / 64], w % 64));
    if w < d1.len() {
        lemma_word_op_bits(op, d1[w], d2[w]);
        lemma_zero_and_full();
        lemma_zero_iff_no_bits(word_op_spec(op, d1[w], d2[w]));
    }
}

/// Word-by-word combination of clean storages is clean and combines the cells.
proof fn lemma_combined<const W: usize, const H: usize, L: LayoutGeometry<W, H>>(
    op: WordOp,
    d1: Seq<u64>,
    d2: Seq<u64>,
    d3: Seq<u64>,
)
    requires
        d1.len() == d2.len(),
        d3.len() == d1.len(),
        forall|w: int| 0 <= w < d1.len() ==> d3[w] == word_op_spec(op, d1[w], d2[w]),
        clean::<W, H, L>(d1),
        clean::<W, H, L>(d2),
    ensures
        forall|p: int| #[trigger] data_bit(d3, p) == bit_op(op, data_bit(d1, p), data_bit(d2, p)),
        clean::<W, H, L>(d3),
        cells::<W, H, L>(d3) == cell_op(op, cells::<W, H, L>(d1), cells::<W, H, L>(d2)),
{
    assert forall|p: int| #[trigger] data_bit(d3, p) == bit_op(op, data_bit(d1, p), data_bit(d2, p)) by {
        if 0 <= p < d1.len() * 64 {
            lemma_word_op_bits(op, d1[p / 64], d2[p / 64]);
        }
    }
    assert(cells::<W, H, L>(d3) =~= cell_op(op, cells::<W, H, L>(d1), cells::<W, H, L>(d2)));
}

/// Inverts `src` into `dst_data` and builds the mask of the result: bit `j`
/// of `dst_block_mask` is set exactly when word `j` of the result is non-zero.
fn not_into(src: &Vec<u64>, dst_data: &mut Vec<u64>, dst_block_mask: &mut Vec<u64>)
    requires
        old(dst_data).len() == src.len(),
        old(dst_block_mask).len() * 64 >= src.len(),
    ensures
        final(dst_data).len() == src.len(),
        final(dst_block_mask).len() == old(dst_block_mask).len(),
        forall|i: int| 0 <= i < src.len() ==> final(dst_data)@[i] == !src@[i],
        forall|j: int|
            #[trigger] data_bit(final(dst_block_mask)@, j) == (0 <= j < src.len()
                && final(dst_data)@[j] != 0),
{
    fill_zero(dst_block_mask);
    proof {
        lemma_zero_and_full();
        assert forall|p: int| !#[trigger] data_bit(dst_block_mask@, p) by {
            if 0 <= p < dst_block_mask.len() * 64 {
                assert(dst_block_mask@[p / 64] == 0);
            }
        }
    }
    let n = src.len();
    let mut i: usize = 0;
    while i < n
        invariant
            n == src.len(),
            dst_data.len() == n,
            dst_block_mask.len() == old(dst_block_mask).len(),
            dst_block_mask.len() * 64 >= n,
            i <= n,
            forall|j: int| 0 <= j < i ==> dst_data@[j] == !src@[j],
            forall|j: int| #[trigger] data_bit(dst_block_mask@, j) == (0 <= j < i && dst_data@[j] != 0),
        decreases n - i,
    {
        let inverted = !src[i];
        dst_data.set(i, inverted);
        if inverted != 0 {
            set_block_bit(dst_block_mask, i);
        }
        i += 1;
    }
}

/// The complement of clean storage, with padding cleared, holds exactly the
/// in-board cells that were not set.
proof fn lemma_complement_cells<const W: usize, const H: usize, L: LayoutGeometry<W, H>>(
    src: Seq<u64>,
    inv: Seq<u64>,
    fin: Seq<u64>,
)
    requires
        L::dims_ok(),
        src.len() == L::spec_total_words(),
        inv.len() == src.len(),
        fin.len() == src.len(),
        forall|i: int| 0 <= i < src.len() ==> inv[i] == !src[i],
        forall|p: int| valid_pos::<W, H, L>(p) ==> #[trigger] data_bit(fin, p) == data_bit(inv, p),
    ensures
        cells::<W, H, L>(fin) == board_cells::<W, H>().difference(cells::<W, H, L>(src)),
{
    L::lemma_geometry();
    assert forall|c: (int, int)| #[trigger] cells::<W, H, L>(fin).contains(c) == board_cells::<W, H>().difference(
        cells::<W, H, L>(src),
    ).contains(c) by {
        if in_board::<W, H>(c.0, c.1) {
            let p = L::spec_pos(c.0, c.1);
            assert(valid_pos::<W, H, L>(p));
            lemma_bit_ops(src[p / 64], 0);
        }
    }
    assert(cells::<W, H, L>(fin) =~= board_cells::<W, H>().difference(cells::<W, H, L>(src)));
}

impl<const W: usize, const H: usize, L: BitLayout<W, H>> BitBoard<W, H, L> {
    /// A new board combining `self` and `rhs` word by word, visiting only
    /// the words that the masks mark.
    fn sparse_binop(&self, rhs: &Self, op: WordOp) -> (r: Self)
        requires
            self.wf(),
            rhs.wf(),
        ensures
            r.wf(),
            r@ == cell_op(op, self@, rhs@),
    {
        proof {
            self.lemma_unfold();
            rhs.lemma_unfold();
            L::lemma_geometry();
        }
        let ghost d1 = self.data@;
        let ghost d2 = rhs.data@;
        let and_blocks = match op {
            WordOp::And => true,
            _ => false,
        };
        let mut result = Self::new();
        proof {
            result.lemma_unfold();
            crate::grid::lemma_empty_is_zero::<W, H, L>(result.data@, result.block_mask@);
        }
        let total = Self::total_words();
        let bw = Self::block_words();
        let mut i: usize = 0;
        while i < bw
            invariant
                grid_ok::<W, H, L>(d1, self.block_mask@),
                grid_ok::<W, H, L>(d2, rhs.block_mask@),
                d1 == self.data@,
                d2 == rhs.data@,
                and_blocks == (op is And),
                total == L::spec_total_words(),
                bw == block_len(total as int),
                total * 64 + 64 <= usize::MAX,
                result.data.len() == total,
                block_exact(result.data@, result.block_mask@),
                i <= bw,
                forall|w: int|
                    0 <= w < total ==> result.data@[w] == if w < i * 64 {
                        word_op_spec(op, d1[w], d2[w])
                    } else {
                        0
                    },
            decreases bw - i,
        {
            let bits0 = if and_blocks {
                self.block_mask[i] & rhs.block_mask[i]
            } else {
                self.block_mask[i] | rhs.block_mask[i]
            };
            let mut bits = bits0;
            proof {
                lemma_walk_start(bits0);
                lemma_tz(bits0);
                assert forall|w: int| i * 64 <= w < i * 64 + u64_trailing_zeros(bits0) && w < total implies word_op_spec(op, d1[w], d2[w]) == 0 by {
                    lemma_block_word(and_blocks, op, d1, self.block_mask@, d2, rhs.block_mask@, w);
                    assert(w / 64 == i && w % 64 == w - i * 64);
                }
            }
            while bits != 0
                invariant
                    grid_ok::<W, H, L>(d1, self.block_mask@),
                    grid_ok::<W, H, L>(d2, rhs.block_mask@),
                    d1 == self.data@,
                    d2 == rhs.data@,
                    and_blocks == (op is And),
                    total == L::spec_total_words(),
                    bw == block_len(total as int),
                    total * 64 + 64 <= usize::MAX,
                    result.data.len() == total,
                    block_exact(result.data@, result.block_mask@),
                    i < bw,
                    bits0 == block_comb(and_blocks, self.block_mask@[i as int], rhs.block_mask@[i as int]),
                    bits_from_lowest(bits0, bits),
                    forall|w: int|
                        0 <= w < total ==> result.data@[w] == if w < i * 64 + u64_trailing_zeros(bits) {
                            word_op_spec(op, d1[w], d2[w])
                        } else {
                            0
                        },
                decreases 64 - u64_trailing_zeros(bits),
            {
                let bit = bits.trailing_zeros();
                proof {
                    lemma_walk_step(bits0, bits);
                    lemma_block_word(and_blocks, op, d1, self.block_mask@, d2, rhs.block_mask@, i * 64 + bit);
                    assert((i * 64 + bit) / 64 == i && (i * 64 + bit) % 64 == bit);
                }
                let idx = i * 64 + bit as usize;
                let val = word_op(op, self.data[idx], rhs.data[idx]);
                if val != 0 {
                    result.data.set(idx, val);
                    set_block_bit(&mut result.block_mask, idx);
                }
                bits = bits & (bits - 1);
                proof {
                    lemma_tz(bits);
                    assert forall|w: int| i * 64 + bit < w < i * 64 + u64_trailing_zeros(bits) && w < total implies word_op_spec(op, d1[w], d2[w]) == 0 by {
                        lemma_block_word(and_blocks, op, d1, self.block_mask@, d2, rhs.block_mask@, w);
                        assert(w / 64 == i && w % 64 == w - i * 64);
                    }
                }
            }
            proof {
                lemma_tz(bits);
            }
            i += 1;
        }
        proof {
            lemma_combined::<W, H, L>(op, d1, d2, result.data@);
            result.lemma_unfold();
        }
        result
    }

    /// Combines `rhs` into `self` word by word, visiting only the words that
    /// either mask marks.
    fn sparse_assign(&mut self, rhs: &Self, op: WordOp)
        ensures
            old(self).wf() && rhs.wf() ==> final(self).wf() && final(self)@ == cell_op(
                op,
                old(self)@,
                rhs@,
            ),
    {
        proof {
            old(self).lemma_unfold();
            rhs.lemma_unfold();
        }
        if !L::dims_supported() {
            return;
        }
        let total = Self::total_words();
        let bw = Self::block_words();
        if self.data.len() != total || rhs.data.len() != total || self.block_mask.len() != bw
            || rhs.block_mask.len() != bw {
            return;
        }
        proof {
            L::lemma_geometry();
        }
        let ghost good = old(self).wf() && rhs.wf();
        let ghost d0 = self.data@;
        let ghost b0 = self.block_mask@;
        let ghost d2 = rhs.data@;
        let mut i: usize = 0;
        while i < bw
            invariant
                L::dims_ok(),
                total == L::spec_total_words(),
                bw == block_len(total as int),
                total * 64 + 64 <= usize::MAX,
                self.data.len() == total,
                self.block_mask.len() == bw,
                rhs.data.len() == total,
                rhs.block_mask.len() == bw,
                d2 == rhs.data@,
                d0.len() == total,
                b0.len() == bw,
                good == (grid_ok::<W, H, L>(d0, b0) && grid_ok::<W, H, L>(d2, rhs.block_mask@)),
                i <= bw,
                forall|w: int| i * 64 <= w < total ==> self.data@[w] == d0[w],
                forall|k: int| k >= i * 64 ==> #[trigger] data_bit(self.block_mask@, k) == data_bit(b0, k),
                good ==> forall|w: int| 0 <= w < i * 64 && w < total ==> self.data@[w] == word_op_spec(op, d0[w], d2[w]),
                good ==> forall|k: int| k < i * 64 ==> #[trigger] data_bit(self.block_mask@, k) == (0 <= k < total && self.data@[k] != 0),
            decreases bw - i,
        {
            proof {
                assert forall|j: int| 0 <= j < 64 implies #[trigger] word_bit(self.block_mask@[i as int], j) == word_bit(b0[i as int], j) by {
                    assert(data_bit(self.block_mask@, i * 64 + j) == data_bit(b0, i * 64 + j));
                    assert((i * 64 + j) / 64 == i && (i * 64 + j) % 64 == j);
                }
                lemma_bits_eq(self.block_mask@[i as int], b0[i as int]);
            }
            let bits0 = self.block_mask[i] | rhs.block_mask[i];
            let ghost blk_start = self.block_mask@;
            self.block_mask.set(i, 0);
            let mut bits = bits0;
            proof {
                lemma_zero_and_full();
                lemma_walk_start(bits0);
                lemma_tz(bits0);
                assert forall|k: int| k >= i * 64 + 64 implies #[trigger] data_bit(self.block_mask@, k) == data_bit(b0, k) by {
                    assert(data_bit(blk_start, k) == data_bit(b0, k));
                    assert(k / 64 != i);
                }
                assert forall|k: int| i * 64 <= k < i * 64 + 64 implies !#[trigger] data_bit(self.block_mask@, k) by {
                    assert(k / 64 == i);
                }
                if good {
                    assert forall|w: int| i * 64 <= w < i * 64 + u64_trailing_zeros(bits0) && w < total implies d0[w] == 0 && d2[w] == 0
                        && word_op_spec(op, d0[w], d2[w]) == 0 by {
                        lemma_block_word(false, op, d0, b0, d2, rhs.block_mask@, w);
                        assert(w / 64 == i && w % 64 == w - i * 64);
                    }
                    assert forall|k: int| k < i * 64 + u64_trailing_zeros(bits0) implies #[trigger] data_bit(self.block_mask@, k) == (0 <= k < total && self.data@[k] != 0) by {
                        if k < i * 64 {
                            assert(data_bit(blk_start, k) == (0 <= k < total && self.data@[k] != 0));
                            assert(k / 64 != i);
                        } else {
                            assert(k / 64 == i);
                            if k < total {
                                assert(self.data@[k] == d0[k]);
                                assert(d0[k] == 0 && d2[k] == 0 && word_op_spec(op, d0[k], d2[k]) == 0);
                            }
                        }
                    }
                }
            }
            while bits != 0
                invariant
                    L::dims_ok(),
                    total == L::spec_total_words(),
                    bw == block_len(total as int),
                    total * 64 + 64 <= usize::MAX,
                    self.data.len() == total,
                    self.block_mask.len() == bw,
                    rhs.data.len() == total,
                    rhs.block_mask.len() == bw,
                    d2 == rhs.data@,
                    d0.len() == total,
                    b0.len() == bw,
                    good == (grid_ok::<W, H, L>(d0, b0) && grid_ok::<W, H, L>(d2, rhs.block_mask@)),
                    i < bw,
                    bits0 == block_comb(false, b0[i as int], rhs.block_mask@[i as int]),
                    bits_from_lowest(bits0, bits),
                    forall|w: int| i * 64 + u64_trailing_zeros(bits) <= w < total ==> self.data@[w] == d0[w],
                    forall|k: int| k >= i * 64 + 64 ==> #[trigger] data_bit(self.block_mask@, k) == data_bit(b0, k),
                    forall|k: int| i * 64 + u64_trailing_zeros(bits) <= k < i * 64 + 64 ==> !#[trigger] data_bit(self.block_mask@, k),
                    good ==> forall|w: int| 0 <= w < i * 64 + u64_trailing_zeros(bits) && w < total ==> self.data@[w] == word_op_spec(op, d0[w], d2[w]),
                    good ==> forall|k: int| k < i * 64 + u64_trailing_zeros(bits) ==> #[trigger] data_bit(self.block_mask@, k) == (0 <= k < total && self.data@[k] != 0),
                decreases 64 - u64_trailing_zeros(bits),
            {
                let bit = bits.trailing_zeros();
                proof {
                    lemma_walk_step(bits0, bits);
                    if good {
                        lemma_block_word(false, op, d0, b0, d2, rhs.block_mask@, i * 64 + bit);
                    }
                    assert((i * 64 + bit) / 64 == i && (i * 64 + bit) % 64 == bit);
                }
                let idx = i * 64 + bit as usize;
                let ghost blk_before = self.block_mask@;
                let ghost data_before = self.data@;
                if idx < total {
                    let v = word_op(op, self.data[idx], rhs.data[idx]);
                    self.data.set(idx, v);
                    if v != 0 {
                        set_block_bit(&mut self.block_mask, idx);
                    }
                }
                bits = bits & (bits - 1);
                proof {
                    lemma_tz(bits);
                    if good {
                        assert forall|w: int| i * 64 + bit < w < i * 64 + u64_trailing_zeros(bits) && w < total implies d0[w] == 0 && d2[w] == 0
                            && word_op_spec(op, d0[w], d2[w]) == 0 by {
                            lemma_block_word(false, op, d0, b0, d2, rhs.block_mask@, w);
                            assert(w / 64 == i && w % 64 == w - i * 64);
                        }
                        assert forall|k: int| k < i * 64 + u64_trailing_zeros(bits) implies #[trigger] data_bit(self.block_mask@, k) == (0 <= k < total && self.data@[k] != 0) by {
                            if k < idx {
                                assert(data_bit(blk_before, k) == (0 <= k < total && data_before[k] != 0));
                            } else if k > idx {
                                assert(!data_bit(blk_before, k));
                                if k < total {
                                    assert(data_before[k] == d0[k]);
                                    assert(d0[k] == 0 && d2[k] == 0 && word_op_spec(op, d0[k], d2[k]) == 0);
                                }
                            }
                        }
                    }
                }
            }
            proof {
                lemma_tz(bits);
            }
            i += 1;
        }
        proof {
            if good {
                lemma_combined::<W, H, L>(op, d0, d2, self.data@);
                assert(block_exact(self.data@, self.block_mask@));
                self.lemma_unfold();
            }
        }
    }

    /// Complements the words of `self` in place and rebuilds the mask.
    fn invert_in_place(&mut self)
        requires
            old(self).wf(),
        ensures
            final(self).wf(),
            final(self)@ == board_cells::<W, H>().difference(old(self)@),
    {
        proof {
            old(self).lemma_unfold();
            L::lemma_geometry();
        }
        let ghost src = self.data@;
        let total = Self::total_words();
        fill_zero(&mut self.block_mask);
        proof {
            lemma_zero_and_full();
            assert forall|p: int| !#[trigger] data_bit(self.block_mask@, p) by {
                if 0 <= p < self.block_mask.len() * 64 {
                    assert(self.block_mask@[p / 64] == 0);
                }
            }
        }
        let mut i: usize = 0;
        while i < total
            invariant
                total == src.len(),
                self.data.len() == total,
                self.block_mask.len() == block_len(total as int),
                i <= total,
                forall|j: int| 0 <= j < i ==> self.data@[j] == !src[j],
                forall|j: int| i <= j < total ==> self.data@[j] == src[j],
                forall|j: int| #[trigger] data_bit(self.block_mask@, j) == (0 <= j < i && self.data@[j] != 0),
            decreases total - i,
        {
            let v = !self.data[i];
            self.data.set(i, v);
            if v != 0 {
                set_block_bit(&mut self.block_mask, i);
            }
            i += 1;
        }
        let ghost inv = self.data@;
        self.settle_after_shift();
        proof {
            lemma_complement_cells::<W, H, L>(src, inv, self.data@);
            self.lemma_unfold();
        }
    }
}

// AND: Skips via block mask as result is likely to be sparse
impl<const W: usize, const H: usize, L: BitLayout<W, H>> BitAnd for &BitBoard<W, H, L> {
    type Output = BitBoard<W, H, L>;

    fn bitand(self, rhs: Self) -> (r: BitBoard<W, H, L>)
        ensures
            r.wf(),
            r@ == self@.intersect(rhs@),
    {
        self.sparse_binop(rhs, WordOp::And)
    }
}

impl<const W: usize, const H: usize, L: BitLayout<W, H>> BitAndSpecImpl for &BitBoard<W, H, L> {
    open spec fn obeys_bitand_spec() -> bool {
        false
    }

    open spec fn bitand_req(self, rhs: Self) -> bool {
        self.wf() && rhs.wf()
    }

    open spec fn bitand_spec(self, rhs: Self) -> BitBoard<W, H, L> {
        vstd::pervasive::arbitrary()
    }
}

impl<const W: usize, const H: usize, L: BitLayout<W, H>> BitAndAssign<&BitBoard<W, H, L>> for BitBoard<
    W,
    H,
    L,
> {
    fn bitand_assign(&mut self, rhs: &BitBoard<W, H, L>)
        ensures
            old(self).wf() && rhs.wf() ==> final(self).wf() && final(self)@ == old(self)@.intersect(
                rhs@,
            ),
    {
        self.sparse_assign(rhs, WordOp::And);
    }
}

// XOR: Intermediate nature, but can skip common parts
impl<const W: usize, const H: usize, L: BitLayout<W, H>> BitXor for &BitBoard<W, H, L> {
    type Output = BitBoard<W, H, L>;

    fn bitxor(self, rhs: Self) -> (r: BitBoard<W, H, L>)
        ensures
            r.wf(),
            r@ == self@.difference(rhs@).union(rhs@.difference(self@)),
    {
        self.sparse_binop(rhs, WordOp::Xor)
    }
}

impl<const W: usize, const H: usize, L: BitLayout<W, H>> BitXorSpecImpl for &BitBoard<W, H, L> {
    open spec fn obeys_bitxor_spec() -> bool {
        false
    }

    open spec fn bitxor_req(self, rhs: Self) -> bool {
        self.wf() && rhs.wf()
    }

    open spec fn bitxor_spec(self, rhs: Self) -> BitBoard<W, H, L> {
        vstd::pervasive::arbitrary()
    }
}

impl<const W: usize, const H: usize, L: BitLayout<W, H>> BitXorAssign<&BitBoard<W, H, L>> for BitBoard<
    W,
    H,
    L,
> {
    fn bitxor_assign(&mut self, rhs: &BitBoard<W, H, L>)
        ensures
            old(self).wf() && rhs.wf() ==> final(self).wf() && final(self)@ == old(self)@.difference(
                rhs@,
            ).union(rhs@.difference(old(self)@)),
    {
        self.sparse_assign(rhs, WordOp::Xor);
    }
}

// OR: Result likely to be dense, but block skip is effective if inputs are sparse
impl<const W: usize, const H: usize, L: BitLayout<W, H>> BitOr for &BitBoard<W, H, L> {
    type Output = BitBoard<W, H, L>;

    fn bitor(self, rhs: Self) -> (r: BitBoard<W, H, L>)
        ensures
            r.wf(),
            r@ == self@.union(rhs@),
    {
        self.sparse_binop(rhs, WordOp::Or)
    }
}

impl<const W: usize, const H: usize, L: BitLayout<W, H>> BitOrSpecImpl for &BitBoard<W, H, L> {
    open spec fn obeys_bitor_spec() -> bool {
        false
    }

    open spec fn bitor_req(self, rhs: Self) -> bool {
        self.wf() && rhs.wf()
    }

    open spec fn bitor_spec(self, rhs: Self) -> BitBoard<W, H, L> {
        vstd::pervasive::arbitrary()
    }
}

impl<const W: usize, const H: usize, L: BitLayout<W, H>> BitOrAssign<&BitBoard<W, H, L>> for BitBoard<
    W,
    H,
    L,
> {
    fn bitor_assign(&mut self, rhs: &BitBoard<W, H, L>)
        ensures
            old(self).wf() && rhs.wf() ==> final(self).wf() && final(self)@ == old(self)@.union(rhs@),
    {
        self.sparse_assign(rhs, WordOp::Or);
    }
}

// NOT
// Performs inversion and block_mask construction in a single pass.
impl<const W: usize, const H: usize, L: BitLayout<W, H>> Not for &BitBoard<W, H, L> {
    type Output = BitBoard<W, H, L>;

    fn not(self) -> (r: BitBoard<W, H, L>)
        ensures
            r.wf(),
            r@ == board_cells::<W, H>().difference(self@),
    {
        proof {
            self.lemma_unfold();
            L::lemma_geometry();
        }
        let mut result = BitBoard::<W, H, L>::new();
        proof {
            result.lemma_unfold();
        }
        not_into(&self.data, &mut result.data, &mut result.block_mask);
        let ghost inv = result.data@;
        result.settle_after_shift();
        proof {
            lemma_complement_cells::<W, H, L>(self.data@, inv, result.data@);
            result.lemma_unfold();
        }
        result
    }
}

impl<const W: usize, const H: usize, L: BitLayout<W, H>> NotSpecImpl for &BitBoard<W, H, L> {
    open spec fn obeys_not_spec() -> bool {
        false
    }

    open spec fn not_req(self) -> bool {
        self.wf()
    }

    open spec fn not_spec(self) -> BitBoard<W, H, L> {
        vstd::pervasive::arbitrary()
    }
}

impl<const W: usize, const H: usize, L: BitLayout<W, H>> Not for BitBoard<W, H, L> {
    type Output = BitBoard<W, H, L>;

    fn not(self) -> (r: BitBoard<W, H, L>)
        ensures
            r.wf(),
            r@ == board_cells::<W, H>().difference(self@),
    {
        let mut res = self;
        res.invert_in_place();
        res
    }
}

impl<const W: usize, const H: usize, L: BitLayout<W, H>> NotSpecImpl for BitBoard<W, H, L> {
    open spec fn obeys_not_spec() -> bool {
        false
    }

    open spec fn not_req(self) -> bool {
        self.wf()
    }

    open spec fn not_spec(self) -> BitBoard<W, H, L> {
        vstd::pervasive::arbitrary()
    }
}

// --- Ownership-based Operators ---

impl<const W: usize, const H: usize, L: BitLayout<W, H>> BitAnd for BitBoard<W, H, L> {
    type Output = Self;

    fn bitand(self, rhs: Self) -> (r: Self)
        ensures
            r.wf(),
            r@ == self@.intersect(rhs@),
    {
        let mut res = self;
        res.sparse_assign(&rhs, WordOp::And);
        res
    }
}

impl<const W: usize, const H: usize, L: BitLayout<W, H>> BitAndSpecImpl for BitBoard<W, H, L> {
    open spec fn obeys_bitand_spec() -> bool {
        false
    }

    open spec fn bitand_req(self, rhs: Self) -> bool {
        self.wf() && rhs.wf()
    }

    open spec fn bitand_spec(self, rhs: Self) -> Self {
        vstd::pervasive::arbitrary()
    }
}

impl<const W: usize, const H: usize, L: BitLayout<W, H>> BitOr for BitBoard<W, H, L> {
    type Output = Self;

    fn bitor(self, rhs: Self) -> (r: Self)
        ensures
            r.wf(),
            r@ == self@.union(rhs@),
    {
        let mut res = self;
        res.sparse_assign(&rhs, WordOp::Or);
        res
    }
}

impl<const W: usize, const H: usize, L: BitLayout<W, H>> BitOrSpecImpl for BitBoard<W, H, L> {
    open spec fn obeys_bitor_spec() -> bool {
        false
    }

    open spec fn bitor_req(self, rhs: Self) -> bool {
        self.wf() && rhs.wf()
    }

    open spec fn bitor_spec(self, rhs: Self) -> Self {
        vstd::pervasive::arbitrary()
    }
}

impl<const W: usize, const H: usize, L: BitLayout<W, H>> BitXor for BitBoard<W, H, L> {
    type Output = Self;

    fn bitxor(self, rhs: Self) -> (r: Self)
        ensures
            r.wf(),
            r@ == self@.difference(rhs@).union(rhs@.difference(self@)),
    {
        let mut res = self;
        res.sparse_assign(&rhs, WordOp::Xor);
        res
    }
}

impl<const W: usize, const H: usize, L: BitLayout<W, H>> BitXorSpecImpl for BitBoard<W, H, L> {
    open spec fn obeys_bitxor_spec() -> bool {
        false
    }

    open spec fn bitxor_req(self, rhs: Self) -> bool {
        self.wf() && rhs.wf()
    }

    open spec fn bitxor_spec(self, rhs: Self) -> Self {
        vstd::pervasive::arbitrary()
    }
}

} // verus!
