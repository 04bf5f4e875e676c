//! Storage-level model of a board: flat bits in a vector of words, the
//! mask of non-empty words, the set of cells, and the word operations that
//! keep the mask exact.
use vstd::prelude::*;
use vstd::std_specs::bits::u64_trailing_zeros;
use crate::bits::{bits_from_lowest, word_bit, ones_below, popcount, lemma_bit_ops, lemma_zero_and_full, lemma_single_bit, lemma_zero_iff_no_bits, lemma_bits_eq};
use crate::layout::LayoutGeometry;

verus! {

/// `(x, y)` lies on a `W x H` board.
pub open spec fn in_board<const W: usize, const H: usize>(x: int, y: int) -> bool {
    0 <= x < W && 0 <= y < H
}

/// Flat bit `p` (bit `p % 64` of word `p / 64`) of a word sequence.
pub open spec fn data_bit(d: Seq<u64>, p: int) -> bool {
    0 <= p < d.len() * 64 && word_bit(d[p / 64], p % 64)
}

/// Number of mask words that cover `n` data words.
pub open spec fn block_len(n: int) -> int {
    (n + 63) / 64
}

/// Every word is zero.
pub open spec fn all_zero(d: Seq<u64>) -> bool {
    forall|i: int| 0 <= i < d.len() ==> d[i] == 0
}

/// The flat position `p` stands for an in-board cell.
pub open spec fn valid_pos<const W: usize, const H: usize, L: LayoutGeometry<W, H>>(p: int) -> bool {
    let c = L::spec_coord(p);
    &&& 0 <= p < L::spec_total_words() * 64
    &&& in_board::<W, H>(c.0, c.1)
    &&& L::spec_pos(c.0, c.1) == p
}

/// No stored bit stands outside the board.
pub open spec fn clean<const W: usize, const H: usize, L: LayoutGeometry<W, H>>(d: Seq<u64>) -> bool {
    forall|p: int| #[trigger] data_bit(d, p) ==> valid_pos::<W, H, L>(p)
}

/// Bit `i` of the mask is set exactly when data word `i` is non-zero.
pub open spec fn block_exact(d: Seq<u64>, b: Seq<u64>) -> bool {
    &&& b.len() == block_len(d.len() as int)
    &&& forall|i: int| #[trigger] data_bit(b, i) == (0 <= i < d.len() && d[i] != 0)
}

/// A well-formed storage of a board.
pub open spec fn grid_ok<const W: usize, const H: usize, L: LayoutGeometry<W, H>>(
    d: Seq<u64>,
    b: Seq<u64>,
) -> bool {
    &&& L::dims_ok()
    &&& d.len() == L::spec_total_words()
    &&& clean::<W, H, L>(d)
    &&& block_exact(d, b)
}

/// The set cells of a board stored in `d`.
pub open spec fn cells<const W: usize, const H: usize, L: LayoutGeometry<W, H>>(d: Seq<u64>) -> Set<
    (int, int),
> {
    Set::new(|c: (int, int)| in_board::<W, H>(c.0, c.1) && data_bit(d, L::spec_pos(c.0, c.1)))
}

/// All cells of the board.
pub open spec fn board_cells<const W: usize, const H: usize>() -> Set<(int, int)> {
    Set::new(|c: (int, int)| in_board::<W, H>(c.0, c.1))
}

/// The in-board cells of row `y` from `lo` to `hi`, both included.
pub open spec fn row_segment<const W: usize, const H: usize>(y: int, lo: int, hi: int) -> Set<
    (int, int),
> {
    Set::new(|c: (int, int)| in_board::<W, H>(c.0, c.1) && c.1 == y && lo <= c.0 <= hi)
}

/// The in-board cells of the rectangle with corner `(x, y)` and the given size.
pub open spec fn rect_cells<const W: usize, const H: usize>(x: int, y: int, w: int, h: int) -> Set<
    (int, int),
> {
    Set::new(
        |c: (int, int)| in_board::<W, H>(c.0, c.1) && x <= c.0 < x + w && y <= c.1 < y + h,
    )
}

/// `s` moved by `d` along x, keeping what lands on the board.
pub open spec fn shifted_cells_h<const W: usize, const H: usize>(s: Set<(int, int)>, d: int) -> Set<
    (int, int),
> {
    Set::new(|c: (int, int)| in_board::<W, H>(c.0, c.1) && s.contains((c.0 - d, c.1)))
}

/// `s` moved by `d` along y, keeping what lands on the board.
pub open spec fn shifted_cells_v<const W: usize, const H: usize>(s: Set<(int, int)>, d: int) -> Set<
    (int, int),
> {
    Set::new(|c: (int, int)| in_board::<W, H>(c.0, c.1) && s.contains((c.0, c.1 - d)))
}

/// Number of set flat bits below position `n`.
pub open spec fn count_bits(d: Seq<u64>, n: int) -> nat
    decreases n,
{
    if n <= 0 {
        0
    } else {
        count_bits(d, n - 1) + if data_bit(d, n - 1) { 1nat } else { 0nat }
    }
}

/// Set flat positions below `n`.
pub open spec fn set_positions(d: Seq<u64>, n: int) -> Set<int> {
    Set::new(|p: int| 0 <= p < n && data_bit(d, p))
}

/// Words with the same flat bits are the same words.
pub proof fn lemma_same_bits_same_words(a: Seq<u64>, b: Seq<u64>)
    requires
        a.len() == b.len(),
        forall|p: int| #[trigger] data_bit(a, p) == data_bit(b, p),
    ensures
        a == b,
{
    assert forall|i: int| 0 <= i < a.len() implies a[i] == b[i] by {
        assert forall|j: int| 0 <= j < 64 implies #[trigger] word_bit(a[i], j) == word_bit(
            b[i],
            j,
        ) by {
            assert(data_bit(a, i * 64 + j) == data_bit(b, i * 64 + j));
            assert((i * 64 + j) / 64 == i);
            assert((i * 64 + j) % 64 == j);
        }
        lemma_bits_eq(a[i], b[i]);
    }
    assert(a =~= b);
}

/// A word is non-zero exactly when one of its flat bits is set.
pub proof fn lemma_word_nonzero(d: Seq<u64>, w: int)
    requires
        0 <= w < d.len(),
    ensures
        (d[w] != 0) == (exists|j: int| 0 <= j < 64 && #[trigger] data_bit(d, w * 64 + j)),
{
    lemma_zero_iff_no_bits(d[w]);
    if d[w] != 0 {
        let j = choose|j: int| #[trigger] word_bit(d[w], j);
        assert((w * 64 + j) / 64 == w);
        assert((w * 64 + j) % 64 == j);
        assert(data_bit(d, w * 64 + j));
    } else {
        assert forall|j: int| 0 <= j < 64 implies !#[trigger] data_bit(d, w * 64 + j) by {
            assert((w * 64 + j) / 64 == w);
            assert((w * 64 + j) % 64 == j);
        }
    }
}

/// The zero storage of a board is clean, has an exact (zero) mask and no cells.
pub proof fn lemma_zero_grid<const W: usize, const H: usize, L: LayoutGeometry<W, H>>(
    d: Seq<u64>,
    b: Seq<u64>,
)
    requires
        all_zero(d),
        all_zero(b),
        b.len() == block_len(d.len() as int),
    ensures
        forall|p: int| !#[trigger] data_bit(d, p),
        clean::<W, H, L>(d),
        block_exact(d, b),
        cells::<W, H, L>(d) == Set::<(int, int)>::empty(),
{
    lemma_zero_and_full();
    assert forall|p: int| !#[trigger] data_bit(d, p) by {
        if 0 <= p < d.len() * 64 {
            assert(d[p / 64] == 0);
        }
    }
    assert forall|p: int| !#[trigger] data_bit(b, p) by {
        if 0 <= p < b.len() * 64 {
            assert(b[p / 64] == 0);
        }
    }
    assert(cells::<W, H, L>(d) =~= Set::<(int, int)>::empty());
}

/// Sets bit `w` of the mask.
pub fn set_block_bit(block: &mut Vec<u64>, w: usize)
    requires
        w / 64 < old(block).len(),
    ensures
        final(block).len() == old(block).len(),
        forall|i: int| #[trigger] data_bit(final(block)@, i) == (data_bit(old(block)@, i) || i == w),
{
    let bw = w / 64;
    let k = (w % 64) as u64;
    let v = block[bw] | (1u64 << k);
    proof {
        lemma_single_bit(k);
        lemma_bit_ops(block@[bw as int], 1u64 << k);
    }
    block.set(bw, v);
    proof {
        assert forall|i: int| #[trigger] data_bit(block@, i) == (data_bit(old(block)@, i) || i
            == w) by {
            if 0 <= i < block.len() * 64 && i / 64 == bw {
                assert(word_bit(v, i % 64) == (word_bit(old(block)@[bw as int], i % 64) || i % 64
                    == k));
            }
        }
    }
}

/// Clears bit `w` of the mask.
pub fn clear_block_bit(block: &mut Vec<u64>, w: usize)
    requires
        w / 64 < old(block).len(),
    ensures
        final(block).len() == old(block).len(),
        forall|i: int| #[trigger] data_bit(final(block)@, i) == (data_bit(old(block)@, i) && i != w),
{
    let bw = w / 64;
    let k = (w % 64) as u64;
    let v = block[bw] & !(1u64 << k);
    proof {
        lemma_single_bit(k);
        lemma_bit_ops(block@[bw as int], 1u64 << k);
    }
    block.set(bw, v);
    proof {
        assert forall|i: int| #[trigger] data_bit(block@, i) == (data_bit(old(block)@, i) && i
            != w) by {
            if 0 <= i < block.len() * 64 && i / 64 == bw {
                assert(word_bit(v, i % 64) == (word_bit(old(block)@[bw as int], i % 64) && i % 64
                    != k));
            }
        }
    }
}

/// Writes zero into every word.
pub fn fill_zero(v: &mut Vec<u64>)
    ensures
        final(v).len() == old(v).len(),
        all_zero(final(v)@),
{
    let n = v.len();
    let mut i: usize = 0;
    while i < n
        invariant
            v.len() == n,
            i <= n,
            forall|j: int| 0 <= j < i ==> v@[j] == 0,
        decreases n - i,
    {
        v.set(i, 0);
        i += 1;
    }
}

/// Creates a vector of `n` zero words.
pub fn zero_words(n: usize) -> (v: Vec<u64>)
    ensures
        v.len() == n,
        all_zero(v@),
{
    let mut v: Vec<u64> = Vec::new();
    let mut i: usize = 0;
    while i < n
        invariant
            v.len() == i,
            i <= n,
            all_zero(v@),
        decreases n - i,
    {
        v.push(0);
        i += 1;
    }
    v
}

/// Recomputes the mask from the data words.
pub fn rebuild_block(data: &Vec<u64>, block: &mut Vec<u64>)
    requires
        old(block).len() == block_len(data.len() as int),
    ensures
        block_exact(data@, final(block)@),
{
    fill_zero(block);
    proof {
        lemma_zero_and_full();
        assert forall|p: int| !#[trigger] data_bit(block@, p) by {
            if 0 <= p < block.len() * 64 {
                assert(block@[p / 64] == 0);
            }
        }
    }
    let n = data.len();
    let mut i: usize = 0;
    while i < n
        invariant
            n == data.len(),
            i <= n,
            block.len() == block_len(n as int),
            forall|j: int| #[trigger] data_bit(block@, j) == (0 <= j < i && data@[j] != 0),
        decreases n - i,
    {
        if data[i] != 0 {
            set_block_bit(block, i);
        }
        i += 1;
    }
}

/// Recomputes mask bit `w` from data word `w`.
pub fn recalc_block_word(data: &Vec<u64>, block: &mut Vec<u64>, w: usize)
    requires
        w < data.len(),
        old(block).len() == block_len(data.len() as int),
    ensures
        final(block).len() == old(block).len(),
        forall|i: int|
            #[trigger] data_bit(final(block)@, i) == if i == w {
                data@[w as int] != 0
            } else {
                data_bit(old(block)@, i)
            },
{
    if data[w] == 0 {
        clear_block_bit(block, w);
    } else {
        set_block_bit(block, w);
    }
}

/// Sets (`value`) or clears the bits of `mask` in word `w`, keeping the mask exact.
pub fn apply_word_mask(data: &mut Vec<u64>, block: &mut Vec<u64>, w: usize, mask: u64, value: bool)
    requires
        w < old(data).len(),
        block_exact(old(data)@, old(block)@),
        value ==> mask != 0,
    ensures
        final(data).len() == old(data).len(),
        block_exact(final(data)@, final(block)@),
        final(data)@ == old(data)@.update(
            w as int,
            if value {
                old(data)@[w as int] | mask
            } else {
                old(data)@[w as int] & !mask
            },
        ),
        forall|p: int|
            #[trigger] data_bit(final(data)@, p) == if p / 64 == w {
                if value {
                    data_bit(old(data)@, p) || word_bit(mask, p % 64)
                } else {
                    data_bit(old(data)@, p) && !word_bit(mask, p % 64)
                }
            } else {
                data_bit(old(data)@, p)
            },
{
    let old_word = data[w];
    proof {
        lemma_bit_ops(old_word, mask);
        lemma_zero_iff_no_bits(mask);
        lemma_zero_iff_no_bits(old_word | mask);
    }
    if value {
        data.set(w, old_word | mask);
        set_block_bit(block, w);
    } else {
        data.set(w, old_word & !mask);
        recalc_block_word(data, block, w);
    }
    proof {
        assert forall|p: int|
            #[trigger] data_bit(data@, p) == if p / 64 == w {
                if value {
                    data_bit(old(data)@, p) || word_bit(mask, p % 64)
                } else {
                    data_bit(old(data)@, p) && !word_bit(mask, p % 64)
                }
            } else {
                data_bit(old(data)@, p)
            } by {}
        assert forall|i: int| #[trigger] data_bit(block@, i) == (0 <= i < data.len() && data@[i]
            != 0) by {
            if i == w && value {
                let j = choose|j: int| #[trigger] word_bit(mask, j);
                assert(word_bit(old_word | mask, j));
            }
        }
    }
}

/// `count_bits` through a whole word adds the word's population count.
pub proof fn lemma_count_word(d: Seq<u64>, k: int)
    requires
        0 <= k < d.len(),
    ensures
        count_bits(d, k * 64 + 64) == count_bits(d, k * 64) + popcount(d[k]),
{
    assert forall|j: int| 0 <= j <= 64 implies #[trigger] count_bits(d, k * 64 + j) == count_bits(
        d,
        k * 64,
    ) + ones_below(d[k], j) by {
        lemma_count_word_prefix(d, k, j);
    }
    assert(count_bits(d, k * 64 + 64) == count_bits(d, k * 64) + ones_below(d[k], 64));
}

proof fn lemma_count_word_prefix(d: Seq<u64>, k: int, j: int)
    requires
        0 <= k < d.len(),
        0 <= j <= 64,
    ensures
        count_bits(d, k * 64 + j) == count_bits(d, k * 64) + ones_below(d[k], j),
    decreases j,
{
    if j > 0 {
        lemma_count_word_prefix(d, k, j - 1);
        assert((k * 64 + j - 1) / 64 == k);
        assert((k * 64 + j - 1) % 64 == j - 1);
    }
}

/// `count_bits` does not grow over zero words.
pub proof fn lemma_count_zero_words(d: Seq<u64>, a: int, b: int)
    requires
        0 <= a <= b <= d.len(),
        forall|i: int| a <= i < b ==> d[i] == 0,
    ensures
        count_bits(d, b * 64) == count_bits(d, a * 64),
    decreases b - a,
{
    if a < b {
        lemma_count_zero_words(d, a, b - 1);
        lemma_count_word(d, b - 1);
        lemma_zero_and_full();
        assert(popcount(d[b - 1]) == 0) by {
            lemma_ones_below_zero(d[b - 1], 64);
        }
    }
}

proof fn lemma_ones_below_zero(w: u64, n: int)
    requires
        w == 0,
    ensures
        ones_below(w, n) == 0,
    decreases n,
{
    lemma_zero_and_full();
    if n > 0 {
        lemma_ones_below_zero(w, n - 1);
    }
}

/// `count_bits` counts the set positions.
pub proof fn lemma_count_is_len(d: Seq<u64>, n: int)
    requires
        0 <= n,
    ensures
        set_positions(d, n).finite(),
        set_positions(d, n).len() == count_bits(d, n),
    decreases n,
{
    if n == 0 {
        assert(set_positions(d, n) =~= Set::<int>::empty());
    } else {
        lemma_count_is_len(d, n - 1);
        if data_bit(d, n - 1) {
            assert(set_positions(d, n) =~= set_positions(d, n - 1).insert(n - 1));
        } else {
            assert(set_positions(d, n) =~= set_positions(d, n - 1));
        }
    }
}

/// The cells of clean storage are as many as its set bits.
pub proof fn lemma_cells_len<const W: usize, const H: usize, L: LayoutGeometry<W, H>>(d: Seq<u64>)
    requires
        L::dims_ok(),
        d.len() == L::spec_total_words(),
        clean::<W, H, L>(d),
    ensures
        cells::<W, H, L>(d).finite(),
        cells::<W, H, L>(d).len() == count_bits(d, (d.len() * 64) as int),
{
    L::lemma_geometry();
    let n = (d.len() * 64) as int;
    let ps = set_positions(d, n);
    lemma_count_is_len(d, n);
    let f = |p: int| L::spec_coord(p);
    assert forall|p: int, q: int| ps.contains(p) && ps.contains(q) && #[trigger] f(p) == #[trigger] f(
        q,
    ) implies p == q by {
        assert(valid_pos::<W, H, L>(p));
        assert(valid_pos::<W, H, L>(q));
    }
    assert(vstd::relations::injective_on(f, ps));
    assert forall|c: (int, int)| #[trigger] cells::<W, H, L>(d).contains(c) implies ps.map(f).contains(
        c,
    ) by {
        let p = L::spec_pos(c.0, c.1);
        assert(ps.contains(p));
        assert(f(p) == c);
    }
    assert forall|c: (int, int)| ps.map(f).contains(c) implies #[trigger] cells::<W, H, L>(
        d,
    ).contains(c) by {
        let p = choose|p: int| ps.contains(p) && f(p) == c;
        assert(valid_pos::<W, H, L>(p));
    }
    assert(ps.map(f) =~= cells::<W, H, L>(d));
    vstd::set_lib::lemma_map_size(ps, cells::<W, H, L>(d), f);
}

/// Storage with no cells holds only zero words.
pub proof fn lemma_empty_is_zero<const W: usize, const H: usize, L: LayoutGeometry<W, H>>(
    d: Seq<u64>,
    b: Seq<u64>,
)
    requires
        grid_ok::<W, H, L>(d, b),
        cells::<W, H, L>(d) == Set::<(int, int)>::empty(),
    ensures
        all_zero(d),
        all_zero(b),
{
    assert forall|p: int| !#[trigger] data_bit(d, p) by {
        if data_bit(d, p) {
            let c = L::spec_coord(p);
            assert(cells::<W, H, L>(d).contains(c));
        }
    }
    assert forall|i: int| 0 <= i < d.len() implies d[i] == 0 by {
        lemma_word_nonzero(d, i);
    }
    assert forall|i: int| 0 <= i < b.len() implies b[i] == 0 by {
        lemma_word_nonzero(b, i);
        if b[i] != 0 {
            let j = choose|j: int| 0 <= j < 64 && #[trigger] data_bit(b, i * 64 + j);
            assert(0 <= i * 64 + j < d.len());
        }
    }
}

/// Bits of word `w` below `n` are absent when the word has no set bit there.
pub proof fn lemma_low_bits_absent(src: Seq<u64>, w: int, n: int)
    requires
        0 <= w < src.len(),
        0 <= n <= 64,
        forall|j: int| 0 <= j < n ==> !#[trigger] word_bit(src[w], j),
    ensures
        forall|q: int| w * 64 <= q < w * 64 + n ==> !#[trigger] data_bit(src, q),
{
    assert forall|q: int| w * 64 <= q < w * 64 + n implies !#[trigger] data_bit(src, q) by {
        assert(q / 64 == w);
        assert(q % 64 == q - w * 64);
    }
}

/// Words of block word `bi` whose mask bits are clear between `from` and
/// the next set bit hold no set bits.
pub proof fn lemma_words_skipped(src: Seq<u64>, block: Seq<u64>, bi: int, bv: u64, from: int)
    requires
        block_exact(src, block),
        0 <= bi < block.len(),
        block[bi] == bv,
        0 <= from <= 64,
    ensures
        forall|r: u64|
            bits_from_lowest(bv, r) && u64_trailing_zeros(r) >= from && (forall|j: int|
                from <= j < u64_trailing_zeros(r) ==> !#[trigger] word_bit(bv, j)) ==> forall|q: int|
                (bi * 64 + from) * 64 <= q < (bi * 64 + u64_trailing_zeros(r)) * 64 ==> !#[trigger] data_bit(
                    src,
                    q,
                ),
{
    assert forall|r: u64|
        bits_from_lowest(bv, r) && u64_trailing_zeros(r) >= from && (forall|j: int|
            from <= j < u64_trailing_zeros(r) ==> !#[trigger] word_bit(bv, j)) implies forall|q: int|
        (bi * 64 + from) * 64 <= q < (bi * 64 + u64_trailing_zeros(r)) * 64 ==> !#[trigger] data_bit(
            src,
            q,
        ) by {
        assert forall|q: int|
            (bi * 64 + from) * 64 <= q < (bi * 64 + u64_trailing_zeros(r)) * 64 implies !#[trigger] data_bit(
            src,
            q,
        ) by {
            let w = q / 64;
            let j = w - bi * 64;
            assert(from <= j < u64_trailing_zeros(r));
            assert(!word_bit(bv, j));
            assert(w / 64 == bi && w % 64 == j);
            assert(!data_bit(block, w));
            if 0 <= w < src.len() {
                assert(src[w] == 0);
                lemma_zero_and_full();
            }
        }
    }
}

/// `count_bits` does not grow over positions with no set bit.
pub proof fn lemma_count_no_bits(d: Seq<u64>, a: int, b: int)
    requires
        0 <= a <= b,
        forall|q: int| a <= q < b ==> !#[trigger] data_bit(d, q),
    ensures
        count_bits(d, b) == count_bits(d, a),
    decreases b - a,
{
    if a < b {
        lemma_count_no_bits(d, a, b - 1);
    }
}

/// `count_bits` is at most the number of positions counted.
pub proof fn lemma_count_bound(d: Seq<u64>, n: int)
    requires
        0 <= n,
    ensures
        count_bits(d, n) <= n,
    decreases n,
{
    if n > 0 {
        lemma_count_bound(d, n - 1);
    }
}

/// No flat bit lies beyond the words.
pub proof fn lemma_no_bits_beyond(d: Seq<u64>)
    ensures
        forall|q: int| q >= d.len() * 64 ==> !#[trigger] data_bit(d, q),
{
}

/// Well-formed storages with the same cells are the same words with the
/// same mask.
pub proof fn lemma_same_cells_same_words<const W: usize, const H: usize, L: LayoutGeometry<W, H>>(
    d1: Seq<u64>,
    b1: Seq<u64>,
    d2: Seq<u64>,
    b2: Seq<u64>,
)
    requires
        grid_ok::<W, H, L>(d1, b1),
        grid_ok::<W, H, L>(d2, b2),
        cells::<W, H, L>(d1) == cells::<W, H, L>(d2),
    ensures
        d1 == d2,
        b1 == b2,
{
    L::lemma_geometry();
    assert forall|p: int| #[trigger] data_bit(d1, p) == data_bit(d2, p) by {
        if data_bit(d1, p) {
            assert(valid_pos::<W, H, L>(p));
            assert(cells::<W, H, L>(d1).contains(L::spec_coord(p)));
        }
        if data_bit(d2, p) {
            assert(valid_pos::<W, H, L>(p));
            assert(cells::<W, H, L>(d2).contains(L::spec_coord(p)));
        }
    }
    lemma_same_bits_same_words(d1, d2);
    assert forall|i: int| #[trigger] data_bit(b1, i) == data_bit(b2, i) by {}
    lemma_same_bits_same_words(b1, b2);
}

} // verus!
