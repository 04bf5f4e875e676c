//! The board: a `W x H` grid of bits stored in words, with a mask whose bit
//! `i` says whether word `i` is non-zero.
use vstd::prelude::*;
use core::marker::PhantomData;
use crate::bits::{word_bit, lemma_single_bit, lemma_zero_and_full};
use crate::grid::{cells, grid_ok, block_exact, data_bit, valid_pos, in_board, block_len,
    clean, shifted_cells_h, shifted_cells_v, fill_zero, zero_words, rebuild_block, apply_word_mask,
    lemma_zero_grid, lemma_word_nonzero};
use crate::layout::{BitLayout, LayoutGeometry, RowMajorLayout};

verus! {

/// Bitmap data structure
/// Board size is fixed at the type level via W and H parameters.
/// L specifies the memory layout (defaults to Row-Major).
#[derive(Debug, PartialEq, Eq)]
pub struct BitBoard<const W: usize, const H: usize, L: BitLayout<W, H> = RowMajorLayout> {
    pub(crate) data: Vec<u64>,
    /// Hierarchical mask (Level 1): each bit indicates whether data[i] is non-zero.
    pub(crate) block_mask: Vec<u64>,
    pub(crate) _layout: PhantomData<L>,
}

impl<const W: usize, const H: usize, L: BitLayout<W, H>> View for BitBoard<W, H, L> {
    type V = Set<(int, int)>;

    /// The set cells `(x, y)`.
    closed spec fn view(&self) -> Set<(int, int)> {
        cells::<W, H, L>(self.data@)
    }
}

/// `s` with the cell `(x, y)` set to `value`; cells off the board are ignored.
pub open spec fn with_cell<const W: usize, const H: usize>(
    s: Set<(int, int)>,
    x: int,
    y: int,
    value: bool,
) -> Set<(int, int)> {
    if !in_board::<W, H>(x, y) {
        s
    } else if value {
        s.insert((x, y))
    } else {
        s.remove((x, y))
    }
}

/// Bit `i` of `mask` is set exactly when word `i` holds a set cell of `cells`.
pub open spec fn mask_marks_words<const W: usize, const H: usize, L: BitLayout<W, H>>(
    mask: Seq<u64>,
    s: Set<(int, int)>,
) -> bool {
    &&& mask.len() == block_len(L::spec_total_words() as int)
    &&& forall|i: int|
        #[trigger] data_bit(mask, i) == (0 <= i < L::spec_total_words() && exists|c: (int, int)|
            #[trigger] s.contains(c) && L::spec_pos(c.0, c.1) / 64 == i)
}

impl<const W: usize, const H: usize, L: BitLayout<W, H>> BitBoard<W, H, L> {
    /// The storage is well formed: sizes, no stray bits, exact mask.
    pub closed spec fn wf(&self) -> bool {
        grid_ok::<W, H, L>(self.data@, self.block_mask@)
    }

    /// The storage has the sizes of a board whose size the layout supports.
    pub closed spec fn shaped(&self) -> bool {
        &&& L::dims_ok()
        &&& self.data.len() == L::spec_total_words()
        &&& self.block_mask.len() == block_len(L::spec_total_words() as int)
    }

    /// No stored bit stands outside the board.
    pub closed spec fn no_stray_bits(&self) -> bool {
        clean::<W, H, L>(self.data@)
    }

    /// Bit `i` of the mask is set exactly when word `i` is non-zero.
    pub closed spec fn mask_exact(&self) -> bool {
        block_exact(self.data@, self.block_mask@)
    }

    /// A board is well formed exactly when it is shaped, has no stray bits
    /// and an exact mask.
    pub proof fn lemma_wf_parts(&self)
        ensures
            self.wf() == (self.shaped() && self.no_stray_bits() && self.mask_exact()),
    {
    }

    /// The stored words and the mask words.
    pub closed spec fn storage(&self) -> (Seq<u64>, Seq<u64>) {
        (self.data@, self.block_mask@)
    }

    pub(crate) proof fn lemma_unfold(&self)
        ensures
            self@ == cells::<W, H, L>(self.data@),
            self.wf() == grid_ok::<W, H, L>(self.data@, self.block_mask@),
            self.storage() == (self.data@, self.block_mask@),
            self.shaped() == (L::dims_ok() && self.data.len() == L::spec_total_words()
                && self.block_mask.len() == block_len(L::spec_total_words() as int)),
            self.no_stray_bits() == clean::<W, H, L>(self.data@),
            self.mask_exact() == block_exact(self.data@, self.block_mask@),
    {
    }

    /// A well-formed board has finitely many cells, all on the board.
    pub proof fn lemma_view_on_board(&self)
        requires
            self.wf(),
        ensures
            self@.finite(),
            forall|c: (int, int)| #[trigger] self@.contains(c) ==> in_board::<W, H>(c.0, c.1),
    {
        crate::grid::lemma_cells_len::<W, H, L>(self.data@);
    }

    // --- Constants & Static Utilities --


    /// Total number of elements in the internal data array
    pub fn total_words() -> (r: usize)
        requires
            L::dims_ok(),
        ensures
            r == L::spec_total_words(),
    {
        L::total_words()
    }

    /// Number of elements in the internal block_mask array (1 bit covers 1 word)
    pub fn block_words() -> (r: usize)
        requires
            L::dims_ok(),
        ensures
            r == block_len(L::spec_total_words() as int),
    {
        proof {
            L::lemma_geometry();
        }
        (Self::total_words() + 63) / 64
    }

    /// Converts tile coordinates to a flat spatial index
    pub fn tile_to_index(x: i32, y: i32) -> (r: Option<usize>)
        requires
            L::dims_ok(),
        ensures
            match r {
                Some(i) => in_board::<W, H>(x as int, y as int) && i == L::spec_index(
                    x as int,
                    y as int,
                ),
                None => !in_board::<W, H>(x as int, y as int),
            },
    {
        L::coord_to_flat_index(x, y)
    }

    /// Converts a flat index to tile coordinates
    pub fn index_to_tile(idx: usize) -> (r: (i32, i32))
        requires
            L::dims_ok(),
        ensures
            r == L::spec_tile(idx),
    {
        L::flat_index_to_coord(idx)
    }

    // --- Creation & Life Cycle ---

    /// Creates a board with all bits set to 0 (a board of a size the layout
    /// does not support gets no storage).
    pub fn new() -> (r: Self)
        ensures
            L::dims_ok() ==> r.wf() && r@ == Set::<(int, int)>::empty(),
    {
        if !L::dims_supported() {
            return BitBoard { data: Vec::new(), block_mask: Vec::new(), _layout: PhantomData };
        }
        let total = Self::total_words();
        let block_count = Self::block_words();
        let data = zero_words(total);
        let block_mask = zero_words(block_count);
        proof {
            lemma_zero_grid::<W, H, L>(data@, block_mask@);
        }
        BitBoard { data, block_mask, _layout: PhantomData }
    }

    /// Finalizes the board state to ensure consistency (clears padding and rebuilds block mask)
    pub fn finalize(&mut self)
        requires
            old(self).shaped(),
        ensures
            final(self).wf(),
            final(self)@ == old(self)@,
    {
        proof {
            L::lemma_geometry();
        }
        self.clear_padding();
        proof {
            assert forall|c: (int, int)| #[trigger] cells::<W, H, L>(self.data@).contains(c)
                == cells::<W, H, L>(old(self).data@).contains(c) by {
                if in_board::<W, H>(c.0, c.1) {
                    assert(valid_pos::<W, H, L>(L::spec_pos(c.0, c.1)));
                }
            }
            assert(cells::<W, H, L>(self.data@) =~= cells::<W, H, L>(old(self).data@));
        }
        self.rebuild_block_mask();
    }

    /// Clears the entire bitmap to 0
    pub fn clear(&mut self)
        requires
            old(self).wf(),
        ensures
            final(self).wf(),
            final(self)@ == Set::<(int, int)>::empty(),
    {
        fill_zero(&mut self.data);
        fill_zero(&mut self.block_mask);
        proof {
            lemma_zero_grid::<W, H, L>(self.data@, self.block_mask@);
        }
    }

    // --- Basic Access & Mutation ---

    /// Gets the bit at the specified coordinates
    pub fn get(&self, x: i32, y: i32) -> (r: bool)
        requires
            self.wf(),
        ensures
            r == self@.contains((x as int, y as int)),
    {
        match Self::idx(x, y) {
            Some((word, bit)) => {
                proof {
                    L::lemma_geometry();
                    let p = L::spec_pos(x as int, y as int);
                    assert(p / 64 == word && p % 64 == bit);
                }
                let w = self.data[word];
                assert(((w >> (bit as u64)) & 1 != 0) == ((w >> (bit as u64)) & 1 == 1)) by (bit_vector);
                (w >> (bit as u64)) & 1 != 0
            },
            None => false,
        }
    }

    /// Gets the bit in flat index format
    pub fn get_by_index(&self, idx: usize) -> (r: bool)
        requires
            self.wf(),
        ensures
            r == self@.contains((L::spec_tile(idx).0 as int, L::spec_tile(idx).1 as int)),
    {
        let (x, y) = Self::index_to_tile(idx);
        self.get(x, y)
    }

    /// Sets the bit at the specified coordinates
    pub fn set(&mut self, x: i32, y: i32, value: bool)
        requires
            old(self).wf(),
        ensures
            final(self).wf(),
            final(self)@ == with_cell::<W, H>(old(self)@, x as int, y as int, value),
    {
        if let Some((word, bit)) = Self::idx(x, y) {
            proof {
                L::lemma_geometry();
                lemma_single_bit(bit as u64);
                lemma_zero_and_full();
                assert(word_bit(1u64 << (bit as u64), bit as int));
            }
            apply_word_mask(&mut self.data, &mut self.block_mask, word, 1u64 << (bit as u64), value);
            proof {
                let p = L::spec_pos(x as int, y as int);
                assert forall|q: int| #[trigger] data_bit(self.data@, q) implies valid_pos::<W, H, L>(q) by {
                    if !data_bit(old(self).data@, q) {
                        assert(q / 64 == word && q % 64 == bit);
                        assert(q == word * 64 + bit);
                    }
                }
                let goal = if value {
                    old(self)@.insert((x as int, y as int))
                } else {
                    old(self)@.remove((x as int, y as int))
                };
                assert forall|c: (int, int)| #[trigger] cells::<W, H, L>(self.data@).contains(c) == goal.contains(c) by {
                    if in_board::<W, H>(c.0, c.1) {
                        let q = L::spec_pos(c.0, c.1);
                        if q / 64 == word && q % 64 == bit {
                            assert(q == word * 64 + bit);
                            assert(L::spec_coord(q) == c);
                        }
                    }
                }
                assert(cells::<W, H, L>(self.data@) =~= goal);
            }
        }
    }

    // --- Internal State Management & Accessors ---

    /// Read-only access to the block layer mask
    pub fn block_mask(&self) -> (r: &Vec<u64>)
        requires
            self.wf(),
        ensures
            mask_marks_words::<W, H, L>(r@, self@),
    {
        proof {
            L::lemma_geometry();
            assert forall|i: int|
                #[trigger] data_bit(self.block_mask@, i) == (0 <= i < L::spec_total_words()
                    && exists|c: (int, int)|
                    #[trigger] self@.contains(c) && L::spec_pos(c.0, c.1) / 64 == i) by {
                if 0 <= i < L::spec_total_words() {
                    lemma_word_nonzero(self.data@, i);
                    if self.data@[i] != 0 {
                        let j = choose|j: int| 0 <= j < 64 && #[trigger] data_bit(self.data@, i * 64 + j);
                        let p = i * 64 + j;
                        let c = L::spec_coord(p);
                        assert(valid_pos::<W, H, L>(p));
                        assert(self@.contains(c));
                        assert(p / 64 == i);
                    } else {
                        assert forall|c: (int, int)| #[trigger] self@.contains(c) implies L::spec_pos(c.0, c.1) / 64 != i by {
                            let p = L::spec_pos(c.0, c.1);
                            if p / 64 == i {
                                assert(p == i * 64 + p % 64);
                                assert(data_bit(self.data@, i * 64 + p % 64));
                            }
                        }
                    }
                }
            }
        }
        &self.block_mask
    }

    /// Rebuilds the block mask by scanning all internal data
    pub fn rebuild_block_mask(&mut self)
        requires
            old(self).shaped(),
        ensures
            final(self).shaped(),
            final(self).mask_exact(),
            final(self).storage().0 == old(self).storage().0,
            final(self)@ == old(self)@,
            final(self).wf() == old(self).no_stray_bits(),
    {
        rebuild_block(&self.data, &mut self.block_mask);
    }

    /// Clears extra bits in the padding area of each row to 0 (stored bits
    /// that stand for no cell).
    pub(crate) fn clear_padding(&mut self)
        requires
            L::dims_ok(),
            old(self).data.len() == L::spec_total_words(),
        ensures
            final(self).data.len() == old(self).data.len(),
            final(self).block_mask == old(self).block_mask,
            clean::<W, H, L>(final(self).data@),
            forall|p: int|
                #[trigger] data_bit(final(self).data@, p) == (data_bit(old(self).data@, p)
                    && valid_pos::<W, H, L>(p)),
            forall|w: int|
                0 <= w < old(self).data.len() && !L::spec_padding_word(w) ==> final(self).data@[w]
                    == old(self).data@[w],
    {
        L::clear_padding(&mut self.data);
    }

    /// Converts tile coordinates to internal indices (word_idx, bit_pos)
    pub fn idx(x: i32, y: i32) -> (r: Option<(usize, u32)>)
        requires
            L::dims_ok(),
        ensures
            match r {
                Some((w, b)) => in_board::<W, H>(x as int, y as int) && b < 64 && w * 64 + b
                    == L::spec_pos(x as int, y as int),
                None => !in_board::<W, H>(x as int, y as int),
            },
    {
        L::coord_to_word_bit(x, y)
    }

    /// Clears the padding that a shift may have written into `self` and
    /// brings the mask back in line.
    pub(crate) fn settle_after_shift(&mut self)
        requires
            L::dims_ok(),
            old(self).data.len() == L::spec_total_words(),
            block_exact(old(self).data@, old(self).block_mask@),
        ensures
            grid_ok::<W, H, L>(final(self).data@, final(self).block_mask@),
            forall|p: int|
                valid_pos::<W, H, L>(p) ==> #[trigger] data_bit(final(self).data@, p) == data_bit(
                    old(self).data@,
                    p,
                ),
    {
        let ghost before = self.data@;
        self.clear_padding();
        proof {
            L::lemma_geometry();
            assert forall|i: int|
                0 <= i < self.data.len() && self.data@[i] != 0 implies #[trigger] data_bit(
                self.block_mask@,
                i,
            ) by {
                lemma_word_nonzero(self.data@, i);
                lemma_word_nonzero(before, i);
                let j = choose|j: int| 0 <= j < 64 && #[trigger] data_bit(self.data@, i * 64 + j);
                assert(data_bit(before, i * 64 + j));
            }
            assert forall|i: int| #[trigger] data_bit(self.block_mask@, i) implies 0 <= i
                < self.data.len() && (self.data@[i] != 0 || L::spec_padding_word(i)) by {}
        }
        L::fix_padding_block_mask(&self.data, &mut self.block_mask);
    }

    /// Writes the result of a horizontal shift by a specified distance into another board (avoids allocation)
    pub fn shift_horizontal_into(&self, dist: i32, dst: &mut Self)
        requires
            self.wf(),
            old(dst).wf(),
        ensures
            final(dst).wf(),
            final(dst)@ == shifted_cells_h::<W, H>(self@, dist as int),
    {
        dst.clear();
        L::shift_horizontal(&self.data, &self.block_mask, &mut dst.data, &mut dst.block_mask, dist);
        let ghost moved = dst.data@;
        dst.settle_after_shift();
        proof {
            L::lemma_geometry();
            let goal = shifted_cells_h::<W, H>(self@, dist as int);
            assert forall|c: (int, int)| #[trigger] cells::<W, H, L>(dst.data@).contains(c) == goal.contains(c) by {
                if in_board::<W, H>(c.0, c.1) {
                    let p = L::spec_pos(c.0, c.1);
                    assert(valid_pos::<W, H, L>(p));
                    assert(data_bit(moved, p) == goal.contains(L::spec_coord(p)));
                }
            }
            assert(cells::<W, H, L>(dst.data@) =~= goal);
        }
    }

    /// Writes the result of a vertical shift by a specified distance into another board (avoids allocation)
    pub fn shift_vertical_into(&self, dist: i32, dst: &mut Self)
        requires
            self.wf(),
            old(dst).wf(),
        ensures
            final(dst).wf(),
            final(dst)@ == shifted_cells_v::<W, H>(self@, dist as int),
    {
        dst.clear();
        L::shift_vertical(&self.data, &self.block_mask, &mut dst.data, &mut dst.block_mask, dist);
        let ghost moved = dst.data@;
        dst.settle_after_shift();
        proof {
            L::lemma_geometry();
            let goal = shifted_cells_v::<W, H>(self@, dist as int);
            assert forall|c: (int, int)| #[trigger] cells::<W, H, L>(dst.data@).contains(c) == goal.contains(c) by {
                if in_board::<W, H>(c.0, c.1) {
                    let p = L::spec_pos(c.0, c.1);
                    assert(valid_pos::<W, H, L>(p));
                    assert(data_bit(moved, p) == goal.contains(L::spec_coord(p)));
                }
            }
            assert(cells::<W, H, L>(dst.data@) =~= goal);
        }
    }

    /// Returns a new board shifted horizontally by the specified distance
    pub fn shifted_horizontal(&self, dist: i32) -> (r: Self)
        requires
            self.wf(),
        ensures
            r.wf(),
            r@ == shifted_cells_h::<W, H>(self@, dist as int),
    {
        let mut res = Self::new();
        self.shift_horizontal_into(dist, &mut res);
        res
    }

    /// Returns a new board shifted vertically by the specified distance
    pub fn shifted_vertical(&self, dist: i32) -> (r: Self)
        requires
            self.wf(),
        ensures
            r.wf(),
            r@ == shifted_cells_v::<W, H>(self@, dist as int),
    {
        let mut res = Self::new();
        self.shift_vertical_into(dist, &mut res);
        res
    }
}

impl<const W: usize, const H: usize, L: BitLayout<W, H>> BitBoard<W, H, L> {
    /// Board width (number of tiles)
    pub fn width() -> (r: usize)
        ensures
            r == W,
    {
        W
    }

    /// Board height (number of tiles)
    pub fn height() -> (r: usize)
        ensures
            r == H,
    {
        H
    }
}

impl<const W: usize, const H: usize, L: BitLayout<W, H>> Clone for BitBoard<W, H, L> {
    fn clone(&self) -> (r: Self)
        ensures
            r@ == self@,
            r.wf() == self.wf(),
    {
        let r = BitBoard { data: self.data.clone(), block_mask: self.block_mask.clone(), _layout: PhantomData };
        proof {
            assert(r.data@ =~= self.data@);
            assert(r.block_mask@ =~= self.block_mask@);
        }
        r
    }
}

impl<const W: usize, const H: usize, L: BitLayout<W, H>> Default for BitBoard<W, H, L> {
    fn default() -> (r: Self)
        ensures
            L::dims_ok() ==> r.wf() && r@ == Set::<(int, int)>::empty(),
    {
        Self::new()
    }
}

} // verus!
