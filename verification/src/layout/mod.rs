//! Memory layouts: how the cells of a `W x H` board are stored in words.
use vstd::prelude::*;
use crate::grid::{cells, grid_ok, block_exact, clean, data_bit, valid_pos, in_board, row_segment,
    rect_cells, block_len, all_zero, shifted_cells_h, shifted_cells_v};

pub mod morton;
pub mod row_major;

pub use morton::MortonLayout;
pub use row_major::RowMajorLayout;

verus! {

/// Where each cell of a `W x H` board lives: a flat bit position
/// (`64 * word + bit`) in a vector of `spec_total_words()` words.
pub trait LayoutGeometry<const W: usize, const H: usize>: Sized {
    /// The board sizes that this layout supports. A board needs at least one
    /// column and one row: a board of width or height 0 holds no cell, and
    /// the layouts' row and block arithmetic counts from the last column
    /// (`W - 1`) and last row. The upper bounds keep every stored position
    /// and coordinate within the machine's integers.
    spec fn dims_ok() -> bool;

    /// Number of storage words.
    spec fn spec_total_words() -> nat;

    /// Flat bit position of the in-board cell `(x, y)`.
    spec fn spec_pos(x: int, y: int) -> int;

    /// The cell that a flat bit position stands for.
    spec fn spec_coord(p: int) -> (int, int);

    /// Words that may hold bits of no cell.
    spec fn spec_padding_word(w: int) -> bool;

    /// Rows end in padding bits that stand for no cell.
    spec fn spec_has_padding() -> bool;

    /// The mask of the bits of a row's last word that stand for cells.
    spec fn spec_padding_mask() -> u64;

    /// Flat spatial index of the in-board cell `(x, y)`.
    spec fn spec_index(x: int, y: int) -> int;

    /// Tile coordinates of a flat spatial index.
    spec fn spec_tile(idx: usize) -> (i32, i32);

    /// Every in-board cell has its own position, from which it is recovered;
    /// positions in words that are no padding words stand for cells.
    proof fn lemma_geometry()
        requires
            Self::dims_ok(),
        ensures
            1 <= W <= 0x7fff_0000,
            1 <= H <= 0x7fff_0000,
            Self::spec_total_words() * 64 + 64 <= usize::MAX,
            forall|x: int, y: int|
                #![trigger Self::spec_pos(x, y)]
                in_board::<W, H>(x, y) ==> {
                    &&& 0 <= Self::spec_pos(x, y) < Self::spec_total_words() * 64
                    &&& Self::spec_coord(Self::spec_pos(x, y)) == (x, y)
                },
            forall|p: int|
                0 <= p < Self::spec_total_words() * 64 ==> {
                    let c = #[trigger] Self::spec_coord(p);
                    &&& 0 <= c.0 <= 0x7fff_ffff
                    &&& 0 <= c.1 <= 0x7fff_ffff
                },
            forall|p: int|
                0 <= p < Self::spec_total_words() * 64 && !#[trigger] Self::spec_padding_word(
                    p / 64,
                ) ==> {
                    let c = Self::spec_coord(p);
                    in_board::<W, H>(c.0, c.1) && Self::spec_pos(c.0, c.1) == p
                },
            forall|x: int, y: int|
                #![trigger Self::spec_index(x, y)]
                in_board::<W, H>(x, y) ==> {
                    &&& 0 <= Self::spec_index(x, y) <= usize::MAX
                    &&& Self::spec_tile(Self::spec_index(x, y) as usize) == (x as i32, y as i32)
                },
    ;
}

/// The operations a board needs from its memory layout.
pub trait BitLayout<const W: usize, const H: usize>:
    LayoutGeometry<W, H> + Default + Clone + core::fmt::Debug + PartialEq + Eq + Send + Sync + 'static
{
    /// Whether this layout supports a `W x H` board (see `dims_ok`; boards
    /// of width or height 0 are not supported).
    fn dims_supported() -> (r: bool)
        ensures
            r == Self::dims_ok(),
    ;

    /// Calculates the number of words (u64) required for the specified size
    fn total_words() -> (r: usize)
        requires
            Self::dims_ok(),
        ensures
            r == Self::spec_total_words(),
    ;

    /// Converts tile coordinates (x, y) to bit position (word_idx, bit_pos)
    fn coord_to_word_bit(x: i32, y: i32) -> (r: Option<(usize, u32)>)
        requires
            Self::dims_ok(),
        ensures
            match r {
                Some((w, b)) => in_board::<W, H>(x as int, y as int) && b < 64 && w * 64 + b
                    == Self::spec_pos(x as int, y as int),
                None => !in_board::<W, H>(x as int, y as int),
            },
    ;

    /// Converts bit position (word_idx, bit_pos) to tile coordinates (x, y)
    fn word_bit_to_coord(word: usize, bit: u32) -> (r: (i32, i32))
        requires
            Self::dims_ok(),
            word < Self::spec_total_words(),
            bit < 64,
        ensures
            (r.0 as int, r.1 as int) == Self::spec_coord(word * 64 + bit),
    ;

    /// Converts flat index to tile coordinates (for external API)
    fn flat_index_to_coord(idx: usize) -> (r: (i32, i32))
        requires
            Self::dims_ok(),
        ensures
            r == Self::spec_tile(idx),
    ;

    /// Converts tile coordinates to flat index (for external API)
    fn coord_to_flat_index(x: i32, y: i32) -> (r: Option<usize>)
        requires
            Self::dims_ok(),
        ensures
            match r {
                Some(i) => in_board::<W, H>(x as int, y as int) && i == Self::spec_index(
                    x as int,
                    y as int,
                ),
                None => !in_board::<W, H>(x as int, y as int),
            },
    ;

    /// Checks if end-of-row padding is required
    fn has_padding() -> (r: bool)
        requires
            Self::dims_ok(),
        ensures
            r == Self::spec_has_padding(),
    ;

    /// Gets the mask for end-of-row padding
    fn padding_mask() -> (r: u64)
        requires
            Self::dims_ok(),
        ensures
            r == Self::spec_padding_mask(),
    ;

    /// Clears every stored bit that stands for no cell; other words are kept.
    fn clear_padding(data: &mut Vec<u64>)
        requires
            Self::dims_ok(),
            old(data).len() == Self::spec_total_words(),
        ensures
            final(data).len() == old(data).len(),
            forall|p: int|
                #[trigger] data_bit(final(data)@, p) == (data_bit(old(data)@, p) && valid_pos::<
                    W,
                    H,
                    Self,
                >(p)),
            forall|w: int|
                0 <= w < old(data).len() && !Self::spec_padding_word(w) ==> final(data)@[w]
                    == old(data)@[w],
    ;

    /// Clears the mask bits of padding words that became empty.
    fn fix_padding_block_mask(data: &Vec<u64>, block: &mut Vec<u64>)
        requires
            Self::dims_ok(),
            data.len() == Self::spec_total_words(),
            old(block).len() == block_len(data.len() as int),
            forall|i: int|
                0 <= i < data.len() && data@[i] != 0 ==> #[trigger] data_bit(old(block)@, i),
            forall|i: int|
                #[trigger] data_bit(old(block)@, i) ==> 0 <= i < data.len() && (data@[i] != 0
                    || Self::spec_padding_word(i)),
        ensures
            block_exact(data@, final(block)@),
    ;

    /// Processes horizontal shift: the cell `(x, y)` of `dst` is set when
    /// `(x - dist, y)` is set in `src`; whatever `dst` held before is replaced.
    fn shift_horizontal(
        src: &Vec<u64>,
        block: &Vec<u64>,
        dst: &mut Vec<u64>,
        dst_block: &mut Vec<u64>,
        dist: i32,
    )
        requires
            grid_ok::<W, H, Self>(src@, block@),
            old(dst).len() == Self::spec_total_words(),
            old(dst_block).len() == block_len(old(dst).len() as int),
        ensures
            final(dst).len() == old(dst).len(),
            block_exact(final(dst)@, final(dst_block)@),
            forall|p: int|
                valid_pos::<W, H, Self>(p) ==> #[trigger] data_bit(final(dst)@, p)
                    == shifted_cells_h::<W, H>(cells::<W, H, Self>(src@), dist as int).contains(
                    Self::spec_coord(p),
                ),
            dist == 0 ==> final(dst)@ == src@ && final(dst_block)@ == block@,
            dist >= W || dist <= -W ==> all_zero(final(dst)@) && all_zero(final(dst_block)@),
    ;

    /// Processes vertical shift: the cell `(x, y)` of `dst` is set when
    /// `(x, y - dist)` is set in `src`; whatever `dst` held before is replaced.
    fn shift_vertical(
        src: &Vec<u64>,
        block: &Vec<u64>,
        dst: &mut Vec<u64>,
        dst_block: &mut Vec<u64>,
        dist: i32,
    )
        requires
            grid_ok::<W, H, Self>(src@, block@),
            old(dst).len() == Self::spec_total_words(),
            old(dst_block).len() == block_len(old(dst).len() as int),
        ensures
            final(dst).len() == old(dst).len(),
            block_exact(final(dst)@, final(dst_block)@),
            clean::<W, H, Self>(final(dst)@),
            forall|p: int|
                valid_pos::<W, H, Self>(p) ==> #[trigger] data_bit(final(dst)@, p)
                    == shifted_cells_v::<W, H>(cells::<W, H, Self>(src@), dist as int).contains(
                    Self::spec_coord(p),
                ),
            dist == 0 ==> final(dst)@ == src@ && final(dst_block)@ == block@,
            dist >= H || dist <= -H ==> all_zero(final(dst)@) && all_zero(final(dst_block)@),
    ;

    /// Performs batch operation on a rectangular range
    fn rect_op(
        data: &mut Vec<u64>,
        block: &mut Vec<u64>,
        x: i32,
        y: i32,
        width: i32,
        height: i32,
        value: bool,
    )
        requires
            grid_ok::<W, H, Self>(old(data)@, old(block)@),
        ensures
            grid_ok::<W, H, Self>(final(data)@, final(block)@),
            cells::<W, H, Self>(final(data)@) == if value {
                cells::<W, H, Self>(old(data)@).union(
                    rect_cells::<W, H>(x as int, y as int, width as int, height as int),
                )
            } else {
                cells::<W, H, Self>(old(data)@).difference(
                    rect_cells::<W, H>(x as int, y as int, width as int, height as int),
                )
            },
    ;

    /// Fills a row range
    fn set_row(data: &mut Vec<u64>, block: &mut Vec<u64>, y: i32, min_x: i32, max_x: i32, value: bool)
        requires
            grid_ok::<W, H, Self>(old(data)@, old(block)@),
        ensures
            grid_ok::<W, H, Self>(final(data)@, final(block)@),
            cells::<W, H, Self>(final(data)@) == if value {
                cells::<W, H, Self>(old(data)@).union(
                    row_segment::<W, H>(y as int, min_x as int, max_x as int),
                )
            } else {
                cells::<W, H, Self>(old(data)@).difference(
                    row_segment::<W, H>(y as int, min_x as int, max_x as int),
                )
            },
    ;

    /// Checks if any bit is set in the specified row range
    fn has_any_in_row(data: &Vec<u64>, y: i32, min_x: i32, max_x: i32) -> (r: bool)
        requires
            Self::dims_ok(),
            data.len() == Self::spec_total_words(),
        ensures
            r == exists|x: int|
                min_x <= x <= max_x && #[trigger] cells::<W, H, Self>(data@).contains((x, y as int)),
    ;

    /// Checks if all bits in the specified row range are set; cells outside
    /// the board count as unset.
    fn is_all_in_row(data: &Vec<u64>, y: i32, min_x: i32, max_x: i32) -> (r: bool)
        requires
            Self::dims_ok(),
            data.len() == Self::spec_total_words(),
        ensures
            r == (min_x <= max_x && forall|x: int|
                min_x <= x <= max_x ==> #[trigger] cells::<W, H, Self>(data@).contains(
                    (x, y as int),
                )),
    ;
}

} // verus!
