//! Queries: emptiness, population count, row and area tests, and visiting
//! set cells.
use vstd::prelude::*;
use vstd::std_specs::bits::u64_trailing_zeros;
use crate::bits::{word_bit, popcount, count_word_ones, lemma_tz, lemma_walk_start, lemma_walk_step,
    bits_from_lowest, lemma_zero_iff_no_bits};
use crate::board::BitBoard;
use crate::grid::{cells, grid_ok, block_exact, data_bit, valid_pos, in_board, count_bits,
    lemma_count_word, lemma_count_no_bits, lemma_count_bound, lemma_words_skipped, lemma_word_nonzero,
    lemma_cells_len, lemma_no_bits_beyond};
use crate::layout::{BitLayout, LayoutGeometry};

verus! {

impl<const W: usize, const H: usize, L: BitLayout<W, H>> BitBoard<W, H, L> {
    /// Checks if any bit is on (1) on the board.
    pub fn has_any(&self) -> (r: bool)
        requires
            self.wf(),
        ensures
            r == (self@ != Set::<(int, int)>::empty()),
    {
        proof {
            self.lemma_unfold();
            L::lemma_geometry();
        }
        let n = self.block_mask.len();
        let mut i: usize = 0;
        while i < n
            invariant
                n == self.block_mask.len(),
                i <= n,
                grid_ok::<W, H, L>(self.data@, self.block_mask@),
                forall|k: int| 0 <= k < i ==> self.block_mask@[k] == 0,
            decreases n - i,
        {
            if self.block_mask[i] != 0 {
                proof {
                    lemma_word_nonzero(self.block_mask@, i as int);
                    let j = choose|j: int| 0 <= j < 64 && #[trigger] data_bit(self.block_mask@, i * 64 + j);
                    let w = i * 64 + j;
                    lemma_word_nonzero(self.data@, w);
                    let b = choose|b: int| 0 <= b < 64 && #[trigger] data_bit(self.data@, w * 64 + b);
                    let c = L::spec_coord(w * 64 + b);
                    assert(valid_pos::<W, H, L>(w * 64 + b));
                    assert(L::spec_pos(c.0, c.1) == w * 64 + b);
                    assert(cells::<W, H, L>(self.data@).contains(c));
                    assert(!Set::<(int, int)>::empty().contains(c));
                    self.lemma_unfold();
                    assert(self@.contains(c));
                    assert(self@ != Set::<(int, int)>::empty());
                }
                return true;
            }
            i += 1;
        }
        proof {
            assert forall|c: (int, int)| !#[trigger] self@.contains(c) by {
                if self@.contains(c) {
                    let p = L::spec_pos(c.0, c.1);
                    let w = p / 64;
                    lemma_word_nonzero(self.data@, w);
                    assert(p == w * 64 + p % 64);
                    assert(data_bit(self.block_mask@, w));
                    lemma_word_nonzero(self.block_mask@, w / 64);
                    assert(w == (w / 64) * 64 + w % 64);
                }
            }
            assert(self@ =~= Set::<(int, int)>::empty());
        }
        false
    }

    /// Checks if the board is completely empty.
    pub fn is_empty(&self) -> (r: bool)
        requires
            self.wf(),
        ensures
            r == (self@ == Set::<(int, int)>::empty()),
    {
        !self.has_any()
    }

    /// Counts the total number of set bits efficiently using the hierarchical mask.
    pub fn count_ones(&self) -> (r: usize)
        requires
            self.wf(),
        ensures
            r == self@.len(),
    {
        proof {
            self.lemma_unfold();
            L::lemma_geometry();
        }
        let ghost d = self.data@;
        let mut count: usize = 0;
        let bw = Self::block_words();
        let mut i: usize = 0;
        while i < bw
            invariant
                grid_ok::<W, H, L>(self.data@, self.block_mask@),
                d == self.data@,
                bw == self.block_mask.len(),
                L::spec_total_words() * 64 + 64 <= usize::MAX,
                i <= bw,
                count == count_bits(d, i * 64 * 64),
            decreases bw - i,
        {
            let mut bits = self.block_mask[i];
            let ghost b0 = bits;
            proof {
                lemma_walk_start(b0);
                lemma_tz(b0);
                lemma_words_skipped(d, self.block_mask@, i as int, b0, 0);
                lemma_count_no_bits(d, i * 64 * 64, (i * 64 + u64_trailing_zeros(b0)) * 64);
            }
            while bits != 0
                invariant
                    grid_ok::<W, H, L>(self.data@, self.block_mask@),
                    d == self.data@,
                    bw == self.block_mask.len(),
                    L::spec_total_words() * 64 + 64 <= usize::MAX,
                    i < bw,
                    b0 == self.block_mask@[i as int],
                    bits_from_lowest(b0, bits),
                    count == count_bits(d, (i * 64 + u64_trailing_zeros(bits)) * 64),
                decreases 64 - u64_trailing_zeros(bits),
            {
                let bit = bits.trailing_zeros();
                proof {
                    lemma_walk_step(b0, bits);
                    assert(data_bit(self.block_mask@, i * 64 + bit));
                    assert((i * 64 + bit) / 64 == i);
                    assert((i * 64 + bit) % 64 == bit);
                }
                let w = i * 64 + bit as usize;
                let ones = count_word_ones(self.data[w]);
                proof {
                    lemma_count_word(d, w as int);
                    lemma_count_bound(d, (w + 1) * 64);
                }
                count = count + ones as usize;
                bits = bits & (bits - 1);
                proof {
                    lemma_tz(bits);
                    lemma_words_skipped(d, self.block_mask@, i as int, b0, bit as int + 1);
                    lemma_count_no_bits(d, (w + 1) * 64, (i * 64 + u64_trailing_zeros(bits)) * 64);
                }
            }
            proof {
                lemma_tz(bits);
            }
            i += 1;
        }
        proof {
            lemma_no_bits_beyond(d);
            lemma_count_no_bits(d, (d.len() * 64) as int, bw * 64 * 64);
            lemma_cells_len::<W, H, L>(d);
        }
        count
    }

    /// Checks if any bit is on (1) in the specified range of the specified row.
    pub fn has_any_in_row(&self, y: i32, min_x: i32, max_x: i32) -> (r: bool)
        requires
            self.wf(),
        ensures
            r == exists|x: int| min_x <= x <= max_x && #[trigger] self@.contains((x, y as int)),
    {
        proof {
            self.lemma_unfold();
        }
        L::has_any_in_row(&self.data, y, min_x, max_x)
    }

    /// Determines if all bits in the specified rectangular area (center x, y, radius radius) are set (1).
    pub fn is_area_all_set(&self, x: i32, y: i32, radius: i32) -> (r: bool)
        requires
            self.wf(),
            i32::MIN <= x - radius <= i32::MAX,
            i32::MIN <= x + radius <= i32::MAX,
            i32::MIN <= y - radius <= i32::MAX,
            i32::MIN <= y + radius <= i32::MAX,
        ensures
            r == forall|cx: int, cy: int|
                x - radius <= cx <= x + radius && y - radius <= cy <= y + radius ==> #[trigger] self@.contains(
                    (cx, cy),
                ),
    {
        proof {
            self.lemma_unfold();
        }
        let x1 = x - radius;
        let x2 = x + radius;
        let y1 = y - radius;
        let y2 = y + radius;
        let mut cur_y = y1 as i64;
        while cur_y <= y2 as i64
            invariant
                self.wf(),
                self@ == cells::<W, H, L>(self.data@),
                grid_ok::<W, H, L>(self.data@, self.block_mask@),
                x1 == x - radius,
                x2 == x + radius,
                y1 == y - radius,
                y2 == y + radius,
                y1 <= cur_y,
                cur_y <= y2 + 1 || cur_y == y1,
                forall|cx: int, cy: int|
                    x1 <= cx <= x2 && y1 <= cy < cur_y ==> #[trigger] self@.contains((cx, cy)),
            decreases y2 + 1 - cur_y,
        {
            if !L::is_all_in_row(&self.data, cur_y as i32, x1, x2) {
                proof {
                    if x1 <= x2 {
                        let cx = choose|cx: int| x1 <= cx <= x2 && !#[trigger] self@.contains((cx, cur_y as int));
                        assert(!self@.contains((cx, cur_y as int)));
                    }
                }
                return false;
            }
            cur_y += 1;
        }
        true
    }

    /// Determines if at least one bit in the specified rectangular area (center x, y, radius radius) is set (1).
    pub fn is_area_any_set(&self, x: i32, y: i32, radius: i32) -> (r: bool)
        requires
            self.wf(),
            i32::MIN <= x - radius <= i32::MAX,
            i32::MIN <= x + radius <= i32::MAX,
            i32::MIN <= y - radius <= i32::MAX,
            i32::MIN <= y + radius <= i32::MAX,
        ensures
            r == exists|cx: int, cy: int|
                x - radius <= cx <= x + radius && y - radius <= cy <= y + radius && #[trigger] self@.contains(
                    (cx, cy),
                ),
    {
        proof {
            self.lemma_unfold();
        }
        let x1 = x - radius;
        let x2 = x + radius;
        let y1 = y - radius;
        let y2 = y + radius;
        let mut cur_y = y1 as i64;
        while cur_y <= y2 as i64
            invariant
                self.wf(),
                self@ == cells::<W, H, L>(self.data@),
                grid_ok::<W, H, L>(self.data@, self.block_mask@),
                x1 == x - radius,
                x2 == x + radius,
                y1 == y - radius,
                y2 == y + radius,
                y1 <= cur_y,
                cur_y <= y2 + 1 || cur_y == y1,
                forall|cx: int, cy: int|
                    x1 <= cx <= x2 && y1 <= cy < cur_y ==> !#[trigger] self@.contains((cx, cy)),
            decreases y2 + 1 - cur_y,
        {
            if L::has_any_in_row(&self.data, cur_y as i32, x1, x2) {
                proof {
                    let cx = choose|cx: int| x1 <= cx <= x2 && #[trigger] self@.contains((cx, cur_y as int));
                    assert(self@.contains((cx, cur_y as int)));
                }
                return true;
            }
            cur_y += 1;
        }
        false
    }

    /// The cells of `positions` (flat positions of set cells) as
    /// `(x, y, position)`, or `(x, y, flat spatial index)` with `spatial`.
    fn cells_of_positions(positions: &Vec<usize>, spatial: bool) -> (v: Vec<(i32, i32, usize)>)
        requires
            L::dims_ok(),
            forall|k: int| 0 <= k < positions.len() ==> valid_pos::<W, H, L>(#[trigger] positions@[k] as int),
        ensures
            v.len() == positions.len(),
            forall|k: int|
                0 <= k < v.len() ==> {
                    let c = L::spec_coord(positions@[k] as int);
                    &&& (#[trigger] v@[k]).0 as int == c.0
                    &&& v@[k].1 as int == c.1
                    &&& v@[k].2 == if spatial {
                        L::spec_index(c.0, c.1)
                    } else {
                        positions@[k] as int
                    }
                },
    {
        let mut v: Vec<(i32, i32, usize)> = Vec::new();
        let mut k: usize = 0;
        while k < positions.len()
            invariant
                L::dims_ok(),
                forall|k: int| 0 <= k < positions.len() ==> valid_pos::<W, H, L>(#[trigger] positions@[k] as int),
                k <= positions.len(),
                v.len() == k,
                forall|i: int|
                    0 <= i < k ==> {
                        let c = L::spec_coord(positions@[i] as int);
                        &&& (#[trigger] v@[i]).0 as int == c.0
                        &&& v@[i].1 as int == c.1
                        &&& v@[i].2 == if spatial {
                            L::spec_index(c.0, c.1)
                        } else {
                            positions@[i] as int
                        }
                    },
            decreases positions.len() - k,
        {
            let p = positions[k];
            proof {
                assert(valid_pos::<W, H, L>(p as int));
            }
            let (x, y) = L::word_bit_to_coord(p / 64, (p % 64) as u32);
            let third = if spatial {
                match L::coord_to_flat_index(x, y) {
                    Some(i) => i,
                    None => 0,
                }
            } else {
                p
            };
            v.push((x, y, third));
            k += 1;
        }
        v
    }

    /// The set cells as `(x, y, flat bit position)`, in storage order.
    pub fn bits_list(&self) -> (v: Vec<(i32, i32, usize)>)
        requires
            self.wf(),
        ensures
            forall|k: int|
                0 <= k < v.len() ==> self@.contains(((#[trigger] v@[k]).0 as int, v@[k].1 as int))
                    && v@[k].2 == L::spec_pos(v@[k].0 as int, v@[k].1 as int),
            forall|k: int, l: int| 0 <= k < l < v.len() ==> (#[trigger] v@[k]).2 < (#[trigger] v@[l]).2,
            forall|c: (int, int)|
                #[trigger] self@.contains(c) ==> exists|k: int|
                    0 <= k < v.len() && (#[trigger] v@[k]).0 == c.0 && v@[k].1 == c.1,
    {
        proof {
            self.lemma_unfold();
            L::lemma_geometry();
        }
        let positions = crate::walk::common_positions(&self.data, &self.block_mask, &self.data, &self.block_mask);
        let v = Self::cells_of_positions(&positions, false);
        proof {
            assert forall|c: (int, int)| #[trigger] self@.contains(c) implies exists|k: int|
                0 <= k < v.len() && (#[trigger] v@[k]).0 == c.0 && v@[k].1 == c.1 by {
                let p = L::spec_pos(c.0, c.1);
                assert(crate::walk::common_bit(self.data@, self.data@, p));
                assert(positions@.contains(p as usize));
                let k = choose|k: int| 0 <= k < positions.len() && positions@[k] == p as usize;
                assert(v@[k].0 == c.0);
            }
        }
        v
    }

    /// The cells set in both boards as `(x, y, flat spatial index)`, in storage order.
    pub fn overlap_list(&self, other: &Self) -> (v: Vec<(i32, i32, usize)>)
        requires
            self.wf(),
            other.wf(),
        ensures
            forall|k: int|
                0 <= k < v.len() ==> self@.contains(((#[trigger] v@[k]).0 as int, v@[k].1 as int))
                    && other@.contains((v@[k].0 as int, v@[k].1 as int)) && v@[k].2 == L::spec_index(
                    v@[k].0 as int,
                    v@[k].1 as int,
                ),
            forall|k: int, l: int|
                0 <= k < l < v.len() ==> L::spec_pos((#[trigger] v@[k]).0 as int, v@[k].1 as int)
                    < L::spec_pos((#[trigger] v@[l]).0 as int, v@[l].1 as int),
            forall|c: (int, int)|
                #[trigger] self@.contains(c) && other@.contains(c) ==> exists|k: int|
                    0 <= k < v.len() && (#[trigger] v@[k]).0 == c.0 && v@[k].1 == c.1,
    {
        proof {
            self.lemma_unfold();
            other.lemma_unfold();
            L::lemma_geometry();
        }
        let positions = crate::walk::common_positions(&self.data, &self.block_mask, &other.data, &other.block_mask);
        let v = Self::cells_of_positions(&positions, true);
        proof {
            assert forall|c: (int, int)| #[trigger] self@.contains(c) && other@.contains(c) implies exists|k: int|
                0 <= k < v.len() && (#[trigger] v@[k]).0 == c.0 && v@[k].1 == c.1 by {
                let p = L::spec_pos(c.0, c.1);
                assert(crate::walk::common_bit(self.data@, other.data@, p));
                assert(positions@.contains(p as usize));
                let k = choose|k: int| 0 <= k < positions.len() && positions@[k] == p as usize;
                assert(v@[k].0 == c.0);
            }
        }
        v
    }

    /// The cells set in both boards and inside the tile range from `min_tile`
    /// to `max_tile` (corners included), as `(x, y, flat spatial index)`, in
    /// storage order.
    pub fn overlap_list_in(&self, other: &Self, min_tile: (i32, i32), max_tile: (i32, i32)) -> (v: Vec<
        (i32, i32, usize),
    >)
        requires
            self.wf(),
            other.wf(),
        ensures
            forall|k: int|
                0 <= k < v.len() ==> {
                    let e = #[trigger] v@[k];
                    &&& self@.contains((e.0 as int, e.1 as int))
                    &&& other@.contains((e.0 as int, e.1 as int))
                    &&& min_tile.0 <= e.0 <= max_tile.0
                    &&& min_tile.1 <= e.1 <= max_tile.1
                    &&& e.2 == L::spec_index(e.0 as int, e.1 as int)
                },
            forall|k: int, l: int|
                0 <= k < l < v.len() ==> L::spec_pos((#[trigger] v@[k]).0 as int, v@[k].1 as int)
                    < L::spec_pos((#[trigger] v@[l]).0 as int, v@[l].1 as int),
            forall|c: (int, int)|
                #[trigger] self@.contains(c) && other@.contains(c) && min_tile.0 <= c.0 <= max_tile.0
                    && min_tile.1 <= c.1 <= max_tile.1 ==> exists|k: int|
                    0 <= k < v.len() && (#[trigger] v@[k]).0 == c.0 && v@[k].1 == c.1,
    {
        let all = self.overlap_list(other);
        let mut v: Vec<(i32, i32, usize)> = Vec::new();
        let ghost mut from: Seq<int> = Seq::empty();
        let mut k: usize = 0;
        while k < all.len()
            invariant
                k <= all.len(),
                forall|i: int|
                    0 <= i < all.len() ==> self@.contains(((#[trigger] all@[i]).0 as int, all@[i].1 as int))
                        && other@.contains((all@[i].0 as int, all@[i].1 as int)) && all@[i].2
                        == L::spec_index(all@[i].0 as int, all@[i].1 as int),
                forall|i: int, j: int|
                    0 <= i < j < all.len() ==> L::spec_pos((#[trigger] all@[i]).0 as int, all@[i].1 as int)
                        < L::spec_pos((#[trigger] all@[j]).0 as int, all@[j].1 as int),
                from.len() == v.len(),
                forall|i: int| 0 <= i < v.len() ==> 0 <= #[trigger] from[i] < k && v@[i] == all@[from[i]],
                forall|i: int, j: int| 0 <= i < j < v.len() ==> #[trigger] from[i] < #[trigger] from[j],
                forall|i: int|
                    0 <= i < v.len() ==> min_tile.0 <= (#[trigger] v@[i]).0 <= max_tile.0 && min_tile.1
                        <= v@[i].1 <= max_tile.1,
                forall|i: int|
                    0 <= i < k && min_tile.0 <= (#[trigger] all@[i]).0 <= max_tile.0 && min_tile.1
                        <= all@[i].1 <= max_tile.1 ==> exists|j: int| 0 <= j < v.len() && from[j] == i,
            decreases all.len() - k,
        {
            let (x, y, i) = all[k];
            let ghost from0 = from;
            if x >= min_tile.0 && x <= max_tile.0 && y >= min_tile.1 && y <= max_tile.1 {
                proof {
                    from = from.push(k as int);
                    assert(from[v.len() as int] == k);
                }
                v.push((x, y, i));
            }
            proof {
                assert forall|a: int|
                    0 <= a < k + 1 && min_tile.0 <= (#[trigger] all@[a]).0 <= max_tile.0 && min_tile.1
                        <= all@[a].1 <= max_tile.1 implies exists|j: int| 0 <= j < v.len() && from[j] == a by {
                    if a == k {
                        assert(from[v.len() - 1] == a);
                    } else {
                        let j = choose|j: int| 0 <= j < from0.len() && from0[j] == a;
                        assert(from[j] == a);
                    }
                }
            }
            k += 1;
        }
        proof {
            assert forall|a: int| 0 <= a < v.len() implies {
                let e = #[trigger] v@[a];
                &&& self@.contains((e.0 as int, e.1 as int))
                &&& other@.contains((e.0 as int, e.1 as int))
                &&& min_tile.0 <= e.0 <= max_tile.0
                &&& min_tile.1 <= e.1 <= max_tile.1
                &&& e.2 == L::spec_index(e.0 as int, e.1 as int)
            } by {
                assert(v@[a] == all@[from[a]]);
            }
            assert forall|a: int, b: int| 0 <= a < b < v.len() implies L::spec_pos(
                (#[trigger] v@[a]).0 as int,
                v@[a].1 as int,
            ) < L::spec_pos((#[trigger] v@[b]).0 as int, v@[b].1 as int) by {
                assert(from[a] < from[b]);
                assert(v@[a] == all@[from[a]] && v@[b] == all@[from[b]]);
            }
            assert forall|c: (int, int)|
                #[trigger] self@.contains(c) && other@.contains(c) && min_tile.0 <= c.0 <= max_tile.0
                    && min_tile.1 <= c.1 <= max_tile.1 implies exists|k: int|
                    0 <= k < v.len() && (#[trigger] v@[k]).0 == c.0 && v@[k].1 == c.1 by {
                let i = choose|i: int| 0 <= i < all.len() && (#[trigger] all@[i]).0 == c.0 && all@[i].1 == c.1;
                assert(min_tile.0 <= all@[i].0 <= max_tile.0);
                let j = choose|j: int| 0 <= j < v.len() && from[j] == i;
                assert(v@[j] == all@[i]);
            }
        }
        v
    }

    /// Efficiently scans all on (1) bits using the hierarchical mask; the
    /// callback gets each set cell and its flat bit position, in storage
    /// order. The callback need only accept those arguments: it is called
    /// with nothing else, and every set cell gets a completed call.
    pub fn for_each_bit<F>(&self, mut callback: F)
        where
            F: FnMut(i32, i32, usize),
        requires
            self.wf(),
            forall|x: i32, y: i32, i: usize|
                self@.contains((x as int, y as int)) && i == L::spec_pos(x as int, y as int)
                    ==> #[trigger] callback.requires((x, y, i)),
        ensures
            forall|x: i32, y: i32, i: usize|
                self@.contains((x as int, y as int)) && i == L::spec_pos(x as int, y as int)
                    ==> #[trigger] callback.ensures((x, y, i), ()),
    {
        let ghost cb = callback;
        let cells = self.bits_list();
        let mut k: usize = 0;
        while k < cells.len()
            invariant
                callback == cb,
                forall|x: i32, y: i32, i: usize|
                    self@.contains((x as int, y as int)) && i == L::spec_pos(x as int, y as int)
                        ==> #[trigger] cb.requires((x, y, i)),
                forall|j: int|
                    0 <= j < cells.len() ==> self@.contains(((#[trigger] cells@[j]).0 as int, cells@[j].1 as int))
                        && cells@[j].2 == L::spec_pos(cells@[j].0 as int, cells@[j].1 as int),
                k <= cells.len(),
                forall|j: int| 0 <= j < k ==> cb.ensures(#[trigger] cells@[j], ()),
            decreases cells.len() - k,
        {
            let (x, y, i) = cells[k];
            callback(x, y, i);
            k += 1;
        }
        proof {
            assert forall|x: i32, y: i32, i: usize|
                self@.contains((x as int, y as int)) && i == L::spec_pos(x as int, y as int)
                implies #[trigger] callback.ensures((x, y, i), ()) by {
                let j = choose|j: int| 0 <= j < cells.len() && (#[trigger] cells@[j]).0 == x as int && cells@[j].1 == y as int;
                assert(cells@[j] == (x, y, i));
            }
        }
    }

    /// Efficiently scans bits where the intersection (AND) with another board
    /// is 1; the callback gets each cell set in both boards and its flat
    /// spatial index, in storage order. The callback need only accept those
    /// arguments: it is called with nothing else, and every such cell gets a
    /// completed call.
    pub fn for_each_overlap<F>(&self, other: &Self, mut callback: F)
        where
            F: FnMut(i32, i32, usize),
        requires
            self.wf(),
            other.wf(),
            forall|x: i32, y: i32, i: usize|
                self@.contains((x as int, y as int)) && other@.contains((x as int, y as int)) && i
                    == L::spec_index(x as int, y as int) ==> #[trigger] callback.requires((x, y, i)),
        ensures
            forall|x: i32, y: i32, i: usize|
                self@.contains((x as int, y as int)) && other@.contains((x as int, y as int)) && i
                    == L::spec_index(x as int, y as int) ==> #[trigger] callback.ensures((x, y, i), ()),
    {
        let ghost cb = callback;
        let cells = self.overlap_list(other);
        let mut k: usize = 0;
        while k < cells.len()
            invariant
                callback == cb,
                forall|x: i32, y: i32, i: usize|
                    self@.contains((x as int, y as int)) && other@.contains((x as int, y as int)) && i
                        == L::spec_index(x as int, y as int) ==> #[trigger] cb.requires((x, y, i)),
                forall|j: int|
                    0 <= j < cells.len() ==> self@.contains(((#[trigger] cells@[j]).0 as int, cells@[j].1 as int))
                        && other@.contains((cells@[j].0 as int, cells@[j].1 as int)) && cells@[j].2
                        == L::spec_index(cells@[j].0 as int, cells@[j].1 as int),
                k <= cells.len(),
                forall|j: int| 0 <= j < k ==> cb.ensures(#[trigger] cells@[j], ()),
            decreases cells.len() - k,
        {
            let (x, y, i) = cells[k];
            callback(x, y, i);
            k += 1;
        }
        proof {
            assert forall|x: i32, y: i32, i: usize|
                self@.contains((x as int, y as int)) && other@.contains((x as int, y as int)) && i
                    == L::spec_index(x as int, y as int) implies #[trigger] callback.ensures((x, y, i), ()) by {
                let j = choose|j: int|
                    0 <= j < cells.len() && (#[trigger] cells@[j]).0 == x as int && cells@[j].1 == y as int;
                assert(cells@[j] == (x, y, i));
            }
        }
    }

    /// Efficiently scans the intersection (AND) with another board only
    /// within the specified tile range (corners included); the callback gets
    /// each cell set in both boards with `min_tile.0 <= x <= max_tile.0` and
    /// `min_tile.1 <= y <= max_tile.1`, and its flat spatial index, in storage
    /// order. The callback need only accept those arguments: it is called
    /// with nothing else, and every such cell gets a completed call.
    pub fn for_each_overlap_in<F>(
        &self,
        other: &Self,
        min_tile: (i32, i32),
        max_tile: (i32, i32),
        mut callback: F,
    )
        where
            F: FnMut(i32, i32, usize),
        requires
            self.wf(),
            other.wf(),
            forall|x: i32, y: i32, i: usize|
                self@.contains((x as int, y as int)) && other@.contains((x as int, y as int)) && min_tile.0
                    <= x <= max_tile.0 && min_tile.1 <= y <= max_tile.1 && i == L::spec_index(
                    x as int,
                    y as int,
                ) ==> #[trigger] callback.requires((x, y, i)),
        ensures
            forall|x: i32, y: i32, i: usize|
                self@.contains((x as int, y as int)) && other@.contains((x as int, y as int)) && min_tile.0
                    <= x <= max_tile.0 && min_tile.1 <= y <= max_tile.1 && i == L::spec_index(
                    x as int,
                    y as int,
                ) ==> #[trigger] callback.ensures((x, y, i), ()),
    {
        let ghost cb = callback;
        let cells = self.overlap_list_in(other, min_tile, max_tile);
        let mut k: usize = 0;
        while k < cells.len()
            invariant
                callback == cb,
                forall|x: i32, y: i32, i: usize|
                    self@.contains((x as int, y as int)) && other@.contains((x as int, y as int))
                        && min_tile.0 <= x <= max_tile.0 && min_tile.1 <= y <= max_tile.1 && i
                        == L::spec_index(x as int, y as int) ==> #[trigger] cb.requires((x, y, i)),
                forall|j: int|
                    0 <= j < cells.len() ==> {
                        let e = #[trigger] cells@[j];
                        &&& self@.contains((e.0 as int, e.1 as int))
                        &&& other@.contains((e.0 as int, e.1 as int))
                        &&& min_tile.0 <= e.0 <= max_tile.0
                        &&& min_tile.1 <= e.1 <= max_tile.1
                        &&& e.2 == L::spec_index(e.0 as int, e.1 as int)
                    },
                k <= cells.len(),
                forall|j: int| 0 <= j < k ==> cb.ensures(#[trigger] cells@[j], ()),
            decreases cells.len() - k,
        {
            let (x, y, i) = cells[k];
            callback(x, y, i);
            k += 1;
        }
        proof {
            assert forall|x: i32, y: i32, i: usize|
                self@.contains((x as int, y as int)) && other@.contains((x as int, y as int)) && min_tile.0
                    <= x <= max_tile.0 && min_tile.1 <= y <= max_tile.1 && i == L::spec_index(
                    x as int,
                    y as int,
                ) implies #[trigger] callback.ensures((x, y, i), ()) by {
                let j = choose|j: int|
                    0 <= j < cells.len() && (#[trigger] cells@[j]).0 == x as int && cells@[j].1 == y as int;
                assert(cells@[j] == (x, y, i));
            }
        }
    }
}

} // verus!
