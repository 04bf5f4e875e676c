//! Visiting the set cells of a board one at a time, in storage order.
use vstd::prelude::*;
use vstd::std_specs::bits::u64_trailing_zeros;
use vstd::std_specs::vec::into_iter_elts;
use crate::bits::{word_bit, lemma_tz, lemma_walk_step, lemma_walk_start, bits_from_lowest,
    lemma_shr_bits, lemma_zero_and_full};
use crate::board::BitBoard;
use crate::grid::{cells, grid_ok, data_bit, valid_pos, in_board, lemma_word_nonzero};
use crate::layout::{BitLayout, LayoutGeometry};

verus! {

/// `s` lists every cell of `c` once, in increasing storage position.
pub open spec fn lists_in_storage_order<const W: usize, const H: usize, L: BitLayout<W, H>>(
    s: Seq<(i32, i32)>,
    c: Set<(int, int)>,
) -> bool {
    &&& forall|k: int| 0 <= k < s.len() ==> c.contains(((#[trigger] s[k]).0 as int, s[k].1 as int))
    &&& forall|k: int, l: int|
        0 <= k < l < s.len() ==> L::spec_pos((#[trigger] s[k]).0 as int, s[k].1 as int) < L::spec_pos(
            (#[trigger] s[l]).0 as int,
            s[l].1 as int,
        )
    &&& forall|x: int, y: int|
        #[trigger] c.contains((x, y)) ==> exists|k: int|
            0 <= k < s.len() && (#[trigger] s[k]).0 == x && s[k].1 == y
}

/// One call of `next`: with the cells `before` not visited yet it returns
/// `r` and leaves `after`. `None` comes only when nothing is left; otherwise
/// the cell returned is the unvisited one with the lowest storage position,
/// and it is taken out.
pub open spec fn next_step<const W: usize, const H: usize, L: BitLayout<W, H>>(
    before: Set<(int, int)>,
    r: Option<(i32, i32)>,
    after: Set<(int, int)>,
) -> bool {
    match r {
        None => before == Set::<(int, int)>::empty() && after == Set::<(int, int)>::empty(),
        Some((x, y)) => {
            &&& before.contains((x as int, y as int))
            &&& after == before.remove((x as int, y as int))
            &&& forall|c: (int, int)|
                #[trigger] before.contains(c) ==> L::spec_pos(x as int, y as int) <= L::spec_pos(c.0, c.1)
        },
    }
}

/// Iterator that visits coordinates where bits are set
pub struct BitBoardIter<'a, const W: usize, const H: usize, L: BitLayout<W, H>> {
    bitmap: &'a BitBoard<W, H, L>,
    word_idx: usize,
    current_word: u64,
}

impl<'a, const W: usize, const H: usize, L: BitLayout<W, H>> BitBoardIter<'a, W, H, L> {
    /// The iterator's state is consistent with its board.
    pub closed spec fn wf(&self) -> bool {
        let d = self.bitmap.data@;
        &&& self.bitmap.wf()
        &&& self.word_idx < d.len() + 64
        &&& self.word_idx < d.len() ==> bits_from_lowest(d[self.word_idx as int], self.current_word)
        &&& self.word_idx >= d.len() ==> self.current_word == 0
    }

    /// The cells of the board being visited.
    pub closed spec fn source(&self) -> Set<(int, int)> {
        self.bitmap@
    }

    /// Flat positions not visited yet.
    closed spec fn rest_pos(&self) -> Set<int> {
        Set::new(
            |p: int|
                data_bit(self.bitmap.data@, p) && (p / 64 > self.word_idx || (p / 64
                    == self.word_idx && word_bit(self.current_word, p % 64))),
        )
    }

    /// The cells not visited yet.
    pub closed spec fn rest(&self) -> Set<(int, int)> {
        Set::new(
            |c: (int, int)|
                self.bitmap@.contains(c) && self.rest_pos().contains(L::spec_pos(c.0, c.1)),
        )
    }

    /// An iterator over the set cells of `bitmap`.
    pub fn new(bitmap: &'a BitBoard<W, H, L>) -> (it: Self)
        requires
            bitmap.wf(),
        ensures
            it.wf(),
            it.source() == bitmap@,
            it.rest() == bitmap@,
    {
        proof {
            bitmap.lemma_unfold();
            L::lemma_geometry();
        }
        let current_word = if bitmap.data.len() > 0 {
            bitmap.data[0]
        } else {
            0
        };
        let it = BitBoardIter { bitmap, word_idx: 0, current_word };
        proof {
            lemma_walk_start(current_word);
            assert forall|c: (int, int)| #[trigger] bitmap@.contains(c) implies it.rest_pos().contains(
                L::spec_pos(c.0, c.1),
            ) by {
                let p = L::spec_pos(c.0, c.1);
                if p / 64 == 0 {
                    assert(p % 64 == p);
                }
            }
            assert(it.rest() =~= bitmap@);
        }
        it
    }

    /// The next set cell: the unvisited one with the lowest storage
    /// position, or `None` once every cell has been visited.
    pub fn next(&mut self) -> (r: Option<(i32, i32)>)
        requires
            old(self).wf(),
        ensures
            final(self).wf(),
            final(self).source() == old(self).source(),
            final(self).rest().subset_of(final(self).source()),
            next_step::<W, H, L>(old(self).rest(), r, final(self).rest()),
    {
        let ghost r0 = self.rest_pos();
        let ghost d = self.bitmap.data@;
        proof {
            self.bitmap.lemma_unfold();
            L::lemma_geometry();
        }
        let total = self.bitmap.data.len();
        if self.word_idx >= total {
            proof {
                assert(self.rest_pos() =~= Set::<int>::empty());
                assert(self.rest() =~= Set::<(int, int)>::empty());
            }
            return None;
        }
        loop
            invariant
                self.wf(),
                d == self.bitmap.data@,
                total == d.len(),
                grid_ok::<W, H, L>(d, self.bitmap.block_mask@),
                self.bitmap@ == cells::<W, H, L>(d),
                L::spec_total_words() * 64 + 64 <= usize::MAX,
                self.rest_pos() == r0,
                old(self).rest_pos() == r0,
                old(self).bitmap == self.bitmap,
            decreases total + 64 - self.word_idx,
        {
            while self.current_word == 0
                invariant
                    self.wf(),
                    d == self.bitmap.data@,
                    total == d.len(),
                    grid_ok::<W, H, L>(d, self.bitmap.block_mask@),
                    self.bitmap@ == cells::<W, H, L>(d),
                    L::spec_total_words() * 64 + 64 <= usize::MAX,
                    self.rest_pos() == r0,
                    old(self).rest_pos() == r0,
                    old(self).bitmap == self.bitmap,
                decreases total + 64 - self.word_idx,
            {
                if self.word_idx + 1 >= total {
                    self.word_idx = total;
                    proof {
                        assert(r0 =~= Set::<int>::empty());
                        assert(self.rest_pos() =~= Set::<int>::empty());
                        assert(old(self).rest() =~= Set::<(int, int)>::empty());
                        assert(self.rest() =~= Set::<(int, int)>::empty());
                    }
                    return None;
                }
                proof {
                    lemma_zero_and_full();
                }
                self.word_idx = self.word_idx + 1;
                let w = self.word_idx;
                let block_word_idx = w / 64;
                let bit_in_block = w % 64;
                let seg0 = self.bitmap.block_mask[block_word_idx];
                let block_segment = seg0 >> (bit_in_block as u64);
                proof {
                    lemma_shr_bits(seg0, bit_in_block as u64);
                    lemma_tz(block_segment);
                }
                if block_segment == 0 {
                    // Every word from `w` to the end of this block word is empty.
                    proof {
                        assert forall|p: int| #[trigger] data_bit(d, p) && w <= p / 64 implies p / 64
                            >= (block_word_idx + 1) * 64 by {
                            let q = p / 64;
                            lemma_word_nonzero(d, q);
                            assert(p == q * 64 + p % 64);
                            assert(data_bit(self.bitmap.block_mask@, q));
                            if q < (block_word_idx + 1) * 64 {
                                assert(q / 64 == block_word_idx);
                                assert(word_bit(block_segment, q % 64 - bit_in_block));
                            }
                        }
                    }
                    self.word_idx = (block_word_idx + 1) * 64 - 1;
                    proof {
                        lemma_tz(0u64);
                        assert(self.rest_pos() =~= r0);
                    }
                    continue;
                }
                let skip = block_segment.trailing_zeros();
                proof {
                    assert(word_bit(seg0, skip + bit_in_block));
                    assert(data_bit(self.bitmap.block_mask@, w + skip)) by {
                        assert((w + skip) / 64 == block_word_idx);
                        assert((w + skip) % 64 == skip + bit_in_block);
                    }
                    assert forall|p: int| #[trigger] data_bit(d, p) && w <= p / 64 implies p / 64
                        >= w + skip by {
                        let q = p / 64;
                        lemma_word_nonzero(d, q);
                        assert(p == q * 64 + p % 64);
                        assert(data_bit(self.bitmap.block_mask@, q));
                        if q < w + skip {
                            assert(q / 64 == block_word_idx);
                            assert(!word_bit(block_segment, q % 64 - bit_in_block));
                        }
                    }
                }
                self.word_idx = w + skip as usize;
                self.current_word = self.bitmap.data[self.word_idx];
                proof {
                    lemma_walk_start(self.current_word);
                    assert forall|p: int| #[trigger] self.rest_pos().contains(p) == r0.contains(p) by {
                        if data_bit(d, p) && p / 64 == self.word_idx {
                            assert(word_bit(self.current_word, p % 64));
                        }
                    }
                    assert(self.rest_pos() =~= r0);
                }
            }
            let cw = self.current_word;
            let bit = cw.trailing_zeros();
            let ghost wi = self.word_idx;
            proof {
                lemma_walk_step(d[wi as int], cw);
                lemma_tz(cw);
            }
            self.current_word = cw & (cw - 1);
            let ghost p = wi * 64 + bit;
            proof {
                assert forall|j: int| #[trigger] word_bit(self.current_word, j) == (word_bit(cw, j)
                    && j != bit) by {}
                assert(p / 64 == wi && p % 64 == bit);
                assert(data_bit(d, p));
                assert(valid_pos::<W, H, L>(p));
                assert(r0.contains(p));
                assert(self.rest_pos() =~= r0.remove(p));
                assert forall|q: int| #[trigger] r0.contains(q) implies p <= q by {
                    if q / 64 == wi {
                        assert(q == wi * 64 + q % 64);
                    }
                }
            }
            let (x, y) = L::word_bit_to_coord(self.word_idx, bit);
            if x >= 0 && (x as usize) < W && y >= 0 && (y as usize) < H {
                proof {
                    L::lemma_geometry();
                    let c = (x as int, y as int);
                    assert(L::spec_pos(c.0, c.1) == p);
                    assert(old(self).rest().contains(c));
                    assert forall|e: (int, int)| #[trigger] self.rest().contains(e) == old(self).rest().remove(
                        c,
                    ).contains(e) by {
                        if self.bitmap@.contains(e) && L::spec_pos(e.0, e.1) == p {
                            assert(L::spec_coord(L::spec_pos(e.0, e.1)) == e);
                        }
                    }
                    assert(self.rest() =~= old(self).rest().remove(c));
                }
                return Some((x, y));
            }
            // Every stored bit stands for a cell on the board, so a bit
            // outside it is never met.
            proof {
                assert(false);
            }
        }
    }
}

impl<const W: usize, const H: usize, L: BitLayout<W, H>> BitBoard<W, H, L> {
    /// Gets an iterator that yields the coordinates (x, y) of all set bits,
    /// in storage order.
    pub fn iter_set_bits(&self) -> (r: std::vec::IntoIter<(i32, i32)>)
        requires
            self.wf(),
        ensures
            lists_in_storage_order::<W, H, L>(into_iter_elts(r), self@),
    {
        let mut it = BitBoardIter::new(self);
        let mut v: Vec<(i32, i32)> = Vec::new();
        proof {
            self.lemma_view_on_board();
        }
        loop
            invariant
                self.wf(),
                it.wf(),
                self@.finite(),
                it.source() == self@,
                it.rest().subset_of(self@),
                forall|k: int|
                    0 <= k < v.len() ==> self@.contains(((#[trigger] v@[k]).0 as int, v@[k].1 as int))
                        && !it.rest().contains((v@[k].0 as int, v@[k].1 as int)),
                forall|k: int, l: int|
                    0 <= k < l < v.len() ==> L::spec_pos((#[trigger] v@[k]).0 as int, v@[k].1 as int)
                        < L::spec_pos((#[trigger] v@[l]).0 as int, v@[l].1 as int),
                forall|k: int, c: (int, int)|
                    0 <= k < v.len() && #[trigger] it.rest().contains(c) ==> L::spec_pos(
                        (#[trigger] v@[k]).0 as int,
                        v@[k].1 as int,
                    ) < L::spec_pos(c.0, c.1),
                forall|x: int, y: int|
                    #[trigger] self@.contains((x, y)) ==> it.rest().contains((x, y)) || exists|k: int|
                        0 <= k < v.len() && (#[trigger] v@[k]).0 == x && v@[k].1 == y,
            ensures
                lists_in_storage_order::<W, H, L>(v@, self@),
            decreases it.rest().len(),
        {
            let ghost before = it.rest();
            proof {
                vstd::set_lib::lemma_len_subset(before, self@);
            }
            match it.next() {
                Some(c) => {
                    proof {
                        let e = (c.0 as int, c.1 as int);
                        let v2 = v@.push(c);
                        assert forall|x: int, y: int| #[trigger] self@.contains((x, y)) implies it.rest().contains(
                            (x, y),
                        ) || exists|k: int| 0 <= k < v2.len() && (#[trigger] v2[k]).0 == x && v2[k].1 == y by {
                            if !it.rest().contains((x, y)) {
                                if (x, y) == e {
                                    assert(v2[v.len() as int] == c);
                                } else {
                                    assert(!before.contains((x, y)));
                                    let k = choose|k: int| 0 <= k < v.len() && (#[trigger] v@[k]).0 == x && v@[k].1 == y;
                                    assert(v2[k] == v@[k]);
                                }
                            }
                        }
                        assert forall|k: int, e2: (int, int)|
                            0 <= k < v2.len() && #[trigger] it.rest().contains(e2) implies L::spec_pos(
                            (#[trigger] v2[k]).0 as int,
                            v2[k].1 as int,
                        ) < L::spec_pos(e2.0, e2.1) by {
                            self.lemma_unfold();
                            L::lemma_geometry();
                            assert(before.contains(e2));
                            if k == v.len() {
                                assert(e2 != e);
                                assert(L::spec_coord(L::spec_pos(e2.0, e2.1)) == e2);
                                assert(L::spec_coord(L::spec_pos(e.0, e.1)) == e);
                            }
                        }
                    }
                    v.push(c);
                },
                None => {
                    proof {
                        assert forall|x: int, y: int| #[trigger] self@.contains((x, y)) implies exists|k: int|
                            0 <= k < v.len() && (#[trigger] v@[k]).0 == x && v@[k].1 == y by {
                            assert(!it.rest().contains((x, y)));
                        }
                    }
                    break ;
                },
            }
        }
        let ghost listed = v;
        let r = v.into_iter();
        proof {
            vstd::std_specs::vec::axiom_spec_into_iter(listed);
            assert(into_iter_elts(r) == listed@);
        }
        r
    }
}

} // verus!
