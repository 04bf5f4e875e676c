//! Walking the set bits of one storage, or the bits set in two storages at
//! once, skipping empty words through the masks.
use vstd::prelude::*;
use vstd::std_specs::bits::u64_trailing_zeros;
use crate::bits::{word_bit, lemma_tz, lemma_walk_start, lemma_walk_step, bits_from_lowest,
    lemma_bit_ops, lemma_zero_and_full};
use crate::grid::{block_exact, data_bit};

verus! {

/// Flat position `p` is set in both storages.
pub open spec fn common_bit(d1: Seq<u64>, d2: Seq<u64>, p: int) -> bool {
    data_bit(d1, p) && data_bit(d2, p)
}

/// `v` lists, in increasing order, exactly the common positions below `bound`.
pub open spec fn lists_common_below(v: Seq<usize>, d1: Seq<u64>, d2: Seq<u64>, bound: int) -> bool {
    &&& forall|k: int| 0 <= k < v.len() ==> common_bit(d1, d2, #[trigger] v[k] as int) && v[k] < bound
    &&& forall|k: int, l: int| 0 <= k < l < v.len() ==> #[trigger] v[k] < #[trigger] v[l]
    &&& forall|p: int| 0 <= p < bound && common_bit(d1, d2, p) ==> #[trigger] v.contains(p as usize)
}

proof fn lemma_lists_extend(v: Seq<usize>, d1: Seq<u64>, d2: Seq<u64>, b1: int, b2: int)
    requires
        lists_common_below(v, d1, d2, b1),
        b1 <= b2,
        forall|q: int| b1 <= q < b2 ==> !#[trigger] common_bit(d1, d2, q),
    ensures
        lists_common_below(v, d1, d2, b2),
{
}

proof fn lemma_lists_push(v: Seq<usize>, d1: Seq<u64>, d2: Seq<u64>, q: usize)
    requires
        lists_common_below(v, d1, d2, q as int),
        common_bit(d1, d2, q as int),
    ensures
        lists_common_below(v.push(q), d1, d2, q + 1),
{
    let v2 = v.push(q);
    assert forall|p: int| 0 <= p < q + 1 && common_bit(d1, d2, p) implies #[trigger] v2.contains(
        p as usize,
    ) by {
        if p == q {
            assert(v2[v.len() as int] == q);
        } else {
            assert(v.contains(p as usize));
            let k = choose|k: int| 0 <= k < v.len() && v[k] == p as usize;
            assert(v2[k] == p as usize);
        }
    }
}

/// Mask bits clear in both masks mean no common bits in those words.
proof fn lemma_common_words_skipped(
    d1: Seq<u64>,
    b1: Seq<u64>,
    d2: Seq<u64>,
    b2: Seq<u64>,
    bi: int,
    from: int,
    to: int,
)
    requires
        block_exact(d1, b1),
        block_exact(d2, b2),
        0 <= bi < b1.len(),
        b1.len() == b2.len(),
        0 <= from <= to <= 64,
        forall|j: int| from <= j < to ==> !#[trigger] word_bit(b1[bi] & b2[bi], j),
    ensures
        forall|q: int| (bi * 64 + from) * 64 <= q < (bi * 64 + to) * 64 ==> !#[trigger] common_bit(d1, d2, q),
{
    lemma_bit_ops(b1[bi], b2[bi]);
    lemma_zero_and_full();
    assert forall|q: int| (bi * 64 + from) * 64 <= q < (bi * 64 + to) * 64 implies !#[trigger] common_bit(
        d1,
        d2,
        q,
    ) by {
        let w = q / 64;
        let j = w - bi * 64;
        assert(from <= j < to);
        assert(w / 64 == bi && w % 64 == j);
        assert(!word_bit(b1[bi] & b2[bi], j));
        assert(!(data_bit(b1, w) && data_bit(b2, w)));
        if 0 <= w < d1.len() && d1[w] == 0 {
            assert(!data_bit(d1, q));
        }
        if 0 <= w < d2.len() && d2[w] == 0 {
            assert(!data_bit(d2, q));
        }
    }
}

/// Flat positions set in both storages, in increasing order.
pub fn common_positions(d1: &Vec<u64>, b1: &Vec<u64>, d2: &Vec<u64>, b2: &Vec<u64>) -> (v: Vec<usize>)
    requires
        block_exact(d1@, b1@),
        block_exact(d2@, b2@),
        d1.len() == d2.len(),
        d1.len() * 64 + 64 <= usize::MAX,
    ensures
        lists_common_below(v@, d1@, d2@, d1.len() * 64),
{
    let total = d1.len();
    let bw = b1.len();
    let mut v: Vec<usize> = Vec::new();
    let mut block_idx: usize = 0;
    while block_idx < bw
        invariant
            block_exact(d1@, b1@),
            block_exact(d2@, b2@),
            d1.len() == d2.len(),
            total == d1.len(),
            bw == b1.len(),
            b1.len() == b2.len(),
            total * 64 + 64 <= usize::MAX,
            block_idx <= bw,
            lists_common_below(v@, d1@, d2@, block_idx * 64 * 64),
        decreases bw - block_idx,
    {
        let combined0 = b1[block_idx] & b2[block_idx];
        let mut combined = combined0;
        proof {
            lemma_walk_start(combined0);
            lemma_tz(combined0);
            lemma_common_words_skipped(d1@, b1@, d2@, b2@, block_idx as int, 0, u64_trailing_zeros(combined0) as int);
            lemma_lists_extend(v@, d1@, d2@, block_idx * 64 * 64, (block_idx * 64 + u64_trailing_zeros(combined0)) * 64);
        }
        while combined != 0
            invariant
                block_exact(d1@, b1@),
                block_exact(d2@, b2@),
                d1.len() == d2.len(),
                total == d1.len(),
                bw == b1.len(),
                b1.len() == b2.len(),
                total * 64 + 64 <= usize::MAX,
                block_idx < bw,
                combined0 == b1@[block_idx as int] & b2@[block_idx as int],
                bits_from_lowest(combined0, combined),
                lists_common_below(v@, d1@, d2@, (block_idx * 64 + u64_trailing_zeros(combined)) * 64),
            decreases 64 - u64_trailing_zeros(combined),
        {
            let bit_in_block = combined.trailing_zeros();
            proof {
                lemma_walk_step(combined0, combined);
                lemma_bit_ops(b1@[block_idx as int], b2@[block_idx as int]);
                assert(data_bit(b1@, block_idx * 64 + bit_in_block));
            }
            combined = combined & (combined - 1);
            let word_idx = block_idx * 64 + bit_in_block as usize;
            if word_idx < total {
                let cd0 = d1[word_idx] & d2[word_idx];
                let mut cd = cd0;
                proof {
                    lemma_walk_start(cd0);
                    lemma_tz(cd0);
                    lemma_bit_ops(d1@[word_idx as int], d2@[word_idx as int]);
                    assert forall|q: int| word_idx * 64 <= q < word_idx * 64 + u64_trailing_zeros(cd0) implies !#[trigger] common_bit(d1@, d2@, q) by {
                        assert(q / 64 == word_idx);
                        assert(!word_bit(cd0, q % 64));
                    }
                    lemma_lists_extend(v@, d1@, d2@, word_idx * 64, word_idx * 64 + u64_trailing_zeros(cd0));
                }
                while cd != 0
                    invariant
                        word_idx < total,
                        total == d1.len(),
                        d1.len() == d2.len(),
                        total * 64 + 64 <= usize::MAX,
                        cd0 == d1@[word_idx as int] & d2@[word_idx as int],
                        bits_from_lowest(cd0, cd),
                        lists_common_below(v@, d1@, d2@, word_idx * 64 + u64_trailing_zeros(cd)),
                    decreases 64 - u64_trailing_zeros(cd),
                {
                    let b = cd.trailing_zeros();
                    proof {
                        lemma_walk_step(cd0, cd);
                        lemma_bit_ops(d1@[word_idx as int], d2@[word_idx as int]);
                        let q = word_idx * 64 + b;
                        assert(q / 64 == word_idx && q % 64 == b);
                    }
                    cd = cd & (cd - 1);
                    proof {
                        lemma_lists_push(v@, d1@, d2@, (word_idx * 64 + b as usize) as usize);
                    }
                    v.push(word_idx * 64 + b as usize);
                    proof {
                        lemma_tz(cd);
                        assert forall|q: int| word_idx * 64 + b + 1 <= q < word_idx * 64 + u64_trailing_zeros(cd) implies !#[trigger] common_bit(d1@, d2@, q) by {
                            assert(q / 64 == word_idx);
                            assert(!word_bit(cd0, q % 64));
                        }
                        lemma_lists_extend(v@, d1@, d2@, word_idx * 64 + b + 1, word_idx * 64 + u64_trailing_zeros(cd));
                    }
                }
                proof {
                    lemma_tz(cd);
                }
            }
            proof {
                lemma_tz(combined);
                lemma_common_words_skipped(d1@, b1@, d2@, b2@, block_idx as int, bit_in_block + 1, u64_trailing_zeros(combined) as int);
                lemma_lists_extend(v@, d1@, d2@, (word_idx + 1) * 64, (block_idx * 64 + u64_trailing_zeros(combined)) * 64);
            }
        }
        proof {
            lemma_tz(combined);
        }
        block_idx += 1;
    }
    proof {
        lemma_lists_extend(v@, d1@, d2@, bw * 64 * 64, bw * 64 * 64);
        assert(bw * 64 >= total);
        assert forall|p: int| 0 <= p < total * 64 && common_bit(d1@, d2@, p) implies #[trigger] v@.contains(p as usize) by {}
        assert forall|k: int| 0 <= k < v.len() implies common_bit(d1@, d2@, #[trigger] v@[k] as int) && v@[k] < total * 64 by {
            assert(data_bit(d1@, v@[k] as int));
        }
    }
    v
}

} // verus!
