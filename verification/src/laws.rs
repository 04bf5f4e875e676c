//! Properties of the board operations taken together, stated over the
//! specifications that the operations' contracts use.
use vstd::prelude::*;
use crate::board::{BitBoard, with_cell};
use crate::grid::{cells, board_cells, in_board, rect_cells, shifted_cells_h, shifted_cells_v,
    data_bit, valid_pos, grid_ok, lemma_same_bits_same_words};
use crate::layout::{BitLayout, LayoutGeometry, MortonLayout, RowMajorLayout};
use crate::morphology::{dilated, eroded, on_board};
use crate::iter::{lists_in_storage_order, next_step};

verus! {

/// Reading a cell after writing it gives the written value on the board
/// (and unset off it); every other cell keeps its value.
pub proof fn law_get_after_set<const W: usize, const H: usize>(
    s: Set<(int, int)>,
    x: int,
    y: int,
    value: bool,
)
    requires
        on_board::<W, H>(s),
    ensures
        with_cell::<W, H>(s, x, y, value).contains((x, y)) == (in_board::<W, H>(x, y) && value),
        forall|c: (int, int)|
            c != (x, y) ==> #[trigger] with_cell::<W, H>(s, x, y, value).contains(c) == s.contains(c),
        on_board::<W, H>(with_cell::<W, H>(s, x, y, value)),
{
}

/// Of two writes to the same cell, the last one wins.
pub proof fn law_last_set_wins<const W: usize, const H: usize>(
    s: Set<(int, int)>,
    x: int,
    y: int,
    first: bool,
    second: bool,
)
    ensures
        with_cell::<W, H>(with_cell::<W, H>(s, x, y, first), x, y, second) == with_cell::<W, H>(
            s,
            x,
            y,
            second,
        ),
{
    assert(with_cell::<W, H>(with_cell::<W, H>(s, x, y, first), x, y, second) =~= with_cell::<W, H>(
        s,
        x,
        y,
        second,
    ));
}

/// Setting a cell that was unset adds one to the count of set cells;
/// clearing a set cell takes one away; otherwise the count is unchanged.
pub proof fn law_count_after_set<const W: usize, const H: usize>(
    s: Set<(int, int)>,
    x: int,
    y: int,
    value: bool,
)
    requires
        s.finite(),
    ensures
        with_cell::<W, H>(s, x, y, value).finite(),
        with_cell::<W, H>(s, x, y, value).len() == if in_board::<W, H>(x, y) && value && !s.contains(
            (x, y),
        ) {
            s.len() + 1int
        } else if in_board::<W, H>(x, y) && !value && s.contains((x, y)) {
            s.len() - 1
        } else {
            s.len() as int
        },
{
    if in_board::<W, H>(x, y) && value && s.contains((x, y)) {
        assert(s.insert((x, y)) =~= s);
    }
    if in_board::<W, H>(x, y) && !value && !s.contains((x, y)) {
        assert(s.remove((x, y)) =~= s);
    }
}

/// Two well-formed boards with the same cells have the same storage, so
/// they compare equal.
pub proof fn law_same_cells_same_storage<const W: usize, const H: usize, L: BitLayout<W, H>>(
    a: &BitBoard<W, H, L>,
    b: &BitBoard<W, H, L>,
)
    requires
        a.wf(),
        b.wf(),
        a@ == b@,
    ensures
        a.storage() == b.storage(),
{
    a.lemma_unfold();
    b.lemma_unfold();
    L::lemma_geometry();
    let (da, ba) = a.storage();
    let (db, bb) = b.storage();
    assert forall|p: int| #[trigger] data_bit(da, p) == data_bit(db, p) by {
        if data_bit(da, p) {
            assert(valid_pos::<W, H, L>(p));
            let c = L::spec_coord(p);
            assert(a@.contains(c));
            assert(b@.contains(c));
        }
        if data_bit(db, p) {
            assert(valid_pos::<W, H, L>(p));
            let c = L::spec_coord(p);
            assert(b@.contains(c));
            assert(a@.contains(c));
        }
    }
    lemma_same_bits_same_words(da, db);
    assert forall|i: int| #[trigger] data_bit(ba, i) == data_bit(bb, i) by {}
    lemma_same_bits_same_words(ba, bb);
}

/// Shifting by zero changes nothing.
pub proof fn law_shift_by_zero<const W: usize, const H: usize>(s: Set<(int, int)>)
    requires
        on_board::<W, H>(s),
    ensures
        shifted_cells_h::<W, H>(s, 0) == s,
        shifted_cells_v::<W, H>(s, 0) == s,
{
    assert(shifted_cells_h::<W, H>(s, 0) =~= s);
    assert(shifted_cells_v::<W, H>(s, 0) =~= s);
}

/// A shift by at least the board's size along its axis leaves nothing.
pub proof fn law_shift_off_board<const W: usize, const H: usize>(s: Set<(int, int)>, d: int)
    requires
        on_board::<W, H>(s),
    ensures
        d >= W || d <= -W ==> shifted_cells_h::<W, H>(s, d) == Set::<(int, int)>::empty(),
        d >= H || d <= -H ==> shifted_cells_v::<W, H>(s, d) == Set::<(int, int)>::empty(),
{
    if d >= W || d <= -W {
        assert forall|c: (int, int)| !#[trigger] shifted_cells_h::<W, H>(s, d).contains(c) by {
            if shifted_cells_h::<W, H>(s, d).contains(c) {
                assert(s.contains((c.0 - d, c.1)));
            }
        }
        assert(shifted_cells_h::<W, H>(s, d) =~= Set::<(int, int)>::empty());
    }
    if d >= H || d <= -H {
        assert forall|c: (int, int)| !#[trigger] shifted_cells_v::<W, H>(s, d).contains(c) by {
            if shifted_cells_v::<W, H>(s, d).contains(c) {
                assert(s.contains((c.0, c.1 - d)));
            }
        }
        assert(shifted_cells_v::<W, H>(s, d) =~= Set::<(int, int)>::empty());
    }
}

/// Shifting by `d` and back by `-d` keeps exactly the cells that the first
/// shift did not push off the board.
pub proof fn law_shift_back<const W: usize, const H: usize>(s: Set<(int, int)>, d: int)
    requires
        on_board::<W, H>(s),
    ensures
        shifted_cells_h::<W, H>(shifted_cells_h::<W, H>(s, d), -d) == s.filter(
            |c: (int, int)| in_board::<W, H>(c.0 + d, c.1),
        ),
        shifted_cells_v::<W, H>(shifted_cells_v::<W, H>(s, d), -d) == s.filter(
            |c: (int, int)| in_board::<W, H>(c.0, c.1 + d),
        ),
{
    assert forall|c: (int, int)| #[trigger] shifted_cells_h::<W, H>(shifted_cells_h::<W, H>(s, d), -d).contains(c)
        implies s.contains(c) by {
        assert(shifted_cells_h::<W, H>(s, d).contains((c.0 + d, c.1)));
        assert(s.contains((c.0 + d - d, c.1)));
        assert((c.0 + d - d, c.1) == c);
    }
    assert forall|c: (int, int)| #[trigger] s.contains(c) && in_board::<W, H>(c.0 + d, c.1) implies shifted_cells_h::<W, H>(
        shifted_cells_h::<W, H>(s, d),
        -d,
    ).contains(c) by {
        assert((c.0 + d - d, c.1) == c);
        assert(shifted_cells_h::<W, H>(s, d).contains((c.0 + d, c.1)));
        assert((c.0 - -d, c.1) == (c.0 + d, c.1));
    }
    assert(shifted_cells_h::<W, H>(shifted_cells_h::<W, H>(s, d), -d) =~= s.filter(
        |c: (int, int)| in_board::<W, H>(c.0 + d, c.1),
    ));
    assert forall|c: (int, int)| #[trigger] shifted_cells_v::<W, H>(shifted_cells_v::<W, H>(s, d), -d).contains(c)
        implies s.contains(c) by {
        assert(shifted_cells_v::<W, H>(s, d).contains((c.0, c.1 + d)));
        assert(s.contains((c.0, c.1 + d - d)));
        assert((c.0, c.1 + d - d) == c);
    }
    assert forall|c: (int, int)| #[trigger] s.contains(c) && in_board::<W, H>(c.0, c.1 + d) implies shifted_cells_v::<W, H>(
        shifted_cells_v::<W, H>(s, d),
        -d,
    ).contains(c) by {
        assert((c.0, c.1 + d - d) == c);
        assert(shifted_cells_v::<W, H>(s, d).contains((c.0, c.1 + d)));
        assert((c.0, c.1 - -d) == (c.0, c.1 + d));
    }
    assert(shifted_cells_v::<W, H>(shifted_cells_v::<W, H>(s, d), -d) =~= s.filter(
        |c: (int, int)| in_board::<W, H>(c.0, c.1 + d),
    ));
}

/// Or with an empty board and and with the board itself change nothing;
/// xor with the board itself empties it.
pub proof fn law_op_identities(a: Set<(int, int)>)
    ensures
        a.union(Set::<(int, int)>::empty()) == a,
        a.intersect(a) == a,
        a.difference(a).union(a.difference(a)) == Set::<(int, int)>::empty(),
{
    assert(a.union(Set::<(int, int)>::empty()) =~= a);
    assert(a.intersect(a) =~= a);
    assert(a.difference(a).union(a.difference(a)) =~= Set::<(int, int)>::empty());
}

/// Complementing twice gives the board back.
pub proof fn law_double_complement<const W: usize, const H: usize>(s: Set<(int, int)>)
    requires
        on_board::<W, H>(s),
    ensures
        board_cells::<W, H>().difference(board_cells::<W, H>().difference(s)) == s,
{
    assert(board_cells::<W, H>().difference(board_cells::<W, H>().difference(s)) =~= s);
}

/// The cells of rows `0..n`.
spec fn first_rows<const W: usize, const H: usize>(n: int) -> Set<(int, int)> {
    Set::new(|c: (int, int)| 0 <= c.0 < W && 0 <= c.1 < n)
}

proof fn lemma_first_rows_len<const W: usize, const H: usize>(n: int)
    requires
        0 <= n,
    ensures
        first_rows::<W, H>(n).finite(),
        first_rows::<W, H>(n).len() == W * n,
    decreases n,
{
    if n == 0 {
        assert(first_rows::<W, H>(0) =~= Set::<(int, int)>::empty());
    } else {
        lemma_first_rows_len::<W, H>(n - 1);
        let xs = vstd::set_lib::set_int_range(0, W as int);
        vstd::set_lib::lemma_int_range(0, W as int);
        let f = |x: int| (x, n - 1);
        let row = Set::new(|c: (int, int)| 0 <= c.0 < W && c.1 == n - 1);
        assert(vstd::relations::injective_on(f, xs));
        assert forall|c: (int, int)| #[trigger] row.contains(c) implies xs.map(f).contains(c) by {
            assert(xs.contains(c.0));
            assert(f(c.0) == c);
        }
        assert(xs.map(f) =~= row);
        vstd::set_lib::lemma_map_size(xs, row, f);
        let prev = first_rows::<W, H>(n - 1);
        assert(prev.disjoint(row));
        vstd::set_lib::lemma_set_disjoint_lens(prev, row);
        assert(first_rows::<W, H>(n) =~= prev + row);
        assert(W * n == W * (n - 1) + W) by (nonlinear_arith);
    }
}

/// The board has `W * H` cells, and complementing a board's cells leaves
/// `W * H` minus their number.
pub proof fn law_complement_count<const W: usize, const H: usize>(s: Set<(int, int)>)
    requires
        on_board::<W, H>(s),
        s.finite(),
    ensures
        board_cells::<W, H>().finite(),
        board_cells::<W, H>().len() == W * H,
        board_cells::<W, H>().difference(s).len() == W * H - s.len(),
{
    lemma_first_rows_len::<W, H>(H as int);
    assert(first_rows::<W, H>(H as int) =~= board_cells::<W, H>());
    let b = board_cells::<W, H>();
    vstd::set_lib::lemma_set_difference_len(b, s);
    assert(b.intersect(s) =~= s);
}

/// Dilation only adds cells; erosion only takes cells away.
pub proof fn law_dilate_erode_bounds<const W: usize, const H: usize>(s: Set<(int, int)>, r: int)
    requires
        on_board::<W, H>(s),
        0 <= r,
    ensures
        s.subset_of(dilated::<W, H>(s, r)),
        eroded::<W, H>(s, r).subset_of(s),
{
    assert forall|c: (int, int)| #[trigger] s.contains(c) implies dilated::<W, H>(s, r).contains(c) by {
        assert(s.contains((c.0 + 0, c.1 + 0)));
    }
    assert forall|c: (int, int)| #[trigger] eroded::<W, H>(s, r).contains(c) implies s.contains(c) by {
        assert(s.contains((c.0 + 0, c.1 + 0)));
    }
}

/// Dilating a non-empty board by at least its size minus one fills it.
pub proof fn law_dilate_fills_board<const W: usize, const H: usize>(s: Set<(int, int)>, r: int)
    requires
        on_board::<W, H>(s),
        s != Set::<(int, int)>::empty(),
        r + 1 >= W,
        r + 1 >= H,
    ensures
        dilated::<W, H>(s, r) == board_cells::<W, H>(),
{
    let e = choose|e: (int, int)| s.contains(e);
    assert(s.contains(e)) by {
        assert(!(s =~= Set::<(int, int)>::empty()));
    }
    assert forall|c: (int, int)| #[trigger] board_cells::<W, H>().contains(c) implies dilated::<W, H>(s, r).contains(c) by {
        assert(s.contains((c.0 + (e.0 - c.0), c.1 + (e.1 - c.1))));
    }
    assert(dilated::<W, H>(s, r) =~= board_cells::<W, H>());
}

/// Eroding by a window wider or taller than the board leaves nothing.
pub proof fn law_erode_too_wide<const W: usize, const H: usize>(s: Set<(int, int)>, r: int)
    requires
        on_board::<W, H>(s),
        2 * r + 1 > W || 2 * r + 1 > H,
    ensures
        eroded::<W, H>(s, r) == Set::<(int, int)>::empty(),
{
    assert forall|c: (int, int)| !#[trigger] eroded::<W, H>(s, r).contains(c) by {
        if eroded::<W, H>(s, r).contains(c) {
            if 2 * r + 1 > W {
                if c.0 - r < 0 {
                    assert(s.contains((c.0 + -r, c.1 + 0)));
                } else {
                    assert(s.contains((c.0 + r, c.1 + 0)));
                }
            } else {
                if c.1 - r < 0 {
                    assert(s.contains((c.0 + 0, c.1 + -r)));
                } else {
                    assert(s.contains((c.0 + 0, c.1 + r)));
                }
            }
        }
    }
    assert(eroded::<W, H>(s, r) =~= Set::<(int, int)>::empty());
}

/// Dilating a rectangle by `r` and eroding the result by `r` gives the
/// rectangle back, when its `r`-neighbourhood lies on the board.
pub proof fn law_close_rect<const W: usize, const H: usize>(x: int, y: int, w: int, h: int, r: int)
    requires
        0 <= r,
        1 <= w,
        1 <= h,
        0 <= x - r,
        0 <= y - r,
        x + w + r <= W,
        y + h + r <= H,
    ensures
        eroded::<W, H>(dilated::<W, H>(rect_cells::<W, H>(x, y, w, h), r), r) == rect_cells::<W, H>(
            x,
            y,
            w,
            h,
        ),
{
    let rect = rect_cells::<W, H>(x, y, w, h);
    let big = rect_cells::<W, H>(x - r, y - r, w + 2 * r, h + 2 * r);
    let d = dilated::<W, H>(rect, r);
    assert forall|c: (int, int)| #[trigger] d.contains(c) == big.contains(c) by {
        if big.contains(c) {
            let a = if c.0 < x {
                x - c.0
            } else if c.0 >= x + w {
                x + w - 1 - c.0
            } else {
                0
            };
            let b = if c.1 < y {
                y - c.1
            } else if c.1 >= y + h {
                y + h - 1 - c.1
            } else {
                0
            };
            assert(rect.contains((c.0 + a, c.1 + b)));
        }
        if d.contains(c) {
            let (a, b) = choose|a: int, b: int|
                -r <= a <= r && -r <= b <= r && #[trigger] rect.contains((c.0 + a, c.1 + b));
            assert(rect.contains((c.0 + a, c.1 + b)));
        }
    }
    assert(d =~= big);
    let e = eroded::<W, H>(big, r);
    assert forall|c: (int, int)| #[trigger] e.contains(c) == rect.contains(c) by {
        if e.contains(c) {
            assert(big.contains((c.0 + -r, c.1 + -r)));
            assert(big.contains((c.0 + r, c.1 + r)));
        }
        if rect.contains(c) {
            assert forall|a: int, b: int| -r <= a <= r && -r <= b <= r implies #[trigger] big.contains(
                (c.0 + a, c.1 + b),
            ) by {}
        }
    }
    assert(e =~= rect);
}

/// Iterating over a board yields as many cells as the board holds (what
/// `count_ones` returns), no cell twice.
pub proof fn law_iteration_count<const W: usize, const H: usize, L: BitLayout<W, H>>(
    seq: Seq<(i32, i32)>,
    s: Set<(int, int)>,
)
    requires
        lists_in_storage_order::<W, H, L>(seq, s),
        s.finite(),
    ensures
        seq.len() == s.len(),
        forall|k: int, l: int| 0 <= k < l < seq.len() ==> seq[k] != seq[l],
{
    let idx = vstd::set_lib::set_int_range(0, seq.len() as int);
    vstd::set_lib::lemma_int_range(0, seq.len() as int);
    let f = |k: int| (seq[k].0 as int, seq[k].1 as int);
    assert forall|k: int, l: int| idx.contains(k) && idx.contains(l) && #[trigger] f(k) == #[trigger] f(l)
        implies k == l by {
        if k < l {
            assert(L::spec_pos(seq[k].0 as int, seq[k].1 as int) < L::spec_pos(seq[l].0 as int, seq[l].1 as int));
        } else if l < k {
            assert(L::spec_pos(seq[l].0 as int, seq[l].1 as int) < L::spec_pos(seq[k].0 as int, seq[k].1 as int));
        }
    }
    assert(vstd::relations::injective_on(f, idx));
    assert forall|c: (int, int)| #[trigger] s.contains(c) implies idx.map(f).contains(c) by {
        let k = choose|k: int| 0 <= k < seq.len() && (#[trigger] seq[k]).0 == c.0 && seq[k].1 == c.1;
        assert(idx.contains(k) && f(k) == c);
    }
    assert forall|c: (int, int)| idx.map(f).contains(c) implies #[trigger] s.contains(c) by {
        let k = choose|k: int| idx.contains(k) && f(k) == c;
        assert(s.contains(((seq[k]).0 as int, seq[k].1 as int)));
    }
    assert(idx.map(f) =~= s);
    vstd::set_lib::lemma_map_size(idx, s, f);
    assert forall|k: int, l: int| 0 <= k < l < seq.len() implies seq[k] != seq[l] by {
        assert(L::spec_pos(seq[k].0 as int, seq[k].1 as int) < L::spec_pos(seq[l].0 as int, seq[l].1 as int));
    }
}

/// The cell that a returned `Some` stands for.
pub open spec fn cell_of(r: Option<(i32, i32)>) -> (int, int) {
    (r.unwrap().0 as int, r.unwrap().1 as int)
}

/// What holds after the first `n` calls of `next`.
spec fn visited_prefix<const W: usize, const H: usize, L: BitLayout<W, H>>(
    s: Set<(int, int)>,
    rests: Seq<Set<(int, int)>>,
    results: Seq<Option<(i32, i32)>>,
    n: int,
) -> bool {
    &&& rests[n].subset_of(s)
    &&& forall|j: int|
        0 <= j < n && (#[trigger] results[j]) is Some ==> {
            &&& s.contains(cell_of(results[j]))
            &&& !rests[n].contains(cell_of(results[j]))
            &&& forall|e: (int, int)|
                #[trigger] rests[n].contains(e) ==> L::spec_pos(cell_of(results[j]).0, cell_of(results[j]).1)
                    < L::spec_pos(e.0, e.1)
        }
    &&& forall|c: (int, int)|
        #[trigger] s.contains(c) ==> rests[n].contains(c) || exists|j: int|
            0 <= j < n && (#[trigger] results[j]) is Some && cell_of(results[j]) == c
    &&& forall|j: int, l: int|
        0 <= j < l < n && (#[trigger] results[j]) is Some && (#[trigger] results[l]) is Some
            ==> L::spec_pos(cell_of(results[j]).0, cell_of(results[j]).1) < L::spec_pos(
            cell_of(results[l]).0,
            cell_of(results[l]).1,
        )
    &&& forall|j: int| 0 <= j < n && (#[trigger] results[j]) is None ==> rests[n] == Set::<(int, int)>::empty()
    &&& forall|j: int, l: int|
        0 <= j < l < n && (#[trigger] results[j]) is None ==> (#[trigger] results[l]) is None
}

proof fn lemma_visited_prefix<const W: usize, const H: usize, L: BitLayout<W, H>>(
    s: Set<(int, int)>,
    rests: Seq<Set<(int, int)>>,
    results: Seq<Option<(i32, i32)>>,
    n: int,
)
    requires
        L::dims_ok(),
        on_board::<W, H>(s),
        rests.len() == results.len() + 1,
        rests[0] == s,
        forall|k: int| 0 <= k < results.len() ==> next_step::<W, H, L>(rests[k], #[trigger] results[k], rests[k + 1]),
        0 <= n <= results.len(),
    ensures
        visited_prefix::<W, H, L>(s, rests, results, n),
    decreases n,
{
    if n > 0 {
        lemma_visited_prefix::<W, H, L>(s, rests, results, n - 1);
        let m = n - 1;
        let r = results[m];
        assert(next_step::<W, H, L>(rests[m], r, rests[n]));
        L::lemma_geometry();
        if r is None {
            assert forall|c: (int, int)| #[trigger] s.contains(c) implies rests[n].contains(c) || exists|j: int|
                0 <= j < n && (#[trigger] results[j]) is Some && cell_of(results[j]) == c by {
                assert(!rests[m].contains(c));
                let j = choose|j: int| 0 <= j < m && (#[trigger] results[j]) is Some && cell_of(results[j]) == c;
                assert(0 <= j < n && results[j] is Some && cell_of(results[j]) == c);
            }
            assert forall|j: int, l: int|
                0 <= j < l < n && (#[trigger] results[j]) is None implies (#[trigger] results[l]) is None by {
                if l < m {
                    assert(results[l] is None);
                }
            }
        } else {
            let c0 = cell_of(r);
            assert(rests[m].contains(c0));
            assert(rests[n] == rests[m].remove(c0));
            assert forall|j: int|
                0 <= j < n && (#[trigger] results[j]) is Some implies {
                &&& s.contains(cell_of(results[j]))
                &&& !rests[n].contains(cell_of(results[j]))
                &&& forall|e: (int, int)|
                    #[trigger] rests[n].contains(e) ==> L::spec_pos(cell_of(results[j]).0, cell_of(results[j]).1)
                        < L::spec_pos(e.0, e.1)
            } by {
                if j == m {
                    assert forall|e: (int, int)| #[trigger] rests[n].contains(e) implies L::spec_pos(c0.0, c0.1)
                        < L::spec_pos(e.0, e.1) by {
                        assert(rests[m].contains(e));
                        assert(e != c0);
                        assert(s.contains(e) && s.contains(c0));
                        assert(L::spec_coord(L::spec_pos(e.0, e.1)) == e);
                        assert(L::spec_coord(L::spec_pos(c0.0, c0.1)) == c0);
                    }
                }
            }
            assert forall|c: (int, int)| #[trigger] s.contains(c) implies rests[n].contains(c) || exists|j: int|
                0 <= j < n && (#[trigger] results[j]) is Some && cell_of(results[j]) == c by {
                if c == c0 {
                    assert(results[m] is Some && cell_of(results[m]) == c);
                } else if !rests[m].contains(c) {
                    let j = choose|j: int| 0 <= j < m && (#[trigger] results[j]) is Some && cell_of(results[j]) == c;
                    assert(0 <= j < n && results[j] is Some && cell_of(results[j]) == c);
                }
            }
            assert forall|j: int, l: int|
                0 <= j < l < n && (#[trigger] results[j]) is Some && (#[trigger] results[l]) is Some
                implies L::spec_pos(cell_of(results[j]).0, cell_of(results[j]).1) < L::spec_pos(
                cell_of(results[l]).0,
                cell_of(results[l]).1,
            ) by {
                if l == m {
                    assert(rests[m].contains(c0));
                }
            }
            assert forall|j: int| 0 <= j < n && (#[trigger] results[j]) is None implies rests[n]
                == Set::<(int, int)>::empty() by {
                assert(j < m);
                assert(rests[m] == Set::<(int, int)>::empty());
                assert(!rests[m].contains(c0));
            }
            assert forall|j: int, l: int|
                0 <= j < l < n && (#[trigger] results[j]) is None implies (#[trigger] results[l]) is None by {
                assert(j < m);
                assert(rests[m] == Set::<(int, int)>::empty());
                assert(!rests[m].contains(c0));
            }
        }
    }
}

/// Calling `next` again and again on an iterator over a board (as
/// `BitBoardIter::new` makes it, with all of `s` unvisited) returns each set
/// cell once, in increasing storage position, and nothing off the board; once
/// `None` comes, every later call returns `None`, and by then every cell of
/// `s` has been returned.
pub proof fn law_repeated_next<const W: usize, const H: usize, L: BitLayout<W, H>>(
    s: Set<(int, int)>,
    rests: Seq<Set<(int, int)>>,
    results: Seq<Option<(i32, i32)>>,
)
    requires
        L::dims_ok(),
        on_board::<W, H>(s),
        rests.len() == results.len() + 1,
        rests[0] == s,
        forall|k: int| 0 <= k < results.len() ==> next_step::<W, H, L>(rests[k], #[trigger] results[k], rests[k + 1]),
    ensures
        forall|k: int| 0 <= k < results.len() && (#[trigger] results[k]) is Some ==> s.contains(cell_of(results[k])),
        forall|k: int, l: int|
            0 <= k < l < results.len() && (#[trigger] results[k]) is Some && (#[trigger] results[l]) is Some
                ==> L::spec_pos(cell_of(results[k]).0, cell_of(results[k]).1) < L::spec_pos(
                cell_of(results[l]).0,
                cell_of(results[l]).1,
            ),
        forall|k: int, l: int|
            0 <= k < l < results.len() && (#[trigger] results[k]) is None ==> (#[trigger] results[l]) is None,
        forall|k: int, c: (int, int)|
            0 <= k < results.len() && (#[trigger] results[k]) is None && #[trigger] s.contains(c) ==> exists|j: int|
                0 <= j < k && (#[trigger] results[j]) is Some && cell_of(results[j]) == c,
{
    let n = results.len() as int;
    lemma_visited_prefix::<W, H, L>(s, rests, results, n);
    assert forall|k: int| 0 <= k < n && (#[trigger] results[k]) is Some implies s.contains(cell_of(results[k])) by {
        lemma_visited_prefix::<W, H, L>(s, rests, results, k + 1);
    }
    assert forall|k: int, c: (int, int)|
        0 <= k < n && (#[trigger] results[k]) is None && #[trigger] s.contains(c) implies exists|j: int|
        0 <= j < k && (#[trigger] results[j]) is Some && cell_of(results[j]) == c by {
        lemma_visited_prefix::<W, H, L>(s, rests, results, k);
        assert(next_step::<W, H, L>(rests[k], results[k], rests[k + 1]));
        assert(!rests[k].contains(c));
    }
}

/// Every row-major board with 1 to 0x7fff_0000 columns and 1 to 0x7fff_0000
/// rows, of any shape, is supported as long as its storage fits the
/// machine's integers; so `new` gives it storage and `get`/`set` work on it.
pub proof fn law_row_major_sizes<const W: usize, const H: usize>()
    requires
        1 <= W <= 0x7fff_0000,
        1 <= H <= 0x7fff_0000,
        ((W + 63) / 64) * H * 64 + 64 <= usize::MAX,
    ensures
        <RowMajorLayout as LayoutGeometry<W, H>>::dims_ok(),
{
}

/// Every Morton-order board with 1 to 32768 columns and 1 to 32768 rows, of
/// any shape, is supported.
pub proof fn law_morton_sizes<const W: usize, const H: usize>()
    requires
        1 <= W <= 32768,
        1 <= H <= 32768,
    ensures
        <MortonLayout as LayoutGeometry<W, H>>::dims_ok(),
{
}

/// Converting a tile to its flat index and back gives the tile.
pub proof fn law_index_roundtrip<const W: usize, const H: usize, L: BitLayout<W, H>>(x: i32, y: i32)
    requires
        L::dims_ok(),
        in_board::<W, H>(x as int, y as int),
    ensures
        L::spec_tile(L::spec_index(x as int, y as int) as usize) == (x, y),
{
    L::lemma_geometry();
}

} // verus!
