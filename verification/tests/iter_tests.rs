use std::collections::HashSet;
use lexaos_bitboard::BitBoard;

type TestBoard = BitBoard<256, 256>;

#[test]
fn test_iter_set_bits() {
    let mut bb = TestBoard::default();
    bb.set(10, 5, true);
    bb.set(70, 10, true); // Word boundary (64)
    bb.set(100, 100, true);

    let mut coords: Vec<(i32, i32)> = bb.iter_set_bits().collect();
    coords.sort_by_key(|&(x, y)| (y, x));

    assert_eq!(coords.len(), 3);
    assert_eq!(coords[0], (10, 5));
    assert_eq!(coords[1], (70, 10));
    assert_eq!(coords[2], (100, 100));

    // has_any test
    assert!(bb.has_any());
    bb.clear();
    assert!(!bb.has_any());
}

#[test]
fn test_padding_leak() {
    type SmallBoard = BitBoard<10, 2>;
    let mut bb = SmallBoard::default();
    bb = !bb;

    let mut count = 0;
    for (x, y) in bb.iter_set_bits() {
        assert!((0..10).contains(&x), "Invalid x: {}", x);
        assert!((0..2).contains(&y), "Invalid y: {}", y);
        count += 1;
    }
    assert_eq!(count, 20, "Should only visit 20 bits");

    let mut intersect_count = 0;
    bb.for_each_overlap(&bb, |x, y, _idx| {
        assert!((0..10).contains(&x), "Invalid x in intersection: {}", x);
        assert!((0..2).contains(&y), "Invalid y in intersection: {}", y);
        intersect_count += 1;
    });
    assert_eq!(intersect_count, 20);
}

#[test]
fn test_for_each_intersection_in_range() {
    let mut bb1 = TestBoard::default();
    let mut bb2 = TestBoard::default();
    bb1.set(100, 100, true);
    bb2.set(100, 100, true);
    bb1.set(200, 100, true);
    bb2.set(200, 100, true);
    bb1.set(100, 200, true);
    bb2.set(100, 200, true);

    let mut hits = Vec::new();
    bb1.for_each_overlap_in(&bb2, (90, 90), (110, 110), |x, y, _| {
        hits.push((x, y));
    });

    assert_eq!(hits.len(), 1);
    assert_eq!(hits[0], (100, 100));
}

#[test]
fn test_iter_set_bits_empty_board_returns_none() {
    let bb = TestBoard::default();
    let mut iter = bb.iter_set_bits();
    assert_eq!(iter.next(), None);
}

#[test]
fn test_iter_set_bits_full_board_visits_all_unique() {
    type SmallBoard = BitBoard<32, 32>;
    let mut bb = SmallBoard::default();
    bb = !bb;
    let coords: Vec<_> = bb.iter_set_bits().collect();
    assert_eq!(coords.len(), 32 * 32);
    // Verify all coordinates are listed uniquely
    let set: HashSet<_> = coords.iter().copied().collect();
    assert_eq!(set.len(), coords.len());
}

#[test]
fn test_iter_set_bits_word_boundary_continuity() {
    let mut bb = TestBoard::default();
    // Set continuous positions across a word boundary
    bb.set(63, 0, true);
    bb.set(64, 0, true);
    let coords: Vec<_> = bb.iter_set_bits().collect();
    assert!(coords.contains(&(63, 0)));
    assert!(coords.contains(&(64, 0)));
    assert_eq!(coords.len(), 2);
}

#[test]
fn test_iter_set_bits_after_clear_returns_none() {
    let mut bb = TestBoard::default();
    bb.set(10, 10, true);
    bb.set(50, 50, true);
    bb.clear();
    let mut iter = bb.iter_set_bits();
    assert_eq!(iter.next(), None);
}
