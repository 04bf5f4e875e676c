use lexaos_bitboard::BitBoard;

type TestBoard = BitBoard<256, 256>;

#[test]
fn test_basic_queries() {
    let mut bb = TestBoard::default();
    assert!(bb.is_empty());
    assert!(!bb.has_any());
    assert_eq!(bb.count_ones(), 0);

    bb.set(10, 10, true);
    assert!(!bb.is_empty());
    assert!(bb.has_any());
    assert_eq!(bb.count_ones(), 1);
}

#[test]
fn test_for_each_bit() {
    let mut bb = TestBoard::default();
    bb.set(10, 10, true);
    bb.set(20, 20, true);

    let mut found = Vec::new();
    bb.for_each_bit(|x, y, _| {
        found.push((x, y));
    });
    found.sort_by_key(|&(x, y)| (y, x));

    assert_eq!(found.len(), 2);
    assert_eq!(found[0], (10, 10));
    assert_eq!(found[1], (20, 20));
}

#[test]
fn test_overlap_queries() {
    let mut a = TestBoard::default();
    let mut b = TestBoard::default();
    a.set(10, 10, true);
    a.set(20, 20, true);
    b.set(20, 20, true);
    b.set(30, 30, true);

    let mut count = 0;
    a.for_each_overlap(&b, |x, y, _| {
        assert_eq!(x, 20);
        assert_eq!(y, 20);
        count += 1;
    });
    assert_eq!(count, 1);
}

#[test]
fn test_area_queries() {
    let mut bb = TestBoard::default();
    // Fill a 3x3 (radius=1) centered at (10, 10)
    for y in 9..=11 {
        for x in 9..=11 {
            bb.set(x, y, true);
        }
    }

    // Normal case: all set
    assert!(bb.is_area_all_set(10, 10, 1)); // 3x3
    assert!(bb.is_area_all_set(10, 10, 0)); // 1x1 center
    assert!(bb.is_area_any_set(10, 10, 2)); // Wider area

    // Partially missing case
    bb.set(9, 9, false);
    assert!(!bb.is_area_all_set(10, 10, 1));
    assert!(bb.is_area_any_set(10, 10, 1));

    // Completely empty range
    assert!(!bb.is_area_any_set(100, 100, 10));

    // Boundary condition: map edge
    let mut edge_bb = TestBoard::default();
    edge_bb.set(0, 0, true);
    assert!(edge_bb.is_area_all_set(0, 0, 0));
    // radius=1 includes (-1, -1), etc., which are out-of-bounds.
    // Since the current implementation treats out-of-bounds as 0 (false), all_set returns false.
    assert!(!edge_bb.is_area_all_set(0, 0, 1));
    assert!(edge_bb.is_area_any_set(0, 0, 1));
}
