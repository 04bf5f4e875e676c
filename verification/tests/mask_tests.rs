use lexaos_bitboard::BitBoard;

type TestBoard = BitBoard<256, 256>;

#[test]
fn test_mask_rect() {
    // Rect spanning 64 tiles (x=60, w=10)
    // word 0 bits 60-63 and word 1 bits 0-5 should be 1
    let mask = TestBoard::mask_rect(60, 0, 10, 1);

    assert!(mask.get(60, 0));
    assert!(mask.get(63, 0));
    assert!(mask.get(64, 0));
    assert!(mask.get(69, 0));
    assert!(!mask.get(59, 0));
    assert!(!mask.get(70, 0));
    assert!(!mask.get(65, 1)); // Another row

    // Mask operation simulation
    let mut data = TestBoard::default();
    data.set(65, 0, true);
    data.set(75, 0, true);
    let result: BitBoard<256, 256> = &data & &mask;
    assert!(result.get(65, 0)); // Maintained as it is within the mask
    assert!(!result.get(75, 0)); // Erased as it is outside the mask
}

#[test]
fn test_mask_rect_out_of_bounds() {
    // Partially outside
    let mask = TestBoard::mask_rect(-5, -5, 10, 10);
    assert!(mask.get(0, 0));
    assert!(mask.get(4, 4));
    assert!(!mask.get(5, 5));
    assert_eq!(mask.count_ones(), 25); // 5x5 visible part

    // Completely outside
    let mask_out = TestBoard::mask_rect(300, 300, 10, 10);
    assert_eq!(mask_out.count_ones(), 0);
}

#[test]
fn test_mask_rect_zero_dimensions() {
    // Rect with width 0 or height 0 should be an empty mask
    let m_zero_w = TestBoard::mask_rect(10, 10, 0, 5);
    assert_eq!(m_zero_w.count_ones(), 0);

    let m_zero_h = TestBoard::mask_rect(10, 10, 5, 0);
    assert_eq!(m_zero_h.count_ones(), 0);
}
