use std::collections::HashSet;
use lexaos_bitboard::{BitBoard, MortonLayout, RowMajorLayout};

type TestBoard = BitBoard<256, 256>;

#[test]
fn test_bitwise_ops() {
    let mut a = TestBoard::default();
    let mut b = TestBoard::default();
    a.set(10, 10, true);
    a.set(20, 20, true);
    b.set(20, 20, true);
    b.set(30, 30, true);

    let and_res = &a & &b;
    assert!(!and_res.get(10, 10));
    assert!(and_res.get(20, 20));
    assert!(!and_res.get(30, 30));

    let or_res = &a | &b;
    assert!(or_res.get(10, 10));
    assert!(or_res.get(20, 20));
    assert!(or_res.get(30, 30));

    let xor_res = &a ^ &b;
    assert!(xor_res.get(10, 10));
    assert!(!xor_res.get(20, 20));
    assert!(xor_res.get(30, 30));
}

#[test]
fn test_ops_identity_cases() {
    let mut a = TestBoard::default();
    a.set(10, 10, true);

    // OR with empty
    let or_res = &a | &TestBoard::default();
    assert_eq!(or_res.count_ones(), 1);

    // AND with self
    let and_res = &a & &a;
    assert_eq!(and_res.count_ones(), 1);

    // XOR with self
    let xor_res = &a ^ &a;
    assert_eq!(xor_res.count_ones(), 0);
}

#[test]
fn test_ops_with_padding() {
    type Bb = BitBoard<100, 1>;
    let mut a = Bb::default();
    let mut b = Bb::default();
    a.set(99, 0, true);
    b.set(99, 0, true);

    let and_res = &a & &b;
    assert_eq!(and_res.count_ones(), 1);

    let not_a = !&a;
    assert_eq!(not_a.count_ones(), 99); // 100 - 1
    assert!(!not_a.get(99, 0));
}

#[test]
fn test_not_empty_is_full() {
    let empty = TestBoard::default();
    let full = !empty;
    assert_eq!(full.count_ones(), 256 * 256);
    assert!(full.get(0, 0));
    assert!(full.get(255, 255));
}

#[test]
fn test_ops_on_full_boards() {
    let mut a = TestBoard::default();
    let mut b = TestBoard::default();
    a = !a; // Full
    b.set(10, 10, true);

    let and_res = &a & &b;
    assert_eq!(and_res.count_ones(), 1);
    assert!(and_res.get(10, 10));

    let xor_res = &a ^ &b;
    assert_eq!(xor_res.count_ones(), (256 * 256) - 1);
    assert!(!xor_res.get(10, 10));
}

#[test]
fn test_not_ref_and_owned_match() {
    let mut a = TestBoard::default();
    a.set(0, 0, true);
    a.set(63, 0, true);
    a.set(64, 0, true);
    a.set(255, 255, true);

    let by_ref = !&a;
    let by_owned = !a.clone();
    assert_eq!(
        by_ref, by_owned,
        "In NOT, ref and owned versions should match"
    );
}

#[test]
fn test_not_with_padding_does_not_leak() {
    // Ensure padding does not leak in NOT for boards where W is not a multiple of 64
    type Bb = BitBoard<100, 4>;
    let bb = Bb::default();
    let inverted = !bb;
    // Should be all 1s logically, but padding bits remain 0
    assert_eq!(inverted.count_ones(), 100 * 4);
    // Access to out-of-bounds coordinates is false (verify it's not due to padding)
    for (x, _y) in inverted.iter_set_bits() {
        assert!(x < 100, "Padding bit leaked: x={x}");
    }
}

#[test]
fn test_and_result_block_mask_consistency() {
    // AND on disjoint sets should be empty, and block_mask must be completely 0
    let mut a = TestBoard::default();
    let mut b = TestBoard::default();
    a.set(10, 10, true);
    b.set(20, 20, true);
    let r = &a & &b;
    assert_eq!(r.count_ones(), 0);
    assert!(r.is_empty(), "Should be empty including block_mask");
}

#[test]
fn test_layout_consistency_morton_vs_row_major() {
    type Morton = BitBoard<128, 128, MortonLayout>;
    type RowMajor = BitBoard<128, 128, RowMajorLayout>;

    // When the same coordinates are set, they should be logically identical sets
    let coords = [(0, 0), (63, 0), (64, 0), (100, 100), (127, 127)];

    let mut m = Morton::default();
    let mut r = RowMajor::default();
    for &(x, y) in &coords {
        m.set(x, y, true);
        r.set(x, y, true);
    }

    // count_ones matches
    assert_eq!(m.count_ones(), r.count_ones());

    // get results match for each coordinate
    for &(x, y) in &coords {
        assert!(m.get(x, y));
        assert!(r.get(x, y));
    }

    // iter_set_bits sets match
    let m_set: HashSet<_> = m.iter_set_bits().collect();
    let r_set: HashSet<_> = r.iter_set_bits().collect();
    assert_eq!(m_set, r_set);
}
