use lexaos_bitboard::{BitBoard, MortonLayout};

type TestBoard = BitBoard<256, 256>;

#[test]
fn test_smoke() {
    let mut bb = BitBoard::<256, 256>::default();
    bb.set(10, 10, true);
    assert!(bb.get(10, 10));
    assert_eq!(bb.count_ones(), 1);
}

#[test]
fn set_true_and_get() {
    let mut bb = TestBoard::default();
    bb.set(0, 0, true);
    assert!(bb.get(0, 0));
}

#[test]
fn set_false_clears_bit() {
    let mut bb = TestBoard::default();
    bb.set(5, 3, true);
    bb.set(5, 3, false);
    assert!(!bb.get(5, 3));
}

#[test]
fn get_unset_is_false() {
    let bb = TestBoard::default();
    assert!(!bb.get(10, 10));
}

#[test]
fn out_of_bounds_returns_false() {
    let bb = TestBoard::default();
    assert!(!bb.get(-1, 0));
    assert!(!bb.get(0, -1));
    assert!(!bb.get(TestBoard::width() as i32, 0));
    assert!(!bb.get(0, TestBoard::height() as i32));
}

#[test]
fn out_of_bounds_set_is_noop() {
    let mut bb = TestBoard::default();
    bb.set(-1, 0, true);
    bb.set(0, -1, true);
    assert!(!bb.get(0, 0));
}

#[test]
fn multiple_bits_independent() {
    let mut bb = TestBoard::default();
    bb.set(0, 0, true);
    bb.set(1, 0, true);
    bb.set(63, 0, true);
    bb.set(64, 0, true);
    assert!(bb.get(0, 0));
    assert!(bb.get(1, 0));
    assert!(bb.get(63, 0));
    assert!(bb.get(64, 0));
    assert!(!bb.get(2, 0));
}

#[test]
fn clear_resets_all_bits() {
    let mut bb = TestBoard::default();
    bb.set(0, 0, true);
    bb.set(100, 50, true);
    bb.clear();
    assert!(!bb.get(0, 0));
    assert!(!bb.get(100, 50));
}

#[test]
fn non_64_aligned_width() {
    type SmallBoard = BitBoard<100, 50>;
    let mut bb = SmallBoard::default();
    bb.set(99, 0, true);
    assert!(bb.get(99, 0));
    assert!(!bb.get(100, 0));
    bb.set(0, 49, true);
    assert!(bb.get(0, 49));
    assert!(!bb.get(0, 50));
}

#[test]
fn count_ones_basic() {
    let mut bb = TestBoard::default();
    assert_eq!(bb.count_ones(), 0);
    bb.set(0, 0, true);
    bb.set(100, 100, true);
    bb.set(255, 255, true);
    assert_eq!(bb.count_ones(), 3);
}

#[test]
fn morton_layout_basic() {
    type MortonBoard = BitBoard<256, 256, MortonLayout>;
    let mut bb = MortonBoard::default();
    bb.set(10, 20, true);
    assert!(bb.get(10, 20));
    assert!(!bb.get(20, 10));
    bb.set(10, 20, false);
    assert!(!bb.get(10, 20));

    // Fill a row
    for x in 0..100 {
        bb.set(x, 50, true);
    }
    assert!(bb.has_any_in_row(50, 0, 99));
    assert!(!bb.has_any_in_row(50, 100, 200));
    assert!(!bb.has_any_in_row(51, 0, 99));
}

#[test]
fn test_coordinate_utilities() {
    // tile_to_index / index_to_tile
    let idx = TestBoard::tile_to_index(10, 20).unwrap();
    assert_eq!(TestBoard::index_to_tile(idx), (10, 20));
}

#[test]
fn test_block_mask_consistency() {
    let mut bb = TestBoard::default();
    // Set in a sparse state
    bb.set(10, 10, true);
    bb.set(70, 10, true); // Word 1

    let word_idx_10 = TestBoard::idx(10, 10).unwrap().0;
    let word_idx_70 = TestBoard::idx(70, 10).unwrap().0;

    assert!(bb.block_mask()[word_idx_10 / 64] & (1 << (word_idx_10 % 64)) != 0);
    assert!(bb.block_mask()[word_idx_70 / 64] & (1 << (word_idx_70 % 64)) != 0);

    // Clear
    bb.set(10, 10, false);
    assert!(bb.block_mask()[word_idx_10 / 64] & (1 << (word_idx_10 % 64)) == 0);

    // Is it completely cleared?
    bb.clear();
    assert!(bb.block_mask().iter().all(|&w| w == 0));
}

#[test]
fn test_padding_safety() {
    // Board with a width that is not a multiple of 64
    type PaddingBoard = BitBoard<100, 2>;
    let mut bb = PaddingBoard::default();

    // Edge of valid range
    bb.set(99, 0, true);
    assert!(bb.get(99, 0));

    // Are bits in padding area (x=100..127) ignored?
    bb.set(100, 0, true);
    assert!(!bb.get(100, 0));

    // Does rebuild_block_mask ignore padding?
    bb.finalize();
    assert_eq!(bb.count_ones(), 1);
}

#[test]
fn test_large_shifts() {
    let mut bb = TestBoard::default();
    bb.set(100, 100, true);

    // Shift greater than or equal to the board size
    let sh_h = bb.shifted_horizontal(256);
    assert_eq!(sh_h.count_ones(), 0);

    let sh_v = bb.shifted_vertical(-300);
    assert_eq!(sh_v.count_ones(), 0);

    // Shift at the edge of the board
    let sh_edge = bb.shifted_horizontal(155); // 100 + 155 = 255
    assert!(sh_edge.get(255, 100));
    assert_eq!(sh_edge.count_ones(), 1);
}

#[test]
fn test_individual_clear_consistency() {
    let mut bb = TestBoard::default();
    let x = 10;
    let y = 10;
    let (word_idx, _) = TestBoard::idx(x, y).unwrap();

    bb.set(x, y, true);
    assert!(bb.block_mask()[word_idx / 64] & (1 << (word_idx % 64)) != 0);

    bb.set(x, y, false);
    assert!(
        bb.block_mask()[word_idx / 64] & (1 << (word_idx % 64)) == 0,
        "block_mask should be cleared when last bit in word is unset"
    );
    assert_eq!(bb.count_ones(), 0);
}

#[test]
fn test_equality_and_clear() {
    let mut bb1 = TestBoard::new();
    let bb2 = TestBoard::new();

    bb1.set(50, 50, true);
    bb1.clear();

    assert_eq!(bb1, bb2, "Cleared board should be equal to a new board");
    assert_eq!(bb1.block_mask(), bb2.block_mask());
}

#[test]
fn test_extreme_get_set() {
    let mut bb = TestBoard::default();
    // Should not panic
    bb.set(i32::MAX, i32::MAX, true);
    bb.set(i32::MIN, i32::MIN, true);
    assert!(!bb.get(i32::MAX, i32::MAX));
    assert!(!bb.get(i32::MIN, i32::MIN));
}
