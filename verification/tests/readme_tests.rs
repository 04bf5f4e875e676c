use lexaos_bitboard::{BitBoard, RowMajorLayout};

#[test]
fn quick_start_scenario() {
    let mut board = BitBoard::<256, 256>::default();
    board.set(10, 20, true);
    assert!(board.get(10, 20));

    let other = BitBoard::<256, 256>::mask_rect(5, 5, 20, 20);
    let intersection = &board & &other;
    let cells: Vec<(i32, i32)> = intersection.iter_set_bits().collect();
    assert_eq!(cells, vec![(10, 20)]);
}

#[test]
fn obstacle_expansion_scenario() {
    let mut obstacles = BitBoard::<128, 128, RowMajorLayout>::new();
    obstacles.set(64, 64, true);
    let expanded = obstacles.dilate(2);
    assert_eq!(expanded.count_ones(), 25);
    for (x, y) in expanded.iter_set_bits() {
        assert!((62..=66).contains(&x) && (62..=66).contains(&y));
    }
}
