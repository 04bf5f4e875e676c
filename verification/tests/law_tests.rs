use lexaos_bitboard::{BitBoard, BitBoardIter, BitLayout, MortonLayout, RowMajorLayout};

type Board = BitBoard<256, 256>;
type Small = BitBoard<8, 8>;
type MortonBoard = BitBoard<100, 40, MortonLayout>;

#[test]
fn get_after_set_reads_written_value() {
    let mut bb = Board::default();
    bb.set(3, 4, true);
    assert!(bb.get(3, 4));
    assert!(!bb.get(4, 3));
    bb.set(3, 4, false);
    assert!(!bb.get(3, 4));
    bb.set(256, 4, true);
    assert!(!bb.get(256, 4));
    assert!(bb.is_empty());
}

#[test]
fn last_set_wins() {
    let mut bb = MortonBoard::default();
    bb.set(7, 9, true);
    bb.set(7, 9, false);
    bb.set(7, 9, true);
    assert!(bb.get(7, 9));
    assert_eq!(bb.count_ones(), 1);
}

#[test]
fn count_after_repeated_set() {
    let mut bb = Board::default();
    bb.set(1, 1, true);
    bb.set(1, 1, true);
    assert_eq!(bb.count_ones(), 1);
    bb.set(2, 1, false);
    assert_eq!(bb.count_ones(), 1);
    bb.set(1, 1, false);
    assert_eq!(bb.count_ones(), 0);
}

#[test]
fn count_uses_population_of_words() {
    // Bits 0, 1 and 3 of the first word: three cells, word value 11.
    let mut bb = Board::default();
    bb.set(0, 0, true);
    bb.set(1, 0, true);
    bb.set(3, 0, true);
    assert_eq!(bb.count_ones(), 3);
}

#[test]
fn same_cells_compare_equal() {
    let mut a = Board::default();
    let mut b = Board::default();
    a.set(5, 5, true);
    a.set(200, 7, true);
    b.set(200, 7, true);
    b.set(5, 5, true);
    b.set(9, 9, true);
    b.set(9, 9, false);
    assert_eq!(a, b);
}

#[test]
fn shift_by_zero_on_morton_board() {
    let mut bb = MortonBoard::default();
    bb.set(99, 39, true);
    bb.set(0, 0, true);
    assert_eq!(bb.shifted_horizontal(0), bb);
    assert_eq!(bb.shifted_vertical(0), bb);
}

#[test]
fn shift_off_board_empties() {
    let mut bb = MortonBoard::default();
    bb.set(50, 20, true);
    assert!(bb.shifted_horizontal(100).is_empty());
    assert!(bb.shifted_vertical(-40).is_empty());
    assert_eq!(bb.shifted_vertical(-20).count_ones(), 1);
    assert!(bb.shifted_vertical(-20).get(50, 0));
}

#[test]
fn shift_back_keeps_cells_that_stayed() {
    let mut bb = Board::default();
    bb.set(250, 3, true);
    bb.set(10, 3, true);
    let back = bb.shifted_horizontal(10).shifted_horizontal(-10);
    assert!(back.get(10, 3));
    assert!(!back.get(250, 3));
    assert_eq!(back.count_ones(), 1);
}

#[test]
fn double_complement_is_identity() {
    let mut bb = MortonBoard::default();
    bb.set(1, 2, true);
    bb.set(99, 39, true);
    let twice = !&(!&bb);
    assert_eq!(twice, bb);
}

#[test]
fn complement_count_on_morton_board() {
    let mut bb = MortonBoard::default();
    bb.set(10, 10, true);
    let inv = !bb;
    assert_eq!(inv.count_ones(), 100 * 40 - 1);
    for (x, y) in inv.iter_set_bits() {
        assert!(x < 100 && y < 40);
    }
}

#[test]
fn dilate_contains_and_erode_within() {
    let mut bb = Board::default();
    bb.set_rect(20, 20, 4, 3, true);
    bb.set(40, 40, true);
    let d = bb.dilate(2);
    let e = bb.erode(1);
    assert_eq!((&d & &bb), bb);
    assert_eq!((&e & &bb), e);
    assert_eq!(e.count_ones(), 2);
    assert_eq!(d.count_ones(), 8 * 7 + 25);
}

#[test]
fn dilate_small_board_fills() {
    let mut bb = Small::default();
    bb.set(0, 7, true);
    assert_eq!(bb.dilate(7).count_ones(), 64);
    assert_eq!(bb.dilate(6).count_ones(), 49);
}

#[test]
fn erode_full_board() {
    let full = !Small::default();
    assert!(full.erode(4).is_empty());
    let e3 = full.erode(3);
    assert_eq!(e3.count_ones(), 4);
    assert!(e3.get(3, 3) && e3.get(4, 4));
}

#[test]
fn closing_a_rectangle_gives_it_back() {
    let rect = Board::mask_rect(10, 12, 3, 2);
    assert_eq!(rect.dilate(2).erode(2), rect);
    let corner = Board::mask_rect(0, 0, 1, 1);
    assert!(corner.dilate(1).erode(1).is_empty());
}

#[test]
fn morphology_on_morton_board() {
    let mut bb = MortonBoard::default();
    bb.set(50, 20, true);
    let d = bb.dilate(1);
    assert_eq!(d.count_ones(), 9);
    assert_eq!(d.erode(1), bb);
}

#[test]
fn tile_index_roundtrip_both_layouts() {
    let i = Board::tile_to_index(17, 200).unwrap();
    assert_eq!(i, 200 * 256 + 17);
    assert_eq!(Board::index_to_tile(i), (17, 200));
    let j = MortonBoard::tile_to_index(99, 39).unwrap();
    assert_eq!(MortonBoard::index_to_tile(j), (99, 39));
    assert_eq!(Board::tile_to_index(256, 0), None);
    assert_eq!(MortonBoard::tile_to_index(-1, 0), None);
}

#[test]
fn get_by_index_reads_the_tile() {
    let mut bb = Board::default();
    bb.set(17, 200, true);
    assert!(bb.get_by_index(200 * 256 + 17));
    assert!(!bb.get_by_index(200 * 256 + 18));
}

#[test]
fn morton_encode_decode_roundtrip() {
    let code = MortonLayout::encode(12345, 54321);
    assert_eq!(MortonLayout::decode(code), (12345, 54321));
    assert_eq!(MortonLayout::encode(2, 3), 14);
    assert_eq!(MortonLayout::decode(14), (2, 3));
}

#[test]
fn plus_and_diamond_exact_counts() {
    let mut p = Board::default();
    p.set_plus(100, 100, 2, true);
    assert_eq!(p.count_ones(), 9);
    let mut d = Board::default();
    d.set_diamond(100, 100, 2, true);
    assert_eq!(d.count_ones(), 13);
    let mut n = Board::default();
    n.set_plus(5, 5, -1, true);
    n.set_diamond(5, 5, -1, true);
    assert!(n.is_empty());
    let mut edge = Board::default();
    edge.set_diamond(0, 0, 2, true);
    assert_eq!(edge.count_ones(), 6);
    edge.set_diamond(0, 0, 1, false);
    assert_eq!(edge.count_ones(), 3);
}

#[test]
fn rect_and_row_clear() {
    let mut bb = MortonBoard::default();
    bb.set_rect(0, 0, 100, 40, true);
    assert_eq!(bb.count_ones(), 4000);
    bb.set_rect(10, 10, 20, 5, false);
    assert_eq!(bb.count_ones(), 4000 - 100);
    bb.set_row(0, 0, 99, false);
    assert_eq!(bb.count_ones(), 4000 - 200);
    assert!(!bb.has_any_in_row(0, -5, 200));
    assert!(bb.has_any_in_row(1, 99, 99));
}

#[test]
fn area_queries_with_negative_coordinates() {
    let mut bb = Board::default();
    bb.set(0, 0, true);
    assert!(bb.is_area_any_set(-2, -2, 2));
    assert!(!bb.is_area_any_set(-3, -3, 2));
    assert!(!bb.is_area_all_set(-1, -1, 1));
}

#[test]
fn fit_rect_zero_size_counts_as_one() {
    let mut bb = Small::default();
    bb.set_rect(1, 1, 3, 3, true);
    assert_eq!(bb.fit_rect_anchor(0, 0), bb);
    assert_eq!(bb.fit_rect_anchor(3, 0).count_ones(), 3);
    assert_eq!(bb.fit_rect_anchor(3, 3).count_ones(), 1);
    assert!(bb.fit_rect_anchor(3, 3).get(1, 1));
}

#[test]
fn flood_expand_grows_visited() {
    let passable = !Small::default();
    let mut front = Small::default();
    front.set(3, 3, true);
    let mut visited = front.clone();
    let next = front.flood_expand(&passable, &mut visited);
    assert_eq!(next.count_ones(), 4);
    assert_eq!(visited.count_ones(), 5);
    let mut out = Small::default();
    next.flood_expand_into(&passable, &mut visited, &mut out);
    assert_eq!(out.count_ones(), 8);
    assert_eq!(visited.count_ones(), 13);
    assert!(!out.get(3, 3));
}

#[test]
fn iteration_is_in_storage_order() {
    let mut bb = Board::default();
    bb.set(200, 1, true);
    bb.set(5, 2, true);
    bb.set(3, 1, true);
    let coords: Vec<(i32, i32)> = bb.iter_set_bits().collect();
    assert_eq!(coords, vec![(3, 1), (200, 1), (5, 2)]);
    let mut it = BitBoardIter::new(&bb);
    assert_eq!(it.next(), Some((3, 1)));
    assert_eq!(it.next(), Some((200, 1)));
    assert_eq!(it.next(), Some((5, 2)));
    assert_eq!(it.next(), None);
    assert_eq!(it.next(), None);
}

#[test]
fn callbacks_get_positions_and_indices() {
    let mut bb = Board::default();
    bb.set(10, 5, true);
    let mut seen = Vec::new();
    bb.for_each_bit(|x, y, i| seen.push((x, y, i)));
    assert_eq!(seen, vec![(10, 5, 5 * 256 + 10)]);
    let mut both = Vec::new();
    bb.for_each_overlap(&bb, |x, y, i| both.push((x, y, i)));
    assert_eq!(both, vec![(10, 5, 5 * 256 + 10)]);
    let mut none = Vec::new();
    bb.for_each_overlap_in(&bb, (0, 0), (9, 9), |x, y, i| none.push((x, y, i)));
    assert!(none.is_empty());
}

#[test]
fn assign_and_owned_operators() {
    let mut a = MortonBoard::default();
    let mut b = MortonBoard::default();
    a.set(1, 1, true);
    a.set(2, 2, true);
    b.set(2, 2, true);
    b.set(3, 3, true);
    let mut x = a.clone();
    x ^= &b;
    assert_eq!(x.count_ones(), 2);
    assert!(x.get(1, 1) && x.get(3, 3));
    let mut y = a.clone();
    y &= &b;
    assert_eq!(y.count_ones(), 1);
    let mut z = a.clone();
    z |= &b;
    assert_eq!(z.count_ones(), 3);
    assert_eq!(a.clone() & b.clone(), y);
    assert_eq!(a.clone() | b.clone(), z);
    assert_eq!(a ^ b, x);
}

#[test]
fn block_mask_marks_nonzero_words() {
    let mut bb = BitBoard::<100, 3>::default();
    bb.set(99, 2, true);
    let (w, _) = BitBoard::<100, 3>::idx(99, 2).unwrap();
    assert_eq!(w, 5);
    assert_eq!(bb.block_mask()[0], 1u64 << 5);
    bb.rebuild_block_mask();
    assert_eq!(bb.block_mask()[0], 1u64 << 5);
    assert_eq!(BitBoard::<100, 3>::total_words(), 6);
    assert_eq!(BitBoard::<100, 3>::block_words(), 1);
}

#[test]
fn overlap_list_in_filters_the_range() {
    let mut a = Board::default();
    let mut b = Board::default();
    for &(x, y) in &[(100, 100), (200, 100), (100, 200), (95, 105)] {
        a.set(x, y, true);
        b.set(x, y, true);
    }
    b.set(100, 100, false);
    let hits = a.overlap_list_in(&b, (90, 90), (110, 110));
    assert_eq!(hits, vec![(95, 105, 105 * 256 + 95)]);
}

#[test]
fn morton_extreme_shifts_leave_nothing() {
    let mut bb = MortonBoard::default();
    bb.set(50, 20, true);
    bb.set(99, 39, true);
    assert!(bb.shifted_horizontal(i32::MAX).is_empty());
    assert!(bb.shifted_horizontal(i32::MIN).is_empty());
    assert!(bb.shifted_vertical(i32::MAX).is_empty());
    assert_eq!((!bb.shifted_horizontal(1)).count_ones(), 100 * 40 - 1);
}

#[test]
fn layout_shift_replaces_what_the_destination_held() {
    let src: Vec<u64> = vec![1, 0, 0, 0, 0, 0, 0, 0];
    let block: Vec<u64> = vec![1];
    let mut dst: Vec<u64> = vec![!0u64; 8];
    let mut dst_block: Vec<u64> = vec![!0u64];
    <RowMajorLayout as BitLayout<8, 8>>::shift_horizontal(&src, &block, &mut dst, &mut dst_block, 1);
    assert_eq!(dst, vec![2, 0, 0, 0, 0, 0, 0, 0]);
    assert_eq!(dst_block, vec![1]);
    let mut dst2: Vec<u64> = vec![!0u64; 8];
    let mut dst2_block: Vec<u64> = vec![!0u64];
    <RowMajorLayout as BitLayout<8, 8>>::shift_vertical(&src, &block, &mut dst2, &mut dst2_block, 1);
    assert_eq!(dst2, vec![0, 1, 0, 0, 0, 0, 0, 0]);
    assert_eq!(dst2_block, vec![2]);

    let msrc: Vec<u64> = vec![1];
    let mblock: Vec<u64> = vec![1];
    let mut mdst: Vec<u64> = vec![!0u64];
    let mut mdst_block: Vec<u64> = vec![!0u64];
    <MortonLayout as BitLayout<8, 8>>::shift_horizontal(&msrc, &mblock, &mut mdst, &mut mdst_block, 1);
    assert_eq!(mdst, vec![2]);
    assert_eq!(mdst_block, vec![1]);
}

#[test]
fn repeated_next_on_morton_board() {
    let mut bb = MortonBoard::default();
    bb.set(3, 0, true);
    bb.set(0, 1, true);
    bb.set(99, 39, true);
    let mut it = BitBoardIter::new(&bb);
    let mut seen = Vec::new();
    while let Some(c) = it.next() {
        seen.push(c);
    }
    assert_eq!(it.next(), None);
    // Morton order: (0, 1) has code 2, (3, 0) code 5.
    assert_eq!(seen, vec![(0, 1), (3, 0), (99, 39)]);
    assert_eq!(seen.len(), bb.count_ones());
}

#[test]
fn morton_bit_level_codes() {
    assert_eq!(MortonLayout::interleave(0b1011), 0b1000101);
    assert_eq!(MortonLayout::deinterleave(0b1000101), 0b1011);
    assert_eq!(MortonLayout::encode(0xffff, 0), 0x5555_5555);
    assert_eq!(MortonLayout::encode(0, 0xffff), 0xaaaa_aaaa);
    assert_eq!(MortonLayout::decode(0xaaaa_aaaa), (0, 0xffff));
}
