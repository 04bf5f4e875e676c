use lexaos_bitboard::BitBoard;

#[test]
fn test_flood_expand_basic() {
    type Bb = BitBoard<16, 16>;
    let mut passable = Bb::default();
    for y in 0..5 {
        for x in 0..5 {
            passable.set(x, y, true);
        }
    }

    let mut frontier = Bb::default();
    frontier.set(2, 2, true);
    let mut visited = frontier.clone();

    // 1-step expansion: 4 adjacent tiles
    let next = frontier.flood_expand(&passable, &mut visited);
    assert!(next.get(1, 2)); // West
    assert!(next.get(3, 2)); // East
    assert!(next.get(2, 1)); // North
    assert!(next.get(2, 3)); // South
    assert!(!next.get(2, 2)); // Already visited
    assert_eq!(next.count_ones(), 4);
}

#[test]
fn test_flood_expand_respects_walls() {
    type Bb = BitBoard<8, 8>;
    let mut passable = Bb::default();
    // L-shaped passage
    passable.set(0, 0, true);
    passable.set(1, 0, true);
    passable.set(1, 1, true);

    let mut frontier = Bb::default();
    frontier.set(0, 0, true);
    let mut visited = frontier.clone();

    let next = frontier.flood_expand(&passable, &mut visited);
    assert!(next.get(1, 0)); // Expanded towards passage
    assert!(!next.get(0, 1)); // Wall, so not expanded
    assert_eq!(next.count_ones(), 1);
}

#[test]
fn test_flood_expand_no_padding_leak() {
    // Ensure flood_expand does not leak padding bits on boards where W is not a multiple of 64
    type Bb = BitBoard<100, 10>;
    let mut passable = Bb::default();
    for y in 0..10 {
        for x in 0..100 {
            passable.set(x, y, true);
        }
    }

    let mut frontier = Bb::default();
    frontier.set(99, 5, true); // Right edge
    let mut visited = frontier.clone();

    let next = frontier.flood_expand(&passable, &mut visited);
    for &(x, _y) in &next.iter_set_bits().collect::<Vec<_>>() {
        assert!(x < 100, "Padding bit leaked in expand: x={x}");
    }
}

#[test]
fn test_fit_rect_anchor_2x2() {
    type Bb = BitBoard<8, 8>;
    let mut passable = Bb::default();
    for y in 0..4 {
        for x in 0..4 {
            passable.set(x, y, true);
        }
    }

    let result = passable.fit_rect_anchor(2, 2);

    // Positions where top-left of a 2x2 unit can be placed
    assert!(result.get(0, 0));
    assert!(result.get(1, 1));
    assert!(result.get(2, 2)); // Bottom-right is (3,3), within passable range
    assert!(!result.get(3, 3)); // Bottom-right is (4,4), not passable
    assert!(!result.get(4, 0));
    assert!(!result.get(0, 4));
}

#[test]
fn test_flood_expand_at_edges() {
    type Bb = BitBoard<8, 8>;
    let mut passable = Bb::default();
    for y in 0..8 {
        for x in 0..8 {
            passable.set(x, y, true);
        }
    } // All tiles passable

    let mut frontier = Bb::default();
    frontier.set(0, 0, true); // Top-left corner
    let mut visited = frontier.clone();

    let next = frontier.flood_expand(&passable, &mut visited);
    // Not expanded up (-y) or left (-x); only expanded right and down
    assert_eq!(next.count_ones(), 2);
    assert!(next.get(1, 0));
    assert!(next.get(0, 1));
}

#[test]
fn test_fit_rect_anchor_oversize() {
    type Bb = BitBoard<8, 8>;
    let mut passable = Bb::default();
    for y in 0..8 {
        for x in 0..8 {
            passable.set(x, y, true);
        }
    }

    // Requirements larger than the board size should return an empty mask
    let result = passable.fit_rect_anchor(10, 10);
    assert!(result.is_empty());
}
