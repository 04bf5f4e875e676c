use lexaos_bitboard::{BitLayout, MortonLayout, RowMajorLayout};

#[test]
fn test_morton_encoding_boundaries() {
    assert_eq!(MortonLayout::encode(0, 0), 0);
    assert_eq!(MortonLayout::encode(1, 0), 1);
    assert_eq!(MortonLayout::encode(0, 1), 2);
    assert_eq!(MortonLayout::encode(1, 1), 3);
    assert_eq!(MortonLayout::encode(255, 255), 65535);

    let (x, y) = MortonLayout::decode(65535);
    assert_eq!(x, 255);
    assert_eq!(y, 255);
}

#[test]
fn test_morton_coord_conversions() {
    assert_eq!(
        <MortonLayout as BitLayout<256, 256>>::coord_to_word_bit(0, 0),
        Some((0, 0))
    );
    assert_eq!(
        <MortonLayout as BitLayout<256, 256>>::coord_to_word_bit(255, 255),
        Some((1023, 63))
    );
    assert_eq!(
        <MortonLayout as BitLayout<256, 256>>::coord_to_word_bit(-1, 0),
        None
    );
    assert_eq!(
        <MortonLayout as BitLayout<256, 256>>::coord_to_word_bit(0, -1),
        None
    );
    assert_eq!(
        <MortonLayout as BitLayout<256, 256>>::coord_to_word_bit(256, 0),
        None
    );
    assert_eq!(
        <MortonLayout as BitLayout<256, 256>>::coord_to_word_bit(0, 256),
        None
    );
}

#[test]
fn test_row_major_coord_boundaries() {
    assert_eq!(
        <RowMajorLayout as BitLayout<256, 256>>::coord_to_word_bit(0, 0),
        Some((0, 0))
    );
    assert_eq!(
        <RowMajorLayout as BitLayout<256, 256>>::coord_to_word_bit(255, 255),
        Some((1023, 63))
    );
    assert_eq!(
        <RowMajorLayout as BitLayout<256, 256>>::coord_to_word_bit(-1, 0),
        None
    );
    assert_eq!(
        <RowMajorLayout as BitLayout<256, 256>>::coord_to_word_bit(0, -1),
        None
    );
    assert_eq!(
        <RowMajorLayout as BitLayout<256, 256>>::coord_to_word_bit(256, 0),
        None
    );
    assert_eq!(
        <RowMajorLayout as BitLayout<256, 256>>::coord_to_word_bit(0, 256),
        None
    );
}
