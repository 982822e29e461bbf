use pngframe::bytes::{
    ascii_to_bytes, bytes_to_ascii, bytes_to_u32, same_text, take_bytes, u32_to_be, ByteCursor,
};

#[test]
fn word_is_written_most_significant_byte_first() {
    assert_eq!(u32_to_be(0), [0, 0, 0, 0]);
    assert_eq!(u32_to_be(13), [0, 0, 0, 13]);
    assert_eq!(u32_to_be(0x0102_0304), [1, 2, 3, 4]);
    assert_eq!(u32_to_be(0xAE42_6082), [0xAE, 0x42, 0x60, 0x82]);
    assert_eq!(u32_to_be(u32::MAX), [0xFF, 0xFF, 0xFF, 0xFF]);
}

#[test]
fn word_is_read_most_significant_byte_first() {
    assert_eq!(bytes_to_u32(&[]), 0);
    assert_eq!(bytes_to_u32(&[7]), 7);
    assert_eq!(bytes_to_u32(&[1, 2]), 0x0102);
    assert_eq!(bytes_to_u32(&[0, 0, 0, 13]), 13);
    assert_eq!(bytes_to_u32(&[1, 2, 3, 4]), 0x0102_0304);
    assert_eq!(bytes_to_u32(&[0xFF, 0xFF, 0xFF, 0xFF]), u32::MAX);
}

#[test]
fn word_of_more_than_four_bytes_keeps_the_last_four() {
    assert_eq!(bytes_to_u32(&[9, 1, 2, 3, 4]), 0x0102_0304);
    assert_eq!(bytes_to_u32(&[0xFF, 0xFF, 0, 0, 0, 1]), 1);
}

#[test]
fn word_round_trips() {
    for x in [0u32, 1, 255, 256, 65_535, 65_536, 0x1234_5678, u32::MAX] {
        assert_eq!(bytes_to_u32(&u32_to_be(x)), x);
    }
}

#[test]
fn text_is_written_one_byte_per_character() {
    assert_eq!(ascii_to_bytes("IHDR"), vec![0x49, 0x48, 0x44, 0x52]);
    assert_eq!(ascii_to_bytes(""), Vec::<u8>::new());
    // Only the low eight bits of a code point are kept.
    assert_eq!(ascii_to_bytes("\u{149}"), vec![0x49]);
    assert_eq!(ascii_to_bytes("\u{e9}"), vec![0xE9]);
}

#[test]
fn text_is_read_one_character_per_byte() {
    assert_eq!(bytes_to_ascii(&[0x49, 0x45, 0x4E, 0x44]), "IEND");
    assert_eq!(bytes_to_ascii(&[]), "");
    assert_eq!(bytes_to_ascii(&[0xE9]), "\u{e9}");
}

#[test]
fn text_round_trips_through_bytes() {
    let bytes: Vec<u8> = (0u8..=255).collect();
    assert_eq!(ascii_to_bytes(&bytes_to_ascii(&bytes)), bytes);
}

#[test]
fn same_text_compares_characters() {
    assert!(same_text("IHDR", "IHDR"));
    assert!(same_text("", ""));
    assert!(!same_text("IHDR", "IDAT"));
    assert!(!same_text("IHDR", "IHD"));
    assert!(!same_text("IHDR", "ihdr"));
}

#[test]
fn cursor_hands_out_bytes_in_order() {
    let bytes = [1u8, 2, 3, 4, 5, 6, 7];
    let mut cursor = ByteCursor::new(&bytes);
    assert_eq!(cursor.len(), 7);
    assert_eq!(take_bytes(&mut cursor, 3), vec![1, 2, 3]);
    assert_eq!(cursor.len(), 4);
    assert_eq!(take_bytes(&mut cursor, 0), Vec::<u8>::new());
    assert_eq!(cursor.len(), 4);
    assert_eq!(take_bytes(&mut cursor, 4), vec![4, 5, 6, 7]);
    assert_eq!(cursor.len(), 0);
}

#[test]
fn cursor_fork_leaves_the_cursor_in_place() {
    let bytes = [1u8, 2, 3, 4];
    let mut cursor = ByteCursor::new(&bytes);
    take_bytes(&mut cursor, 1);
    let mut probe = cursor.fork();
    assert_eq!(take_bytes(&mut probe, 2), vec![2, 3]);
    assert_eq!(probe.len(), 1);
    assert_eq!(cursor.len(), 3);
    assert_eq!(take_bytes(&mut cursor, 3), vec![2, 3, 4]);
}
