use pngframe::bytes::ByteCursor;
use pngframe::chunk::{append_bytes, get_chunk, has_chunk};
use pngframe::{Chunk, Data};

#[test]
fn crc_is_the_crc32_of_tag_and_payload() {
    assert_eq!(Chunk::crc("IEND", &[]), 0xAE42_6082);
    assert_eq!(Chunk::crc("IDAT", &[]), 0x35AF_061E);
    assert_eq!(Chunk::crc("tEXt", b"hello"), 0x5A80_F362);
    assert_eq!(Chunk::crc("bKGD", &[0x00, 0xFF]), 0x878F_CCBF);
    // The tag and the payload are one run of bytes to the checksum.
    assert_eq!(Chunk::crc("1234", b"56789"), 0xCBF4_3926);
    assert_eq!(Chunk::crc("", b"123456789"), 0xCBF4_3926);
    assert_eq!(Chunk::crc("", &[]), 0);
}

#[test]
fn from_data_fills_length_and_checksum() {
    let chunk = Chunk::from_data("bKGD", &[0x00, 0xFF]);
    assert_eq!(chunk.size, 2);
    assert_eq!(chunk.name, "bKGD");
    assert_eq!(chunk.data.data, vec![0x00, 0xFF]);
    assert_eq!(chunk.crc, 0x878F_CCBF);
    assert_eq!(chunk.data(), &vec![0x00, 0xFF]);
}

#[test]
fn from_parts_keeps_the_checksum_it_is_given() {
    let chunk = Chunk::from_parts("tEXt", b"hello", 7);
    assert_eq!(chunk.size, 5);
    assert_eq!(chunk.name, "tEXt");
    assert_eq!(chunk.data.data, b"hello".to_vec());
    assert_eq!(chunk.crc, 7);
    assert!(!chunk.check_crc());
    assert!(Chunk::from_parts("tEXt", b"hello", 0x5A80_F362).check_crc());
}

#[test]
fn from_data_with_empty_payload() {
    let chunk = Chunk::from_data("IEND", &[]);
    assert_eq!(chunk.size, 0);
    assert!(chunk.data().is_empty());
    assert_eq!(chunk.crc, 0xAE42_6082);
}

#[test]
fn from_data_is_deterministic() {
    let a = Chunk::from_data("tEXt", b"hello");
    let b = Chunk::from_data("tEXt", b"hello");
    assert_eq!(a.crc, b.crc);
    assert_eq!(a.to_bytes(), b.to_bytes());
    let c = Chunk::from_data("tEXt", b"hellp");
    assert_ne!(a.crc, c.crc);
}

#[test]
fn check_crc_detects_a_changed_payload() {
    let mut chunk = Chunk::from_data("tEXt", b"hello");
    assert!(chunk.check_crc());
    chunk.data.data[0] ^= 1;
    assert!(!chunk.check_crc());
    chunk.data.data[0] ^= 1;
    assert!(chunk.check_crc());
    chunk.crc ^= 1;
    assert!(!chunk.check_crc());
}

#[test]
fn check_crc_detects_a_changed_tag() {
    let mut chunk = Chunk::from_data("tEXt", b"hello");
    chunk.name = "zTXt".to_string();
    assert!(!chunk.check_crc());
}

#[test]
fn chunk_size_counts_length_and_tag_but_not_checksum() {
    assert_eq!(Chunk::from_data("IEND", &[]).chunk_size(), 8);
    assert_eq!(Chunk::from_data("tEXt", b"hello").chunk_size(), 13);
    assert_eq!(Chunk::from_data("tEXt", b"hello").to_bytes().len(), 13 + 4);
}

#[test]
fn to_bytes_is_length_tag_payload_checksum() {
    let chunk = Chunk::from_data("tEXt", b"hello");
    assert_eq!(
        chunk.to_bytes(),
        vec![
            0, 0, 0, 5, b't', b'E', b'X', b't', b'h', b'e', b'l', b'l', b'o', 0x5A, 0x80, 0xF3,
            0x62
        ]
    );
}

#[test]
fn to_bytes_writes_the_stored_fields_verbatim() {
    let chunk = Chunk {
        size: 0x0102_0304,
        name: "abcd".to_string(),
        data: Data { data: vec![9] },
        crc: 0x0A0B_0C0D,
    };
    assert_eq!(chunk.to_bytes(), vec![1, 2, 3, 4, b'a', b'b', b'c', b'd', 9, 0x0A, 0x0B, 0x0C, 0x0D]);
}

#[test]
fn append_bytes_adds_to_the_end() {
    let mut out = vec![1u8, 2];
    append_bytes(&mut out, &[3, 4, 5]);
    assert_eq!(out, vec![1, 2, 3, 4, 5]);
    append_bytes(&mut out, &[]);
    assert_eq!(out, vec![1, 2, 3, 4, 5]);
}

#[test]
fn get_chunk_reads_a_chunk_verbatim() {
    let mut wire = Chunk::from_data("tEXt", b"hello").to_bytes();
    wire.extend_from_slice(&[0xAA, 0xBB]);
    let mut cursor = ByteCursor::new(&wire);
    assert!(has_chunk(&cursor));
    let (chunk, read) = get_chunk(&mut cursor);
    assert_eq!(read, 17);
    assert_eq!(chunk.size, 5);
    assert_eq!(chunk.name, "tEXt");
    assert_eq!(chunk.data.data, b"hello".to_vec());
    assert_eq!(chunk.crc, 0x5A80_F362);
    assert_eq!(cursor.len(), 2);
    assert!(!has_chunk(&cursor));
}

#[test]
fn get_chunk_does_not_verify_the_checksum() {
    let mut wire = Chunk::from_data("tEXt", b"hello").to_bytes();
    let last = wire.len() - 1;
    wire[last] ^= 0xFF;
    let mut cursor = ByteCursor::new(&wire);
    let (chunk, _) = get_chunk(&mut cursor);
    assert_eq!(chunk.crc, 0x5A80_F362 ^ 0xFF);
    assert!(!chunk.check_crc());
    assert_eq!(chunk.to_bytes(), wire);
}

#[test]
fn has_chunk_needs_the_whole_frame() {
    let wire = Chunk::from_data("tEXt", b"hello").to_bytes();
    for cut in 0..wire.len() {
        assert!(!has_chunk(&ByteCursor::new(&wire[..cut])), "cut at {}", cut);
    }
    assert!(has_chunk(&ByteCursor::new(&wire)));
    // A length field that runs past the end.
    assert!(!has_chunk(&ByteCursor::new(&[0xFF, 0xFF, 0xFF, 0xFF, 0, 0, 0, 0, 0, 0, 0, 0])));
    // An empty payload is twelve bytes of framing.
    assert!(has_chunk(&ByteCursor::new(&[0, 0, 0, 0, 0, 0, 0, 0, 0, 0, 0, 0])));
}

#[test]
fn chunk_round_trips_through_its_wire_form() {
    let chunk = Chunk::from_data("zTXt", &[0u8, 1, 2, 254, 255]);
    let wire = chunk.to_bytes();
    let mut cursor = ByteCursor::new(&wire);
    let (back, read) = get_chunk(&mut cursor);
    assert_eq!(read, wire.len());
    assert_eq!(back.size, chunk.size);
    assert_eq!(back.name, chunk.name);
    assert_eq!(back.data.data, chunk.data.data);
    assert_eq!(back.crc, chunk.crc);
    assert!(back.check_crc());
}
