use dmss_log::packet::{
    dec_digits, dec_digits_padded, decode_and_render, hex_bytes, le16, le32, parse_packet,
    split_byte, strip_trailing_newlines, Packet,
};

/// A frame with the fixed 20-byte header (magic, zero at offset 2, timestamp
/// at offset 6, line number at offset 12) followed by the given trailer.
fn build_frame(timestamp: u32, line: u16, trailer: &[u8]) -> Vec<u8> {
    let mut f = vec![0u8; 20];
    f[0] = 0x79;
    f[2] = 0x00;
    f[6..10].copy_from_slice(&timestamp.to_le_bytes());
    f[12..14].copy_from_slice(&line.to_le_bytes());
    f.extend_from_slice(trailer);
    f
}

#[test]
fn accepts_valid_frame() {
    let frame = build_frame(1, 42, b"hello\n\0main.c\0");
    match parse_packet(&frame) {
        Packet::Log(rec) => {
            assert_eq!(rec.timestamp, 1);
            assert_eq!(rec.line_number, 42);
            assert_eq!(rec.message, b"hello".to_vec());
            assert_eq!(rec.source_file, b"main.c".to_vec());
        }
        Packet::Unknown(_) => panic!("valid frame classified as unknown"),
    }
}

#[test]
fn renders_valid_frame() {
    let frame = build_frame(1, 42, b"hello\n\0main.c\0");
    let line = decode_and_render(&frame);
    assert_eq!(line, b"         1: hello (main.c:42)\n".to_vec());
}

#[test]
fn bytes_after_second_separator_are_discarded() {
    let frame = build_frame(7, 9, b"msg\0file.c\0extra junk");
    match parse_packet(&frame) {
        Packet::Log(rec) => {
            assert_eq!(rec.message, b"msg".to_vec());
            assert_eq!(rec.source_file, b"file.c".to_vec());
        }
        Packet::Unknown(_) => panic!("valid frame classified as unknown"),
    }
}

#[test]
fn missing_separators_leave_following_fields_empty() {
    // No separator at all: the whole trailer is the message, the file empty.
    let frame = build_frame(3, 4, b"no separator here");
    match parse_packet(&frame) {
        Packet::Log(rec) => {
            assert_eq!(rec.message, b"no separator here".to_vec());
            assert_eq!(rec.source_file, Vec::<u8>::new());
        }
        Packet::Unknown(_) => panic!("valid frame classified as unknown"),
    }
}

#[test]
fn rejects_short_frame() {
    // 23 bytes: one short of the minimum.
    let mut frame = build_frame(1, 1, b"abc");
    assert_eq!(frame.len(), 23);
    match parse_packet(&frame) {
        Packet::Unknown(b) => assert_eq!(b, frame),
        Packet::Log(_) => panic!("short frame accepted"),
    }
    frame.push(0x00);
    assert!(matches!(parse_packet(&frame), Packet::Log(_)));
}

#[test]
fn rejects_wrong_magic() {
    let mut frame = build_frame(1, 1, b"abcd");
    frame[0] = 0x78;
    match parse_packet(&frame) {
        Packet::Unknown(b) => assert_eq!(b, frame),
        Packet::Log(_) => panic!("frame with wrong first byte accepted"),
    }
}

#[test]
fn rejects_wrong_offset_two() {
    let mut frame = build_frame(1, 1, b"abcd");
    frame[2] = 0x01;
    match parse_packet(&frame) {
        Packet::Unknown(b) => assert_eq!(b, frame),
        Packet::Log(_) => panic!("frame with wrong byte at offset 2 accepted"),
    }
}

#[test]
fn renders_unknown_frame_as_hex_dump() {
    let frame = vec![0x12, 0xab, 0x00];
    let line = decode_and_render(&frame);
    assert_eq!(line, b"[unknown packet: 12ab00]\n".to_vec());
}

#[test]
fn le32_le16_exact_values() {
    assert_eq!(le32(&[0x78, 0x56, 0x34, 0x12]), 0x12345678);
    assert_eq!(le32(&[0xff, 0xff, 0xff, 0xff]), u32::MAX);
    assert_eq!(le32(&[0x01, 0x00, 0x00, 0x00]), 1);
    assert_eq!(le16(&[0x2a, 0x00]), 42);
    assert_eq!(le16(&[0x34, 0x12]), 0x1234);
}

#[test]
fn split_byte_cases() {
    let (a, b) = split_byte(b"hello\0world", 0);
    assert_eq!(a, b"hello");
    assert_eq!(b, b"world");

    let (a, b) = split_byte(b"\0rest\0more", 0);
    assert_eq!(a, b"");
    assert_eq!(b, b"rest\0more");

    let (a, b) = split_byte(b"nosep", 0);
    assert_eq!(a, b"nosep");
    assert_eq!(b, b"");

    let (a, b) = split_byte(b"", 0);
    assert_eq!(a, b"");
    assert_eq!(b, b"");
}

#[test]
fn strip_trailing_newlines_cases() {
    assert_eq!(strip_trailing_newlines(b"line\n"), b"line");
    assert_eq!(strip_trailing_newlines(b"line\n\n\n"), b"line");
    assert_eq!(strip_trailing_newlines(b"\n\n"), b"");
    assert_eq!(strip_trailing_newlines(b""), b"");
    assert_eq!(strip_trailing_newlines(b"a\nb"), b"a\nb");
}

#[test]
fn decimal_rendering() {
    assert_eq!(dec_digits(0), b"0".to_vec());
    assert_eq!(dec_digits(42), b"42".to_vec());
    assert_eq!(dec_digits(4294967295), b"4294967295".to_vec());
    assert_eq!(dec_digits_padded(0), b"         0".to_vec());
    assert_eq!(dec_digits_padded(123456), b"    123456".to_vec());
    assert_eq!(dec_digits_padded(4294967295), b"4294967295".to_vec());
}

#[test]
fn hex_rendering() {
    assert_eq!(hex_bytes(&[]), Vec::<u8>::new());
    assert_eq!(hex_bytes(&[0x00, 0xff, 0x1a]), b"00ff1a".to_vec());
}
