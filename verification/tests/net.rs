use ferrum::net::reading::{
    read_i16_buf, read_i32_buf, read_i64_buf, read_slot, read_slot_full, read_string_buf,
    read_u8_buf, read_varint_buf, slot_ready, string_ready, u32_to_i32, varint_ready,
};
use ferrum::net::writing::{
    build_packet, i32_to_u32_bits, push_i16_be, push_i32_be, push_u16_be, push_u32_be, write_string,
    write_varint, write_varint_u32,
};

#[test]
fn varint_known_encodings() {
    assert_eq!(write_varint(0), vec![0x00]);
    assert_eq!(write_varint(1), vec![0x01]);
    assert_eq!(write_varint(127), vec![0x7F]);
    assert_eq!(write_varint(128), vec![0x80, 0x01]);
    assert_eq!(write_varint(300), vec![0xAC, 0x02]);
    assert_eq!(write_varint(2147483647), vec![0xFF, 0xFF, 0xFF, 0xFF, 0x07]);
    assert_eq!(write_varint(-1), vec![0xFF, 0xFF, 0xFF, 0xFF, 0x0F]);
    assert_eq!(write_varint_u32(0x8000_0000), vec![0x80, 0x80, 0x80, 0x80, 0x08]);
}

#[test]
fn varint_round_trip() {
    for v in [0, 1, -1, 127, 128, 255, 25565, -2147483648, 2147483647, 123456789] {
        let mut bytes = write_varint(v);
        bytes.push(0xAA);
        let mut idx = 0;
        assert!(varint_ready(&bytes, 0));
        assert_eq!(read_varint_buf(&bytes, &mut idx), v);
        assert_eq!(idx, bytes.len() - 1);
    }
}

#[test]
fn varint_readiness() {
    assert!(!varint_ready(&[], 0));
    assert!(!varint_ready(&[0x80], 0));
    assert!(!varint_ready(&[0x80, 0x80, 0x80, 0x80, 0x80, 0x01], 0));
    assert!(varint_ready(&[0x05, 0x80, 0x01], 1));
    assert!(!varint_ready(&[0x05], 2));
}

#[test]
fn string_round_trip() {
    let text = "héllo, monde";
    let mut bytes = write_string(text);
    assert_eq!(bytes[0] as usize, text.len());
    bytes.push(1);
    assert!(string_ready(&bytes, 0));
    let mut idx = 0;
    assert_eq!(read_string_buf(&bytes, &mut idx), text);
    assert_eq!(idx, bytes.len() - 1);
    assert!(!string_ready(&bytes[..5], 0));
}

#[test]
fn invalid_utf8_is_read_leniently() {
    let bytes = vec![2u8, 0x61, 0xFF];
    let mut idx = 0;
    assert_eq!(read_string_buf(&bytes, &mut idx), "a\u{FFFD}");
    assert_eq!(idx, 3);
}

#[test]
fn packet_framing() {
    let mut content = vec![1u8, 2, 3];
    let p = build_packet(0x02, &mut content);
    assert_eq!(p, vec![4, 0x02, 1, 2, 3]);
    assert!(content.is_empty());
    let mut big = vec![0u8; 200];
    let p = build_packet(0x21, &mut big);
    assert_eq!(&p[..3], &[0xC9, 0x01, 0x21]);
    assert_eq!(p.len(), 203);
}

#[test]
fn big_endian_writers_and_readers() {
    let mut out = Vec::new();
    push_i32_be(&mut out, -2);
    push_u32_be(&mut out, 0x01020304);
    push_u16_be(&mut out, 0xABCD);
    push_i16_be(&mut out, -300);
    let mut expected = Vec::new();
    expected.extend_from_slice(&(-2i32).to_be_bytes());
    expected.extend_from_slice(&0x01020304u32.to_be_bytes());
    expected.extend_from_slice(&0xABCDu16.to_be_bytes());
    expected.extend_from_slice(&(-300i16).to_be_bytes());
    assert_eq!(out, expected);
    let mut idx = 0;
    assert_eq!(read_i32_buf(&out, &mut idx), -2);
    assert_eq!(read_i32_buf(&out, &mut idx), 0x01020304);
    assert_eq!(read_u8_buf(&out, &mut idx), 0xAB);
    assert_eq!(read_u8_buf(&out, &mut idx), 0xCD);
    assert_eq!(read_i16_buf(&out, &mut idx), -300);
    assert_eq!(idx, out.len());
    let bytes = (-5_000_000_000i64).to_be_bytes();
    let mut idx = 0;
    assert_eq!(read_i64_buf(&bytes, &mut idx), -5_000_000_000);
    assert_eq!(idx, 8);
}

#[test]
fn bit_pattern_conversions() {
    assert_eq!(i32_to_u32_bits(-1), 0xFFFF_FFFF);
    assert_eq!(i32_to_u32_bits(i32::MIN), 0x8000_0000);
    assert_eq!(u32_to_i32(0xFFFF_FFFE), -2);
    assert_eq!(u32_to_i32(7), 7);
}

#[test]
fn slots_with_and_without_items() {
    // Empty slot: id -1 only.
    let buf = [0xFF, 0xFF, 0x09];
    assert!(slot_ready(&buf, 0));
    let mut idx = 0;
    assert_eq!(read_slot_full(&buf, &mut idx), (-1, 1));
    assert_eq!(idx, 2);
    // Stone x5, damage 0, NBT length 3 (skipped).
    let buf = [0x00, 0x01, 5, 0, 0, 0x00, 0x03, 9, 9, 9, 0x42];
    assert!(slot_ready(&buf, 0));
    let mut idx = 0;
    assert_eq!(read_slot_full(&buf, &mut idx), (1, 5));
    assert_eq!(idx, 10);
    let mut idx = 0;
    assert_eq!(read_slot(&buf, &mut idx), 1);
    // No NBT (length -1).
    let buf = [0x01, 0x14, 1, 0, 0, 0xFF, 0xFF];
    let mut idx = 0;
    assert_eq!(read_slot_full(&buf, &mut idx), (276, 1));
    assert_eq!(idx, 7);
    assert!(!slot_ready(&[0x00, 0x01, 5], 0));
    assert!(!slot_ready(&[0x00], 0));
}
