use ferrum::save::{
    apply_edits, chunk_file_coords, chunk_path, parse_i32, decode_chunk_data, decode_player, encode_chunk_data, encode_player,
    player_path, PlayerRecord, PLAYER_FILE_LEN,
};
use ferrum::world::CHUNK_LEN;

fn sample_player() -> PlayerRecord {
    let mut inventory = vec![-1i16; 45];
    inventory[36] = 276;
    let mut counts = vec![0u8; 45];
    counts[36] = 1;
    PlayerRecord {
        x_bits: 100.5f64.to_bits(),
        y_bits: 64.0f64.to_bits(),
        z_bits: (-200.3f64).to_bits(),
        yaw_bits: 45.0f32.to_bits(),
        pitch_bits: (-10.0f32).to_bits(),
        gamemode: 0,
        health_bits: 18.5f32.to_bits(),
        inventory,
        counts,
        selected_slot: 0,
        cursor_item: -1,
        cursor_count: 0,
    }
}

#[test]
fn test_save_load_player() {
    let player = sample_player();
    let bytes = encode_player(&player);
    let loaded = decode_player(&bytes).unwrap();

    assert_eq!(f64::from_bits(loaded.x_bits), 100.5);
    assert_eq!(f64::from_bits(loaded.y_bits), 64.0);
    assert_eq!(f64::from_bits(loaded.z_bits), -200.3);
    assert_eq!(f32::from_bits(loaded.yaw_bits), 45.0);
    assert_eq!(f32::from_bits(loaded.pitch_bits), -10.0);
    assert_eq!(loaded.gamemode, 0);
    assert_eq!(f32::from_bits(loaded.health_bits), 18.5);
    assert_eq!(loaded.inventory[36], 276);
    assert_eq!(loaded.counts[36], 1);
}

#[test]
fn player_file_layout_is_little_endian() {
    let p = sample_player();
    let bytes = encode_player(&p);
    assert_eq!(bytes.len(), PLAYER_FILE_LEN);
    assert_eq!(&bytes[0..8], &100.5f64.to_le_bytes());
    assert_eq!(&bytes[24..28], &45.0f32.to_le_bytes());
    assert_eq!(bytes[32], 0);
    assert_eq!(&bytes[33..37], &18.5f32.to_le_bytes());
    // Slot 36 holds item 276 (0x0114), little-endian.
    assert_eq!(bytes[37 + 72], 0x14);
    assert_eq!(bytes[37 + 73], 0x01);
    // Empty slots are -1.
    assert_eq!(bytes[37], 0xFF);
    assert_eq!(bytes[38], 0xFF);
    assert_eq!(bytes[127 + 36], 1);
    assert_eq!(bytes[172], 0);
    assert_eq!(&bytes[173..175], &(-1i16).to_le_bytes());
    assert_eq!(bytes[175], 0);
}

#[test]
fn player_round_trip_keeps_every_field() {
    let mut p = sample_player();
    p.gamemode = 1;
    p.selected_slot = 7;
    p.cursor_item = -300;
    p.cursor_count = 12;
    p.inventory[0] = i16::MIN;
    p.inventory[44] = i16::MAX;
    p.counts[44] = 64;
    let q = decode_player(&encode_player(&p)).unwrap();
    assert_eq!(q.x_bits, p.x_bits);
    assert_eq!(q.z_bits, p.z_bits);
    assert_eq!(q.pitch_bits, p.pitch_bits);
    assert_eq!(q.gamemode, 1);
    assert_eq!(q.selected_slot, 7);
    assert_eq!(q.cursor_item, -300);
    assert_eq!(q.cursor_count, 12);
    assert_eq!(q.inventory, p.inventory);
    assert_eq!(q.counts, p.counts);
}

#[test]
fn short_player_file_is_rejected() {
    let bytes = encode_player(&sample_player());
    assert!(decode_player(&bytes[..PLAYER_FILE_LEN - 1]).is_none());
    assert!(decode_player(&[]).is_none());
    // Extra trailing bytes are ignored.
    let mut longer = bytes.clone();
    longer.push(9);
    assert!(decode_player(&longer).is_some());
}

#[test]
fn chunk_file_stores_only_sections_up_to_the_highest_block() {
    let mut data = vec![0u16; CHUNK_LEN];
    assert_eq!(encode_chunk_data(&data), vec![0u8]);
    data[5] = 0x1234;
    data[2 * 4096 + 7] = 3;
    let enc = encode_chunk_data(&data);
    assert_eq!(enc[0], 3);
    assert_eq!(enc.len(), 1 + 3 * 4096 * 2);
    assert_eq!(enc[1 + 10], 0x34);
    assert_eq!(enc[1 + 11], 0x12);
    let dec = decode_chunk_data(&enc);
    assert_eq!(dec.len(), 3 * 4096);
    assert_eq!(&dec[..], &data[..3 * 4096]);
}

#[test]
fn chunk_decode_stops_at_truncated_data() {
    let buf = vec![2u8, 1, 0, 2, 0, 3];
    assert_eq!(decode_chunk_data(&buf), vec![1u16, 2]);
    assert_eq!(decode_chunk_data(&[]), Vec::<u16>::new());
}

#[test]
fn edits_overwrite_a_prefix() {
    let mut data = vec![7u16; CHUNK_LEN];
    apply_edits(&mut data, &[0, 5, 9]);
    assert_eq!(&data[..4], &[0, 5, 9, 7]);
    assert_eq!(data.len(), CHUNK_LEN);
}

#[test]
fn file_paths() {
    assert_eq!(chunk_path(-3, 12), "world/chunks/-3_12.dat");
    assert_eq!(chunk_path(0, 0), "world/chunks/0_0.dat");
    assert_eq!(player_path("abc-1"), "world/players/abc-1.dat");
}

#[test]
fn decimal_i32_parsing() {
    assert_eq!(parse_i32(b"0"), Some(0));
    assert_eq!(parse_i32(b"-17"), Some(-17));
    assert_eq!(parse_i32(b"+42"), Some(42));
    assert_eq!(parse_i32(b"2147483647"), Some(i32::MAX));
    assert_eq!(parse_i32(b"-2147483648"), Some(i32::MIN));
    assert_eq!(parse_i32(b"2147483648"), None);
    assert_eq!(parse_i32(b"-2147483649"), None);
    assert_eq!(parse_i32(b"99999999999999999999"), None);
    assert_eq!(parse_i32(b""), None);
    assert_eq!(parse_i32(b"-"), None);
    assert_eq!(parse_i32(b"1a"), None);
    assert_eq!(parse_i32(b" 1"), None);
    for s in ["12", "-3", "+7", "007", "x", "", "--1", "4294967296"] {
        assert_eq!(parse_i32(s.as_bytes()), s.parse::<i32>().ok(), "{s}");
    }
}

#[test]
fn chunk_file_names() {
    assert_eq!(chunk_file_coords("-3_12.dat"), Some((-3, 12)));
    assert_eq!(chunk_file_coords("0_0.dat"), Some((0, 0)));
    assert_eq!(chunk_file_coords(&chunk_path(-70, 5)["world/chunks/".len()..]), Some((-70, 5)));
    assert_eq!(chunk_file_coords("1_2_3.dat"), None);
    assert_eq!(chunk_file_coords("12.dat"), None);
    assert_eq!(chunk_file_coords("1_2.txt"), None);
    assert_eq!(chunk_file_coords("a_2.dat"), None);
    assert_eq!(chunk_file_coords("_.dat"), None);
    assert_eq!(chunk_file_coords(".dat"), None);
}
