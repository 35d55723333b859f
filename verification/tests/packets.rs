use ferrum::packets::{
    block_to_item, build_animation, build_block_change, build_chat, build_collect_item,
    build_destroy_entity, build_disconnect, build_entity_equipment, build_entity_metadata_flags,
    build_entity_status, build_game_mode_change, build_item_metadata, build_player_list_item,
    build_respawn, build_set_slot, build_transaction_confirmation, f32_bits_of_u8,
};

fn varint(mut v: u32) -> Vec<u8> {
    let mut out = Vec::new();
    loop {
        let mut b = (v & 0x7F) as u8;
        v >>= 7;
        if v != 0 {
            b |= 0x80;
        }
        out.push(b);
        if v == 0 {
            return out;
        }
    }
}

fn frame(id: u32, content: &[u8]) -> Vec<u8> {
    let mut body = varint(id);
    body.extend_from_slice(content);
    let mut p = varint(body.len() as u32);
    p.extend(body);
    p
}

fn string(s: &str) -> Vec<u8> {
    let mut v = varint(s.len() as u32);
    v.extend_from_slice(s.as_bytes());
    v
}

#[test]
fn game_mode_value_is_an_f32() {
    for m in [0u8, 1, 2, 3, 7, 100, 255] {
        assert_eq!(f32_bits_of_u8(m), (m as f32).to_bits());
    }
    let mut c = vec![3u8];
    c.extend_from_slice(&1.0f32.to_be_bytes());
    assert_eq!(build_game_mode_change(1), frame(0x2B, &c));
}

#[test]
fn chat_and_disconnect() {
    let json = "{\"text\":\"hi\"}";
    assert_eq!(build_chat(json), frame(0x02, &string(json)));
    assert_eq!(build_disconnect(json), frame(0x40, &string(json)));
}

#[test]
fn player_list_item() {
    let mut c = string("Steve");
    c.push(1);
    c.extend_from_slice(&[0, 0]);
    assert_eq!(build_player_list_item("Steve", true), frame(0x38, &c));
    let mut c = string("Steve");
    c.push(0);
    c.extend_from_slice(&[0, 0]);
    assert_eq!(build_player_list_item("Steve", false), frame(0x38, &c));
}

#[test]
fn block_change_splits_id_and_metadata() {
    let stored: u16 = 64 + (5 << 12);
    let mut c = Vec::new();
    c.extend_from_slice(&(-7i32).to_be_bytes());
    c.push(70);
    c.extend_from_slice(&300i32.to_be_bytes());
    c.extend_from_slice(&varint(64));
    c.push(5);
    assert_eq!(build_block_change(-7, 70, 300, stored), frame(0x23, &c));
    // A block id above 127 takes two VarInt bytes.
    let p = build_block_change(0, 0, 0, 152);
    assert_eq!(&p[p.len() - 3..], &[0x98, 0x01, 0]);
}

#[test]
fn equipment_and_set_slot() {
    let mut c = Vec::new();
    c.extend_from_slice(&10i32.to_be_bytes());
    c.extend_from_slice(&0i16.to_be_bytes());
    c.extend_from_slice(&276i16.to_be_bytes());
    c.extend_from_slice(&[1, 0, 0, 0xFF, 0xFF]);
    assert_eq!(build_entity_equipment(10, 0, 276), frame(0x04, &c));
    let mut c = Vec::new();
    c.extend_from_slice(&10i32.to_be_bytes());
    c.extend_from_slice(&4i16.to_be_bytes());
    c.extend_from_slice(&(-1i16).to_be_bytes());
    assert_eq!(build_entity_equipment(10, 4, -1), frame(0x04, &c));
    let c = vec![0u8, 0, 36, 0, 1, 12, 0, 3, 0xFF, 0xFF];
    assert_eq!(build_set_slot(0, 36, 1, 12, 3), frame(0x2F, &c));
    let c = vec![0u8, 0, 36, 0xFF, 0xFF];
    assert_eq!(build_set_slot(0, 36, -1, 0, 0), frame(0x2F, &c));
}

#[test]
fn entity_packets() {
    assert_eq!(build_destroy_entity(258), frame(0x13, &[1, 0, 0, 1, 2]));
    assert_eq!(build_collect_item(1, 2), frame(0x0D, &[0, 0, 0, 1, 0, 0, 0, 2]));
    assert_eq!(build_entity_status(3, 2), frame(0x1A, &[0, 0, 0, 3, 2]));
    assert_eq!(build_animation(3, 0), frame(0x28, &[0, 0, 0, 3, 0]));
    assert_eq!(build_entity_metadata_flags(9, true), frame(0x1C, &[0, 0, 0, 9, 0, 2, 0x7F]));
    assert_eq!(build_entity_metadata_flags(9, false), frame(0x1C, &[0, 0, 0, 9, 0, 0, 0x7F]));
    let c = vec![0u8, 0, 0, 5, 0xAA, 0, 4, 3, 0, 0, 0xFF, 0xFF, 0x7F];
    assert_eq!(build_item_metadata(5, 4, 3, 0), frame(0x1C, &c));
}

#[test]
fn transaction_and_respawn() {
    assert_eq!(build_transaction_confirmation(0, -2, true), frame(0x32, &[0, 0xFF, 0xFE, 1]));
    let mut c = Vec::new();
    c.extend_from_slice(&0i32.to_be_bytes());
    c.push(1);
    c.push(2);
    c.extend(string("flat"));
    assert_eq!(build_respawn(0, 1, 2), frame(0x07, &c));
}

#[test]
fn block_drops() {
    assert_eq!(block_to_item(1), 4);
    assert_eq!(block_to_item(2), 3);
    assert_eq!(block_to_item(7), -1);
    assert_eq!(block_to_item(16), 263);
    assert_eq!(block_to_item(56), 264);
    assert_eq!(block_to_item(55 + (15 << 12)), 331);
    assert_eq!(block_to_item(64 + (8 << 12)), 324);
    assert_eq!(block_to_item(17), 17);
}
