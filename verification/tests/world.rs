use std::io::Read;

use ferrum::world::{
    build_chunk_packet, chunk_section_count, compute_heightmap, compute_heightmap_and_sections,
    extract_view_snapshot, frame_chunk_packet, generate_section, get_block, is_plate, merge_chunk,
    pack_nibbles, set_block, set_block_at, surface_y, ChunkData, WorldMap, CHUNK_LEN,
};

fn decompress(data: &[u8]) -> Vec<u8> {
    let mut d = flate2::read::ZlibDecoder::new(data);
    let mut out = Vec::new();
    d.read_to_end(&mut out).unwrap();
    out
}

fn read_varint(buf: &[u8], idx: &mut usize) -> u32 {
    let mut v: u32 = 0;
    let mut shift = 0;
    loop {
        let b = buf[*idx];
        *idx += 1;
        v |= ((b & 0x7F) as u32) << shift;
        if b & 0x80 == 0 {
            return v;
        }
        shift += 7;
    }
}

#[test]
fn set_then_get() {
    let mut w = WorldMap::new();
    assert_eq!(get_block(&w, 5, 64, -7), 0);
    set_block(&mut w, 5, 64, -7, 3);
    set_block(&mut w, -17, 0, 33, 12);
    set_block_at(&mut w, (100, 255, -100), 7);
    assert_eq!(get_block(&w, 5, 64, -7), 3);
    assert_eq!(get_block(&w, -17, 0, 33), 12);
    assert_eq!(get_block(&w, 100, 255, -100), 7);
    assert_eq!(get_block(&w, 5, 65, -7), 0);
    // Heights outside the world are ignored and read as air.
    set_block(&mut w, 0, 256, 0, 1);
    set_block(&mut w, 0, -1, 0, 1);
    assert_eq!(get_block(&w, 0, 256, 0), 0);
    assert_eq!(get_block(&w, 0, -1, 0), 0);
    assert!(w.get_chunk(0, -1).is_some());
    assert!(w.get_chunk(-2, 2).is_some());
    assert!(w.get_chunk(3, 3).is_none());
    assert_eq!(w.positions().len(), 3);
}

#[test]
fn plate_flag_follows_plates() {
    let mut w = WorldMap::new();
    set_block(&mut w, 1, 5, 1, 1);
    assert!(!w.get_chunk(0, 0).unwrap().has_plates);
    set_block(&mut w, 2, 5, 2, 70);
    assert!(w.get_chunk(0, 0).unwrap().has_plates);
    assert!(is_plate(72 + (1 << 12)));
    assert!(!is_plate(71));
}

#[test]
fn highest_block_of_a_column() {
    let mut w = WorldMap::new();
    assert_eq!(surface_y(&w, 3, 3), None);
    set_block(&mut w, 3, 10, 3, 1);
    set_block(&mut w, 3, 40, 3, 2);
    assert_eq!(surface_y(&w, 3, 3), Some(40));
}

#[test]
fn heightmap_and_sections() {
    let mut data = vec![0u16; CHUNK_LEN];
    assert_eq!(chunk_section_count(&data), 1);
    data[(70 << 8) | (2 << 4) | 5] = 1;
    data[(3 << 8) | (0 << 4) | 0] = 1;
    let h = compute_heightmap(&data);
    assert_eq!(h[5 * 16 + 2], 70);
    assert_eq!(h[0], 3);
    assert_eq!(h[1], -1);
    let (h2, n) = compute_heightmap_and_sections(&data);
    assert_eq!(h2, h);
    assert_eq!(n, 5);
    assert_eq!(chunk_section_count(&data), 5);
}

#[test]
fn nibbles_and_sections() {
    let mut v = vec![0u8; 4096];
    v[0] = 0x3;
    v[1] = 0x1C;
    let p = pack_nibbles(&v);
    assert_eq!(p.len(), 2048);
    assert_eq!(p[0], 0xC3);
    let mut data = vec![0u16; CHUNK_LEN];
    data[4096 + 5] = 35 + (14 << 12);
    let (h, _) = compute_heightmap_and_sections(&data);
    let (blocks, meta, sky) = generate_section(&data, &h, 1);
    assert_eq!(blocks[5], 35);
    assert_eq!(meta[5], 14);
    assert_eq!(sky[5], 15);
    let (_, _, sky0) = generate_section(&data, &h, 0);
    assert_eq!(sky0[5], 0);
    assert_eq!(sky0[6], 15);
}

#[test]
fn chunk_packet_of_an_absent_chunk() {
    let w = WorldMap::new();
    let p = build_chunk_packet(2, -3, &w);
    let mut idx = 0;
    let len = read_varint(&p, &mut idx) as usize;
    assert_eq!(len, p.len() - idx);
    assert_eq!(read_varint(&p, &mut idx), 0x21);
    assert_eq!(&p[idx..idx + 4], &2i32.to_be_bytes());
    assert_eq!(&p[idx + 4..idx + 8], &(-3i32).to_be_bytes());
    assert_eq!(p[idx + 8], 1);
    assert_eq!(&p[idx + 9..idx + 11], &[0, 1]);
    assert_eq!(&p[idx + 11..idx + 13], &[0, 0]);
    let clen = u32::from_be_bytes([p[idx + 13], p[idx + 14], p[idx + 15], p[idx + 16]]) as usize;
    let payload = decompress(&p[idx + 17..idx + 17 + clen]);
    // One section: 4096 ids, 2048 metadata, 2048 block light, 2048 sky light, 256 biomes.
    assert_eq!(payload.len(), 4096 + 3 * 2048 + 256);
    assert!(payload[..4096].iter().all(|&b| b == 0));
    assert!(payload[4096 + 4096..4096 + 6144].iter().all(|&b| b == 0xFF));
    assert!(payload[10240..].iter().all(|&b| b == 1));
}

#[test]
fn chunk_packet_of_a_stored_chunk() {
    let mut w = WorldMap::new();
    set_block(&mut w, 1, 20, 2, 17 + (4 << 12));
    let p = build_chunk_packet(0, 0, &w);
    let mut idx = 0;
    read_varint(&p, &mut idx);
    read_varint(&p, &mut idx);
    assert_eq!(&p[idx + 9..idx + 11], &[0, 3]);
    let clen = u32::from_be_bytes([p[idx + 13], p[idx + 14], p[idx + 15], p[idx + 16]]) as usize;
    let payload = decompress(&p[idx + 17..idx + 17 + clen]);
    assert_eq!(payload.len(), 2 * 4096 + 2 * 3 * 2048 + 256);
    let i = (20 << 8) | (2 << 4) | 1;
    assert_eq!(payload[i], 17);
    assert_eq!(payload[2 * 4096 + i / 2] >> 4, 4);
}

#[test]
fn framing_a_compressed_payload() {
    let p = frame_chunk_packet(1, 2, 16, &[9, 8, 7]);
    let mut expected = vec![0x21u8, 0, 0, 0, 1, 0, 0, 0, 2, 1, 0xFF, 0xFF, 0, 0, 0, 0, 0, 3, 9, 8, 7];
    expected.insert(0, expected.len() as u8);
    assert_eq!(p, expected);
}

#[test]
fn view_snapshot_lists_blocks_in_range() {
    let mut w = WorldMap::new();
    set_block(&mut w, 1, 2, 3, 5);
    set_block(&mut w, 40, 2, 3, 6);
    set_block(&mut w, -1, 0, -1, 7);
    let m = extract_view_snapshot(&w, 0, 0, 1);
    assert_eq!(m.len(), 2);
    assert!(m.contains(&((1, 2, 3), 5)));
    assert!(m.contains(&((-1, 0, -1), 7)));
}

#[test]
fn merge_overlays_saved_edits() {
    let mut w = WorldMap::new();
    let mut data = vec![0u16; CHUNK_LEN];
    data[0] = 1;
    data[1] = 1;
    data[300] = 70;
    let edits = vec![0u16, 5];
    merge_chunk(&mut w, 2, 3, data, vec![4u8; 256], &edits);
    let c: &ChunkData = w.get_chunk(2, 3).unwrap();
    assert_eq!(c.blocks[0], 0);
    assert_eq!(c.blocks[1], 5);
    assert_eq!(c.blocks[300], 70);
    assert!(c.has_plates);
    assert_eq!(c.biomes[7], 4);
    assert_eq!(get_block(&w, 32, 0, 48), 0);
    assert_eq!(get_block(&w, 33, 0, 48), 5);
}
