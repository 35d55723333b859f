use ferrum::worldgen::buffer::{b, bm, ChunkBuffer, BUFFER_LEN, CHUNK_SIZE, WORLD_HEIGHT};
use ferrum::worldgen::carvers::{div_floor, REGION_CHUNKS};
use ferrum::worldgen::biomes::Biome;
use ferrum::worldgen::features::{
    build_tree, oak_like, put_leaf, tree_site_ok, trim, vines_on_trunk, TreeKind, SEA_LEVEL, TRIM_HALF,
};
use ferrum::worldgen::noise::{Perlin, Simplex2D, ValueNoise};
use ferrum::worldgen::ores::{generate_ores, place_ore, EMERALD, STONE};
use ferrum::worldgen::rng::Rng;
use ferrum::worldgen::surface::{fill_column, DIRT};

#[test]
fn buffer_indexing_and_world_writes() {
    let mut buf = ChunkBuffer::new(2, -1);
    assert_eq!(buf.blocks.len(), BUFFER_LEN);
    assert_eq!(CHUNK_SIZE, 16);
    assert_eq!(WORLD_HEIGHT, 256);
    assert_eq!(ChunkBuffer::idx(3, 10, 5), (10 << 8) | (5 << 4) | 3);
    buf.set(3, 10, 5, 7);
    assert_eq!(buf.get(3, 10, 5), 7);
    // World (35, 4, -10) is local (3, 4, 6) of chunk (2, -1).
    buf.set_world(35, 4, -10, 9);
    assert_eq!(buf.get(3, 4, 6), 9);
    assert_eq!(buf.get_world(35, 4, -10), Some(9));
    // Outside the chunk or the height range: ignored.
    buf.set_world(0, 4, 0, 1);
    buf.set_world(35, 300, -10, 1);
    assert_eq!(buf.get_world(0, 4, 0), None);
    assert_eq!(buf.get_world(35, -1, -10), None);
    assert_eq!(buf.iter_nonzero(), vec![(ChunkBuffer::idx(3, 4, 6), 9), (ChunkBuffer::idx(3, 10, 5), 7)]);
    let (blocks, biomes) = buf.into_parts();
    assert_eq!(blocks.len(), BUFFER_LEN);
    assert_eq!(biomes.len(), 256);
}

#[test]
fn block_values() {
    assert_eq!(bm(17, 2), 17 | (2 << 12));
    assert_eq!(b(3), 3);
}

#[test]
fn permutation_tables() {
    let mut rng = Rng::new(77);
    let p = Perlin::new(&mut rng);
    assert_eq!(p.perm.len(), 512);
    let mut seen = [false; 256];
    for i in 0..256 {
        assert!(!seen[p.perm[i] as usize]);
        seen[p.perm[i] as usize] = true;
        assert_eq!(p.perm[i], p.perm[i + 256]);
    }
    // 255 draws were made.
    let mut reference = Rng::new(77);
    for _ in 0..255 {
        reference.next_u64();
    }
    assert_eq!(rng.next_u64(), reference.next_u64());
    // Same seed, same table.
    let v = ValueNoise::new(&mut Rng::new(77));
    let s = Simplex2D::new(&mut Rng::new(77));
    assert_eq!(v.perm, p.perm);
    assert_eq!(s.perm, p.perm);
    let h = p.corner2(3, 300);
    assert_eq!(h, p.perm[(p.perm[3] as usize + (300 & 255)) % 256] as usize);
    assert!(p.corner3(-5, 7, 1000) < 12);
    let _ = v.lattice(-4, 9);
    assert!(s.gradient_index(1, 2, 3, 4) < 12);
}

#[test]
fn floor_division() {
    assert_eq!(div_floor(7, 2), 3);
    assert_eq!(div_floor(-7, 2), -4);
    assert_eq!(div_floor(-12, 12), -1);
    assert_eq!(div_floor(-13, 12), -2);
    assert_eq!(div_floor(7, -2), -4);
    assert_eq!(div_floor(i32::MIN, 1), i32::MIN);
    assert_eq!(REGION_CHUNKS, 12);
}

#[test]
fn columns_are_filled_from_the_top() {
    let mut buf = ChunkBuffer::new(0, 0);
    fill_column(&mut buf, 4, 5, 60, 2, DIRT, 3);
    assert_eq!(buf.get(4, 60, 5), 2);
    assert_eq!(buf.get(4, 59, 5), DIRT);
    assert_eq!(buf.get(4, 57, 5), DIRT);
    assert_eq!(buf.get(4, 56, 5), 0);
    assert_eq!(buf.get(4, 61, 5), 0);
    // The filler never goes below height 1.
    let mut buf = ChunkBuffer::new(0, 0);
    fill_column(&mut buf, 0, 0, 2, 12, 12, 10);
    assert_eq!(buf.get(0, 1, 0), 12);
    assert_eq!(buf.get(0, 0, 0), 0);
}

#[test]
fn ores_replace_stone_only() {
    let mut buf = ChunkBuffer::new(0, 0);
    buf.set(1, 5, 1, STONE);
    place_ore(&mut buf, 1, 5, 1, EMERALD);
    place_ore(&mut buf, 2, 5, 1, EMERALD);
    assert_eq!(buf.get(1, 5, 1), EMERALD);
    assert_eq!(buf.get(2, 5, 1), 0);
    // A whole chunk of stone: ores appear, nothing but stone changes.
    let mut buf = ChunkBuffer::new(3, -2);
    for i in 0..BUFFER_LEN / 2 {
        buf.blocks[i] = STONE;
    }
    let before = buf.blocks.clone();
    generate_ores(&mut buf, 1234, &|_x: i32, _z: i32| true);
    let mut changed = 0;
    for i in 0..BUFFER_LEN {
        if buf.blocks[i] != before[i] {
            assert_eq!(before[i], STONE);
            changed += 1;
        }
    }
    assert!(changed > 0);
    let mut again = ChunkBuffer::new(3, -2);
    for i in 0..BUFFER_LEN / 2 {
        again.blocks[i] = STONE;
    }
    generate_ores(&mut again, 1234, &|_x: i32, _z: i32| true);
    assert_eq!(again.blocks, buf.blocks);
}

#[test]
fn leaves_only_on_air() {
    let mut buf = ChunkBuffer::new(0, 0);
    buf.set(1, 1, 1, 3);
    put_leaf(&mut buf, 1, 1, 1, 18);
    put_leaf(&mut buf, 1, 2, 1, 18);
    put_leaf(&mut buf, 20, 2, 1, 18);
    assert_eq!(buf.get(1, 1, 1), 3);
    assert_eq!(buf.get(1, 2, 1), 18);
    assert_eq!(trim(1, 2, 3, 0), false);
    assert_eq!(trim(1, 2, 3, u64::MAX), true);
    let _ = TRIM_HALF;
}

#[test]
fn an_oak_has_a_trunk_and_leaves() {
    let mut buf = ChunkBuffer::new(0, 0);
    oak_like(&mut buf, 8, 63, 8, bm(17, 0), bm(18, 0), 5);
    for y in 64..=68 {
        assert_eq!(buf.get(8, y, 8), bm(17, 0));
    }
    assert_eq!(buf.get(8, 69, 8), bm(18, 0));
    assert_eq!(buf.get(9, 68, 8), bm(18, 0));
    assert_eq!(buf.get(8, 63, 8), 0);
    // Every tree kind only adds its log, leaves and vines.
    for kind in [
        TreeKind::Oak,
        TreeKind::LargeOak,
        TreeKind::Birch,
        TreeKind::Spruce,
        TreeKind::Pine,
        TreeKind::JungleSmall,
        TreeKind::JungleBig,
        TreeKind::SwampOak,
        TreeKind::DarkOak,
        TreeKind::Acacia,
    ] {
        let mut buf = ChunkBuffer::new(0, 0);
        for x in 0..16 {
            for z in 0..16 {
                buf.set(x, 63, z, 2);
            }
        }
        build_tree(&mut buf, kind, 8, 63, 8, 42);
        assert_ne!(buf.get(8, 64, 8), 0, "{kind:?}");
        for x in 0..16 {
            for z in 0..16 {
                assert_eq!(buf.get(x, 63, z), 2, "{kind:?}");
            }
        }
    }
}

#[test]
fn tree_sites() {
    let mut buf = ChunkBuffer::new(0, 0);
    buf.set(4, 70, 4, 2);
    assert!(tree_site_ok(&buf, Biome::Forest, 4, 70, 4));
    assert!(!tree_site_ok(&buf, Biome::River, 4, 70, 4));
    assert!(!tree_site_ok(&buf, Biome::Forest, 4, SEA_LEVEL, 4));
    assert!(!tree_site_ok(&buf, Biome::Forest, 4, 201, 4));
    // The ground is air here (a cave opened it).
    assert!(!tree_site_ok(&buf, Biome::Forest, 5, 70, 4));
    buf.set(6, 70, 4, 12);
    assert!(!tree_site_ok(&buf, Biome::Plains, 6, 70, 4));
    // A column of another chunk is not checked against this buffer.
    assert!(tree_site_ok(&buf, Biome::Plains, 40, 70, 4));
}

#[test]
fn vines_go_round_the_trunk() {
    let mut buf = ChunkBuffer::new(0, 0);
    buf.set(7, 72, 8, 1);
    vines_on_trunk(&mut buf, 8, 70, 8, 75, 6);
    // Vine i hangs on side i mod 4 (east, west, south, north) at height
    // 70 + 7i mod 5, facing the trunk.
    assert_eq!(buf.get(9, 70, 8), bm(106, 2));
    assert_eq!(buf.get(7, 72, 8), 1);
    assert_eq!(buf.get(8, 74, 9), bm(106, 4));
    assert_eq!(buf.get(8, 71, 7), bm(106, 1));
    assert_eq!(buf.get(9, 73, 8), bm(106, 2));
    assert_eq!(buf.get(7, 70, 8), bm(106, 8));
    assert_eq!(buf.iter_nonzero().len(), 6);
}

#[test]
fn emeralds_need_mountains() {
    let mut plain = ChunkBuffer::new(1, 1);
    for i in 0..BUFFER_LEN / 2 {
        plain.blocks[i] = STONE;
    }
    let mut high = ChunkBuffer::new(1, 1);
    for i in 0..BUFFER_LEN / 2 {
        high.blocks[i] = STONE;
    }
    generate_ores(&mut plain, 77, &|_x: i32, _z: i32| false);
    generate_ores(&mut high, 77, &|_x: i32, _z: i32| true);
    assert!(plain.blocks.iter().all(|&v| v != EMERALD));
    // Emeralds only add to what the veins placed.
    for i in 0..BUFFER_LEN {
        if plain.blocks[i] != high.blocks[i] {
            assert_eq!(high.blocks[i], EMERALD);
        }
    }
    assert!(high.blocks.iter().any(|&v| v == EMERALD));
}
