//! Chunked block storage of the world and the chunk-data packet.

use vstd::prelude::*;
use std::collections::HashMap;
use crate::net::writing::{
    be_bytes, build_packet, i32_bits, i32_to_u32_bits, packet_bytes, push_i32_be, push_u16_be,
    push_u32_be,
};
use crate::packets::{lemma_pow2_mono, pow2};

verus! {

broadcast use vstd::std_specs::hash::group_hash_axioms;

/// Number of blocks in a chunk column (16 x 16 x 256).
pub const CHUNK_LEN: usize = 65536;

/// Index of a block inside a chunk array: (y << 8) | (z << 4) | x.
pub open spec fn chunk_index(lx: int, y: int, lz: int) -> int {
    y * 256 + lz * 16 + lx
}

/// A block value that is a pressure plate (ids 70, 72, 147, 148).
pub open spec fn spec_is_plate(stored: u16) -> bool {
    let id = stored % 4096;
    id == 70 || id == 72 || id == 147 || id == 148
}

/// Whether the block value is a pressure plate.
pub fn is_plate(stored: u16) -> (r: bool)
    ensures
        r == spec_is_plate(stored),
{
    let id = stored % 4096;
    id == 70 || id == 72 || id == 147 || id == 148
}

/// A merged chunk: dense blocks (index `chunk_index`), the biome of each
/// column (index z * 16 + x) and a flag set once a pressure plate is stored.
pub struct ChunkData {
    pub blocks: Vec<u16>,
    pub biomes: Vec<u8>,
    pub has_plates: bool,
}

impl ChunkData {
    /// Arrays of the right sizes.
    pub open spec fn wf(&self) -> bool {
        &&& self.blocks@.len() == CHUNK_LEN
        &&& self.biomes@.len() == 256
    }

    /// The flag is set whenever some block of the chunk is a plate.
    pub open spec fn plates_flag_sound(&self) -> bool {
        (exists|i: int| 0 <= i < self.blocks@.len() && spec_is_plate(#[trigger] self.blocks@[i]))
            ==> self.has_plates
    }

    /// Block at local coordinates.
    #[inline]
    pub fn get(&self, lx: usize, y: usize, lz: usize) -> (v: u16)
        requires
            self.wf(),
            lx < 16,
            y < 256,
            lz < 16,
        ensures
            v == self.blocks@[chunk_index(lx as int, y as int, lz as int)],
    {
        self.blocks[y * 256 + lz * 16 + lx]
    }

    /// Stores a block at local coordinates (the plate flag is left alone).
    #[inline]
    pub fn set(&mut self, lx: usize, y: usize, lz: usize, v: u16)
        requires
            old(self).wf(),
            lx < 16,
            y < 256,
            lz < 16,
        ensures
            final(self).wf(),
            final(self).blocks@ == old(self).blocks@.update(
                chunk_index(lx as int, y as int, lz as int),
                v,
            ),
            final(self).biomes@ == old(self).biomes@,
            final(self).has_plates == old(self).has_plates,
    {
        self.blocks.set(y * 256 + lz * 16 + lx, v);
    }
}

impl Default for ChunkData {
    /// An all-air chunk with plains biomes and no plate.
    fn default() -> (c: Self)
        ensures
            c.wf(),
            forall|i: int| 0 <= i < CHUNK_LEN ==> #[trigger] c.blocks@[i] == 0,
            forall|i: int| 0 <= i < 256 ==> #[trigger] c.biomes@[i] == 1,
            !c.has_plates,
            c.plates_flag_sound(),
    {
        let c = ChunkData { blocks: vec![0u16; CHUNK_LEN], biomes: vec![1u8; 256], has_plates: false };
        assert forall|i: int| 0 <= i < c.blocks@.len() implies !spec_is_plate(#[trigger] c.blocks@[i]) by {
        }
        c
    }
}

/// Key of chunk (cx, cz) in the chunk table: the two bit patterns side by side.
pub open spec fn chunk_key(cx: i32, cz: i32) -> u64 {
    (i32_bits(cx) * 0x1_0000_0000 + i32_bits(cz)) as u64
}

proof fn lemma_chunk_key_injective(a: i32, b: i32, c: i32, d: i32)
    ensures
        chunk_key(a, b) == chunk_key(c, d) ==> a == c && b == d,
{
    let x = i32_bits(a);
    let y = i32_bits(b);
    let u = i32_bits(c);
    let w = i32_bits(d);
    if chunk_key(a, b) == chunk_key(c, d) {
        assert(x * 0x1_0000_0000 + y == u * 0x1_0000_0000 + w);
        assert(x == u && y == w) by (nonlinear_arith)
            requires
                x * 0x1_0000_0000 + y == u * 0x1_0000_0000 + w,
                y < 0x1_0000_0000,
                w < 0x1_0000_0000,
        ;
    }
}

fn chunk_key_of(cx: i32, cz: i32) -> (k: u64)
    ensures
        k == chunk_key(cx, cz),
{
    let hi = i32_to_u32_bits(cx) as u64;
    let lo = i32_to_u32_bits(cz) as u64;
    hi * 0x1_0000_0000 + lo
}

/// Chunk column containing world coordinate `v` (floor of v / 16).
pub open spec fn chunk_of(v: int) -> int {
    v / 16
}

/// Coordinate of `v` inside its chunk (v mod 16, in 0..16).
pub open spec fn local_of(v: int) -> int {
    v % 16
}

/// (v >> 4, v & 15) computed without sign tricks.
pub(crate) fn split_coord(v: i32) -> (r: (i32, usize))
    ensures
        r.0 == chunk_of(v as int),
        r.1 == local_of(v as int),
        r.1 < 16,
{
    let u: u64 = (v as i64 + 2147483648i64) as u64;
    let c: i64 = (u / 16) as i64 - 134217728i64;
    let l: usize = (u % 16) as usize;
    assert(v + 2147483648 == 16 * ((v + 2147483648) / 16) + (v + 2147483648) % 16);
    (c as i32, l)
}

/// The world: merged chunks keyed by their coordinates. A chunk that is
/// absent is all air.
pub struct WorldMap {
    chunks: HashMap<u64, ChunkData>,
    positions: Vec<(i32, i32)>,
}

impl WorldMap {
    /// The stored chunks, by coordinates.
    pub closed spec fn chunk_at(&self, cx: int, cz: int) -> Option<ChunkData> {
        if i32::MIN <= cx <= i32::MAX && i32::MIN <= cz <= i32::MAX && self.chunks@.contains_key(
            chunk_key(cx as i32, cz as i32),
        ) {
            Some(self.chunks@[chunk_key(cx as i32, cz as i32)])
        } else {
            None
        }
    }

    /// Every stored chunk has arrays of the right sizes and its plate flag
    /// set if it holds a plate, and the list of positions names each stored
    /// chunk exactly once.
    pub closed spec fn wf(&self) -> bool {
        &&& forall|k: u64|
            #[trigger] self.chunks@.contains_key(k) ==> self.chunks@[k].wf()
                && self.chunks@[k].plates_flag_sound()
        &&& forall|i: int|
            0 <= i < self.positions@.len() ==> self.chunks@.contains_key(
                chunk_key(#[trigger] self.positions@[i].0, self.positions@[i].1),
            )
        &&& forall|k: u64|
            #[trigger] self.chunks@.contains_key(k) ==> exists|i: int|
                0 <= i < self.positions@.len() && chunk_key(
                    #[trigger] self.positions@[i].0,
                    self.positions@[i].1,
                ) == k
        &&& forall|i: int, j: int|
            0 <= i < j < self.positions@.len() ==> #[trigger] self.positions@[i]
                != #[trigger] self.positions@[j]
    }

    /// Stored chunk coordinates, in insertion order.
    pub closed spec fn chunk_positions(&self) -> Seq<(i32, i32)> {
        self.positions@
    }

    /// Block at world coordinates: 0 outside 0..256 in height or in an
    /// absent chunk.
    pub open spec fn block_at(&self, x: int, y: int, z: int) -> u16 {
        if 0 <= y < 256 {
            match self.chunk_at(chunk_of(x), chunk_of(z)) {
                Some(c) => c.blocks@[chunk_index(local_of(x), y, local_of(z))],
                None => 0,
            }
        } else {
            0
        }
    }

    /// An empty world.
    pub fn new() -> (w: Self)
        ensures
            w.wf(),
            forall|cx: int, cz: int| w.chunk_at(cx, cz) is None,
            w.chunk_positions() == Seq::<(i32, i32)>::empty(),
    {
        WorldMap { chunks: HashMap::new(), positions: Vec::new() }
    }

    /// The chunk stored at (cx, cz), if any.
    pub fn get_chunk(&self, cx: i32, cz: i32) -> (r: Option<&ChunkData>)
        requires
            self.wf(),
        ensures
            match r {
                Some(c) => self.chunk_at(cx as int, cz as int) == Some(*c) && c.wf() && c.plates_flag_sound(),
                None => self.chunk_at(cx as int, cz as int) is None,
            },
    {
        let k = chunk_key_of(cx, cz);
        self.chunks.get(&k)
    }

    /// Stored chunk coordinates, in insertion order.
    pub fn positions(&self) -> (r: &Vec<(i32, i32)>)
        requires
            self.wf(),
        ensures
            r@ == self.chunk_positions(),
            forall|i: int| 0 <= i < r@.len() ==> self.chunk_at(#[trigger] r@[i].0 as int, r@[i].1 as int) is Some,
            forall|cx: i32, cz: i32| self.chunk_at(cx as int, cz as int) is Some ==> exists|i: int| 0 <= i < r@.len() && #[trigger] r@[i] == (cx, cz),
    {
        proof {
            assert forall|cx: i32, cz: i32| self.chunk_at(cx as int, cz as int) is Some implies exists|i: int| 0 <= i < self.positions@.len() && #[trigger] self.positions@[i] == (cx, cz) by {
                let k = chunk_key(cx, cz);
                assert(self.chunks@.contains_key(k));
                let i = choose|i: int| 0 <= i < self.positions@.len() && chunk_key(#[trigger] self.positions@[i].0, self.positions@[i].1) == k;
                lemma_chunk_key_injective(self.positions@[i].0, self.positions@[i].1, cx, cz);
            }
        }
        &self.positions
    }

    /// Stores `c` as chunk (cx, cz), replacing any previous one.
    pub fn insert_chunk(&mut self, cx: i32, cz: i32, c: ChunkData)
        requires
            old(self).wf(),
            c.wf(),
            c.plates_flag_sound(),
        ensures
            final(self).wf(),
            final(self).chunk_at(cx as int, cz as int) == Some(c),
            forall|a: int, b: int|
                (a, b) != (cx as int, cz as int) ==> final(self).chunk_at(a, b) == old(self).chunk_at(
                    a,
                    b,
                ),
    {
        let k = chunk_key_of(cx, cz);
        let was = self.chunks.contains_key(&k);
        self.chunks.insert(k, c);
        if !was {
            self.positions.push((cx, cz));
        }
        proof {
            assert forall|a: int, b: int| (a, b) != (cx as int, cz as int) implies self.chunk_at(a, b) == old(self).chunk_at(a, b) by {
                if i32::MIN <= a <= i32::MAX && i32::MIN <= b <= i32::MAX {
                    lemma_chunk_key_injective(a as i32, b as i32, cx, cz);
                }
            }
            assert forall|kk: u64| #[trigger] self.chunks@.contains_key(kk) implies exists|i: int|
                0 <= i < self.positions@.len() && chunk_key(#[trigger] self.positions@[i].0, self.positions@[i].1) == kk by {
                if kk == k {
                    if !was {
                        let last = self.positions@.len() - 1;
                        assert(self.positions@[last] == (cx, cz));
                        assert(chunk_key(self.positions@[last].0, self.positions@[last].1) == kk);
                    } else {
                        let i = choose|i: int| 0 <= i < old(self).positions@.len() && chunk_key(#[trigger] old(self).positions@[i].0, old(self).positions@[i].1) == kk;
                        assert(self.positions@[i] == old(self).positions@[i]);
                        assert(chunk_key(self.positions@[i].0, self.positions@[i].1) == kk);
                    }
                } else {
                    assert(old(self).chunks@.contains_key(kk));
                    let i = choose|i: int| 0 <= i < old(self).positions@.len() && chunk_key(#[trigger] old(self).positions@[i].0, old(self).positions@[i].1) == kk;
                    assert(self.positions@[i] == old(self).positions@[i]);
                    assert(chunk_key(self.positions@[i].0, self.positions@[i].1) == kk);
                }
            }
            assert forall|i: int, j: int| 0 <= i < j < self.positions@.len() implies #[trigger] self.positions@[i] != #[trigger] self.positions@[j] by {
                if !was && j == self.positions@.len() - 1 {
                    if self.positions@[i] == (cx, cz) {
                        assert(old(self).chunks@.contains_key(chunk_key(old(self).positions@[i].0, old(self).positions@[i].1)));
                    }
                }
            }
        }
    }

    /// Takes chunk (cx, cz) out of the table (it stays listed in the
    /// positions until it is put back with `restore_chunk`).
    fn take_chunk(&mut self, cx: i32, cz: i32) -> (r: Option<ChunkData>)
        requires
            old(self).wf(),
        ensures
            r == old(self).chunk_at(cx as int, cz as int),
            final(self).positions == old(self).positions,
            final(self).chunks@ == old(self).chunks@.remove(chunk_key(cx, cz)),
    {
        let k = chunk_key_of(cx, cz);
        self.chunks.remove(&k)
    }
}

/// Block at world coordinates (0 outside the height range or in an absent
/// chunk).
pub fn get_block(world: &WorldMap, x: i32, y: i32, z: i32) -> (v: u16)
    requires
        world.wf(),
    ensures
        v == world.block_at(x as int, y as int, z as int),
{
    if y < 0 || y >= 256 {
        return 0;
    }
    let (cx, lx) = split_coord(x);
    let (cz, lz) = split_coord(z);
    match world.get_chunk(cx, cz) {
        Some(c) => c.get(lx, y as usize, lz),
        None => 0,
    }
}

/// Stores a block (creating an all-air chunk if needed); heights outside
/// 0..256 are ignored. Storing a pressure plate sets the chunk's plate flag.
pub fn set_block(world: &mut WorldMap, x: i32, y: i32, z: i32, v: u16)
    requires
        old(world).wf(),
    ensures
        final(world).wf(),
        forall|a: int, b: int, c: int|
            #[trigger] final(world).block_at(a, b, c) == if a == x && b == y && c == z && 0 <= y
                < 256 {
                v
            } else {
                old(world).block_at(a, b, c)
            },
        !(0 <= y < 256) ==> *final(world) == *old(world),
        0 <= y < 256 ==> ({
            let (cx, cz) = (chunk_of(x as int), chunk_of(z as int));
            let c = final(world).chunk_at(cx, cz)->0;
            &&& final(world).chunk_at(cx, cz) is Some
            &&& c.biomes@ == match old(world).chunk_at(cx, cz) {
                Some(oc) => oc.biomes@,
                None => Seq::new(256, |i: int| 1u8),
            }
            &&& c.has_plates == (match old(world).chunk_at(cx, cz) {
                Some(oc) => oc.has_plates,
                None => false,
            } || spec_is_plate(v))
            &&& forall|a: int, b: int|
                (a, b) != (cx, cz) ==> #[trigger] final(world).chunk_at(a, b) == old(world).chunk_at(a, b)
        }),
{
    if y < 0 || y >= 256 {
        return;
    }
    let (cx, lx) = split_coord(x);
    let (cz, lz) = split_coord(z);
    let ghost old_world = *world;
    let mut chunk = match world.take_chunk(cx, cz) {
        Some(c) => c,
        None => ChunkData::default(),
    };
    let ghost before = chunk;
    chunk.set(lx, y as usize, lz, v);
    if is_plate(v) {
        chunk.has_plates = true;
    }
    proof {
        assert(world.positions == old_world.positions);
        assert(chunk.wf());
        let idx = chunk_index(lx as int, y as int, lz as int);
        if old_world.chunk_at(cx as int, cz as int) is Some {
            assert(old_world.chunks@.contains_key(chunk_key(cx, cz)));
        }
        assert(before.plates_flag_sound());
        if exists|i: int| 0 <= i < chunk.blocks@.len() && spec_is_plate(#[trigger] chunk.blocks@[i]) {
            let i = choose|i: int| 0 <= i < chunk.blocks@.len() && spec_is_plate(#[trigger] chunk.blocks@[i]);
            if i != idx {
                assert(before.blocks@[i] == chunk.blocks@[i]);
            }
        }
    }
    world.restore_chunk(cx, cz, chunk, Ghost(old_world));
    proof {
        if old_world.chunk_at(cx as int, cz as int) is None {
            assert(before.biomes@ =~= Seq::new(256, |i: int| 1u8));
        }
        let idx = chunk_index(lx as int, y as int, lz as int);
        assert forall|a: int, b: int, c: int| #[trigger] world.block_at(a, b, c) == if a == x && b == y && c == z && 0 <= y < 256 { v } else { old_world.block_at(a, b, c) } by {
            if 0 <= b < 256 && chunk_of(a) == cx && chunk_of(c) == cz {
                if chunk_index(local_of(a), b, local_of(c)) == idx {
                    assert(local_of(a) == lx && b == y && local_of(c) == lz);
                    assert(a == 16 * chunk_of(a) + local_of(a));
                    assert(c == 16 * chunk_of(c) + local_of(c));
                }
            }
        }
    }
}

impl WorldMap {
    /// Puts back a chunk taken out by `take_chunk` (or a new one).
    fn restore_chunk(&mut self, cx: i32, cz: i32, c: ChunkData, Ghost(prev): Ghost<WorldMap>)
        requires
            prev.wf(),
            c.wf(),
            c.plates_flag_sound(),
            old(self).positions == prev.positions,
            old(self).chunks@ == prev.chunks@.remove(chunk_key(cx, cz)),
        ensures
            final(self).wf(),
            final(self).chunk_at(cx as int, cz as int) == Some(c),
            forall|a: int, b: int|
                (a, b) != (cx as int, cz as int) ==> final(self).chunk_at(a, b) == prev.chunk_at(a, b),
            prev.chunks@.contains_key(chunk_key(cx, cz)) ==> final(self).positions == prev.positions,
            final(self).chunks@ == prev.chunks@.insert(chunk_key(cx, cz), c),
    {
        let k = chunk_key_of(cx, cz);
        let ghost was = prev.chunks@.contains_key(k);
        proof {
            if was {
                let j = choose|j: int| 0 <= j < prev.positions@.len() && chunk_key(#[trigger] prev.positions@[j].0, prev.positions@[j].1) == k;
                lemma_chunk_key_injective(prev.positions@[j].0, prev.positions@[j].1, cx, cz);
                assert(self.positions@[j] == (cx, cz));
            }
        }
        self.chunks.insert(k, c);
        let mut present = false;
        let mut i: usize = 0;
        while i < self.positions.len()
            invariant
                i <= self.positions@.len(),
                self.positions == prev.positions,
                present ==> exists|j: int| 0 <= j < self.positions@.len() && #[trigger] self.positions@[j] == (cx, cz),
                !present ==> forall|j: int| 0 <= j < i ==> #[trigger] self.positions@[j] != (cx, cz),
            decreases self.positions@.len() - i,
        {
            if self.positions[i].0 == cx && self.positions[i].1 == cz {
                present = true;
            }
            i = i + 1;
        }
        if !present {
            self.positions.push((cx, cz));
        }
        proof {
            assert forall|a: int, b: int| (a, b) != (cx as int, cz as int) implies self.chunk_at(a, b) == prev.chunk_at(a, b) by {
                if i32::MIN <= a <= i32::MAX && i32::MIN <= b <= i32::MAX {
                    lemma_chunk_key_injective(a as i32, b as i32, cx, cz);
                }
            }
            assert forall|kk: u64| #[trigger] self.chunks@.contains_key(kk) implies exists|j: int|
                0 <= j < self.positions@.len() && chunk_key(#[trigger] self.positions@[j].0, self.positions@[j].1) == kk by {
                if kk == k {
                    if !present {
                        let last = self.positions@.len() - 1;
                        assert(self.positions@[last] == (cx, cz));
                        assert(chunk_key(self.positions@[last].0, self.positions@[last].1) == kk);
                    } else {
                        let j = choose|j: int| 0 <= j < self.positions@.len() && #[trigger] self.positions@[j] == (cx, cz);
                        assert(chunk_key(self.positions@[j].0, self.positions@[j].1) == kk);
                    }
                } else {
                    assert(prev.chunks@.contains_key(kk));
                    let j = choose|j: int| 0 <= j < prev.positions@.len() && chunk_key(#[trigger] prev.positions@[j].0, prev.positions@[j].1) == kk;
                    assert(self.positions@[j] == prev.positions@[j]);
                    assert(chunk_key(self.positions@[j].0, self.positions@[j].1) == kk);
                }
            }
            assert forall|ii: int| 0 <= ii < self.positions@.len() implies self.chunks@.contains_key(
                chunk_key(#[trigger] self.positions@[ii].0, self.positions@[ii].1)) by {
                if ii < prev.positions@.len() {
                    assert(prev.chunks@.contains_key(chunk_key(prev.positions@[ii].0, prev.positions@[ii].1)));
                }
            }
            assert forall|ii: int, j: int| 0 <= ii < j < self.positions@.len() implies #[trigger] self.positions@[ii] != #[trigger] self.positions@[j] by {
                if !present && j == self.positions@.len() - 1 {
                    assert(self.positions@[ii] == prev.positions@[ii]);
                }
            }
        }
    }
}

/// `set_block` with the coordinates grouped in a tuple.
pub fn set_block_at(world: &mut WorldMap, pos: (i32, i32, i32), v: u16)
    requires
        old(world).wf(),
    ensures
        final(world).wf(),
        forall|a: int, b: int, c: int|
            #[trigger] final(world).block_at(a, b, c) == if a == pos.0 && b == pos.1 && c == pos.2
                && 0 <= pos.1 < 256 {
                v
            } else {
                old(world).block_at(a, b, c)
            },
{
    set_block(world, pos.0, pos.1, pos.2, v);
}

/// Height of the highest non-air block of column (x, z), if any.
pub fn surface_y(world: &WorldMap, x: i32, z: i32) -> (r: Option<i32>)
    requires
        world.wf(),
    ensures
        match r {
            Some(y) => 0 <= y < 256 && world.block_at(x as int, y as int, z as int) != 0 && forall|
                yy: int,
            | y < yy < 256 ==> #[trigger] world.block_at(x as int, yy, z as int) == 0,
            None => forall|yy: int| 0 <= yy < 256 ==> #[trigger] world.block_at(x as int, yy, z as int) == 0,
        },
{
    let mut y: i32 = 256;
    while y > 0
        invariant
            0 <= y <= 256,
            world.wf(),
            forall|yy: int| y <= yy < 256 ==> #[trigger] world.block_at(x as int, yy, z as int) == 0,
        decreases y,
    {
        if get_block(world, x, y - 1, z) != 0 {
            return Some(y - 1);
        }
        y = y - 1;
    }
    None
}

/// Highest y below `n` whose block in column (lx, lz) is not air, or -1.
pub open spec fn top_below(data: Seq<u16>, lx: int, lz: int, n: int) -> int
    decreases n,
{
    if n <= 0 {
        -1
    } else if data[chunk_index(lx, n - 1, lz)] != 0 {
        n - 1
    } else {
        top_below(data, lx, lz, n - 1)
    }
}

/// Height of the highest non-air block of a column of the chunk, or -1.
pub open spec fn column_height(data: Seq<u16>, lx: int, lz: int) -> int {
    top_below(data, lx, lz, 256)
}

/// Largest column height among the first `k` columns (column c is
/// x = c / 16, z = c % 16), and at least 0.
pub open spec fn max_height_upto(data: Seq<u16>, k: int) -> int
    decreases k,
{
    if k <= 0 {
        0
    } else {
        let h = column_height(data, (k - 1) / 16, (k - 1) % 16);
        let m = max_height_upto(data, k - 1);
        if h > m {
            h
        } else {
            m
        }
    }
}

/// Number of 16-block sections sent for a chunk: up to the highest
/// non-air block, between 1 and 16.
pub open spec fn section_count(data: Seq<u16>) -> int {
    let v = max_height_upto(data, 256) / 16 + 1;
    if v < 1 {
        1
    } else if v > 16 {
        16
    } else {
        v
    }
}

proof fn lemma_top_below_bounds(data: Seq<u16>, lx: int, lz: int, n: int)
    requires
        0 <= n <= 256,
    ensures
        -1 <= top_below(data, lx, lz, n) < n,
    decreases n,
{
    if n > 0 {
        lemma_top_below_bounds(data, lx, lz, n - 1);
    }
}

proof fn lemma_max_height_bounds(data: Seq<u16>, k: int)
    requires
        0 <= k <= 256,
    ensures
        0 <= max_height_upto(data, k) < 256,
    decreases k,
{
    if k > 0 {
        lemma_max_height_bounds(data, k - 1);
        lemma_top_below_bounds(data, (k - 1) / 16, (k - 1) % 16, 256);
    }
}

/// Height of each column (index x * 16 + z) and the section count, in one
/// pass over the chunk array.
pub fn compute_heightmap_and_sections(data: &[u16]) -> (r: (Vec<i32>, usize))
    requires
        data@.len() == CHUNK_LEN,
    ensures
        r.0@.len() == 256,
        forall|c: int| 0 <= c < 256 ==> #[trigger] r.0@[c] == column_height(data@, c / 16, c % 16),
        r.1 == section_count(data@),
{
    let mut heights: Vec<i32> = Vec::new();
    let mut max_y: i32 = 0;
    let mut c: usize = 0;
    while c < 256
        invariant
            c <= 256,
            data@.len() == CHUNK_LEN,
            heights@.len() == c,
            forall|i: int| 0 <= i < c ==> #[trigger] heights@[i] == column_height(data@, i / 16, i % 16),
            max_y == max_height_upto(data@, c as int),
            0 <= max_y < 256,
        decreases 256 - c,
    {
        let lx = c / 16;
        let lz = c % 16;
        let mut y: usize = 256;
        let mut h: i32 = -1;
        while y > 0
            invariant_except_break
                h == -1,
                top_below(data@, lx as int, lz as int, 256) == top_below(data@, lx as int, lz as int, y as int),
            invariant
                0 <= y <= 256,
                lx < 16,
                lz < 16,
                data@.len() == CHUNK_LEN,
            ensures
                h == column_height(data@, lx as int, lz as int),
                -1 <= h < 256,
            decreases y,
        {
            if data[(y - 1) * 256 + lz * 16 + lx] != 0 {
                h = (y - 1) as i32;
                break;
            }
            y = y - 1;
        }
        heights.push(h);
        if h > max_y {
            max_y = h;
        }
        c = c + 1;
    }
    proof {
        lemma_max_height_bounds(data@, 256);
    }
    let v = max_y / 16 + 1;
    let num_sections: usize = if v < 1 {
        1
    } else if v > 16 {
        16
    } else {
        v as usize
    };
    (heights, num_sections)
}

/// Heights of the columns of a chunk (index x * 16 + z), -1 for an empty one.
pub fn compute_heightmap(data: &[u16]) -> (h: Vec<i32>)
    requires
        data@.len() == CHUNK_LEN,
    ensures
        h@.len() == 256,
        forall|c: int| 0 <= c < 256 ==> #[trigger] h@[c] == column_height(data@, c / 16, c % 16),
{
    compute_heightmap_and_sections(data).0
}

/// Number of sections a chunk packet carries for this chunk.
pub fn chunk_section_count(data: &[u16]) -> (n: usize)
    requires
        data@.len() == CHUNK_LEN,
    ensures
        n == section_count(data@),
{
    compute_heightmap_and_sections(data).1
}

/// Two 4-bit values per byte: the even-indexed value in the low nibble.
pub open spec fn pack_spec(v: Seq<u8>) -> Seq<u8> {
    Seq::new(v.len() / 2, |j: int| ((v[2 * j + 1] % 16) * 16 + v[2 * j] % 16) as u8)
}

/// Packs 4096 nibble values into 2048 bytes.
pub fn pack_nibbles(values: &[u8]) -> (r: Vec<u8>)
    requires
        values@.len() == 4096,
    ensures
        r@ == pack_spec(values@),
{
    let mut result: Vec<u8> = Vec::with_capacity(2048);
    let mut i: usize = 0;
    while i < 2048
        invariant
            i <= 2048,
            values@.len() == 4096,
            result@ =~= pack_spec(values@).take(i as int),
        decreases 2048 - i,
    {
        let byte: u8 = (values[2 * i + 1] % 16) * 16 + values[2 * i] % 16;
        result.push(byte);
        i = i + 1;
    }
    assert(pack_spec(values@).take(2048) =~= pack_spec(values@));
    result
}

/// Sky light of block `i` of the chunk array: full at and above the
/// column's highest block, dark below.
pub open spec fn sky_value(data: Seq<u16>, i: int) -> u8 {
    if i / 256 >= column_height(data, i % 16, (i / 16) % 16) {
        15
    } else {
        0
    }
}

/// One 16-block section `section_y` of the chunk: low byte of each block,
/// its metadata, and its sky light (index y * 256 + z * 16 + x).
pub fn generate_section(data: &[u16], heights: &[i32], section_y: i32) -> (r: (
    Vec<u8>,
    Vec<u8>,
    Vec<u8>,
))
    requires
        data@.len() == CHUNK_LEN,
        heights@.len() == 256,
        0 <= section_y < 16,
    ensures
        r.0@.len() == 4096,
        r.1@.len() == 4096,
        r.2@.len() == 4096,
        forall|i: int|
            0 <= i < 4096 ==> #[trigger] r.0@[i] == (data@[section_y * 4096 + i] % 256) as u8,
        forall|i: int|
            0 <= i < 4096 ==> #[trigger] r.1@[i] == (data@[section_y * 4096 + i] / 4096) as u8,
        forall|i: int|
            0 <= i < 4096 ==> #[trigger] r.2@[i] == if section_y * 16 + i / 256 >= heights@[(i
                % 16) * 16 + (i / 16) % 16] {
                15u8
            } else {
                0u8
            },
{
    let mut block_data: Vec<u8> = Vec::with_capacity(4096);
    let mut block_meta: Vec<u8> = Vec::with_capacity(4096);
    let mut sky_light: Vec<u8> = Vec::with_capacity(4096);
    let base: usize = (section_y as usize) * 4096;
    let y_start: i32 = section_y * 16;
    let mut i: usize = 0;
    while i < 4096
        invariant
            i <= 4096,
            base == section_y * 4096,
            y_start == section_y * 16,
            0 <= section_y < 16,
            data@.len() == CHUNK_LEN,
            heights@.len() == 256,
            block_data@.len() == i,
            block_meta@.len() == i,
            sky_light@.len() == i,
            forall|j: int| 0 <= j < i ==> #[trigger] block_data@[j] == (data@[section_y * 4096 + j] % 256) as u8,
            forall|j: int| 0 <= j < i ==> #[trigger] block_meta@[j] == (data@[section_y * 4096 + j] / 4096) as u8,
            forall|j: int| 0 <= j < i ==> #[trigger] sky_light@[j] == if section_y * 16 + j / 256 >= heights@[(j
                % 16) * 16 + (j / 16) % 16] {
                15u8
            } else {
                0u8
            },
        decreases 4096 - i,
    {
        let stored = data[base + i];
        block_data.push((stored % 256) as u8);
        block_meta.push((stored / 4096) as u8);
        let wy: i32 = y_start + (i / 256) as i32;
        let col = (i % 16) * 16 + (i / 16) % 16;
        sky_light.push(if wy >= heights[col] {
            15
        } else {
            0
        });
        i = i + 1;
    }
    (block_data, block_meta, sky_light)
}

/// Output of flate2's zlib encoder at its fast level for `data`.
pub uninterp spec fn zlib_fast(data: Seq<u8>) -> Seq<u8>;

/// Compresses `data` with flate2's `ZlibEncoder` at `Compression::fast()`
/// into an in-memory buffer. The contract only names the result: the
/// compressed stream is a function of the input bytes and the level.
/// Writing to a `Vec` cannot fail, so the `expect`s never fire.
#[verifier::external_body]
fn zlib_compress_fast(data: &[u8]) -> (out: Vec<u8>)
    ensures
        out@ == zlib_fast(data@),
{
    let mut encoder = flate2::write::ZlibEncoder::new(Vec::new(), flate2::Compression::fast());
    std::io::Write::write_all(&mut encoder, data).expect("compress chunk");
    encoder.finish().expect("finish compression")
}

/// Uncompressed chunk data for `n` sections: block ids (low bytes), packed
/// metadata, zero block light, packed sky light, then the column biomes.
pub open spec fn chunk_payload(data: Seq<u16>, biomes: Seq<u8>, n: int) -> Seq<u8> {
    block_bytes(data, n * 4096) + pack_spec(meta_values(data, n * 4096)) + Seq::new(
        (n * 2048) as nat,
        |i: int| 0u8,
    ) + pack_spec(sky_values(data, n * 4096)) + biomes
}

/// Low byte of each of the first `len` blocks.
pub open spec fn block_bytes(data: Seq<u16>, len: int) -> Seq<u8> {
    Seq::new(len as nat, |i: int| (data[i] % 256) as u8)
}

/// Metadata of each of the first `len` blocks.
pub open spec fn meta_values(data: Seq<u16>, len: int) -> Seq<u8> {
    Seq::new(len as nat, |i: int| (data[i] / 4096) as u8)
}

/// Sky light of each of the first `len` blocks.
pub open spec fn sky_values(data: Seq<u16>, len: int) -> Seq<u8> {
    Seq::new(len as nat, |i: int| sky_value(data, i))
}

/// Bitmap of the sections sent: the low `n` bits.
pub open spec fn section_bitmap(n: int) -> nat {
    if n >= 16 {
        0xFFFF
    } else {
        (pow2(n as nat) - 1) as nat
    }
}

/// Chunk Data packet (0x21) for a chunk with these blocks and biomes.
pub open spec fn chunk_packet_bytes(cx: i32, cz: i32, data: Seq<u16>, biomes: Seq<u8>) -> Seq<u8> {
    let n = section_count(data);
    let compressed = zlib_fast(chunk_payload(data, biomes, n));
    packet_bytes(
        0x21,
        be_bytes(i32_bits(cx), 4) + be_bytes(i32_bits(cz), 4) + seq![1u8] + be_bytes(
            section_bitmap(n),
            2,
        ) + be_bytes(0, 2) + be_bytes(compressed.len() % 0x1_0000_0000, 4) + compressed,
    )
}

proof fn lemma_section_count_bounds(data: Seq<u16>)
    ensures
        1 <= section_count(data) <= 16,
{
}

/// Chunk Data packet for chunk (chunk_x, chunk_z): an absent chunk is sent
/// as all air with plains biomes.
pub fn build_chunk_packet(chunk_x: i32, chunk_z: i32, world: &WorldMap) -> (p: Vec<u8>)
    requires
        world.wf(),
    ensures
        match world.chunk_at(chunk_x as int, chunk_z as int) {
            Some(c) => p@ == chunk_packet_bytes(chunk_x, chunk_z, c.blocks@, c.biomes@),
            None => p@ == chunk_packet_bytes(
                chunk_x,
                chunk_z,
                Seq::new(CHUNK_LEN as nat, |i: int| 0u16),
                Seq::new(256, |i: int| 1u8),
            ),
        },
{
    let empty: ChunkData;
    let chunk: &ChunkData = match world.get_chunk(chunk_x, chunk_z) {
        Some(c) => c,
        None => {
            empty = ChunkData::default();
            assert(empty.blocks@ =~= Seq::new(CHUNK_LEN as nat, |i: int| 0u16));
            assert(empty.biomes@ =~= Seq::new(256, |i: int| 1u8));
            &empty
        },
    };
    let data: &[u16] = chunk.blocks.as_slice();
    let biomes: &[u8] = chunk.biomes.as_slice();
    let (heights, num_sections) = compute_heightmap_and_sections(data);
    proof {
        lemma_section_count_bounds(data@);
    }
    let n = num_sections;

    let mut raw: Vec<u8> = Vec::new();
    let mut s: usize = 0;
    while s < n
        invariant
            s <= n <= 16,
            data@.len() == CHUNK_LEN,
            heights@.len() == 256,
            forall|c: int| 0 <= c < 256 ==> #[trigger] heights@[c] == column_height(data@, c / 16, c % 16),
            raw@ =~= block_bytes(data@, s * 4096),
        decreases n - s,
    {
        let (blocks, _meta, _sky) = generate_section(data, heights.as_slice(), s as i32);
        let ghost prev = raw@;
        let ghost bl = blocks@;
        let mut b = blocks;
        raw.append(&mut b);
        proof {
            let target = block_bytes(data@, (s + 1) * 4096);
            assert forall|i: int| 0 <= i < (s + 1) * 4096 implies #[trigger] raw@[i] == target[i] by {
                if i >= s * 4096 {
                    let j = i - s * 4096;
                    assert(raw@[i] == bl[j]);
                    assert(bl[j] == (data@[s * 4096 + j] % 256) as u8);
                } else {
                    assert(raw@[i] == prev[i]);
                }
            }
            assert(raw@ =~= target);
        }
        s = s + 1;
    }
    let ghost end_blocks = raw@.len();
    s = 0;
    while s < n
        invariant
            s <= n <= 16,
            data@.len() == CHUNK_LEN,
            heights@.len() == 256,
            forall|c: int| 0 <= c < 256 ==> #[trigger] heights@[c] == column_height(data@, c / 16, c % 16),
            raw@ =~= block_bytes(data@, n * 4096) + pack_spec(meta_values(data@, s * 4096)),
        decreases n - s,
    {
        let (_blocks, meta, _sky) = generate_section(data, heights.as_slice(), s as i32);
        let mut packed = pack_nibbles(meta.as_slice());
        let ghost before = raw@;
        raw.append(&mut packed);
        proof {
            let lhs = pack_spec(meta_values(data@, (s + 1) * 4096));
            let rhs = pack_spec(meta_values(data@, s * 4096)) + pack_spec(meta@);
            assert forall|j: int| 0 <= j < lhs.len() implies lhs[j] == rhs[j] by {
                if j >= s * 2048 {
                    let jj = j - s * 2048;
                    assert(meta@[2 * jj] == (data@[s * 4096 + 2 * jj] / 4096) as u8);
                    assert(meta@[2 * jj + 1] == (data@[s * 4096 + 2 * jj + 1] / 4096) as u8);
                }
            }
            assert(lhs =~= rhs);
        }
        s = s + 1;
    }
    s = 0;
    while s < n
        invariant
            s <= n <= 16,
            raw@ =~= block_bytes(data@, n * 4096) + pack_spec(meta_values(data@, n * 4096))
                + Seq::new((s * 2048) as nat, |i: int| 0u8),
        decreases n - s,
    {
        let mut zeros: Vec<u8> = vec![0u8; 2048];
        raw.append(&mut zeros);
        s = s + 1;
    }
    s = 0;
    while s < n
        invariant
            s <= n <= 16,
            data@.len() == CHUNK_LEN,
            heights@.len() == 256,
            forall|c: int| 0 <= c < 256 ==> #[trigger] heights@[c] == column_height(data@, c / 16, c % 16),
            raw@ =~= block_bytes(data@, n * 4096) + pack_spec(meta_values(data@, n * 4096))
                + Seq::new((n * 2048) as nat, |i: int| 0u8) + pack_spec(sky_values(data@, s * 4096)),
        decreases n - s,
    {
        let (_blocks, _meta, sky) = generate_section(data, heights.as_slice(), s as i32);
        let mut packed = pack_nibbles(sky.as_slice());
        proof {
            assert forall|i: int| 0 <= i < 4096 implies #[trigger] sky@[i] == sky_value(data@, s * 4096 + i) by {
                let c = (i % 16) * 16 + (i / 16) % 16;
                lemma_section_index(s as int, i);
                assert(c / 16 == i % 16 && c % 16 == (i / 16) % 16);
                assert(heights@[c] == column_height(data@, c / 16, c % 16));
            }
            let lhs = pack_spec(sky_values(data@, (s + 1) * 4096));
            let rhs = pack_spec(sky_values(data@, s * 4096)) + pack_spec(sky@);
            assert forall|j: int| 0 <= j < lhs.len() implies lhs[j] == rhs[j] by {
                if j >= s * 2048 {
                    let jj = j - s * 2048;
                    assert(sky@[2 * jj] == sky_value(data@, s * 4096 + 2 * jj));
                    assert(sky@[2 * jj + 1] == sky_value(data@, s * 4096 + 2 * jj + 1));
                }
            }
            assert(lhs =~= rhs);
        }
        raw.append(&mut packed);
        s = s + 1;
    }
    raw.extend_from_slice(biomes);
    proof {
        assert(raw@ =~= chunk_payload(data@, biomes@, n as int));
    }
    let compressed = zlib_compress_fast(raw.as_slice());
    frame_chunk_packet(chunk_x, chunk_z, n, compressed.as_slice())
}

/// Chunk Data packet (0x21) around an already compressed payload: the chunk
/// coordinates, the ground-up flag, the bitmap of the low `sections`
/// sections, an empty add bitmap, the compressed length, then the bytes.
pub fn frame_chunk_packet(chunk_x: i32, chunk_z: i32, sections: usize, compressed: &[u8]) -> (p: Vec<u8>)
    requires
        1 <= sections <= 16,
    ensures
        p@ == packet_bytes(
            0x21,
            be_bytes(i32_bits(chunk_x), 4) + be_bytes(i32_bits(chunk_z), 4) + seq![1u8] + be_bytes(
                section_bitmap(sections as int),
                2,
            ) + be_bytes(0, 2) + be_bytes(compressed@.len() % 0x1_0000_0000, 4) + compressed@,
        ),
{
    let n = sections;
    let mut content: Vec<u8> = Vec::new();
    push_i32_be(&mut content, chunk_x);
    push_i32_be(&mut content, chunk_z);
    content.push(1u8);
    let primary_bitmap: u16 = if n >= 16 {
        0xFFFF
    } else {
        (pow2_u16(n as u16) - 1) as u16
    };
    push_u16_be(&mut content, primary_bitmap);
    push_u16_be(&mut content, 0);
    push_u32_be(&mut content, (compressed.len() as u64 % 0x1_0000_0000) as u32);
    content.extend_from_slice(compressed);
    build_packet(0x21, &mut content)
}

fn pow2_u16(k: u16) -> (p: u32)
    requires
        k < 16,
    ensures
        p as nat == pow2(k as nat),
        1 <= p <= 32768,
{
    let mut p: u32 = 1;
    let mut i: u16 = 0;
    proof {
        reveal_with_fuel(pow2, 16);
    }
    while i < k
        invariant
            i <= k < 16,
            p as nat == pow2(i as nat),
            1 <= p,
            pow2(15) == 32768,
        decreases k - i,
    {
        proof {
            lemma_pow2_mono((i + 1) as nat, 15);
        }
        p = p * 2;
        i = i + 1;
    }
    proof {
        lemma_pow2_mono(k as nat, 15);
    }
    p
}

proof fn lemma_section_index(s: int, i: int)
    requires
        0 <= s,
        0 <= i < 4096,
    ensures
        (s * 4096 + i) % 16 == i % 16,
        ((s * 4096 + i) / 16) % 16 == (i / 16) % 16,
        (s * 4096 + i) / 256 == s * 16 + i / 256,
{
    vstd::arithmetic::div_mod::lemma_mod_multiples_vanish(s * 256, i, 16);
    assert(16 * (s * 256) + i == s * 4096 + i);
    vstd::arithmetic::div_mod::lemma_hoist_over_denominator(i, s * 256, 16);
    assert(i + s * 256 * 16 == s * 4096 + i);
    vstd::arithmetic::div_mod::lemma_mod_multiples_vanish(s * 16, i / 16, 16);
    assert(16 * (s * 16) + i / 16 == s * 256 + i / 16);
    vstd::arithmetic::div_mod::lemma_hoist_over_denominator(i, s * 16, 256);
    assert(i + s * 16 * 256 == s * 4096 + i);
}

/// World position of entry `j` of the array of chunk (a, b).
pub open spec fn pos_of(a: int, b: int, j: int) -> (int, int, int) {
    (a * 16 + j % 16, j / 256, b * 16 + (j / 16) % 16)
}

/// Positions already visited when the scan is at chunk (a, b), entry `i`:
/// earlier chunk columns, earlier chunks of this column, earlier entries.
pub open spec fn visited(a: int, b: int, i: int, p: (int, int, int)) -> bool {
    ||| chunk_of(p.0) < a
    ||| chunk_of(p.0) == a && chunk_of(p.2) < b
    ||| chunk_of(p.0) == a && chunk_of(p.2) == b && 0 <= p.1 < 256 && chunk_index(
        local_of(p.0),
        p.1,
        local_of(p.2),
    ) < i
}

/// Position lies in a chunk of the square of radius `r` around (cx, cz).
pub open spec fn in_square(cx: int, cz: int, r: int, p: (int, int, int)) -> bool {
    &&& cx - r <= chunk_of(p.0) <= cx + r
    &&& cz - r <= chunk_of(p.2) <= cz + r
}

proof fn lemma_pos_of(a: int, b: int, j: int)
    requires
        0 <= j < CHUNK_LEN,
    ensures
        chunk_of(pos_of(a, b, j).0) == a,
        chunk_of(pos_of(a, b, j).2) == b,
        local_of(pos_of(a, b, j).0) == j % 16,
        local_of(pos_of(a, b, j).2) == (j / 16) % 16,
        0 <= pos_of(a, b, j).1 < 256,
        chunk_index(local_of(pos_of(a, b, j).0), pos_of(a, b, j).1, local_of(pos_of(a, b, j).2))
            == j,
{
    vstd::arithmetic::div_mod::lemma_fundamental_div_mod(j, 16);
    vstd::arithmetic::div_mod::lemma_fundamental_div_mod(j / 16, 16);
    assert(j / 16 / 16 == j / 256) by {
        vstd::arithmetic::div_mod::lemma_div_denominator(j, 16, 16);
    }
    vstd::arithmetic::div_mod::lemma_mod_multiples_vanish(a, j % 16, 16);
    vstd::arithmetic::div_mod::lemma_mod_multiples_vanish(b, (j / 16) % 16, 16);
    vstd::arithmetic::div_mod::lemma_hoist_over_denominator(j % 16, a, 16);
    vstd::arithmetic::div_mod::lemma_hoist_over_denominator((j / 16) % 16, b, 16);
    assert(16 * a + j % 16 == a * 16 + j % 16);
    assert(16 * b + (j / 16) % 16 == b * 16 + (j / 16) % 16);
}

proof fn lemma_pos_of_inverse(p: (int, int, int))
    requires
        0 <= p.1 < 256,
    ensures
        0 <= chunk_index(local_of(p.0), p.1, local_of(p.2)) < CHUNK_LEN,
        pos_of(chunk_of(p.0), chunk_of(p.2), chunk_index(local_of(p.0), p.1, local_of(p.2))) == p,
{
    let j = chunk_index(local_of(p.0), p.1, local_of(p.2));
    let lx = local_of(p.0);
    let lz = local_of(p.2);
    assert(0 <= lx < 16 && 0 <= lz < 16);
    assert(j % 16 == lx) by {
        vstd::arithmetic::div_mod::lemma_mod_multiples_vanish(p.1 * 16 + lz, lx, 16);
        assert(16 * (p.1 * 16 + lz) + lx == j);
    }
    assert(j / 16 == p.1 * 16 + lz) by {
        vstd::arithmetic::div_mod::lemma_hoist_over_denominator(lx, p.1 * 16 + lz, 16);
        assert(lx + (p.1 * 16 + lz) * 16 == j);
    }
    assert((j / 16) % 16 == lz) by {
        vstd::arithmetic::div_mod::lemma_mod_multiples_vanish(p.1, lz, 16);
    }
    assert(j / 256 == p.1) by {
        vstd::arithmetic::div_mod::lemma_hoist_over_denominator(lz * 16 + lx, p.1, 256);
        assert(lz * 16 + lx + p.1 * 256 == j);
    }
    assert(p.0 == chunk_of(p.0) * 16 + lx);
    assert(p.2 == chunk_of(p.2) * 16 + lz);
}

/// Every non-air block of the chunks within `radius` of chunk (cx, cz),
/// with its world position, each position once.
pub fn extract_view_snapshot(world: &WorldMap, cx: i32, cz: i32, radius: i32) -> (m: Vec<
    ((i32, i32, i32), u16),
>)
    requires
        world.wf(),
        -134217728 <= cx - radius <= 134217727,
        -134217728 <= cx + radius <= 134217727,
        -134217728 <= cz - radius <= 134217727,
        -134217728 <= cz + radius <= 134217727,
    ensures
        forall|k: int|
            0 <= k < m@.len() ==> {
                let e = #[trigger] m@[k];
                &&& e.1 != 0
                &&& world.block_at(e.0.0 as int, e.0.1 as int, e.0.2 as int) == e.1
                &&& in_square(cx as int, cz as int, radius as int, (e.0.0 as int, e.0.1 as int, e.0.2 as int))
            },
        forall|x: int, y: int, z: int|
            in_square(cx as int, cz as int, radius as int, (x, y, z)) && #[trigger] world.block_at(x, y, z)
                != 0 ==> exists|k: int|
                0 <= k < m@.len() && #[trigger] m@[k] == ((x as i32, y as i32, z as i32), world.block_at(x, y, z)),
        forall|k1: int, k2: int| 0 <= k1 < k2 < m@.len() ==> #[trigger] m@[k1].0 != #[trigger] m@[k2].0,
{
    let mut out: Vec<((i32, i32, i32), u16)> = Vec::new();
    let lo_x = cx - radius;
    let hi_x = cx + radius;
    let lo_z = cz - radius;
    let hi_z = cz + radius;
    let mut a: i32 = lo_x;
    while a <= hi_x
        invariant
            world.wf(),
            lo_x == cx - radius,
            hi_x == cx + radius,
            lo_z == cz - radius,
            hi_z == cz + radius,
            -134217728 <= lo_x && hi_x <= 134217727,
            -134217728 <= lo_z && hi_z <= 134217727,
            lo_x <= a,
            a <= hi_x + 1 || hi_x < lo_x,
            a == lo_x || a <= hi_x + 1,
            inv_entries(world, cx as int, cz as int, radius as int, out@, a as int, lo_z as int, 0),
            inv_complete(world, cx as int, cz as int, radius as int, out@, a as int, lo_z as int, 0),
        decreases hi_x + 1 - a,
    {
        let mut b: i32 = lo_z;
        while b <= hi_z
            invariant
                world.wf(),
                lo_x == cx - radius,
                hi_x == cx + radius,
                lo_z == cz - radius,
                hi_z == cz + radius,
                -134217728 <= lo_x && hi_x <= 134217727,
                -134217728 <= lo_z && hi_z <= 134217727,
                lo_x <= a <= hi_x,
                lo_z <= b,
                b <= hi_z + 1,
                inv_entries(world, cx as int, cz as int, radius as int, out@, a as int, b as int, 0),
                inv_complete(world, cx as int, cz as int, radius as int, out@, a as int, b as int, 0),
            decreases hi_z + 1 - b,
        {
            match world.get_chunk(a, b) {
                Some(chunk) => {
                    let mut i: usize = 0;
                    while i < CHUNK_LEN
                        invariant
                            world.wf(),
                            chunk.wf(),
                            world.chunk_at(a as int, b as int) == Some(*chunk),
                            lo_x == cx - radius,
                            hi_x == cx + radius,
                            lo_z == cz - radius,
                            hi_z == cz + radius,
                            -134217728 <= lo_x && hi_x <= 134217727,
                            -134217728 <= lo_z && hi_z <= 134217727,
                            lo_x <= a <= hi_x,
                            lo_z <= b <= hi_z,
                            i <= CHUNK_LEN,
                            inv_entries(world, cx as int, cz as int, radius as int, out@, a as int, b as int, i as int),
                            inv_complete(world, cx as int, cz as int, radius as int, out@, a as int, b as int, i as int),
                        decreases CHUNK_LEN - i,
                    {
                        let v = chunk.blocks[i];
                        let ghost before = out@;
                        proof {
                            lemma_pos_of(a as int, b as int, i as int);
                        }
                        if v != 0 {
                            let y = (i / 256) as i32;
                            let lz = ((i / 16) % 16) as i32;
                            let lx = (i % 16) as i32;
                            out.push(((a * 16 + lx, y, b * 16 + lz), v));
                        }
                        proof {
                            lemma_step_entry(world, cx as int, cz as int, radius as int, before, out@, a as int, b as int, i as int, v);
                        }
                        i = i + 1;
                    }
                    proof {
                        lemma_chunk_done(world, cx as int, cz as int, radius as int, out@, a as int, b as int);
                    }
                },
                None => {
                    proof {
                        lemma_chunk_absent(world, cx as int, cz as int, radius as int, out@, a as int, b as int);
                    }
                },
            }
            b = b + 1;
        }
        proof {
            lemma_row_done(world, cx as int, cz as int, radius as int, out@, a as int, b as int);
        }
        a = a + 1;
    }
    proof {
        lemma_scan_done(world, cx as int, cz as int, radius as int, out@, a as int, lo_z as int);
    }
    out
}

/// Entries found so far are sound, visited, and at distinct positions.
pub open spec fn inv_entries(
    world: &WorldMap,
    cx: int,
    cz: int,
    r: int,
    m: Seq<((i32, i32, i32), u16)>,
    a: int,
    b: int,
    i: int,
) -> bool {
    &&& forall|k: int|
        0 <= k < m.len() ==> {
            let e = #[trigger] m[k];
            &&& e.1 != 0
            &&& world.block_at(e.0.0 as int, e.0.1 as int, e.0.2 as int) == e.1
            &&& in_square(cx, cz, r, (e.0.0 as int, e.0.1 as int, e.0.2 as int))
            &&& visited(a, b, i, (e.0.0 as int, e.0.1 as int, e.0.2 as int))
        }
    &&& forall|k1: int, k2: int| 0 <= k1 < k2 < m.len() ==> #[trigger] m[k1].0 != #[trigger] m[k2].0
}

/// Every visited non-air block of the square has been found.
pub open spec fn inv_complete(
    world: &WorldMap,
    cx: int,
    cz: int,
    r: int,
    m: Seq<((i32, i32, i32), u16)>,
    a: int,
    b: int,
    i: int,
) -> bool {
    forall|x: int, y: int, z: int|
        in_square(cx, cz, r, (x, y, z)) && visited(a, b, i, (x, y, z)) && #[trigger] world.block_at(
            x,
            y,
            z,
        ) != 0 ==> exists|k: int|
            0 <= k < m.len() && #[trigger] m[k] == ((x as i32, y as i32, z as i32), world.block_at(x, y, z))
}

proof fn lemma_step_entry(
    world: &WorldMap,
    cx: int,
    cz: int,
    r: int,
    before: Seq<((i32, i32, i32), u16)>,
    after: Seq<((i32, i32, i32), u16)>,
    a: int,
    b: int,
    i: int,
    v: u16,
)
    requires
        world.wf(),
        0 <= i < CHUNK_LEN,
        cx - r <= a <= cx + r,
        cz - r <= b <= cz + r,
        -134217728 <= a <= 134217727,
        -134217728 <= b <= 134217727,
        world.chunk_at(a, b) is Some,
        world.chunk_at(a, b)->0.wf(),
        v == world.chunk_at(a, b)->0.blocks@[i],
        inv_entries(world, cx, cz, r, before, a, b, i),
        inv_complete(world, cx, cz, r, before, a, b, i),
        v == 0 ==> after == before,
        v != 0 ==> after == before.push(
            (
                (
                    (a * 16 + (i % 16)) as i32,
                    (i / 256) as i32,
                    (b * 16 + (i / 16) % 16) as i32,
                ),
                v,
            ),
        ),
    ensures
        inv_entries(world, cx, cz, r, after, a, b, i + 1),
        inv_complete(world, cx, cz, r, after, a, b, i + 1),
{
    let p = pos_of(a, b, i);
    lemma_pos_of(a, b, i);
    assert(world.block_at(p.0, p.1, p.2) == v);
    assert forall|k: int| 0 <= k < after.len() implies {
            let e = #[trigger] after[k];
            &&& e.1 != 0
            &&& world.block_at(e.0.0 as int, e.0.1 as int, e.0.2 as int) == e.1
            &&& in_square(cx, cz, r, (e.0.0 as int, e.0.1 as int, e.0.2 as int))
            &&& visited(a, b, i + 1, (e.0.0 as int, e.0.1 as int, e.0.2 as int))
        } by {
        if k < before.len() {
            assert(after[k] == before[k]);
        }
    }
    assert forall|k1: int, k2: int| 0 <= k1 < k2 < after.len() implies #[trigger] after[k1].0 != #[trigger] after[k2].0 by {
        if k2 < before.len() {
            assert(after[k1] == before[k1] && after[k2] == before[k2]);
        } else {
            let e = before[k1];
            assert(after[k1] == e);
            assert(visited(a, b, i, (e.0.0 as int, e.0.1 as int, e.0.2 as int)));
        }
    }
    assert forall|x: int, y: int, z: int|
        in_square(cx, cz, r, (x, y, z)) && visited(a, b, i + 1, (x, y, z)) && #[trigger] world.block_at(x, y, z) != 0
        implies exists|k: int| 0 <= k < after.len() && #[trigger] after[k] == ((x as i32, y as i32, z as i32), world.block_at(x, y, z)) by {
        if visited(a, b, i, (x, y, z)) {
            let k = choose|k: int| 0 <= k < before.len() && #[trigger] before[k] == ((x as i32, y as i32, z as i32), world.block_at(x, y, z));
            assert(after[k] == before[k]);
        } else {
            lemma_pos_of_inverse((x, y, z));
            assert(chunk_index(local_of(x), y, local_of(z)) == i);
            assert((x, y, z) == p);
            assert(after[before.len() as int] == ((x as i32, y as i32, z as i32), world.block_at(x, y, z)));
        }
    }
}

proof fn lemma_chunk_done(
    world: &WorldMap,
    cx: int,
    cz: int,
    r: int,
    m: Seq<((i32, i32, i32), u16)>,
    a: int,
    b: int,
)
    requires
        inv_entries(world, cx, cz, r, m, a, b, CHUNK_LEN as int),
        inv_complete(world, cx, cz, r, m, a, b, CHUNK_LEN as int),
    ensures
        inv_entries(world, cx, cz, r, m, a, b + 1, 0),
        inv_complete(world, cx, cz, r, m, a, b + 1, 0),
{
    assert forall|p: (int, int, int)| visited(a, b + 1, 0, p) && 0 <= p.1 < 256 implies visited(a, b, CHUNK_LEN as int, p) by {
        if chunk_of(p.0) == a && chunk_of(p.2) == b {
            lemma_pos_of_inverse(p);
        }
    }
    assert forall|k: int| 0 <= k < m.len() implies visited(a, b + 1, 0, (#[trigger] m[k].0.0 as int, m[k].0.1 as int, m[k].0.2 as int)) by {
    }
    assert forall|x: int, y: int, z: int|
        in_square(cx, cz, r, (x, y, z)) && visited(a, b + 1, 0, (x, y, z)) && #[trigger] world.block_at(x, y, z) != 0
        implies exists|k: int| 0 <= k < m.len() && #[trigger] m[k] == ((x as i32, y as i32, z as i32), world.block_at(x, y, z)) by {
        if chunk_of(x) == a && chunk_of(z) == b {
            lemma_pos_of_inverse((x, y, z));
        }
        assert(visited(a, b, CHUNK_LEN as int, (x, y, z)));
    }
}

proof fn lemma_chunk_absent(
    world: &WorldMap,
    cx: int,
    cz: int,
    r: int,
    m: Seq<((i32, i32, i32), u16)>,
    a: int,
    b: int,
)
    requires
        world.chunk_at(a, b) is None,
        inv_entries(world, cx, cz, r, m, a, b, 0),
        inv_complete(world, cx, cz, r, m, a, b, 0),
    ensures
        inv_entries(world, cx, cz, r, m, a, b + 1, 0),
        inv_complete(world, cx, cz, r, m, a, b + 1, 0),
{
    assert forall|k: int| 0 <= k < m.len() implies visited(a, b + 1, 0, (#[trigger] m[k].0.0 as int, m[k].0.1 as int, m[k].0.2 as int)) by {
    }
    assert forall|x: int, y: int, z: int|
        in_square(cx, cz, r, (x, y, z)) && visited(a, b + 1, 0, (x, y, z)) && #[trigger] world.block_at(x, y, z) != 0
        implies exists|k: int| 0 <= k < m.len() && #[trigger] m[k] == ((x as i32, y as i32, z as i32), world.block_at(x, y, z)) by {
        assert(visited(a, b, 0, (x, y, z)));
    }
}

proof fn lemma_row_done(
    world: &WorldMap,
    cx: int,
    cz: int,
    r: int,
    m: Seq<((i32, i32, i32), u16)>,
    a: int,
    b: int,
)
    requires
        b == cz + r + 1,
        inv_entries(world, cx, cz, r, m, a, b, 0),
        inv_complete(world, cx, cz, r, m, a, b, 0),
    ensures
        inv_entries(world, cx, cz, r, m, a + 1, cz - r, 0),
        inv_complete(world, cx, cz, r, m, a + 1, cz - r, 0),
{
    assert forall|k: int| 0 <= k < m.len() implies visited(a + 1, cz - r, 0, (#[trigger] m[k].0.0 as int, m[k].0.1 as int, m[k].0.2 as int)) by {
    }
    assert forall|x: int, y: int, z: int|
        in_square(cx, cz, r, (x, y, z)) && visited(a + 1, cz - r, 0, (x, y, z)) && #[trigger] world.block_at(x, y, z) != 0
        implies exists|k: int| 0 <= k < m.len() && #[trigger] m[k] == ((x as i32, y as i32, z as i32), world.block_at(x, y, z)) by {
        assert(visited(a, b, 0, (x, y, z)));
    }
}

proof fn lemma_scan_done(
    world: &WorldMap,
    cx: int,
    cz: int,
    r: int,
    m: Seq<((i32, i32, i32), u16)>,
    a: int,
    b: int,
)
    requires
        a > cx + r,
        inv_entries(world, cx, cz, r, m, a, b, 0),
        inv_complete(world, cx, cz, r, m, a, b, 0),
    ensures
        forall|x: int, y: int, z: int|
            in_square(cx, cz, r, (x, y, z)) && #[trigger] world.block_at(x, y, z) != 0 ==> exists|k: int|
                0 <= k < m.len() && #[trigger] m[k] == ((x as i32, y as i32, z as i32), world.block_at(x, y, z)),
{
    assert forall|x: int, y: int, z: int|
        in_square(cx, cz, r, (x, y, z)) && #[trigger] world.block_at(x, y, z) != 0
        implies exists|k: int| 0 <= k < m.len() && #[trigger] m[k] == ((x as i32, y as i32, z as i32), world.block_at(x, y, z)) by {
        assert(visited(a, b, 0, (x, y, z)));
    }
}


/// A stored value that is redstone wire carrying power.
pub open spec fn lit_dust(v: u16) -> bool {
    v % 4096 == 55 && v / 4096 > 0
}

/// Number of lit wires among the first `n` cells.
pub open spec fn count_lit(cells: Seq<u16>, n: int) -> nat
    decreases n,
{
    if n <= 0 {
        0
    } else {
        count_lit(cells, n - 1) + if lit_dust(cells[n - 1]) {
            1nat
        } else {
            0nat
        }
    }
}

proof fn lemma_count_lit_update(cells: Seq<u16>, n: int, i: int, v: u16)
    requires
        0 <= i < n <= cells.len(),
        lit_dust(cells[i]),
        !lit_dust(v),
    ensures
        count_lit(cells.update(i, v), n) + 1 == count_lit(cells, n),
    decreases n,
{
    if n - 1 > i {
        lemma_count_lit_update(cells, n - 1, i, v);
    } else {
        lemma_count_lit_same(cells, cells.update(i, v), i);
    }
}

proof fn lemma_count_lit_same(a: Seq<u16>, b: Seq<u16>, n: int)
    requires
        0 <= n <= a.len(),
        n <= b.len(),
        forall|j: int| 0 <= j < n ==> a[j] == b[j],
    ensures
        count_lit(a, n) == count_lit(b, n),
    decreases n,
{
    if n > 0 {
        lemma_count_lit_same(a, b, n - 1);
    }
}

impl WorldMap {
    /// Lit wires in the chunks listed among the first `k` positions.
    pub closed spec fn lit_upto(&self, k: int) -> nat
        decreases k,
    {
        if k <= 0 {
            0
        } else {
            let p = self.positions@[k - 1];
            self.lit_upto(k - 1) + count_lit(self.chunks@[chunk_key(p.0, p.1)].blocks@, CHUNK_LEN as int)
        }
    }

    /// Number of lit redstone wires in the world.
    pub closed spec fn lit_count(&self) -> nat {
        self.lit_upto(self.positions@.len() as int)
    }
}

spec fn same_chunks_except(a: WorldMap, b: WorldMap, key: u64) -> bool {
    forall|kk: u64|
        kk != key ==> #[trigger] a.chunks@.contains_key(kk) == b.chunks@.contains_key(kk) && (
            a.chunks@.contains_key(kk) ==> a.chunks@[kk] == b.chunks@[kk])
}

proof fn lemma_lit_upto_change(a: WorldMap, b: WorldMap, key: u64, j: int, k: int)
    requires
        a.wf(),
        a.positions == b.positions,
        0 <= j < a.positions@.len(),
        chunk_key(a.positions@[j].0, a.positions@[j].1) == key,
        0 <= k <= a.positions@.len(),
        same_chunks_except(a, b, key),
    ensures
        k <= j ==> a.lit_upto(k) == b.lit_upto(k),
        k > j ==> a.lit_upto(k) - count_lit(a.chunks@[key].blocks@, CHUNK_LEN as int) == b.lit_upto(
            k,
        ) - count_lit(b.chunks@[key].blocks@, CHUNK_LEN as int),
    decreases k,
{
    if k > 0 {
        lemma_lit_upto_change(a, b, key, j, k - 1);
        let p = a.positions@[k - 1];
        if k - 1 != j {
            assert(a.positions@[k - 1] != a.positions@[j]);
            lemma_chunk_key_injective(p.0, p.1, a.positions@[j].0, a.positions@[j].1);
            assert(a.chunks@.contains_key(chunk_key(p.0, p.1)));
            assert(a.chunks@[chunk_key(p.0, p.1)] == b.chunks@[chunk_key(p.0, p.1)]);
        }
    }
}

/// Turns the lit wire at (x, y, z) off (stores plain wire, id 55): one lit
/// wire less in the world.
pub fn unlight_dust(world: &mut WorldMap, x: i32, y: i32, z: i32)
    requires
        old(world).wf(),
        0 <= y < 256,
        lit_dust(old(world).block_at(x as int, y as int, z as int)),
    ensures
        final(world).wf(),
        forall|a: int, b: int, c: int|
            #[trigger] final(world).block_at(a, b, c) == if a == x && b == y && c == z {
                55u16
            } else {
                old(world).block_at(a, b, c)
            },
        final(world).lit_count() + 1 == old(world).lit_count(),
{
    let (cx, lx) = split_coord(x);
    let (cz, lz) = split_coord(z);
    let ghost old_world = *world;
    let ghost key = chunk_key(cx, cz);
    let mut chunk = match world.take_chunk(cx, cz) {
        Some(c) => c,
        None => ChunkData::default(),
    };
    let ghost before = chunk;
    proof {
        assert(old_world.chunk_at(cx as int, cz as int) is Some);
        assert(old_world.chunks@.contains_key(key));
        assert(before == old_world.chunks@[key]);
    }
    chunk.set(lx, y as usize, lz, 55);
    world.restore_chunk(cx, cz, chunk, Ghost(old_world));
    proof {
        let idx = chunk_index(lx as int, y as int, lz as int);
        assert(0 <= idx < CHUNK_LEN) by {
            assert(0 <= lx < 16 && 0 <= lz < 16 && 0 <= y < 256);
        }
        assert forall|a: int, b: int, c: int| #[trigger] world.block_at(a, b, c) == if a == x && b == y && c == z { 55u16 } else { old_world.block_at(a, b, c) } by {
            if 0 <= b < 256 && chunk_of(a) == cx && chunk_of(c) == cz {
                if chunk_index(local_of(a), b, local_of(c)) == idx {
                    assert(local_of(a) == lx && b == y && local_of(c) == lz);
                    assert(a == 16 * chunk_of(a) + local_of(a));
                    assert(c == 16 * chunk_of(c) + local_of(c));
                }
            }
        }
        lemma_count_lit_update(before.blocks@, CHUNK_LEN as int, idx, 55u16);
        let j = choose|j: int| 0 <= j < old_world.positions@.len() && chunk_key(#[trigger] old_world.positions@[j].0, old_world.positions@[j].1) == key;
        lemma_lit_upto_change(old_world, *world, key, j, old_world.positions@.len() as int);
    }
}


/// A stored value that holds a block (its id is not air).
pub open spec fn solid_cell(v: u16) -> bool {
    v % 4096 != 0
}

/// Number of cells holding a block among the first `n` cells.
pub open spec fn count_solid(cells: Seq<u16>, n: int) -> nat
    decreases n,
{
    if n <= 0 {
        0
    } else {
        count_solid(cells, n - 1) + if solid_cell(cells[n - 1]) {
            1nat
        } else {
            0nat
        }
    }
}

proof fn lemma_count_solid_update(cells: Seq<u16>, n: int, i: int, v: u16)
    requires
        0 <= i < n <= cells.len(),
        solid_cell(cells[i]),
        !solid_cell(v),
    ensures
        count_solid(cells.update(i, v), n) + 1 == count_solid(cells, n),
    decreases n,
{
    if n - 1 > i {
        lemma_count_solid_update(cells, n - 1, i, v);
    } else {
        lemma_count_solid_same(cells, cells.update(i, v), i);
    }
}

proof fn lemma_count_solid_same(a: Seq<u16>, b: Seq<u16>, n: int)
    requires
        0 <= n <= a.len(),
        n <= b.len(),
        forall|j: int| 0 <= j < n ==> a[j] == b[j],
    ensures
        count_solid(a, n) == count_solid(b, n),
    decreases n,
{
    if n > 0 {
        lemma_count_solid_same(a, b, n - 1);
    }
}

impl WorldMap {
    /// Cells holding a block in the chunks listed among the first `k` positions.
    pub closed spec fn solid_upto(&self, k: int) -> nat
        decreases k,
    {
        if k <= 0 {
            0
        } else {
            let p = self.positions@[k - 1];
            self.solid_upto(k - 1) + count_solid(self.chunks@[chunk_key(p.0, p.1)].blocks@, CHUNK_LEN as int)
        }
    }

    /// Number of cells holding a block in the world.
    pub closed spec fn solid_count(&self) -> nat {
        self.solid_upto(self.positions@.len() as int)
    }
}


proof fn lemma_solid_upto_change(a: WorldMap, b: WorldMap, key: u64, j: int, k: int)
    requires
        a.wf(),
        a.positions == b.positions,
        0 <= j < a.positions@.len(),
        chunk_key(a.positions@[j].0, a.positions@[j].1) == key,
        0 <= k <= a.positions@.len(),
        same_chunks_except(a, b, key),
    ensures
        k <= j ==> a.solid_upto(k) == b.solid_upto(k),
        k > j ==> a.solid_upto(k) - count_solid(a.chunks@[key].blocks@, CHUNK_LEN as int) == b.solid_upto(
            k,
        ) - count_solid(b.chunks@[key].blocks@, CHUNK_LEN as int),
    decreases k,
{
    if k > 0 {
        lemma_solid_upto_change(a, b, key, j, k - 1);
        let p = a.positions@[k - 1];
        if k - 1 != j {
            assert(a.positions@[k - 1] != a.positions@[j]);
            lemma_chunk_key_injective(p.0, p.1, a.positions@[j].0, a.positions@[j].1);
            assert(a.chunks@.contains_key(chunk_key(p.0, p.1)));
            assert(a.chunks@[chunk_key(p.0, p.1)] == b.chunks@[chunk_key(p.0, p.1)]);
        }
    }
}

/// Turns the block at (x, y, z) into air: one cell holding a block less in
/// the world.
pub fn clear_block(world: &mut WorldMap, x: i32, y: i32, z: i32)
    requires
        old(world).wf(),
        0 <= y < 256,
        solid_cell(old(world).block_at(x as int, y as int, z as int)),
    ensures
        final(world).wf(),
        forall|a: int, b: int, c: int|
            #[trigger] final(world).block_at(a, b, c) == if a == x && b == y && c == z {
                0u16
            } else {
                old(world).block_at(a, b, c)
            },
        final(world).solid_count() + 1 == old(world).solid_count(),
{
    let (cx, lx) = split_coord(x);
    let (cz, lz) = split_coord(z);
    let ghost old_world = *world;
    let ghost key = chunk_key(cx, cz);
    let mut chunk = match world.take_chunk(cx, cz) {
        Some(c) => c,
        None => ChunkData::default(),
    };
    let ghost before = chunk;
    proof {
        assert(old_world.chunk_at(cx as int, cz as int) is Some);
        assert(old_world.chunks@.contains_key(key));
        assert(before == old_world.chunks@[key]);
    }
    chunk.set(lx, y as usize, lz, 0);
    world.restore_chunk(cx, cz, chunk, Ghost(old_world));
    proof {
        let idx = chunk_index(lx as int, y as int, lz as int);
        assert(0 <= idx < CHUNK_LEN) by {
            assert(0 <= lx < 16 && 0 <= lz < 16 && 0 <= y < 256);
        }
        assert forall|a: int, b: int, c: int| #[trigger] world.block_at(a, b, c) == if a == x && b == y && c == z { 0u16 } else { old_world.block_at(a, b, c) } by {
            if 0 <= b < 256 && chunk_of(a) == cx && chunk_of(c) == cz {
                if chunk_index(local_of(a), b, local_of(c)) == idx {
                    assert(local_of(a) == lx && b == y && local_of(c) == lz);
                    assert(a == 16 * chunk_of(a) + local_of(a));
                    assert(c == 16 * chunk_of(c) + local_of(c));
                }
            }
        }
        lemma_count_solid_update(before.blocks@, CHUNK_LEN as int, idx, 0u16);
        let j = choose|j: int| 0 <= j < old_world.positions@.len() && chunk_key(#[trigger] old_world.positions@[j].0, old_world.positions@[j].1) == key;
        lemma_solid_upto_change(old_world, *world, key, j, old_world.positions@.len() as int);
    }
}


/// The cells of a generated chunk with the stored cells `edits` laid over
/// its first cells.
pub open spec fn overlaid(data: Seq<u16>, edits: Seq<u16>) -> Seq<u16> {
    Seq::new(data.len(), |j: int| if j < edits.len() { edits[j] } else { data[j] })
}

/// Merges a generated chunk into the world: the saved cells `edits` (the
/// cells of the chunk's file, zeros included) replace the generated ones,
/// the plate flag tells whether the chunk holds a pressure plate, and the
/// chunk is stored at (cx, cz).
pub fn merge_chunk(world: &mut WorldMap, cx: i32, cz: i32, data: Vec<u16>, biomes: Vec<u8>, edits: &[u16])
    requires
        old(world).wf(),
        data@.len() == CHUNK_LEN,
        biomes@.len() == 256,
    ensures
        final(world).wf(),
        ({
            let blocks = overlaid(data@, edits@);
            &&& final(world).chunk_at(cx as int, cz as int) is Some
            &&& final(world).chunk_at(cx as int, cz as int)->0.blocks@ == blocks
            &&& final(world).chunk_at(cx as int, cz as int)->0.biomes@ == biomes@
            &&& final(world).chunk_at(cx as int, cz as int)->0.has_plates == exists|i: int|
                0 <= i < CHUNK_LEN && spec_is_plate(#[trigger] blocks[i])
        }),
        forall|a: int, b: int|
            (a, b) != (cx as int, cz as int) ==> final(world).chunk_at(a, b) == old(world).chunk_at(a, b),
{
    let mut blocks = data;
    crate::save::apply_edits(&mut blocks, edits);
    proof {
        assert(blocks@ =~= overlaid(data@, edits@));
    }
    let mut has_plates = false;
    let mut i: usize = 0;
    while i < CHUNK_LEN
        invariant_except_break
            !has_plates,
        invariant
            i <= CHUNK_LEN,
            blocks@.len() == CHUNK_LEN,
            forall|j: int| 0 <= j < i ==> !spec_is_plate(#[trigger] blocks@[j]),
        ensures
            has_plates == exists|j: int| 0 <= j < CHUNK_LEN && spec_is_plate(#[trigger] blocks@[j]),
        decreases CHUNK_LEN - i,
    {
        if is_plate(blocks[i]) {
            has_plates = true;
            assert(spec_is_plate(blocks@[i as int]));
            break;
        }
        i += 1;
    }
    let c = ChunkData { blocks, biomes, has_plates };
    world.insert_chunk(cx, cz, c);
}

} // verus!
