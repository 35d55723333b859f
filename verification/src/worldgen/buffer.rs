//! The dense 16 x 16 x 256 buffer of a chunk being generated.
//!
//! Generation works in this array and the result is then merged into the
//! world map; one buffer is allocated per generated chunk.

use vstd::prelude::*;
use crate::world::{chunk_index, chunk_of, local_of, split_coord};

verus! {

/// Width of a chunk in blocks.
pub const CHUNK_SIZE: usize = 16;

/// Height of the world in blocks.
pub const WORLD_HEIGHT: usize = 256;

/// Number of cells of a buffer.
pub const BUFFER_LEN: usize = 65536;

/// Whether world coordinates (x, z) fall in chunk (cx, cz).
pub open spec fn in_chunk(cx: i32, cz: i32, x: int, z: int) -> bool {
    chunk_of(x) == cx && chunk_of(z) == cz
}

/// Cell of world position (x, y, z) inside its chunk.
pub open spec fn world_cell(x: int, y: int, z: int) -> int {
    chunk_index(local_of(x), y, local_of(z))
}

/// Whether (x, y, z) is a position of chunk (cx, cz) inside the height range.
pub open spec fn in_buffer(cx: i32, cz: i32, x: int, y: int, z: int) -> bool {
    in_chunk(cx, cz, x, z) && 0 <= y < 256
}

/// What a buffer of chunk (cx, cz) reads at world position (x, y, z).
pub open spec fn world_read(cells: Seq<u16>, cx: i32, cz: i32, x: int, y: int, z: int) -> Option<
    u16,
> {
    if in_buffer(cx, cz, x, y, z) {
        Some(cells[world_cell(x, y, z)])
    } else {
        None
    }
}

/// The cells of a buffer of chunk (cx, cz) after writing `v` at world
/// position (x, y, z).
pub open spec fn world_written(
    cells: Seq<u16>,
    cx: i32,
    cz: i32,
    x: int,
    y: int,
    z: int,
    v: u16,
) -> Seq<u16> {
    if in_buffer(cx, cz, x, y, z) {
        cells.update(world_cell(x, y, z), v)
    } else {
        cells
    }
}

/// A write at world coordinates is read back at the same position when it
/// falls in the chunk, and leaves every other position as it was.
pub proof fn world_write_then_read(
    cells: Seq<u16>,
    cx: i32,
    cz: i32,
    x: int,
    y: int,
    z: int,
    v: u16,
    x2: int,
    y2: int,
    z2: int,
)
    requires
        cells.len() == BUFFER_LEN,
    ensures
        world_read(world_written(cells, cx, cz, x, y, z, v), cx, cz, x2, y2, z2) == if x2 == x
            && y2 == y && z2 == z && in_buffer(cx, cz, x, y, z) {
            Some(v)
        } else {
            world_read(cells, cx, cz, x2, y2, z2)
        },
{
    if in_buffer(cx, cz, x, y, z) && in_buffer(cx, cz, x2, y2, z2) && !(x2 == x && y2 == y && z2
        == z) {
        lemma_world_cell_distinct(x, y, z, x2, y2, z2);
    }
}

pub(crate) proof fn lemma_world_cell_distinct(x: int, y: int, z: int, x2: int, y2: int, z2: int)
    requires
        chunk_of(x) == chunk_of(x2),
        chunk_of(z) == chunk_of(z2),
        0 <= y < 256,
        0 <= y2 < 256,
        !(x2 == x && y2 == y && z2 == z),
    ensures
        world_cell(x, y, z) != world_cell(x2, y2, z2),
{
    let (lx, lz, lx2, lz2) = (local_of(x), local_of(z), local_of(x2), local_of(z2));
    assert(x == 16 * chunk_of(x) + lx && x2 == 16 * chunk_of(x2) + lx2);
    assert(z == 16 * chunk_of(z) + lz && z2 == 16 * chunk_of(z2) + lz2);
    assert(0 <= lx < 16 && 0 <= lz < 16 && 0 <= lx2 < 16 && 0 <= lz2 < 16);
    if world_cell(x, y, z) == world_cell(x2, y2, z2) {
        assert(y * 256 + lz * 16 + lx == y2 * 256 + lz2 * 16 + lx2);
        assert(y == y2 && lz == lz2 && lx == lx2) by (nonlinear_arith)
            requires
                y * 256 + lz * 16 + lx == y2 * 256 + lz2 * 16 + lx2,
                0 <= lx < 16,
                0 <= lz < 16,
                0 <= lx2 < 16,
                0 <= lz2 < 16,
        ;
    }
}

/// The cells holding a non-zero value among the first `n`, with their
/// index, in increasing order.
pub open spec fn nonzero_upto(cells: Seq<u16>, n: nat) -> Seq<(usize, u16)>
    decreases n,
{
    if n == 0 {
        Seq::empty()
    } else {
        let prev = nonzero_upto(cells, (n - 1) as nat);
        if cells[n - 1] != 0 {
            prev.push(((n - 1) as usize, cells[n - 1]))
        } else {
            prev
        }
    }
}

/// Dense buffer indexed by (y, z, x), attached to chunk (cx, cz).
pub struct ChunkBuffer {
    pub cx: i32,
    pub cz: i32,
    /// Cells, index `chunk_index(x, y, z)`.
    pub blocks: Vec<u16>,
    /// Biome of each column (index z * 16 + x, protocol ids), sent as is in
    /// the chunk packet.
    pub biomes: Vec<u8>,
}

impl ChunkBuffer {
    /// The cells, in index order.
    pub open spec fn cells(&self) -> Seq<u16> {
        self.blocks@
    }

    /// Both arrays have their size.
    pub open spec fn wf(&self) -> bool {
        &&& self.blocks@.len() == BUFFER_LEN
        &&& self.biomes@.len() == 256
    }

    /// An all-air buffer for chunk (cx, cz), biomes all 0.
    pub fn new(cx: i32, cz: i32) -> (b: Self)
        ensures
            b.wf(),
            b.cx == cx,
            b.cz == cz,
            b.cells().len() == BUFFER_LEN,
            forall|i: int| 0 <= i < BUFFER_LEN ==> #[trigger] b.cells()[i] == 0,
            b.biomes@.len() == 256,
            forall|i: int| 0 <= i < 256 ==> #[trigger] b.biomes@[i] == 0,
    {
        ChunkBuffer { cx, cz, blocks: vec![0u16; BUFFER_LEN], biomes: vec![0u8; 256] }
    }

    /// Index of local cell (x, y, z): `(y << 8) | (z << 4) | x`.
    pub fn idx(x: usize, y: usize, z: usize) -> (i: usize)
        ensures
            i == ((y << 8usize) | (z << 4usize) | x),
            x < 16 && y < 256 && z < 16 ==> i == chunk_index(x as int, y as int, z as int),
    {
        let i = (y << 8usize) | (z << 4usize) | x;
        if x < 16 && y < 256 && z < 16 {
            assert(((y << 8usize) | (z << 4usize) | x) == y * 256 + z * 16 + x) by (bit_vector)
                requires
                    x < 16,
                    y < 256,
                    z < 16,
            ;
        }
        i
    }

    /// Value of local cell (x, y, z).
    pub fn get(&self, x: usize, y: usize, z: usize) -> (v: u16)
        requires
            self.wf(),
            x < 16,
            y < 256,
            z < 16,
        ensures
            v == self.cells()[chunk_index(x as int, y as int, z as int)],
    {
        self.blocks[Self::idx(x, y, z)]
    }

    /// Stores a value in local cell (x, y, z).
    pub fn set(&mut self, x: usize, y: usize, z: usize, v: u16)
        requires
            old(self).wf(),
            x < 16,
            y < 256,
            z < 16,
        ensures
            final(self).wf(),
            final(self).cells() == old(self).cells().update(
                chunk_index(x as int, y as int, z as int),
                v,
            ),
            final(self).cx == old(self).cx,
            final(self).cz == old(self).cz,
            final(self).biomes == old(self).biomes,
    {
        let i = Self::idx(x, y, z);
        self.blocks.set(i, v);
    }

    /// Stores a value at world coordinates when the position falls in this
    /// chunk and in the height range; otherwise nothing changes (features of
    /// neighbouring chunks overflow here, and each chunk writes its part).
    pub fn set_world(&mut self, wx: i32, wy: i32, wz: i32, v: u16)
        requires
            old(self).wf(),
        ensures
            final(self).wf(),
            final(self).cells() == world_written(
                old(self).cells(),
                old(self).cx,
                old(self).cz,
                wx as int,
                wy as int,
                wz as int,
                v,
            ),
            final(self).cx == old(self).cx,
            final(self).cz == old(self).cz,
            final(self).biomes == old(self).biomes,
    {
        let (cx, lx) = split_coord(wx);
        let (cz, lz) = split_coord(wz);
        if cx != self.cx || cz != self.cz {
            return;
        }
        if wy < 0 || wy >= 256 {
            return;
        }
        self.set(lx, wy as usize, lz, v);
    }

    /// Value at world coordinates, when the position is in this chunk and
    /// in the height range.
    pub fn get_world(&self, wx: i32, wy: i32, wz: i32) -> (r: Option<u16>)
        requires
            self.wf(),
        ensures
            r == world_read(self.cells(), self.cx, self.cz, wx as int, wy as int, wz as int),
    {
        let (cx, lx) = split_coord(wx);
        let (cz, lz) = split_coord(wz);
        if cx != self.cx || cz != self.cz || wy < 0 || wy >= 256 {
            return None;
        }
        Some(self.get(lx, wy as usize, lz))
    }

    /// The non-zero cells with their index, in increasing index order.
    pub fn iter_nonzero(&self) -> (r: Vec<(usize, u16)>)
        requires
            self.wf(),
        ensures
            r@ == nonzero_upto(self.cells(), BUFFER_LEN as nat),
    {
        let mut out: Vec<(usize, u16)> = Vec::new();
        let mut i: usize = 0;
        while i < BUFFER_LEN
            invariant
                self.wf(),
                i <= BUFFER_LEN,
                out@ == nonzero_upto(self.cells(), i as nat),
            decreases BUFFER_LEN - i,
        {
            let v = self.blocks[i];
            if v != 0 {
                out.push((i, v));
            }
            i += 1;
        }
        out
    }

    /// Consumes the buffer: (cells, biome of each column).
    pub fn into_parts(self) -> (r: (Vec<u16>, Vec<u8>))
        ensures
            r.0@ == self.cells(),
            r.1@ == self.biomes@,
    {
        (self.blocks, self.biomes)
    }
}

/// Stored value of a block id with metadata: id in the low 12 bits, meta in
/// the high 4.
pub fn bm(id: u16, meta: u8) -> (v: u16)
    ensures
        v == (id | ((meta as u16) << 12u16)),
        id < 4096 && meta < 16 ==> v == id + meta * 4096,
{
    let m: u16 = meta as u16;
    let v = id | (m << 12u16);
    if id < 4096 && meta < 16 {
        assert((id | (m << 12u16)) == id + m * 4096) by (bit_vector)
            requires
                id < 4096,
                m < 16,
        ;
    }
    v
}

/// Stored value of a block id with meta 0.
pub fn b(id: u16) -> (v: u16)
    ensures
        v == id,
{
    id
}

} // verus!
