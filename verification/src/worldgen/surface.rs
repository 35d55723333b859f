//! Surface pass: the top layers of a column take the materials of its
//! biome (grass, sand, sandstone, gravel, clay...).

use vstd::prelude::*;
use crate::world::chunk_index;
use crate::worldgen::buffer::{ChunkBuffer, BUFFER_LEN};

verus! {

pub const DIRT: u16 = 3;
pub const SAND: u16 = 12;
pub const GRAVEL: u16 = 13;
pub const CLAY: u16 = 82;
pub const SNOW_LAYER: u16 = 78;
pub const ICE: u16 = 79;
pub const STONE: u16 = 1;
pub const MYCELIUM: u16 = 110;

/// Whether cell `i` lies in column (lx, lz).
pub open spec fn in_column(i: int, lx: int, lz: int) -> bool {
    i % 16 == lx && (i / 16) % 16 == lz
}

/// Lowest height of the filler layer of a column topped at `h` with a
/// filler `depth` blocks deep (never below height 1).
pub open spec fn filler_bottom(h: int, depth: int) -> int {
    if h - depth > 1 {
        h - depth
    } else {
        1
    }
}

/// Cell `i` once column (lx, lz) is topped with `top` at height `h` over
/// `depth` blocks of `filler`.
pub open spec fn filled_cell(
    cells: Seq<u16>,
    lx: int,
    lz: int,
    h: int,
    top: u16,
    filler: u16,
    depth: int,
    i: int,
) -> u16 {
    if in_column(i, lx, lz) && i / 256 == h {
        top
    } else if in_column(i, lx, lz) && filler_bottom(h, depth) <= i / 256 < h {
        filler
    } else {
        cells[i]
    }
}

proof fn lemma_cell_coords(lx: int, y: int, lz: int)
    requires
        0 <= lx < 16,
        0 <= lz < 16,
        0 <= y,
    ensures
        chunk_index(lx, y, lz) % 16 == lx,
        (chunk_index(lx, y, lz) / 16) % 16 == lz,
        chunk_index(lx, y, lz) / 256 == y,
{
    let i = chunk_index(lx, y, lz);
    vstd::arithmetic::div_mod::lemma_fundamental_div_mod_converse(i, 16, y * 16 + lz, lx);
    vstd::arithmetic::div_mod::lemma_fundamental_div_mod_converse(y * 16 + lz, 16, y, lz);
    vstd::arithmetic::div_mod::lemma_fundamental_div_mod_converse(i, 256, y, lz * 16 + lx);
}

proof fn lemma_column_cell(i: int, lx: int, lz: int)
    requires
        0 <= i,
        0 <= lx < 16,
        0 <= lz < 16,
        in_column(i, lx, lz),
    ensures
        i == chunk_index(lx, i / 256, lz),
{
    vstd::arithmetic::div_mod::lemma_fundamental_div_mod(i, 16);
    vstd::arithmetic::div_mod::lemma_fundamental_div_mod(i / 16, 16);
    vstd::arithmetic::div_mod::lemma_div_denominator(i, 16, 16);
}

/// Tops column (lx, lz) with `top` at height `h` and fills the `depth`
/// blocks below with `filler` (never below height 1).
pub fn fill_column(buf: &mut ChunkBuffer, lx: usize, lz: usize, h: i32, top: u16, filler: u16, depth: i32)
    requires
        old(buf).wf(),
        lx < 16,
        lz < 16,
        0 <= h < 256,
    ensures
        final(buf).wf(),
        final(buf).cx == old(buf).cx,
        final(buf).cz == old(buf).cz,
        final(buf).biomes == old(buf).biomes,
        final(buf).cells().len() == BUFFER_LEN,
        forall|i: int|
            0 <= i < BUFFER_LEN ==> #[trigger] final(buf).cells()[i] == filled_cell(
                old(buf).cells(),
                lx as int,
                lz as int,
                h as int,
                top,
                filler,
                depth as int,
                i,
            ),
{
    let ghost c0 = buf.cells();
    buf.set(lx, h as usize, lz, top);
    proof {
        lemma_cell_coords(lx as int, h as int, lz as int);
    }
    let d: i64 = h as i64 - depth as i64;
    let from: i64 = if d > 1 { d } else { 1 };
    let mut y: i64 = from;
    let hh: i64 = h as i64;
    while y < hh
        invariant
            buf.wf(),
            buf.cx == old(buf).cx,
            buf.cz == old(buf).cz,
            buf.biomes == old(buf).biomes,
            c0 == old(buf).cells(),
            lx < 16,
            lz < 16,
            0 <= h < 256,
            from == filler_bottom(h as int, depth as int),
            from <= y,
            hh == h,
            from <= h ==> y <= h,
            from > h ==> y == from,
            1 <= from,
            forall|i: int|
                0 <= i < BUFFER_LEN ==> #[trigger] buf.cells()[i] == if in_column(i, lx as int, lz as int) && i / 256 == h {
                    top
                } else if in_column(i, lx as int, lz as int) && from <= i / 256 < y {
                    filler
                } else {
                    c0[i]
                },
        decreases h - y,
    {
        let ghost before = buf.cells();
        buf.set(lx, y as usize, lz, filler);
        proof {
            lemma_cell_coords(lx as int, y as int, lz as int);
            assert forall|i: int| 0 <= i < BUFFER_LEN implies #[trigger] buf.cells()[i] == if in_column(i, lx as int, lz as int) && i / 256 == h {
                top
            } else if in_column(i, lx as int, lz as int) && from <= i / 256 < y + 1 {
                filler
            } else {
                c0[i]
            } by {
                if in_column(i, lx as int, lz as int) && i / 256 == y {
                    lemma_column_cell(i, lx as int, lz as int);
                }
            }
        }
        y += 1;
    }
    proof {
        assert forall|i: int| 0 <= i < BUFFER_LEN implies #[trigger] buf.cells()[i] == filled_cell(c0, lx as int, lz as int, h as int, top, filler, depth as int, i) by {
        }
    }
}

} // verus!
