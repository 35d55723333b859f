//! Trees.
//!
//! A tree is decided by its source chunk and drawn in world coordinates;
//! every chunk it touches draws its own part from the same decisions (a
//! stream seeded by the seed and the tree's position), so nothing depends
//! on the order of generation and nothing is drawn twice. Logs replace what
//! they meet; leaves and vines only fill air. Each tree states its shape:
//! the positions of its logs and of its leaves.

use vstd::prelude::*;
use crate::worldgen::buffer::{bm, world_read, world_written, ChunkBuffer};
use crate::worldgen::growth::{
    drawn, drawn_cells, kept, lemma_draw_leaf, lemma_draw_log, lemma_drawn_nothing, lemma_same_shape,
    lemma_solid_logs, lemma_solid_then, lemma_then_leaves, leaves_drawn, leaves_on, no_leafy, no_logs,
    or_logs, point, solid_leafy, then_leafy, Leafy, Logs,
};
use crate::worldgen::rng::{coords_hash, coords_hash3, hash3, hash_coords, splitmix_out, Rng, GOLDEN_GAMMA};
use crate::worldgen::biomes::Biome;

verus! {

/// Salt of the streams that shape trees.
pub const SALT_SHAPE: u64 = 0x5EA7_E110;

/// Trimming threshold of an even chance (0.5 of 2^53).
pub const TRIM_HALF: u64 = 0x10_0000_0000_0000;

/// Trimming threshold of a 0.6 chance (the largest multiple of 2^-53 under
/// 0.6, times 2^53).
pub const TRIM_SIXTY: u64 = 5404319552844595;

/// Coordinates where a tree is drawn without leaving the i32 range.
pub open spec fn tree_site(x: i32, gy: i32, z: i32, th: i32) -> bool {
    &&& -0x2000_0000 <= x <= 0x2000_0000
    &&& -0x2000_0000 <= z <= 0x2000_0000
    &&& -1024 <= gy <= 1024
    &&& 0 <= th <= 64
}

/// Whether the leaf at (x, y, z) is trimmed for a chance of
/// `threshold / 2^53`: the same answer whichever chunk draws it.
pub open spec fn trimmed(x: i32, y: i32, z: i32, threshold: u64) -> bool {
    coords_hash3(SALT_SHAPE, x, y, z, 0xC0DE) >> 11u64 < threshold
}

/// Whether the leaf at (x, y, z) is trimmed (see `trimmed`).
pub fn trim(x: i32, y: i32, z: i32, threshold: u64) -> (r: bool)
    ensures
        r == trimmed(x, y, z, threshold),
{
    let h = hash3(SALT_SHAPE, x, y, z, 0xC0DE);
    (h >> 11u64) < threshold
}

/// Stores a leaf (or vine) at world position (x, y, z) if it falls in this
/// chunk on air; nothing else is replaced.
pub fn put_leaf(buf: &mut ChunkBuffer, x: i32, y: i32, z: i32, leaf: u16)
    requires
        old(buf).wf(),
    ensures
        final(buf).wf(),
        final(buf).cx == old(buf).cx,
        final(buf).cz == old(buf).cz,
        final(buf).biomes == old(buf).biomes,
        final(buf).cells() == if world_read(old(buf).cells(), old(buf).cx, old(buf).cz, x as int, y as int, z as int)
            == Some(0u16) {
            world_written(old(buf).cells(), old(buf).cx, old(buf).cz, x as int, y as int, z as int, leaf)
        } else {
            old(buf).cells()
        },
{
    if let Some(cur) = buf.get_world(x, y, z) {
        if cur != 0 {
            return;
        }
    } else {
        return;
    }
    buf.set_world(x, y, z, leaf);
}

/// A leaf, skipped on a trimmed corner (even chance).
pub fn leaf_with_trim(buf: &mut ChunkBuffer, x: i32, y: i32, z: i32, leaf: u16, is_corner: bool)
    requires
        old(buf).wf(),
    ensures
        final(buf).wf(),
        final(buf).cx == old(buf).cx,
        final(buf).cz == old(buf).cz,
        final(buf).biomes == old(buf).biomes,
        final(buf).cells() == if is_corner && trimmed(x, y, z, TRIM_HALF) {
            old(buf).cells()
        } else if world_read(old(buf).cells(), old(buf).cx, old(buf).cz, x as int, y as int, z as int)
            == Some(0u16) {
            world_written(old(buf).cells(), old(buf).cx, old(buf).cz, x as int, y as int, z as int, leaf)
        } else {
            old(buf).cells()
        },
{
    if is_corner && trim(x, y, z, TRIM_HALF) {
        return;
    }
    put_leaf(buf, x, y, z, leaf);
}


/// Stored value of a block id and metadata (both in range).
pub open spec fn bm_spec(id: u16, meta: u8) -> u16 {
    (id + meta * 4096) as u16
}

/// Whether (a, b, c) is in the square layer of radius `r` around (x, y, z):
/// at height y, within r on both axes, with `max_d2 >= 0` only where
/// dx^2 + dz^2 <= max_d2, with `ring` only on the border, and with
/// `trim_corners` without the corners (|dx| = |dz| = r) that are trimmed
/// (an even chance).
pub open spec fn in_layer(
    x: int,
    y: int,
    z: int,
    r: int,
    max_d2: int,
    ring: bool,
    trim_corners: bool,
    a: int,
    b: int,
    c: int,
) -> bool {
    let dx = a - x;
    let dz = c - z;
    &&& b == y
    &&& -r <= dx <= r
    &&& -r <= dz <= r
    &&& (max_d2 < 0 || dx * dx + dz * dz <= max_d2)
    &&& (!ring || dx == r || dx == -r || dz == r || dz == -r)
    &&& !(trim_corners && (dx == r || dx == -r) && (dz == r || dz == -r) && trimmed(
        a as i32,
        b as i32,
        c as i32,
        TRIM_HALF,
    ))
}

/// The positions of a layer (see `in_layer`).
pub open spec fn layer(x: int, y: int, z: int, r: int, max_d2: int, ring: bool, trim_corners: bool) -> Logs {
    |a: int, b: int, c: int| in_layer(x, y, z, r, max_d2, ring, trim_corners, a, b, c)
}

/// The positions of a layer before offset (dx, dz), in the order x then z.
spec fn layer_upto(x: int, y: int, z: int, r: int, max_d2: int, ring: bool, trim_corners: bool, dx: int, dz: int) -> Logs {
    |a: int, b: int, c: int|
        in_layer(x, y, z, r, max_d2, ring, trim_corners, a, b, c) && (a - x < dx || (a - x == dx && c
            - z < dz))
}

/// The four sides of (x, y, z).
pub open spec fn sides(x: int, y: int, z: int) -> Logs {
    |a: int, b: int, c: int|
        b == y && ((c == z && (a == x + 1 || a == x - 1)) || (a == x && (c == z + 1 || c == z - 1)))
}

/// Heights `from` to `to` (both included) at (x, z).
pub open spec fn column(x: int, from: int, to: int, z: int) -> Logs {
    |a: int, b: int, c: int| a == x && c == z && from <= b <= to
}

/// Draws a log at (x, y, z) after the shape drawn so far.
fn log_at(
    buf: &mut ChunkBuffer,
    x: i32,
    y: i32,
    z: i32,
    log: u16,
    Ghost(c0): Ghost<Seq<u16>>,
    Ghost(logs): Ghost<Logs>,
    Ghost(leafy): Ghost<Leafy>,
)
    requires
        old(buf).wf(),
        drawn_cells(c0, old(buf).cells(), old(buf).cx, old(buf).cz, log, logs, leafy),
    ensures
        kept(*old(buf), *final(buf)),
        drawn_cells(
            c0,
            final(buf).cells(),
            old(buf).cx,
            old(buf).cz,
            log,
            or_logs(logs, point(x as int, y as int, z as int)),
            leafy,
        ),
{
    let ghost cur = buf.cells();
    buf.set_world(x, y, z, log);
    proof {
        lemma_draw_log(c0, cur, buf.cx, buf.cz, log, logs, leafy, x as int, y as int, z as int);
    }
}

/// Draws a leaf (or vine) `v` at (x, y, z) after the shape drawn so far.
fn leaf_at(
    buf: &mut ChunkBuffer,
    x: i32,
    y: i32,
    z: i32,
    v: u16,
    Ghost(c0): Ghost<Seq<u16>>,
    Ghost(log): Ghost<u16>,
    Ghost(logs): Ghost<Logs>,
    Ghost(leafy): Ghost<Leafy>,
)
    requires
        old(buf).wf(),
        drawn_cells(c0, old(buf).cells(), old(buf).cx, old(buf).cz, log, logs, leafy),
        log != 0,
        solid_leafy(leafy),
        v != 0,
    ensures
        kept(*old(buf), *final(buf)),
        drawn_cells(
            c0,
            final(buf).cells(),
            old(buf).cx,
            old(buf).cz,
            log,
            logs,
            then_leafy(leafy, leaves_on(point(x as int, y as int, z as int), v)),
        ),
        solid_leafy(then_leafy(leafy, leaves_on(point(x as int, y as int, z as int), v))),
{
    let ghost cur = buf.cells();
    put_leaf(buf, x, y, z, v);
    proof {
        assert(leafy(x as int, y as int, z as int) is Some ==> leafy(x as int, y as int, z as int)->0 != 0);
        lemma_draw_leaf(c0, cur, buf.cx, buf.cz, log, logs, leafy, x as int, y as int, z as int, v);
        lemma_solid_then(leafy, point(x as int, y as int, z as int), v);
    }
}

/// Draws a layer of leaves (see `in_layer`) after the shape drawn so far.
fn leaf_layer(
    buf: &mut ChunkBuffer,
    x: i32,
    y: i32,
    z: i32,
    r: i32,
    max_d2: i32,
    ring: bool,
    trim_corners: bool,
    leaf: u16,
    Ghost(c0): Ghost<Seq<u16>>,
    Ghost(log): Ghost<u16>,
    Ghost(logs): Ghost<Logs>,
    Ghost(leafy): Ghost<Leafy>,
)
    requires
        old(buf).wf(),
        drawn_cells(c0, old(buf).cells(), old(buf).cx, old(buf).cz, log, logs, leafy),
        log != 0,
        solid_leafy(leafy),
        leaf != 0,
        1 <= r <= 3,
        -0x2000_0100 <= x <= 0x2000_0100,
        -0x2000_0100 <= z <= 0x2000_0100,
    ensures
        kept(*old(buf), *final(buf)),
        drawn_cells(
            c0,
            final(buf).cells(),
            old(buf).cx,
            old(buf).cz,
            log,
            logs,
            then_leafy(leafy, leaves_on(layer(x as int, y as int, z as int, r as int, max_d2 as int, ring, trim_corners), leaf)),
        ),
        solid_leafy(then_leafy(leafy, leaves_on(layer(x as int, y as int, z as int, r as int, max_d2 as int, ring, trim_corners), leaf))),
{
    let ghost cx = buf.cx;
    let ghost cz = buf.cz;
    let ghost (xi, yi, zi, ri, mi) = (x as int, y as int, z as int, r as int, max_d2 as int);
    proof {
        let f0 = then_leafy(leafy, leaves_on(layer_upto(xi, yi, zi, ri, mi, ring, trim_corners, -ri, -ri), leaf));
        lemma_same_shape(c0, buf.cells(), cx, cz, log, logs, leafy, logs, f0);
    }
    let mut dx: i32 = -r;
    while dx <= r
        invariant
            buf.wf(),
            buf.cx == cx,
            buf.cz == cz,
            buf.biomes == old(buf).biomes,
            cx == old(buf).cx,
            cz == old(buf).cz,
            drawn_cells(
                c0,
                buf.cells(),
                cx,
                cz,
                log,
                logs,
                then_leafy(leafy, leaves_on(layer_upto(xi, yi, zi, ri, mi, ring, trim_corners, dx as int, -ri), leaf)),
            ),
            log != 0,
            solid_leafy(leafy),
            leaf != 0,
            1 <= r <= 3,
            -r <= dx <= r + 1,
            -0x2000_0100 <= x <= 0x2000_0100,
            -0x2000_0100 <= z <= 0x2000_0100,
            xi == x,
            yi == y,
            zi == z,
            ri == r,
            mi == max_d2,
        decreases r + 1 - dx,
    {
        let mut dz: i32 = -r;
        while dz <= r
            invariant
                buf.wf(),
                buf.cx == cx,
                buf.cz == cz,
                buf.biomes == old(buf).biomes,
                drawn_cells(
                    c0,
                    buf.cells(),
                    cx,
                    cz,
                    log,
                    logs,
                    then_leafy(leafy, leaves_on(layer_upto(xi, yi, zi, ri, mi, ring, trim_corners, dx as int, dz as int), leaf)),
                ),
                log != 0,
                solid_leafy(leafy),
                leaf != 0,
                1 <= r <= 3,
                -r <= dx <= r,
                -r <= dz <= r + 1,
                -0x2000_0100 <= x <= 0x2000_0100,
                -0x2000_0100 <= z <= 0x2000_0100,
                xi == x,
                yi == y,
                zi == z,
                ri == r,
                mi == max_d2,
            decreases r + 1 - dz,
        {
            let adx = if dx < 0 { -dx } else { dx };
            let adz = if dz < 0 { -dz } else { dz };
            assert(0 <= dx * dx <= 9 && 0 <= dz * dz <= 9) by (nonlinear_arith)
                requires
                    -3 <= dx <= 3,
                    -3 <= dz <= 3,
            ;
            let inside = max_d2 < 0 || dx * dx + dz * dz <= max_d2;
            let on_ring = adx == r || adz == r;
            let corner = adx == r && adz == r;
            let in_shape = inside && (!ring || on_ring);
            let ghost (pa, pb, pc) = ((x + dx) as int, y as int, (z + dz) as int);
            let ghost put = in_shape && !(corner && trim_corners && trimmed((x + dx) as i32, y, (z + dz) as i32, TRIM_HALF));
            assert(put == in_layer(xi, yi, zi, ri, mi, ring, trim_corners, pa, pb, pc));
            let ghost cur = buf.cells();
            let ghost f = then_leafy(leafy, leaves_on(layer_upto(xi, yi, zi, ri, mi, ring, trim_corners, dx as int, dz as int), leaf));
            let ghost g = then_leafy(leafy, leaves_on(layer_upto(xi, yi, zi, ri, mi, ring, trim_corners, dx as int, dz + 1), leaf));
            if in_shape {
                leaf_with_trim(buf, x + dx, y, z + dz, leaf, corner && trim_corners);
            }
            proof {
                if put {
                    assert(leafy(pa, pb, pc) is Some ==> leafy(pa, pb, pc)->0 != 0);
                    lemma_draw_leaf(c0, cur, cx, cz, log, logs, f, pa, pb, pc, leaf);
                    lemma_same_shape(c0, buf.cells(), cx, cz, log, logs, then_leafy(f, leaves_on(point(pa, pb, pc), leaf)), logs, g);
                } else {
                    assert(buf.cells() == cur);
                    lemma_same_shape(c0, cur, cx, cz, log, logs, f, logs, g);
                }
            }
            dz += 1;
        }
        proof {
            lemma_same_shape(
                c0,
                buf.cells(),
                cx,
                cz,
                log,
                logs,
                then_leafy(leafy, leaves_on(layer_upto(xi, yi, zi, ri, mi, ring, trim_corners, dx as int, ri + 1), leaf)),
                logs,
                then_leafy(leafy, leaves_on(layer_upto(xi, yi, zi, ri, mi, ring, trim_corners, dx + 1, -ri), leaf)),
            );
        }
        dx += 1;
    }
    proof {
        lemma_same_shape(
            c0,
            buf.cells(),
            cx,
            cz,
            log,
            logs,
            then_leafy(leafy, leaves_on(layer_upto(xi, yi, zi, ri, mi, ring, trim_corners, ri + 1, -ri), leaf)),
            logs,
            then_leafy(leafy, leaves_on(layer(xi, yi, zi, ri, mi, ring, trim_corners), leaf)),
        );
        lemma_solid_then(leafy, layer(xi, yi, zi, ri, mi, ring, trim_corners), leaf);
    }
}

/// Draws leaves on the four sides of (x, y, z) after the shape drawn so far.
fn leaf_cross(
    buf: &mut ChunkBuffer,
    x: i32,
    y: i32,
    z: i32,
    leaf: u16,
    Ghost(c0): Ghost<Seq<u16>>,
    Ghost(log): Ghost<u16>,
    Ghost(logs): Ghost<Logs>,
    Ghost(leafy): Ghost<Leafy>,
)
    requires
        old(buf).wf(),
        drawn_cells(c0, old(buf).cells(), old(buf).cx, old(buf).cz, log, logs, leafy),
        log != 0,
        solid_leafy(leafy),
        leaf != 0,
        -0x2000_0100 <= x <= 0x2000_0100,
        -0x2000_0100 <= z <= 0x2000_0100,
    ensures
        kept(*old(buf), *final(buf)),
        drawn_cells(
            c0,
            final(buf).cells(),
            old(buf).cx,
            old(buf).cz,
            log,
            logs,
            then_leafy(leafy, leaves_on(sides(x as int, y as int, z as int), leaf)),
        ),
        solid_leafy(then_leafy(leafy, leaves_on(sides(x as int, y as int, z as int), leaf))),
{
    let ghost (xi, yi, zi) = (x as int, y as int, z as int);
    let ghost f1 = then_leafy(leafy, leaves_on(point(xi + 1, yi, zi), leaf));
    let ghost f2 = then_leafy(f1, leaves_on(point(xi - 1, yi, zi), leaf));
    let ghost f3 = then_leafy(f2, leaves_on(point(xi, yi, zi + 1), leaf));
    leaf_at(buf, x + 1, y, z, leaf, Ghost(c0), Ghost(log), Ghost(logs), Ghost(leafy));
    leaf_at(buf, x - 1, y, z, leaf, Ghost(c0), Ghost(log), Ghost(logs), Ghost(f1));
    leaf_at(buf, x, y, z + 1, leaf, Ghost(c0), Ghost(log), Ghost(logs), Ghost(f2));
    leaf_at(buf, x, y, z - 1, leaf, Ghost(c0), Ghost(log), Ghost(logs), Ghost(f3));
    proof {
        let f4 = then_leafy(f3, leaves_on(point(xi, yi, zi - 1), leaf));
        let g = then_leafy(leafy, leaves_on(sides(xi, yi, zi), leaf));
        lemma_same_shape(c0, buf.cells(), buf.cx, buf.cz, log, logs, f4, logs, g);
        lemma_solid_then(leafy, sides(xi, yi, zi), leaf);
    }
}

/// Draws logs from height `from` to `to` at (x, z) after the shape drawn so far.
fn trunk(
    buf: &mut ChunkBuffer,
    x: i32,
    from: i32,
    to: i32,
    z: i32,
    log: u16,
    Ghost(c0): Ghost<Seq<u16>>,
    Ghost(logs): Ghost<Logs>,
    Ghost(leafy): Ghost<Leafy>,
)
    requires
        old(buf).wf(),
        drawn_cells(c0, old(buf).cells(), old(buf).cx, old(buf).cz, log, logs, leafy),
        to < i32::MAX,
    ensures
        kept(*old(buf), *final(buf)),
        drawn_cells(
            c0,
            final(buf).cells(),
            old(buf).cx,
            old(buf).cz,
            log,
            or_logs(logs, column(x as int, from as int, to as int, z as int)),
            leafy,
        ),
{
    let ghost cx = buf.cx;
    let ghost cz = buf.cz;
    let ghost (xi, zi) = (x as int, z as int);
    proof {
        lemma_same_shape(c0, buf.cells(), cx, cz, log, logs, leafy, or_logs(logs, column(xi, from as int, from - 1, zi)), leafy);
    }
    let mut y = from;
    while y <= to
        invariant
            buf.wf(),
            buf.cx == cx,
            buf.cz == cz,
            buf.biomes == old(buf).biomes,
            cx == old(buf).cx,
            cz == old(buf).cz,
            drawn_cells(c0, buf.cells(), cx, cz, log, or_logs(logs, column(xi, from as int, y - 1, zi)), leafy),
            to < i32::MAX,
            from <= y,
            y <= to + 1 || y == from,
            xi == x,
            zi == z,
        decreases to + 1 - y,
    {
        let ghost prev = or_logs(logs, column(xi, from as int, y - 1, zi));
        log_at(buf, x, y, z, log, Ghost(c0), Ghost(prev), Ghost(leafy));
        proof {
            lemma_same_shape(
                c0,
                buf.cells(),
                cx,
                cz,
                log,
                or_logs(prev, point(xi, y as int, zi)),
                leafy,
                or_logs(logs, column(xi, from as int, y as int, zi)),
                leafy,
            );
        }
        y += 1;
    }
    proof {
        lemma_same_shape(
            c0,
            buf.cells(),
            cx,
            cz,
            log,
            or_logs(logs, column(xi, from as int, y - 1, zi)),
            leafy,
            or_logs(logs, column(xi, from as int, to as int, zi)),
            leafy,
        );
    }
}

/// Crown of an oak or birch of trunk height `th` on ground `gy`: two wide
/// layers with trimmed corners, a small layer at the trunk top and a plus
/// above it.
pub open spec fn oak_crown(x: int, gy: int, z: int, th: int) -> Logs {
    let top = gy + th;
    |a: int, b: int, c: int|
        in_layer(x, top - 2, z, 2, -1, false, true, a, b, c) || in_layer(x, top - 1, z, 2, -1, false, true, a, b, c)
            || in_layer(x, top, z, 1, -1, false, false, a, b, c) || sides(x, top + 1, z)(a, b, c) || (a == x && b
            == top + 1 && c == z)
}

/// Oak or birch: a straight trunk of height `th` under a rounded crown.
pub fn oak_like(buf: &mut ChunkBuffer, x: i32, gy: i32, z: i32, log: u16, leaf: u16, th: i32)
    requires
        old(buf).wf(),
        tree_site(x, gy, z, th),
        log != 0,
        leaf != 0,
    ensures
        drawn(
            *old(buf),
            *final(buf),
            log,
            column(x as int, gy + 1, gy + th, z as int),
            leaves_on(oak_crown(x as int, gy as int, z as int, th as int), leaf),
        ),
{
    let ghost c0 = buf.cells();
    let ghost (xi, gi, zi, ti) = (x as int, gy as int, z as int, th as int);
    let top = gy + th;
    let ghost t = top as int;
    proof {
        lemma_drawn_nothing(c0, buf.cx, buf.cz, log);
    }
    let ghost f0 = no_leafy();
    let ghost f1 = then_leafy(f0, leaves_on(layer(xi, t - 2, zi, 2, -1, false, true), leaf));
    let ghost f2 = then_leafy(f1, leaves_on(layer(xi, t - 1, zi, 2, -1, false, true), leaf));
    let ghost f3 = then_leafy(f2, leaves_on(layer(xi, t, zi, 1, -1, false, false), leaf));
    let ghost f4 = then_leafy(f3, leaves_on(sides(xi, t + 1, zi), leaf));
    let ghost f5 = then_leafy(f4, leaves_on(point(xi, t + 1, zi), leaf));
    leaf_layer(buf, x, top - 2, z, 2, -1, false, true, leaf, Ghost(c0), Ghost(log), Ghost(no_logs()), Ghost(f0));
    leaf_layer(buf, x, top - 1, z, 2, -1, false, true, leaf, Ghost(c0), Ghost(log), Ghost(no_logs()), Ghost(f1));
    leaf_layer(buf, x, top, z, 1, -1, false, false, leaf, Ghost(c0), Ghost(log), Ghost(no_logs()), Ghost(f2));
    leaf_cross(buf, x, top + 1, z, leaf, Ghost(c0), Ghost(log), Ghost(no_logs()), Ghost(f3));
    leaf_at(buf, x, top + 1, z, leaf, Ghost(c0), Ghost(log), Ghost(no_logs()), Ghost(f4));
    trunk(buf, x, gy + 1, top, z, log, Ghost(c0), Ghost(no_logs()), Ghost(f5));
    proof {
        lemma_same_shape(
            c0,
            buf.cells(),
            buf.cx,
            buf.cz,
            log,
            or_logs(no_logs(), column(xi, gi + 1, t, zi)),
            f5,
            column(xi, gi + 1, gi + ti, zi),
            leaves_on(oak_crown(xi, gi, zi, ti), leaf),
        );
    }
}

/// Radius of the spruce layer at height `b`: 1 and 2 in turn from the top.
pub open spec fn spruce_radius(top: int, b: int) -> int {
    if (top - 1 - b) % 4 == 0 {
        1
    } else {
        2
    }
}

/// Whether (a, b, c) is in a spruce layer below `top`: every other height
/// down from `top - 1`, above `gy + 2`, corners of the wide layers trimmed.
pub open spec fn in_spruce_layers(x: int, gy: int, z: int, top: int, a: int, b: int, c: int) -> bool {
    &&& gy + 2 < b <= top - 1
    &&& (top - 1 - b) % 2 == 0
    &&& in_layer(x, b, z, spruce_radius(top, b), -1, false, spruce_radius(top, b) >= 2, a, b, c)
}

/// Crown of a spruce: a tip, a plus at the trunk top and the cone of layers.
pub open spec fn spruce_crown(x: int, gy: int, z: int, th: int) -> Logs {
    let top = gy + th;
    |a: int, b: int, c: int|
        (a == x && (b == top || b == top + 1) && c == z) || sides(x, top, z)(a, b, c) || in_spruce_layers(
            x,
            gy,
            z,
            top,
            a,
            b,
            c,
        )
}

/// Spruce: a cone of alternating layers (radius 1 and 2) down the trunk.
#[verifier::spinoff_prover]
#[verifier::rlimit(40)]
pub fn spruce(buf: &mut ChunkBuffer, x: i32, gy: i32, z: i32, th: i32)
    requires
        old(buf).wf(),
        tree_site(x, gy, z, th),
    ensures
        drawn(
            *old(buf),
            *final(buf),
            bm_spec(17, 1),
            column(x as int, gy + 1, gy + th, z as int),
            leaves_on(spruce_crown(x as int, gy as int, z as int, th as int), bm_spec(18, 1)),
        ),
{
    let ghost c0 = buf.cells();
    let ghost (cx, cz) = (buf.cx, buf.cz);
    let ghost (xi, gi, zi, ti) = (x as int, gy as int, z as int, th as int);
    let log = bm(17, 1);
    let leaf = bm(18, 1);
    let top = gy + th;
    let ghost t = top as int;
    proof {
        lemma_drawn_nothing(c0, cx, cz, log);
    }
    let ghost f1 = then_leafy(no_leafy(), leaves_on(point(xi, t + 1, zi), leaf));
    let ghost f2 = then_leafy(f1, leaves_on(sides(xi, t, zi), leaf));
    let ghost f3 = then_leafy(f2, leaves_on(point(xi, t, zi), leaf));
    leaf_at(buf, x, top + 1, z, leaf, Ghost(c0), Ghost(log), Ghost(no_logs()), Ghost(no_leafy()));
    leaf_cross(buf, x, top, z, leaf, Ghost(c0), Ghost(log), Ghost(no_logs()), Ghost(f1));
    leaf_at(buf, x, top, z, leaf, Ghost(c0), Ghost(log), Ghost(no_logs()), Ghost(f2));
    let mut level = top - 1;
    let mut radius: i32 = 1;
    proof {
        let g = then_leafy(f3, leaves_on(|a: int, b: int, c: int| level < b && in_spruce_layers(xi, gi, zi, t, a, b, c), leaf));
        lemma_same_shape(c0, buf.cells(), cx, cz, log, no_logs(), f3, no_logs(), g);
    }
    while level > gy + 2
        invariant
            buf.wf(),
            buf.cx == cx,
            buf.cz == cz,
            buf.biomes == old(buf).biomes,
            cx == old(buf).cx,
            cz == old(buf).cz,
            log == bm_spec(17, 1),
            leaf == bm_spec(18, 1),
            tree_site(x, gy, z, th),
            top == gy + th,
            t == top,
            xi == x,
            zi == z,
            gi == gy,
            gy <= level + 2 <= top + 1,
            (t - 1 - level) % 2 == 0,
            radius == spruce_radius(t, level as int),
            solid_leafy(f3),
            drawn_cells(
                c0,
                buf.cells(),
                cx,
                cz,
                log,
                no_logs(),
                then_leafy(f3, leaves_on(|a: int, b: int, c: int| level < b && in_spruce_layers(xi, gi, zi, t, a, b, c), leaf)),
            ),
        decreases level - gy,
    {
        let ghost cur = then_leafy(f3, leaves_on(|a: int, b: int, c: int| level < b && in_spruce_layers(xi, gi, zi, t, a, b, c), leaf));
        proof {
            lemma_solid_then(f3, |a: int, b: int, c: int| level < b && in_spruce_layers(xi, gi, zi, t, a, b, c), leaf);
        }
        leaf_layer(buf, x, level, z, radius, -1, false, radius >= 2, leaf, Ghost(c0), Ghost(log), Ghost(no_logs()), Ghost(cur));
        proof {
            let next = then_leafy(f3, leaves_on(|a: int, b: int, c: int| level - 2 < b && in_spruce_layers(xi, gi, zi, t, a, b, c), leaf));
            lemma_same_shape(
                c0,
                buf.cells(),
                cx,
                cz,
                log,
                no_logs(),
                then_leafy(cur, leaves_on(layer(xi, level as int, zi, radius as int, -1, false, radius >= 2), leaf)),
                no_logs(),
                next,
            );
        }
        level -= 2;
        radius = if radius == 2 { 1 } else { 2 };
    }
    let ghost fl = then_leafy(f3, leaves_on(|a: int, b: int, c: int| level < b && in_spruce_layers(xi, gi, zi, t, a, b, c), leaf));
    trunk(buf, x, gy + 1, top, z, log, Ghost(c0), Ghost(no_logs()), Ghost(fl));
    proof {
        lemma_same_shape(
            c0,
            buf.cells(),
            cx,
            cz,
            log,
            or_logs(no_logs(), column(xi, gi + 1, t, zi)),
            fl,
            column(xi, gi + 1, gi + ti, zi),
            leaves_on(spruce_crown(xi, gi, zi, ti), leaf),
        );
    }
}

/// Crown of a small jungle tree: two wide layers and a plus on top.
pub open spec fn jungle_crown(x: int, gy: int, z: int, th: int) -> Logs {
    let top = gy + th;
    |a: int, b: int, c: int|
        in_layer(x, top - 1, z, 2, -1, false, true, a, b, c) || in_layer(x, top, z, 2, -1, false, true, a, b, c)
            || sides(x, top + 1, z)(a, b, c) || (a == x && b == top + 1 && c == z)
}

/// Small jungle tree: a dense round crown.
pub fn jungle_small(buf: &mut ChunkBuffer, x: i32, gy: i32, z: i32, th: i32)
    requires
        old(buf).wf(),
        tree_site(x, gy, z, th),
    ensures
        drawn(
            *old(buf),
            *final(buf),
            bm_spec(17, 3),
            column(x as int, gy + 1, gy + th, z as int),
            leaves_on(jungle_crown(x as int, gy as int, z as int, th as int), bm_spec(18, 3)),
        ),
{
    let ghost c0 = buf.cells();
    let ghost (xi, gi, zi, ti) = (x as int, gy as int, z as int, th as int);
    let log = bm(17, 3);
    let leaf = bm(18, 3);
    let top = gy + th;
    let ghost t = top as int;
    proof {
        lemma_drawn_nothing(c0, buf.cx, buf.cz, log);
    }
    let ghost f1 = then_leafy(no_leafy(), leaves_on(layer(xi, t - 1, zi, 2, -1, false, true), leaf));
    let ghost f2 = then_leafy(f1, leaves_on(layer(xi, t, zi, 2, -1, false, true), leaf));
    let ghost f3 = then_leafy(f2, leaves_on(sides(xi, t + 1, zi), leaf));
    let ghost f4 = then_leafy(f3, leaves_on(point(xi, t + 1, zi), leaf));
    leaf_layer(buf, x, top - 1, z, 2, -1, false, true, leaf, Ghost(c0), Ghost(log), Ghost(no_logs()), Ghost(no_leafy()));
    leaf_layer(buf, x, top, z, 2, -1, false, true, leaf, Ghost(c0), Ghost(log), Ghost(no_logs()), Ghost(f1));
    leaf_cross(buf, x, top + 1, z, leaf, Ghost(c0), Ghost(log), Ghost(no_logs()), Ghost(f2));
    leaf_at(buf, x, top + 1, z, leaf, Ghost(c0), Ghost(log), Ghost(no_logs()), Ghost(f3));
    trunk(buf, x, gy + 1, top, z, log, Ghost(c0), Ghost(no_logs()), Ghost(f4));
    proof {
        lemma_same_shape(
            c0,
            buf.cells(),
            buf.cx,
            buf.cz,
            log,
            or_logs(no_logs(), column(xi, gi + 1, t, zi)),
            f4,
            column(xi, gi + 1, gi + ti, zi),
            leaves_on(jungle_crown(xi, gi, zi, ti), leaf),
        );
    }
}


/// Side of vine `i` around a trunk, as (dx, dz, metadata): east, west,
/// south and north in turn, each facing the trunk.
pub open spec fn vine_side(i: int) -> (int, int, u8) {
    if i % 4 == 0 {
        (1, 0, 2u8)
    } else if i % 4 == 1 {
        (-1, 0, 8u8)
    } else if i % 4 == 2 {
        (0, 1, 4u8)
    } else {
        (0, -1, 1u8)
    }
}

/// Height range over which vines are spread (at least 1).
pub open spec fn vine_span(y_from: int, y_to: int) -> int {
    if y_to - y_from > 1 {
        y_to - y_from
    } else {
        1
    }
}

/// The first `n` vines hung on a trunk at (x, z): vine `i` on side `i mod 4`
/// at height `y_from + (7 i mod span)`; where two vines fall on one block,
/// the first one stays.
pub open spec fn trunk_vines(x: int, y_from: int, z: int, y_to: int, n: nat) -> Leafy
    decreases n,
{
    if n == 0 {
        no_leafy()
    } else {
        let i = n - 1;
        let side = vine_side(i);
        then_leafy(
            trunk_vines(x, y_from, z, y_to, (n - 1) as nat),
            leaves_on(point(x + side.0, y_from + (i * 7) % vine_span(y_from, y_to), z + side.1), bm_spec(106, side.2)),
        )
    }
}

proof fn lemma_vines_solid(x: int, y_from: int, z: int, y_to: int, n: nat)
    ensures
        solid_leafy(trunk_vines(x, y_from, z, y_to, n)),
    decreases n,
{
    if n > 0 {
        lemma_vines_solid(x, y_from, z, y_to, (n - 1) as nat);
        let i = n - 1;
        let side = vine_side(i);
        lemma_solid_then(
            trunk_vines(x, y_from, z, y_to, (n - 1) as nat),
            point(x + side.0, y_from + (i * 7) % vine_span(y_from, y_to), z + side.1),
            bm_spec(106, side.2),
        );
    }
}

/// Vines on the sides of a trunk at (x, z) between heights `y_from` and
/// `y_to` (see `trunk_vines`); each vine only fills air. The vine number is
/// stepped by 7 in an i32, hence the bound on `count`.
pub fn vines_on_trunk(buf: &mut ChunkBuffer, x: i32, y_from: i32, z: i32, y_to: i32, count: u32)
    requires
        old(buf).wf(),
        -0x2000_0100 <= x <= 0x2000_0100,
        -0x2000_0100 <= z <= 0x2000_0100,
        -4096 <= y_from <= 4096,
        -4096 <= y_to <= 4096,
        count <= 306783379,
    ensures
        kept(*old(buf), *final(buf)),
        leaves_drawn(
            old(buf).cells(),
            final(buf).cells(),
            old(buf).cx,
            old(buf).cz,
            trunk_vines(x as int, y_from as int, z as int, y_to as int, count as nat),
        ),
{
    let ghost c0 = buf.cells();
    let ghost (cx, cz) = (buf.cx, buf.cz);
    let ghost (xi, fi, zi, ti) = (x as int, y_from as int, z as int, y_to as int);
    proof {
        lemma_drawn_nothing(c0, cx, cz, 0);
    }
    let span = if y_to - y_from > 1 { y_to - y_from } else { 1 };
    let mut i: u32 = 0;
    while i < count
        invariant
            buf.wf(),
            buf.cx == cx,
            buf.cz == cz,
            buf.biomes == old(buf).biomes,
            cx == old(buf).cx,
            cz == old(buf).cz,
            leaves_drawn(c0, buf.cells(), cx, cz, trunk_vines(xi, fi, zi, ti, i as nat)),
            i <= count,
            count <= 306783379,
            span == vine_span(fi, ti),
            1 <= span <= 8192,
            -4096 <= y_from <= 4096,
            -0x2000_0100 <= x <= 0x2000_0100,
            -0x2000_0100 <= z <= 0x2000_0100,
            xi == x,
            fi == y_from,
            zi == z,
            ti == y_to,
        decreases count - i,
    {
        let t = i as i32;
        let (sx, sz, bit): (i32, i32, u8) = match t % 4 {
            0 => (1, 0, 2),
            1 => (-1, 0, 8),
            2 => (0, 1, 4),
            _ => (0, -1, 1),
        };
        let y = y_from + (t * 7 % span);
        let v = bm(106, bit);
        let ghost cur = buf.cells();
        let ghost f = trunk_vines(xi, fi, zi, ti, i as nat);
        let ghost (pa, pb, pc) = ((x + sx) as int, y as int, (z + sz) as int);
        assert(vine_side(i as int) == (sx as int, sz as int, bit));
        assert(pb == fi + (i * 7) % vine_span(fi, ti));
        put_leaf(buf, x + sx, y, z + sz, v);
        proof {
            lemma_vines_solid(xi, fi, zi, ti, i as nat);
            assert(f(pa, pb, pc) is Some ==> f(pa, pb, pc)->0 != 0);
            lemma_draw_leaf(c0, cur, cx, cz, 0, no_logs(), f, pa, pb, pc, v);
            assert(trunk_vines(xi, fi, zi, ti, (i + 1) as nat) == then_leafy(f, leaves_on(point(pa, pb, pc), v)));
        }
        i += 1;
    }
}

/// Crown of a large jungle tree: the small jungle crown, a tuft half way up
/// and a wide round layer (dx^2 + dz^2 <= 10) at the top.
pub open spec fn jungle_big_crown(x: int, gy: int, z: int, th: int) -> Logs {
    let top = gy + th;
    let mid = gy + th * 2 / 3;
    |a: int, b: int, c: int|
        jungle_crown(x, gy, z, th)(a, b, c) || in_layer(x, mid + 1, z, 1, -1, false, false, a, b, c)
            || in_layer(x, top, z, 3, 10, false, false, a, b, c)
}

/// Large jungle tree: a small jungle tree, a middle tuft, a wide crown and
/// six vines on the trunk.
pub fn jungle_big(buf: &mut ChunkBuffer, x: i32, gy: i32, z: i32, th: i32)
    requires
        old(buf).wf(),
        tree_site(x, gy, z, th),
    ensures
        drawn(
            *old(buf),
            *final(buf),
            bm_spec(17, 3),
            column(x as int, gy + 1, gy + th, z as int),
            then_leafy(
                leaves_on(jungle_big_crown(x as int, gy as int, z as int, th as int), bm_spec(18, 3)),
                trunk_vines(x as int, gy + 2, z as int, gy + th - 1, 6),
            ),
        ),
{
    let ghost c0 = buf.cells();
    let ghost (cx, cz) = (buf.cx, buf.cz);
    let ghost (xi, gi, zi, ti) = (x as int, gy as int, z as int, th as int);
    jungle_small(buf, x, gy, z, th);
    let log = bm(17, 3);
    let leaf = bm(18, 3);
    let top = gy + th;
    let mid = gy + th * 2 / 3;
    let ghost t = top as int;
    let ghost logs = column(xi, gi + 1, gi + ti, zi);
    let ghost f0 = leaves_on(jungle_crown(xi, gi, zi, ti), leaf);
    let ghost f1 = then_leafy(f0, leaves_on(layer(xi, mid + 1, zi, 1, -1, false, false), leaf));
    let ghost f2 = then_leafy(f1, leaves_on(layer(xi, t, zi, 3, 10, false, false), leaf));
    proof {
        lemma_solid_then(no_leafy(), jungle_crown(xi, gi, zi, ti), leaf);
    }
    leaf_layer(buf, x, mid + 1, z, 1, -1, false, false, leaf, Ghost(c0), Ghost(log), Ghost(logs), Ghost(f0));
    leaf_layer(buf, x, top, z, 3, 10, false, false, leaf, Ghost(c0), Ghost(log), Ghost(logs), Ghost(f1));
    trunk(buf, x, gy + 1, top, z, log, Ghost(c0), Ghost(logs), Ghost(f2));
    let ghost before_vines = buf.cells();
    vines_on_trunk(buf, x, gy + 2, z, top - 1, 6);
    proof {
        let logs2 = or_logs(logs, column(xi, gi + 1, t, zi));
        let vines = trunk_vines(xi, gi + 2, zi, t - 1, 6);
        lemma_solid_logs(logs2, log);
        lemma_then_leaves(c0, before_vines, buf.cells(), cx, cz, log, logs2, f2, vines);
        lemma_same_shape(
            c0,
            buf.cells(),
            cx,
            cz,
            log,
            logs2,
            then_leafy(f2, vines),
            logs,
            then_leafy(leaves_on(jungle_big_crown(xi, gi, zi, ti), leaf), vines),
        );
    }
}

/// Which hanging vine (0 to 7) hangs at offset (dx, dz), or 8 for none.
pub open spec fn swamp_spot_index(dx: int, dz: int) -> int {
    if dx == -3 && dz == 0 {
        0
    } else if dx == 3 && dz == 0 {
        1
    } else if dx == 0 && dz == -3 {
        2
    } else if dx == 0 && dz == 3 {
        3
    } else if dx == -2 && dz == -2 {
        4
    } else if dx == 2 && dz == 2 {
        5
    } else if dx == -2 && dz == 2 {
        6
    } else if dx == 2 && dz == -2 {
        7
    } else {
        8
    }
}

/// Lowest depth under the crown top of the vine at offset (dx, dz): 3 on a
/// trimmed position (a 0.6 chance), else 2.
pub open spec fn vine_length(x: int, top: int, z: int, dx: int, dz: int) -> int {
    if trimmed((x + dx) as i32, top as i32, (z + dz) as i32, TRIM_SIXTY) {
        3
    } else {
        2
    }
}

/// The vines hanging under a swamp oak crown topped at `top`.
pub open spec fn swamp_vines(x: int, top: int, z: int) -> Logs {
    |a: int, b: int, c: int|
        swamp_spot_index(a - x, c - z) < 8 && top - vine_length(x, top, z, a - x, c - z) <= b <= top - 2
}

/// The swamp vines of the spots before `k`, and of spot `k` above `top - d`.
spec fn swamp_vines_upto(x: int, top: int, z: int, k: int, d: int) -> Logs {
    |a: int, b: int, c: int|
        swamp_vines(x, top, z)(a, b, c) && (swamp_spot_index(a - x, c - z) < k || (swamp_spot_index(a - x, c - z)
            == k && b > top - d))
}

/// Crown of a swamp oak: two wide flat layers (dx^2 + dz^2 <= 9) and the
/// four sides above.
pub open spec fn swamp_crown(x: int, gy: int, z: int, th: int) -> Logs {
    let top = gy + th;
    |a: int, b: int, c: int|
        in_layer(x, top - 1, z, 3, 9, false, true, a, b, c) || in_layer(x, top, z, 3, 9, false, true, a, b, c)
            || sides(x, top + 1, z)(a, b, c)
}

/// Swamp oak: a short trunk, a wide flat crown and vines of 1 or 2 blocks
/// hanging under it.
pub fn swamp_oak(buf: &mut ChunkBuffer, x: i32, gy: i32, z: i32, th: i32)
    requires
        old(buf).wf(),
        tree_site(x, gy, z, th),
    ensures
        drawn(
            *old(buf),
            *final(buf),
            bm_spec(17, 0),
            column(x as int, gy + 1, gy + th, z as int),
            then_leafy(
                leaves_on(swamp_crown(x as int, gy as int, z as int, th as int), bm_spec(18, 0)),
                leaves_on(swamp_vines(x as int, gy + th, z as int), bm_spec(106, 0)),
            ),
        ),
{
    let ghost c0 = buf.cells();
    let ghost (cx, cz) = (buf.cx, buf.cz);
    let ghost (xi, gi, zi, ti) = (x as int, gy as int, z as int, th as int);
    let log = bm(17, 0);
    let leaf = bm(18, 0);
    let top = gy + th;
    let ghost t = top as int;
    proof {
        lemma_drawn_nothing(c0, cx, cz, log);
    }
    let ghost f1 = then_leafy(no_leafy(), leaves_on(layer(xi, t - 1, zi, 3, 9, false, true), leaf));
    let ghost f2 = then_leafy(f1, leaves_on(layer(xi, t, zi, 3, 9, false, true), leaf));
    let ghost f3 = then_leafy(f2, leaves_on(sides(xi, t + 1, zi), leaf));
    let ghost logs = or_logs(no_logs(), column(xi, gi + 1, t, zi));
    leaf_layer(buf, x, top - 1, z, 3, 9, false, true, leaf, Ghost(c0), Ghost(log), Ghost(no_logs()), Ghost(no_leafy()));
    leaf_layer(buf, x, top, z, 3, 9, false, true, leaf, Ghost(c0), Ghost(log), Ghost(no_logs()), Ghost(f1));
    leaf_cross(buf, x, top + 1, z, leaf, Ghost(c0), Ghost(log), Ghost(no_logs()), Ghost(f2));
    trunk(buf, x, gy + 1, top, z, log, Ghost(c0), Ghost(no_logs()), Ghost(f3));
    let vine = bm(106, 0);
    proof {
        lemma_same_shape(c0, buf.cells(), cx, cz, log, logs, f3, logs, then_leafy(f3, leaves_on(swamp_vines_upto(xi, t, zi, 0, 2), vine)));
    }
    let mut k: usize = 0;
    while k < 8
        invariant
            buf.wf(),
            buf.cx == cx,
            buf.cz == cz,
            buf.biomes == old(buf).biomes,
            cx == old(buf).cx,
            cz == old(buf).cz,
            log == bm_spec(17, 0),
            leaf == bm_spec(18, 0),
            vine == bm_spec(106, 0),
            tree_site(x, gy, z, th),
            top == gy + th,
            t == top,
            xi == x,
            zi == z,
            k <= 8,
            solid_leafy(f3),
            drawn_cells(c0, buf.cells(), cx, cz, log, logs, then_leafy(f3, leaves_on(swamp_vines_upto(xi, t, zi, k as int, 2), vine))),
        decreases 8 - k,
    {
        let (dx, dz): (i32, i32) = match k {
            0 => (-3, 0),
            1 => (3, 0),
            2 => (0, -3),
            3 => (0, 3),
            4 => (-2, -2),
            5 => (2, 2),
            6 => (-2, 2),
            _ => (2, -2),
        };
        assert(swamp_spot_index(dx as int, dz as int) == k);
        let len: i32 = if trim(x + dx, top, z + dz, TRIM_SIXTY) { 3 } else { 2 };
        assert(len == vine_length(xi, t, zi, dx as int, dz as int));
        let mut d: i32 = 2;
        while d <= len
            invariant
                buf.wf(),
                buf.cx == cx,
                buf.cz == cz,
                buf.biomes == old(buf).biomes,
                log == bm_spec(17, 0),
                leaf == bm_spec(18, 0),
                vine == bm_spec(106, 0),
                tree_site(x, gy, z, th),
                top == gy + th,
                t == top,
                xi == x,
                zi == z,
                k < 8,
                -3 <= dx <= 3,
                -3 <= dz <= 3,
                swamp_spot_index(dx as int, dz as int) == k,
                len == vine_length(xi, t, zi, dx as int, dz as int),
                2 <= d <= len + 1,
                len <= 3,
                solid_leafy(f3),
                drawn_cells(
                    c0,
                    buf.cells(),
                    cx,
                    cz,
                    log,
                    logs,
                    then_leafy(f3, leaves_on(swamp_vines_upto(xi, t, zi, k as int, d as int), vine)),
                ),
            decreases len + 1 - d,
        {
            let ghost cur = then_leafy(f3, leaves_on(swamp_vines_upto(xi, t, zi, k as int, d as int), vine));
            proof {
                lemma_solid_then(f3, swamp_vines_upto(xi, t, zi, k as int, d as int), vine);
            }
            leaf_at(buf, x + dx, top - d, z + dz, vine, Ghost(c0), Ghost(log), Ghost(logs), Ghost(cur));
            proof {
                lemma_same_shape(
                    c0,
                    buf.cells(),
                    cx,
                    cz,
                    log,
                    logs,
                    then_leafy(cur, leaves_on(point((x + dx) as int, (top - d) as int, (z + dz) as int), vine)),
                    logs,
                    then_leafy(f3, leaves_on(swamp_vines_upto(xi, t, zi, k as int, d + 1), vine)),
                );
            }
            d += 1;
        }
        proof {
            lemma_same_shape(
                c0,
                buf.cells(),
                cx,
                cz,
                log,
                logs,
                then_leafy(f3, leaves_on(swamp_vines_upto(xi, t, zi, k as int, len + 1), vine)),
                logs,
                then_leafy(f3, leaves_on(swamp_vines_upto(xi, t, zi, k + 1, 2), vine)),
            );
        }
        k += 1;
    }
    proof {
        lemma_same_shape(
            c0,
            buf.cells(),
            cx,
            cz,
            log,
            logs,
            then_leafy(f3, leaves_on(swamp_vines_upto(xi, t, zi, 8, 2), vine)),
            column(xi, gi + 1, gi + ti, zi),
            then_leafy(leaves_on(swamp_crown(xi, gi, zi, ti), leaf), leaves_on(swamp_vines(xi, gi + ti, zi), vine)),
        );
    }
}


/// Direction of the branch of a large oak at (x, z), drawn from a stream
/// seeded by the seed and the position.
pub open spec fn branch_dir(seed: u64, x: i32, z: i32) -> (int, int) {
    let r = splitmix_out(coords_hash(seed ^ SALT_SHAPE, x ^ 0x5F, z, 0x77).wrapping_add(GOLDEN_GAMMA)) as int % 4;
    if r == 0 {
        (1, 0)
    } else if r == 1 {
        (-1, 0)
    } else if r == 2 {
        (0, 1)
    } else {
        (0, -1)
    }
}

/// Logs of a large oak with branch direction `d`: a trunk up to two above
/// half height, doubled on the side of `d` up to half height, and a branch
/// two blocks along `d` from two above half height to the top.
pub open spec fn large_oak_logs(x: int, gy: int, z: int, th: int, d: (int, int)) -> Logs {
    let split = gy + th / 2;
    let elbow = split + 2;
    let bx = x + 2 * d.0;
    let bz = z + 2 * d.1;
    |a: int, b: int, c: int|
        (a == x && c == z && gy + 1 <= b <= elbow) || (a == x + d.0 && c == z + d.1 && gy + 1 <= b <= split) || (a
            == bx && c == bz && (elbow <= b <= elbow + 1 || elbow + 2 <= b <= gy + th))
}

/// Leaves of a large oak with branch direction `d`: a crown at the end of
/// the branch and a ring around the trunk two above half height.
pub open spec fn large_oak_crown(x: int, gy: int, z: int, th: int, d: (int, int)) -> Logs {
    let elbow = gy + th / 2 + 2;
    let bx = x + 2 * d.0;
    let bz = z + 2 * d.1;
    let canopy = gy + th;
    |a: int, b: int, c: int|
        in_layer(bx, canopy - 1, bz, 2, -1, false, true, a, b, c) || in_layer(bx, canopy, bz, 2, -1, false, true, a, b, c)
            || sides(bx, canopy + 1, bz)(a, b, c) || (a == bx && b == canopy + 1 && c == bz) || in_layer(
            x,
            elbow,
            z,
            1,
            -1,
            true,
            false,
            a,
            b,
            c,
        )
}

/// Large oak: a two-block trunk up to half height, a branch stepping two
/// blocks aside (direction drawn from the position), a crown at its end and
/// a ring of leaves around the trunk top.
pub fn large_oak(buf: &mut ChunkBuffer, x: i32, gy: i32, z: i32, th: i32, seed: u64)
    requires
        old(buf).wf(),
        tree_site(x, gy, z, th),
    ensures
        drawn(
            *old(buf),
            *final(buf),
            bm_spec(17, 0),
            large_oak_logs(x as int, gy as int, z as int, th as int, branch_dir(seed, x, z)),
            leaves_on(large_oak_crown(x as int, gy as int, z as int, th as int, branch_dir(seed, x, z)), bm_spec(18, 0)),
        ),
{
    let ghost c0 = buf.cells();
    let ghost (cx, cz) = (buf.cx, buf.cz);
    let ghost (xi, gi, zi, ti) = (x as int, gy as int, z as int, th as int);
    let log = bm(17, 0);
    let leaf = bm(18, 0);
    let mut rng = Rng::new(hash_coords(seed ^ SALT_SHAPE, x ^ 0x5F, z, 0x77));
    let (ddx, ddz): (i32, i32) = match rng.range_i32(0, 3) {
        0 => (1, 0),
        1 => (-1, 0),
        2 => (0, 1),
        _ => (0, -1),
    };
    assert(branch_dir(seed, x, z) == (ddx as int, ddz as int));
    let ghost (di, ei) = (ddx as int, ddz as int);
    let split = gy + th / 2;
    let canopy_y = gy + th;
    proof {
        lemma_drawn_nothing(c0, cx, cz, log);
        lemma_same_shape(
            c0,
            buf.cells(),
            cx,
            cz,
            log,
            no_logs(),
            no_leafy(),
            or_logs(column(xi, gi + 1, gi, zi), column(xi + di, gi + 1, gi, zi + ei)),
            no_leafy(),
        );
    }
    let mut y = gy + 1;
    while y <= split
        invariant
            buf.wf(),
            buf.cx == cx,
            buf.cz == cz,
            buf.biomes == old(buf).biomes,
            cx == old(buf).cx,
            cz == old(buf).cz,
            log == bm_spec(17, 0),
            tree_site(x, gy, z, th),
            -1 <= ddx <= 1,
            -1 <= ddz <= 1,
            di == ddx,
            ei == ddz,
            xi == x,
            zi == z,
            gi == gy,
            split == gy + th / 2,
            gy + 1 <= y <= split + 1,
            drawn_cells(
                c0,
                buf.cells(),
                cx,
                cz,
                log,
                or_logs(column(xi, gi + 1, y - 1, zi), column(xi + di, gi + 1, y - 1, zi + ei)),
                no_leafy(),
            ),
        decreases split + 1 - y,
    {
        let ghost l0 = or_logs(column(xi, gi + 1, y - 1, zi), column(xi + di, gi + 1, y - 1, zi + ei));
        log_at(buf, x, y, z, log, Ghost(c0), Ghost(l0), Ghost(no_leafy()));
        let ghost l1 = or_logs(l0, point(xi, y as int, zi));
        log_at(buf, x + ddx, y, z + ddz, log, Ghost(c0), Ghost(l1), Ghost(no_leafy()));
        proof {
            lemma_same_shape(
                c0,
                buf.cells(),
                cx,
                cz,
                log,
                or_logs(l1, point(xi + di, y as int, zi + ei)),
                no_leafy(),
                or_logs(column(xi, gi + 1, y as int, zi), column(xi + di, gi + 1, y as int, zi + ei)),
                no_leafy(),
            );
        }
        y += 1;
    }
    let elbow = split + 2;
    let bx = x + ddx * 2;
    let bz = z + ddz * 2;
    let ghost (e, bxi, bzi, cy) = (elbow as int, bx as int, bz as int, canopy_y as int);
    let ghost l2 = or_logs(column(xi, gi + 1, y - 1, zi), column(xi + di, gi + 1, y - 1, zi + ei));
    trunk(buf, x, split + 1, elbow, z, log, Ghost(c0), Ghost(l2), Ghost(no_leafy()));
    let ghost l3 = or_logs(l2, column(xi, split + 1, e, zi));
    log_at(buf, bx, elbow, bz, log, Ghost(c0), Ghost(l3), Ghost(no_leafy()));
    let ghost l4 = or_logs(l3, point(bxi, e, bzi));
    log_at(buf, bx, elbow + 1, bz, log, Ghost(c0), Ghost(l4), Ghost(no_leafy()));
    let ghost l5 = or_logs(l4, point(bxi, e + 1, bzi));
    trunk(buf, bx, elbow + 2, canopy_y, bz, log, Ghost(c0), Ghost(l5), Ghost(no_leafy()));
    let ghost l6 = or_logs(l5, column(bxi, e + 2, cy, bzi));
    let ghost f1 = then_leafy(no_leafy(), leaves_on(layer(bxi, cy - 1, bzi, 2, -1, false, true), leaf));
    let ghost f2 = then_leafy(f1, leaves_on(layer(bxi, cy, bzi, 2, -1, false, true), leaf));
    let ghost f3 = then_leafy(f2, leaves_on(sides(bxi, cy + 1, bzi), leaf));
    let ghost f4 = then_leafy(f3, leaves_on(point(bxi, cy + 1, bzi), leaf));
    leaf_layer(buf, bx, canopy_y - 1, bz, 2, -1, false, true, leaf, Ghost(c0), Ghost(log), Ghost(l6), Ghost(no_leafy()));
    leaf_layer(buf, bx, canopy_y, bz, 2, -1, false, true, leaf, Ghost(c0), Ghost(log), Ghost(l6), Ghost(f1));
    leaf_cross(buf, bx, canopy_y + 1, bz, leaf, Ghost(c0), Ghost(log), Ghost(l6), Ghost(f2));
    leaf_at(buf, bx, canopy_y + 1, bz, leaf, Ghost(c0), Ghost(log), Ghost(l6), Ghost(f3));
    if split + 1 <= elbow {
        leaf_layer(buf, x, elbow, z, 1, -1, true, false, leaf, Ghost(c0), Ghost(log), Ghost(l6), Ghost(f4));
    }
    proof {
        let f5 = then_leafy(f4, leaves_on(layer(xi, e, zi, 1, -1, true, false), leaf));
        lemma_same_shape(
            c0,
            buf.cells(),
            cx,
            cz,
            log,
            l6,
            f5,
            large_oak_logs(xi, gi, zi, ti, (di, ei)),
            leaves_on(large_oak_crown(xi, gi, zi, ti, (di, ei)), leaf),
        );
    }
}

/// Radius of the pine ring at height `b`: 1 just under the top, then 2
/// above `gy + 6` and 1 below.
pub open spec fn pine_radius(gy: int, top: int, b: int) -> int {
    if b == top - 1 {
        1
    } else if b > gy + 6 {
        2
    } else {
        1
    }
}

/// Whether (a, b, c) is in a ring of needles of a pine: one height in four
/// down from `top - 1`, above `gy + 1`, corners trimmed.
pub open spec fn in_pine_rings(x: int, gy: int, z: int, top: int, a: int, b: int, c: int) -> bool {
    &&& gy + 1 < b <= top - 1
    &&& (top - 1 - b) % 4 == 0
    &&& in_layer(x, b, z, pine_radius(gy, top, b), -1, true, true, a, b, c)
}

/// Needles of a pine: its rings and a tip above the trunk.
pub open spec fn pine_needles(x: int, gy: int, z: int, th: int) -> Logs {
    let top = gy + th;
    |a: int, b: int, c: int| in_pine_rings(x, gy, z, top, a, b, c) || (a == x && b == top + 1 && c == z)
}

/// Pine: a tall trunk with sparse rings of needles every other layer
/// (every second ring is skipped), radius 2 high up and 1 lower down.
pub fn pine(buf: &mut ChunkBuffer, x: i32, gy: i32, z: i32, th: i32)
    requires
        old(buf).wf(),
        tree_site(x, gy, z, th),
    ensures
        drawn(
            *old(buf),
            *final(buf),
            bm_spec(17, 1),
            column(x as int, gy + 1, gy + th, z as int),
            leaves_on(pine_needles(x as int, gy as int, z as int, th as int), bm_spec(18, 1)),
        ),
{
    let ghost c0 = buf.cells();
    let ghost (cx, cz) = (buf.cx, buf.cz);
    let ghost (xi, gi, zi, ti) = (x as int, gy as int, z as int, th as int);
    let log = bm(17, 1);
    let leaf = bm(18, 1);
    let top = gy + th;
    let ghost t = top as int;
    proof {
        lemma_drawn_nothing(c0, cx, cz, log);
    }
    trunk(buf, x, gy + 1, top, z, log, Ghost(c0), Ghost(no_logs()), Ghost(no_leafy()));
    let ghost logs = or_logs(no_logs(), column(xi, gi + 1, t, zi));
    let mut level = top - 1;
    let mut radius: i32 = 1;
    let mut step: u32 = 0;
    proof {
        lemma_same_shape(
            c0,
            buf.cells(),
            cx,
            cz,
            log,
            logs,
            no_leafy(),
            logs,
            leaves_on(|a: int, b: int, c: int| level < b && in_pine_rings(xi, gi, zi, t, a, b, c), leaf),
        );
    }
    while level > gy + 1
        invariant
            buf.wf(),
            buf.cx == cx,
            buf.cz == cz,
            buf.biomes == old(buf).biomes,
            cx == old(buf).cx,
            cz == old(buf).cz,
            log == bm_spec(17, 1),
            leaf == bm_spec(18, 1),
            tree_site(x, gy, z, th),
            top == gy + th,
            t == top,
            xi == x,
            zi == z,
            gi == gy,
            gy <= level + 2 <= top + 1,
            level + 2 * step == top - 1,
            radius == pine_radius(gi, t, level as int),
            drawn_cells(
                c0,
                buf.cells(),
                cx,
                cz,
                log,
                logs,
                leaves_on(|a: int, b: int, c: int| level < b && in_pine_rings(xi, gi, zi, t, a, b, c), leaf),
            ),
        decreases level - gy,
    {
        let ghost cur = leaves_on(|a: int, b: int, c: int| level < b && in_pine_rings(xi, gi, zi, t, a, b, c), leaf);
        let ghost next = leaves_on(|a: int, b: int, c: int| level - 2 < b && in_pine_rings(xi, gi, zi, t, a, b, c), leaf);
        proof {
            lemma_solid_then(no_leafy(), |a: int, b: int, c: int| level < b && in_pine_rings(xi, gi, zi, t, a, b, c), leaf);
            assert((t - 1 - level) % 4 == 0 <==> step % 2 == 0) by (nonlinear_arith)
                requires
                    level + 2 * step == t - 1,
                    step >= 0,
            ;
        }
        if step % 2 == 0 {
            leaf_layer(buf, x, level, z, radius, -1, true, true, leaf, Ghost(c0), Ghost(log), Ghost(logs), Ghost(cur));
            proof {
                lemma_same_shape(
                    c0,
                    buf.cells(),
                    cx,
                    cz,
                    log,
                    logs,
                    then_leafy(cur, leaves_on(layer(xi, level as int, zi, radius as int, -1, true, true), leaf)),
                    logs,
                    next,
                );
            }
        } else {
            proof {
                lemma_same_shape(c0, buf.cells(), cx, cz, log, logs, cur, logs, next);
            }
        }
        level -= 2;
        radius = if level > gy + 6 { 2 } else { 1 };
        step += 1;
    }
    let ghost fl = leaves_on(|a: int, b: int, c: int| level < b && in_pine_rings(xi, gi, zi, t, a, b, c), leaf);
    proof {
        lemma_solid_then(no_leafy(), |a: int, b: int, c: int| level < b && in_pine_rings(xi, gi, zi, t, a, b, c), leaf);
    }
    leaf_at(buf, x, top + 1, z, leaf, Ghost(c0), Ghost(log), Ghost(logs), Ghost(fl));
    proof {
        lemma_same_shape(
            c0,
            buf.cells(),
            cx,
            cz,
            log,
            logs,
            then_leafy(fl, leaves_on(point(xi, t + 1, zi), leaf)),
            column(xi, gi + 1, gi + ti, zi),
            leaves_on(pine_needles(xi, gi, zi, ti), leaf),
        );
    }
}

/// Logs of a dark oak: a 2 x 2 trunk of height `thi`.
pub open spec fn dark_oak_logs(x: int, gy: int, z: int, thi: int) -> Logs {
    |a: int, b: int, c: int| (a == x || a == x + 1) && (c == z || c == z + 1) && gy + 1 <= b <= gy + thi
}

/// Crown of a dark oak: two wide layers (dx^2 + dz^2 <= 5) around the
/// trunk corner (x + 1, z + 1) and a tip above.
pub open spec fn dark_oak_crown(x: int, gy: int, z: int, thi: int) -> Logs {
    let top = gy + thi;
    |a: int, b: int, c: int|
        in_layer(x + 1, top - 1, z + 1, 2, 5, false, true, a, b, c) || in_layer(x + 1, top, z + 1, 2, 5, false, true, a, b, c)
            || (a == x + 1 && b == top + 1 && c == z + 1)
}

/// Dark oak: a 2 x 2 trunk of height `thi` and a wide dark crown on two
/// levels.
pub fn dark_oak(buf: &mut ChunkBuffer, x: i32, gy: i32, z: i32, thi: i32)
    requires
        old(buf).wf(),
        tree_site(x, gy, z, thi),
    ensures
        drawn(
            *old(buf),
            *final(buf),
            bm_spec(162, 0),
            dark_oak_logs(x as int, gy as int, z as int, thi as int),
            leaves_on(dark_oak_crown(x as int, gy as int, z as int, thi as int), bm_spec(161, 0)),
        ),
{
    let ghost c0 = buf.cells();
    let ghost (cx, cz) = (buf.cx, buf.cz);
    let ghost (xi, gi, zi, ti) = (x as int, gy as int, z as int, thi as int);
    let log = bm(162, 0);
    let leaf = bm(161, 0);
    proof {
        lemma_drawn_nothing(c0, cx, cz, log);
        lemma_same_shape(c0, buf.cells(), cx, cz, log, no_logs(), no_leafy(), dark_oak_logs(xi, gi, zi, 0), no_leafy());
    }
    let mut y = gy + 1;
    while y <= gy + thi
        invariant
            buf.wf(),
            buf.cx == cx,
            buf.cz == cz,
            buf.biomes == old(buf).biomes,
            cx == old(buf).cx,
            cz == old(buf).cz,
            log == bm_spec(162, 0),
            tree_site(x, gy, z, thi),
            xi == x,
            zi == z,
            gi == gy,
            gy + 1 <= y <= gy + thi + 1,
            drawn_cells(c0, buf.cells(), cx, cz, log, dark_oak_logs(xi, gi, zi, y - 1 - gi), no_leafy()),
        decreases gy + thi + 1 - y,
    {
        let ghost l0 = dark_oak_logs(xi, gi, zi, y - 1 - gi);
        let ghost yi = y as int;
        log_at(buf, x, y, z, log, Ghost(c0), Ghost(l0), Ghost(no_leafy()));
        let ghost l1 = or_logs(l0, point(xi, yi, zi));
        log_at(buf, x + 1, y, z, log, Ghost(c0), Ghost(l1), Ghost(no_leafy()));
        let ghost l2 = or_logs(l1, point(xi + 1, yi, zi));
        log_at(buf, x, y, z + 1, log, Ghost(c0), Ghost(l2), Ghost(no_leafy()));
        let ghost l3 = or_logs(l2, point(xi, yi, zi + 1));
        log_at(buf, x + 1, y, z + 1, log, Ghost(c0), Ghost(l3), Ghost(no_leafy()));
        proof {
            lemma_same_shape(
                c0,
                buf.cells(),
                cx,
                cz,
                log,
                or_logs(l3, point(xi + 1, yi, zi + 1)),
                no_leafy(),
                dark_oak_logs(xi, gi, zi, yi - gi),
                no_leafy(),
            );
        }
        y += 1;
    }
    let top = gy + thi;
    let ghost t = top as int;
    let ghost logs = dark_oak_logs(xi, gi, zi, y - 1 - gi);
    let ghost f1 = then_leafy(no_leafy(), leaves_on(layer(xi + 1, t - 1, zi + 1, 2, 5, false, true), leaf));
    let ghost f2 = then_leafy(f1, leaves_on(layer(xi + 1, t, zi + 1, 2, 5, false, true), leaf));
    leaf_layer(buf, x + 1, top - 1, z + 1, 2, 5, false, true, leaf, Ghost(c0), Ghost(log), Ghost(logs), Ghost(no_leafy()));
    leaf_layer(buf, x + 1, top, z + 1, 2, 5, false, true, leaf, Ghost(c0), Ghost(log), Ghost(logs), Ghost(f1));
    leaf_at(buf, x + 1, top + 1, z + 1, leaf, Ghost(c0), Ghost(log), Ghost(logs), Ghost(f2));
    proof {
        lemma_same_shape(
            c0,
            buf.cells(),
            cx,
            cz,
            log,
            logs,
            then_leafy(f2, leaves_on(point(xi + 1, t + 1, zi + 1), leaf)),
            dark_oak_logs(xi, gi, zi, ti),
            leaves_on(dark_oak_crown(xi, gi, zi, ti), leaf),
        );
    }
}

/// Where the head of an acacia at (x, z) leans: east when x + z is even,
/// else south.
pub open spec fn acacia_head(x: int, z: int) -> (int, int) {
    if (x + z) % 2 == 0 {
        (x + 1, z)
    } else {
        (x, z + 1)
    }
}

/// Logs of an acacia: a trunk of height `th` and its leaning head.
pub open spec fn acacia_logs(x: int, gy: int, z: int, th: int) -> Logs {
    let h = acacia_head(x, z);
    |a: int, b: int, c: int| (a == x && c == z && gy + 1 <= b <= gy + th) || (a == h.0 && b == gy + th && c == h.1)
}

/// Crown of an acacia: two flat layers (dx^2 + dz^2 <= 3) around its head
/// and a plus above.
pub open spec fn acacia_crown(x: int, gy: int, z: int, th: int) -> Logs {
    let top = gy + th;
    let h = acacia_head(x, z);
    |a: int, b: int, c: int|
        in_layer(h.0, top - 1, h.1, 2, 3, false, true, a, b, c) || in_layer(h.0, top, h.1, 2, 3, false, true, a, b, c)
            || sides(h.0, top + 1, h.1)(a, b, c) || (a == h.0 && b == top + 1 && c == h.1)
}

/// Acacia: a thin trunk whose head leans one block aside under a flat crown.
pub fn acacia(buf: &mut ChunkBuffer, x: i32, gy: i32, z: i32, th: i32)
    requires
        old(buf).wf(),
        tree_site(x, gy, z, th),
    ensures
        drawn(
            *old(buf),
            *final(buf),
            bm_spec(162, 0),
            acacia_logs(x as int, gy as int, z as int, th as int),
            leaves_on(acacia_crown(x as int, gy as int, z as int, th as int), bm_spec(161, 0)),
        ),
{
    let ghost c0 = buf.cells();
    let ghost (cx, cz) = (buf.cx, buf.cz);
    let ghost (xi, gi, zi, ti) = (x as int, gy as int, z as int, th as int);
    let log = bm(162, 0);
    let leaf = bm(161, 0);
    let top = gy + th;
    let lean: i32 = if (x + z) % 2 == 0 { 1 } else { 0 };
    let hx = x + lean;
    let hz = z + (1 - lean);
    assert(acacia_head(xi, zi) == (hx as int, hz as int));
    let ghost (t, hxi, hzi) = (top as int, hx as int, hz as int);
    proof {
        lemma_drawn_nothing(c0, cx, cz, log);
    }
    trunk(buf, x, gy + 1, top, z, log, Ghost(c0), Ghost(no_logs()), Ghost(no_leafy()));
    let ghost l1 = or_logs(no_logs(), column(xi, gi + 1, t, zi));
    log_at(buf, hx, top, hz, log, Ghost(c0), Ghost(l1), Ghost(no_leafy()));
    let ghost l2 = or_logs(l1, point(hxi, t, hzi));
    let ghost f1 = then_leafy(no_leafy(), leaves_on(layer(hxi, t - 1, hzi, 2, 3, false, true), leaf));
    let ghost f2 = then_leafy(f1, leaves_on(layer(hxi, t, hzi, 2, 3, false, true), leaf));
    let ghost f3 = then_leafy(f2, leaves_on(sides(hxi, t + 1, hzi), leaf));
    leaf_layer(buf, hx, top - 1, hz, 2, 3, false, true, leaf, Ghost(c0), Ghost(log), Ghost(l2), Ghost(no_leafy()));
    leaf_layer(buf, hx, top, hz, 2, 3, false, true, leaf, Ghost(c0), Ghost(log), Ghost(l2), Ghost(f1));
    leaf_cross(buf, hx, top + 1, hz, leaf, Ghost(c0), Ghost(log), Ghost(l2), Ghost(f2));
    leaf_at(buf, hx, top + 1, hz, leaf, Ghost(c0), Ghost(log), Ghost(l2), Ghost(f3));
    proof {
        lemma_same_shape(
            c0,
            buf.cells(),
            cx,
            cz,
            log,
            l2,
            then_leafy(f3, leaves_on(point(hxi, t + 1, hzi), leaf)),
            acacia_logs(xi, gi, zi, ti),
            leaves_on(acacia_crown(xi, gi, zi, ti), leaf),
        );
    }
}

/// Kinds of trees.
#[derive(Clone, Copy, PartialEq, Eq, Structural, Debug)]
pub enum TreeKind {
    Oak,
    LargeOak,
    Birch,
    Spruce,
    Pine,
    JungleSmall,
    JungleBig,
    SwampOak,
    DarkOak,
    Acacia,
}

/// Height of the sea surface.
pub const SEA_LEVEL: i32 = 62;

/// Whether a tree may stand on column (x, z) of surface height `height` and
/// biome `biome`: not in water biomes, above the sea and below 200, and, if
/// the column is in this chunk, on ground that is not air, water, lava or
/// sand (a cave or a pond may have changed it).
pub open spec fn site_ok(cells: Seq<u16>, cx: i32, cz: i32, biome: Biome, x: i32, height: i32, z: i32) -> bool {
    &&& !(biome == Biome::Ocean || biome == Biome::DeepOcean || biome == Biome::River || biome
        == Biome::Beach)
    &&& SEA_LEVEL < height <= 200
    &&& match world_read(cells, cx, cz, x as int, height as int, z as int) {
        Some(cur) => {
            let id = cur % 4096;
            !(id == 0 || id == 9 || id == 11 || id == 12)
        },
        None => true,
    }
}

/// Whether a tree may stand on a column (see `site_ok`).
pub fn tree_site_ok(buf: &ChunkBuffer, biome: Biome, x: i32, height: i32, z: i32) -> (r: bool)
    requires
        buf.wf(),
    ensures
        r == site_ok(buf.cells(), buf.cx, buf.cz, biome, x, height, z),
{
    match biome {
        Biome::Ocean | Biome::DeepOcean | Biome::River | Biome::Beach => return false,
        _ => {},
    }
    if height <= SEA_LEVEL || height > 200 {
        return false;
    }
    if let Some(cur) = buf.get_world(x, height, z) {
        let id = cur & 0xFFF;
        assert(id == cur % 4096) by (bit_vector)
            requires
                id == cur & 0xFFF,
        ;
        if id == 0 || id == 9 || id == 11 || id == 12 {
            return false;
        }
    }
    true
}
/// Log of a kind of tree.
pub open spec fn kind_log(kind: TreeKind) -> u16 {
    match kind {
        TreeKind::Birch => bm_spec(17, 2),
        TreeKind::Spruce | TreeKind::Pine => bm_spec(17, 1),
        TreeKind::JungleSmall | TreeKind::JungleBig => bm_spec(17, 3),
        TreeKind::DarkOak | TreeKind::Acacia => bm_spec(162, 0),
        _ => bm_spec(17, 0),
    }
}

/// Leaves of a kind of tree.
pub open spec fn kind_leaf(kind: TreeKind) -> u16 {
    match kind {
        TreeKind::Birch => bm_spec(18, 2),
        TreeKind::Spruce | TreeKind::Pine => bm_spec(18, 1),
        TreeKind::JungleSmall | TreeKind::JungleBig => bm_spec(18, 3),
        TreeKind::DarkOak | TreeKind::Acacia => bm_spec(161, 0),
        _ => bm_spec(18, 0),
    }
}

/// The draw that sizes the tree at (x, z): the first output of the stream
/// seeded by the seed and the position.
pub open spec fn shape_draw(seed: u64, x: i32, z: i32) -> int {
    splitmix_out(coords_hash(seed ^ SALT_SHAPE, x, z, 0x22).wrapping_add(GOLDEN_GAMMA)) as int
}

/// Trunk height of a tree of `kind` at (x, z): oak 4-6, large oak 6-9,
/// birch 5-7, spruce 6-9, pine 7-10, small jungle 5-7, large jungle 8-12,
/// swamp oak 5-6, dark oak 6, acacia 4-6, picked by the shape draw.
pub open spec fn tree_height(kind: TreeKind, seed: u64, x: i32, z: i32) -> int {
    let d = shape_draw(seed, x, z);
    match kind {
        TreeKind::Oak => 4 + d % 3,
        TreeKind::LargeOak => 6 + d % 4,
        TreeKind::Birch => 5 + d % 3,
        TreeKind::Spruce => 6 + d % 4,
        TreeKind::Pine => 7 + d % 4,
        TreeKind::JungleSmall => 5 + d % 3,
        TreeKind::JungleBig => 8 + d % 5,
        TreeKind::SwampOak => 5 + d % 2,
        TreeKind::DarkOak => 6,
        TreeKind::Acacia => 4 + d % 3,
    }
}

/// Logs of a tree of `kind` and trunk height `th` on (x, gy, z).
pub open spec fn kind_logs(kind: TreeKind, x: i32, gy: i32, z: i32, th: int, seed: u64) -> Logs {
    match kind {
        TreeKind::LargeOak => large_oak_logs(x as int, gy as int, z as int, th, branch_dir(seed, x, z)),
        TreeKind::DarkOak => dark_oak_logs(x as int, gy as int, z as int, th),
        TreeKind::Acacia => acacia_logs(x as int, gy as int, z as int, th),
        _ => column(x as int, gy + 1, gy + th, z as int),
    }
}

/// Leaves (and vines) of a tree of `kind` and trunk height `th` on (x, gy, z).
pub open spec fn kind_leafy(kind: TreeKind, x: i32, gy: i32, z: i32, th: int, seed: u64) -> Leafy {
    let (xi, gi, zi) = (x as int, gy as int, z as int);
    let leaf = kind_leaf(kind);
    match kind {
        TreeKind::Oak | TreeKind::Birch => leaves_on(oak_crown(xi, gi, zi, th), leaf),
        TreeKind::LargeOak => leaves_on(large_oak_crown(xi, gi, zi, th, branch_dir(seed, x, z)), leaf),
        TreeKind::Spruce => leaves_on(spruce_crown(xi, gi, zi, th), leaf),
        TreeKind::Pine => leaves_on(pine_needles(xi, gi, zi, th), leaf),
        TreeKind::JungleSmall => leaves_on(jungle_crown(xi, gi, zi, th), leaf),
        TreeKind::JungleBig => then_leafy(
            leaves_on(jungle_big_crown(xi, gi, zi, th), leaf),
            trunk_vines(xi, gi + 2, zi, gi + th - 1, 6),
        ),
        TreeKind::SwampOak => then_leafy(
            leaves_on(swamp_crown(xi, gi, zi, th), leaf),
            leaves_on(swamp_vines(xi, gi + th, zi), bm_spec(106, 0)),
        ),
        TreeKind::DarkOak => leaves_on(dark_oak_crown(xi, gi, zi, th), leaf),
        TreeKind::Acacia => leaves_on(acacia_crown(xi, gi, zi, th), leaf),
    }
}

/// Draws a tree of `kind` standing on (x, ground, z), its trunk height
/// drawn from the seed and the position (see `tree_height`).
pub fn build_tree(buf: &mut ChunkBuffer, kind: TreeKind, x: i32, ground: i32, z: i32, seed: u64)
    requires
        old(buf).wf(),
        tree_site(x, ground, z, 0),
    ensures
        drawn(
            *old(buf),
            *final(buf),
            kind_log(kind),
            kind_logs(kind, x, ground, z, tree_height(kind, seed, x, z), seed),
            kind_leafy(kind, x, ground, z, tree_height(kind, seed, x, z), seed),
        ),
{
    let mut rng = Rng::new(hash_coords(seed ^ SALT_SHAPE, x, z, 0x22));
    match kind {
        TreeKind::Oak => {
            let h = 4 + rng.range_i32(0, 2);
            oak_like(buf, x, ground, z, bm(17, 0), bm(18, 0), h);
        },
        TreeKind::LargeOak => {
            let h = 6 + rng.range_i32(0, 3);
            large_oak(buf, x, ground, z, h, seed);
        },
        TreeKind::Birch => {
            let h = 5 + rng.range_i32(0, 2);
            oak_like(buf, x, ground, z, bm(17, 2), bm(18, 2), h);
        },
        TreeKind::Spruce => {
            let h = 6 + rng.range_i32(0, 3);
            spruce(buf, x, ground, z, h);
        },
        TreeKind::Pine => {
            let h = 7 + rng.range_i32(0, 3);
            pine(buf, x, ground, z, h);
        },
        TreeKind::JungleSmall => {
            let h = 5 + rng.range_i32(0, 2);
            jungle_small(buf, x, ground, z, h);
        },
        TreeKind::JungleBig => {
            let h = 8 + rng.range_i32(0, 4);
            jungle_big(buf, x, ground, z, h);
        },
        TreeKind::SwampOak => {
            let h = 5 + rng.range_i32(0, 1);
            swamp_oak(buf, x, ground, z, h);
        },
        TreeKind::DarkOak => {
            dark_oak(buf, x, ground, z, 6);
        },
        TreeKind::Acacia => {
            let h = 4 + rng.range_i32(0, 2);
            acacia(buf, x, ground, z, h);
        },
    }
}


proof fn lemma_vines_above(x: int, y_from: int, z: int, y_to: int, n: nat, a: int, b: int, c: int)
    requires
        b < y_from,
    ensures
        trunk_vines(x, y_from, z, y_to, n)(a, b, c) is None,
    decreases n,
{
    if n > 0 {
        lemma_vines_above(x, y_from, z, y_to, (n - 1) as nat, a, b, c);
        let i = n - 1;
        assert(0 <= (i * 7) % vine_span(y_from, y_to));
    }
}

/// A tree never changes the layer it stands on, nor anything below it: no
/// log, leaf or vine of a tree grown by `build_tree` lies at or under its
/// ground height.
pub proof fn trees_stay_above_ground(kind: TreeKind, x: i32, ground: i32, z: i32, seed: u64, a: int, b: int, c: int)
    requires
        tree_site(x, ground, z, 0),
        b <= ground,
    ensures
        !kind_logs(kind, x, ground, z, tree_height(kind, seed, x, z), seed)(a, b, c),
        kind_leafy(kind, x, ground, z, tree_height(kind, seed, x, z), seed)(a, b, c) is None,
{
    let th = tree_height(kind, seed, x, z);
    let d = shape_draw(seed, x, z);
    assert(d % 3 >= 0 && d % 4 >= 0 && d % 5 >= 0 && d % 2 >= 0);
    assert(th >= 4);
    if kind == TreeKind::JungleBig {
        lemma_vines_above(x as int, ground + 2, z as int, ground + th - 1, 6, a, b, c);
    }
}

} // verus!
