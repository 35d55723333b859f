//! Ore veins.
//!
//! Each source chunk (the 3 x 3 chunks around the current one) draws its
//! veins from a stream derived from the seed and its coordinates; only the
//! blocks that fall in the current chunk are written. Veins are therefore
//! continuous across chunks, never duplicated, and independent of the
//! order of generation.

use vstd::prelude::*;
use crate::worldgen::buffer::{world_read, world_written, ChunkBuffer, BUFFER_LEN};
use crate::worldgen::growth::{
    cell_x, cell_y, cell_z, kept, lemma_cell_at, leaves_on, no_leafy, point, then_leafy, Leafy,
};
use crate::worldgen::noise::advance;
use crate::worldgen::rng::{coords_hash, hash_coords, splitmix_out, Rng};

verus! {

pub const STONE: u16 = 1;

/// Emerald ore, found only in mountains.
pub const EMERALD: u16 = 129;

/// Ore kind `k` (0 to 5): block id, veins per source chunk, vein length and
/// height range (coal, iron, gold, redstone, lapis, diamond).
pub open spec fn ore_kind(k: int) -> (u16, u32, i32, i32, i32) {
    if k == 0 {
        (16, 14, 12, 5, 98)
    } else if k == 1 {
        (15, 10, 6, 5, 62)
    } else if k == 2 {
        (14, 2, 6, 5, 31)
    } else if k == 3 {
        (73, 6, 6, 5, 15)
    } else if k == 4 {
        (21, 1, 5, 4, 30)
    } else {
        (56, 1, 6, 5, 14)
    }
}

fn ore_def(k: usize) -> (d: (u16, u32, i32, i32, i32))
    requires
        k < 6,
    ensures
        d == ore_kind(k as int),
{
    match k {
        0 => (16, 14, 12, 5, 98),
        1 => (15, 10, 6, 5, 62),
        2 => (14, 2, 6, 5, 31),
        3 => (73, 6, 6, 5, 15),
        4 => (21, 1, 5, 4, 30),
        _ => (56, 1, 6, 5, 14),
    }
}

/// Block ids of the ores.
pub open spec fn is_ore(v: u16) -> bool {
    v == 16 || v == 15 || v == 14 || v == 73 || v == 21 || v == 56 || v == EMERALD
}

/// Every changed cell was stone and now holds an ore.
pub open spec fn only_stone_to_ore(before: Seq<u16>, after: Seq<u16>) -> bool {
    &&& before.len() == after.len()
    &&& forall|i: int|
        0 <= i < before.len() ==> #[trigger] after[i] == before[i] || (before[i] == STONE && is_ore(
            after[i],
        ))
}

/// Value of a cell holding `before` once the ore `ore` (if any) is placed
/// on it: ore replaces stone only.
pub open spec fn ore_value(before: u16, ore: Option<u16>) -> u16 {
    if before == STONE && ore is Some {
        ore->0
    } else {
        before
    }
}

/// `after` is `before` with the ores of `ores` placed over the stone, in a
/// buffer of chunk (cx, cz).
pub open spec fn ores_placed(before: Seq<u16>, after: Seq<u16>, cx: i32, cz: i32, ores: Leafy) -> bool {
    &&& before.len() == BUFFER_LEN
    &&& after.len() == BUFFER_LEN
    &&& forall|i: int|
        0 <= i < BUFFER_LEN ==> #[trigger] after[i] == ore_value(before[i], ores(cell_x(cx, i), cell_y(i), cell_z(cz, i)))
}

/// Every value placed is an ore.
pub open spec fn ore_valued(f: Leafy) -> bool {
    forall|a: int, b: int, c: int| #[trigger] f(a, b, c) is Some ==> is_ore(f(a, b, c)->0)
}

proof fn lemma_place_step(c0: Seq<u16>, cur: Seq<u16>, cx: i32, cz: i32, f: Leafy, x: int, y: int, z: int, v: u16)
    requires
        ores_placed(c0, cur, cx, cz, f),
        ore_valued(f),
        is_ore(v),
    ensures
        ores_placed(
            c0,
            if world_read(cur, cx, cz, x, y, z) == Some(STONE) {
                world_written(cur, cx, cz, x, y, z, v)
            } else {
                cur
            },
            cx,
            cz,
            then_leafy(f, leaves_on(point(x, y, z), v)),
        ),
        ore_valued(then_leafy(f, leaves_on(point(x, y, z), v))),
{
    let next = if world_read(cur, cx, cz, x, y, z) == Some(STONE) {
        world_written(cur, cx, cz, x, y, z, v)
    } else {
        cur
    };
    let g = then_leafy(f, leaves_on(point(x, y, z), v));
    assert forall|i: int| 0 <= i < BUFFER_LEN implies #[trigger] next[i] == ore_value(c0[i], g(cell_x(cx, i), cell_y(i), cell_z(cz, i))) by {
        let (a, b, c) = (cell_x(cx, i), cell_y(i), cell_z(cz, i));
        lemma_cell_at(cx, cz, i, x, y, z);
        assert(cur[i] == ore_value(c0[i], f(a, b, c)));
        assert(f(a, b, c) is Some ==> is_ore(f(a, b, c)->0));
    }
    assert forall|a: int, b: int, c: int| #[trigger] g(a, b, c) is Some implies is_ore(g(a, b, c)->0) by {
        assert(f(a, b, c) is Some ==> is_ore(f(a, b, c)->0));
    }
}

proof fn lemma_same_ores(c0: Seq<u16>, cur: Seq<u16>, cx: i32, cz: i32, f: Leafy, g: Leafy)
    requires
        ores_placed(c0, cur, cx, cz, f),
        forall|a: int, b: int, c: int| #[trigger] g(a, b, c) == f(a, b, c),
    ensures
        ores_placed(c0, cur, cx, cz, g),
        ore_valued(f) ==> ore_valued(g),
{
    assert forall|i: int| 0 <= i < BUFFER_LEN implies #[trigger] cur[i] == ore_value(c0[i], g(cell_x(cx, i), cell_y(i), cell_z(cz, i))) by {
        let (a, b, c) = (cell_x(cx, i), cell_y(i), cell_z(cz, i));
        assert(g(a, b, c) == f(a, b, c));
    }
    if ore_valued(f) {
        assert forall|a: int, b: int, c: int| #[trigger] g(a, b, c) is Some implies is_ore(g(a, b, c)->0) by {
            assert(g(a, b, c) == f(a, b, c));
        }
    }
}

/// State seeding the ores of source chunk (scx, scz).
pub open spec fn ore_stream(seed: u64, scx: i32, scz: i32) -> u64 {
    coords_hash(seed ^ 0x0BE5_1A7Eu64, scx, scz, 0x0F1Eu64)
}

/// Draw `n` (from 1) of the stream in state `st`, in the range [lo, hi].
pub open spec fn draw_in(st: u64, n: nat, lo: int, hi: int) -> int {
    lo + splitmix_out(advance(st, n)) as int % (hi - lo + 1)
}

/// Position after `s` steps of a vein starting at (x0, y0, z0) whose draws
/// come from the stream in state `st`: three draws for the start, then
/// three steps of -1, 0 or 1 per block, the height kept in 1..=250.
pub open spec fn walk_pos(st: u64, x0: int, y0: int, z0: int, s: nat) -> (int, int, int)
    decreases s,
{
    if s == 0 {
        (x0, y0, z0)
    } else {
        let p = walk_pos(st, x0, y0, z0, (s - 1) as nat);
        let b = 3 * s;
        let y = p.1 + draw_in(st, (b + 2) as nat, -1, 1);
        (
            p.0 + draw_in(st, (b + 1) as nat, -1, 1),
            if y < 1 {
                1
            } else if y > 250 {
                250
            } else {
                y
            },
            p.2 + draw_in(st, (b + 3) as nat, -1, 1),
        )
    }
}

/// The first `n` blocks of a vein of ore `id` (an earlier block keeps its
/// place).
pub open spec fn walk_cells(st: u64, start: (int, int, int), n: nat, id: u16) -> Leafy
    decreases n,
{
    if n == 0 {
        no_leafy()
    } else {
        let p = walk_pos(st, start.0, start.1, start.2, (n - 1) as nat);
        then_leafy(walk_cells(st, start, (n - 1) as nat, id), leaves_on(point(p.0, p.1, p.2), id))
    }
}

/// Start of a vein of kind `k` drawn in source chunk (scx, scz): a column
/// of the chunk and a height in the kind's range.
pub open spec fn vein_start(st: u64, scx: i32, scz: i32, k: int) -> (int, int, int) {
    (
        scx * 16 + draw_in(st, 1, 0, 15),
        draw_in(st, 2, ore_kind(k).3 as int, ore_kind(k).4 as int),
        scz * 16 + draw_in(st, 3, 0, 15),
    )
}

/// Blocks of a vein of kind `k` whose draws start at state `st`.
pub open spec fn vein(st: u64, scx: i32, scz: i32, k: int) -> Leafy {
    walk_cells(st, vein_start(st, scx, scz, k), ore_kind(k).2 as nat, ore_kind(k).0)
}

/// Number of draws of a vein of kind `k`.
pub open spec fn vein_draws(k: int) -> nat {
    (3 + 3 * ore_kind(k).2) as nat
}

/// The first `n` veins of kind `k` from state `st`, and the state after them.
pub open spec fn kind_veins(st: u64, scx: i32, scz: i32, k: int, n: nat) -> (Leafy, u64)
    decreases n,
{
    if n == 0 {
        (no_leafy(), st)
    } else {
        let prev = kind_veins(st, scx, scz, k, (n - 1) as nat);
        (then_leafy(prev.0, vein(prev.1, scx, scz, k)), advance(prev.1, vein_draws(k)))
    }
}

/// The veins of the first `k` kinds from state `st`, and the state after them.
pub open spec fn all_kinds(st: u64, scx: i32, scz: i32, k: nat) -> (Leafy, u64)
    decreases k,
{
    if k == 0 {
        (no_leafy(), st)
    } else {
        let prev = all_kinds(st, scx, scz, (k - 1) as nat);
        let v = kind_veins(prev.1, scx, scz, k - 1, ore_kind(k - 1).1 as nat);
        (then_leafy(prev.0, v.0), v.1)
    }
}

/// Position of emerald try `e` whose draws follow state `st`.
pub open spec fn emerald_try(st: u64, scx: i32, scz: i32, e: int) -> (int, int, int) {
    (
        scx * 16 + draw_in(st, (3 * e + 1) as nat, 0, 15),
        draw_in(st, (3 * e + 3) as nat, 6, 32),
        scz * 16 + draw_in(st, (3 * e + 2) as nat, 0, 15),
    )
}

/// The emeralds of the first `n` tries, where `found` says the column was a
/// mountain.
pub open spec fn emeralds(st: u64, scx: i32, scz: i32, found: Seq<bool>, n: nat) -> Leafy
    decreases n,
{
    if n == 0 {
        no_leafy()
    } else {
        let p = emerald_try(st, scx, scz, n - 1);
        then_leafy(
            emeralds(st, scx, scz, found, (n - 1) as nat),
            if found[n - 1] {
                leaves_on(point(p.0, p.1, p.2), EMERALD)
            } else {
                no_leafy()
            },
        )
    }
}

/// Ores drawn by source chunk (scx, scz): the veins of the six kinds, then
/// four emerald tries (`found` tells which columns were mountains).
pub open spec fn source_ores(seed: u64, scx: i32, scz: i32, found: Seq<bool>) -> Leafy {
    let kinds = all_kinds(ore_stream(seed, scx, scz), scx, scz, 6);
    then_leafy(kinds.0, emeralds(kinds.1, scx, scz, found, 4))
}

/// Column of emerald try `e` of source chunk (scx, scz).
pub open spec fn emerald_column(seed: u64, scx: i32, scz: i32, e: int) -> (i32, i32) {
    let kinds = all_kinds(ore_stream(seed, scx, scz), scx, scz, 6);
    let p = emerald_try(kinds.1, scx, scz, e);
    (p.0 as i32, p.2 as i32)
}

/// Source chunk `j` (0 to 8) of chunk (cx, cz): (cx - 1 + j / 3, cz - 1 + j % 3).
pub open spec fn source_of(cx: i32, cz: i32, j: int) -> (i32, i32) {
    ((cx - 1 + j / 3) as i32, (cz - 1 + j % 3) as i32)
}

/// Ores of the first `n` source chunks around (cx, cz); `found` holds four
/// emerald answers per source chunk.
pub open spec fn chunk_ores(seed: u64, cx: i32, cz: i32, found: Seq<bool>, n: nat) -> Leafy
    decreases n,
{
    if n == 0 {
        no_leafy()
    } else {
        let j = n - 1;
        let s = source_of(cx, cz, j);
        then_leafy(chunk_ores(seed, cx, cz, found, (n - 1) as nat), source_ores(seed, s.0, s.1, found.subrange(4 * j, 4 * j + 4)))
    }
}

proof fn lemma_chunk_ores_prefix(seed: u64, cx: i32, cz: i32, a: Seq<bool>, b: Seq<bool>, n: nat)
    requires
        4 * n <= a.len(),
        4 * n <= b.len(),
        forall|i: int| 0 <= i < 4 * n ==> a[i] == b[i],
    ensures
        chunk_ores(seed, cx, cz, a, n) == chunk_ores(seed, cx, cz, b, n),
    decreases n,
{
    if n > 0 {
        lemma_chunk_ores_prefix(seed, cx, cz, a, b, (n - 1) as nat);
        let j = n - 1;
        assert(a.subrange(4 * j, 4 * j + 4) =~= b.subrange(4 * j, 4 * j + 4));
    }
}

/// Stores ore at world position (wx, wy, wz) when it is in this chunk and
/// holds stone.
pub fn place_ore(buf: &mut ChunkBuffer, wx: i32, wy: i32, wz: i32, ore: u16)
    requires
        old(buf).wf(),
    ensures
        final(buf).wf(),
        final(buf).cx == old(buf).cx,
        final(buf).cz == old(buf).cz,
        final(buf).biomes == old(buf).biomes,
        final(buf).cells() == if world_read(
            old(buf).cells(),
            old(buf).cx,
            old(buf).cz,
            wx as int,
            wy as int,
            wz as int,
        ) == Some(STONE) {
            world_written(old(buf).cells(), old(buf).cx, old(buf).cz, wx as int, wy as int, wz as int, ore)
        } else {
            old(buf).cells()
        },
{
    if let Some(cur) = buf.get_world(wx, wy, wz) {
        if cur == STONE {
            buf.set_world(wx, wy, wz, ore);
        }
    }
}

proof fn lemma_emeralds_prefix(st: u64, scx: i32, scz: i32, a: Seq<bool>, b: Seq<bool>, n: nat)
    requires
        n <= a.len(),
        n <= b.len(),
        forall|i: int| 0 <= i < n ==> a[i] == b[i],
    ensures
        emeralds(st, scx, scz, a, n) == emeralds(st, scx, scz, b, n),
    decreases n,
{
    if n > 0 {
        lemma_emeralds_prefix(st, scx, scz, a, b, (n - 1) as nat);
    }
}

proof fn lemma_placed_stone_only(c0: Seq<u16>, cur: Seq<u16>, cx: i32, cz: i32, f: Leafy)
    requires
        ores_placed(c0, cur, cx, cz, f),
        ore_valued(f),
    ensures
        only_stone_to_ore(c0, cur),
{
    assert forall|i: int| 0 <= i < c0.len() implies #[trigger] cur[i] == c0[i] || (c0[i] == STONE && is_ore(cur[i])) by {
        let (a, b, c) = (cell_x(cx, i), cell_y(i), cell_z(cz, i));
        assert(f(a, b, c) is Some ==> is_ore(f(a, b, c)->0));
    }
}

proof fn lemma_walk_step(st: u64, start: (int, int, int), s: nat, p: (int, int, int), dx: int, dy: int, dz: int)
    requires
        p == walk_pos(st, start.0, start.1, start.2, s),
        dx == draw_in(st, 3 * s + 4, -1, 1),
        dy == draw_in(st, 3 * s + 5, -1, 1),
        dz == draw_in(st, 3 * s + 6, -1, 1),
    ensures
        walk_pos(st, start.0, start.1, start.2, s + 1) == (
            p.0 + dx,
            if p.1 + dy < 1 {
                1
            } else if p.1 + dy > 250 {
                250
            } else {
                p.1 + dy
            },
            p.2 + dz,
        ),
{
}

/// Draws a vein of kind `k` (see `vein`) from `rng` and places its blocks.
#[verifier::spinoff_prover]
#[verifier::rlimit(60)]
fn ore_vein(
    buf: &mut ChunkBuffer,
    rng: &mut Rng,
    scx: i32,
    scz: i32,
    k: usize,
    Ghost(c0): Ghost<Seq<u16>>,
    Ghost(f): Ghost<Leafy>,
)
    requires
        old(buf).wf(),
        k < 6,
        -0x400_0001 <= scx <= 0x400_0001,
        -0x400_0001 <= scz <= 0x400_0001,
        ores_placed(c0, old(buf).cells(), old(buf).cx, old(buf).cz, f),
        ore_valued(f),
    ensures
        kept(*old(buf), *final(buf)),
        final(rng)@ == advance(old(rng)@, vein_draws(k as int)),
        ores_placed(c0, final(buf).cells(), old(buf).cx, old(buf).cz, then_leafy(f, vein(old(rng)@, scx, scz, k as int))),
        ore_valued(then_leafy(f, vein(old(rng)@, scx, scz, k as int))),
{
    let ghost st = rng@;
    let ghost cx = buf.cx;
    let ghost cz = buf.cz;
    let (id, _tries, size, ymin, ymax) = ore_def(k);
    assert(advance(st, 0) == st);
    let ox = rng.range_i32(0, 15);
    assert(rng@ == advance(st, 1));
    assert(ox == draw_in(st, 1, 0, 15));
    let mut py = rng.range_i32(ymin, ymax);
    assert(rng@ == advance(st, 2));
    assert(py == draw_in(st, 2, ymin as int, ymax as int));
    let oz = rng.range_i32(0, 15);
    assert(rng@ == advance(st, 3));
    assert(oz == draw_in(st, 3, 0, 15));
    let mut px = scx * 16 + ox;
    let mut pz = scz * 16 + oz;
    let ghost start = vein_start(st, scx, scz, k as int);
    assert((px as int, py as int, pz as int) == start);
    proof {
        lemma_same_ores(c0, buf.cells(), cx, cz, f, then_leafy(f, walk_cells(st, start, 0, id)));
    }
    let mut s: i32 = 0;
    while s < size
        invariant
            buf.wf(),
            buf.cx == cx,
            buf.cz == cz,
            buf.biomes == old(buf).biomes,
            cx == old(buf).cx,
            cz == old(buf).cz,
            0 <= s <= size <= 12,
            id == ore_kind(k as int).0,
            size == ore_kind(k as int).2,
            is_ore(id),
            rng@ == advance(st, (3 + 3 * s) as nat),
            (px as int, py as int, pz as int) == walk_pos(st, start.0, start.1, start.2, s as nat),
            -0x4000_0100 - s <= px <= 0x4000_0100 + s,
            -0x4000_0100 - s <= pz <= 0x4000_0100 + s,
            -1000 <= py <= 1000,
            ores_placed(c0, buf.cells(), cx, cz, then_leafy(f, walk_cells(st, start, s as nat, id))),
            ore_valued(then_leafy(f, walk_cells(st, start, s as nat, id))),
        decreases size - s,
    {
        let ghost cur = buf.cells();
        let ghost g = then_leafy(f, walk_cells(st, start, s as nat, id));
        place_ore(buf, px, py, pz, id);
        proof {
            lemma_place_step(c0, cur, cx, cz, g, px as int, py as int, pz as int, id);
            lemma_same_ores(
                c0,
                buf.cells(),
                cx,
                cz,
                then_leafy(g, leaves_on(point(px as int, py as int, pz as int), id)),
                then_leafy(f, walk_cells(st, start, (s + 1) as nat, id)),
            );
        }
        let ghost sn = s as nat;
        assert(rng@ == advance(st, 3 * sn + 3));
        let dx = rng.range_i32(-1, 1);
        assert(rng@ == advance(st, 3 * sn + 4));
        assert(dx == draw_in(st, 3 * sn + 4, -1, 1));
        let dy = rng.range_i32(-1, 1);
        assert(rng@ == advance(st, 3 * sn + 5));
        assert(dy == draw_in(st, 3 * sn + 5, -1, 1));
        let dz = rng.range_i32(-1, 1);
        assert(rng@ == advance(st, 3 * sn + 6));
        assert(dz == draw_in(st, 3 * sn + 6, -1, 1));
        proof {
            lemma_walk_step(st, start, sn, (px as int, py as int, pz as int), dx as int, dy as int, dz as int);
        }
        px = px + dx;
        py = py + dy;
        pz = pz + dz;
        py = if py < 1 { 1 } else if py > 250 { 250 } else { py };
        s += 1;
    }
    assert(vein(st, scx, scz, k as int) == walk_cells(st, start, size as nat, id));
    assert(vein_draws(k as int) == (3 + 3 * size) as nat);
}

/// Draws every vein of kind `k` (see `kind_veins`) and places their blocks.
fn ore_kind_veins(
    buf: &mut ChunkBuffer,
    rng: &mut Rng,
    scx: i32,
    scz: i32,
    k: usize,
    Ghost(c0): Ghost<Seq<u16>>,
    Ghost(f): Ghost<Leafy>,
)
    requires
        old(buf).wf(),
        k < 6,
        -0x400_0001 <= scx <= 0x400_0001,
        -0x400_0001 <= scz <= 0x400_0001,
        ores_placed(c0, old(buf).cells(), old(buf).cx, old(buf).cz, f),
        ore_valued(f),
    ensures
        kept(*old(buf), *final(buf)),
        final(rng)@ == kind_veins(old(rng)@, scx, scz, k as int, ore_kind(k as int).1 as nat).1,
        ores_placed(
            c0,
            final(buf).cells(),
            old(buf).cx,
            old(buf).cz,
            then_leafy(f, kind_veins(old(rng)@, scx, scz, k as int, ore_kind(k as int).1 as nat).0),
        ),
        ore_valued(then_leafy(f, kind_veins(old(rng)@, scx, scz, k as int, ore_kind(k as int).1 as nat).0)),
{
    let ghost st = rng@;
    let ghost cx = buf.cx;
    let ghost cz = buf.cz;
    let ghost ki = k as int;
    let (_id, tries, _size, _ymin, _ymax) = ore_def(k);
    proof {
        lemma_same_ores(c0, buf.cells(), cx, cz, f, then_leafy(f, kind_veins(st, scx, scz, ki, 0).0));
    }
    let mut t: u32 = 0;
    while t < tries
        invariant
            buf.wf(),
            buf.cx == cx,
            buf.cz == cz,
            buf.biomes == old(buf).biomes,
            cx == old(buf).cx,
            cz == old(buf).cz,
            k < 6,
            ki == k,
            -0x400_0001 <= scx <= 0x400_0001,
            -0x400_0001 <= scz <= 0x400_0001,
            t <= tries,
            tries == ore_kind(ki).1,
            rng@ == kind_veins(st, scx, scz, ki, t as nat).1,
            ores_placed(c0, buf.cells(), cx, cz, then_leafy(f, kind_veins(st, scx, scz, ki, t as nat).0)),
            ore_valued(then_leafy(f, kind_veins(st, scx, scz, ki, t as nat).0)),
        decreases tries - t,
    {
        let ghost prev = kind_veins(st, scx, scz, ki, t as nat);
        let ghost g = then_leafy(f, prev.0);
        ore_vein(buf, rng, scx, scz, k, Ghost(c0), Ghost(g));
        proof {
            lemma_same_ores(
                c0,
                buf.cells(),
                cx,
                cz,
                then_leafy(g, vein(prev.1, scx, scz, ki)),
                then_leafy(f, kind_veins(st, scx, scz, ki, (t + 1) as nat).0),
            );
        }
        t += 1;
    }
}

/// Draws the ores of source chunk (scx, scz) (see `source_ores`), asking
/// `is_mountains` about each emerald column; returns its answers.
fn source_ores_exec<F: Fn(i32, i32) -> bool>(
    buf: &mut ChunkBuffer,
    seed: u64,
    scx: i32,
    scz: i32,
    is_mountains: &F,
    Ghost(c0): Ghost<Seq<u16>>,
    Ghost(f): Ghost<Leafy>,
) -> (found: Ghost<Seq<bool>>)
    requires
        old(buf).wf(),
        -0x400_0001 <= scx <= 0x400_0001,
        -0x400_0001 <= scz <= 0x400_0001,
        ores_placed(c0, old(buf).cells(), old(buf).cx, old(buf).cz, f),
        ore_valued(f),
        forall|x: i32, z: i32| call_requires(*is_mountains, (x, z)),
    ensures
        kept(*old(buf), *final(buf)),
        found@.len() == 4,
        forall|e: int| 0 <= e < 4 ==> call_ensures(*is_mountains, emerald_column(seed, scx, scz, e), #[trigger] found@[e]),
        ores_placed(c0, final(buf).cells(), old(buf).cx, old(buf).cz, then_leafy(f, source_ores(seed, scx, scz, found@))),
        ore_valued(then_leafy(f, source_ores(seed, scx, scz, found@))),
{
    let ghost cx = buf.cx;
    let ghost cz = buf.cz;
    let mut rng = Rng::new(hash_coords(seed ^ 0x0BE5_1A7E, scx, scz, 0x0F1E));
    let ghost st0 = rng@;
    assert(st0 == ore_stream(seed, scx, scz));
    proof {
        lemma_same_ores(c0, buf.cells(), cx, cz, f, then_leafy(f, all_kinds(st0, scx, scz, 0).0));
    }
    let mut k: usize = 0;
    while k < 6
        invariant
            buf.wf(),
            buf.cx == cx,
            buf.cz == cz,
            buf.biomes == old(buf).biomes,
            cx == old(buf).cx,
            cz == old(buf).cz,
            k <= 6,
            -0x400_0001 <= scx <= 0x400_0001,
            -0x400_0001 <= scz <= 0x400_0001,
            rng@ == all_kinds(st0, scx, scz, k as nat).1,
            ores_placed(c0, buf.cells(), cx, cz, then_leafy(f, all_kinds(st0, scx, scz, k as nat).0)),
            ore_valued(then_leafy(f, all_kinds(st0, scx, scz, k as nat).0)),
        decreases 6 - k,
    {
        let ghost prev = all_kinds(st0, scx, scz, k as nat);
        let ghost g = then_leafy(f, prev.0);
        ore_kind_veins(buf, &mut rng, scx, scz, k, Ghost(c0), Ghost(g));
        proof {
            lemma_same_ores(
                c0,
                buf.cells(),
                cx,
                cz,
                then_leafy(g, kind_veins(prev.1, scx, scz, k as int, ore_kind(k as int).1 as nat).0),
                then_leafy(f, all_kinds(st0, scx, scz, (k + 1) as nat).0),
            );
        }
        k += 1;
    }
    let ghost ste = rng@;
    let ghost fk = then_leafy(f, all_kinds(st0, scx, scz, 6).0);
    let ghost mut found: Seq<bool> = Seq::empty();
    proof {
        lemma_same_ores(c0, buf.cells(), cx, cz, fk, then_leafy(fk, emeralds(ste, scx, scz, found, 0)));
    }
    let mut e: u32 = 0;
    while e < 4
        invariant
            buf.wf(),
            buf.cx == cx,
            buf.cz == cz,
            buf.biomes == old(buf).biomes,
            cx == old(buf).cx,
            cz == old(buf).cz,
            e <= 4,
            -0x400_0001 <= scx <= 0x400_0001,
            -0x400_0001 <= scz <= 0x400_0001,
            ste == all_kinds(ore_stream(seed, scx, scz), scx, scz, 6).1,
            rng@ == advance(ste, (3 * e) as nat),
            found.len() == e,
            forall|e2: int| 0 <= e2 < e ==> call_ensures(*is_mountains, emerald_column(seed, scx, scz, e2), #[trigger] found[e2]),
            forall|x: i32, z: i32| call_requires(*is_mountains, (x, z)),
            ores_placed(c0, buf.cells(), cx, cz, then_leafy(fk, emeralds(ste, scx, scz, found, e as nat))),
            ore_valued(then_leafy(fk, emeralds(ste, scx, scz, found, e as nat))),
        decreases 4 - e,
    {
        let ox = rng.range_i32(0, 15);
        let oz = rng.range_i32(0, 15);
        let py = rng.range_i32(6, 32);
        let px = scx * 16 + ox;
        let pz = scz * 16 + oz;
        let ghost p = emerald_try(ste, scx, scz, e as int);
        assert(p == (px as int, py as int, pz as int));
        assert(emerald_column(seed, scx, scz, e as int) == (px, pz));
        let r = is_mountains(px, pz);
        let ghost old_found = found;
        let ghost cur = buf.cells();
        let ghost g = then_leafy(fk, emeralds(ste, scx, scz, old_found, e as nat));
        proof {
            found = found.push(r);
            lemma_emeralds_prefix(ste, scx, scz, old_found, found, e as nat);
        }
        if r {
            place_ore(buf, px, py, pz, EMERALD);
            proof {
                lemma_place_step(c0, cur, cx, cz, g, px as int, py as int, pz as int, EMERALD);
                lemma_same_ores(
                    c0,
                    buf.cells(),
                    cx,
                    cz,
                    then_leafy(g, leaves_on(point(px as int, py as int, pz as int), EMERALD)),
                    then_leafy(fk, emeralds(ste, scx, scz, found, (e + 1) as nat)),
                );
            }
        } else {
            proof {
                lemma_same_ores(c0, buf.cells(), cx, cz, g, then_leafy(fk, emeralds(ste, scx, scz, found, (e + 1) as nat)));
            }
        }
        e += 1;
    }
    proof {
        lemma_same_ores(
            c0,
            buf.cells(),
            cx,
            cz,
            then_leafy(fk, emeralds(ste, scx, scz, found, 4)),
            then_leafy(f, source_ores(seed, scx, scz, found)),
        );
    }
    Ghost(found)
}

/// Ores of every source chunk that can reach this chunk, in order: for
/// each source chunk, the veins of each kind (a start in the chunk and the
/// kind's height range, then a random walk, one block per step), then four
/// emerald tries where `is_mountains` holds (see `chunk_ores`). Ore only
/// ever replaces stone, and the first ore placed on a block stays.
pub fn generate_ores<F: Fn(i32, i32) -> bool>(buf: &mut ChunkBuffer, seed: u64, is_mountains: &F)
    requires
        old(buf).wf(),
        -0x400_0000 <= old(buf).cx <= 0x400_0000,
        -0x400_0000 <= old(buf).cz <= 0x400_0000,
        forall|x: i32, z: i32| call_requires(*is_mountains, (x, z)),
    ensures
        kept(*old(buf), *final(buf)),
        only_stone_to_ore(old(buf).cells(), final(buf).cells()),
        exists|found: Seq<bool>|
            {
                &&& found.len() == 36
                &&& forall|i: int|
                    0 <= i < 36 ==> call_ensures(
                        *is_mountains,
                        emerald_column(seed, source_of(old(buf).cx, old(buf).cz, i / 4).0, source_of(old(buf).cx, old(buf).cz, i / 4).1, i % 4),
                        #[trigger] found[i],
                    )
                &&& ores_placed(old(buf).cells(), final(buf).cells(), old(buf).cx, old(buf).cz, chunk_ores(seed, old(buf).cx, old(buf).cz, found, 9))
            },
{
    let ghost c0 = buf.cells();
    let cx = buf.cx;
    let cz = buf.cz;
    let ghost mut found: Seq<bool> = Seq::empty();
    let ghost mut j: int = 0;
    proof {
        lemma_same_ores(c0, buf.cells(), cx, cz, no_leafy(), chunk_ores(seed, cx, cz, found, 0));
    }
    let mut scx = cx - 1;
    while scx <= cx + 1
        invariant
            buf.wf(),
            buf.cx == cx,
            buf.cz == cz,
            buf.biomes == old(buf).biomes,
            c0 == old(buf).cells(),
            cx == old(buf).cx,
            cz == old(buf).cz,
            -0x400_0000 <= cx <= 0x400_0000,
            -0x400_0000 <= cz <= 0x400_0000,
            cx - 1 <= scx <= cx + 2,
            j == 3 * (scx - (cx - 1)),
            found.len() == 4 * j,
            forall|i: int|
                0 <= i < 4 * j ==> call_ensures(
                    *is_mountains,
                    emerald_column(seed, source_of(cx, cz, i / 4).0, source_of(cx, cz, i / 4).1, i % 4),
                    #[trigger] found[i],
                ),
            ores_placed(c0, buf.cells(), cx, cz, chunk_ores(seed, cx, cz, found, j as nat)),
            ore_valued(chunk_ores(seed, cx, cz, found, j as nat)),
            forall|x: i32, z: i32| call_requires(*is_mountains, (x, z)),
        decreases cx + 2 - scx,
    {
        let mut scz = cz - 1;
        while scz <= cz + 1
            invariant
                buf.wf(),
                buf.cx == cx,
                buf.cz == cz,
                buf.biomes == old(buf).biomes,
                c0 == old(buf).cells(),
                cx == old(buf).cx,
                cz == old(buf).cz,
                -0x400_0000 <= cx <= 0x400_0000,
                -0x400_0000 <= cz <= 0x400_0000,
                cx - 1 <= scx <= cx + 1,
                cz - 1 <= scz <= cz + 2,
                j == 3 * (scx - (cx - 1)) + (scz - (cz - 1)),
                found.len() == 4 * j,
                forall|i: int|
                    0 <= i < 4 * j ==> call_ensures(
                        *is_mountains,
                        emerald_column(seed, source_of(cx, cz, i / 4).0, source_of(cx, cz, i / 4).1, i % 4),
                        #[trigger] found[i],
                    ),
                ores_placed(c0, buf.cells(), cx, cz, chunk_ores(seed, cx, cz, found, j as nat)),
                ore_valued(chunk_ores(seed, cx, cz, found, j as nat)),
                forall|x: i32, z: i32| call_requires(*is_mountains, (x, z)),
            decreases cz + 2 - scz,
        {
            let ghost f = chunk_ores(seed, cx, cz, found, j as nat);
            let fs = source_ores_exec(buf, seed, scx, scz, is_mountains, Ghost(c0), Ghost(f));
            proof {
                let a = scx - (cx - 1);
                let b = scz - (cz - 1);
                vstd::arithmetic::div_mod::lemma_fundamental_div_mod_converse(j, 3, a as int, b as int);
                assert(source_of(cx, cz, j) == (scx, scz));
                let old_found = found;
                found = found + fs@;
                lemma_chunk_ores_prefix(seed, cx, cz, old_found, found, j as nat);
                assert(found.subrange(4 * j, 4 * j + 4) =~= fs@);
                assert(chunk_ores(seed, cx, cz, found, (j + 1) as nat) == then_leafy(f, source_ores(seed, scx, scz, fs@)));
                assert forall|i: int|
                    0 <= i < 4 * (j + 1) implies call_ensures(
                        *is_mountains,
                        emerald_column(seed, source_of(cx, cz, i / 4).0, source_of(cx, cz, i / 4).1, i % 4),
                        #[trigger] found[i],
                    ) by {
                    if i < 4 * j {
                        assert(found[i] == old_found[i]);
                    } else {
                        let e = i - 4 * j;
                        vstd::arithmetic::div_mod::lemma_fundamental_div_mod_converse(i, 4, j, e);
                        assert(found[i] == fs@[e]);
                    }
                }
                j = j + 1;
            }
            scz += 1;
        }
        scx += 1;
    }
    proof {
        lemma_placed_stone_only(c0, buf.cells(), cx, cz, chunk_ores(seed, cx, cz, found, 9));
    }
}

} // verus!
