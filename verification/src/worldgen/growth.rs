//! Shapes drawn into a chunk buffer.
//!
//! A feature (a tree, hanging vines) is a set of world positions that take
//! a log, whatever they held, and of positions that take a leafy value (a
//! leaf or a vine) when they hold air. A shape is given by two functions of
//! world coordinates; a buffer of chunk (cx, cz) draws the part of it that
//! falls in the chunk. Ore veins use the same functions of positions for
//! the ore that replaces stone.

use vstd::prelude::*;
use crate::world::{chunk_of, local_of};
use crate::worldgen::buffer::{
    in_buffer, lemma_world_cell_distinct, world_cell, world_read, world_written, ChunkBuffer,
    BUFFER_LEN,
};

verus! {

/// World x of cell `i` of a buffer of chunk column `cx`.
pub open spec fn cell_x(cx: i32, i: int) -> int {
    cx * 16 + i % 16
}

/// Height of cell `i`.
pub open spec fn cell_y(i: int) -> int {
    i / 256
}

/// World z of cell `i` of a buffer of chunk row `cz`.
pub open spec fn cell_z(cz: i32, i: int) -> int {
    cz * 16 + (i / 16) % 16
}

/// A set of positions that take a log.
pub type Logs = spec_fn(int, int, int) -> bool;

/// The value a shape puts at a position, if any: for trees the leaf or
/// vine it puts on air, for veins the ore it puts on stone.
pub type Leafy = spec_fn(int, int, int) -> Option<u16>;

/// No position.
pub open spec fn no_logs() -> Logs {
    |a: int, b: int, c: int| false
}

/// No leafy value anywhere.
pub open spec fn no_leafy() -> Leafy {
    |a: int, b: int, c: int| None
}

/// Positions of either set.
pub open spec fn or_logs(f: Logs, g: Logs) -> Logs {
    |a: int, b: int, c: int| f(a, b, c) || g(a, b, c)
}

/// The leafy value of `f` where it has one, else that of `g`.
pub open spec fn then_leafy(f: Leafy, g: Leafy) -> Leafy {
    |a: int, b: int, c: int| if f(a, b, c) is Some { f(a, b, c) } else { g(a, b, c) }
}

/// The value `v` on the positions of `s`.
pub open spec fn leaves_on(s: Logs, v: u16) -> Leafy {
    |a: int, b: int, c: int| if s(a, b, c) { Some(v) } else { None }
}

/// The single position (x, y, z).
pub open spec fn point(x: int, y: int, z: int) -> Logs {
    |a: int, b: int, c: int| a == x && b == y && c == z
}

/// Logs are drawn with a block, not air, wherever the shape has one.
pub open spec fn solid_logs(logs: Logs, log: u16) -> bool {
    forall|a: int, b: int, c: int| #[trigger] logs(a, b, c) ==> log != 0
}

/// Every leafy value is a block, not air.
pub open spec fn solid_leafy(f: Leafy) -> bool {
    forall|a: int, b: int, c: int| #[trigger] f(a, b, c) is Some ==> f(a, b, c)->0 != 0
}

/// Value of a cell holding `before` once a shape has been drawn over it:
/// a log where the shape has one, else its leafy value over air.
pub open spec fn tree_value(before: u16, log: u16, at_log: bool, leafy: Option<u16>) -> u16 {
    if at_log {
        log
    } else if before == 0 && leafy is Some {
        leafy->0
    } else {
        before
    }
}

/// `after` is `before` with the shape (`logs`, `leafy`) drawn over it, in a
/// buffer of chunk (cx, cz).
pub open spec fn drawn_cells(
    before: Seq<u16>,
    after: Seq<u16>,
    cx: i32,
    cz: i32,
    log: u16,
    logs: Logs,
    leafy: Leafy,
) -> bool {
    &&& before.len() == BUFFER_LEN
    &&& after.len() == BUFFER_LEN
    &&& forall|i: int|
        0 <= i < BUFFER_LEN ==> #[trigger] after[i] == tree_value(
            before[i],
            log,
            logs(cell_x(cx, i), cell_y(i), cell_z(cz, i)),
            leafy(cell_x(cx, i), cell_y(i), cell_z(cz, i)),
        )
}

/// `after` is `before` with the leafy values of `leafy` put on air.
pub open spec fn leaves_drawn(before: Seq<u16>, after: Seq<u16>, cx: i32, cz: i32, leafy: Leafy) -> bool {
    drawn_cells(before, after, cx, cz, 0, no_logs(), leafy)
}

/// `after` is a well-formed buffer of the chunk of `before`, with its biomes.
pub open spec fn kept(before: ChunkBuffer, after: ChunkBuffer) -> bool {
    &&& after.wf()
    &&& after.cx == before.cx
    &&& after.cz == before.cz
    &&& after.biomes == before.biomes
}

/// `after` is `before` with the shape (`logs`, `leafy`) drawn over it, the
/// buffer keeping its chunk and biomes.
pub open spec fn drawn(before: ChunkBuffer, after: ChunkBuffer, log: u16, logs: Logs, leafy: Leafy) -> bool {
    &&& kept(before, after)
    &&& drawn_cells(before.cells(), after.cells(), before.cx, before.cz, log, logs, leafy)
}

/// Putting a block on some positions keeps every leafy value a block.
pub proof fn lemma_solid_then(f: Leafy, s: Logs, v: u16)
    requires
        solid_leafy(f),
        v != 0,
    ensures
        solid_leafy(then_leafy(f, leaves_on(s, v))),
        solid_leafy(leaves_on(s, v)),
{
    assert forall|a: int, b: int, c: int| #[trigger] then_leafy(f, leaves_on(s, v))(a, b, c) is Some implies then_leafy(
        f,
        leaves_on(s, v),
    )(a, b, c)->0 != 0 by {
        assert(f(a, b, c) is Some ==> f(a, b, c)->0 != 0);
    }
}

/// A block as log is drawn solid on any positions.
pub proof fn lemma_solid_logs(logs: Logs, log: u16)
    requires
        log != 0,
    ensures
        solid_logs(logs, log),
{
}

/// Cell `i` of a buffer lies at its world position, which is in the buffer.
pub proof fn lemma_cell_position(cx: i32, cz: i32, i: int)
    requires
        0 <= i < BUFFER_LEN,
    ensures
        in_buffer(cx, cz, cell_x(cx, i), cell_y(i), cell_z(cz, i)),
        world_cell(cell_x(cx, i), cell_y(i), cell_z(cz, i)) == i,
{
    let r = i % 16;
    let q = i / 16;
    let lz = q % 16;
    let y = q / 16;
    vstd::arithmetic::div_mod::lemma_fundamental_div_mod(i, 16);
    vstd::arithmetic::div_mod::lemma_fundamental_div_mod(q, 16);
    vstd::arithmetic::div_mod::lemma_div_denominator(i, 16, 16);
    assert(0 <= r < 16 && 0 <= lz < 16);
    assert(i == 256 * y + 16 * lz + r);
    assert(0 <= y < 256);
    vstd::arithmetic::div_mod::lemma_fundamental_div_mod_converse(cx * 16 + r, 16, cx as int, r);
    vstd::arithmetic::div_mod::lemma_fundamental_div_mod_converse(cz * 16 + lz, 16, cz as int, lz);
    assert(chunk_of(cell_x(cx, i)) == cx && local_of(cell_x(cx, i)) == r);
    assert(chunk_of(cell_z(cz, i)) == cz && local_of(cell_z(cz, i)) == lz);
}

/// The cell of a position of the buffer lies at that position.
pub proof fn lemma_position_cell(cx: i32, cz: i32, x: int, y: int, z: int)
    requires
        in_buffer(cx, cz, x, y, z),
    ensures
        0 <= world_cell(x, y, z) < BUFFER_LEN,
        cell_x(cx, world_cell(x, y, z)) == x,
        cell_y(world_cell(x, y, z)) == y,
        cell_z(cz, world_cell(x, y, z)) == z,
{
    let k = world_cell(x, y, z);
    assert(0 <= local_of(x) < 16 && 0 <= local_of(z) < 16);
    assert(0 <= k < BUFFER_LEN);
    lemma_cell_position(cx, cz, k);
    let (a, b, c) = (cell_x(cx, k), cell_y(k), cell_z(cz, k));
    if !(a == x && b == y && c == z) {
        lemma_world_cell_distinct(x, y, z, a, b, c);
    }
}

/// A cell lies at a position exactly when it is the cell of that position.
pub proof fn lemma_cell_at(cx: i32, cz: i32, i: int, x: int, y: int, z: int)
    requires
        0 <= i < BUFFER_LEN,
    ensures
        (cell_x(cx, i) == x && cell_y(i) == y && cell_z(cz, i) == z) <==> (in_buffer(cx, cz, x, y, z)
            && world_cell(x, y, z) == i),
{
    lemma_cell_position(cx, cz, i);
    if in_buffer(cx, cz, x, y, z) {
        lemma_position_cell(cx, cz, x, y, z);
    }
}

/// Nothing drawn leaves the cells as they are.
pub proof fn lemma_drawn_nothing(c: Seq<u16>, cx: i32, cz: i32, log: u16)
    requires
        c.len() == BUFFER_LEN,
    ensures
        drawn_cells(c, c, cx, cz, log, no_logs(), no_leafy()),
{
}

/// Writing a log at (x, y, z) draws it.
pub proof fn lemma_draw_log(
    c0: Seq<u16>,
    cur: Seq<u16>,
    cx: i32,
    cz: i32,
    log: u16,
    logs: Logs,
    leafy: Leafy,
    x: int,
    y: int,
    z: int,
)
    requires
        drawn_cells(c0, cur, cx, cz, log, logs, leafy),
    ensures
        drawn_cells(c0, world_written(cur, cx, cz, x, y, z, log), cx, cz, log, or_logs(logs, point(x, y, z)), leafy),
{
    let next = world_written(cur, cx, cz, x, y, z, log);
    assert forall|i: int| 0 <= i < BUFFER_LEN implies #[trigger] next[i] == tree_value(
        c0[i],
        log,
        or_logs(logs, point(x, y, z))(cell_x(cx, i), cell_y(i), cell_z(cz, i)),
        leafy(cell_x(cx, i), cell_y(i), cell_z(cz, i)),
    ) by {
        lemma_cell_at(cx, cz, i, x, y, z);
        assert(cur[i] == tree_value(c0[i], log, logs(cell_x(cx, i), cell_y(i), cell_z(cz, i)), leafy(cell_x(cx, i), cell_y(i), cell_z(cz, i))));
    }
}

/// Putting the leafy value `v` on (x, y, z) if it holds air draws it, unless
/// the shape already puts a value there.
pub proof fn lemma_draw_leaf(
    c0: Seq<u16>,
    cur: Seq<u16>,
    cx: i32,
    cz: i32,
    log: u16,
    logs: Logs,
    leafy: Leafy,
    x: int,
    y: int,
    z: int,
    v: u16,
)
    requires
        drawn_cells(c0, cur, cx, cz, log, logs, leafy),
        logs(x, y, z) ==> log != 0,
        leafy(x, y, z) is Some ==> leafy(x, y, z)->0 != 0,
    ensures
        drawn_cells(
            c0,
            if world_read(cur, cx, cz, x, y, z) == Some(0u16) {
                world_written(cur, cx, cz, x, y, z, v)
            } else {
                cur
            },
            cx,
            cz,
            log,
            logs,
            then_leafy(leafy, leaves_on(point(x, y, z), v)),
        ),
{
    let next = if world_read(cur, cx, cz, x, y, z) == Some(0u16) {
        world_written(cur, cx, cz, x, y, z, v)
    } else {
        cur
    };
    let f2 = then_leafy(leafy, leaves_on(point(x, y, z), v));
    assert forall|i: int| 0 <= i < BUFFER_LEN implies #[trigger] next[i] == tree_value(
        c0[i],
        log,
        logs(cell_x(cx, i), cell_y(i), cell_z(cz, i)),
        f2(cell_x(cx, i), cell_y(i), cell_z(cz, i)),
    ) by {
        lemma_cell_at(cx, cz, i, x, y, z);
        assert(cur[i] == tree_value(c0[i], log, logs(cell_x(cx, i), cell_y(i), cell_z(cz, i)), leafy(cell_x(cx, i), cell_y(i), cell_z(cz, i))));
    }
}

/// Drawing leafy values after a shape adds them where it has none.
pub proof fn lemma_then_leaves(
    c0: Seq<u16>,
    mid: Seq<u16>,
    end: Seq<u16>,
    cx: i32,
    cz: i32,
    log: u16,
    logs: Logs,
    leafy: Leafy,
    more: Leafy,
)
    requires
        drawn_cells(c0, mid, cx, cz, log, logs, leafy),
        leaves_drawn(mid, end, cx, cz, more),
        solid_logs(logs, log),
        solid_leafy(leafy),
    ensures
        drawn_cells(c0, end, cx, cz, log, logs, then_leafy(leafy, more)),
{
    assert forall|i: int| 0 <= i < BUFFER_LEN implies #[trigger] end[i] == tree_value(
        c0[i],
        log,
        logs(cell_x(cx, i), cell_y(i), cell_z(cz, i)),
        then_leafy(leafy, more)(cell_x(cx, i), cell_y(i), cell_z(cz, i)),
    ) by {
        let (a, b, c) = (cell_x(cx, i), cell_y(i), cell_z(cz, i));
        assert(mid[i] == tree_value(c0[i], log, logs(a, b, c), leafy(a, b, c)));
        assert(end[i] == tree_value(mid[i], 0, no_logs()(a, b, c), more(a, b, c)));
        assert(leafy(a, b, c) is Some ==> leafy(a, b, c)->0 != 0);
        assert(logs(a, b, c) ==> log != 0);
    }
}

/// A shape whose logs and leafy values agree everywhere with another's is
/// drawn the same.
pub proof fn lemma_same_shape(
    c0: Seq<u16>,
    cur: Seq<u16>,
    cx: i32,
    cz: i32,
    log: u16,
    logs: Logs,
    leafy: Leafy,
    logs2: Logs,
    leafy2: Leafy,
)
    requires
        drawn_cells(c0, cur, cx, cz, log, logs, leafy),
        forall|a: int, b: int, c: int| #[trigger] logs2(a, b, c) == logs(a, b, c),
        forall|a: int, b: int, c: int| #[trigger] leafy2(a, b, c) == leafy(a, b, c),
    ensures
        drawn_cells(c0, cur, cx, cz, log, logs2, leafy2),
{
    assert forall|i: int| 0 <= i < BUFFER_LEN implies #[trigger] cur[i] == tree_value(
        c0[i],
        log,
        logs2(cell_x(cx, i), cell_y(i), cell_z(cz, i)),
        leafy2(cell_x(cx, i), cell_y(i), cell_z(cz, i)),
    ) by {
        let (a, b, c) = (cell_x(cx, i), cell_y(i), cell_z(cz, i));
        assert(logs2(a, b, c) == logs(a, b, c));
        assert(leafy2(a, b, c) == leafy(a, b, c));
    }
}

} // verus!
