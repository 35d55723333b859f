//! Redstone: power levels of blocks, wires, torches, repeaters and
//! comparators, and what powers a block.

use vstd::prelude::*;
use crate::packets::{stored_id, stored_meta};
use crate::util::{face_dx, face_dz};
use crate::game::connection::{
    break_unsupported, cascade_center, cascade_entry, cascade_ok, cascade_safe, listed_in, near, placed_meta,
    settled, Look,
    unsupported_upto,
};
use crate::world::{chunk_of, get_block, is_plate, lit_dust, set_block, spec_is_plate, unlight_dust, ChunkData, WorldMap};
use crate::worldgen::buffer::{in_buffer, in_chunk, world_cell};
use crate::worldgen::growth::{cell_x, cell_y, cell_z, lemma_cell_at};

verus! {

/// Block id of a stored value (low 12 bits).
pub fn block_id(stored: u16) -> (b: u16)
    ensures
        b == stored_id(stored),
        b < 4096,
{
    let b = stored & 0xFFFu16;
    assert(b == stored % 4096) by (bit_vector)
        requires
            b == stored & 0xFFFu16,
    ;
    b
}

/// Metadata of a stored value (high 4 bits).
pub fn meta(stored: u16) -> (m: u8)
    ensures
        m == stored_meta(stored),
        m < 16,
{
    let s = (stored >> 12u16) & 0x0Fu16;
    assert(s == stored / 4096 && s < 16) by (bit_vector)
        requires
            s == (stored >> 12u16) & 0x0Fu16,
    ;
    s as u8
}

/// Stored value of a block id and metadata.
pub fn encode(block: u16, m: u8) -> (s: u16)
    ensures
        s == (block | ((m as u16) << 12u16)),
        block < 4096 && m < 16 ==> s == block + m * 4096 && stored_id(s) == block && stored_meta(s)
            == m,
{
    let mm: u16 = m as u16;
    let s = block | (mm << 12u16);
    if block < 4096 && m < 16 {
        assert(s == block + mm * 4096) by (bit_vector)
            requires
                s == block | (mm << 12u16),
                block < 4096,
                mm < 16,
        ;
    }
    s
}

/// Blocks that let light and redstone through (the rest are opaque).
pub open spec fn transparent(block: u16) -> bool {
    ||| block == 0 || block == 6 || block == 8 || block == 9 || block == 10 || block == 11
    ||| block == 26 || block == 27 || block == 28 || block == 30 || block == 31 || block == 32
    ||| block == 37 || block == 38 || block == 39 || block == 40 || block == 50 || block == 51
    ||| block == 52 || block == 53 || block == 55 || block == 59 || block == 63 || block == 64
    ||| block == 65 || block == 66 || block == 68 || block == 69 || block == 70 || block == 71
    ||| block == 72 || block == 75 || block == 76 || block == 77 || block == 78 || block == 83
    ||| block == 90 || block == 92 || block == 93 || block == 94 || block == 96 || block == 104
    ||| block == 105 || block == 106 || block == 107 || block == 108 || block == 109
    ||| block == 111 || block == 114 || block == 115 || block == 119 || block == 122
    ||| block == 127 || block == 128 || block == 131 || block == 132 || block == 134
    ||| block == 135 || block == 136 || block == 141 || block == 142 || block == 143
    ||| block == 147 || block == 148 || block == 149 || block == 150 || block == 151
    ||| block == 156 || block == 157 || block == 163 || block == 164 || block == 167
    ||| block == 171 || block == 175 || block == 176 || block == 177 || block == 180
    ||| block == 183 || block == 184 || block == 185 || block == 186 || block == 203
}

/// Whether a block id is opaque.
pub fn is_opaque(block: u16) -> (r: bool)
    ensures
        r == !transparent(block),
{
    !matches!(block,
        0 | 6 | 8 | 9 | 10 | 11 | 26 | 27 | 28 | 30 | 31 | 32 |
        37 | 38 | 39 | 40 | 50 | 51 | 52 | 53 | 55 | 59 | 63 | 64 |
        65 | 66 | 68 | 69 | 70 | 71 | 72 | 75 | 76 | 77 | 78 | 83 |
        90 | 92 | 93 | 94 | 96 | 104 | 105 | 106 | 107 | 108 | 109 |
        111 | 114 | 115 | 119 | 122 | 127 | 128 | 131 | 132 | 134 |
        135 | 136 | 141 | 142 | 143 | 147 | 148 | 149 | 150 | 151 |
        156 | 157 | 163 | 164 | 167 | 171 | 175 | 176 | 177 |
        180 | 183 | 184 | 185 | 186 | 203)
}

/// Whether bit 3 of the metadata (the "on" bit of switches) is set.
pub open spec fn on_bit(m: u8) -> bool {
    m & 8u8 != 0
}

/// Power level emitted by a stored block.
pub open spec fn power_of(stored: u16) -> u8 {
    let b = stored_id(stored);
    let m = stored_meta(stored);
    if b == 55 {
        m
    } else if b == 75 || b == 94 || b == 152 {
        15
    } else if b == 69 || b == 149 || b == 150 || b == 77 || b == 143 || b == 157 || b == 28 {
        if on_bit(m) {
            15
        } else {
            0
        }
    } else if b == 70 || b == 72 || b == 147 || b == 148 {
        if m > 0 {
            15
        } else {
            0
        }
    } else {
        0
    }
}

/// Power level emitted by a stored block: wire carries its metadata,
/// torches, active repeaters and redstone blocks 15, switches 15 while on,
/// pressed plates 15.
pub fn get_block_power(stored: u16) -> (p: u8)
    ensures
        p == power_of(stored),
        p <= 15,
{
    let block = block_id(stored);
    let m = meta(stored);
    match block {
        55 => m,
        75 => 15,
        76 => 0,
        93 => 0,
        94 => 15,
        69 => if (m & 0x08) != 0 { 15 } else { 0 },
        149 | 150 => if (m & 0x08) != 0 { 15 } else { 0 },
        77 | 143 => if (m & 0x08) != 0 { 15 } else { 0 },
        70 | 72 | 147 | 148 => if m > 0 { 15 } else { 0 },
        152 => 15,
        157 | 28 => if (m & 0x08) != 0 { 15 } else { 0 },
        _ => 0,
    }
}

/// Whether a stored block is a power source of its own.
pub open spec fn source(stored: u16) -> bool {
    let b = stored_id(stored);
    let m = stored_meta(stored);
    if b == 75 || b == 94 || b == 152 {
        true
    } else if b == 69 || b == 77 || b == 143 || b == 149 || b == 150 || b == 157 || b == 28 {
        on_bit(m)
    } else if b == 70 || b == 72 || b == 147 || b == 148 {
        m > 0
    } else {
        false
    }
}

/// Whether a stored block is a power source: torch, active repeater,
/// redstone block, switch that is on, pressed plate.
pub fn is_power_source(stored: u16) -> (r: bool)
    ensures
        r == source(stored),
{
    let block = block_id(stored);
    let m = meta(stored);
    match block {
        75 | 94 | 152 => true,
        69 | 77 | 143 => (m & 0x08) != 0,
        70 | 72 | 147 | 148 => m > 0,
        93 => false,
        149 | 150 | 157 | 28 => (m & 0x08) != 0,
        _ => false,
    }
}

/// Horizontal direction (dx, dz) of the two low rotation bits.
pub open spec fn facing_of(rot: u8) -> (i32, i32) {
    let r = rot % 4;
    if r == 0 {
        (0i32, -1i32)
    } else if r == 1 {
        (1i32, 0i32)
    } else if r == 2 {
        (0i32, 1i32)
    } else {
        (-1i32, 0i32)
    }
}

/// Direction faced by a repeater or comparator: 0 north, 1 east, 2 south,
/// 3 west.
pub fn facing(rot: u8) -> (f: (i32, i32))
    ensures
        f == facing_of(rot),
{
    let r = rot & 0x03;
    assert(r == rot % 4) by (bit_vector)
        requires
            r == rot & 0x03,
    ;
    match r {
        0 => (0, -1),
        1 => (1, 0),
        2 => (0, 1),
        _ => (-1, 0),
    }
}

/// Larger of two levels.
pub open spec fn max_u8(a: u8, b: u8) -> u8 {
    if a >= b {
        a
    } else {
        b
    }
}

/// Level a wire passes on: its own minus one, floored at 0.
pub open spec fn wire_decay(stored: u16) -> u8 {
    if stored_meta(stored) >= 1 {
        (stored_meta(stored) - 1) as u8
    } else {
        0
    }
}

/// Offset from a wall torch to the block it hangs on.
pub open spec fn torch_support(tm: u8) -> (int, int) {
    let t = tm % 8;
    if t == 1 {
        (-1, 0)
    } else if t == 2 {
        (1, 0)
    } else if t == 3 {
        (0, -1)
    } else if t == 4 {
        (0, 1)
    } else {
        (0, 0)
    }
}

/// Coordinates are far enough from the ends of the i32 range for the
/// neighbourhood that redstone looks at.
pub open spec fn room_around(x: i32, y: i32, z: i32) -> bool {
    &&& i32::MIN + 2 <= x <= i32::MAX - 2
    &&& i32::MIN + 2 <= y <= i32::MAX - 2
    &&& i32::MIN + 2 <= z <= i32::MAX - 2
}

/// Power reaching an opaque block at (ox, oz) (height y) from the component
/// at offset (tdx, tdz) of it: a torch hanging on it or a repeater facing it.
pub open spec fn wall_input(w: WorldMap, ox: int, y: int, oz: int, tdx: int, tdz: int) -> u8 {
    let t = w.block_at(ox + tdx, y, oz + tdz);
    if stored_id(t) == 75 {
        let s = torch_support(stored_meta(t));
        if tdx + s.0 == 0 && tdz + s.1 == 0 {
            15
        } else {
            0
        }
    } else if stored_id(t) == 94 {
        let f = facing_of(stored_meta(t));
        if tdx + f.0 == 0 && tdz + f.1 == 0 {
            15
        } else {
            0
        }
    } else {
        0
    }
}

/// Power reaching a wire at (x, y, z) from its horizontal neighbour in
/// direction (dx, dz).
pub open spec fn side_input(w: WorldMap, x: int, y: int, z: int, dx: int, dz: int) -> u8 {
    let n = w.block_at(x + dx, y, z + dz);
    let nb = stored_id(n);
    if nb == 55 {
        wire_decay(n)
    } else if !(nb == 94 || nb == 149 || nb == 150) && power_of(n) > 0 {
        power_of(n)
    } else if nb == 75 {
        15
    } else if nb == 94 {
        if facing_of(stored_meta(n)).0 == -dx && facing_of(stored_meta(n)).1 == -dz {
            15
        } else {
            0
        }
    } else if nb == 149 || nb == 150 {
        if facing_of(stored_meta(n)).0 == -dx && facing_of(stored_meta(n)).1 == -dz && on_bit(stored_meta(n)) {
            15
        } else {
            0
        }
    } else if !transparent(nb) {
        let above = w.block_at(x + dx, y + 1, z + dz);
        let climbing = if stored_id(above) == 55 {
            wire_decay(above)
        } else {
            0
        };
        max_u8(
            max_u8(
                max_u8(
                    max_u8(climbing, wall_input(w, x + dx, y, z + dz, 1, 0)),
                    wall_input(w, x + dx, y, z + dz, -1, 0),
                ),
                wall_input(w, x + dx, y, z + dz, 0, 1),
            ),
            wall_input(w, x + dx, y, z + dz, 0, -1),
        )
    } else {
        0
    }
}

/// Power reaching a wire from the block above it.
pub open spec fn above_input(w: WorldMap, x: int, y: int, z: int) -> u8 {
    let above = w.block_at(x, y + 1, z);
    let b = stored_id(above);
    if b == 55 {
        wire_decay(above)
    } else if !(b == 93 || b == 94 || b == 149 || b == 150) && power_of(above) > 0 {
        power_of(above)
    } else {
        0
    }
}

/// Power reaching a wire from the block below it.
pub open spec fn below_input(w: WorldMap, x: int, y: int, z: int) -> u8 {
    let below = w.block_at(x, y - 1, z);
    let b = stored_id(below);
    if b == 55 {
        wire_decay(below)
    } else if !(b == 93 || b == 94 || b == 149 || b == 150) && source(below) {
        power_of(below)
    } else {
        0
    }
}

/// Power reaching a wire standing on an opaque block from direction
/// (dx, dz) one level down: a wire there, or a strongly powered block.
pub open spec fn lower_input(w: WorldMap, x: int, y: int, z: int, dx: int, dz: int) -> u8 {
    let lower = w.block_at(x + dx, y - 1, z + dz);
    let from_wire = if stored_id(lower) == 55 {
        wire_decay(lower)
    } else {
        0
    };
    if strongly_powered(w, x + dx, y - 1, z + dz, lower) {
        max_u8(from_wire, 15)
    } else {
        from_wire
    }
}

/// Power level a wire at (x, y, z) receives: the largest input from its
/// four sides, the blocks above and below, and (when it stands on an opaque
/// block) the four positions one level down.
pub open spec fn dust_power(w: WorldMap, x: int, y: int, z: int) -> u8 {
    let sides = max_u8(
        max_u8(
            max_u8(side_input(w, x, y, z, 1, 0), side_input(w, x, y, z, -1, 0)),
            side_input(w, x, y, z, 0, 1),
        ),
        side_input(w, x, y, z, 0, -1),
    );
    let vertical = max_u8(max_u8(sides, above_input(w, x, y, z)), below_input(w, x, y, z));
    if !transparent(stored_id(w.block_at(x, y - 1, z))) {
        max_u8(
            max_u8(
                max_u8(
                    max_u8(vertical, lower_input(w, x, y, z, 1, 0)),
                    lower_input(w, x, y, z, -1, 0),
                ),
                lower_input(w, x, y, z, 0, 1),
            ),
            lower_input(w, x, y, z, 0, -1),
        )
    } else {
        vertical
    }
}

/// Whether the neighbour of (x, y, z) in direction (dx, dz) makes an opaque
/// block there strongly powered.
pub open spec fn strong_side(w: WorldMap, x: int, y: int, z: int, dx: int, dz: int) -> bool {
    let n = w.block_at(x + dx, y, z + dz);
    let b = stored_id(n);
    if b == 55 {
        false
    } else if b == 75 {
        true
    } else {
        power_of(n) > 0
    }
}

/// Whether the block `stored` at (x, y, z) is strongly powered: a torch, a
/// repeater, a redstone block, an active comparator, or an opaque block with
/// a source other than wire beside it.
pub open spec fn strongly_powered(w: WorldMap, x: int, y: int, z: int, stored: u16) -> bool {
    let b = stored_id(stored);
    if b == 75 || b == 94 || b == 152 {
        true
    } else if b == 149 || b == 150 {
        on_bit(stored_meta(stored))
    } else if !transparent(b) {
        strong_side(w, x, y, z, 1, 0) || strong_side(w, x, y, z, -1, 0) || strong_side(
            w,
            x,
            y,
            z,
            0,
            1,
        ) || strong_side(w, x, y, z, 0, -1)
    } else {
        false
    }
}

/// Whether the neighbour at (nx, ny, nz) powers the block at (x, y, z).
pub open spec fn powers_from(w: WorldMap, x: int, y: int, z: int, nx: int, ny: int, nz: int) -> bool {
    let n = w.block_at(nx, ny, nz);
    let nb = stored_id(n);
    let direct = if nb == 55 && stored_meta(n) > 0 {
        true
    } else if nb == 75 {
        true
    } else if nb == 94 {
        facing_of(stored_meta(n)).0 == x - nx && facing_of(stored_meta(n)).1 == z - nz
    } else if (nb == 149 || nb == 150) && on_bit(stored_meta(n)) {
        facing_of(stored_meta(n)).0 == x - nx && facing_of(stored_meta(n)).1 == z - nz
    } else {
        power_of(n) > 0
    };
    let diagonal = (nb == 0 || !transparent(nb)) && (strongly_powered(
        w,
        nx + 1,
        ny,
        nz,
        w.block_at(nx + 1, ny, nz),
    ) || strongly_powered(w, nx - 1, ny, nz, w.block_at(nx - 1, ny, nz)) || strongly_powered(
        w,
        nx,
        ny,
        nz + 1,
        w.block_at(nx, ny, nz + 1),
    ) || strongly_powered(w, nx, ny, nz - 1, w.block_at(nx, ny, nz - 1)));
    direct || strongly_powered(w, nx, ny, nz, n) || diagonal
}

/// Whether the block at (x, y, z) is powered by one of its six neighbours.
pub open spec fn block_powered(w: WorldMap, x: int, y: int, z: int) -> bool {
    ||| powers_from(w, x, y, z, x - 1, y, z)
    ||| powers_from(w, x, y, z, x + 1, y, z)
    ||| powers_from(w, x, y, z, x, y - 1, z)
    ||| powers_from(w, x, y, z, x, y + 1, z)
    ||| powers_from(w, x, y, z, x, y, z - 1)
    ||| powers_from(w, x, y, z, x, y, z + 1)
}

fn decay(stored: u16) -> (p: u8)
    ensures
        p == wire_decay(stored),
{
    meta(stored).saturating_sub(1)
}

fn wall_input_at(world: &WorldMap, ox: i32, y: i32, oz: i32, tdx: i32, tdz: i32) -> (p: u8)
    requires
        world.wf(),
        -1 <= tdx <= 1,
        -1 <= tdz <= 1,
        i32::MIN + 1 <= ox <= i32::MAX - 1,
        i32::MIN + 1 <= oz <= i32::MAX - 1,
    ensures
        p == wall_input(*world, ox as int, y as int, oz as int, tdx as int, tdz as int),
{
    let torch_at = get_block(world, ox + tdx, y, oz + tdz);
    if block_id(torch_at) == 75 {
        let tm = meta(torch_at);
        let t = tm & 0x07;
        assert(t == tm % 8) by (bit_vector)
            requires
                t == tm & 0x07,
        ;
        let (sx, sz): (i32, i32) = match t {
            1 => (-1, 0),
            2 => (1, 0),
            3 => (0, -1),
            4 => (0, 1),
            _ => (0, 0),
        };
        if tdx + sx == 0 && tdz + sz == 0 {
            15
        } else {
            0
        }
    } else if block_id(torch_at) == 94 {
        let tf = facing(meta(torch_at));
        if tdx + tf.0 == 0 && tdz + tf.1 == 0 {
            15
        } else {
            0
        }
    } else {
        0
    }
}

fn side_input_at(world: &WorldMap, x: i32, y: i32, z: i32, dx: i32, dz: i32) -> (p: u8)
    requires
        world.wf(),
        room_around(x, y, z),
        -1 <= dx <= 1,
        -1 <= dz <= 1,
    ensures
        p == side_input(*world, x as int, y as int, z as int, dx as int, dz as int),
{
    let n = get_block(world, x + dx, y, z + dz);
    let nb = block_id(n);
    if nb == 55 {
        decay(n)
    } else if !matches!(nb, 94 | 149 | 150) && get_block_power(n) > 0 {
        get_block_power(n)
    } else if nb == 75 {
        15
    } else if nb == 94 {
        let f = facing(meta(n));
        if f.0 == -dx && f.1 == -dz {
            15
        } else {
            0
        }
    } else if nb == 149 || nb == 150 {
        let f = facing(meta(n));
        if f.0 == -dx && f.1 == -dz && (meta(n) & 0x08) != 0 {
            15
        } else {
            0
        }
    } else if is_opaque(nb) {
        let above = get_block(world, x + dx, y + 1, z + dz);
        let mut power: u8 = 0;
        if block_id(above) == 55 {
            power = decay(above);
        }
        let ox = x + dx;
        let oz = z + dz;
        power = max_of(power, wall_input_at(world, ox, y, oz, 1, 0));
        power = max_of(power, wall_input_at(world, ox, y, oz, -1, 0));
        power = max_of(power, wall_input_at(world, ox, y, oz, 0, 1));
        power = max_of(power, wall_input_at(world, ox, y, oz, 0, -1));
        power
    } else {
        0
    }
}

fn max_of(a: u8, b: u8) -> (m: u8)
    ensures
        m == max_u8(a, b),
{
    if a >= b {
        a
    } else {
        b
    }
}

fn strong_side_at(world: &WorldMap, x: i32, y: i32, z: i32, dx: i32, dz: i32) -> (r: bool)
    requires
        world.wf(),
        -1 <= dx <= 1,
        -1 <= dz <= 1,
        i32::MIN + 1 <= x <= i32::MAX - 1,
        i32::MIN + 1 <= z <= i32::MAX - 1,
    ensures
        r == strong_side(*world, x as int, y as int, z as int, dx as int, dz as int),
{
    let n = get_block(world, x + dx, y, z + dz);
    match block_id(n) {
        55 => false,
        75 => true,
        _ => get_block_power(n) > 0,
    }
}

/// Whether the block `stored` at (x, y, z) is strongly powered, so that it
/// powers a wire beside it at full strength.
pub fn is_strongly_powered(world: &WorldMap, x: i32, y: i32, z: i32, stored: u16) -> (r: bool)
    requires
        world.wf(),
        i32::MIN + 1 <= x <= i32::MAX - 1,
        i32::MIN + 1 <= z <= i32::MAX - 1,
    ensures
        r == strongly_powered(*world, x as int, y as int, z as int, stored),
{
    let block = block_id(stored);
    if block == 75 {
        return true;
    }
    if block == 94 {
        return true;
    }
    if block == 152 {
        return true;
    }
    if matches!(block, 149 | 150) {
        return (meta(stored) & 0x08) != 0;
    }
    if is_opaque(block) {
        return strong_side_at(world, x, y, z, 1, 0) || strong_side_at(world, x, y, z, -1, 0)
            || strong_side_at(world, x, y, z, 0, 1) || strong_side_at(world, x, y, z, 0, -1);
    }
    false
}

fn lower_input_at(world: &WorldMap, x: i32, y: i32, z: i32, dx: i32, dz: i32) -> (p: u8)
    requires
        world.wf(),
        room_around(x, y, z),
        -1 <= dx <= 1,
        -1 <= dz <= 1,
    ensures
        p == lower_input(*world, x as int, y as int, z as int, dx as int, dz as int),
{
    let mut power: u8 = 0;
    let lower_wire = get_block(world, x + dx, y - 1, z + dz);
    if block_id(lower_wire) == 55 {
        power = decay(lower_wire);
    }
    let ground = get_block(world, x + dx, y - 1, z + dz);
    if is_strongly_powered(world, x + dx, y - 1, z + dz, ground) {
        power = max_of(power, 15);
    }
    power
}

/// Power level a wire at (x, y, z) receives from its neighbourhood: from a
/// wire one less than the wire's own level, from a source its level, from a
/// torch or repeater through an opaque block 15.
#[verifier::spinoff_prover]
pub fn dust_power_input(world: &WorldMap, x: i32, y: i32, z: i32) -> (p: u8)
    requires
        world.wf(),
        room_around(x, y, z),
    ensures
        p == dust_power(*world, x as int, y as int, z as int),
        p <= 15,
{
    let mut power: u8 = side_input_at(world, x, y, z, 1, 0);
    power = max_of(power, side_input_at(world, x, y, z, -1, 0));
    power = max_of(power, side_input_at(world, x, y, z, 0, 1));
    power = max_of(power, side_input_at(world, x, y, z, 0, -1));

    let above = get_block(world, x, y + 1, z);
    if block_id(above) == 55 {
        power = max_of(power, decay(above));
    } else if !matches!(block_id(above), 93 | 94 | 149 | 150) && get_block_power(above) > 0 {
        power = max_of(power, get_block_power(above));
    } else {
        power = max_of(power, 0);
    }

    let below = get_block(world, x, y - 1, z);
    if block_id(below) == 55 {
        power = max_of(power, decay(below));
    } else if !matches!(block_id(below), 93 | 94 | 149 | 150) && is_power_source(below) {
        power = max_of(power, get_block_power(below));
    } else {
        power = max_of(power, 0);
    }

    if is_opaque(block_id(below)) {
        power = max_of(power, lower_input_at(world, x, y, z, 1, 0));
        power = max_of(power, lower_input_at(world, x, y, z, -1, 0));
        power = max_of(power, lower_input_at(world, x, y, z, 0, 1));
        power = max_of(power, lower_input_at(world, x, y, z, 0, -1));
    }
    power
}

fn powers_from_at(world: &WorldMap, x: i32, y: i32, z: i32, nx: i32, ny: i32, nz: i32) -> (r: bool)
    requires
        world.wf(),
        i32::MIN + 1 <= nx <= i32::MAX - 1,
        i32::MIN + 2 <= nz <= i32::MAX - 2,
        i32::MIN + 2 <= nx <= i32::MAX - 2,
        -1 <= x - nx <= 1,
        -1 <= z - nz <= 1,
    ensures
        r == powers_from(*world, x as int, y as int, z as int, nx as int, ny as int, nz as int),
{
    let n = get_block(world, nx, ny, nz);
    let nb = block_id(n);
    if nb == 55 && meta(n) > 0 {
        return true;
    }
    if nb == 75 {
        return true;
    }
    if nb == 94 {
        let f = facing(meta(n));
        if f.0 == x - nx && f.1 == z - nz {
            return true;
        }
    } else if (nb == 149 || nb == 150) && (meta(n) & 0x08) != 0 {
        let f = facing(meta(n));
        if f.0 == x - nx && f.1 == z - nz {
            return true;
        }
    } else if get_block_power(n) > 0 {
        return true;
    }
    if is_strongly_powered(world, nx, ny, nz, n) {
        return true;
    }
    if nb == 0 || is_opaque(nb) {
        let e = get_block(world, nx + 1, ny, nz);
        let w = get_block(world, nx - 1, ny, nz);
        let s = get_block(world, nx, ny, nz + 1);
        let nn = get_block(world, nx, ny, nz - 1);
        if is_strongly_powered(world, nx + 1, ny, nz, e) || is_strongly_powered(world, nx - 1, ny, nz, w)
            || is_strongly_powered(world, nx, ny, nz + 1, s) || is_strongly_powered(
            world,
            nx,
            ny,
            nz - 1,
            nn,
        ) {
            return true;
        }
    }
    false
}

/// Whether the block at (x, y, z) is powered by one of its six neighbours:
/// a lit wire, a torch, a repeater or active comparator facing it, any
/// other source, a strongly powered block, or a block beside a strongly
/// powered one.
pub fn is_block_powered(world: &WorldMap, x: i32, y: i32, z: i32) -> (r: bool)
    requires
        world.wf(),
        room_around(x, y, z),
        i32::MIN + 3 <= x <= i32::MAX - 3,
        i32::MIN + 3 <= z <= i32::MAX - 3,
    ensures
        r == block_powered(*world, x as int, y as int, z as int),
{
    powers_from_at(world, x, y, z, x - 1, y, z) || powers_from_at(world, x, y, z, x + 1, y, z)
        || powers_from_at(world, x, y, z, x, y - 1, z) || powers_from_at(world, x, y, z, x, y + 1, z)
        || powers_from_at(world, x, y, z, x, y, z - 1) || powers_from_at(world, x, y, z, x, y, z + 1)
}

/// Blocks whose state takes part in redstone updates.
pub open spec fn relevant(block: u16) -> bool {
    ||| block == 55 || block == 75 || block == 76 || block == 93 || block == 94
    ||| block == 149 || block == 150 || block == 69 || block == 70 || block == 72
    ||| block == 77 || block == 143 || block == 147 || block == 148 || block == 152
    ||| block == 27 || block == 28 || block == 66 || block == 157
}

/// Whether a block id takes part in redstone updates.
pub fn is_redstone_relevant(block: u16) -> (r: bool)
    ensures
        r == relevant(block),
{
    matches!(block,
        55 | 75 | 76 | 93 | 94 | 149 | 150 |
        69 | 70 | 72 | 77 | 143 | 147 | 148 | 152 |
        27 | 28 | 66 | 157)
}

/// Direction (dx, dy, dz) faced by a piston of the given facing bits.
pub open spec fn piston_dir(face: u8) -> (i32, i32, i32) {
    let f = face % 8;
    if f == 0 {
        (0i32, -1i32, 0i32)
    } else if f == 1 {
        (0i32, 1i32, 0i32)
    } else if f == 2 {
        (0i32, 0i32, -1i32)
    } else if f == 3 {
        (0i32, 0i32, 1i32)
    } else if f == 4 {
        (-1i32, 0i32, 0i32)
    } else if f == 5 {
        (1i32, 0i32, 0i32)
    } else {
        (0i32, 0i32, 0i32)
    }
}

/// Direction faced by a piston: 0 down, 1 up, 2 north, 3 south, 4 west,
/// 5 east (the three low bits of its metadata).
pub fn piston_offset(face: u8) -> (d: (i32, i32, i32))
    ensures
        d == piston_dir(face),
{
    let f = face & 0x07;
    assert(f == face % 8) by (bit_vector)
        requires
            f == face & 0x07,
    ;
    match f {
        0 => (0, -1, 0),
        1 => (0, 1, 0),
        2 => (0, 0, -1),
        3 => (0, 0, 1),
        4 => (-1, 0, 0),
        5 => (1, 0, 0),
        _ => (0, 0, 0),
    }
}

/// Blocks that a piston cannot move.
pub open spec fn immovable(block: u16) -> bool {
    ||| block == 0 || block == 7 || block == 23 || block == 25 || block == 29 || block == 33
    ||| block == 34 || block == 36 || block == 49 || block == 52 || block == 54 || block == 61
    ||| block == 62 || block == 84 || block == 90 || block == 116 || block == 117
    ||| block == 118 || block == 119 || block == 120 || block == 130 || block == 137
    ||| block == 138 || block == 145 || block == 146 || block == 154 || block == 158
}

/// Whether a piston can push (or pull) a block id.
pub fn piston_pushable(block: u16) -> (r: bool)
    ensures
        r == !immovable(block),
{
    !matches!(block,
        0 | 7 | 23 | 25 | 29 | 33 | 34 | 36 | 49 | 52 | 54 | 61 | 62 |
        84 | 90 | 116 | 117 | 118 | 119 | 120 | 130 | 137 | 138 | 145 |
        146 | 154 | 158)
}

/// Changes of which blocks may lower the power of the wires around them.
pub open spec fn resets_dust(block: u16, m: u8) -> bool {
    ||| block == 0 || block == 75 || block == 76 || block == 93 || block == 94 || block == 149
    ||| block == 150 || block == 69 || block == 70 || block == 72 || block == 77 || block == 143
    ||| block == 147 || block == 148 || block == 152 || block == 157 || block == 28
    ||| (block == 55 && m > 0)
}

/// Whether a change at a block may start a reset of the wires around it:
/// consumers (lamps, pistons, doors...) never change the power of dust.
pub fn can_reset_dust_from(block: u16, m: u8) -> (r: bool)
    ensures
        r == resets_dust(block, m),
{
    matches!(block, 0 | 75 | 76 | 93 | 94 | 149 | 150 | 69 | 70 | 72 |
                    77 | 143 | 147 | 148 | 152 | 157 | 28)
        || (block == 55 && m > 0)
}


/// A block position.
pub type Pos = (i32, i32, i32);

/// Whether `p` occurs in `v` at index `from` or later.
pub open spec fn occurs_from(v: Seq<Pos>, from: int, p: Pos) -> bool {
    exists|i: int| from <= i < v.len() && v[i] == p
}

/// Whether `p` occurs in `v` at index `from` or later.
pub fn contains_from(v: &Vec<Pos>, from: usize, p: Pos) -> (r: bool)
    ensures
        r == occurs_from(v@, from as int, p),
{
    let mut i = from;
    while i < v.len()
        invariant
            from <= i,
            forall|j: int| from <= j < i && j < v@.len() ==> v@[j] != p,
        decreases v@.len() - i,
    {
        if v[i].0 == p.0 && v[i].1 == p.1 && v[i].2 == p.2 {
            assert(v@[i as int] == p);
            return true;
        }
        i += 1;
    }
    proof {
        if occurs_from(v@, from as int, p) {
            let j = choose|j: int| from <= j < v@.len() && v@[j] == p;
            assert(v@[j] != p);
        }
    }
    false
}

/// `v + d` when it stays in the i32 range.
fn offset(v: i32, d: i32) -> (r: Option<i32>)
    requires
        -1 <= d <= 1,
    ensures
        match r {
            Some(w) => w == v + d,
            None => v + d < i32::MIN || v + d > i32::MAX,
        },
{
    if d > 0 && v == i32::MAX {
        None
    } else if d < 0 && v == i32::MIN {
        None
    } else {
        Some(v + d)
    }
}

/// `w` is `v` with entries appended.
pub open spec fn extends(v: Seq<Pos>, w: Seq<Pos>) -> bool {
    v.len() <= w.len() && forall|i: int| 0 <= i < v.len() ==> #[trigger] w[i] == v[i]
}

proof fn lemma_occurs_extends(v: Seq<Pos>, w: Seq<Pos>, from: int, p: Pos)
    requires
        0 <= from,
        extends(v, w),
        occurs_from(v, from, p),
    ensures
        occurs_from(w, from, p),
{
    let i = choose|i: int| from <= i < v.len() && v[i] == p;
    assert(w[i] == p);
}

/// Whether `q` is at offset (dx, dy, dz) from `p`.
pub open spec fn at_offset(p: Pos, dx: int, dy: int, dz: int, q: Pos) -> bool {
    q.0 == p.0 + dx && q.1 == p.1 + dy && q.2 == p.2 + dz
}

/// Appends the position at offset (dx, dy, dz) of `p` when it is in the
/// i32 range and not in `seen`.
fn push_near(out: &mut Vec<Pos>, seen: &Vec<Pos>, p: Pos, dx: i32, dy: i32, dz: i32)
    requires
        -1 <= dx <= 1,
        -1 <= dy <= 1,
        -1 <= dz <= 1,
    ensures
        extends(old(out)@, final(out)@),
        final(out)@.len() <= old(out)@.len() + 1,
        forall|i: int|
            old(out)@.len() <= i < final(out)@.len() ==> at_offset(p, dx as int, dy as int, dz as int, #[trigger] final(out)@[i])
                && !occurs_from(seen@, 0, final(out)@[i]),
        forall|q: Pos|
            #[trigger] at_offset(p, dx as int, dy as int, dz as int, q) ==> occurs_from(seen@, 0, q) || occurs_from(
                final(out)@,
                old(out)@.len() as int,
                q,
            ),
{
    if let (Some(a), Some(b), Some(c)) = (offset(p.0, dx), offset(p.1, dy), offset(p.2, dz)) {
        if !contains_from(seen, 0, (a, b, c)) {
            out.push((a, b, c));
            assert(out@[out@.len() - 1] == (a, b, c));
        }
    }
}

/// Offset `k` (0 to 13) of the positions linked to a wire for a reset: the
/// six neighbours, then the eight slopes one block up or down.
pub open spec fn link_offset(k: int) -> (int, int, int) {
    if k == 0 {
        (-1, 0, 0)
    } else if k == 1 {
        (1, 0, 0)
    } else if k == 2 {
        (0, -1, 0)
    } else if k == 3 {
        (0, 1, 0)
    } else if k == 4 {
        (0, 0, -1)
    } else if k == 5 {
        (0, 0, 1)
    } else if k == 6 {
        (1, -1, 0)
    } else if k == 7 {
        (1, 1, 0)
    } else if k == 8 {
        (-1, -1, 0)
    } else if k == 9 {
        (-1, 1, 0)
    } else if k == 10 {
        (0, -1, 1)
    } else if k == 11 {
        (0, 1, 1)
    } else if k == 12 {
        (0, -1, -1)
    } else {
        (0, 1, -1)
    }
}

/// Which link offset (dx, dy, dz) is, or 14 for none.
spec fn link_index(dx: int, dy: int, dz: int) -> int {
    if dx == -1 && dy == 0 && dz == 0 {
        0
    } else if dx == 1 && dy == 0 && dz == 0 {
        1
    } else if dx == 0 && dy == -1 && dz == 0 {
        2
    } else if dx == 0 && dy == 1 && dz == 0 {
        3
    } else if dx == 0 && dy == 0 && dz == -1 {
        4
    } else if dx == 0 && dy == 0 && dz == 1 {
        5
    } else if dx == 1 && dy == -1 && dz == 0 {
        6
    } else if dx == 1 && dy == 1 && dz == 0 {
        7
    } else if dx == -1 && dy == -1 && dz == 0 {
        8
    } else if dx == -1 && dy == 1 && dz == 0 {
        9
    } else if dx == 0 && dy == -1 && dz == 1 {
        10
    } else if dx == 0 && dy == 1 && dz == 1 {
        11
    } else if dx == 0 && dy == -1 && dz == -1 {
        12
    } else if dx == 0 && dy == 1 && dz == -1 {
        13
    } else {
        14
    }
}

/// Whether `q` is linked to `p` for a reset: one of its six neighbours, or
/// one block up or down from one of its four horizontal neighbours.
pub open spec fn reset_linked(p: Pos, q: Pos) -> bool {
    let dx = q.0 - p.0;
    let dy = q.1 - p.1;
    let dz = q.2 - p.2;
    ||| (dy == 0 && dz == 0 && (dx == 1 || dx == -1))
    ||| (dx == 0 && dz == 0 && (dy == 1 || dy == -1))
    ||| (dx == 0 && dy == 0 && (dz == 1 || dz == -1))
    ||| ((dy == 1 || dy == -1) && dz == 0 && (dx == 1 || dx == -1))
    ||| ((dy == 1 || dy == -1) && dx == 0 && (dz == 1 || dz == -1))
}

proof fn lemma_link_index(p: Pos, q: Pos)
    ensures
        reset_linked(p, q) <==> link_index(q.0 - p.0, q.1 - p.1, q.2 - p.2) < 14,
        link_index(q.0 - p.0, q.1 - p.1, q.2 - p.2) < 14 ==> ({
            let d = link_offset(link_index(q.0 - p.0, q.1 - p.1, q.2 - p.2));
            at_offset(p, d.0, d.1, d.2, q)
        }),
{
}

fn link_offset_exec(k: usize) -> (d: (i32, i32, i32))
    requires
        k < 14,
    ensures
        (d.0 as int, d.1 as int, d.2 as int) == link_offset(k as int),
{
    match k {
        0 => (-1, 0, 0),
        1 => (1, 0, 0),
        2 => (0, -1, 0),
        3 => (0, 1, 0),
        4 => (0, 0, -1),
        5 => (0, 0, 1),
        6 => (1, -1, 0),
        7 => (1, 1, 0),
        8 => (-1, -1, 0),
        9 => (-1, 1, 0),
        10 => (0, -1, 1),
        11 => (0, 1, 1),
        12 => (0, -1, -1),
        _ => (0, 1, -1),
    }
}

/// Appends the positions linked to `p` (in the order of `link_offset`) that
/// are not in `seen`.
fn push_links(out: &mut Vec<Pos>, seen: &Vec<Pos>, p: Pos)
    ensures
        extends(old(out)@, final(out)@),
        forall|i: int|
            old(out)@.len() <= i < final(out)@.len() ==> reset_linked(p, #[trigger] final(out)@[i]) && !occurs_from(
                seen@,
                0,
                final(out)@[i],
            ),
        forall|q: Pos|
            #[trigger] reset_linked(p, q) ==> occurs_from(seen@, 0, q) || occurs_from(final(out)@, old(out)@.len() as int, q),
{
    let ghost start = out@;
    let mut k: usize = 0;
    while k < 14
        invariant
            k <= 14,
            extends(start, out@),
            forall|i: int|
                start.len() <= i < out@.len() ==> reset_linked(p, #[trigger] out@[i]) && !occurs_from(seen@, 0, out@[i]),
            forall|q: Pos|
                reset_linked(p, q) && #[trigger] link_index(q.0 - p.0, q.1 - p.1, q.2 - p.2) < k ==> occurs_from(seen@, 0, q)
                    || occurs_from(out@, start.len() as int, q),
        decreases 14 - k,
    {
        let (dx, dy, dz) = link_offset_exec(k);
        let ghost before = out@;
        push_near(out, seen, p, dx, dy, dz);
        proof {
            assert forall|i: int| start.len() <= i < out@.len() implies reset_linked(p, #[trigger] out@[i]) && !occurs_from(seen@, 0, out@[i]) by {
                if i >= before.len() {
                    lemma_link_index(p, out@[i]);
                } else {
                    assert(out@[i] == before[i]);
                }
            }
            assert forall|q: Pos|
                reset_linked(p, q) && #[trigger] link_index(q.0 - p.0, q.1 - p.1, q.2 - p.2) < k + 1 implies occurs_from(seen@, 0, q)
                    || occurs_from(out@, start.len() as int, q) by {
                lemma_link_index(p, q);
                if link_index(q.0 - p.0, q.1 - p.1, q.2 - p.2) < k {
                    if occurs_from(before, start.len() as int, q) {
                        lemma_occurs_extends(before, out@, start.len() as int, q);
                    }
                } else {
                    assert(at_offset(p, dx as int, dy as int, dz as int, q));
                    if occurs_from(out@, before.len() as int, q) {
                        let j = choose|j: int| before.len() <= j < out@.len() && out@[j] == q;
                        assert(start.len() <= j);
                    }
                }
            }
        }
        k += 1;
    }
    proof {
        assert forall|q: Pos| #[trigger] reset_linked(p, q) implies occurs_from(seen@, 0, q) || occurs_from(out@, start.len() as int, q) by {
            lemma_link_index(p, q);
        }
    }
}

/// Whether a change at `p` of block `block` (metadata `m`) reaches `q` for a
/// reset: a repeater or comparator reaches the position it faces, another
/// block the positions linked to it.
pub open spec fn reset_target(p: Pos, block: u16, m: u8, q: Pos) -> bool {
    if block == 93 || block == 94 || block == 149 || block == 150 {
        let f = facing_of(m);
        at_offset(p, f.0 as int, 0, f.1 as int, q)
    } else {
        reset_linked(p, q)
    }
}

/// Whether seed `s`, as it stands in `w`, starts a reset at `q`: its block
/// can lower power (see `resets_dust`) and reaches `q`.
pub open spec fn reset_start(w: WorldMap, s: Pos, q: Pos) -> bool {
    let stored = w.block_at(s.0 as int, s.1 as int, s.2 as int);
    resets_dust(stored_id(stored), stored_meta(stored)) && reset_target(s, stored_id(stored), stored_meta(stored), q)
}

/// Positions a change at `p` (block `block`, metadata `m`) may cut off
/// from power (see `reset_target`).
fn reset_candidates(out: &mut Vec<Pos>, p: Pos, block: u16, m: u8)
    ensures
        extends(old(out)@, final(out)@),
        forall|i: int| old(out)@.len() <= i < final(out)@.len() ==> reset_target(p, block, m, #[trigger] final(out)@[i]),
        forall|q: Pos| #[trigger] reset_target(p, block, m, q) ==> occurs_from(final(out)@, old(out)@.len() as int, q),
{
    let none: Vec<Pos> = Vec::new();
    if matches!(block, 93 | 94 | 149 | 150) {
        let (dx, dz) = facing(m);
        push_near(out, &none, p, dx, 0, dz);
    } else {
        push_links(out, &none, p);
    }
}

/// Whether some seed starts a reset at `q` (see `reset_start`).
pub open spec fn seeded(w: WorldMap, seeds: Seq<Pos>, q: Pos) -> bool {
    exists|k: int| 0 <= k < seeds.len() && #[trigger] reset_start(w, seeds[k], q)
}

/// Whether `q` is linked to one of the first `n` positions of `list`.
pub open spec fn linked_before(list: Seq<Pos>, n: int, q: Pos) -> bool {
    exists|j: int| 0 <= j < n && #[trigger] reset_linked(list[j], q)
}

/// Every queued position is seeded or linked to a reset wire.
#[verifier::opaque]
spec fn queue_reached(w0: WorldMap, seeds: Seq<Pos>, visit: Seq<Pos>, list: Seq<Pos>) -> bool {
    forall|t: int| 0 <= t < visit.len() ==> seeded(w0, seeds, #[trigger] visit[t]) || linked_before(list, list.len() as int, visit[t])
}

/// The first `head` queued positions were seen.
#[verifier::opaque]
spec fn processed(visit: Seq<Pos>, head: int, seen: Seq<Pos>) -> bool {
    forall|t: int| 0 <= t < head ==> occurs_from(seen, 0, #[trigger] visit[t])
}

/// Every seen position was reset, or was not a lit wire.
#[verifier::opaque]
spec fn seen_settled(w0: WorldMap, seen: Seq<Pos>, list: Seq<Pos>) -> bool {
    forall|s: int|
        0 <= s < seen.len() ==> occurs_from(list, 0, #[trigger] seen[s]) || !lit_dust(
            w0.block_at(seen[s].0 as int, seen[s].1 as int, seen[s].2 as int),
        )
}

/// Every seeded position was queued.
#[verifier::opaque]
spec fn seeds_queued(w0: WorldMap, seeds: Seq<Pos>, visit: Seq<Pos>) -> bool {
    forall|q: Pos| #[trigger] seeded(w0, seeds, q) ==> occurs_from(visit, 0, q)
}

/// Every position linked to a reset wire was queued or seen.
#[verifier::opaque]
spec fn links_queued(list: Seq<Pos>, visit: Seq<Pos>, seen: Seq<Pos>) -> bool {
    forall|i: int, q: Pos|
        0 <= i < list.len() && #[trigger] reset_linked(list[i], q) ==> occurs_from(visit, 0, q) || occurs_from(seen, 0, q)
}

/// Every reset wire is seeded or linked to a wire reset before it.
#[verifier::opaque]
spec fn list_reached(w0: WorldMap, seeds: Seq<Pos>, list: Seq<Pos>) -> bool {
    forall|i: int| 0 <= i < list.len() ==> seeded(w0, seeds, #[trigger] list[i]) || linked_before(list, i, list[i])
}

proof fn lemma_seen_one_more(visit: Seq<Pos>, h0: int, old_seen: Seq<Pos>, seen: Seq<Pos>, list: Seq<Pos>)
    requires
        processed(visit, h0, old_seen),
        links_queued(list, visit, old_seen),
        0 <= h0 < visit.len(),
        seen == old_seen.push(visit[h0]) || (seen == old_seen && occurs_from(old_seen, 0, visit[h0])),
    ensures
        processed(visit, h0 + 1, seen),
        links_queued(list, visit, seen),
        extends(old_seen, seen),
{
    reveal(processed);
    reveal(links_queued);
    assert(extends(old_seen, seen));
    assert forall|t: int| 0 <= t < h0 + 1 implies occurs_from(seen, 0, #[trigger] visit[t]) by {
        if t < h0 {
            lemma_occurs_extends(old_seen, seen, 0, visit[t]);
        } else if seen != old_seen {
            assert(seen[old_seen.len() as int] == visit[h0]);
        }
    }
    assert forall|i: int, q: Pos|
        0 <= i < list.len() && #[trigger] reset_linked(list[i], q) implies occurs_from(visit, 0, q) || occurs_from(seen, 0, q) by {
        if occurs_from(old_seen, 0, q) {
            lemma_occurs_extends(old_seen, seen, 0, q);
        }
    }
}

proof fn lemma_settled_unlit(w0: WorldMap, old_seen: Seq<Pos>, p: Pos, list: Seq<Pos>)
    requires
        seen_settled(w0, old_seen, list),
        !lit_dust(w0.block_at(p.0 as int, p.1 as int, p.2 as int)),
    ensures
        seen_settled(w0, old_seen.push(p), list),
{
    reveal(seen_settled);
    let seen = old_seen.push(p);
    assert forall|s: int|
        0 <= s < seen.len() implies occurs_from(list, 0, #[trigger] seen[s]) || !lit_dust(
            w0.block_at(seen[s].0 as int, seen[s].1 as int, seen[s].2 as int),
        ) by {
        if s < old_seen.len() {
            assert(seen[s] == old_seen[s]);
        }
    }
}

proof fn lemma_after_reset(
    w0: WorldMap,
    seeds: Seq<Pos>,
    old_visit: Seq<Pos>,
    visit: Seq<Pos>,
    head: int,
    old_seen: Seq<Pos>,
    seen: Seq<Pos>,
    old_list: Seq<Pos>,
    p: Pos,
)
    requires
        queue_reached(w0, seeds, old_visit, old_list),
        processed(old_visit, head, seen),
        seen_settled(w0, old_seen, old_list),
        seeds_queued(w0, seeds, old_visit),
        links_queued(old_list, old_visit, seen),
        list_reached(w0, seeds, old_list),
        0 < head <= old_visit.len(),
        old_visit[head - 1] == p,
        seen == old_seen.push(p),
        extends(old_visit, visit),
        forall|i: int| old_visit.len() <= i < visit.len() ==> reset_linked(p, #[trigger] visit[i]),
        forall|q: Pos| #[trigger] reset_linked(p, q) ==> occurs_from(seen, 0, q) || occurs_from(visit, old_visit.len() as int, q),
    ensures
        queue_reached(w0, seeds, visit, old_list.push(p)),
        processed(visit, head, seen),
        seen_settled(w0, seen, old_list.push(p)),
        seeds_queued(w0, seeds, visit),
        links_queued(old_list.push(p), visit, seen),
        list_reached(w0, seeds, old_list.push(p)),
{
    reveal(queue_reached);
    reveal(processed);
    reveal(seen_settled);
    reveal(seeds_queued);
    reveal(links_queued);
    reveal(list_reached);
    let list = old_list.push(p);
    let n = old_list.len() as int;
    assert(list[n] == p);
    assert(extends(old_list, list));
    assert forall|t: int| 0 <= t < visit.len() implies seeded(w0, seeds, #[trigger] visit[t]) || linked_before(list, list.len() as int, visit[t]) by {
        if t < old_visit.len() {
            assert(visit[t] == old_visit[t]);
            if linked_before(old_list, n, old_visit[t]) {
                let j = choose|j: int| 0 <= j < n && #[trigger] reset_linked(old_list[j], old_visit[t]);
                assert(list[j] == old_list[j]);
            }
        } else {
            assert(reset_linked(list[n], visit[t]));
        }
    }
    assert forall|t: int| 0 <= t < head implies occurs_from(seen, 0, #[trigger] visit[t]) by {
        assert(visit[t] == old_visit[t]);
    }
    assert forall|s: int|
        0 <= s < seen.len() implies occurs_from(list, 0, #[trigger] seen[s]) || !lit_dust(
            w0.block_at(seen[s].0 as int, seen[s].1 as int, seen[s].2 as int),
        ) by {
        if s < old_seen.len() {
            assert(seen[s] == old_seen[s]);
            if occurs_from(old_list, 0, old_seen[s]) {
                lemma_occurs_extends(old_list, list, 0, old_seen[s]);
            }
        } else {
            assert(seen[s] == list[n]);
        }
    }
    assert forall|q: Pos| #[trigger] seeded(w0, seeds, q) implies occurs_from(visit, 0, q) by {
        lemma_occurs_extends(old_visit, visit, 0, q);
    }
    assert forall|i: int, q: Pos|
        0 <= i < list.len() && #[trigger] reset_linked(list[i], q) implies occurs_from(visit, 0, q) || occurs_from(seen, 0, q) by {
        if i < n {
            assert(list[i] == old_list[i]);
            if occurs_from(old_visit, 0, q) {
                lemma_occurs_extends(old_visit, visit, 0, q);
            }
        } else if occurs_from(visit, old_visit.len() as int, q) {
            let j = choose|j: int| old_visit.len() <= j < visit.len() && visit[j] == q;
            assert(0 <= j);
        }
    }
    assert forall|i: int| 0 <= i < list.len() implies seeded(w0, seeds, #[trigger] list[i]) || linked_before(list, i, list[i]) by {
        if i < n {
            assert(list[i] == old_list[i]);
            if linked_before(old_list, i, old_list[i]) {
                let j = choose|j: int| 0 <= j < i && #[trigger] reset_linked(old_list[j], old_list[i]);
                assert(list[j] == old_list[j]);
            }
        } else {
            assert(old_visit[head - 1] == p);
            if linked_before(old_list, n, old_visit[head - 1]) {
                let j = choose|j: int| 0 <= j < n && #[trigger] reset_linked(old_list[j], old_visit[head - 1]);
                assert(list[j] == old_list[j]);
            }
        }
    }
}

proof fn lemma_reset_closed(
    w0: WorldMap,
    seeds: Seq<Pos>,
    visit: Seq<Pos>,
    seen: Seq<Pos>,
    list: Seq<Pos>,
)
    requires
        processed(visit, visit.len() as int, seen),
        seen_settled(w0, seen, list),
        seeds_queued(w0, seeds, visit),
        links_queued(list, visit, seen),
        list_reached(w0, seeds, list),
    ensures
        forall|i: int| 0 <= i < list.len() ==> seeded(w0, seeds, #[trigger] list[i]) || linked_before(list, i, list[i]),
        forall|k: int, q: Pos|
            0 <= k < seeds.len() && #[trigger] reset_start(w0, seeds[k], q) && lit_dust(w0.block_at(q.0 as int, q.1 as int, q.2 as int))
                ==> occurs_from(list, 0, q),
        forall|i: int, q: Pos|
            0 <= i < list.len() && #[trigger] reset_linked(list[i], q) && lit_dust(w0.block_at(q.0 as int, q.1 as int, q.2 as int))
                ==> occurs_from(list, 0, q),
{
    reveal(processed);
    reveal(seen_settled);
    reveal(seeds_queued);
    reveal(links_queued);
    reveal(list_reached);
    assert forall|k: int, q: Pos|
        0 <= k < seeds.len() && #[trigger] reset_start(w0, seeds[k], q) && lit_dust(w0.block_at(q.0 as int, q.1 as int, q.2 as int))
            implies occurs_from(list, 0, q) by {
        assert(seeded(w0, seeds, q));
        let t = choose|t: int| 0 <= t < visit.len() && visit[t] == q;
        assert(occurs_from(seen, 0, visit[t]));
        let s = choose|s: int| 0 <= s < seen.len() && seen[s] == visit[t];
        assert(occurs_from(list, 0, seen[s]) || !lit_dust(w0.block_at(seen[s].0 as int, seen[s].1 as int, seen[s].2 as int)));
    }
    assert forall|i: int, q: Pos|
        0 <= i < list.len() && #[trigger] reset_linked(list[i], q) && lit_dust(w0.block_at(q.0 as int, q.1 as int, q.2 as int))
            implies occurs_from(list, 0, q) by {
        if occurs_from(visit, 0, q) {
            let t = choose|t: int| 0 <= t < visit.len() && visit[t] == q;
            assert(occurs_from(seen, 0, visit[t]));
        }
        let s = choose|s: int| 0 <= s < seen.len() && seen[s] == q;
        assert(occurs_from(list, 0, seen[s]) || !lit_dust(w0.block_at(seen[s].0 as int, seen[s].1 as int, seen[s].2 as int)));
    }
}

/// Before power spreads again, turns off every lit wire connected to the
/// changed positions `seeds`, so that a wire cut from its source does not
/// keep a stale level. A seed starts a reset where its block reaches (see
/// `reset_start`), and the reset spreads from each wire turned off to its
/// linked positions (see `reset_linked`). Returns the wires turned off:
/// exactly the lit wires so reached, each once, each reached from a seed or
/// from a wire before it in the list; every other block is left as it was.
pub fn reset_dust_network(world: &mut WorldMap, seeds: &[Pos]) -> (reset: Vec<Pos>)
    requires
        old(world).wf(),
    ensures
        final(world).wf(),
        final(world).lit_count() + reset@.len() == old(world).lit_count(),
        forall|i: int, j: int| 0 <= i < j < reset@.len() ==> reset@[i] != reset@[j],
        forall|i: int|
            0 <= i < reset@.len() ==> lit_dust(
                old(world).block_at(reset@[i].0 as int, reset@[i].1 as int, reset@[i].2 as int),
            ) && final(world).block_at(#[trigger] reset@[i].0 as int, reset@[i].1 as int, reset@[i].2 as int)
                == 55,
        forall|a: int, b: int, c: int|
            (forall|i: int| 0 <= i < reset@.len() ==> reset@[i] != (a as i32, b as i32, c as i32))
                && i32::MIN <= a <= i32::MAX && i32::MIN <= b <= i32::MAX && i32::MIN <= c
                <= i32::MAX ==> #[trigger] final(world).block_at(a, b, c) == old(world).block_at(a, b, c),
        forall|i: int|
            0 <= i < reset@.len() ==> seeded(*old(world), seeds@, #[trigger] reset@[i]) || linked_before(reset@, i, reset@[i]),
        forall|k: int, q: Pos|
            0 <= k < seeds@.len() && #[trigger] reset_start(*old(world), seeds@[k], q) && lit_dust(
                old(world).block_at(q.0 as int, q.1 as int, q.2 as int),
            ) ==> occurs_from(reset@, 0, q),
        forall|i: int, q: Pos|
            0 <= i < reset@.len() && #[trigger] reset_linked(reset@[i], q) && lit_dust(
                old(world).block_at(q.0 as int, q.1 as int, q.2 as int),
            ) ==> occurs_from(reset@, 0, q),
{
    let ghost w0 = *world;
    let mut to_visit: Vec<Pos> = Vec::new();
    let mut k: usize = 0;
    while k < seeds.len()
        invariant
            k <= seeds@.len(),
            world == old(world),
            w0 == *old(world),
            old(world).wf(),
            forall|t: int| 0 <= t < to_visit@.len() ==> seeded(w0, seeds@, #[trigger] to_visit@[t]),
            forall|k2: int, q: Pos| 0 <= k2 < k && #[trigger] reset_start(w0, seeds@[k2], q) ==> occurs_from(to_visit@, 0, q),
        decreases seeds@.len() - k,
    {
        let (x, y, z) = seeds[k];
        let stored = get_block(world, x, y, z);
        let block = block_id(stored);
        let m = meta(stored);
        let ghost before = to_visit@;
        if can_reset_dust_from(block, m) && !(block == 55 && m == 0) {
            reset_candidates(&mut to_visit, (x, y, z), block, m);
        }
        proof {
            assert forall|t: int| 0 <= t < to_visit@.len() implies seeded(w0, seeds@, #[trigger] to_visit@[t]) by {
                if t < before.len() {
                    assert(to_visit@[t] == before[t]);
                } else {
                    assert(reset_start(w0, seeds@[k as int], to_visit@[t]));
                }
            }
            assert forall|k2: int, q: Pos| 0 <= k2 < k + 1 && #[trigger] reset_start(w0, seeds@[k2], q) implies occurs_from(to_visit@, 0, q) by {
                if k2 < k {
                    lemma_occurs_extends(before, to_visit@, 0, q);
                } else {
                    let j = choose|j: int| before.len() <= j < to_visit@.len() && to_visit@[j] == q;
                    assert(0 <= j);
                }
            }
        }
        k += 1;
    }
    let mut seen: Vec<Pos> = Vec::new();
    let mut reset_list: Vec<Pos> = Vec::new();
    let mut head: usize = 0;
    proof {
        reveal(queue_reached);
        reveal(processed);
        reveal(seen_settled);
        reveal(seeds_queued);
        reveal(links_queued);
        reveal(list_reached);
        assert forall|q: Pos| #[trigger] seeded(w0, seeds@, q) implies occurs_from(to_visit@, 0, q) by {
            let k2 = choose|k2: int| 0 <= k2 < seeds@.len() && #[trigger] reset_start(w0, seeds@[k2], q);
        }
    }
    while head < to_visit.len()
        invariant
            world.wf(),
            w0.wf(),
            w0 == *old(world),
            head <= to_visit@.len(),
            world.lit_count() + reset_list@.len() == w0.lit_count(),
            forall|i: int, j: int| 0 <= i < j < reset_list@.len() ==> reset_list@[i] != reset_list@[j],
            forall|i: int| 0 <= i < reset_list@.len() ==> occurs_from(seen@, 0, #[trigger] reset_list@[i]),
            forall|i: int|
                0 <= i < reset_list@.len() ==> lit_dust(
                    w0.block_at(reset_list@[i].0 as int, reset_list@[i].1 as int, reset_list@[i].2 as int),
                ) && world.block_at(#[trigger] reset_list@[i].0 as int, reset_list@[i].1 as int, reset_list@[i].2 as int)
                    == 55,
            forall|a: int, b: int, c: int|
                (forall|i: int| 0 <= i < reset_list@.len() ==> reset_list@[i] != (a as i32, b as i32, c as i32))
                    && i32::MIN <= a <= i32::MAX && i32::MIN <= b <= i32::MAX && i32::MIN <= c
                    <= i32::MAX ==> #[trigger] world.block_at(a, b, c) == w0.block_at(a, b, c),
            queue_reached(w0, seeds@, to_visit@, reset_list@),
            processed(to_visit@, head as int, seen@),
            seen_settled(w0, seen@, reset_list@),
            seeds_queued(w0, seeds@, to_visit@),
            links_queued(reset_list@, to_visit@, seen@),
            list_reached(w0, seeds@, reset_list@),
        decreases world.lit_count(), to_visit@.len() - head,
    {
        let p = to_visit[head];
        let ghost h0 = head as int;
        head += 1;
        if contains_from(&seen, 0, p) {
            proof {
                lemma_seen_one_more(to_visit@, h0, seen@, seen@, reset_list@);
            }
            continue;
        }
        let ghost old_seen = seen@;
        seen.push(p);
        proof {
            lemma_seen_one_more(to_visit@, h0, old_seen, seen@, reset_list@);
            assert forall|i: int| 0 <= i < reset_list@.len() implies occurs_from(seen@, 0, #[trigger] reset_list@[i]) by {
                lemma_occurs_extends(old_seen, seen@, 0, reset_list@[i]);
            }
        }
        let (x, y, z) = p;
        let stored = get_block(world, x, y, z);
        if block_id(stored) != 55 || meta(stored) == 0 {
            proof {
                assert forall|i: int| 0 <= i < reset_list@.len() implies reset_list@[i] != p by {
                    if reset_list@[i] == p {
                        assert(occurs_from(old_seen, 0, p));
                    }
                }
                assert(world.block_at(x as int, y as int, z as int) == w0.block_at(x as int, y as int, z as int));
                lemma_settled_unlit(w0, old_seen, p, reset_list@);
            }
            continue;
        }
        proof {
            assert(lit_dust(stored));
            assert(0 <= y < 256);
            assert forall|i: int| 0 <= i < reset_list@.len() implies reset_list@[i] != p by {
                if reset_list@[i] == p {
                    assert(world.block_at(x as int, y as int, z as int) == 55);
                }
            }
            assert(w0.block_at(x as int, y as int, z as int) == stored);
        }
        let ghost before = *world;
        let ghost old_list = reset_list@;
        let ghost old_visit = to_visit@;
        unlight_dust(world, x, y, z);
        reset_list.push(p);
        proof {
            assert forall|a: int, b: int, c: int|
                (forall|i: int| 0 <= i < reset_list@.len() ==> reset_list@[i] != (a as i32, b as i32, c as i32))
                    && i32::MIN <= a <= i32::MAX && i32::MIN <= b <= i32::MAX && i32::MIN <= c
                    <= i32::MAX implies #[trigger] world.block_at(a, b, c) == w0.block_at(a, b, c) by {
                assert(reset_list@[old_list.len() as int] == p);
                assert(forall|i: int| 0 <= i < old_list.len() ==> old_list[i] == reset_list@[i]);
                assert(before.block_at(a, b, c) == w0.block_at(a, b, c));
            }
            assert forall|i: int| 0 <= i < reset_list@.len() implies occurs_from(seen@, 0, #[trigger] reset_list@[i]) by {
                if i < old_list.len() {
                    assert(reset_list@[i] == old_list[i]);
                } else {
                    assert(seen@[seen@.len() - 1] == p);
                }
            }
        }
        push_links(&mut to_visit, &seen, p);
        proof {
            lemma_after_reset(w0, seeds@, old_visit, to_visit@, head as int, old_seen, seen@, old_list, p);
        }
    }
    proof {
        lemma_reset_closed(w0, seeds@, to_visit@, seen@, reset_list@);
    }
    reset_list
}

/// A block change: position and new stored value.
pub type Update = (i32, i32, i32, u16);

/// Block at (a, b, c) once the changes `ups` are applied in order to `w`
/// (a change outside the height range 0..256 has no effect).
pub open spec fn after_updates(w: WorldMap, ups: Seq<Update>, a: int, b: int, c: int) -> u16
    decreases ups.len(),
{
    if ups.len() == 0 {
        w.block_at(a, b, c)
    } else {
        let u = ups.last();
        if u.0 == a && u.1 == b && u.2 == c && 0 <= b < 256 {
            u.3
        } else {
            after_updates(w, ups.drop_last(), a, b, c)
        }
    }
}

/// The world `now` is `w0` with the changes `ups` applied in order.
pub open spec fn replays(now: WorldMap, w0: WorldMap, ups: Seq<Update>) -> bool {
    forall|a: i32, b: i32, c: i32|
        #[trigger] now.block_at(a as int, b as int, c as int) == after_updates(
            w0,
            ups,
            a as int,
            b as int,
            c as int,
        )
}

/// `b` is `a` with entries appended.
pub open spec fn grows<T>(a: Seq<T>, b: Seq<T>) -> bool {
    a.len() <= b.len() && forall|i: int| 0 <= i < a.len() ==> #[trigger] b[i] == a[i]
}

/// Stores `v` at (x, y, z) and records the change.
fn write(world: &mut WorldMap, ups: &mut Vec<Update>, x: i32, y: i32, z: i32, v: u16, Ghost(w0): Ghost<WorldMap>)
    requires
        old(world).wf(),
        replays(*old(world), w0, old(ups)@),
    ensures
        final(world).wf(),
        final(ups)@ == old(ups)@.push((x, y, z, v)),
        replays(*final(world), w0, final(ups)@),
        forall|a: int, b: int, c: int|
            #[trigger] final(world).block_at(a, b, c) == if a == x && b == y && c == z && 0 <= y
                < 256 {
                v
            } else {
                old(world).block_at(a, b, c)
            },
{
    set_block(world, x, y, z, v);
    ups.push((x, y, z, v));
    proof {
        assert forall|a: i32, b: i32, c: i32| #[trigger] world.block_at(a as int, b as int, c as int) == after_updates(w0, ups@, a as int, b as int, c as int) by {
            assert(ups@.drop_last() =~= old(ups)@);
        }
    }
}

/// Queues a position for a redstone update unless it is already queued
/// (from index `from` on).
pub fn schedule_update(queue: &mut Vec<Pos>, from: usize, p: Pos)
    ensures
        final(queue)@ == if occurs_from(old(queue)@, from as int, p) {
            old(queue)@
        } else {
            old(queue)@.push(p)
        },
{
    if !contains_from(queue, from, p) {
        queue.push(p);
    }
}

/// New state of a redstone component after an update: a wire takes the
/// power it receives; a torch is lit unless the block it stands on or
/// hangs from is powered (or is not opaque); a repeater switches after its
/// delay (1 to 4 ticks) to the state of its input; a comparator outputs its
/// input, minus the stronger side in subtract mode, or nothing when a side
/// is stronger in compare mode. Returns the new value now, or the value to
/// store at a later tick.
pub open spec fn component_step(w: WorldMap, x: int, y: int, z: int, stored: u16, tick: u64) -> (
    Option<u16>,
    Option<(u64, u16)>,
) {
    let block = stored_id(stored);
    let m = stored_meta(stored);
    if block == 55 {
        let p = dust_power(w, x, y, z);
        (
            if p != m {
                Some((55 + p * 4096) as u16)
            } else {
                None
            },
            None,
        )
    } else if block == 75 || block == 76 {
        let sp = if m == 5 {
            (x, y - 1, z)
        } else {
            let o = torch_support(m);
            (x + o.0, y, z + o.1)
        };
        let support = w.block_at(sp.0, sp.1, sp.2);
        let base_powered = stored_id(support) == 0 || block_powered(w, sp.0, sp.1, sp.2);
        let active = !base_powered && !transparent(stored_id(support));
        (
            if active != (block == 75) {
                Some(
                    ((if active {
                        75int
                    } else {
                        76int
                    }) + m * 4096) as u16,
                )
            } else {
                None
            },
            None,
        )
    } else if block == 93 || block == 94 {
        let f = facing_of(m);
        let input = w.block_at(x - f.0, y, z - f.1);
        let should_on = power_of(input) > 0;
        if should_on != (block == 94) {
            (
                None,
                Some(
                    (
                        (tick + (m / 4) % 4 + 1) as u64,
                        ((if should_on {
                            94int
                        } else {
                            93int
                        }) + m * 4096) as u16,
                    ),
                ),
            )
        } else {
            (None, None)
        }
    } else if block == 149 || block == 150 {
        let f = facing_of(m);
        let input_power = power_of(w.block_at(x - f.0, y, z - f.1));
        let side = max_u8(
            power_of(w.block_at(x - f.1, y, z + f.0)),
            power_of(w.block_at(x + f.1, y, z - f.0)),
        );
        let result: int = if m & 4u8 != 0 {
            if input_power >= side {
                input_power - side
            } else {
                0
            }
        } else if side > input_power {
            0
        } else {
            input_power as int
        };
        let should_on = result > 0;
        if should_on != on_bit(m) {
            (Some((block + (m % 8 + if should_on { 8int } else { 0int }) * 4096) as u16), None)
        } else {
            (None, None)
        }
    } else {
        (None, None)
    }
}

/// New state of the redstone component `stored` at (x, y, z).
pub fn eval_component(world: &WorldMap, x: i32, y: i32, z: i32, stored: u16, tick: u64) -> (r: (
    Option<u16>,
    Option<(u64, u16)>,
))
    requires
        world.wf(),
        room_around(x, y, z),
        i32::MIN + 4 <= x <= i32::MAX - 4,
        i32::MIN + 4 <= z <= i32::MAX - 4,
        tick <= u64::MAX - 8,
    ensures
        r == component_step(*world, x as int, y as int, z as int, stored, tick),
{
    let block = block_id(stored);
    let m = meta(stored);
    if block == 55 {
        let p = dust_power_input(world, x, y, z);
        if p != m {
            (Some(encode(55, p)), None)
        } else {
            (None, None)
        }
    } else if block == 75 || block == 76 {
        let (sx, sy, sz) = if m == 5 {
            (x, y - 1, z)
        } else {
            let t = m & 0x07;
            assert(t == m % 8) by (bit_vector)
                requires
                    t == m & 0x07,
            ;
            let (dx, dz): (i32, i32) = match t {
                1 => (-1, 0),
                2 => (1, 0),
                3 => (0, -1),
                4 => (0, 1),
                _ => (0, 0),
            };
            (x + dx, y, z + dz)
        };
        let support = get_block(world, sx, sy, sz);
        let support_air = block_id(support) == 0;
        let base_powered = if support_air {
            true
        } else {
            is_block_powered(world, sx, sy, sz)
        };
        let active = !base_powered && is_opaque(block_id(support));
        if active != (block == 75) {
            (Some(encode(if active { 75 } else { 76 }, m)), None)
        } else {
            (None, None)
        }
    } else if block == 93 || block == 94 {
        let (dx, dz) = facing(m);
        let input = get_block(world, x - dx, y, z - dz);
        let should_on = get_block_power(input) > 0;
        let d = (m >> 2u8) & 0x03u8;
        assert(d == (m / 4) % 4) by (bit_vector)
            requires
                d == (m >> 2u8) & 0x03u8,
        ;
        let delay: u64 = d as u64 + 1;
        if should_on != (block == 94) {
            (None, Some((tick + delay, encode(if should_on { 94 } else { 93 }, m))))
        } else {
            (None, None)
        }
    } else if block == 149 || block == 150 {
        let (dx, dz) = facing(m);
        let input_power = get_block_power(get_block(world, x - dx, y, z - dz));
        let side_a = get_block_power(get_block(world, x - dz, y, z + dx));
        let side_b = get_block_power(get_block(world, x + dz, y, z - dx));
        let side = max_of(side_a, side_b);
        let result: u8 = if m & 0x04 != 0 {
            input_power.saturating_sub(side)
        } else if side > input_power {
            0
        } else {
            input_power
        };
        let should_on = result > 0;
        if should_on != ((m & 0x08) != 0) {
            let low = m & 0x07;
            assert(low == m % 8) by (bit_vector)
                requires
                    low == m & 0x07,
            ;
            (Some(encode(block, low + if should_on { 8 } else { 0 })), None)
        } else {
            (None, None)
        }
    } else {
        (None, None)
    }
}

/// Blocks moved or switched by redstone power: doors, trapdoors, gates,
/// lamps, pistons, rails and note blocks.
pub open spec fn actuated(b: u16) -> bool {
    ||| b == 64 || b == 71 || b == 96 || b == 107 || b == 167 || b == 183 || b == 184 || b == 185
    ||| b == 186 || b == 123 || b == 124 || b == 29 || b == 33 || b == 27 || b == 28 || b == 157
    ||| b == 25
}

/// `m` with bit `bit` set or cleared.
pub open spec fn with_bit(m: u8, bit: u8, on: bool) -> u8 {
    if on {
        m | bit
    } else {
        m & !bit
    }
}

/// Changes a powered (or unpowered) neighbour at (x, y, z) asks for: a door
/// or gate opens or closes (both halves of a door), a lamp lights or goes
/// out, a piston extends or retracts, a rail switches.
pub open spec fn actuations(w: WorldMap, x: int, y: int, z: int, powered: bool) -> Seq<(int, int, int, u16)> {
    let n = w.block_at(x, y, z);
    let nb = stored_id(n);
    let nm = stored_meta(n);
    if nb == 64 || nb == 71 || nb == 96 || nb == 107 || nb == 167 || nb == 183 || nb == 184 || nb
        == 185 || nb == 186 {
        if powered != (nm & 4u8 != 0) {
            let own = seq![(x, y, z, (nb + with_bit(nm, 4, powered) * 4096) as u16)];
            if (nb == 64 || nb == 71) && nm & 8u8 == 0 && y < 255 && stored_id(w.block_at(x, y + 1, z))
                == nb {
                let tm = stored_meta(w.block_at(x, y + 1, z)) & 11u8;
                own.push((x, y + 1, z, (nb + with_bit(tm, 4, powered) * 4096) as u16))
            } else {
                own
            }
        } else {
            Seq::empty()
        }
    } else if nb == 123 {
        if powered {
            seq![(x, y, z, 124u16)]
        } else {
            Seq::empty()
        }
    } else if nb == 124 {
        if !powered {
            seq![(x, y, z, 123u16)]
        } else {
            Seq::empty()
        }
    } else if nb == 29 || nb == 33 || nb == 27 || nb == 28 || nb == 157 {
        if powered != on_bit(nm) {
            seq![(x, y, z, (nb + with_bit(nm, 8, powered) * 4096) as u16)]
        } else {
            Seq::empty()
        }
    } else {
        Seq::empty()
    }
}

/// Appends to `pending` the changes the neighbour at (x, y, z) asks for
/// (see `actuations`), its power read from the world.
pub fn actuate(world: &WorldMap, x: i32, y: i32, z: i32, pending: &mut Vec<Update>)
    requires
        world.wf(),
        room_around(x, y, z),
        i32::MIN + 4 <= x <= i32::MAX - 4,
        i32::MIN + 4 <= z <= i32::MAX - 4,
    ensures
        ({
            let acts = actuations(
                *world,
                x as int,
                y as int,
                z as int,
                block_powered(*world, x as int, y as int, z as int),
            );
            &&& final(pending)@.len() == old(pending)@.len() + acts.len()
            &&& forall|i: int| 0 <= i < old(pending)@.len() ==> final(pending)@[i] == old(pending)@[i]
            &&& forall|i: int|
                0 <= i < acts.len() ==> {
                    let e = #[trigger] final(pending)@[old(pending)@.len() + i];
                    (e.0 as int, e.1 as int, e.2 as int, e.3) == acts[i]
                }
        }),
{
    let neighbor = get_block(world, x, y, z);
    let nb = block_id(neighbor);
    let nm = meta(neighbor);
    if !matches!(nb, 64 | 71 | 96 | 107 | 167 | 183 | 184 | 185 | 186 | 123 | 124 | 29 | 33 | 27 | 28 | 157) {
        return;
    }
    let powered = is_block_powered(world, x, y, z);
    match nb {
        64 | 71 | 96 | 107 | 167 | 183 | 184 | 185 | 186 => {
            let open = (nm & 0x04) != 0;
            if powered != open {
                let new_nm = if powered { nm | 0x04 } else { nm & !0x04u8 };
                assert(new_nm < 16) by (bit_vector)
                    requires
                        new_nm == if powered { nm | 0x04 } else { nm & !0x04u8 },
                        nm < 16,
                ;
                pending.push((x, y, z, encode(nb, new_nm)));
                if (nb == 64 || nb == 71) && (nm & 0x08) == 0 && y < 255 {
                    let top = get_block(world, x, y + 1, z);
                    if block_id(top) == nb {
                        let tmeta = meta(top);
                        let tm = tmeta & 0x0B;
                        let top_open = if powered { tm | 0x04 } else { tm & !0x04u8 };
                        assert(top_open < 16) by (bit_vector)
                            requires
                                top_open == if powered { tm | 0x04 } else { tm & !0x04u8 },
                                tm == tmeta & 0x0B,
                        ;
                        pending.push((x, y + 1, z, encode(nb, top_open)));
                    }
                }
            }
        },
        123 => {
            if powered {
                pending.push((x, y, z, encode(124, 0)));
            }
        },
        124 => {
            if !powered {
                pending.push((x, y, z, encode(123, 0)));
            }
        },
        _ => {
            let active = (nm & 0x08) != 0;
            if powered != active {
                let new_nm = if powered { nm | 0x08 } else { nm & !0x08u8 };
                assert(new_nm < 16) by (bit_vector)
                    requires
                        new_nm == if powered { nm | 0x08 } else { nm & !0x08u8 },
                        nm < 16,
                ;
                pending.push((x, y, z, encode(nb, new_nm)));
            }
        },
    }
}


/// Positions far enough from the ends of the i32 range for a tick to look
/// around them (a piston looks up to 14 blocks ahead).
pub open spec fn tick_safe(p: Pos) -> bool {
    &&& i32::MIN + 32 <= p.0 <= i32::MAX - 32
    &&& i32::MIN + 32 <= p.1 <= i32::MAX - 32
    &&& i32::MIN + 32 <= p.2 <= i32::MAX - 32
}

/// Positions around which an actuation (a piston push) may look.
pub open spec fn act_safe(p: Pos) -> bool {
    &&& i32::MIN + 16 <= p.0 <= i32::MAX - 16
    &&& i32::MIN + 16 <= p.1 <= i32::MAX - 16
    &&& i32::MIN + 16 <= p.2 <= i32::MAX - 16
}

fn is_tick_safe(p: Pos) -> (r: bool)
    ensures
        r == tick_safe(p),
{
    let lo: i32 = i32::MIN + 32;
    let hi: i32 = i32::MAX - 32;
    lo <= p.0 && p.0 <= hi && lo <= p.1 && p.1 <= hi && lo <= p.2 && p.2 <= hi
}

fn is_act_safe(p: Pos) -> (r: bool)
    ensures
        r == act_safe(p),
{
    let lo: i32 = i32::MIN + 16;
    let hi: i32 = i32::MAX - 16;
    lo <= p.0 && p.0 <= hi && lo <= p.1 && p.1 <= hi && lo <= p.2 && p.2 <= hi
}

/// What a notification adds: one update to air per block it breaks, in
/// the same order as the broken blocks.
pub open spec fn notified(ups: Seq<Update>, ups2: Seq<Update>, broken: Seq<Update>, broken2: Seq<Update>) -> bool {
    &&& grows(ups, ups2)
    &&& grows(broken, broken2)
    &&& ups2.len() - ups.len() == broken2.len() - broken.len()
    &&& forall|k: int|
        0 <= k < broken2.len() - broken.len() ==> #[trigger] ups2[ups.len() + k] == (
            broken2[broken.len() + k].0,
            broken2[broken.len() + k].1,
            broken2[broken.len() + k].2,
            0u16,
        )
}

/// Every broken block `broken[i]` was sent as air: `ups[at[i]]` is its
/// position with value 0.
#[verifier::opaque]
spec fn broken_sent(ups: Seq<Update>, broken: Seq<Update>, at: Seq<int>) -> bool {
    &&& at.len() == broken.len()
    &&& forall|i: int|
        0 <= i < broken.len() ==> 0 <= #[trigger] at[i] < ups.len() && ups[at[i]] == (broken[i].0, broken[i].1, broken[i].2, 0u16)
}

proof fn lemma_sent_grows(ups: Seq<Update>, ups2: Seq<Update>, broken: Seq<Update>, at: Seq<int>)
    requires
        broken_sent(ups, broken, at),
        grows(ups, ups2),
    ensures
        broken_sent(ups2, broken, at),
{
    reveal(broken_sent);
    assert forall|i: int| 0 <= i < broken.len() implies 0 <= #[trigger] at[i] < ups2.len() && ups2[at[i]] == (broken[i].0, broken[i].1, broken[i].2, 0u16) by {
        assert(ups2[at[i]] == ups[at[i]]);
    }
}

proof fn lemma_sent_notified(ups: Seq<Update>, ups2: Seq<Update>, broken: Seq<Update>, broken2: Seq<Update>, at: Seq<int>) -> (at2: Seq<int>)
    requires
        broken_sent(ups, broken, at),
        notified(ups, ups2, broken, broken2),
    ensures
        broken_sent(ups2, broken2, at2),
{
    reveal(broken_sent);
    let n = broken2.len() - broken.len();
    let at2 = at + Seq::new(n as nat, |k: int| ups.len() + k);
    assert forall|i: int| 0 <= i < broken2.len() implies 0 <= #[trigger] at2[i] < ups2.len() && ups2[at2[i]] == (broken2[i].0, broken2[i].1, broken2[i].2, 0u16) by {
        if i < broken.len() {
            assert(at2[i] == at[i]);
            assert(ups2[at[i]] == ups[at[i]]);
            assert(broken2[i] == broken[i]);
        } else {
            let k = i - broken.len();
            assert(at2[i] == ups.len() + k);
            assert(ups2[ups.len() + k] == (broken2[broken.len() + k].0, broken2[broken.len() + k].1, broken2[broken.len() + k].2, 0u16));
        }
    }
    at2
}

/// The same changes turned to air.
pub open spec fn as_air(es: Seq<Update>) -> Seq<Update> {
    es.map_values(|e: Update| (e.0, e.1, e.2, 0u16))
}

/// The positions of the changes.
pub open spec fn places(es: Seq<Update>) -> Seq<Pos> {
    es.map_values(|e: Update| (e.0, e.1, e.2))
}

/// Queue `q` once the positions `ps` are scheduled in order, each added
/// unless already queued.
pub open spec fn queued_after(q: Seq<Pos>, ps: Seq<Pos>) -> Seq<Pos>
    decreases ps.len(),
{
    if ps.len() == 0 {
        q
    } else {
        let q1 = queued_after(q, ps.drop_last());
        if occurs_from(q1, 0, ps.last()) {
            q1
        } else {
            q1.push(ps.last())
        }
    }
}

/// Applying changes to air at the positions of `s` after `ups`: air where
/// `s` lists the position (within the height range), the block after `ups`
/// elsewhere.
proof fn lemma_after_air(w0: WorldMap, ups: Seq<Update>, s: Seq<Update>, a: int, b: int, c: int)
    ensures
        after_updates(w0, ups + as_air(s), a, b, c) == if listed_in(s, s.len() as int, a, b, c) && 0 <= b < 256 {
            0u16
        } else {
            after_updates(w0, ups, a, b, c)
        },
    decreases s.len(),
{
    if s.len() > 0 {
        let s1 = s.drop_last();
        lemma_after_air(w0, ups, s1, a, b, c);
        assert((ups + as_air(s)).drop_last() =~= ups + as_air(s1));
        assert((ups + as_air(s)).last() == (s.last().0, s.last().1, s.last().2, 0u16));
        if listed_in(s1, s1.len() as int, a, b, c) {
            let t = choose|t: int| 0 <= t < s1.len() && s1[t].0 == a && s1[t].1 == b && s1[t].2 == c;
            assert(s[t] == s1[t]);
        }
        if listed_in(s, s.len() as int, a, b, c) {
            let t = choose|t: int| 0 <= t < s.len() && s[t].0 == a && s[t].1 == b && s[t].2 == c;
            if t < s1.len() {
                assert(s1[t] == s[t]);
            }
        }
    } else {
        assert(ups + as_air(s) =~= ups);
    }
}

/// Breaks in cascade what lost its support around `p` (see
/// `break_unsupported`), recording each broken block as a change to air
/// and among the broken blocks, and queueing its position for an update.
fn notify(
    world: &mut WorldMap,
    ups: &mut Vec<Update>,
    broken: &mut Vec<Update>,
    next: &mut Vec<Pos>,
    p: Pos,
    Ghost(w0): Ghost<WorldMap>,
)
    requires
        old(world).wf(),
        replays(*old(world), w0, old(ups)@),
        act_safe(p),
    ensures
        final(world).wf(),
        replays(*final(world), w0, final(ups)@),
        notified(old(ups)@, final(ups)@, old(broken)@, final(broken)@),
        ({
            let r = final(broken)@.skip(old(broken)@.len() as int);
            &&& cascade_ok(*old(world), p.0, p.1, p.2, r)
            &&& forall|j: int|
                0 <= j <= r.len() ==> {
                    let c = #[trigger] cascade_center(p.0, p.1, p.2, r, j);
                    cascade_safe(c.0 as int, c.1 as int, c.2 as int) ==> settled(*final(world), c.0 as int, c.1 as int, c.2 as int)
                }
            &&& final(ups)@ == old(ups)@ + as_air(r)
            &&& final(next)@ == queued_after(old(next)@, places(r))
        }),
        grows(old(next)@, final(next)@),
{
    let ghost wold = *world;
    let list = break_unsupported(world, p.0, p.1, p.2);
    let ghost wbroken = *world;
    let ghost all = list@;
    let mut i: usize = 0;
    while i < list.len()
        invariant
            world.wf(),
            *world == wbroken,
            notified(old(ups)@, ups@, old(broken)@, broken@),
            list@ == all,
            i <= list@.len(),
            broken@ == old(broken)@ + all.take(i as int),
            ups@ == old(ups)@ + as_air(all.take(i as int)),
            next@ == queued_after(old(next)@, places(all.take(i as int))),
            grows(old(next)@, next@),
        decreases list@.len() - i,
    {
        let e = list[i];
        let ghost (u0, b0) = (ups@, broken@);
        ups.push((e.0, e.1, e.2, 0));
        broken.push(e);
        proof {
            let (ou, ob) = (old(ups)@, old(broken)@);
            assert forall|k: int|
                0 <= k < broken@.len() - ob.len() implies #[trigger] ups@[ou.len() + k] == (
                    broken@[ob.len() + k].0,
                    broken@[ob.len() + k].1,
                    broken@[ob.len() + k].2,
                    0u16,
                ) by {
                if k < b0.len() - ob.len() {
                    assert(ups@[ou.len() + k] == u0[ou.len() + k]);
                    assert(broken@[ob.len() + k] == b0[ob.len() + k]);
                }
            }
        }
        schedule_update(next, 0, (e.0, e.1, e.2));
        proof {
            let t = all.take(i + 1);
            assert(t.drop_last() =~= all.take(i as int));
            assert(places(t).drop_last() =~= places(all.take(i as int)));
            assert(places(t).last() == (e.0, e.1, e.2));
            assert(broken@ =~= old(broken)@ + t);
            assert(ups@ =~= old(ups)@ + as_air(t));
        }
        i += 1;
    }
    proof {
        assert(all.take(i as int) =~= all);
        assert(broken@.skip(old(broken)@.len() as int) =~= all);
        assert forall|a: i32, b: i32, c: i32| #[trigger] world.block_at(a as int, b as int, c as int) == after_updates(
            w0,
            ups@,
            a as int,
            b as int,
            c as int,
        ) by {
            lemma_after_air(w0, old(ups)@, all, a as int, b as int, c as int);
            assert(wold.block_at(a as int, b as int, c as int) == after_updates(w0, old(ups)@, a as int, b as int, c as int));
            if listed_in(all, all.len() as int, a as int, b as int, c as int) {
                let t = choose|t: int| 0 <= t < all.len() && all[t].0 == a && all[t].1 == b && all[t].2 == c;
                assert(cascade_entry(wold, p.0, p.1, p.2, all, t));
            }
        }
    }
}

/// Coordinate `k` steps from `v` in direction `d` (-1, 0 or 1).
pub open spec fn along(v: i32, d: i32, k: int) -> int {
    if d > 0 {
        v + k
    } else if d < 0 {
        v - k
    } else {
        v as int
    }
}

/// Position `k` steps from `p` in direction `d`.
pub open spec fn steps(p: Pos, d: (i32, i32, i32), k: int) -> Pos {
    (along(p.0, d.0, k) as i32, along(p.1, d.1, k) as i32, along(p.2, d.2, k) as i32)
}

fn step(p: Pos, d: (i32, i32, i32), k: i32) -> (r: Pos)
    requires
        -1 <= d.0 <= 1,
        -1 <= d.1 <= 1,
        -1 <= d.2 <= 1,
        0 <= k <= 15,
        act_safe(p),
    ensures
        r == steps(p, d, k as int),
{
    let a = if d.0 > 0 { p.0 + k } else if d.0 < 0 { p.0 - k } else { p.0 };
    let b = if d.1 > 0 { p.1 + k } else if d.1 < 0 { p.1 - k } else { p.1 };
    let c = if d.2 > 0 { p.2 + k } else if d.2 < 0 { p.2 - k } else { p.2 };
    (a, b, c)
}

/// Applying `a` then `s` to `w0` reads, at i32 positions, as applying `s`
/// to the world `w` that `a` gave.
proof fn lemma_after_split(w0: WorldMap, w: WorldMap, a: Seq<Update>, s: Seq<Update>, x: i32, y: i32, z: i32)
    requires
        replays(w, w0, a),
    ensures
        after_updates(w0, a + s, x as int, y as int, z as int) == after_updates(w, s, x as int, y as int, z as int),
    decreases s.len(),
{
    if s.len() == 0 {
        assert(a + s =~= a);
        assert(w.block_at(x as int, y as int, z as int) == after_updates(w0, a, x as int, y as int, z as int));
    } else {
        assert((a + s).drop_last() =~= a + s.drop_last());
        assert((a + s).last() == s.last());
        lemma_after_split(w0, w, a, s.drop_last(), x, y, z);
    }
}

/// Row ahead of a piston at `pos` facing `d`, from step `k` on, in `w` with
/// the changes `s` applied: how many movable blocks precede the first air
/// or immovable block (at most 12), and whether air ends the row.
pub open spec fn push_row(w: WorldMap, s: Seq<Update>, pos: Pos, d: (i32, i32, i32), k: int) -> (int, bool)
    decreases 14 - k,
{
    if k > 13 {
        (k - 1, false)
    } else {
        let q = steps(pos, d, k);
        let b = stored_id(after_updates(w, s, q.0 as int, q.1 as int, q.2 as int));
        if b == 0 {
            (k - 1, true)
        } else if immovable(b) || k - 1 == 12 {
            (k - 1, false)
        } else {
            push_row(w, s, pos, d, k + 1)
        }
    }
}

/// The moves of a push of the first `n` blocks ahead of `pos`, the farthest
/// first: the block `i` steps ahead goes to step `i + 1`.
pub open spec fn push_moves(w: WorldMap, s: Seq<Update>, pos: Pos, d: (i32, i32, i32), n: int) -> Seq<Update>
    decreases n,
{
    if n <= 0 {
        Seq::empty()
    } else {
        let from = steps(pos, d, n);
        let to = steps(pos, d, n + 1);
        seq![(to.0, to.1, to.2, after_updates(w, s, from.0 as int, from.1 as int, from.2 as int))] + push_moves(
            w,
            s,
            pos,
            d,
            n - 1,
        )
    }
}

/// The changes that storing the actuation `u` in `w` makes, in order: `u`
/// itself, then for a piston (29 sticky, 33 plain) facing `d`:
/// - extending, with air at the end of the row ahead (at most 12 movable
///   blocks): the row moves one step, farthest first, and the head (34,
///   sticky bit 8) takes the first step; otherwise the piston is stored
///   retracted;
/// - retracting: a head in front is removed, and a sticky piston pulls the
///   movable block two steps ahead into the freed place.
pub open spec fn actuation_writes(w: WorldMap, u: Update) -> Seq<Update> {
    let s1 = seq![u];
    let piston = stored_id(u.3);
    let pm = stored_meta(u.3);
    let pos = (u.0, u.1, u.2);
    let d = piston_dir(pm);
    let head = steps(pos, d, 1);
    if !(piston == 29 || piston == 33) {
        s1
    } else if pm & 8u8 != 0 {
        let row = push_row(w, s1, pos, d, 1);
        if row.1 {
            s1 + push_moves(w, s1, pos, d, row.0) + seq![
                (head.0, head.1, head.2, (34 + ((pm & 7u8) + if piston == 29 {
                    8int
                } else {
                    0int
                }) * 4096) as u16),
            ]
        } else {
            s1.push((u.0, u.1, u.2, (piston + (pm & !8u8) * 4096) as u16))
        }
    } else {
        let s2 = if stored_id(after_updates(w, s1, head.0 as int, head.1 as int, head.2 as int)) == 34 {
            s1.push((head.0, head.1, head.2, 0u16))
        } else {
            s1
        };
        let far = steps(pos, d, 2);
        let pulled = after_updates(w, s2, far.0 as int, far.1 as int, far.2 as int);
        if piston == 29 && !immovable(stored_id(pulled)) && stored_id(
            after_updates(w, s2, head.0 as int, head.1 as int, head.2 as int),
        ) == 0 {
            s2.push((far.0, far.1, far.2, 0u16)).push((head.0, head.1, head.2, pulled))
        } else {
            s2
        }
    }
}

/// Stores an actuation and moves what a piston pushes or pulls: an
/// extending piston pushes up to 12 movable blocks ahead of it when there
/// is air behind them (else it stays retracted), and a retracting piston
/// removes its head, a sticky one pulling back the movable block in front.
fn apply_actuation(world: &mut WorldMap, ups: &mut Vec<Update>, u: Update, Ghost(w0): Ghost<WorldMap>)
    requires
        old(world).wf(),
        replays(*old(world), w0, old(ups)@),
        act_safe((u.0, u.1, u.2)),
    ensures
        final(world).wf(),
        replays(*final(world), w0, final(ups)@),
        grows(old(ups)@, final(ups)@),
        final(ups)@ == old(ups)@ + actuation_writes(*old(world), u),
{
    let ghost wold = *world;
    let ghost ou = old(ups)@;
    let ghost s1 = seq![u];
    let (x, y, z, ns) = u;
    let pos: Pos = (x, y, z);
    write(world, ups, x, y, z, ns, Ghost(w0));
    assert(ups@ =~= ou + s1);
    let piston = block_id(ns);
    if !(piston == 29 || piston == 33) {
        return;
    }
    let pm = meta(ns);
    let d = piston_offset(pm);
    let head = step(pos, d, 1);
    if pm & 0x08 != 0 {
        let mut chain: Vec<(Pos, u16)> = Vec::new();
        let mut k: i32 = 1;
        let mut has_space = false;
        let mut stop = false;
        while !stop && k <= 13
            invariant
                !stop ==> push_row(wold, s1, pos, d, 1) == push_row(wold, s1, pos, d, k as int),
                stop && has_space ==> push_row(wold, s1, pos, d, 1) == (chain@.len() as int, true),
                stop && !has_space ==> !push_row(wold, s1, pos, d, 1).1,
                !stop ==> !has_space,
                1 <= k <= 14,
                chain@.len() == k - 1,
                chain@.len() <= 12,
                world.wf(),
                act_safe(pos),
                -1 <= d.0 <= 1,
                -1 <= d.1 <= 1,
                -1 <= d.2 <= 1,
                replays(*world, w0, ups@),
                replays(wold, w0, ou),
                ups@ == ou + s1,
                forall|i: int| 0 <= i < chain@.len() ==> #[trigger] chain@[i].0 == steps(pos, d, i + 1),
                forall|i: int|
                    0 <= i < chain@.len() ==> #[trigger] chain@[i].1 == after_updates(
                        wold,
                        s1,
                        steps(pos, d, i + 1).0 as int,
                        steps(pos, d, i + 1).1 as int,
                        steps(pos, d, i + 1).2 as int,
                    ),
            decreases 14 - k + if stop {
                0int
            } else {
                1int
            },
        {
            let cursor = step(pos, d, k);
            let current = get_block(world, cursor.0, cursor.1, cursor.2);
            proof {
                lemma_after_split(w0, wold, ou, s1, cursor.0, cursor.1, cursor.2);
                assert(current == after_updates(wold, s1, cursor.0 as int, cursor.1 as int, cursor.2 as int));
            }
            if block_id(current) == 0 {
                has_space = true;
                stop = true;
            } else if !piston_pushable(block_id(current)) || chain.len() == 12 {
                stop = true;
            } else {
                chain.push((cursor, current));
                k += 1;
            }
        }
        if has_space {
            let ghost n = chain@.len() as int;
            let mut i = chain.len();
            while i > 0
                invariant
                    i <= chain@.len(),
                    n == chain@.len(),
                    chain@.len() <= 12,
                    world.wf(),
                    replays(*world, w0, ups@),
                    grows(old(ups)@, ups@),
                    act_safe(pos),
                    -1 <= d.0 <= 1,
                    -1 <= d.1 <= 1,
                    -1 <= d.2 <= 1,
                    forall|j: int| 0 <= j < chain@.len() ==> #[trigger] chain@[j].0 == steps(pos, d, j + 1),
                    forall|j: int|
                        0 <= j < chain@.len() ==> #[trigger] chain@[j].1 == after_updates(
                            wold,
                            s1,
                            steps(pos, d, j + 1).0 as int,
                            steps(pos, d, j + 1).1 as int,
                            steps(pos, d, j + 1).2 as int,
                        ),
                    ups@ + push_moves(wold, s1, pos, d, i as int) == ou + s1 + push_moves(wold, s1, pos, d, n),
                decreases i,
            {
                i -= 1;
                let (_, moved) = chain[i];
                let dest = step(pos, d, (i + 2) as i32);
                let ghost before = ups@;
                write(world, ups, dest.0, dest.1, dest.2, moved, Ghost(w0));
                proof {
                    let rest = push_moves(wold, s1, pos, d, i as int);
                    let m = (dest.0, dest.1, dest.2, moved);
                    assert(push_moves(wold, s1, pos, d, i + 1) == seq![m] + rest);
                    assert(ups@ + rest =~= before + (seq![m] + rest));
                }
            }
            let low = pm & 0x07;
            assert(low < 8 && low == pm % 8) by (bit_vector)
                requires
                    low == pm & 0x07,
            ;
            let head_meta = low + if piston == 29 { 8 } else { 0 };
            let ghost before = ups@;
            write(world, ups, head.0, head.1, head.2, encode(34, head_meta), Ghost(w0));
            proof {
                assert(pm & 7u8 == pm % 8) by (bit_vector);
                assert(before =~= ou + s1 + push_moves(wold, s1, pos, d, n));
                assert(ups@ =~= ou + actuation_writes(wold, u));
            }
        } else {
            let retracted_meta = pm & !0x08u8;
            assert(retracted_meta < 16) by (bit_vector)
                requires
                    retracted_meta == pm & !0x08u8,
                    pm < 16,
            ;
            write(world, ups, x, y, z, encode(piston, retracted_meta), Ghost(w0));
            assert(ups@ =~= ou + actuation_writes(wold, u));
        }
    } else {
        let ghost mut s2 = s1;
        let h = get_block(world, head.0, head.1, head.2);
        proof {
            lemma_after_split(w0, wold, ou, s1, head.0, head.1, head.2);
        }
        if block_id(h) == 34 {
            write(world, ups, head.0, head.1, head.2, 0, Ghost(w0));
            proof {
                s2 = s1.push((head.0, head.1, head.2, 0u16));
            }
        }
        assert(ups@ =~= ou + s2);
        if piston == 29 {
            let distant = step(pos, d, 2);
            let pulled = get_block(world, distant.0, distant.1, distant.2);
            proof {
                lemma_after_split(w0, wold, ou, s2, distant.0, distant.1, distant.2);
            }
            let hb = get_block(world, head.0, head.1, head.2);
            proof {
                lemma_after_split(w0, wold, ou, s2, head.0, head.1, head.2);
            }
            if piston_pushable(block_id(pulled)) && block_id(hb) == 0 {
                write(world, ups, distant.0, distant.1, distant.2, 0, Ghost(w0));
                write(world, ups, head.0, head.1, head.2, pulled, Ghost(w0));
            }
        }
        assert(ups@ =~= ou + actuation_writes(wold, u));
    }
}

/// World coordinates of cell `i` of chunk (cx, cz), when they are i32.
fn cell_position(cx: i32, cz: i32, i: usize) -> (r: Option<Pos>)
    requires
        i < 65536,
    ensures
        match r {
            Some(p) => p.0 == cell_x(cx, i as int) && p.1 == cell_y(i as int) && p.2 == cell_z(cz, i as int),
            None => !(i32::MIN <= cell_x(cx, i as int) <= i32::MAX && i32::MIN <= cell_z(cz, i as int) <= i32::MAX),
        },
{
    let x: i64 = cx as i64 * 16 + (i % 16) as i64;
    let z: i64 = cz as i64 * 16 + ((i / 16) % 16) as i64;
    let y: i64 = (i / 256) as i64;
    if x < i32::MIN as i64 || x > i32::MAX as i64 || z < i32::MIN as i64 || z > i32::MAX as i64 {
        None
    } else {
        Some((x as i32, y as i32, z as i32))
    }
}

/// Whether a position is in a list.
fn listed_pos(v: &[Pos], p: Pos) -> (r: bool)
    ensures
        r == v@.contains(p),
{
    let mut i: usize = 0;
    while i < v.len()
        invariant
            i <= v@.len(),
            forall|j: int| 0 <= j < i ==> v@[j] != p,
        decreases v@.len() - i,
    {
        if v[i].0 == p.0 && v[i].1 == p.1 && v[i].2 == p.2 {
            assert(v@[i as int] == p);
            return true;
        }
        i += 1;
    }
    false
}

/// Stored value of pressure plate `stored` once pressed or released:
/// metadata 1 while pressed, 0 otherwise.
pub open spec fn plate_state(stored: u16, pressed: bool) -> u16 {
    (stored_id(stored) + if pressed {
        4096int
    } else {
        0int
    }) as u16
}

/// The new value of the pressure plate at (a, b, c) in `w` when its state
/// does not match whether a player stands on it (`occupied`).
pub open spec fn plate_change(w: WorldMap, occupied: Seq<Pos>, a: i32, b: i32, c: i32) -> Option<u16> {
    let v = w.block_at(a as int, b as int, c as int);
    let nv = plate_state(v, occupied.contains((a, b, c)));
    if spec_is_plate(v) && nv != v {
        Some(nv)
    } else {
        None
    }
}

/// Every pressure plate of `w` that changes state has its new value among
/// the changes `ups`.
pub open spec fn plates_sent(w: WorldMap, occupied: Seq<Pos>, ups: Seq<Update>) -> bool {
    forall|a: i32, b: i32, c: i32|
        #[trigger] plate_change(w, occupied, a, b, c) is Some ==> exists|j: int|
            0 <= j < ups.len() && #[trigger] ups[j] == (a, b, c, plate_change(w, occupied, a, b, c)->0)
}

/// Whether chunk column (chunk_of(a), chunk_of(c)) is among the first `n`
/// of `ps`.
spec fn chunk_listed(ps: Seq<(i32, i32)>, n: int, a: int, c: int) -> bool {
    exists|i: int| 0 <= i < n && #[trigger] ps[i] == (chunk_of(a) as i32, chunk_of(c) as i32)
}

/// Whether `u` sets pressure plate `before` to a new state: the same plate
/// with other metadata.
pub open spec fn plate_reset(before: u16, u: u16) -> bool {
    spec_is_plate(before) && spec_is_plate(u) && stored_id(u) == stored_id(before)
}

/// The changes of the pressure plates of chunk (cx, cz).
fn plate_changes_in(world: &WorldMap, cx: i32, cz: i32, occupied: &[Pos]) -> (changes: Vec<Update>)
    requires
        world.wf(),
    ensures
        forall|k: int|
            0 <= k < changes@.len() ==> in_buffer(
                cx,
                cz,
                #[trigger] changes@[k].0 as int,
                changes@[k].1 as int,
                changes@[k].2 as int,
            ),
        forall|a: i32, b: i32, c: i32|
            in_chunk(cx, cz, a as int, c as int) && #[trigger] plate_change(*world, occupied@, a, b, c) is Some
                ==> exists|k: int|
                0 <= k < changes@.len() && #[trigger] changes@[k] == (a, b, c, plate_change(*world, occupied@, a, b, c)->0),
        forall|k: int|
            0 <= k < changes@.len() ==> plate_reset(
                world.block_at(#[trigger] changes@[k].0 as int, changes@[k].1 as int, changes@[k].2 as int),
                changes@[k].3,
            ),
        forall|k1: int, k2: int|
            0 <= k1 < k2 < changes@.len() ==> world_cell(#[trigger] changes@[k1].0 as int, changes@[k1].1 as int, changes@[k1].2 as int)
                < world_cell(#[trigger] changes@[k2].0 as int, changes@[k2].1 as int, changes@[k2].2 as int),
{
    let mut changes: Vec<Update> = Vec::new();
    match world.get_chunk(cx, cz) {
        Some(chunk) => {
            if chunk.has_plates {
                let mut i: usize = 0;
                while i < 65536
                    invariant
                        chunk.wf(),
                        world.wf(),
                        world.chunk_at(cx as int, cz as int) == Some(*chunk),
                        i <= 65536,
                        forall|k: int|
                            0 <= k < changes@.len() ==> in_buffer(
                                cx,
                                cz,
                                #[trigger] changes@[k].0 as int,
                                changes@[k].1 as int,
                                changes@[k].2 as int,
                            ),
                        forall|a: i32, b: i32, c: i32|
                            in_buffer(cx, cz, a as int, b as int, c as int) && world_cell(a as int, b as int, c as int) < i
                                && #[trigger] plate_change(*world, occupied@, a, b, c) is Some ==> exists|k: int|
                                0 <= k < changes@.len() && #[trigger] changes@[k] == (a, b, c, plate_change(*world, occupied@, a, b, c)->0),
                        forall|k: int|
                            0 <= k < changes@.len() ==> plate_reset(
                                world.block_at(#[trigger] changes@[k].0 as int, changes@[k].1 as int, changes@[k].2 as int),
                                changes@[k].3,
                            ),
                        forall|k: int|
                            0 <= k < changes@.len() ==> world_cell(#[trigger] changes@[k].0 as int, changes@[k].1 as int, changes@[k].2 as int) < i,
                        forall|k1: int, k2: int|
                            0 <= k1 < k2 < changes@.len() ==> world_cell(#[trigger] changes@[k1].0 as int, changes@[k1].1 as int, changes@[k1].2 as int)
                                < world_cell(#[trigger] changes@[k2].0 as int, changes@[k2].1 as int, changes@[k2].2 as int),
                    decreases 65536 - i,
                {
                    let v = chunk.blocks[i];
                    let ghost before = changes@;
                    if is_plate(v) {
                        if let Some(pos) = cell_position(cx, cz, i) {
                            let powered = listed_pos(occupied, pos);
                            let nv = encode(block_id(v), if powered { 1 } else { 0 });
                            proof {
                                lemma_cell_at(cx, cz, i as int, pos.0 as int, pos.1 as int, pos.2 as int);
                                assert(world.block_at(pos.0 as int, pos.1 as int, pos.2 as int) == v);
                                assert(nv == plate_state(v, occupied@.contains(pos)));
                            }
                            if nv != v {
                                changes.push((pos.0, pos.1, pos.2, nv));
                                proof {
                                    assert(changes@[before.len() as int] == (pos.0, pos.1, pos.2, nv));
                                    assert(world_cell(pos.0 as int, pos.1 as int, pos.2 as int) == i);
                                    assert(spec_is_plate(nv) && stored_id(nv) == stored_id(v)) by {
                                        assert(stored_id(v) < 4096);
                                    }
                                    assert forall|k: int| 0 <= k < changes@.len() implies plate_reset(
                                        world.block_at(#[trigger] changes@[k].0 as int, changes@[k].1 as int, changes@[k].2 as int),
                                        changes@[k].3,
                                    ) by {
                                        if k < before.len() {
                                            assert(changes@[k] == before[k]);
                                        }
                                    }
                                    assert forall|k: int| 0 <= k < changes@.len() implies world_cell(#[trigger] changes@[k].0 as int, changes@[k].1 as int, changes@[k].2 as int) < i + 1 by {
                                        if k < before.len() {
                                            assert(changes@[k] == before[k]);
                                        }
                                    }
                                    assert forall|k1: int, k2: int|
                                        0 <= k1 < k2 < changes@.len() implies world_cell(#[trigger] changes@[k1].0 as int, changes@[k1].1 as int, changes@[k1].2 as int)
                                            < world_cell(#[trigger] changes@[k2].0 as int, changes@[k2].1 as int, changes@[k2].2 as int) by {
                                        assert(changes@[k1] == before[k1]);
                                        if k2 < before.len() {
                                            assert(changes@[k2] == before[k2]);
                                        }
                                    }
                                }
                            }
                        }
                    }
                    proof {
                        assert forall|a: i32, b: i32, c: i32|
                            in_buffer(cx, cz, a as int, b as int, c as int) && world_cell(a as int, b as int, c as int) < i + 1
                                && #[trigger] plate_change(*world, occupied@, a, b, c) is Some implies exists|k: int|
                                0 <= k < changes@.len() && #[trigger] changes@[k] == (a, b, c, plate_change(*world, occupied@, a, b, c)->0) by {
                            if world_cell(a as int, b as int, c as int) < i {
                                let k = choose|k: int| 0 <= k < before.len() && #[trigger] before[k] == (a, b, c, plate_change(*world, occupied@, a, b, c)->0);
                                assert(changes@[k] == before[k]);
                            } else {
                                lemma_cell_at(cx, cz, i as int, a as int, b as int, c as int);
                                assert(world.block_at(a as int, b as int, c as int) == v);
                                assert(changes@[before.len() as int] == (a, b, c, plate_change(*world, occupied@, a, b, c)->0));
                            }
                        }
                    }
                    i += 1;
                }
                proof {
                    assert forall|a: i32, b: i32, c: i32|
                        in_chunk(cx, cz, a as int, c as int) && #[trigger] plate_change(*world, occupied@, a, b, c) is Some implies exists|k: int|
                            0 <= k < changes@.len() && #[trigger] changes@[k] == (a, b, c, plate_change(*world, occupied@, a, b, c)->0) by {
                        lemma_cell_at(cx, cz, world_cell(a as int, b as int, c as int), a as int, b as int, c as int);
                    }
                }
            } else {
                proof {
                    assert forall|a: i32, b: i32, c: i32|
                        in_chunk(cx, cz, a as int, c as int) implies !(#[trigger] plate_change(*world, occupied@, a, b, c) is Some) by {
                        if 0 <= b < 256 {
                            let k = world_cell(a as int, b as int, c as int);
                            lemma_cell_at(cx, cz, 0, a as int, b as int, c as int);
                            assert(0 <= k < 65536);
                            assert(world.block_at(a as int, b as int, c as int) == chunk.blocks@[k]);
                        }
                    }
                }
            }
        },
        None => {},
    }
    changes
}

/// Pressure plates are on (metadata 1) while a player stands on them and
/// off (0) otherwise: updates every plate of the chunks that hold plates,
/// recording the changes and queueing the changed plates.
fn update_plates(
    world: &mut WorldMap,
    ups: &mut Vec<Update>,
    occupied: &[Pos],
    next: &mut Vec<Pos>,
    Ghost(w0): Ghost<WorldMap>,
)
    requires
        old(world).wf(),
        replays(*old(world), w0, old(ups)@),
    ensures
        final(world).wf(),
        replays(*final(world), w0, final(ups)@),
        grows(old(ups)@, final(ups)@),
        plates_sent(*old(world), occupied@, final(ups)@),
        grows(old(next)@, final(next)@),
        forall|t: int|
            old(ups)@.len() <= t < final(ups)@.len() ==> plate_reset(
                after_updates(w0, final(ups)@.take(t), #[trigger] final(ups)@[t].0 as int, final(ups)@[t].1 as int, final(ups)@[t].2 as int),
                final(ups)@[t].3,
            ),
{
    let ghost ws = *world;
    let ghost u_start = ups@;
    let mut ps: Vec<(i32, i32)> = Vec::new();
    let n = world.positions().len();
    let mut k: usize = 0;
    while k < n
        invariant
            world.wf(),
            *world == ws,
            n == world.chunk_positions().len(),
            k <= n,
            ps@ == world.chunk_positions().subrange(0, k as int),
        decreases n - k,
    {
        let p = world.positions()[k];
        ps.push(p);
        k += 1;
        assert(ps@ =~= world.chunk_positions().subrange(0, k as int));
    }
    proof {
        assert(ps@ =~= ws.chunk_positions());
    }
    let mut c: usize = 0;
    while c < ps.len()
        invariant
            world.wf(),
            replays(*world, w0, ups@),
            grows(u_start, ups@),
            grows(old(next)@, next@),
            forall|t: int|
                u_start.len() <= t < ups@.len() ==> plate_reset(
                    after_updates(w0, ups@.take(t), #[trigger] ups@[t].0 as int, ups@[t].1 as int, ups@[t].2 as int),
                    ups@[t].3,
                ),
            c <= ps@.len(),
            forall|a: i32, b: i32, cc: i32|
                !chunk_listed(ps@, c as int, a as int, cc as int) ==> #[trigger] world.block_at(a as int, b as int, cc as int)
                    == ws.block_at(a as int, b as int, cc as int),
            forall|a: i32, b: i32, cc: i32|
                chunk_listed(ps@, c as int, a as int, cc as int) && #[trigger] plate_change(ws, occupied@, a, b, cc) is Some
                    ==> exists|j: int|
                    0 <= j < ups@.len() && #[trigger] ups@[j] == (a, b, cc, plate_change(ws, occupied@, a, b, cc)->0),
        decreases ps@.len() - c,
    {
        let (cx, cz) = ps[c];
        let changes = plate_changes_in(world, cx, cz, occupied);
        let ghost wc = *world;
        let ghost uc = ups@;
        let mut j: usize = 0;
        while j < changes.len()
            invariant
                world.wf(),
                replays(*world, w0, ups@),
                grows(uc, ups@),
                grows(old(next)@, next@),
                u_start.len() <= uc.len(),
                forall|t: int|
                    u_start.len() <= t < ups@.len() ==> plate_reset(
                        after_updates(w0, ups@.take(t), #[trigger] ups@[t].0 as int, ups@[t].1 as int, ups@[t].2 as int),
                        ups@[t].3,
                    ),
                forall|k: int|
                    0 <= k < changes@.len() ==> plate_reset(
                        wc.block_at(#[trigger] changes@[k].0 as int, changes@[k].1 as int, changes@[k].2 as int),
                        changes@[k].3,
                    ),
                forall|k1: int, k2: int|
                    0 <= k1 < k2 < changes@.len() ==> world_cell(#[trigger] changes@[k1].0 as int, changes@[k1].1 as int, changes@[k1].2 as int)
                        < world_cell(#[trigger] changes@[k2].0 as int, changes@[k2].1 as int, changes@[k2].2 as int),
                forall|k: int|
                    j <= k < changes@.len() ==> world.block_at(#[trigger] changes@[k].0 as int, changes@[k].1 as int, changes@[k].2 as int)
                        == wc.block_at(changes@[k].0 as int, changes@[k].1 as int, changes@[k].2 as int),
                replays(wc, w0, uc),
                forall|k: int|
                    0 <= k < changes@.len() ==> in_buffer(
                        cx,
                        cz,
                        #[trigger] changes@[k].0 as int,
                        changes@[k].1 as int,
                        changes@[k].2 as int,
                    ),
                forall|a: int, b: int, cc: int|
                    !in_chunk(cx, cz, a, cc) ==> #[trigger] world.block_at(a, b, cc) == wc.block_at(a, b, cc),
                forall|k: int| #![trigger changes@[k]] 0 <= k < j ==> exists|jj: int| 0 <= jj < ups@.len() && #[trigger] ups@[jj] == changes@[k],
            decreases changes@.len() - j,
        {
            let (x, y, z, nv) = changes[j];
            let ghost before = ups@;
            let ghost wb = *world;
            assert(in_buffer(cx, cz, changes@[j as int].0 as int, changes@[j as int].1 as int, changes@[j as int].2 as int));
            write(world, ups, x, y, z, nv, Ghost(w0));
            proof {
                assert(ups@.take(before.len() as int) =~= before);
                assert(wb.block_at(x as int, y as int, z as int) == after_updates(w0, before, x as int, y as int, z as int));
                assert forall|t: int|
                    u_start.len() <= t < ups@.len() implies plate_reset(
                        after_updates(w0, ups@.take(t), #[trigger] ups@[t].0 as int, ups@[t].1 as int, ups@[t].2 as int),
                        ups@[t].3,
                    ) by {
                    if t < before.len() {
                        assert(ups@.take(t) =~= before.take(t));
                        assert(ups@[t] == before[t]);
                    }
                }
                assert forall|k: int|
                    j + 1 <= k < changes@.len() implies world.block_at(#[trigger] changes@[k].0 as int, changes@[k].1 as int, changes@[k].2 as int)
                        == wc.block_at(changes@[k].0 as int, changes@[k].1 as int, changes@[k].2 as int) by {
                    assert(world_cell(changes@[j as int].0 as int, changes@[j as int].1 as int, changes@[j as int].2 as int)
                        < world_cell(changes@[k].0 as int, changes@[k].1 as int, changes@[k].2 as int));
                }
            }
            schedule_update(next, 0, (x, y, z));
            proof {
                assert forall|k: int| #![trigger changes@[k]] 0 <= k < j + 1 implies exists|jj: int| 0 <= jj < ups@.len() && #[trigger] ups@[jj] == changes@[k] by {
                    if k < j {
                        let jj = choose|jj: int| 0 <= jj < before.len() && #[trigger] before[jj] == changes@[k];
                        assert(ups@[jj] == before[jj]);
                    } else {
                        assert(ups@[before.len() as int] == changes@[k]);
                    }
                }
            }
            j += 1;
        }
        proof {
            assert forall|a: i32, b: i32, cc: i32|
                !chunk_listed(ps@, c + 1, a as int, cc as int) implies #[trigger] world.block_at(a as int, b as int, cc as int)
                    == ws.block_at(a as int, b as int, cc as int) by {
                if chunk_listed(ps@, c as int, a as int, cc as int) {
                    let i = choose|i: int| 0 <= i < c && #[trigger] ps@[i] == (chunk_of(a as int) as i32, chunk_of(cc as int) as i32);
                    assert(0 <= i < c + 1 && ps@[i] == (chunk_of(a as int) as i32, chunk_of(cc as int) as i32));
                }
                if in_chunk(cx, cz, a as int, cc as int) {
                    assert(ps@[c as int] == (chunk_of(a as int) as i32, chunk_of(cc as int) as i32));
                }
                assert(world.block_at(a as int, b as int, cc as int) == wc.block_at(a as int, b as int, cc as int));
            }
            assert forall|a: i32, b: i32, cc: i32|
                chunk_listed(ps@, c + 1, a as int, cc as int) && #[trigger] plate_change(ws, occupied@, a, b, cc) is Some
                    implies exists|jj: int|
                    0 <= jj < ups@.len() && #[trigger] ups@[jj] == (a, b, cc, plate_change(ws, occupied@, a, b, cc)->0) by {
                if chunk_listed(ps@, c as int, a as int, cc as int) {
                    let jj = choose|jj: int| 0 <= jj < uc.len() && #[trigger] uc[jj] == (a, b, cc, plate_change(ws, occupied@, a, b, cc)->0);
                    assert(ups@[jj] == uc[jj]);
                } else {
                    let i = choose|i: int| 0 <= i < c + 1 && #[trigger] ps@[i] == (chunk_of(a as int) as i32, chunk_of(cc as int) as i32);
                    if i < c {
                        assert(chunk_listed(ps@, c as int, a as int, cc as int));
                    }
                    assert(in_chunk(cx, cz, a as int, cc as int));
                    assert(wc.block_at(a as int, b as int, cc as int) == ws.block_at(a as int, b as int, cc as int));
                    assert(plate_change(wc, occupied@, a, b, cc) == plate_change(ws, occupied@, a, b, cc));
                    let k = choose|k: int| 0 <= k < changes@.len() && #[trigger] changes@[k] == (a, b, cc, plate_change(wc, occupied@, a, b, cc)->0);
                    let jj = choose|jj: int| 0 <= jj < ups@.len() && #[trigger] ups@[jj] == changes@[k];
                }
            }
        }
        c += 1;
    }
    proof {
        assert forall|a: i32, b: i32, cc: i32| #[trigger] plate_change(ws, occupied@, a, b, cc) is Some implies exists|jj: int|
            0 <= jj < ups@.len() && #[trigger] ups@[jj] == (a, b, cc, plate_change(ws, occupied@, a, b, cc)->0) by {
            let ccx = chunk_of(a as int) as i32;
            let ccz = chunk_of(cc as int) as i32;
            assert(ws.chunk_at(ccx as int, ccz as int) is Some);
            let i = choose|i: int| 0 <= i < ps@.len() && #[trigger] ps@[i] == (ccx, ccz);
            assert(chunk_listed(ps@, ps@.len() as int, a as int, cc as int));
        }
    }
}

/// Redstone events waiting for a tick: the positions queued for an update
/// and the delayed changes (tick, position, value) of repeaters and
/// buttons, in the order they were scheduled.
pub struct RedstoneQueues {
    pub queue: Vec<Pos>,
    pub delayed: Vec<(u64, i32, i32, i32, u16)>,
}

/// What a redstone tick did: the block changes to send, in the order they
/// were made, the blocks broken for lack of support (they drop items), and
/// the queued positions examined, each with the number of changes made
/// before it.
pub struct TickOutput {
    pub updates: Vec<Update>,
    pub broken: Vec<Update>,
    pub processed: Vec<(Pos, usize)>,
    pub queue_start: usize,
}

/// Largest number of queued positions one tick processes.
pub const MAX_ITER: usize = 50000;

/// The six neighbours of `p`.
fn neighbours(p: Pos) -> (r: [Pos; 6])
    requires
        tick_safe(p),
    ensures
        forall|i: int| 0 <= i < 6 ==> tick_safe_near(#[trigger] r@[i], p),
{
    [
        (p.0 - 1, p.1, p.2),
        (p.0 + 1, p.1, p.2),
        (p.0, p.1 - 1, p.2),
        (p.0, p.1 + 1, p.2),
        (p.0, p.1, p.2 - 1),
        (p.0, p.1, p.2 + 1),
    ]
}

/// `q` is within one block of `p` on each axis.
pub open spec fn tick_safe_near(q: Pos, p: Pos) -> bool {
    p.0 - 1 <= q.0 <= p.0 + 1 && p.1 - 1 <= q.1 <= p.1 + 1 && p.2 - 1 <= q.2 <= p.2 + 1
}

/// A repeater change put off during tick `tick`: due one to four ticks
/// later, and it stores a repeater, on or off.
pub open spec fn deferred(e: (u64, i32, i32, i32, u16), tick: u64) -> bool {
    tick < e.0 <= tick + 4 && (stored_id(e.4) == 93 || stored_id(e.4) == 94)
}

/// Number of leading delayed changes due at tick `tick` (scheduled for
/// `tick` or earlier).
pub open spec fn due_count(d: Seq<(u64, i32, i32, i32, u16)>, tick: u64) -> nat
    decreases d.len(),
{
    if d.len() > 0 && d[0].0 <= tick {
        1 + due_count(d.skip(1), tick)
    } else {
        0
    }
}

proof fn lemma_due_count(d: Seq<(u64, i32, i32, i32, u16)>, tick: u64, k: int)
    requires
        0 <= k <= d.len(),
        forall|i: int| 0 <= i < k ==> d[i].0 <= tick,
        k == d.len() || d[k].0 > tick,
    ensures
        due_count(d, tick) == k,
    decreases k,
{
    if k > 0 {
        let r = d.skip(1);
        assert forall|i: int| 0 <= i < k - 1 implies r[i].0 <= tick by {
            assert(r[i] == d[i + 1]);
        }
        if k - 1 < r.len() {
            assert(r[k - 1] == d[k]);
        }
        lemma_due_count(r, tick, k - 1);
    }
}

/// What evaluating the component at `p` in world `wk` left: its new state
/// written as change `k` of `ups`, and its put-off change among `delayed`.
pub open spec fn step_recorded(
    wk: WorldMap,
    ups: Seq<Update>,
    delayed: Seq<(u64, i32, i32, i32, u16)>,
    p: Pos,
    k: int,
    tick: u64,
) -> bool {
    let st = wk.block_at(p.0 as int, p.1 as int, p.2 as int);
    let r = component_step(wk, p.0 as int, p.1 as int, p.2 as int, st, tick);
    relevant(stored_id(st)) ==> {
        &&& (r.0 matches Some(v) ==> k < ups.len() && ups[k] == (p.0, p.1, p.2, v))
        &&& (r.1 matches Some(e) ==> exists|j: int|
            0 <= j < delayed.len() && #[trigger] delayed[j] == (e.0, p.0, p.1, p.2, e.1))
    }
}

/// The queued position `p` was examined once the first `k` changes of `ups`
/// were made to `w0`: if it then held a redstone component, its new state
/// (`component_step` in that world) is change `k`, and a change it puts off
/// is among `delayed`.
pub open spec fn evaluation_recorded(
    w0: WorldMap,
    ups: Seq<Update>,
    delayed: Seq<(u64, i32, i32, i32, u16)>,
    p: Pos,
    k: int,
    tick: u64,
) -> bool {
    &&& 0 <= k <= ups.len()
    &&& exists|wk: WorldMap| #[trigger] replays(wk, w0, ups.take(k)) && step_recorded(wk, ups, delayed, p, k, tick)
}

/// Every examined position of `done` is recorded.
#[verifier::opaque]
pub open spec fn evaluations_recorded(
    w0: WorldMap,
    ups: Seq<Update>,
    delayed: Seq<(u64, i32, i32, i32, u16)>,
    done: Seq<(Pos, usize)>,
    tick: u64,
) -> bool {
    forall|i: int| 0 <= i < done.len() ==> #[trigger] evaluation_recorded(w0, ups, delayed, done[i].0, done[i].1 as int, tick)
}

/// Records stay true as changes and put-off changes are appended.
proof fn lemma_recorded_grows(
    w0: WorldMap,
    ups: Seq<Update>,
    ups2: Seq<Update>,
    d: Seq<(u64, i32, i32, i32, u16)>,
    d2: Seq<(u64, i32, i32, i32, u16)>,
    done: Seq<(Pos, usize)>,
    tick: u64,
)
    requires
        evaluations_recorded(w0, ups, d, done, tick),
        grows(ups, ups2),
        grows(d, d2),
    ensures
        evaluations_recorded(w0, ups2, d2, done, tick),
{
    reveal(evaluations_recorded);
    assert forall|i: int| 0 <= i < done.len() implies #[trigger] evaluation_recorded(w0, ups2, d2, done[i].0, done[i].1 as int, tick) by {
        let p = done[i].0;
        let k = done[i].1 as int;
        assert(evaluation_recorded(w0, ups, d, p, k, tick));
        let wk = choose|wk: WorldMap| #[trigger] replays(wk, w0, ups.take(k)) && step_recorded(wk, ups, d, p, k, tick);
        assert(ups2.take(k) =~= ups.take(k));
        let st = wk.block_at(p.0 as int, p.1 as int, p.2 as int);
        let r = component_step(wk, p.0 as int, p.1 as int, p.2 as int, st, tick);
        if relevant(stored_id(st)) {
            if r.0 is Some {
                assert(ups2[k] == ups[k]);
            }
            if r.1 is Some {
                let e = r.1->0;
                let j = choose|j: int| 0 <= j < d.len() && #[trigger] d[j] == (e.0, p.0, p.1, p.2, e.1);
                assert(d2[j] == d[j]);
            }
        }
        assert(step_recorded(wk, ups2, d2, p, k, tick));
    }
}

/// Every position of `q0` before index `head` that is away from the i32
/// limits and occurs there for the first time is among the positions of
/// `done`.
#[verifier::opaque]
pub open spec fn queue_covered(q0: Seq<Pos>, done: Seq<(Pos, usize)>, head: int) -> bool {
    forall|h: int|
        0 <= h < head && h < q0.len() && tick_safe(#[trigger] q0[h]) && !queued_before(q0, h, q0[h])
            ==> exists|i: int| 0 <= i < done.len() && #[trigger] done[i].0 == q0[h]
}

/// Every position of `visited` occurs among the first `head` entries of
/// `queue`.
#[verifier::opaque]
pub open spec fn seen_queued(queue: Seq<Pos>, head: int, visited: Seq<Pos>) -> bool {
    forall|i: int| 0 <= i < visited.len() ==> queued_before(queue, head, #[trigger] visited[i])
}

/// Whether `p` occurs among the first `h` entries of `q`.
pub open spec fn queued_before(q: Seq<Pos>, h: int, p: Pos) -> bool {
    exists|i: int| 0 <= i < h && q[i] == p
}

/// Change `j` of `ups`, made to `w0` before the queued positions are
/// examined: a pressure plate set to another state, a delayed change due at
/// tick `tick`, air where a block broke after such a change, or a wire set
/// to plain wire.
pub open spec fn early_change(w0: WorldMap, ups: Seq<Update>, j: int, d: Seq<(u64, i32, i32, i32, u16)>, tick: u64) -> bool {
    let u = ups[j];
    let before = after_updates(w0, ups.take(j), u.0 as int, u.1 as int, u.2 as int);
    ||| plate_reset(before, u.3)
    ||| exists|i: int|
        0 <= i < d.len() && (#[trigger] d[i]).0 <= tick && d[i].1 == u.0 && d[i].2 == u.1 && d[i].3 == u.2 && d[i].4 == u.3
    ||| u.3 == 0 && exists|i: int| 0 <= i < d.len() && (#[trigger] d[i]).0 <= tick
    ||| u.3 == 55 && stored_id(before) == 55
}

/// The first `n` changes of `ups` are early changes.
pub open spec fn early_changes(w0: WorldMap, ups: Seq<Update>, n: int, d: Seq<(u64, i32, i32, i32, u16)>, tick: u64) -> bool {
    forall|j: int| 0 <= j < n ==> #[trigger] early_change(w0, ups, j, d, tick)
}

proof fn lemma_early_grows(w0: WorldMap, ups: Seq<Update>, ups2: Seq<Update>, n: int, d: Seq<(u64, i32, i32, i32, u16)>, tick: u64)
    requires
        early_changes(w0, ups, n, d, tick),
        grows(ups, ups2),
        n <= ups.len(),
    ensures
        early_changes(w0, ups2, n, d, tick),
{
    assert forall|j: int| 0 <= j < n implies #[trigger] early_change(w0, ups2, j, d, tick) by {
        assert(early_change(w0, ups, j, d, tick));
        assert(ups2.take(j) =~= ups.take(j));
        assert(ups2[j] == ups[j]);
    }
}

/// Changes that all store plain wire leave a block as it was or plain wire.
proof fn lemma_after_wires(w: WorldMap, s: Seq<Update>, a: int, b: int, c: int)
    requires
        forall|i: int| 0 <= i < s.len() ==> (#[trigger] s[i]).3 == 55u16,
    ensures
        after_updates(w, s, a, b, c) == w.block_at(a, b, c) || after_updates(w, s, a, b, c) == 55u16,
    decreases s.len(),
{
    if s.len() > 0 {
        assert(s.last() == s[s.len() - 1]);
        assert forall|i: int| 0 <= i < s.drop_last().len() implies (#[trigger] s.drop_last()[i]).3 == 55u16 by {
            assert(s.drop_last()[i] == s[i]);
        }
        lemma_after_wires(w, s.drop_last(), a, b, c);
    }
}

/// The examined positions stay recorded, and the queue positions examined
/// so far are among them, once the position `h - 1` of the queue is added.
proof fn lemma_processed_push(
    w0: WorldMap,
    ups: Seq<Update>,
    d: Seq<(u64, i32, i32, i32, u16)>,
    pr0: Seq<(Pos, usize)>,
    pr: Seq<(Pos, usize)>,
    q0: Seq<Pos>,
    head: int,
    tick: u64,
)
    requires
        evaluations_recorded(w0, ups, d, pr0, tick),
        pr.len() == pr0.len() + 1,
        forall|i: int| 0 <= i < pr0.len() ==> pr[i] == pr0[i],
        evaluation_recorded(w0, ups, d, pr[pr0.len() as int].0, pr[pr0.len() as int].1 as int, tick),
        head >= 1,
        head - 1 < q0.len() ==> q0[head - 1] == pr[pr0.len() as int].0,
        queue_covered(q0, pr0, head - 1),
    ensures
        evaluations_recorded(w0, ups, d, pr, tick),
        queue_covered(q0, pr, head),
{
    reveal(evaluations_recorded);
    reveal(queue_covered);
    assert forall|i: int| 0 <= i < pr.len() implies #[trigger] evaluation_recorded(w0, ups, d, pr[i].0, pr[i].1 as int, tick) by {
        if i < pr0.len() {
            assert(pr[i] == pr0[i]);
        }
    }
    assert forall|h: int|
        0 <= h < head && h < q0.len() && tick_safe(#[trigger] q0[h]) && !queued_before(q0, h, q0[h])
            implies exists|i: int| 0 <= i < pr.len() && #[trigger] pr[i].0 == q0[h] by {
        if h == head - 1 {
            assert(pr[pr0.len() as int].0 == q0[h]);
        } else {
            let i = choose|i: int| 0 <= i < pr0.len() && #[trigger] pr0[i].0 == q0[h];
            assert(pr[i] == pr0[i]);
        }
    }
}

proof fn lemma_seen_advance(queue: Seq<Pos>, h: int, visited: Seq<Pos>, p: Pos, add: bool)
    requires
        seen_queued(queue, h, visited),
        0 <= h < queue.len(),
        queue[h] == p,
    ensures
        seen_queued(queue, h + 1, visited),
        seen_queued(queue, h + 1, visited.push(p)),
{
    reveal(seen_queued);
    assert forall|i: int| 0 <= i < visited.len() implies queued_before(queue, h + 1, #[trigger] visited[i]) by {
        assert(queued_before(queue, h, visited[i]));
    }
    assert forall|i: int| 0 <= i < visited.push(p).len() implies queued_before(queue, h + 1, #[trigger] visited.push(p)[i]) by {
        if i < visited.len() {
            assert(visited.push(p)[i] == visited[i]);
            assert(queued_before(queue, h, visited[i]));
        } else {
            assert(queue[h] == p);
        }
    }
}

/// A position seen before is queued before: its first occurrence in `q0`
/// is earlier.
proof fn lemma_seen_before(queue: Seq<Pos>, q0: Seq<Pos>, h: int, visited: Seq<Pos>, p: Pos)
    requires
        seen_queued(queue, h, visited),
        visited.contains(p),
        grows(q0, queue),
        0 <= h < q0.len(),
        q0[h] == p,
    ensures
        queued_before(q0, h, q0[h]),
{
    reveal(seen_queued);
    let vi = choose|vi: int| 0 <= vi < visited.len() && visited[vi] == p;
    assert(queued_before(queue, h, visited[vi]));
    let t = choose|t: int| 0 <= t < h && queue[t] == visited[vi];
    assert(q0[t] == queue[t]);
}

/// A queue position not examined leaves the coverage as it was when it is
/// not a first occurrence away from the i32 limits.
proof fn lemma_covered_skip(q0: Seq<Pos>, done: Seq<(Pos, usize)>, h: int)
    requires
        queue_covered(q0, done, h),
        0 <= h,
        h < q0.len() ==> !tick_safe(q0[h]) || queued_before(q0, h, q0[h]),
    ensures
        queue_covered(q0, done, h + 1),
{
    reveal(queue_covered);
}

/// An examined position that held no redstone component is recorded.
proof fn lemma_idle_recorded(w0: WorldMap, wk: WorldMap, ups: Seq<Update>, d: Seq<(u64, i32, i32, i32, u16)>, p: Pos, tick: u64)
    requires
        replays(wk, w0, ups),
        !relevant(stored_id(wk.block_at(p.0 as int, p.1 as int, p.2 as int))),
    ensures
        evaluation_recorded(w0, ups, d, p, ups.len() as int, tick),
{
    assert(ups.take(ups.len() as int) =~= ups);
    assert(step_recorded(wk, ups, d, p, ups.len() as int, tick));
}

/// An evaluated component is recorded: its new state is the first change
/// made after the evaluation, and its put-off change the last of `d`.
proof fn lemma_component_recorded(
    w0: WorldMap,
    wk: WorldMap,
    uk: Seq<Update>,
    ups: Seq<Update>,
    d: Seq<(u64, i32, i32, i32, u16)>,
    p: Pos,
    tick: u64,
)
    requires
        replays(wk, w0, uk),
        grows(uk, ups),
        ({
            let r = component_step(wk, p.0 as int, p.1 as int, p.2 as int, wk.block_at(p.0 as int, p.1 as int, p.2 as int), tick);
            &&& (r.0 matches Some(v) ==> uk.len() < ups.len() && ups[uk.len() as int] == (p.0, p.1, p.2, v))
            &&& (r.1 matches Some(e) ==> d.len() > 0 && d[d.len() - 1] == (e.0, p.0, p.1, p.2, e.1))
        }),
    ensures
        evaluation_recorded(w0, ups, d, p, uk.len() as int, tick),
{
    assert(ups.take(uk.len() as int) =~= uk);
    assert(step_recorded(wk, ups, d, p, uk.len() as int, tick));
}

proof fn lemma_queue_start(
    w0: WorldMap,
    ups: Seq<Update>,
    d: Seq<(u64, i32, i32, i32, u16)>,
    queue: Seq<Pos>,
    q0: Seq<Pos>,
    tick: u64,
)
    ensures
        evaluations_recorded(w0, ups, d, Seq::empty(), tick),
        seen_queued(queue, 0, Seq::empty()),
        queue_covered(q0, Seq::empty(), 0),
{
    reveal(evaluations_recorded);
    reveal(seen_queued);
    reveal(queue_covered);
}

proof fn lemma_covered_all(q0: Seq<Pos>, done: Seq<(Pos, usize)>, head: int)
    requires
        queue_covered(q0, done, head),
        head >= q0.len(),
    ensures
        forall|h: int|
            0 <= h < q0.len() && tick_safe(#[trigger] q0[h]) && !queued_before(q0, h, q0[h]) ==> exists|i: int|
                0 <= i < done.len() && #[trigger] done[i].0 == q0[h],
{
    reveal(queue_covered);
}

/// Evaluates the redstone component `stored` at `p`: stores its new state
/// (breaking what loses support), puts off a repeater's change, and, when
/// the component changed (or is a source, or a wire just reset), asks the
/// doors, lamps, pistons and rails around it for their actuation. Returns
/// whether it changed.
fn evaluate_at(
    world: &mut WorldMap,
    ups: &mut Vec<Update>,
    broken: &mut Vec<Update>,
    next: &mut Vec<Pos>,
    delayed: &mut Vec<(u64, i32, i32, i32, u16)>,
    pending: &mut Vec<Update>,
    p: Pos,
    stored: u16,
    tick: u64,
    in_reset: bool,
    Ghost(w0): Ghost<WorldMap>,
    Ghost(bat): Ghost<Seq<int>>,
) -> (r: (bool, Ghost<Seq<int>>))
    requires
        old(world).wf(),
        replays(*old(world), w0, old(ups)@),
        broken_sent(old(ups)@, old(broken)@, bat),
        tick_safe(p),
        stored == old(world).block_at(p.0 as int, p.1 as int, p.2 as int),
        relevant(stored_id(stored)),
        tick <= u64::MAX - 8,
        forall|i: int| 0 <= i < old(pending)@.len() ==> act_safe((#[trigger] old(pending)@[i].0, old(pending)@[i].1, old(pending)@[i].2)),
    ensures
        final(world).wf(),
        replays(*final(world), w0, final(ups)@),
        broken_sent(final(ups)@, final(broken)@, r.1@),
        grows(old(ups)@, final(ups)@),
        forall|i: int| 0 <= i < final(pending)@.len() ==> act_safe((#[trigger] final(pending)@[i].0, final(pending)@[i].1, final(pending)@[i].2)),
        ({
            let c = component_step(*old(world), p.0 as int, p.1 as int, p.2 as int, stored, tick);
            &&& (c.0 matches Some(v) ==> old(ups)@.len() < final(ups)@.len() && final(ups)@[old(ups)@.len() as int] == (p.0, p.1, p.2, v))
            &&& (c.1 matches Some(e) ==> final(delayed)@ == old(delayed)@.push((e.0, p.0, p.1, p.2, e.1)) && deferred((e.0, p.0, p.1, p.2, e.1), tick))
            &&& (c.1 is None ==> final(delayed)@ == old(delayed)@)
            &&& r.0 == (c.0 is Some || stored_id(stored) == 69 || stored_id(stored) == 70 || stored_id(stored) == 72
                || stored_id(stored) == 77 || stored_id(stored) == 143 || stored_id(stored) == 147 || stored_id(stored) == 148
                || stored_id(stored) == 152)
        }),
{
    let ghost wk = *world;
    let ghost mut broken_at = bat;
    let (x, y, z) = p;
    let block = block_id(stored);
    let ns6 = neighbours(p);
    let (new_stored, later) = eval_component(world, x, y, z, stored, tick);
    let changed = new_stored.is_some() || matches!(block, 69 | 70 | 72 | 77 | 143 | 147 | 148 | 152);
    let ghost uk = ups@;
    if let Some(ns) = new_stored {
        let ghost u0 = ups@;
        write(world, ups, x, y, z, ns, Ghost(w0));
        proof {
            lemma_sent_grows(u0, ups@, broken@, broken_at);
        }
        let ghost (u1, b1) = (ups@, broken@);
        notify(world, ups, broken, next, p, Ghost(w0));
        proof {
            broken_at = lemma_sent_notified(u1, ups@, b1, broken@, broken_at);
            assert(ups@[uk.len() as int] == u1[uk.len() as int]);
            assert forall|i: int| 0 <= i < uk.len() implies #[trigger] ups@[i] == uk[i] by {
                assert(u1[i] == uk[i]);
            }
        }
    }
    if changed || in_reset {
        let mut k: usize = 0;
        while k < 6
            invariant
                k <= 6,
                world.wf(),
                tick_safe(p),
                forall|i: int| 0 <= i < 6 ==> tick_safe_near(#[trigger] ns6@[i], p),
                forall|i: int| 0 <= i < pending@.len() ==> act_safe((#[trigger] pending@[i].0, pending@[i].1, pending@[i].2)),
            decreases 6 - k,
        {
            let n = ns6[k];
            assert(tick_safe_near(ns6@[k as int], p));
            let ghost before = pending@;
            actuate(world, n.0, n.1, n.2, pending);
            proof {
                assert forall|i: int| 0 <= i < pending@.len() implies act_safe((#[trigger] pending@[i].0, pending@[i].1, pending@[i].2)) by {
                    if i >= before.len() {
                        let acts = actuations(*world, n.0 as int, n.1 as int, n.2 as int, block_powered(*world, n.0 as int, n.1 as int, n.2 as int));
                        lemma_actuations_near(*world, n.0 as int, n.1 as int, n.2 as int, block_powered(*world, n.0 as int, n.1 as int, n.2 as int));
                        let e = pending@[before.len() + (i - before.len())];
                        assert((e.0 as int, e.1 as int, e.2 as int, e.3) == acts[i - before.len()]);
                    } else {
                        assert(pending@[i] == before[i]);
                    }
                }
            }
            k += 1;
        }
    }
    if let Some(entry) = later {
        proof {
            lemma_later_after(wk, x as int, y as int, z as int, stored, tick);
        }
        delayed.push((entry.0, x, y, z, entry.1));
    }
    (changed, Ghost(broken_at))
}

/// A block that is neither a pressure plate nor wire keeps its value
/// through early changes when no delayed change was due.
proof fn lemma_early_keeps(
    w: WorldMap,
    ups: Seq<Update>,
    n: int,
    d: Seq<(u64, i32, i32, i32, u16)>,
    tick: u64,
    a: i32,
    b: i32,
    c: i32,
)
    requires
        early_changes(w, ups, n, d, tick),
        0 <= n <= ups.len(),
        forall|i: int| 0 <= i < d.len() ==> (#[trigger] d[i]).0 > tick,
        !spec_is_plate(w.block_at(a as int, b as int, c as int)),
        stored_id(w.block_at(a as int, b as int, c as int)) != 55,
    ensures
        after_updates(w, ups.take(n), a as int, b as int, c as int) == w.block_at(a as int, b as int, c as int),
    decreases n,
{
    if n > 0 {
        lemma_early_keeps(w, ups, n - 1, d, tick, a, b, c);
        assert(ups.take(n).drop_last() =~= ups.take(n - 1));
        assert(ups.take(n).last() == ups[n - 1]);
        assert(early_change(w, ups, n - 1, d, tick));
    }
}

/// A repeater that is off, first in the queue, fed by a powered input that
/// is neither a pressure plate nor wire, with no delayed change due, is
/// evaluated in the world as it was: its change to on is put off, due its
/// delay (one to four ticks) after this tick.
pub proof fn queued_repeater_waits(
    w: WorldMap,
    ups: Seq<Update>,
    old_delayed: Seq<(u64, i32, i32, i32, u16)>,
    delayed: Seq<(u64, i32, i32, i32, u16)>,
    processed: Seq<(Pos, usize)>,
    queue_start: usize,
    p: Pos,
    tick: u64,
)
    requires
        evaluations_recorded(w, ups, delayed, processed, tick),
        early_changes(w, ups, queue_start as int, old_delayed, tick),
        queue_start <= ups.len(),
        processed.len() > 0,
        processed[0] == (p, queue_start),
        tick_safe(p),
        forall|i: int| 0 <= i < old_delayed.len() ==> (#[trigger] old_delayed[i]).0 > tick,
        stored_id(w.block_at(p.0 as int, p.1 as int, p.2 as int)) == 93,
        ({
            let f = facing_of(stored_meta(w.block_at(p.0 as int, p.1 as int, p.2 as int)));
            let input = w.block_at(p.0 - f.0, p.1 as int, p.2 - f.1);
            power_of(input) > 0 && !spec_is_plate(input) && stored_id(input) != 55
        }),
    ensures
        ({
            let m = stored_meta(w.block_at(p.0 as int, p.1 as int, p.2 as int));
            exists|j: int|
                0 <= j < delayed.len() && #[trigger] delayed[j] == (
                    (tick + (m / 4) % 4 + 1) as u64,
                    p.0,
                    p.1,
                    p.2,
                    (94 + m * 4096) as u16,
                )
        }),
{
    reveal(evaluations_recorded);
    let k = queue_start as int;
    assert(evaluation_recorded(w, ups, delayed, processed[0].0, processed[0].1 as int, tick));
    let wk = choose|wk: WorldMap| #[trigger] replays(wk, w, ups.take(k)) && step_recorded(wk, ups, delayed, p, k, tick);
    let st = w.block_at(p.0 as int, p.1 as int, p.2 as int);
    let m = stored_meta(st);
    let f = facing_of(m);
    let (ix, iz) = ((p.0 - f.0) as i32, (p.2 - f.1) as i32);
    lemma_early_keeps(w, ups, k, old_delayed, tick, p.0, p.1, p.2);
    lemma_early_keeps(w, ups, k, old_delayed, tick, ix, p.1, iz);
    assert(wk.block_at(p.0 as int, p.1 as int, p.2 as int) == st);
    assert(wk.block_at(ix as int, p.1 as int, iz as int) == w.block_at(ix as int, p.1 as int, iz as int));
    assert(ix as int == p.0 - f.0 && iz as int == p.2 - f.1);
    let r = component_step(wk, p.0 as int, p.1 as int, p.2 as int, st, tick);
    assert(r.1 == Some(((tick + (m / 4) % 4 + 1) as u64, (94 + m * 4096) as u16)));
}

/// Queues the neighbours of an emptied position `p` that take part in
/// redstone, unless seen or already waiting.
fn queue_around_air(world: &WorldMap, queue: &mut Vec<Pos>, visited: &[Pos], p: Pos, head: usize)
    requires
        world.wf(),
        tick_safe(p),
        head <= old(queue)@.len(),
    ensures
        grows(old(queue)@, final(queue)@),
{
    let ns6 = neighbours(p);
    let ghost q_in = queue@;
    let mut k: usize = 0;
    while k < 6
        invariant
            k <= 6,
            head <= queue@.len(),
            world.wf(),
            grows(q_in, queue@),
        decreases 6 - k,
    {
        let n = ns6[k];
        if !listed_pos(visited, n) && !contains_from(queue, head, n) {
            if is_redstone_relevant(block_id(get_block(world, n.0, n.1, n.2))) {
                queue.push(n);
            }
        }
        k += 1;
    }
}

/// Queues the neighbours of an examined component `p` that take part in
/// redstone (a seen wire again when `p` changed), and the components on the
/// far sides of the opaque blocks around it.
fn queue_around(world: &WorldMap, queue: &mut Vec<Pos>, visited: &[Pos], p: Pos, head: usize, changed: bool)
    requires
        world.wf(),
        tick_safe(p),
        head <= old(queue)@.len(),
    ensures
        grows(old(queue)@, final(queue)@),
{
    let ns6 = neighbours(p);
    let (x, y, z) = p;
    let ghost q_in = queue@;
    let mut k: usize = 0;
    while k < 6
        invariant
            k <= 6,
            head <= queue@.len(),
            world.wf(),
            grows(q_in, queue@),
        decreases 6 - k,
    {
        let n = ns6[k];
        if !contains_from(queue, head, n) {
            let nb = block_id(get_block(world, n.0, n.1, n.2));
            if !(listed_pos(visited, n) && !(changed && nb == 55)) && is_redstone_relevant(nb) {
                queue.push(n);
            }
        }
        k += 1;
    }
    let mut k: usize = 0;
    while k < 6
        invariant
            k <= 6,
            head <= queue@.len(),
            world.wf(),
            forall|i: int| 0 <= i < 6 ==> tick_safe_near(#[trigger] ns6@[i], p),
            tick_safe(p),
            grows(q_in, queue@),
        decreases 6 - k,
    {
        let n = ns6[k];
        assert(tick_safe_near(ns6@[k as int], p));
        if !listed_pos(visited, n) && !contains_from(queue, head, n) && is_opaque(block_id(get_block(world, n.0, n.1, n.2))) {
            let around: [Pos; 6] = [
                (n.0 - 1, n.1, n.2),
                (n.0 + 1, n.1, n.2),
                (n.0, n.1 - 1, n.2),
                (n.0, n.1 + 1, n.2),
                (n.0, n.1, n.2 - 1),
                (n.0, n.1, n.2 + 1),
            ];
            let mut j: usize = 0;
            while j < 6
                invariant
                    j <= 6,
                    head <= queue@.len(),
                    world.wf(),
                    grows(q_in, queue@),
                decreases 6 - j,
            {
                let t = around[j];
                if !(t.0 == x && t.1 == y && t.2 == z) && !listed_pos(visited, t)
                    && !contains_from(queue, head, t) && is_redstone_relevant(block_id(get_block(world, t.0, t.1, t.2))) {
                    queue.push(t);
                }
                j += 1;
            }
        }
        k += 1;
    }
}

/// Queue facts carried over as the queue grows.
proof fn lemma_queue_grows(q0: Seq<Pos>, q1: Seq<Pos>, q2: Seq<Pos>, visited: Seq<Pos>, head: int)
    requires
        grows(q0, q1),
        grows(q1, q2),
        head <= q1.len(),
        seen_queued(q1, head, visited),
    ensures
        grows(q0, q2),
        seen_queued(q2, head, visited),
{
    reveal(seen_queued);
    assert forall|i: int| 0 <= i < q0.len() implies #[trigger] q2[i] == q0[i] by {
        assert(q1[i] == q0[i]);
    }
    assert forall|i: int| 0 <= i < visited.len() implies queued_before(q2, head, #[trigger] visited[i]) by {
        let t = choose|t: int| 0 <= t < head && q1[t] == visited[i];
        assert(q2[t] == q1[t]);
    }
}

/// One redstone tick at tick number `tick`, with players standing on the
/// positions `occupied`: pressure plates follow their occupants, delayed
/// changes that are due are applied, wires cut from their source are reset,
/// then queued components are updated (at most 50000 positions), spreading
/// to relevant neighbours and through opaque blocks, and the doors, lamps,
/// pistons and rails next to a change are actuated. Every change of the
/// world is in the returned updates, in order. The due delayed changes (the
/// leading ones scheduled for this tick or earlier) leave the list and are
/// among the updates; the changes scheduled during the tick follow the
/// rest of the list, each a repeater due one to four ticks later. Every
/// pressure plate whose state changes has its new state among the updates,
/// and every block broken for lack of support is among them as air.
/// `processed` lists the queued positions examined, each with the number of
/// changes made before it: a redstone component found there was evaluated
/// in the world as it then stood (`evaluation_recorded`), and every
/// position first queued in `qs.queue` (away from the i32 limits) is among
/// them when the queue holds at most 50000 positions.
#[verifier::spinoff_prover]
#[verifier::rlimit(100)]
pub fn redstone_tick(world: &mut WorldMap, qs: &mut RedstoneQueues, tick: u64, occupied: &[Pos]) -> (out: TickOutput)
    requires
        old(world).wf(),
        tick <= u64::MAX - 8,
    ensures
        final(world).wf(),
        replays(*final(world), *old(world), out.updates@),
        final(qs).delayed@.len() > 0 ==> final(qs).delayed@[0].0 > tick,
        ({
            let d = old(qs).delayed@;
            let kept = d.skip(due_count(d, tick) as int);
            &&& kept.len() <= final(qs).delayed@.len()
            &&& final(qs).delayed@.subrange(0, kept.len() as int) == kept
            &&& forall|i: int| kept.len() <= i < final(qs).delayed@.len() ==> deferred(#[trigger] final(qs).delayed@[i], tick)
        }),
        forall|i: int|
            #![trigger old(qs).delayed@[i]]
            0 <= i < due_count(old(qs).delayed@, tick) ==> exists|j: int|
                #![trigger out.updates@[j]]
                0 <= j < out.updates@.len() && out.updates@[j] == (
                    old(qs).delayed@[i].1,
                    old(qs).delayed@[i].2,
                    old(qs).delayed@[i].3,
                    old(qs).delayed@[i].4,
                ),
        forall|i: int|
            #![trigger out.broken@[i]]
            0 <= i < out.broken@.len() ==> exists|j: int|
                #![trigger out.updates@[j]]
                0 <= j < out.updates@.len() && out.updates@[j] == (out.broken@[i].0, out.broken@[i].1, out.broken@[i].2, 0u16),
        plates_sent(*old(world), occupied@, out.updates@),
        evaluations_recorded(*old(world), out.updates@, final(qs).delayed@, out.processed@, tick),
        out.queue_start <= out.updates@.len(),
        early_changes(*old(world), out.updates@, out.queue_start as int, old(qs).delayed@, tick),
        old(qs).queue@.len() > 0 && tick_safe(old(qs).queue@[0]) ==> out.processed@.len() > 0 && out.processed@[0] == (
            old(qs).queue@[0],
            out.queue_start,
        ),
        old(qs).queue@.len() <= MAX_ITER ==> forall|h: int|
            0 <= h < old(qs).queue@.len() && tick_safe(#[trigger] old(qs).queue@[h]) && !queued_before(
                old(qs).queue@,
                h,
                old(qs).queue@[h],
            ) ==> exists|i: int| 0 <= i < out.processed@.len() && #[trigger] out.processed@[i].0 == old(qs).queue@[h],
{
    let ghost w0 = *world;
    let mut ups: Vec<Update> = Vec::new();
    let mut broken: Vec<Update> = Vec::new();
    assert(replays(*world, w0, ups@));
    update_plates(world, &mut ups, occupied, &mut qs.queue, Ghost(w0));
    let ghost plate_ups = ups@;
    proof {
        assert forall|j: int| 0 <= j < ups@.len() implies #[trigger] early_change(w0, ups@, j, old(qs).delayed@, tick) by {
            assert(plate_reset(
                after_updates(w0, ups@.take(j), ups@[j].0 as int, ups@[j].1 as int, ups@[j].2 as int),
                ups@[j].3,
            ));
        }
    }
    let ghost mut broken_at: Seq<int> = Seq::empty();
    proof {
        reveal(broken_sent);
    }

    let ghost d0 = qs.delayed@;
    let ghost mut removed: int = 0;
    let ghost mut due_at: Seq<int> = Seq::empty();
    while qs.delayed.len() > 0 && qs.delayed[0].0 <= tick
        invariant
            world.wf(),
            replays(*world, w0, ups@),
            d0 == old(qs).delayed@,
            0 <= removed <= d0.len(),
            qs.delayed@ == d0.skip(removed),
            forall|i: int| 0 <= i < removed ==> d0[i].0 <= tick,
            broken_sent(ups@, broken@, broken_at),
            grows(plate_ups, ups@),
            grows(old(qs).queue@, qs.queue@),
            early_changes(w0, ups@, ups@.len() as int, d0, tick),
            due_at.len() == removed,
            forall|i: int|
                0 <= i < removed ==> 0 <= #[trigger] due_at[i] < ups@.len() && ups@[due_at[i]] == (
                    d0[i].1,
                    d0[i].2,
                    d0[i].3,
                    d0[i].4,
                ),
        decreases qs.delayed@.len(),
    {
        proof {
            assert(qs.delayed@[0] == d0[removed]);
            removed = removed + 1;
        }
        let (t_due, x, y, z, stored) = qs.delayed.remove(0);
        assert(qs.delayed@ =~= d0.skip(removed));
        let ghost at = ups@.len() as int;
        let ghost u0 = ups@;
        write(world, &mut ups, x, y, z, stored, Ghost(w0));
        proof {
            due_at = due_at.push(at);
            lemma_sent_grows(u0, ups@, broken@, broken_at);
            lemma_early_grows(w0, u0, ups@, u0.len() as int, d0, tick);
            let di = removed - 1;
            assert(d0[di] == (t_due, x, y, z, stored));
            assert(ups@[at] == (x, y, z, stored));
            assert(early_change(w0, ups@, at, d0, tick));
            assert forall|j: int| 0 <= j < ups@.len() implies #[trigger] early_change(w0, ups@, j, d0, tick) by {
                if j < at {
                    assert(early_changes(w0, ups@, u0.len() as int, d0, tick));
                }
            }
        }
        if is_act_safe((x, y, z)) {
            let ghost (u1, b1) = (ups@, broken@);
            let ghost wn = *world;
            notify(world, &mut ups, &mut broken, &mut qs.queue, (x, y, z), Ghost(w0));
            proof {
                broken_at = lemma_sent_notified(u1, ups@, b1, broken@, broken_at);
                lemma_early_grows(w0, u1, ups@, u1.len() as int, d0, tick);
                let di = removed - 1;
                assert(d0[di].0 <= tick);
                assert forall|j: int| 0 <= j < ups@.len() implies #[trigger] early_change(w0, ups@, j, d0, tick) by {
                    if j < u1.len() {
                        assert(early_changes(w0, ups@, u1.len() as int, d0, tick));
                    } else {
                        assert(ups@[u1.len() + (j - u1.len())].3 == 0u16);
                    }
                }
            }
        }
        schedule_update(&mut qs.queue, 0, (x, y, z));
    }
    let ghost q0 = old(qs).queue@;
    let ghost due_done = qs.delayed@;
    let ghost due_ups = ups@;
    proof {
        if removed < d0.len() {
            assert(qs.delayed@[0] == d0[removed]);
        }
        lemma_due_count(d0, tick, removed);
    }

    let mut queue: Vec<Pos> = Vec::new();
    std::mem::swap(&mut queue, &mut qs.queue);
    assert(grows(q0, queue@));
    let seeds = queue.clone();
    let before_reset = ups.len();
    let ghost w_before = *world;
    assert(ups@.subrange(0, before_reset as int) =~= ups@);
    let reset_list = reset_dust_network(world, seeds.as_slice());
    proof {
        assert forall|i: int| 0 <= i < reset_list@.len() implies 0 <= #[trigger] reset_list@[i].1 < 256 by {
            let q = reset_list@[i];
            assert(lit_dust(w_before.block_at(q.0 as int, q.1 as int, q.2 as int)));
        }
    }
    proof {
        assert forall|i: int| 0 <= i < reset_list@.len() implies lit_dust(w_before.block_at(
            #[trigger] reset_list@[i].0 as int,
            reset_list@[i].1 as int,
            reset_list@[i].2 as int,
        )) by {
            let q = reset_list@[i];
            assert(lit_dust(w_before.block_at(q.0 as int, q.1 as int, q.2 as int)));
        }
        assert(replays(w_before, w0, ups@));
    }
    let mut r: usize = 0;
    while r < reset_list.len()
        invariant
            world.wf(),
            grows(q0, queue@),
            forall|i: int| 0 <= i < reset_list@.len() ==> lit_dust(w_before.block_at(
                #[trigger] reset_list@[i].0 as int,
                reset_list@[i].1 as int,
                reset_list@[i].2 as int,
            )),
            early_changes(w0, ups@, ups@.len() as int, d0, tick),
            r <= reset_list@.len(),
            forall|i: int| 0 <= i < reset_list@.len() ==> 0 <= #[trigger] reset_list@[i].1 < 256,
            forall|i: int|
                0 <= i < reset_list@.len() ==> world.block_at(
                    #[trigger] reset_list@[i].0 as int,
                    reset_list@[i].1 as int,
                    reset_list@[i].2 as int,
                ) == 55,
            forall|a: int, b: int, c: int|
                (forall|i: int| 0 <= i < reset_list@.len() ==> reset_list@[i] != (a as i32, b as i32, c as i32))
                    && i32::MIN <= a <= i32::MAX && i32::MIN <= b <= i32::MAX && i32::MIN <= c
                    <= i32::MAX ==> #[trigger] world.block_at(a, b, c) == w_before.block_at(a, b, c),
            replays(w_before, w0, ups@.subrange(0, before_reset as int)),
            before_reset <= ups@.len(),
            grows(due_ups, ups@),
            broken_sent(ups@, broken@, broken_at),
            ups@.len() == before_reset + r,
            forall|j: int| 0 <= j < r ==> #[trigger] ups@[before_reset + j] == (reset_list@[j].0, reset_list@[j].1, reset_list@[j].2, 55u16),
        decreases reset_list@.len() - r,
    {
        let p = reset_list[r];
        let ghost prev = ups@;
        ups.push((p.0, p.1, p.2, 55));
        assert(ups@.subrange(0, before_reset as int) =~= prev.subrange(0, before_reset as int));
        proof {
            lemma_sent_grows(prev, ups@, broken@, broken_at);
            lemma_early_grows(w0, prev, ups@, prev.len() as int, d0, tick);
            let pre = prev.subrange(0, before_reset as int);
            let sfx = prev.subrange(before_reset as int, prev.len() as int);
            assert(prev =~= pre + sfx);
            assert(ups@.take(prev.len() as int) =~= prev);
            lemma_after_split(w0, w_before, pre, sfx, p.0, p.1, p.2);
            assert forall|i: int| 0 <= i < sfx.len() implies (#[trigger] sfx[i]).3 == 55u16 by {
                assert(sfx[i] == prev[before_reset + i]);
            }
            lemma_after_wires(w_before, sfx, p.0 as int, p.1 as int, p.2 as int);
            assert(lit_dust(w_before.block_at(reset_list@[r as int].0 as int, reset_list@[r as int].1 as int, reset_list@[r as int].2 as int)));
            assert(ups@[prev.len() as int] == (p.0, p.1, p.2, 55u16));
            assert(early_change(w0, ups@, prev.len() as int, d0, tick));
            assert forall|j: int| 0 <= j < ups@.len() implies #[trigger] early_change(w0, ups@, j, d0, tick) by {
                if j < prev.len() {
                    assert(early_changes(w0, ups@, prev.len() as int, d0, tick));
                }
            }
        }
        schedule_update(&mut queue, 0, p);
        r += 1;
    }
    proof {
        lemma_reset_replay(*world, w_before, w0, ups@, before_reset as int, reset_list@);
    }
    let mut visited: Vec<Pos> = Vec::new();
    let mut pending: Vec<Update> = Vec::new();
    let mut processed: Vec<(Pos, usize)> = Vec::new();
    let queue_start = ups.len();
    let ghost pre_ups = ups@;
    let mut head: usize = 0;
    let mut iterations: usize = 0;
    proof {
        lemma_queue_start(w0, ups@, qs.delayed@, queue@, q0, tick);
    }
    while head < queue.len() && iterations < MAX_ITER
        invariant
            world.wf(),
            replays(*world, w0, ups@),
            grows(due_ups, ups@),
            broken_sent(ups@, broken@, broken_at),
            head <= queue@.len(),
            iterations <= MAX_ITER,
            head == iterations,
            tick <= u64::MAX - 8,
            forall|i: int| 0 <= i < pending@.len() ==> act_safe((#[trigger] pending@[i].0, pending@[i].1, pending@[i].2)),
            qs.delayed@.len() > 0 ==> qs.delayed@[0].0 > tick,
            due_done == old(qs).delayed@.skip(due_count(old(qs).delayed@, tick) as int),
            due_done.len() <= qs.delayed@.len(),
            qs.delayed@.subrange(0, due_done.len() as int) == due_done,
            forall|i: int| due_done.len() <= i < qs.delayed@.len() ==> deferred(#[trigger] qs.delayed@[i], tick),
            grows(q0, queue@),
            grows(pre_ups, ups@),
            queue_start == pre_ups.len(),
            head == 0 ==> ups@.len() == queue_start && processed@.len() == 0 && visited@.len() == 0,
            q0.len() > 0 && tick_safe(q0[0]) && head > 0 ==> processed@.len() > 0 && processed@[0] == (q0[0], queue_start),
            evaluations_recorded(w0, ups@, qs.delayed@, processed@, tick),
            seen_queued(queue@, head as int, visited@),
            queue_covered(q0, processed@, head as int),
        decreases MAX_ITER - iterations,
    {
        let p = queue[head];
        let ghost h0 = head as int;
        head += 1;
        iterations += 1;
        proof {
            lemma_seen_advance(queue@, h0, visited@, p, false);
            if h0 < q0.len() {
                assert(q0[h0] == queue@[h0]);
            }
        }
        if !is_tick_safe(p) {
            proof {
                lemma_covered_skip(q0, processed@, h0);
            }
            continue;
        }
        let (x, y, z) = p;
        if listed_pos(visited.as_slice(), p) {
            if block_id(get_block(world, x, y, z)) != 55 {
                proof {
                    if h0 < q0.len() {
                        lemma_seen_before(queue@, q0, h0, visited@, p);
                    }
                    lemma_covered_skip(q0, processed@, h0);
                }
                continue;
            }
        } else {
            visited.push(p);
        }
        let stored = get_block(world, x, y, z);
        let k_at = ups.len();
        let ghost wk = *world;
        let ghost k0 = ups@.len() as int;
        let ghost uk = ups@;
        let ghost pr0 = processed@;
        proof {
            assert(uk.take(k0) =~= uk);
            if h0 < q0.len() {
                assert(q0[h0] == queue@[h0]);
            }
        }
        let ghost q_in = queue@;
        if stored == 0 {
            processed.push((p, ups.len()));
            proof {
                lemma_idle_recorded(w0, wk, ups@, qs.delayed@, p, tick);
                lemma_processed_push(w0, ups@, qs.delayed@, pr0, processed@, q0, head as int, tick);
            }
            queue_around_air(world, &mut queue, visited.as_slice(), p, head);
            proof {
                lemma_queue_grows(q0, q_in, queue@, visited@, head as int);
            }
            continue;
        }
        let block = block_id(stored);
        let m = meta(stored);
        if !is_redstone_relevant(block) {
            processed.push((p, ups.len()));
            proof {
                lemma_idle_recorded(w0, wk, ups@, qs.delayed@, p, tick);
                lemma_processed_push(w0, ups@, qs.delayed@, pr0, processed@, q0, head as int, tick);
            }
            if block == 123 || block == 124 {
                let powered = is_block_powered(world, x, y, z);
                let new_block: u16 = if powered { 124 } else { 123 };
                if new_block != block {
                    let ghost u0 = ups@;
                    write(world, &mut ups, x, y, z, encode(new_block, m), Ghost(w0));
                    proof {
                        lemma_sent_grows(u0, ups@, broken@, broken_at);
                        lemma_recorded_grows(w0, u0, ups@, qs.delayed@, qs.delayed@, processed@, tick);
                    }
                }
            }
            continue;
        }
        let ghost d_before = qs.delayed@;
        let in_reset = listed_pos(reset_list.as_slice(), p);
        let (changed, Ghost(bat)) = evaluate_at(
            world,
            &mut ups,
            &mut broken,
            &mut qs.queue,
            &mut qs.delayed,
            &mut pending,
            p,
            stored,
            tick,
            in_reset,
            Ghost(w0),
            Ghost(broken_at),
        );
        proof {
            broken_at = bat;
            lemma_recorded_grows(w0, uk, ups@, d_before, qs.delayed@, processed@, tick);
        }
        processed.push((p, k_at));
        proof {
            assert(grows(uk, ups@));
            lemma_component_recorded(w0, wk, uk, ups@, qs.delayed@, p, tick);
            lemma_processed_push(w0, ups@, qs.delayed@, pr0, processed@, q0, head as int, tick);
        }
        queue_around(world, &mut queue, visited.as_slice(), p, head, changed);
        proof {
            lemma_queue_grows(q0, q_in, queue@, visited@, head as int);
        }
    }
    proof {
        if q0.len() <= MAX_ITER {
            assert(head >= q0.len());
            lemma_covered_all(q0, processed@, head as int);
        }
    }
    let mut a: usize = 0;
    let first_actuation = ups.len();
    while a < pending.len()
        invariant
            world.wf(),
            replays(*world, w0, ups@),
            grows(due_ups, ups@),
            broken_sent(ups@, broken@, broken_at),
            first_actuation <= ups@.len(),
            grows(pre_ups, ups@),
            evaluations_recorded(w0, ups@, qs.delayed@, processed@, tick),
            qs.delayed@.len() > 0 ==> qs.delayed@[0].0 > tick,
            due_done == old(qs).delayed@.skip(due_count(old(qs).delayed@, tick) as int),
            due_done.len() <= qs.delayed@.len(),
            qs.delayed@.subrange(0, due_done.len() as int) == due_done,
            forall|i: int| due_done.len() <= i < qs.delayed@.len() ==> deferred(#[trigger] qs.delayed@[i], tick),
            forall|i: int| 0 <= i < pending@.len() ==> act_safe((#[trigger] pending@[i].0, pending@[i].1, pending@[i].2)),
        decreases pending@.len() - a,
    {
        assert(act_safe((pending@[a as int].0, pending@[a as int].1, pending@[a as int].2)));
        let ghost u0 = ups@;
        apply_actuation(world, &mut ups, pending[a], Ghost(w0));
        proof {
            lemma_sent_grows(u0, ups@, broken@, broken_at);
            lemma_recorded_grows(w0, u0, ups@, qs.delayed@, qs.delayed@, processed@, tick);
        }
        a += 1;
    }
    let last_actuation = ups.len();
    let mut b: usize = first_actuation;
    while b < last_actuation
        invariant
            world.wf(),
            replays(*world, w0, ups@),
            grows(due_ups, ups@),
            broken_sent(ups@, broken@, broken_at),
            first_actuation <= b <= last_actuation <= ups@.len(),
            grows(pre_ups, ups@),
            evaluations_recorded(w0, ups@, qs.delayed@, processed@, tick),
            qs.delayed@.len() > 0 ==> qs.delayed@[0].0 > tick,
            due_done == old(qs).delayed@.skip(due_count(old(qs).delayed@, tick) as int),
            due_done.len() <= qs.delayed@.len(),
            qs.delayed@.subrange(0, due_done.len() as int) == due_done,
            forall|i: int| due_done.len() <= i < qs.delayed@.len() ==> deferred(#[trigger] qs.delayed@[i], tick),
        decreases last_actuation - b,
    {
        let (x, y, z, ns) = ups[b];
        if is_tick_safe((x, y, z)) {
            let ghost (u1, b1) = (ups@, broken@);
            notify(world, &mut ups, &mut broken, &mut qs.queue, (x, y, z), Ghost(w0));
            proof {
                broken_at = lemma_sent_notified(u1, ups@, b1, broken@, broken_at);
                lemma_recorded_grows(w0, u1, ups@, qs.delayed@, qs.delayed@, processed@, tick);
            }
            let id = block_id(ns);
            if id == 27 || id == 28 || id == 157 {
                let around = neighbours((x, y, z));
                let mut k: usize = 0;
                while k < 6
                    invariant
                        k <= 6,
                        evaluations_recorded(w0, ups@, qs.delayed@, processed@, tick),
                        qs.delayed@.len() > 0 ==> qs.delayed@[0].0 > tick,
                        due_done == old(qs).delayed@.skip(due_count(old(qs).delayed@, tick) as int),
                        due_done.len() <= qs.delayed@.len(),
                        qs.delayed@.subrange(0, due_done.len() as int) == due_done,
                        forall|i: int| due_done.len() <= i < qs.delayed@.len() ==> deferred(#[trigger] qs.delayed@[i], tick),
                    decreases 6 - k,
                {
                    schedule_update(&mut qs.queue, 0, around[k]);
                    k += 1;
                }
            }
        }
        b += 1;
    }
    proof {
        assert(due_count(d0, tick) == removed);
        assert(d0 == old(qs).delayed@);
        assert forall|i: int| #![trigger old(qs).delayed@[i]] 0 <= i < due_count(old(qs).delayed@, tick) implies exists|j: int|
            #![trigger ups@[j]]
            0 <= j < ups@.len() && ups@[j] == (
                old(qs).delayed@[i].1,
                old(qs).delayed@[i].2,
                old(qs).delayed@[i].3,
                old(qs).delayed@[i].4,
            ) by {
            assert(0 <= due_at[i] < due_ups.len());
            assert(ups@[due_at[i]] == due_ups[due_at[i]]);
        }
    }
    proof {
        assert forall|a: i32, b: i32, c: i32| #[trigger] plate_change(w0, occupied@, a, b, c) is Some implies exists|j: int|
            0 <= j < ups@.len() && #[trigger] ups@[j] == (a, b, c, plate_change(w0, occupied@, a, b, c)->0) by {
            let j = choose|j: int| 0 <= j < plate_ups.len() && #[trigger] plate_ups[j] == (a, b, c, plate_change(w0, occupied@, a, b, c)->0);
            assert(due_ups[j] == plate_ups[j]);
            assert(ups@[j] == due_ups[j]);
        }
    }
    proof {
        reveal(broken_sent);
        assert forall|i: int| #![trigger broken@[i]] 0 <= i < broken@.len() implies exists|j: int|
            #![trigger ups@[j]]
            0 <= j < ups@.len() && ups@[j] == (broken@[i].0, broken@[i].1, broken@[i].2, 0u16) by {
            assert(0 <= broken_at[i] < ups@.len());
        }
    }
    proof {
        lemma_early_grows(w0, pre_ups, ups@, queue_start as int, d0, tick);
    }
    let out = TickOutput { updates: ups, broken, processed, queue_start };
    assert(out.updates@ == ups@);
    assert(out.broken@ == broken@);
    assert(out.processed@ == processed@);
    out
}

/// A repeater or comparator placed by a player sends its signal in the
/// direction the player looks (south for yaw quarter 0, west for 1, north
/// for 2, east for 3) and so takes its input from the player's side.
pub proof fn diodes_face_away_from_the_player(b: u16, face: u8, look: Look, cursor_y: u8, damage: u8)
    requires
        b == 93 || b == 149,
        look.wf(),
    ensures
        facing_of(placed_meta(b, face, look, cursor_y, damage)) == if look.yaw_dir == 0 {
            (0i32, 1i32)
        } else if look.yaw_dir == 1 {
            (-1i32, 0i32)
        } else if look.yaw_dir == 2 {
            (0i32, -1i32)
        } else {
            (1i32, 0i32)
        },
{
}

/// A redstone torch placed against a side face of the block at (cx, cy, cz),
/// with the metadata placement gives it, reads that block: while it is an
/// opaque block that is not powered, a lit torch stays lit and an unlit one
/// lights; while it is powered, a lit torch goes out.
#[verifier::spinoff_prover]
#[verifier::rlimit(100)]
pub proof fn wall_torch_reads_its_block(
    w: WorldMap,
    face: u8,
    look: Look,
    cursor_y: u8,
    damage: u8,
    cx: int,
    cy: int,
    cz: int,
    tick: u64,
)
    requires
        2 <= face <= 5,
        stored_id(w.block_at(cx, cy, cz)) != 0,
        !transparent(stored_id(w.block_at(cx, cy, cz))),
    ensures
        ({
            let m = placed_meta(75, face, look, cursor_y, damage);
            let (x, y, z) = (cx + face_dx(face), cy, cz + face_dz(face));
            let lit = (75 + m * 4096) as u16;
            let unlit = (76 + m * 4096) as u16;
            &&& !block_powered(w, cx, cy, cz) ==> component_step(w, x, y, z, lit, tick).0 is None
                && component_step(w, x, y, z, unlit, tick).0 == Some(lit)
            &&& block_powered(w, cx, cy, cz) ==> component_step(w, x, y, z, lit, tick).0 == Some(unlit)
        }),
{
    let m = placed_meta(75, face, look, cursor_y, damage);
    let (x, y, z) = (cx + face_dx(face), cy, cz + face_dz(face));
    let lit = (75 + m * 4096) as u16;
    let unlit = (76 + m * 4096) as u16;
    lemma_torch_meta(face, look, cursor_y, damage);
    assert(stored_id(lit) == 75 && stored_meta(lit) == m && stored_id(unlit) == 76 && stored_meta(unlit) == m) by {
        assert(m == 1 || m == 2 || m == 3 || m == 4);
    }
    assert(x + torch_support(m).0 == cx && z + torch_support(m).1 == cz);
    lemma_torch_step(w, x, y, z, lit, tick);
    lemma_torch_step(w, x, y, z, unlit, tick);
}

/// A torch placed against side face 2, 3, 4 or 5 gets metadata 4, 3, 2 or
/// 1: it hangs on the block across that face.
proof fn lemma_torch_meta(face: u8, look: Look, cursor_y: u8, damage: u8)
    requires
        2 <= face <= 5,
    ensures
        placed_meta(75, face, look, cursor_y, damage) == 6 - face,
        face_dx(face) + torch_support((6 - face) as u8).0 == 0,
        face_dz(face) + torch_support((6 - face) as u8).1 == 0,
{
}

/// The step of a wall torch: lit exactly when the block it hangs on is an
/// opaque block that is not powered.
proof fn lemma_torch_step(w: WorldMap, x: int, y: int, z: int, stored: u16, tick: u64)
    requires
        stored_id(stored) == 75 || stored_id(stored) == 76,
        1 <= stored_meta(stored) <= 4,
        stored_meta(stored) < 16,
    ensures
        ({
            let m = stored_meta(stored);
            let s = w.block_at(x + torch_support(m).0, y, z + torch_support(m).1);
            let active = !(stored_id(s) == 0 || block_powered(w, x + torch_support(m).0, y, z + torch_support(m).1))
                && !transparent(stored_id(s));
            component_step(w, x, y, z, stored, tick).0 == if active != (stored_id(stored) == 75) {
                Some(((if active {
                    75int
                } else {
                    76int
                }) + m * 4096) as u16)
            } else {
                None
            }
        }),
{
}

/// A change put off by a component is due after the current tick.
#[verifier::spinoff_prover]
#[verifier::rlimit(40)]
proof fn lemma_later_after(w: WorldMap, x: int, y: int, z: int, stored: u16, tick: u64)
    requires
        tick <= u64::MAX - 8,
    ensures
        match component_step(w, x, y, z, stored, tick).1 {
            Some(e) => tick < e.0 <= tick + 4 && (stored_id(e.1) == 93 || stored_id(e.1) == 94),
            None => true,
        },
{
    let block = stored_id(stored);
    let m = stored_meta(stored);
    assert(0 <= (m / 4) % 4 < 4);
    assert(m < 16);
    if block == 93 || block == 94 {
        let f = facing_of(m);
        let should_on = power_of(w.block_at(x - f.0, y, z - f.1)) > 0;
        let id: int = if should_on {
            94
        } else {
            93
        };
        let v: int = id + m * 4096;
        assert(v % 4096 == id && 0 <= v < 65536) by (nonlinear_arith)
            requires
                v == id + m * 4096,
                0 <= m < 16,
                93 <= id <= 94,
        ;
        if should_on != (block == 94) {
            assert(component_step(w, x, y, z, stored, tick).1 == Some(((tick + (m / 4) % 4 + 1) as u64, v as u16)));
        }
    }
}

/// Changes asked by an actuated block stay within one block of it.
proof fn lemma_actuations_near(w: WorldMap, x: int, y: int, z: int, powered: bool)
    ensures
        forall|i: int|
            0 <= i < actuations(w, x, y, z, powered).len() ==> {
                let e = #[trigger] actuations(w, x, y, z, powered)[i];
                e.0 == x && y <= e.1 <= y + 1 && e.2 == z
            },
{
}

/// After a reset, the world is the one before it with each reset wire set
/// to plain wire, which is what the recorded changes replay.
proof fn lemma_reset_replay(
    now: WorldMap,
    before: WorldMap,
    w0: WorldMap,
    ups: Seq<Update>,
    start: int,
    reset: Seq<Pos>,
)
    requires
        0 <= start <= ups.len(),
        ups.len() == start + reset.len(),
        replays(before, w0, ups.subrange(0, start)),
        forall|i: int| 0 <= i < reset.len() ==> 0 <= #[trigger] reset[i].1 < 256,
        forall|j: int| 0 <= j < reset.len() ==> #[trigger] ups[start + j] == (reset[j].0, reset[j].1, reset[j].2, 55u16),
        forall|i: int|
            0 <= i < reset.len() ==> now.block_at(#[trigger] reset[i].0 as int, reset[i].1 as int, reset[i].2 as int)
                == 55,
        forall|a: int, b: int, c: int|
            (forall|i: int| 0 <= i < reset.len() ==> reset[i] != (a as i32, b as i32, c as i32))
                && i32::MIN <= a <= i32::MAX && i32::MIN <= b <= i32::MAX && i32::MIN <= c
                <= i32::MAX ==> #[trigger] now.block_at(a, b, c) == before.block_at(a, b, c),
    ensures
        replays(now, w0, ups),
{
    assert(ups.subrange(0, start + reset.len()) =~= ups);
    assert forall|a: i32, b: i32, c: i32| #[trigger] now.block_at(a as int, b as int, c as int) == after_updates(w0, ups, a as int, b as int, c as int) by {
        lemma_replay_suffix(before, w0, ups, start, reset, a, b, c, reset.len() as int);
        if exists|j: int| 0 <= j < reset.len() && reset[j].0 == a && reset[j].1 == b && reset[j].2 == c {
            let j = choose|j: int| 0 <= j < reset.len() && reset[j].0 == a && reset[j].1 == b && reset[j].2 == c;
            assert(reset[j] == (a, b, c));
            assert(now.block_at(reset[j].0 as int, reset[j].1 as int, reset[j].2 as int) == 55);
        } else {
            assert forall|i: int| 0 <= i < reset.len() implies reset[i] != (a as int as i32, b as int as i32, c as int as i32) by {
                if reset[i] == (a, b, c) {
                    assert(reset[i].0 == a && reset[i].1 == b && reset[i].2 == c);
                }
            }
            assert(now.block_at(a as int, b as int, c as int) == before.block_at(a as int, b as int, c as int));
        }
    }
}

proof fn lemma_replay_suffix(
    before: WorldMap,
    w0: WorldMap,
    ups: Seq<Update>,
    start: int,
    reset: Seq<Pos>,
    a: i32,
    b: i32,
    c: i32,
    k: int,
)
    requires
        0 <= start,
        0 <= k <= reset.len(),
        start + reset.len() <= ups.len(),
        replays(before, w0, ups.subrange(0, start)),
        forall|i: int| 0 <= i < reset.len() ==> 0 <= #[trigger] reset[i].1 < 256,
        forall|j: int| 0 <= j < reset.len() ==> #[trigger] ups[start + j] == (reset[j].0, reset[j].1, reset[j].2, 55u16),
    ensures
        after_updates(w0, ups.subrange(0, start + k), a as int, b as int, c as int) == if exists|j: int|
            0 <= j < k && reset[j].0 == a && reset[j].1 == b && reset[j].2 == c {
            55u16
        } else {
            before.block_at(a as int, b as int, c as int)
        },
    decreases k,
{
    if k == 0 {
        assert(before.block_at(a as int, b as int, c as int) == after_updates(w0, ups.subrange(0, start), a as int, b as int, c as int));
    } else {
        lemma_replay_suffix(before, w0, ups, start, reset, a, b, c, k - 1);
        let s = ups.subrange(0, start + k);
        assert(s.drop_last() =~= ups.subrange(0, start + k - 1));
        assert(s.last() == ups[start + k - 1]);
        assert(ups[start + (k - 1)] == (reset[k - 1].0, reset[k - 1].1, reset[k - 1].2, 55u16));
    }
}

} // verus!
