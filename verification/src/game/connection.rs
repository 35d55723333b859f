//! Rules applied to a player's actions: which blocks react to a click,
//! what a placed block looks like, what falls when its support goes, the
//! chunks in view and where a player can spawn.

use vstd::prelude::*;
use crate::packets::{stored_id, stored_meta};
use vstd::string::StrSliceExecFns;
use crate::game::redstone::{piston_dir, piston_offset};
use crate::util::{face_dx, face_dy, face_dz, push_char};
use crate::world::{clear_block, get_block, set_block, WorldMap};

verus! {

/// Blocks that react to a right click (doors, switches, containers...).
pub open spec fn interactive(id: u16) -> bool {
    ||| id == 23 || id == 25 || id == 26 || id == 54 || id == 58 || id == 61 || id == 62
    ||| id == 64 || id == 69 || id == 71 || id == 77 || id == 84 || id == 92 || id == 93
    ||| id == 94 || id == 96 || id == 107 || id == 116 || id == 117 || id == 118 || id == 130
    ||| id == 137 || id == 138 || id == 143 || id == 144 || id == 145 || id == 146 || id == 154
    ||| id == 158 || id == 167 || id == 183 || id == 184 || id == 185 || id == 186
}

/// Whether a right click on the stored block interacts with it instead of
/// placing a block.
pub fn is_interactive_block(stored: u16) -> (r: bool)
    ensures
        r == interactive(stored_id(stored)),
{
    let id = stored % 4096;
    matches!(id,
        23 | 25 | 26 | 54 | 58 | 61 | 62 | 64 | 69 | 71 |
        77 | 84 | 92 | 93 | 94 | 96 | 107 | 116 | 117 | 118 | 130 |
        137 | 138 | 143 | 144 | 145 | 146 | 154 | 158 | 167 |
        183 | 184 | 185 | 186)
}

/// The stored value after a right click: doors, trapdoors and gates flip
/// their open bit (4), levers and buttons their on bit (8), repeaters cycle
/// their delay (bits 2-3) keeping their facing; other blocks do not toggle.
pub open spec fn toggled(stored: u16) -> Option<u16> {
    let id = stored_id(stored);
    let m = stored_meta(stored);
    if id == 64 || id == 71 || id == 96 || id == 167 || id == 107 || id == 183 || id == 184 || id
        == 185 || id == 186 {
        Some((id + ((m ^ 4u8) as u16) * 4096) as u16)
    } else if id == 69 || id == 77 || id == 143 {
        Some((id + ((m ^ 8u8) as u16) * 4096) as u16)
    } else if id == 93 || id == 94 {
        let delay = (m / 4) % 4;
        let new_delay = (delay + 1) % 4;
        Some((id + (m % 4 + new_delay * 4) * 4096) as u16)
    } else {
        None
    }
}

/// New stored value of a block a player right-clicks, if it toggles.
pub fn toggle_block(stored: u16) -> (r: Option<u16>)
    ensures
        r == toggled(stored),
{
    let block_id = stored % 4096;
    let meta: u8 = (stored / 4096) as u8;
    match block_id {
        64 | 71 | 96 | 167 | 107 | 183 | 184 | 185 | 186 => {
            let nm: u8 = meta ^ 4;
            assert(nm < 16) by (bit_vector)
                requires
                    nm == meta ^ 4,
                    meta < 16,
            ;
            Some(block_id + (nm as u16) * 4096)
        },
        69 | 77 | 143 => {
            let nm: u8 = meta ^ 8;
            assert(nm < 16) by (bit_vector)
                requires
                    nm == meta ^ 8,
                    meta < 16,
            ;
            Some(block_id + (nm as u16) * 4096)
        },
        93 | 94 => {
            let facing = meta % 4;
            let delay = (meta / 4) % 4;
            let new_delay = (delay + 1) % 4;
            let new_meta = facing + new_delay * 4;
            Some(block_id + (new_meta as u16) * 4096)
        },
        _ => None,
    }
}

/// Right-clicking a door, trapdoor, fence gate, lever or button twice gives
/// back the block it started as.
pub proof fn toggle_twice_restores(stored: u16)
    requires
        toggled(stored) is Some,
        stored_id(stored) != 93,
        stored_id(stored) != 94,
    ensures
        toggled(toggled(stored).unwrap()) == Some(stored),
{
    let id = stored_id(stored);
    let m = stored_meta(stored);
    assert(m < 16);
    assert((m ^ 4u8) ^ 4u8 == m && m ^ 4u8 < 16) by (bit_vector)
        requires
            m < 16,
    ;
    assert((m ^ 8u8) ^ 8u8 == m && m ^ 8u8 < 16) by (bit_vector)
        requires
            m < 16,
    ;
    let t = toggled(stored).unwrap();
    assert(stored == id + (m as u16) * 4096);
    assert(stored_id(t) == id);
}

proof fn lemma_repeater_step(stored: u16)
    requires
        stored_id(stored) == 93 || stored_id(stored) == 94,
    ensures
        toggled(stored) is Some,
        stored_id(toggled(stored).unwrap()) == stored_id(stored),
        stored_meta(toggled(stored).unwrap()) % 4 == stored_meta(stored) % 4,
        stored_meta(toggled(stored).unwrap()) / 4 == (stored_meta(stored) / 4 + 1) % 4,
{
    let id = stored_id(stored);
    let m = stored_meta(stored);
    let f = m % 4;
    let d = (m / 4) % 4;
    let nm = f + ((d + 1) % 4) * 4;
    assert(m < 16);
    assert(m / 4 < 4);
    assert(nm < 16);
    let t = (id + nm * 4096) as u16;
    assert(toggled(stored) == Some(t));
    assert(t / 4096 == nm) by (nonlinear_arith)
        requires
            t == id + nm * 4096,
            id < 4096,
            0 <= nm < 16,
    ;
    assert(t % 4096 == id) by (nonlinear_arith)
        requires
            t == id + nm * 4096,
            id < 4096,
            0 <= nm < 16,
    ;
}

/// Right-clicking a repeater four times gives back the block it started as
/// (its delay goes round its four settings).
#[verifier::spinoff_prover]
#[verifier::rlimit(30)]
pub proof fn repeater_cycle_restores(stored: u16)
    requires
        stored_id(stored) == 93 || stored_id(stored) == 94,
    ensures
        toggled(toggled(toggled(toggled(stored).unwrap()).unwrap()).unwrap()) == Some(stored),
{
    lemma_repeater_step(stored);
    let t1 = toggled(stored).unwrap();
    lemma_repeater_step(t1);
    let t2 = toggled(t1).unwrap();
    lemma_repeater_step(t2);
    let t3 = toggled(t2).unwrap();
    lemma_repeater_step(t3);
    let t4 = toggled(t3).unwrap();
    let m = stored_meta(stored);
    let m4 = stored_meta(t4);
    assert(m < 16 && m4 < 16);
    assert(m4 / 4 == m / 4);
    assert(m4 == m);
    let id = stored_id(stored);
    assert(stored == id + m * 4096) by (nonlinear_arith)
        requires
            id == stored % 4096,
            m == stored / 4096,
    ;
    assert(t4 == stored_id(t4) + m4 * 4096) by (nonlinear_arith)
        requires
            stored_id(t4) == t4 % 4096,
            m4 == t4 / 4096,
    ;
    assert(stored_id(t4) == id);
    assert(t4 == stored);
}

/// Block id placed by an item id (doors, buckets, repeater, comparator,
/// bed, cake, sign and redstone have an item of their own).
pub open spec fn placed_block(item_id: i16) -> u16 {
    if item_id == 324 {
        64
    } else if item_id == 330 {
        71
    } else if item_id == 326 {
        9
    } else if item_id == 327 {
        11
    } else if item_id == 356 {
        93
    } else if item_id == 404 {
        149
    } else if item_id == 355 {
        26
    } else if item_id == 354 {
        92
    } else if item_id == 323 {
        63
    } else if item_id == 331 {
        55
    } else {
        item_id as u16
    }
}

/// Block id placed by an item id.
pub fn item_to_block_id(item_id: i16) -> (b: u16)
    ensures
        b == placed_block(item_id),
{
    match item_id {
        324 => 64,
        330 => 71,
        326 => 9,
        327 => 11,
        356 => 93,
        404 => 149,
        355 => 26,
        354 => 92,
        323 => 63,
        331 => 55,
        _ => item_id as u16,
    }
}

/// Block ids a player may place.
pub open spec fn placeable(b: u16) -> bool {
    ||| 1 <= b <= 7 || b == 9 || (11 <= b <= 33) || b == 35 || (37 <= b <= 50)
    ||| (52 <= b <= 58) || (60 <= b <= 61) || (63 <= b <= 73) || (75 <= b <= 89)
    ||| (91 <= b <= 93) || (96 <= b <= 103) || (106 <= b <= 114) || (116 <= b <= 118)
    ||| (120 <= b <= 121) || b == 123 || (125 <= b <= 126) || (128 <= b <= 131)
    ||| (133 <= b <= 139) || (141 <= b <= 149) || (151 <= b <= 165) || (167 <= b <= 198)
}

/// Whether `b` is a stairs block.
pub open spec fn is_stairs(b: u16) -> bool {
    b == 53 || b == 67 || b == 108 || b == 109 || b == 114 || b == 128 || b == 134 || b == 135 || b
        == 136 || b == 156 || b == 163 || b == 164 || b == 180 || b == 203
}

/// Stairs take their direction from the quarter the player looks along:
/// looking south (yaw quarter 0) gives 2, west (1) gives 1, north (2) gives
/// 3, east (3) gives 0; placed against the bottom face of a block they are
/// upside down (bit 4). Turning round gives the opposite direction.
pub proof fn stairs_face_the_player(b: u16, face: u8, look: Look, cursor_y: u8, damage: u8)
    requires
        is_stairs(b),
        look.wf(),
    ensures
        placed_meta(b, face, look, cursor_y, damage) % 4 == if look.yaw_dir == 0 {
            2u8
        } else if look.yaw_dir == 1 {
            1u8
        } else if look.yaw_dir == 2 {
            3u8
        } else {
            0u8
        },
        placed_meta(b, face, look, cursor_y, damage) / 4 == if face == 0 {
            1u8
        } else {
            0u8
        },
        ({
            let back = Look { yaw_dir: ((look.yaw_dir + 2) % 4) as u8, ..look };
            placed_meta(b, face, back, cursor_y, damage) == placed_meta(b, face, look, cursor_y, damage) ^ 1u8
        }),
{
    let m = placed_meta(b, face, look, cursor_y, damage);
    let back = Look { yaw_dir: ((look.yaw_dir + 2) % 4) as u8, ..look };
    let mb = placed_meta(b, face, back, cursor_y, damage);
    assert(m == 2u8 || m == 1u8 || m == 3u8 || m == 0u8 || m == 6u8 || m == 5u8 || m == 7u8 || m == 4u8);
    assert(2u8 ^ 1u8 == 3u8 && 3u8 ^ 1u8 == 2u8 && 1u8 ^ 1u8 == 0u8 && 0u8 ^ 1u8 == 1u8) by (bit_vector);
    assert(6u8 ^ 1u8 == 7u8 && 7u8 ^ 1u8 == 6u8 && 5u8 ^ 1u8 == 4u8 && 4u8 ^ 1u8 == 5u8) by (bit_vector);
}

/// Cactus stands only on the top face of sand; saplings and flowers (6,
/// 37, 38) only on the top face of grass, dirt or farmland; sugar cane only
/// on the top face of grass, dirt or sand.
pub proof fn plants_need_their_soil(face: u8, support_block: u16)
    ensures
        placeable_on(81, face, support_block) <==> face == 1 && support_block % 4096 == 12,
        forall|b: u16|
            (b == 6 || b == 37 || b == 38) ==> (#[trigger] placeable_on(b, face, support_block) <==> face == 1 && (
            support_block % 4096 == 2 || support_block % 4096 == 3 || support_block % 4096 == 60)),
        placeable_on(83, face, support_block) <==> face == 1 && (support_block % 4096 == 2 || support_block
            % 4096 == 3 || support_block % 4096 == 12),
{
}

/// Whether `b` hangs on, or stands on, the block it was placed against:
/// torches, ladders, levers and buttons.
pub open spec fn attached_block(b: u16) -> bool {
    b == 50 || b == 75 || b == 76 || b == 65 || b == 69 || b == 77 || b == 143
}

/// A torch, ladder, lever or button placed against face `face` of the block
/// at (cx, cy, cz), with the metadata placement gives it, has not lost its
/// support while that block stands: the block it checks is the one it was
/// placed against.
pub proof fn placed_attachments_hold(
    w: WorldMap,
    b: u16,
    face: u8,
    look: Look,
    cursor_y: u8,
    damage: u8,
    cx: int,
    cy: int,
    cz: int,
)
    requires
        attached_block(b),
        face <= 5,
        placeable_on(b, face, w.block_at(cx, cy, cz)),
    ensures
        !unsupported(
            w,
            cx + face_dx(face),
            cy + face_dy(face),
            cz + face_dz(face),
            b,
            placed_meta(b, face, look, cursor_y, damage),
        ),
{
    let m = placed_meta(b, face, look, cursor_y, damage);
    assert(stored_id(w.block_at(cx, cy, cz)) != 0);
    assert(reader(w)(cx, cy, cz) == w.block_at(cx, cy, cz));
}

/// Whether a block id may be placed by a player.
pub fn is_valid_placeable_block(block_id: u16) -> (r: bool)
    ensures
        r == placeable(block_id),
{
    matches!(block_id,
        1 | 2 | 3 | 4 | 5 | 6 | 7 |
        9 | 11 | 12 | 13 | 14 | 15 | 16 | 17 | 18 | 19 |
        20 | 21 | 22 | 23 | 24 | 25 | 26 | 27 | 28 | 29 |
        30 | 31 | 32 | 33 | 35 |
        37 | 38 | 39 | 40 | 41 | 42 | 43 | 44 | 45 | 46 |
        47 | 48 | 49 | 50 | 52 | 53 | 54 | 55 | 56 | 57 |
        58 | 60 | 61 | 63 | 64 | 65 | 66 | 67 | 68 | 69 | 70 | 71 |
        72 | 73 | 75 | 76 | 77 | 78 | 79 | 80 | 81 | 82 |
        83 | 84 | 85 | 86 | 87 | 88 | 89 | 91 | 92 | 93 |
        96 | 97 | 98 | 99 | 100 | 101 | 102 | 103 |
        106 | 107 | 108 | 109 | 110 | 111 | 112 | 113 | 114 |
        116 | 117 | 118 | 120 | 121 | 123 |
        125 | 126 | 128 | 129 | 130 | 131 | 133 | 134 | 135 |
        136 | 137 | 138 | 139 | 141 | 142 | 143 | 144 | 145 |
        146 | 147 | 148 | 149 | 151 | 152 | 153 | 154 | 155 |
        156 | 157 | 158 | 159 | 160 | 161 | 162 | 163 | 164 |
        165 | 167 | 168 | 169 | 170 | 171 | 172 | 173 | 174 |
        175 | 176 | 177 | 178 | 179 | 180 | 181 | 182 | 183 |
        184 | 185 | 186 | 187 | 188 | 189 | 190 | 191 | 192 |
        193 | 194 | 195 | 196 | 197 | 198)
}

/// A side face of a block (2 north, 3 south, 4 west, 5 east).
pub open spec fn side_face(face: u8) -> bool {
    2 <= face <= 5
}

/// Whether `block_id` may be placed against face `face` of `support_block`:
/// torches, rails, wall items and plants need a suitable support.
pub open spec fn placeable_on(block_id: u16, face: u8, support_block: u16) -> bool {
    let support = stored_id(support_block);
    let solid = support != 0;
    if block_id == 50 || block_id == 75 || block_id == 76 {
        (face == 1 || side_face(face)) && solid
    } else if block_id == 55 {
        face == 1 && solid
    } else if block_id == 27 || block_id == 28 || block_id == 66 || block_id == 157 {
        (face == 1 || side_face(face)) && solid
    } else if block_id == 65 {
        side_face(face) && solid
    } else if block_id == 6 || block_id == 37 || block_id == 38 {
        face == 1 && (support == 2 || support == 3 || support == 60)
    } else if block_id == 39 || block_id == 40 {
        face == 1 && solid
    } else if block_id == 70 || block_id == 72 || block_id == 147 || block_id == 148 {
        face == 1 && solid
    } else if block_id == 69 || block_id == 77 || block_id == 143 {
        solid
    } else if block_id == 78 {
        face == 1 && solid
    } else if block_id == 81 {
        face == 1 && support == 12
    } else if block_id == 83 {
        face == 1 && (support == 2 || support == 3 || support == 12)
    } else if block_id == 106 {
        side_face(face) && solid
    } else if block_id == 111 {
        face == 1 && (support == 8 || support == 9)
    } else if block_id == 131 {
        side_face(face) && solid
    } else if block_id == 171 || block_id == 63 {
        face == 1 && solid
    } else if block_id == 68 {
        side_face(face) && solid
    } else {
        true
    }
}

/// Whether `block_id` can be placed on `face` of `support_block`.
pub fn can_place_on(block_id: u16, face: u8, support_block: u16) -> (r: bool)
    ensures
        r == placeable_on(block_id, face, support_block),
{
    let support = support_block % 4096;
    let solid = support != 0;
    let side = 2 <= face && face <= 5;
    match block_id {
        50 | 75 | 76 => (face == 1 || side) && solid,
        55 => face == 1 && solid,
        27 | 28 | 66 | 157 => (face == 1 || side) && solid,
        65 => side && solid,
        6 => face == 1 && matches!(support, 2 | 3 | 60),
        37 | 38 => face == 1 && matches!(support, 2 | 3 | 60),
        39 | 40 => face == 1 && solid,
        70 | 72 | 147 | 148 => face == 1 && solid,
        69 | 77 | 143 => solid,
        78 => face == 1 && solid,
        81 => face == 1 && support == 12,
        83 => face == 1 && matches!(support, 2 | 3 | 12),
        106 => side && solid,
        111 => face == 1 && (support == 8 || support == 9),
        131 => side && solid,
        171 => face == 1 && solid,
        63 => face == 1 && solid,
        68 => side && solid,
        _ => true,
    }
}

/// Direction a player looks in: the horizontal quarter of the yaw
/// (0 south, 1 west, 2 north, 3 east), the sixteenth of the yaw used by
/// standing signs, and whether the pitch is steeply down (over 45 degrees)
/// or steeply up (under -45 degrees).
pub struct Look {
    pub yaw_dir: u8,
    pub rotation16: u8,
    pub steep_down: bool,
    pub steep_up: bool,
}

impl Look {
    /// Both directions are in range.
    pub open spec fn wf(&self) -> bool {
        self.yaw_dir < 4 && self.rotation16 < 16
    }
}

/// Orientation of a log from the face clicked: 0 vertical, 4 east-west,
/// 8 north-south.
pub open spec fn log_axis(face: u8) -> u8 {
    if face == 4 || face == 5 {
        4
    } else if face == 2 || face == 3 {
        8
    } else {
        0
    }
}

/// Metadata of a rail placed from a face or a look direction.
pub open spec fn rail_meta(face: u8, yaw_dir: u8) -> u8 {
    if face == 2 {
        4
    } else if face == 3 {
        5
    } else if face == 4 {
        3
    } else if face == 5 {
        2
    } else if yaw_dir == 0 || yaw_dir == 2 {
        0
    } else {
        1
    }
}

/// Element `i` of a table of four bytes.
pub open spec fn pick4(a: u8, b: u8, c: u8, d: u8, i: u8) -> u8 {
    if i == 0 {
        a
    } else if i == 1 {
        b
    } else if i == 2 {
        c
    } else {
        d
    }
}

/// Metadata of a block placed against face `face` by a player looking in
/// direction `look`, the item having damage value `damage` and the cursor
/// height on the face being `cursor_y`.
pub open spec fn placed_meta(block_id: u16, face: u8, look: Look, cursor_y: u8, damage: u8) -> u8 {
    let yd = look.yaw_dir;
    let b = block_id;
    if b == 5 || b == 35 || b == 159 || b == 171 || b == 6 || b == 18 || b == 175 || b == 160 {
        damage % 16
    } else if b == 168 || b == 24 || b == 97 || b == 98 || b == 155 || b == 31 {
        damage % 4
    } else if b == 44 {
        (damage % 8 + if face == 0 {
            8u8
        } else {
            0u8
        }) as u8
    } else if b == 126 {
        (damage % 4 + if face == 0 {
            8u8
        } else {
            0u8
        }) as u8
    } else if b == 43 || b == 181 {
        damage % 8
    } else if b == 125 {
        damage % 4
    } else if b == 182 {
        (damage % 8 + if face == 0 {
            8u8
        } else {
            0u8
        }) as u8
    } else if b == 17 || b == 161 || b == 162 {
        (damage % 4 + log_axis(face)) as u8
    } else if b == 170 {
        log_axis(face)
    } else if b == 65 {
        if side_face(face) {
            face
        } else {
            2
        }
    } else if b == 50 || b == 75 || b == 76 {
        if face == 2 {
            4
        } else if face == 3 {
            3
        } else if face == 4 {
            2
        } else if face == 5 {
            1
        } else {
            5
        }
    } else if b == 69 {
        if face == 0 {
            0
        } else if face == 1 {
            5
        } else if face == 2 {
            3
        } else if face == 3 {
            4
        } else if face == 4 {
            1
        } else if face == 5 {
            2
        } else {
            0
        }
    } else if b == 77 || b == 143 {
        if face == 0 {
            0
        } else if face == 1 {
            5
        } else if face == 2 {
            4
        } else if face == 3 {
            3
        } else if face == 4 {
            2
        } else if face == 5 {
            1
        } else {
            0
        }
    } else if b == 53 || b == 67 || b == 108 || b == 109 || b == 114 || b == 128 || b == 134 || b
        == 135 || b == 136 || b == 156 || b == 163 || b == 164 || b == 180 || b == 203 {
        (pick4(2, 1, 3, 0, yd) + if face == 0 {
            4u8
        } else {
            0u8
        }) as u8
    } else if b == 54 || b == 61 || b == 62 || b == 130 || b == 23 || b == 158 {
        if face == 3 {
            3
        } else if face == 4 {
            5
        } else if face == 5 {
            4
        } else {
            2
        }
    } else if b == 29 || b == 33 {
        if face == 0 {
            0
        } else if face == 1 {
            if look.steep_down {
                1
            } else if look.steep_up {
                0
            } else {
                pick4(2, 5, 3, 4, yd)
            }
        } else if side_face(face) {
            face
        } else {
            1
        }
    } else if b == 34 {
        if face <= 5 {
            face
        } else {
            0
        }
    } else if b == 96 || b == 167 {
        if face == 0 {
            pick4(1, 2, 0, 3, yd)
        } else if face == 1 {
            (pick4(1, 2, 0, 3, yd) + 8) as u8
        } else if side_face(face) {
            (face - 2 + if cursor_y > 8 {
                8u8
            } else {
                0u8
            }) as u8
        } else {
            0
        }
    } else if b == 107 || b == 183 || b == 184 || b == 185 || b == 186 {
        yd
    } else if b == 64 || b == 71 {
        ((yd + 1) % 4) as u8
    } else if b == 26 {
        if side_face(face) {
            (face - 2) as u8
        } else {
            0
        }
    } else if b == 63 {
        look.rotation16
    } else if b == 68 {
        face
    } else if b == 93 || b == 149 {
        ((yd + 2) % 4) as u8
    } else if b == 66 || b == 27 || b == 28 || b == 157 {
        rail_meta(face, yd)
    } else {
        0
    }
}

/// Metadata of a placed block: its subtype from the item damage, and its
/// orientation from the face clicked and the player's look.
pub fn block_metadata(block_id: u16, face: u8, look: &Look, cursor_y: u8, damage: u8) -> (m: u8)
    requires
        look.wf(),
    ensures
        m == placed_meta(block_id, face, *look, cursor_y, damage),
{
    let yaw_dir = look.yaw_dir;
    match block_id {
        5 | 35 | 159 | 171 => damage % 16,
        168 => damage % 4,
        24 | 97 | 98 | 155 => damage % 4,
        31 => damage % 4,
        6 | 18 | 175 => damage % 16,
        160 => damage % 16,
        44 => damage % 8 + if face == 0 { 8 } else { 0 },
        126 => damage % 4 + if face == 0 { 8 } else { 0 },
        43 => damage % 8,
        125 => damage % 4,
        181 => damage % 8,
        182 => damage % 8 + if face == 0 { 8 } else { 0 },
        17 | 161 | 162 => {
            let orientation: u8 = match face {
                0 | 1 => 0,
                4 | 5 => 4,
                2 | 3 => 8,
                _ => 0,
            };
            damage % 4 + orientation
        },
        170 => match face {
            0 | 1 => 0,
            4 | 5 => 4,
            2 | 3 => 8,
            _ => 0,
        },
        65 => match face {
            2 | 3 | 4 | 5 => face,
            _ => 2,
        },
        50 | 75 | 76 => match face {
            0 | 1 => 5,
            2 => 4,
            3 => 3,
            4 => 2,
            5 => 1,
            _ => 5,
        },
        69 => match face {
            0 => 0,
            1 => 5,
            2 => 3,
            3 => 4,
            4 => 1,
            5 => 2,
            _ => 0,
        },
        77 | 143 => match face {
            0 => 0,
            1 => 5,
            2 => 4,
            3 => 3,
            4 => 2,
            5 => 1,
            _ => 0,
        },
        53 | 67 | 108 | 109 | 114 | 128 | 134 | 135 | 136 | 156 | 163 | 164 | 180 | 203 => {
            let stair_dir: u8 = match yaw_dir {
                0 => 2,
                1 => 1,
                2 => 3,
                _ => 0,
            };
            stair_dir + if face == 0 { 4 } else { 0 }
        },
        54 | 61 | 62 | 130 | 23 | 158 => match face {
            2 => 2,
            3 => 3,
            4 => 5,
            5 => 4,
            _ => 2,
        },
        29 | 33 => {
            if face == 0 {
                0
            } else if face == 1 && look.steep_down {
                1
            } else if face == 1 && look.steep_up {
                0
            } else if face == 1 {
                match yaw_dir {
                    0 => 2,
                    1 => 5,
                    2 => 3,
                    _ => 4,
                }
            } else if 2 <= face && face <= 5 {
                face
            } else {
                1
            }
        },
        34 => if face <= 5 { face } else { 0 },
        96 | 167 => {
            if face == 0 || face == 1 {
                let dir: u8 = match yaw_dir {
                    0 => 1,
                    1 => 2,
                    2 => 0,
                    _ => 3,
                };
                if face == 0 { dir } else { dir + 8 }
            } else if 2 <= face && face <= 5 {
                (face - 2) + if cursor_y > 8 { 8 } else { 0 }
            } else {
                0
            }
        },
        107 | 183 | 184 | 185 | 186 => yaw_dir,
        64 | 71 => (yaw_dir + 1) % 4,
        26 => if 2 <= face && face <= 5 { face - 2 } else { 0 },
        63 => look.rotation16,
        68 => face,
        93 | 149 => (yaw_dir + 2) % 4,
        66 | 27 | 28 | 157 => {
            if face == 2 {
                4
            } else if face == 3 {
                5
            } else if face == 4 {
                3
            } else if face == 5 {
                2
            } else if yaw_dir == 0 || yaw_dir == 2 {
                0
            } else {
                1
            }
        },
        _ => 0,
    }
}


/// Whether the block at (x, y, z) is air (id 0).
pub open spec fn air_at(w: WorldMap, x: int, y: int, z: int) -> bool {
    stored_id(w.block_at(x, y, z)) == 0
}

/// Offset from a wall torch (metadata 1 to 4) to the block it hangs on.
pub open spec fn wall_offset(m: u8) -> (int, int) {
    let t = m % 8;
    if t == 1 {
        (-1, 0)
    } else if t == 2 {
        (1, 0)
    } else if t == 3 {
        (0, -1)
    } else if t == 4 {
        (0, 1)
    } else {
        (0, 0)
    }
}

/// Offset from a ladder (metadata 2 to 5) to the block it leans on.
pub open spec fn ladder_offset(m: u8) -> (int, int) {
    if m == 2 {
        (0, 1)
    } else if m == 3 {
        (0, -1)
    } else if m == 4 {
        (1, 0)
    } else if m == 5 {
        (-1, 0)
    } else {
        (0, 0)
    }
}

/// Whether the block read through `rd` at (x, y, z) is air.
pub open spec fn air_in(rd: spec_fn(int, int, int) -> u16, x: int, y: int, z: int) -> bool {
    stored_id(rd(x, y, z)) == 0
}

/// Whether the block `block_id` (metadata `m`) at (x, y, z), in the world
/// read through `rd`, has lost what
/// holds it: torches, ladders, levers and buttons their wall, floor or
/// ceiling (the face that was clicked when they were placed, as
/// `placed_meta` records it); wire, rails, plates, snow and carpet the block
/// below; plants their soil; vines every side block.
pub open spec fn unsupported_by(rd: spec_fn(int, int, int) -> u16, x: int, y: int, z: int, block_id: u16, m: u8) -> bool {
    if block_id == 50 || block_id == 75 || block_id == 76 {
        if m == 5 {
            air_in(rd, x, y - 1, z)
        } else {
            air_in(rd, x + wall_offset(m).0, y, z + wall_offset(m).1)
        }
    } else if block_id == 65 {
        air_in(rd, x + ladder_offset(m).0, y, z + ladder_offset(m).1)
    } else if block_id == 69 {
        let t = m % 8;
        if t == 0 {
            air_in(rd, x, y + 1, z)
        } else if t == 5 {
            air_in(rd, x, y - 1, z)
        } else if t == 1 {
            air_in(rd, x + 1, y, z)
        } else if t == 2 {
            air_in(rd, x - 1, y, z)
        } else if t == 3 {
            air_in(rd, x, y, z + 1)
        } else if t == 4 {
            air_in(rd, x, y, z - 1)
        } else {
            false
        }
    } else if block_id == 77 || block_id == 143 {
        let t = m % 8;
        if t == 0 {
            air_in(rd, x, y + 1, z)
        } else if t == 5 {
            air_in(rd, x, y - 1, z)
        } else if t == 4 {
            air_in(rd, x, y, z + 1)
        } else if t == 3 {
            air_in(rd, x, y, z - 1)
        } else if t == 2 {
            air_in(rd, x + 1, y, z)
        } else if t == 1 {
            air_in(rd, x - 1, y, z)
        } else {
            false
        }
    } else if block_id == 27 || block_id == 28 || block_id == 55 || block_id == 66 || block_id == 70
        || block_id == 72 || block_id == 78 || block_id == 147 || block_id == 148 || block_id == 157
        || block_id == 83 || block_id == 171 {
        y == 0 || air_in(rd, x, y - 1, z)
    } else if block_id == 6 || block_id == 31 || block_id == 32 || block_id == 37 || block_id == 38
        || block_id == 39 || block_id == 40 {
        let below = stored_id(rd(x, y - 1, z));
        y == 0 || (below != 2 && below != 3 && below != 60)
    } else if block_id == 81 {
        y == 0 || air_in(rd, x, y - 1, z) || stored_id(rd(x, y - 1, z)) != 12
    } else if block_id == 106 {
        rd(x, y, z - 1) == 0 && rd(x, y, z + 1) == 0 && rd(x - 1, y, z)
            == 0 && rd(x + 1, y, z) == 0
    } else {
        false
    }
}


/// Whether the block `block_id` (metadata `m`) at (x, y, z) of `w` has lost
/// what holds it (see `unsupported_by`).
pub open spec fn unsupported(w: WorldMap, x: int, y: int, z: int, block_id: u16, m: u8) -> bool {
    unsupported_by(reader(w), x, y, z, block_id, m)
}

/// The blocks of `w`, as a reader.
pub open spec fn reader(w: WorldMap) -> spec_fn(int, int, int) -> u16 {
    |a: int, b: int, c: int| w.block_at(a, b, c)
}

fn is_air(world: &WorldMap, x: i32, y: i32, z: i32) -> (r: bool)
    requires
        world.wf(),
    ensures
        r == air_at(*world, x as int, y as int, z as int),
{
    get_block(world, x, y, z) % 4096 == 0
}

/// Whether the block `block_id` (metadata `meta`) at (nx, ny, nz) should
/// break because what supports it is gone.
pub fn lost_support(world: &WorldMap, nx: i32, ny: i32, nz: i32, block_id: u16, meta: u8) -> (r: bool)
    requires
        world.wf(),
        i32::MIN < nx < i32::MAX,
        i32::MIN < ny < i32::MAX,
        i32::MIN < nz < i32::MAX,
    ensures
        r == unsupported(*world, nx as int, ny as int, nz as int, block_id, meta),
{
    match block_id {
        50 | 75 | 76 => {
            if meta == 5 {
                is_air(world, nx, ny - 1, nz)
            } else {
                let t = meta % 8;
                let (off_x, off_z): (i32, i32) = match t {
                    1 => (-1, 0),
                    2 => (1, 0),
                    3 => (0, -1),
                    4 => (0, 1),
                    _ => (0, 0),
                };
                is_air(world, nx + off_x, ny, nz + off_z)
            }
        },
        65 => {
            let (off_x, off_z): (i32, i32) = match meta {
                2 => (0, 1),
                3 => (0, -1),
                4 => (1, 0),
                5 => (-1, 0),
                _ => (0, 0),
            };
            is_air(world, nx + off_x, ny, nz + off_z)
        },
        69 => match meta % 8 {
            0 => is_air(world, nx, ny + 1, nz),
            5 => is_air(world, nx, ny - 1, nz),
            1 => is_air(world, nx + 1, ny, nz),
            2 => is_air(world, nx - 1, ny, nz),
            3 => is_air(world, nx, ny, nz + 1),
            4 => is_air(world, nx, ny, nz - 1),
            _ => false,
        },
        77 | 143 => match meta % 8 {
            0 => is_air(world, nx, ny + 1, nz),
            5 => is_air(world, nx, ny - 1, nz),
            4 => is_air(world, nx, ny, nz + 1),
            3 => is_air(world, nx, ny, nz - 1),
            2 => is_air(world, nx + 1, ny, nz),
            1 => is_air(world, nx - 1, ny, nz),
            _ => false,
        },
        27 | 28 | 55 | 66 | 70 | 72 | 78 | 147 | 148 | 157 => ny == 0 || is_air(world, nx, ny - 1, nz),
        6 | 31 | 32 | 37 | 38 | 39 | 40 => {
            ny == 0 || {
                let below = get_block(world, nx, ny - 1, nz) % 4096;
                below != 2 && below != 3 && below != 60
            }
        },
        81 => ny == 0 || is_air(world, nx, ny - 1, nz) || get_block(world, nx, ny - 1, nz) % 4096
            != 12,
        83 => ny == 0 || is_air(world, nx, ny - 1, nz),
        106 => {
            let has_support = get_block(world, nx, ny, nz - 1) != 0 || get_block(world, nx, ny, nz + 1)
                != 0 || get_block(world, nx - 1, ny, nz) != 0 || get_block(world, nx + 1, ny, nz)
                != 0;
            !has_support
        },
        131 => false,
        171 => ny == 0 || is_air(world, nx, ny - 1, nz),
        _ => false,
    }
}

/// The chunks within `view_distance` of chunk (cx, cz), by increasing x
/// offset then increasing z offset.
pub open spec fn view_chunks(cx: i32, cz: i32, view_distance: i32) -> Seq<(i32, i32)> {
    let n = 2 * view_distance + 1;
    Seq::new(
        (if view_distance >= 0 {
            n * n
        } else {
            0
        }) as nat,
        |i: int| ((cx - view_distance + i / n) as i32, (cz - view_distance + i % n) as i32),
    )
}

/// Chunks around (cx, cz) within the view distance.
pub fn chunks_in_view(cx: i32, cz: i32, view_distance: i32) -> (r: Vec<(i32, i32)>)
    requires
        view_distance < 4096,
        i32::MIN + 4096 <= cx <= i32::MAX - 4096,
        i32::MIN + 4096 <= cz <= i32::MAX - 4096,
    ensures
        r@ == view_chunks(cx, cz, view_distance),
{
    let mut chunks: Vec<(i32, i32)> = Vec::new();
    if view_distance < 0 {
        assert(chunks@ =~= view_chunks(cx, cz, view_distance));
        return chunks;
    }
    let ghost n = 2 * view_distance + 1;
    let mut dx: i32 = -view_distance;
    assert((dx + view_distance) * n == 0) by (nonlinear_arith)
        requires
            dx + view_distance == 0,
    ;
    while dx <= view_distance
        invariant
            0 <= view_distance < 4096,
            n == 2 * view_distance + 1,
            -view_distance <= dx <= view_distance + 1,
            i32::MIN + 4096 <= cx <= i32::MAX - 4096,
            i32::MIN + 4096 <= cz <= i32::MAX - 4096,
            chunks@.len() == (dx + view_distance) * n,
            forall|i: int|
                0 <= i < chunks@.len() ==> #[trigger] chunks@[i] == (
                    (cx - view_distance + i / n) as i32,
                    (cz - view_distance + i % n) as i32,
                ),
        decreases view_distance + 1 - dx,
    {
        let mut dz: i32 = -view_distance;
        while dz <= view_distance
            invariant
                0 <= view_distance < 4096,
                n == 2 * view_distance + 1,
                -view_distance <= dx <= view_distance,
                -view_distance <= dz <= view_distance + 1,
                i32::MIN + 4096 <= cx <= i32::MAX - 4096,
                i32::MIN + 4096 <= cz <= i32::MAX - 4096,
                chunks@.len() == (dx + view_distance) * n + (dz + view_distance),
                forall|i: int|
                    0 <= i < chunks@.len() ==> #[trigger] chunks@[i] == (
                        (cx - view_distance + i / n) as i32,
                        (cz - view_distance + i % n) as i32,
                    ),
            decreases view_distance + 1 - dz,
        {
            proof {
                let k = chunks@.len() as int;
                vstd::arithmetic::div_mod::lemma_fundamental_div_mod_converse(
                    k,
                    n,
                    dx + view_distance,
                    dz + view_distance,
                );
            }
            chunks.push((cx + dx, cz + dz));
            dz += 1;
        }
        proof {
            assert((dx + view_distance) * n + n == (dx + 1 + view_distance) * n) by (nonlinear_arith);
        }
        dx += 1;
    }
    proof {
        assert((2 * view_distance + 1) * n == n * n) by (nonlinear_arith)
            requires
                n == 2 * view_distance + 1,
        ;
    }
    assert(chunks@ =~= view_chunks(cx, cz, view_distance));
    chunks
}

/// Health points restored by eating an item (0 for items that are not
/// food).
pub open spec fn heal_points(item_id: i16) -> u8 {
    if item_id == 260 || item_id == 322 {
        4
    } else if item_id == 297 || item_id == 350 || item_id == 412 {
        5
    } else if item_id == 319 || item_id == 363 || item_id == 411 {
        3
    } else if item_id == 320 || item_id == 364 {
        8
    } else if item_id == 349 || item_id == 354 || item_id == 357 || item_id == 360 || item_id
        == 365 || item_id == 423 {
        2
    } else if item_id == 366 || item_id == 424 {
        6
    } else if item_id == 413 {
        10
    } else {
        0
    }
}

/// Health points restored by eating an item.
pub fn food_heal(item_id: i16) -> (h: u8)
    ensures
        h == heal_points(item_id),
{
    match item_id {
        260 => 4,
        297 => 5,
        319 => 3,
        320 => 8,
        322 => 4,
        349 => 2,
        350 => 5,
        354 => 2,
        357 => 2,
        360 => 2,
        363 => 3,
        364 => 8,
        365 => 2,
        366 => 6,
        411 => 3,
        412 => 5,
        413 => 10,
        423 => 2,
        424 => 6,
        _ => 0,
    }
}


/// Whether a player fits at (x, y, z): air at the feet and at the head.
pub open spec fn free_at(w: WorldMap, x: int, y: int, z: int) -> bool {
    w.block_at(x, y, z) == 0 && w.block_at(x, y + 1, z) == 0
}

/// Highest non-air height of column (x, z) below `y`, if any.
pub open spec fn highest_below(w: WorldMap, x: int, z: int, y: int) -> Option<int>
    decreases y,
{
    if y <= 0 {
        None
    } else if w.block_at(x, y - 1, z) != 0 {
        Some(y - 1)
    } else {
        highest_below(w, x, z, y - 1)
    }
}

/// Height at which a search starts in column (x, z): just above its
/// highest block, or `fallback` for an empty column.
pub open spec fn column_start(w: WorldMap, x: int, z: int, fallback: int) -> int {
    match highest_below(w, x, z, 256) {
        Some(t) => t + 1,
        None => fallback,
    }
}

/// Absolute value.
pub open spec fn abs(v: int) -> int {
    if v < 0 {
        -v
    } else {
        v
    }
}

/// Search of the rings around (cx, cz) from ring `r`, column offset
/// (dx, dz) on: rings of growing radius up to 8, each walked by increasing
/// dx then dz and keeping only its border; the first column free at its
/// own start height (or `start_y` if empty) is the answer.
pub open spec fn ring_search(w: WorldMap, cx: int, cz: int, start_y: int, r: int, dx: int, dz: int) -> Option<
    (int, int, int),
>
    decreases 9 - r, r + 1 - dx, r + 1 - dz,
{
    if r > 8 || r < 1 || dx < -r || dz < -r {
        None
    } else if dx > r {
        ring_search(w, cx, cz, start_y, r + 1, -(r + 1), -(r + 1))
    } else if dz > r {
        ring_search(w, cx, cz, start_y, r, dx + 1, -r)
    } else if (abs(dx) == r || abs(dz) == r) && free_at(
        w,
        cx + dx,
        column_start(w, cx + dx, cz + dz, start_y),
        cz + dz,
    ) {
        Some((cx + dx, column_start(w, cx + dx, cz + dz, start_y), cz + dz))
    } else {
        ring_search(w, cx, cz, start_y, r, dx, dz + 1)
    }
}

/// Climb of the centre column from height `y`: the first free height up to
/// 254, else `default_y`.
pub open spec fn climb(w: WorldMap, cx: int, cz: int, y: int, default_y: int) -> int
    decreases 256 - y,
{
    if free_at(w, cx, y, cz) {
        y
    } else if y + 1 > 254 {
        default_y
    } else {
        climb(w, cx, cz, y + 1, default_y)
    }
}

/// Where a player spawns near column (cx, cz): the centre at its surface
/// height if free, else the first free column of the rings around it, else
/// the first free height climbing the centre column, else `default_y`.
pub open spec fn safe_spawn(w: WorldMap, cx: int, cz: int, default_y: int) -> (int, int, int) {
    let start_y = column_start(w, cx, cz, default_y);
    if free_at(w, cx, start_y, cz) {
        (cx, start_y, cz)
    } else {
        match ring_search(w, cx, cz, start_y, 1, -1, -1) {
            Some(p) => p,
            None => (cx, climb(w, cx, cz, start_y, default_y), cz),
        }
    }
}

proof fn lemma_ring_search_free(w: WorldMap, cx: int, cz: int, start_y: int, r: int, dx: int, dz: int)
    ensures
        ring_search(w, cx, cz, start_y, r, dx, dz) matches Some(p) ==> free_at(w, p.0, p.1, p.2)
            && abs(p.0 - cx) <= 8 && abs(p.2 - cz) <= 8,
    decreases 9 - r, r + 1 - dx, r + 1 - dz,
{
    if r > 8 || r < 1 || dx < -r || dz < -r {
    } else if dx > r {
        lemma_ring_search_free(w, cx, cz, start_y, r + 1, -(r + 1), -(r + 1));
    } else if dz > r {
        lemma_ring_search_free(w, cx, cz, start_y, r, dx + 1, -r);
    } else if (abs(dx) == r || abs(dz) == r) && free_at(
        w,
        cx + dx,
        column_start(w, cx + dx, cz + dz, start_y),
        cz + dz,
    ) {
    } else {
        lemma_ring_search_free(w, cx, cz, start_y, r, dx, dz + 1);
    }
}

proof fn lemma_climb_free(w: WorldMap, cx: int, cz: int, y: int, default_y: int)
    ensures
        climb(w, cx, cz, y, default_y) == default_y || free_at(w, cx, climb(w, cx, cz, y, default_y), cz),
    decreases 256 - y,
{
    if !free_at(w, cx, y, cz) && y + 1 <= 254 {
        lemma_climb_free(w, cx, cz, y + 1, default_y);
    }
}

/// The spawn point found has two blocks of air (its block and the one above)
/// and lies on a column at most 8 blocks from the one asked for, unless it is
/// the last resort (cx, default_y, cz).
pub proof fn spawn_point_is_free(w: WorldMap, cx: int, cz: int, default_y: int)
    ensures
        ({
            let p = safe_spawn(w, cx, cz, default_y);
            &&& free_at(w, p.0, p.1, p.2) || p == (cx, default_y, cz)
            &&& abs(p.0 - cx) <= 8
            &&& abs(p.2 - cz) <= 8
        }),
{
    let start_y = column_start(w, cx, cz, default_y);
    lemma_ring_search_free(w, cx, cz, start_y, 1, -1, -1);
    lemma_climb_free(w, cx, cz, start_y, default_y);
}

fn is_free(world: &WorldMap, x: i32, y: i32, z: i32) -> (r: bool)
    requires
        world.wf(),
        y < i32::MAX,
    ensures
        r == free_at(*world, x as int, y as int, z as int),
{
    get_block(world, x, y, z) == 0 && get_block(world, x, y + 1, z) == 0
}

fn start_height(world: &WorldMap, x: i32, z: i32, fallback: i32) -> (y: i32)
    requires
        world.wf(),
    ensures
        y == column_start(*world, x as int, z as int, fallback as int),
        y == fallback || 1 <= y <= 256,
{
    let mut y: i32 = 256;
    while y > 0
        invariant
            0 <= y <= 256,
            world.wf(),
            highest_below(*world, x as int, z as int, 256) == highest_below(
                *world,
                x as int,
                z as int,
                y as int,
            ),
        decreases y,
    {
        if get_block(world, x, y - 1, z) != 0 {
            return y;
        }
        y = y - 1;
    }
    fallback
}

/// Spawn position near column (cx, cz): two blocks of air (feet and head)
/// at the surface of the centre, else of the nearest column on rings of
/// radius up to 8, else climbing the centre column (`default_y` at last).
pub fn find_safe_spawn(world: &WorldMap, cx: i32, cz: i32, default_y: i32) -> (p: (i32, i32, i32))
    requires
        world.wf(),
        i32::MIN + 8 <= cx <= i32::MAX - 8,
        i32::MIN + 8 <= cz <= i32::MAX - 8,
        default_y < i32::MAX - 1,
    ensures
        (p.0 as int, p.1 as int, p.2 as int) == safe_spawn(*world, cx as int, cz as int, default_y as int),
{
    let start_y = start_height(world, cx, cz, default_y);
    if is_free(world, cx, start_y, cz) {
        return (cx, start_y, cz);
    }
    let ghost w = *world;
    let mut radius: i32 = 1;
    while radius <= 8
        invariant
            1 <= radius <= 9,
            world.wf(),
            w == *world,
            i32::MIN + 8 <= cx <= i32::MAX - 8,
            i32::MIN + 8 <= cz <= i32::MAX - 8,
            start_y < i32::MAX - 1,
            start_y as int == column_start(w, cx as int, cz as int, default_y as int),
            !free_at(w, cx as int, start_y as int, cz as int),
            ring_search(w, cx as int, cz as int, start_y as int, 1, -1, -1) == ring_search(
                w,
                cx as int,
                cz as int,
                start_y as int,
                radius as int,
                -radius as int,
                -radius as int,
            ),
        decreases 9 - radius,
    {
        let mut dx: i32 = -radius;
        while dx <= radius
            invariant
                1 <= radius <= 8,
                -radius <= dx <= radius + 1,
                world.wf(),
                w == *world,
                i32::MIN + 8 <= cx <= i32::MAX - 8,
                i32::MIN + 8 <= cz <= i32::MAX - 8,
                start_y < i32::MAX - 1,
                start_y as int == column_start(w, cx as int, cz as int, default_y as int),
                !free_at(w, cx as int, start_y as int, cz as int),
                ring_search(w, cx as int, cz as int, start_y as int, 1, -1, -1) == ring_search(
                    w,
                    cx as int,
                    cz as int,
                    start_y as int,
                    radius as int,
                    dx as int,
                    -radius as int,
                ),
            decreases radius + 1 - dx,
        {
            let mut dz: i32 = -radius;
            while dz <= radius
                invariant
                    1 <= radius <= 8,
                    -radius <= dx <= radius,
                    -radius <= dz <= radius + 1,
                    world.wf(),
                    w == *world,
                    i32::MIN + 8 <= cx <= i32::MAX - 8,
                    i32::MIN + 8 <= cz <= i32::MAX - 8,
                    start_y < i32::MAX - 1,
                    start_y as int == column_start(w, cx as int, cz as int, default_y as int),
                    !free_at(w, cx as int, start_y as int, cz as int),
                    ring_search(w, cx as int, cz as int, start_y as int, 1, -1, -1) == ring_search(
                        w,
                        cx as int,
                        cz as int,
                        start_y as int,
                        radius as int,
                        dx as int,
                        dz as int,
                    ),
                decreases radius + 1 - dz,
            {
                let on_border = (dx == radius || dx == -radius) || (dz == radius || dz == -radius);
                let ghost here = ring_search(
                    w,
                    cx as int,
                    cz as int,
                    start_y as int,
                    radius as int,
                    dx as int,
                    dz as int,
                );
                assert(on_border == (abs(dx as int) == radius || abs(dz as int) == radius));
                if on_border {
                    let x = cx + dx;
                    let z = cz + dz;
                    let y = start_height(world, x, z, start_y);
                    if is_free(world, x, y, z) {
                        assert(here == Some((x as int, y as int, z as int)));
                        return (x, y, z);
                    }
                }
                assert(here == ring_search(
                    w,
                    cx as int,
                    cz as int,
                    start_y as int,
                    radius as int,
                    dx as int,
                    dz + 1,
                ));
                dz += 1;
            }
            assert(ring_search(w, cx as int, cz as int, start_y as int, radius as int, dx as int, dz as int)
                == ring_search(w, cx as int, cz as int, start_y as int, radius as int, dx + 1, -radius as int));
            dx += 1;
        }
        assert(ring_search(w, cx as int, cz as int, start_y as int, radius as int, dx as int, -radius as int)
            == ring_search(w, cx as int, cz as int, start_y as int, radius + 1, -(radius + 1), -(radius + 1)));
        radius += 1;
    }
    assert(ring_search(w, cx as int, cz as int, start_y as int, 9, -9, -9) == None::<(int, int, int)>);
    let mut y = start_y;
    loop
        invariant
            world.wf(),
            w == *world,
            start_y < i32::MAX - 1,
            start_y as int == column_start(w, cx as int, cz as int, default_y as int),
            !free_at(w, cx as int, start_y as int, cz as int),
            default_y < i32::MAX - 1,
            y < i32::MAX - 1,
            ring_search(w, cx as int, cz as int, start_y as int, 1, -1, -1) is None,
            climb(w, cx as int, cz as int, start_y as int, default_y as int) == climb(
                w,
                cx as int,
                cz as int,
                y as int,
                default_y as int,
            ),
        decreases 256 - y,
    {
        if is_free(world, cx, y, cz) {
            return (cx, y, cz);
        }
        y += 1;
        if y > 254 {
            assert(climb(w, cx as int, cz as int, y - 1, default_y as int) == default_y);
            return (cx, default_y, cz);
        }
    }
}


/// Block at (a, b, c) of `w` once (x, y, z) is set to air.
pub open spec fn with_air(w: WorldMap, x: int, y: int, z: int, a: int, b: int, c: int) -> u16 {
    if a == x && b == y && c == z && 0 <= y < 256 {
        0
    } else {
        w.block_at(a, b, c)
    }
}

/// Height of the other half of a door whose half at height `y` has
/// metadata `m` (the upper half has bit 3 set), if it is in the world.
pub open spec fn door_other_half(y: int, m: u8) -> Option<int> {
    let other = if m & 8u8 != 0 {
        y - 1
    } else if y < 255 {
        y + 1
    } else {
        0
    };
    if 0 <= other <= 255 && other != y {
        Some(other)
    } else {
        None
    }
}

/// Second block removed with the block `old` broken at (x, y, z) of `w`:
/// the other half of a door, the head of a piston, or the base of a piston
/// head, as found once (x, y, z) is air.
pub open spec fn broken_with(w: WorldMap, x: int, y: int, z: int, old: u16) -> Option<(int, int, int)> {
    let id = stored_id(old);
    let m = stored_meta(old);
    if id == 64 || id == 71 {
        match door_other_half(y, m) {
            Some(o) => Some((x, o, z)),
            None => None,
        }
    } else if id == 29 || id == 33 {
        let d = piston_dir(m);
        let head = (x + d.0, y + d.1, z + d.2);
        if stored_id(with_air(w, x, y, z, head.0, head.1, head.2)) == 34 {
            Some(head)
        } else {
            None
        }
    } else if id == 34 {
        let d = piston_dir(m);
        let base = (x - d.0, y - d.1, z - d.2);
        let b = stored_id(with_air(w, x, y, z, base.0, base.1, base.2));
        if b == 29 || b == 33 {
            Some(base)
        } else {
            None
        }
    } else {
        None
    }
}

/// A world position as integers.
pub open spec fn ipos(p: (i32, i32, i32)) -> (int, int, int) {
    (p.0 as int, p.1 as int, p.2 as int)
}

/// Breaks the block at (x, y, z) and the block that goes with it (other
/// door half, piston head or base): returns the block broken and the
/// position of the second block removed, if any.
pub fn break_block(world: &mut WorldMap, x: i32, y: u8, z: i32) -> (r: (u16, Option<(i32, i32, i32)>))
    requires
        old(world).wf(),
        i32::MIN < x < i32::MAX,
        i32::MIN < z < i32::MAX,
    ensures
        final(world).wf(),
        r.0 == old(world).block_at(x as int, y as int, z as int),
        match r.1 {
            Some(p) => Some(ipos(p)) == broken_with(
                *old(world),
                x as int,
                y as int,
                z as int,
                r.0,
            ),
            None => broken_with(
                *old(world),
                x as int,
                y as int,
                z as int,
                r.0,
            ) is None,
        },
        forall|a: int, b: int, c: int|
            #[trigger] final(world).block_at(a, b, c) == if (a == x && b == y && c == z) || (r.1
                is Some && (a, b, c) == ipos(r.1->0) && 0 <= b < 256) {
                0u16
            } else {
                old(world).block_at(a, b, c)
            },
{
    let yi = y as i32;
    let old_block = get_block(world, x, yi, z);
    set_block(world, x, yi, z, 0);
    let block_id = old_block % 4096;
    let meta: u8 = (old_block / 4096) as u8;
    let mut extra: Option<(i32, i32, i32)> = None;
    if block_id == 64 || block_id == 71 {
        let other_yi = if meta & 0x08 != 0 {
            yi - 1
        } else if yi < 255 {
            yi + 1
        } else {
            0
        };
        if 0 <= other_yi && other_yi <= 255 && other_yi != yi {
            set_block(world, x, other_yi, z, 0);
            extra = Some((x, other_yi, z));
        }
    } else if block_id == 29 || block_id == 33 {
        let (dx, dy, dz) = piston_offset(meta);
        let head = (x + dx, yi + dy, z + dz);
        if get_block(world, head.0, head.1, head.2) % 4096 == 34 {
            set_block(world, head.0, head.1, head.2, 0);
            extra = Some(head);
        }
    } else if block_id == 34 {
        let (dx, dy, dz) = piston_offset(meta);
        let base = (x - dx, yi - dy, z - dz);
        let candidate = get_block(world, base.0, base.1, base.2) % 4096;
        if candidate == 29 || candidate == 33 {
            set_block(world, base.0, base.1, base.2, 0);
            extra = Some(base);
        }
    }
    (old_block, extra)
}


/// Block toggled by a right click at (x, y, z) of `w` and its new value: a
/// click on the upper half of a door toggles its lower half.
pub open spec fn toggle_target(w: WorldMap, x: int, y: int, z: int) -> Option<((int, int, int), u16)> {
    let stored = w.block_at(x, y, z);
    let id = stored_id(stored);
    let m = stored_meta(stored);
    if (id == 64 || id == 71) && m & 8u8 != 0 && y > 0 {
        match toggled(w.block_at(x, y - 1, z)) {
            Some(n) => Some(((x, y - 1, z), n)),
            None => None,
        }
    } else {
        match toggled(stored) {
            Some(n) => Some(((x, y, z), n)),
            None => None,
        }
    }
}

/// Toggles the block a player right-clicks at (x, y, z): returns where the
/// change happened and the new value.
pub fn toggle_at(world: &mut WorldMap, x: i32, y: u8, z: i32) -> (r: Option<(i32, i32, i32, u16)>)
    requires
        old(world).wf(),
    ensures
        final(world).wf(),
        match r {
            Some((a, b, c, n)) => toggle_target(*old(world), x as int, y as int, z as int) == Some(
                ((a as int, b as int, c as int), n),
            ) && forall|p: int, q: int, t: int|
                #[trigger] final(world).block_at(p, q, t) == if p == a && q == b && t == c {
                    n
                } else {
                    old(world).block_at(p, q, t)
                },
            None => toggle_target(*old(world), x as int, y as int, z as int) is None && forall|
                p: int,
                q: int,
                t: int,
            | #[trigger] final(world).block_at(p, q, t) == old(world).block_at(p, q, t),
        },
{
    let yi = y as i32;
    let stored = get_block(world, x, yi, z);
    let block_id = stored % 4096;
    let meta: u8 = (stored / 4096) as u8;
    if (block_id == 64 || block_id == 71) && meta & 0x08 != 0 && y > 0 {
        let bottom = get_block(world, x, yi - 1, z);
        match toggle_block(bottom) {
            Some(n) => {
                set_block(world, x, yi - 1, z, n);
                Some((x, yi - 1, z, n))
            },
            None => None,
        }
    } else {
        match toggle_block(stored) {
            Some(n) => {
                set_block(world, x, yi, z, n);
                Some((x, yi, z, n))
            },
            None => None,
        }
    }
}

/// A button just pressed (`stored`, on bit set) springs back after a delay
/// in ticks (20 for stone, 30 for wood): the delay and the released value.
pub open spec fn release_of(stored: u16) -> Option<(u64, u16)> {
    let id = stored_id(stored);
    let m = stored_meta(stored);
    if (id == 77 || id == 143) && m & 8u8 != 0 {
        Some(
            (
                if id == 77 {
                    20u64
                } else {
                    30u64
                },
                (id + ((m & 7u8) as u16) * 4096) as u16,
            ),
        )
    } else {
        None
    }
}

/// Delay and released value of a button that was just pressed.
pub fn button_release(stored: u16) -> (r: Option<(u64, u16)>)
    ensures
        r == release_of(stored),
{
    let id = stored % 4096;
    let m: u8 = (stored / 4096) as u8;
    if (id == 77 || id == 143) && m & 0x08 != 0 {
        let delay: u64 = if id == 77 { 20 } else { 30 };
        let released_meta = m & !0x08u8;
        assert(released_meta == m & 7u8) by (bit_vector)
            requires
                released_meta == m & !0x08u8,
                m < 16,
        ;
        assert(released_meta < 8) by (bit_vector)
            requires
                released_meta == m & 7u8,
        ;
        Some((delay, id + (released_meta as u16) * 4096))
    } else {
        None
    }
}

/// The six neighbours of (x, y, z) in the order blocks are checked: -x, +x,
/// -y, +y, -z, +z.
pub open spec fn neighbour(x: int, y: int, z: int, k: int) -> (int, int, int) {
    if k == 0 {
        (x - 1, y, z)
    } else if k == 1 {
        (x + 1, y, z)
    } else if k == 2 {
        (x, y - 1, z)
    } else if k == 3 {
        (x, y + 1, z)
    } else if k == 4 {
        (x, y, z - 1)
    } else {
        (x, y, z + 1)
    }
}

/// Neighbours of (x, y, z) among the first `k` that have lost their
/// support in `w`, with the block they hold.
pub open spec fn unsupported_upto(w: WorldMap, x: int, y: int, z: int, k: int) -> Seq<(int, int, int, u16)>
    decreases k,
{
    if k <= 0 {
        Seq::empty()
    } else {
        let prev = unsupported_upto(w, x, y, z, k - 1);
        let n = neighbour(x, y, z, k - 1);
        let s = w.block_at(n.0, n.1, n.2);
        if unsupported(w, n.0, n.1, n.2, stored_id(s), stored_meta(s)) {
            prev.push((n.0, n.1, n.2, s))
        } else {
            prev
        }
    }
}

/// Whether a world position is listed.
pub open spec fn listed(ps: Seq<(int, int, int, u16)>, a: int, b: int, c: int) -> bool {
    exists|i: int| 0 <= i < ps.len() && ps[i].0 == a && ps[i].1 == b && ps[i].2 == c
}

/// Whether an entry lies within one block of (x, y, z) on each axis.
pub open spec fn near(e: (int, int, int, u16), x: int, y: int, z: int) -> bool {
    x - 1 <= e.0 <= x + 1 && y - 1 <= e.1 <= y + 1 && z - 1 <= e.2 <= z + 1
}

proof fn lemma_unsupported_near(w: WorldMap, x: int, y: int, z: int, k: int)
    ensures
        forall|i: int|
            0 <= i < unsupported_upto(w, x, y, z, k).len() ==> near(
                #[trigger] unsupported_upto(w, x, y, z, k)[i],
                x,
                y,
                z,
            ),
    decreases k,
{
    if k > 0 {
        lemma_unsupported_near(w, x, y, z, k - 1);
        let prev = unsupported_upto(w, x, y, z, k - 1);
        let n = neighbour(x, y, z, k - 1);
        let st = w.block_at(n.0, n.1, n.2);
        assert(near((n.0, n.1, n.2, st), x, y, z));
        let cur = unsupported_upto(w, x, y, z, k);
        assert forall|i: int| 0 <= i < cur.len() implies near(#[trigger] cur[i], x, y, z) by {
            if i < prev.len() {
                assert(cur[i] == prev[i]);
            }
        }
    }
}

/// Neighbours of (x, y, z) that have lost their support, with the block
/// each holds, in the order -x, +x, -y, +y, -z, +z.
pub fn unsupported_neighbours(world: &WorldMap, x: i32, y: i32, z: i32) -> (r: Vec<(i32, i32, i32, u16)>)
    requires
        world.wf(),
        i32::MIN + 2 < x < i32::MAX - 2,
        i32::MIN + 2 < y < i32::MAX - 2,
        i32::MIN + 2 < z < i32::MAX - 2,
    ensures
        r@.len() == unsupported_upto(*world, x as int, y as int, z as int, 6).len(),
        forall|i: int|
            0 <= i < r@.len() ==> {
                let e = unsupported_upto(*world, x as int, y as int, z as int, 6)[i];
                #[trigger] r@[i] == (e.0 as i32, e.1 as i32, e.2 as i32, e.3)
            },
        forall|i: int|
            0 <= i < r@.len() ==> near(
                #[trigger] unsupported_upto(*world, x as int, y as int, z as int, 6)[i],
                x as int,
                y as int,
                z as int,
            ),
{
    let ghost w0 = *world;
    let ns: [(i32, i32, i32); 6] = [
        (x - 1, y, z),
        (x + 1, y, z),
        (x, y - 1, z),
        (x, y + 1, z),
        (x, y, z - 1),
        (x, y, z + 1),
    ];
    let mut to_break: Vec<(i32, i32, i32, u16)> = Vec::new();
    let mut k: usize = 0;
    while k < 6
        invariant
            k <= 6,
            world.wf(),
            *world == w0,
            ns@.len() == 6,
            forall|j: int| 0 <= j < 6 ==> ipos(#[trigger] ns@[j]) == neighbour(x as int, y as int, z as int, j),
            i32::MIN + 2 < x < i32::MAX - 2,
            i32::MIN + 2 < y < i32::MAX - 2,
            i32::MIN + 2 < z < i32::MAX - 2,
            to_break@.len() == unsupported_upto(w0, x as int, y as int, z as int, k as int).len(),
            forall|i: int|
                0 <= i < to_break@.len() ==> {
                    let e = unsupported_upto(w0, x as int, y as int, z as int, k as int)[i];
                    #[trigger] to_break@[i] == (e.0 as i32, e.1 as i32, e.2 as i32, e.3)
                },
        decreases 6 - k,
    {
        let (nx, ny, nz) = ns[k];
        let stored = get_block(world, nx, ny, nz);
        if lost_support(world, nx, ny, nz, stored % 4096, (stored / 4096) as u8) {
            to_break.push((nx, ny, nz, stored));
        }
        k += 1;
    }
    proof {
        lemma_unsupported_near(w0, x as int, y as int, z as int, 6);
    }
    to_break
}

/// Each entry `e` of `unsupported_upto(w, x, y, z, k)` is a neighbour of
/// (x, y, z), with the block it holds, that has lost its support.
proof fn lemma_unsupported_entries(w: WorldMap, x: int, y: int, z: int, k: int)
    requires
        0 <= k <= 6,
    ensures
        forall|i: int|
            0 <= i < unsupported_upto(w, x, y, z, k).len() ==> {
                let e = #[trigger] unsupported_upto(w, x, y, z, k)[i];
                &&& e.3 == w.block_at(e.0, e.1, e.2)
                &&& unsupported(w, e.0, e.1, e.2, stored_id(e.3), stored_meta(e.3))
                &&& exists|n: int| 0 <= n < 6 && #[trigger] neighbour(x, y, z, n) == (e.0, e.1, e.2)
            },
    decreases k,
{
    if k > 0 {
        lemma_unsupported_entries(w, x, y, z, k - 1);
        let prev = unsupported_upto(w, x, y, z, k - 1);
        let cur = unsupported_upto(w, x, y, z, k);
        assert forall|i: int| 0 <= i < cur.len() implies {
            let e = #[trigger] cur[i];
            &&& e.3 == w.block_at(e.0, e.1, e.2)
            &&& unsupported(w, e.0, e.1, e.2, stored_id(e.3), stored_meta(e.3))
            &&& exists|n: int| 0 <= n < 6 && #[trigger] neighbour(x, y, z, n) == (e.0, e.1, e.2)
        } by {
            if i < prev.len() {
                assert(cur[i] == prev[i]);
                let e = prev[i];
                assert(e.3 == w.block_at(e.0, e.1, e.2));
            } else {
                assert(neighbour(x, y, z, k - 1) == (cur[i].0, cur[i].1, cur[i].2));
            }
        }
    }
}

/// A block that has lost its support stays so when more blocks turn to air.
proof fn lemma_unsupported_more_air(
    rd1: spec_fn(int, int, int) -> u16,
    rd2: spec_fn(int, int, int) -> u16,
    x: int,
    y: int,
    z: int,
    id: u16,
    m: u8,
)
    requires
        unsupported_by(rd1, x, y, z, id, m),
        forall|a: int, b: int, c: int| #[trigger] rd2(a, b, c) == rd1(a, b, c) || rd2(a, b, c) == 0,
    ensures
        unsupported_by(rd2, x, y, z, id, m),
{
    assert(rd2(x, y - 1, z) == rd1(x, y - 1, z) || rd2(x, y - 1, z) == 0);
    assert(rd2(x, y + 1, z) == rd1(x, y + 1, z) || rd2(x, y + 1, z) == 0);
}

/// Whether `r` lists position (a, b, c) among its first `k` entries.
pub open spec fn listed_in(r: Seq<(i32, i32, i32, u16)>, k: int, a: int, b: int, c: int) -> bool {
    exists|i: int| 0 <= i < k && r[i].0 == a && r[i].1 == b && r[i].2 == c
}

/// The world `w` read with the blocks at the first `k` positions of `r`
/// turned to air.
pub open spec fn cleared(w: WorldMap, r: Seq<(i32, i32, i32, u16)>, k: int) -> spec_fn(int, int, int) -> u16 {
    |a: int, b: int, c: int|
        if listed_in(r, k, a, b, c) {
            0u16
        } else {
            w.block_at(a, b, c)
        }
}

/// A position far enough from the i32 limits for its neighbours to be
/// examined.
pub open spec fn cascade_safe(x: int, y: int, z: int) -> bool {
    &&& i32::MIN + 2 < x < i32::MAX - 2
    &&& i32::MIN + 2 < y < i32::MAX - 2
    &&& i32::MIN + 2 < z < i32::MAX - 2
}

/// Whether no neighbour of (x, y, z) has lost its support in `w`.
pub open spec fn settled(w: WorldMap, x: int, y: int, z: int) -> bool {
    unsupported_upto(w, x, y, z, 6).len() == 0
}

/// The `j`-th place a cascade from (x, y, z) looks around: (x, y, z)
/// itself, then the blocks broken, in order.
pub open spec fn cascade_center(x: i32, y: i32, z: i32, r: Seq<(i32, i32, i32, u16)>, j: int) -> (i32, i32, i32) {
    if j == 0 {
        (x, y, z)
    } else {
        (r[j - 1].0, r[j - 1].1, r[j - 1].2)
    }
}

/// Whether p and q are next to each other along one axis.
pub open spec fn adjacent(p: (i32, i32, i32), q: (i32, i32, i32)) -> bool {
    exists|n: int|
        0 <= n < 6 && #[trigger] neighbour(p.0 as int, p.1 as int, p.2 as int, n) == (q.0 as int, q.1 as int, q.2 as int)
}

/// Entry `i` of a cascade from (x, y, z) in `w`: the block it held in `w`,
/// not air, at a place not broken before, which had lost its support once
/// the blocks before it were gone, next to (x, y, z) or to a block broken
/// before it.
pub open spec fn cascade_entry(w: WorldMap, x: i32, y: i32, z: i32, r: Seq<(i32, i32, i32, u16)>, i: int) -> bool {
    let e = r[i];
    &&& e.3 == w.block_at(e.0 as int, e.1 as int, e.2 as int)
    &&& stored_id(e.3) != 0
    &&& !listed_in(r, i, e.0 as int, e.1 as int, e.2 as int)
    &&& unsupported_by(cleared(w, r, i), e.0 as int, e.1 as int, e.2 as int, stored_id(e.3), stored_meta(e.3))
    &&& exists|j: int| 0 <= j <= i && adjacent(#[trigger] cascade_center(x, y, z, r, j), (e.0, e.1, e.2))
}

/// Every entry of `r` is a step of a cascade from (x, y, z) in `w`.
pub open spec fn cascade_ok(w: WorldMap, x: i32, y: i32, z: i32, r: Seq<(i32, i32, i32, u16)>) -> bool {
    forall|i: int| 0 <= i < r.len() ==> #[trigger] cascade_entry(w, x, y, z, r, i)
}

proof fn lemma_listed_push(r: Seq<(i32, i32, i32, u16)>, e: (i32, i32, i32, u16), k: int, a: int, b: int, c: int)
    requires
        0 <= k <= r.len(),
    ensures
        listed_in(r.push(e), k, a, b, c) == listed_in(r, k, a, b, c),
        listed_in(r.push(e), r.len() + 1int, a, b, c) == (listed_in(r, r.len() as int, a, b, c) || (a == e.0 && b
            == e.1 && c == e.2)),
{
    let r2 = r.push(e);
    if listed_in(r, k, a, b, c) {
        let t = choose|t: int| 0 <= t < k && r[t].0 == a && r[t].1 == b && r[t].2 == c;
        assert(r2[t] == r[t]);
    }
    if listed_in(r2, k, a, b, c) {
        let t = choose|t: int| 0 <= t < k && r2[t].0 == a && r2[t].1 == b && r2[t].2 == c;
        assert(r2[t] == r[t]);
    }
    if listed_in(r, r.len() as int, a, b, c) {
        let t = choose|t: int| 0 <= t < r.len() && r[t].0 == a && r[t].1 == b && r[t].2 == c;
        assert(r2[t] == r[t]);
    }
    if a == e.0 && b == e.1 && c == e.2 {
        assert(r2[r.len() as int] == e);
    }
    if listed_in(r2, r.len() + 1int, a, b, c) {
        let t = choose|t: int| 0 <= t < r.len() + 1 && r2[t].0 == a && r2[t].1 == b && r2[t].2 == c;
        if t < r.len() {
            assert(r2[t] == r[t]);
        }
    }
}

/// A cascade grows by one more step.
proof fn lemma_cascade_push(
    w: WorldMap,
    x: i32,
    y: i32,
    z: i32,
    r: Seq<(i32, i32, i32, u16)>,
    e: (i32, i32, i32, u16),
    j: int,
)
    requires
        cascade_ok(w, x, y, z, r),
        e.3 == w.block_at(e.0 as int, e.1 as int, e.2 as int),
        stored_id(e.3) != 0,
        !listed_in(r, r.len() as int, e.0 as int, e.1 as int, e.2 as int),
        unsupported_by(cleared(w, r, r.len() as int), e.0 as int, e.1 as int, e.2 as int, stored_id(e.3), stored_meta(e.3)),
        0 <= j <= r.len(),
        adjacent(cascade_center(x, y, z, r, j), (e.0, e.1, e.2)),
    ensures
        cascade_ok(w, x, y, z, r.push(e)),
{
    let r2 = r.push(e);
    assert forall|k: int| 0 <= k <= r.len() implies #[trigger] cleared(w, r2, k) == cleared(w, r, k) by {
        assert forall|a: int, b: int, c: int| #[trigger] listed_in(r2, k, a, b, c) == listed_in(r, k, a, b, c) by {
            lemma_listed_push(r, e, k, a, b, c);
        }
        assert(cleared(w, r2, k) =~= cleared(w, r, k));
    }
    assert forall|k: int| 0 <= k < r2.len() implies #[trigger] cascade_entry(w, x, y, z, r2, k) by {
        assert forall|a: int, b: int, c: int| #[trigger] listed_in(r2, k, a, b, c) == listed_in(r, k, a, b, c) by {
            lemma_listed_push(r, e, k, a, b, c);
        }
        assert(cleared(w, r2, k) == cleared(w, r, k));
        if k < r.len() {
            assert(cascade_entry(w, x, y, z, r, k));
            assert(r2[k] == r[k]);
            let t = choose|t: int| 0 <= t <= k && adjacent(#[trigger] cascade_center(x, y, z, r, t), (r[k].0, r[k].1, r[k].2));
            assert(cascade_center(x, y, z, r2, t) == cascade_center(x, y, z, r, t));
        } else {
            assert(r2[k] == e);
            assert(cascade_center(x, y, z, r2, j) == cascade_center(x, y, z, r, j));
        }
    }
}

/// Breaks the neighbours of `c`, the `j`-th place of a cascade from
/// (x, y, z), that have lost their support, adding them to the cascade.
/// Returns whether any broke; if none did, no neighbour of `c` (away from
/// the i32 limits) lacks support.
fn break_around(
    world: &mut WorldMap,
    broken: &mut Vec<(i32, i32, i32, u16)>,
    x: i32,
    y: i32,
    z: i32,
    j: usize,
    Ghost(w0): Ghost<WorldMap>,
) -> (changed: bool)
    requires
        old(world).wf(),
        forall|a: int, b: int, c: int|
            #[trigger] old(world).block_at(a, b, c) == cleared(w0, old(broken)@, old(broken)@.len() as int)(a, b, c),
        cascade_ok(w0, x, y, z, old(broken)@),
        j <= old(broken)@.len(),
    ensures
        final(world).wf(),
        forall|a: int, b: int, c: int|
            #[trigger] final(world).block_at(a, b, c) == cleared(w0, final(broken)@, final(broken)@.len() as int)(a, b, c),
        cascade_ok(w0, x, y, z, final(broken)@),
        old(broken)@.len() <= final(broken)@.len(),
        final(broken)@.subrange(0, old(broken)@.len() as int) == old(broken)@,
        final(world).solid_count() + final(broken)@.len() == old(world).solid_count() + old(broken)@.len(),
        changed == (final(broken)@.len() > old(broken)@.len()),
        !changed ==> *final(world) == *old(world),
        !changed ==> ({
            let c = cascade_center(x, y, z, old(broken)@, j as int);
            cascade_safe(c.0 as int, c.1 as int, c.2 as int) ==> settled(*final(world), c.0 as int, c.1 as int, c.2 as int)
        }),
{
    let c: (i32, i32, i32) = if j == 0 {
        (x, y, z)
    } else {
        (broken[j - 1].0, broken[j - 1].1, broken[j - 1].2)
    };
    let ghost before_list = broken@;
    let ghost count0 = world.solid_count();
    let mut changed = false;
    let safe = i32::MIN + 2 < c.0 && c.0 < i32::MAX - 2 && i32::MIN + 2 < c.1 && c.1 < i32::MAX - 2
        && i32::MIN + 2 < c.2 && c.2 < i32::MAX - 2;
    if !safe {
        assert(broken@.subrange(0, before_list.len() as int) =~= before_list);
        return false;
    }
    let ghost list_world = *world;
    let list = unsupported_neighbours(world, c.0, c.1, c.2);
    let ghost u = unsupported_upto(list_world, c.0 as int, c.1 as int, c.2 as int, 6);
    proof {
        lemma_unsupported_entries(list_world, c.0 as int, c.1 as int, c.2 as int, 6);
        assert(broken@.subrange(0, before_list.len() as int) =~= before_list);
    }
    let mut i: usize = 0;
    while i < list.len()
        invariant
            world.wf(),
            i <= list@.len(),
            j <= before_list.len(),
            before_list.len() <= broken@.len(),
            broken@.subrange(0, before_list.len() as int) == before_list,
            c == cascade_center(x, y, z, before_list, j as int),
            cascade_safe(c.0 as int, c.1 as int, c.2 as int),
            list@.len() == u.len(),
            forall|k: int|
                0 <= k < list@.len() ==> {
                    let e = u[k];
                    #[trigger] list@[k] == (e.0 as i32, e.1 as i32, e.2 as i32, e.3)
                },
            forall|k: int|
                0 <= k < u.len() ==> {
                    let e = #[trigger] u[k];
                    &&& e.3 == list_world.block_at(e.0, e.1, e.2)
                    &&& unsupported(list_world, e.0, e.1, e.2, stored_id(e.3), stored_meta(e.3))
                    &&& exists|n: int| 0 <= n < 6 && #[trigger] neighbour(c.0 as int, c.1 as int, c.2 as int, n) == (e.0, e.1, e.2)
                },
            forall|a: int, b: int, cc: int|
                #[trigger] world.block_at(a, b, cc) == cleared(w0, broken@, broken@.len() as int)(a, b, cc),
            forall|a: int, b: int, cc: int|
                #[trigger] world.block_at(a, b, cc) == list_world.block_at(a, b, cc) || world.block_at(a, b, cc) == 0,
            cascade_ok(w0, x, y, z, broken@),
            i > 0 ==> changed,
            changed == (broken@.len() > before_list.len()),
            !changed ==> *world == list_world,
            world.solid_count() + broken@.len() == count0 + before_list.len(),
        decreases list@.len() - i,
    {
        let e = list[i];
        let cur = get_block(world, e.0, e.1, e.2);
        proof {
            let ue = u[i as int];
            assert(list@[i as int] == e);
            let n = choose|n: int| 0 <= n < 6 && #[trigger] neighbour(c.0 as int, c.1 as int, c.2 as int, n) == (ue.0, ue.1, ue.2);
            assert(ue.0 == e.0 && ue.1 == e.1 && ue.2 == e.2 && ue.3 == e.3);
            if !changed {
                assert(stored_id(e.3) != 0);
            }
        }
        if cur % 4096 != 0 {
            let ghost before = broken@;
            proof {
                let ue = u[i as int];
                let n = choose|n: int| 0 <= n < 6 && #[trigger] neighbour(c.0 as int, c.1 as int, c.2 as int, n) == (ue.0, ue.1, ue.2);
                assert(cur == list_world.block_at(e.0 as int, e.1 as int, e.2 as int));
                assert(cur == e.3);
                assert(!listed_in(before, before.len() as int, e.0 as int, e.1 as int, e.2 as int));
                assert(e.3 == w0.block_at(e.0 as int, e.1 as int, e.2 as int));
                let rdw = cleared(w0, before, before.len() as int);
                let rdl = reader(list_world);
                assert forall|a: int, b: int, cc: int| #[trigger] rdw(a, b, cc) == rdl(a, b, cc) || rdw(a, b, cc) == 0 by {
                    assert(world.block_at(a, b, cc) == rdw(a, b, cc));
                }
                lemma_unsupported_more_air(rdl, rdw, e.0 as int, e.1 as int, e.2 as int, stored_id(e.3), stored_meta(e.3));
                assert(cascade_center(x, y, z, before, j as int) == cascade_center(x, y, z, before_list, j as int)) by {
                    if j > 0 {
                        assert(before[j - 1] == before.subrange(0, before_list.len() as int)[j - 1]);
                    }
                }
                assert(neighbour(c.0 as int, c.1 as int, c.2 as int, n) == (e.0 as int, e.1 as int, e.2 as int));
                assert(adjacent(cascade_center(x, y, z, before, j as int), (e.0, e.1, e.2)));
                lemma_cascade_push(w0, x, y, z, before, e, j as int);
            }
            clear_block(world, e.0, e.1, e.2);
            broken.push(e);
            changed = true;
            proof {
                assert forall|a: int, b: int, cc: int| #[trigger] world.block_at(a, b, cc) == cleared(w0, broken@, broken@.len() as int)(a, b, cc) by {
                    lemma_listed_push(before, e, before.len() as int, a, b, cc);
                }
                assert(broken@.subrange(0, before_list.len() as int) =~= before.subrange(0, before_list.len() as int));
            }
        }
        i += 1;
    }
    proof {
        if !changed {
            assert(list@.len() == 0);
        }
    }
    changed
}

/// Whether a dig action breaks the block: on finishing to dig (status 2),
/// or at once on starting to dig (status 0) in creative mode.
pub fn dig_breaks(status: u8, creative: bool) -> (r: bool)
    ensures
        r == (status == 2 || (status == 0 && creative)),
{
    status == 2 || (status == 0 && creative)
}

/// Breaks in cascade the blocks that lose their support once the block at
/// (x, y, z) changed: the unsupported neighbours of (x, y, z) break, then
/// those of every broken block, until nothing more falls. Returns the broken
/// blocks in the order they broke, each a step of the cascade
/// (`cascade_ok`); they are now air. In the end no neighbour of (x, y, z)
/// or of a broken block (away from the i32 limits) lacks support.
pub fn break_unsupported(world: &mut WorldMap, x: i32, y: i32, z: i32) -> (r: Vec<(i32, i32, i32, u16)>)
    requires
        old(world).wf(),
        cascade_safe(x as int, y as int, z as int),
    ensures
        final(world).wf(),
        forall|a: int, b: int, c: int|
            #[trigger] final(world).block_at(a, b, c) == if listed_in(r@, r@.len() as int, a, b, c) {
                0u16
            } else {
                old(world).block_at(a, b, c)
            },
        cascade_ok(*old(world), x, y, z, r@),
        forall|j: int|
            0 <= j <= r@.len() ==> {
                let c = #[trigger] cascade_center(x, y, z, r@, j);
                cascade_safe(c.0 as int, c.1 as int, c.2 as int) ==> settled(*final(world), c.0 as int, c.1 as int, c.2 as int)
            },
{
    let ghost w0 = *world;
    let mut broken: Vec<(i32, i32, i32, u16)> = Vec::new();
    let mut again = true;
    assert forall|a: int, b: int, c: int| #[trigger] world.block_at(a, b, c) == cleared(w0, broken@, broken@.len() as int)(a, b, c) by {
    }
    while again
        invariant
            world.wf(),
            forall|a: int, b: int, c: int|
                #[trigger] world.block_at(a, b, c) == cleared(w0, broken@, broken@.len() as int)(a, b, c),
            cascade_ok(w0, x, y, z, broken@),
            !again ==> forall|j: int|
                0 <= j <= broken@.len() ==> {
                    let c = #[trigger] cascade_center(x, y, z, broken@, j);
                    cascade_safe(c.0 as int, c.1 as int, c.2 as int) ==> settled(*world, c.0 as int, c.1 as int, c.2 as int)
                },
        decreases world.solid_count() + if again {
            1int
        } else {
            0int
        },
    {
        let ghost pass_world = *world;
        let ghost pass_len = broken@.len();
        let ghost count0 = world.solid_count();
        let mut changed = break_around(world, &mut broken, x, y, z, 0, Ghost(w0));
        let mut idx: usize = 0;
        while idx < broken.len()
            invariant
                world.wf(),
                idx <= broken@.len(),
                pass_len <= broken@.len(),
                forall|a: int, b: int, c: int|
                    #[trigger] world.block_at(a, b, c) == cleared(w0, broken@, broken@.len() as int)(a, b, c),
                cascade_ok(w0, x, y, z, broken@),
                changed == (broken@.len() > pass_len),
                !changed ==> *world == pass_world,
                world.solid_count() + broken@.len() == count0 + pass_len,
                !changed ==> forall|j: int|
                    0 <= j <= idx ==> {
                        let c = #[trigger] cascade_center(x, y, z, broken@, j);
                        cascade_safe(c.0 as int, c.1 as int, c.2 as int) ==> settled(*world, c.0 as int, c.1 as int, c.2 as int)
                    },
            decreases count0 + pass_len - idx,
        {
            let ghost before = broken@;
            let more = break_around(world, &mut broken, x, y, z, idx + 1, Ghost(w0));
            proof {
                if !changed && !more {
                    assert(broken@ =~= before);
                }
            }
            changed = changed || more;
            idx += 1;
        }
        if !changed {
            again = false;
        }
    }
    broken
}




/// Outcome of a block placement.
pub enum Placement {
    /// The item does not place a valid block (the client is disconnected).
    Invalid,
    /// The block cannot stand there, or the target is not air.
    Refused,
    /// The block was stored.
    Placed { block_id: u16, meta: u8, stored: u16 },
}

/// Block id placed by `item_id` against `face`: a sign on a side face is a
/// wall sign.
pub open spec fn placed_id(item_id: i16, face: u8) -> u16 {
    if placed_block(item_id) == 63 && side_face(face) {
        68
    } else {
        placed_block(item_id)
    }
}

/// Places the block of `item_id` at (nx, ny, nz), against `face` of the
/// clicked block `clicked`, for a player looking in direction `look`.
pub fn place_block(
    world: &mut WorldMap,
    item_id: i16,
    face: u8,
    clicked: u16,
    nx: i32,
    ny: i32,
    nz: i32,
    look: &Look,
    cursor_y: u8,
    damage: u8,
) -> (r: Placement)
    requires
        old(world).wf(),
        look.wf(),
        0 <= ny <= 255,
    ensures
        final(world).wf(),
        ({
            let b = placed_id(item_id, face);
            if !placeable(b) {
                r == Placement::Invalid && *final(world) == *old(world)
            } else if !placeable_on(b, face, clicked) || old(world).block_at(
                nx as int,
                ny as int,
                nz as int,
            ) != 0 {
                r == Placement::Refused && *final(world) == *old(world)
            } else {
                let m = placed_meta(b, face, *look, cursor_y, damage);
                let st = b | ((m as u16) << 12u16);
                &&& r == Placement::Placed { block_id: b, meta: m, stored: st }
                &&& forall|a: int, c: int, d: int|
                    #[trigger] final(world).block_at(a, c, d) == if a == nx && c == ny && d == nz {
                        st
                    } else {
                        old(world).block_at(a, c, d)
                    }
            }
        }),
{
    let mut block_id = item_to_block_id(item_id);
    if block_id == 63 && 2 <= face && face <= 5 {
        block_id = 68;
    }
    if !is_valid_placeable_block(block_id) {
        return Placement::Invalid;
    }
    if !can_place_on(block_id, face, clicked) {
        return Placement::Refused;
    }
    if get_block(world, nx, ny, nz) != 0 {
        return Placement::Refused;
    }
    let meta = block_metadata(block_id, face, look, cursor_y, damage);
    let stored = block_id | ((meta as u16) << 12u16);
    set_block(world, nx, ny, nz, stored);
    Placement::Placed { block_id, meta, stored }
}

/// Offset to the block on the right of a door of facing `m`.
pub open spec fn door_right(m: u8) -> (int, int) {
    if m == 0 {
        (0, -1)
    } else if m == 1 {
        (-1, 0)
    } else if m == 2 {
        (0, 1)
    } else {
        (1, 0)
    }
}

/// Whether a block is solid for a door hinge: not air and not a door.
pub open spec fn hinge_solid(stored: u16) -> bool {
    stored != 0 && stored_id(stored) != 64 && stored_id(stored) != 71
}

/// Upper half of a door (id `block_id`, facing `m`) placed at (x, y, z) of
/// `w`: hinge on the left (metadata 9) when the block on its right is solid
/// and the one on its left is not, or when a door on its left has its hinge
/// on the right; on the right (metadata 8) otherwise.
pub open spec fn door_top_value(w: WorldMap, x: int, y: int, z: int, block_id: u16, m: u8) -> u16 {
    let r = door_right(m);
    let right = w.block_at(x + r.0, y, z + r.1);
    let left = w.block_at(x - r.0, y, z - r.1);
    let hinge_right = if hinge_solid(right) && !hinge_solid(left) {
        false
    } else if stored_id(left) == 64 || stored_id(left) == 71 {
        stored_meta(w.block_at(x - r.0, y + 1, z - r.1)) & 1u8 != 0
    } else {
        true
    };
    block_id | ((if hinge_right {
        8u16
    } else {
        9u16
    }) << 12u16)
}

/// Stores the upper half of a door just placed at (x, y, z) with facing
/// `m`, and returns it.
pub fn place_door_top(world: &mut WorldMap, x: i32, y: i32, z: i32, block_id: u16, m: u8) -> (top: u16)
    requires
        old(world).wf(),
        m < 4,
        0 <= y < 255,
        i32::MIN < x < i32::MAX,
        i32::MIN < z < i32::MAX,
    ensures
        final(world).wf(),
        top == door_top_value(*old(world), x as int, y as int, z as int, block_id, m),
        forall|a: int, c: int, d: int|
            #[trigger] final(world).block_at(a, c, d) == if a == x && c == y + 1 && d == z {
                top
            } else {
                old(world).block_at(a, c, d)
            },
{
    let (rx, rz): (i32, i32) = match m {
        0 => (0, -1),
        1 => (-1, 0),
        2 => (0, 1),
        _ => (1, 0),
    };
    let right = get_block(world, x + rx, y, z + rz);
    let left = get_block(world, x - rx, y, z - rz);
    let right_id = right % 4096;
    let left_id = left % 4096;
    let right_solid = right != 0 && right_id != 64 && right_id != 71;
    let left_solid = left != 0 && left_id != 64 && left_id != 71;
    let hinge_right = if right_solid && !left_solid {
        false
    } else if left_id == 64 || left_id == 71 {
        let left_top = get_block(world, x - rx, y + 1, z - rz);
        ((left_top / 4096) as u8) & 0x01 != 0
    } else {
        true
    };
    let top_meta: u16 = if hinge_right { 8 } else { 9 };
    let top = block_id | (top_meta << 12u16);
    set_block(world, x, y + 1, z, top);
    top
}

/// Escaped form of a character inside a JSON string: backslash and double
/// quote get a backslash.
pub open spec fn escape_char(c: char) -> Seq<char> {
    if c == '\\' {
        seq!['\\', '\\']
    } else if c == '"' {
        seq!['\\', '"']
    } else {
        seq![c]
    }
}

/// Text with backslashes doubled and double quotes escaped.
pub open spec fn escaped(s: Seq<char>) -> Seq<char>
    decreases s.len(),
{
    if s.len() == 0 {
        Seq::empty()
    } else {
        escaped(s.drop_last()) + escape_char(s.last())
    }
}

/// JSON chat component of a message sent by a player: `{"text":"<user>
/// message"}` with the text escaped.
pub open spec fn chat_json(username: Seq<char>, message: Seq<char>) -> Seq<char> {
    seq!['{', '"', 't', 'e', 'x', 't', '"', ':', '"'] + escaped(
        seq!['<'] + username + seq!['>', ' '] + message,
    ) + seq!['"', '}']
}

proof fn lemma_escaped_plain(c: char)
    requires
        c != '\\',
        c != '"',
    ensures
        escaped(seq![c]) == seq![c],
{
    assert(seq![c].drop_last() =~= Seq::<char>::empty());
    assert(escaped(Seq::<char>::empty()) =~= Seq::<char>::empty());
    assert(seq![c].last() == c);
    assert(escape_char(c) =~= seq![c]);
    assert(Seq::<char>::empty() + seq![c] =~= seq![c]);
}

proof fn lemma_escaped_append(a: Seq<char>, b: Seq<char>)
    ensures
        escaped(a + b) == escaped(a) + escaped(b),
    decreases b.len(),
{
    if b.len() == 0 {
        assert(a + b =~= a);
        assert(escaped(a) + escaped(b) =~= escaped(a));
    } else {
        lemma_escaped_append(a, b.drop_last());
        assert((a + b).drop_last() =~= a + b.drop_last());
        assert((a + b).last() == b.last());
        assert(escaped(a) + escaped(b) =~= escaped(a) + escaped(b.drop_last()) + escape_char(
            b.last(),
        ));
    }
}

fn push_escaped(out: &mut String, text: &str)
    ensures
        final(out)@ == old(out)@ + escaped(text@),
{
    let n = text.unicode_len();
    let mut j: usize = 0;
    while j < n
        invariant
            j <= n,
            n == text@.len(),
            out@ == old(out)@ + escaped(text@.subrange(0, j as int)),
        decreases n - j,
    {
        let c = text.get_char(j);
        let ghost before = out@;
        if c == '\\' {
            push_char(out, '\\');
            push_char(out, '\\');
        } else if c == '"' {
            push_char(out, '\\');
            push_char(out, '"');
        } else {
            push_char(out, c);
        }
        proof {
            let pre = text@.subrange(0, j as int);
            let next = text@.subrange(0, j + 1);
            assert(next.drop_last() =~= pre);
            assert(next.last() == c);
            assert(out@ =~= before + escape_char(c));
            assert(out@ =~= old(out)@ + escaped(next));
        }
        j += 1;
    }
    assert(text@.subrange(0, n as int) =~= text@);
}

/// JSON chat component of a message sent by a player.
pub fn chat_message_json(username: &str, message: &str) -> (s: String)
    ensures
        s@ == chat_json(username@, message@),
{
    let mut out = String::new();
    push_char(&mut out, '{');
    push_char(&mut out, '"');
    push_char(&mut out, 't');
    push_char(&mut out, 'e');
    push_char(&mut out, 'x');
    push_char(&mut out, 't');
    push_char(&mut out, '"');
    push_char(&mut out, ':');
    push_char(&mut out, '"');
    let ghost head = out@;
    push_char(&mut out, '<');
    push_escaped(&mut out, username);
    push_char(&mut out, '>');
    push_char(&mut out, ' ');
    push_escaped(&mut out, message);
    let ghost body = out@;
    push_char(&mut out, '"');
    push_char(&mut out, '}');
    proof {
        let u = username@;
        let m = message@;
        lemma_escaped_append(seq!['<'], u);
        lemma_escaped_append(seq!['<'] + u, seq!['>']);
        lemma_escaped_append(seq!['<'] + u + seq!['>'], seq![' ']);
        lemma_escaped_append(seq!['<'] + u + seq!['>'] + seq![' '], m);
        lemma_escaped_plain('<');
        lemma_escaped_plain('>');
        lemma_escaped_plain(' ');
        assert(seq!['<'] + u + seq!['>'] + seq![' '] + m =~= seq!['<'] + u + seq!['>', ' '] + m);
        assert(head =~= seq!['{', '"', 't', 'e', 'x', 't', '"', ':', '"']);
        assert(body =~= head + escaped(seq!['<'] + u + seq!['>', ' '] + m));
        assert(out@ =~= chat_json(u, m));
    }
    out
}

} // verus!
