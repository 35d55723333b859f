//! Construction of the clientbound packets of protocol 1.7.10.

use vstd::prelude::*;
use crate::net::writing::{
    be_bytes, build_packet, i16_bits, i32_bits, packet_bytes, push_i16_be, push_i32_be,
    push_u32_be, string_bytes, varint_bytes, write_string, write_varint,
};

verus! {

/// 1 for `true`, 0 for `false`.
pub open spec fn flag(b: bool) -> u8 {
    if b {
        1
    } else {
        0
    }
}

/// Position of the highest set bit of a positive number.
pub open spec fn msb(m: nat) -> nat
    decreases m,
{
    if m <= 1 {
        0
    } else {
        1 + msb(m / 2)
    }
}

/// 2 to the power `e`.
pub open spec fn pow2(e: nat) -> nat
    decreases e,
{
    if e == 0 {
        1
    } else {
        2 * pow2((e - 1) as nat)
    }
}

/// IEEE-754 single-precision bit pattern of a small non-negative integer
/// (exactly representable): sign 0, biased exponent, mantissa without the
/// leading one.
pub open spec fn f32_bits_of(m: nat) -> nat {
    if m == 0 {
        0
    } else {
        ((127 + msb(m)) * pow2(23) + (m - pow2(msb(m))) * pow2((23 - msb(m)) as nat)) as nat
    }
}

proof fn lemma_pow2_values()
    ensures
        pow2(0) == 1,
        pow2(1) == 2,
        pow2(2) == 4,
        pow2(3) == 8,
        pow2(4) == 16,
        pow2(5) == 32,
        pow2(6) == 64,
        pow2(7) == 128,
        pow2(8) == 256,
        pow2(23) == 8388608,
{
    reveal_with_fuel(pow2, 24);
}

proof fn lemma_msb_bounds(m: nat)
    requires
        m >= 1,
    ensures
        pow2(msb(m)) <= m < 2 * pow2(msb(m)),
    decreases m,
{
    if m > 1 {
        lemma_msb_bounds(m / 2);
        assert(pow2(msb(m)) == 2 * pow2(msb(m / 2)));
    }
}

/// Bit pattern of `m as f32`, computed with integers only.
pub fn f32_bits_of_u8(m: u8) -> (bits: u32)
    ensures
        bits as nat == f32_bits_of(m as nat),
{
    if m == 0 {
        return 0;
    }
    let mut e: u32 = 0;
    let mut p: u32 = 1;
    let mut t: u8 = m;
    proof {
        lemma_pow2_values();
    }
    while t > 1
        invariant
            1 <= t <= m,
            e <= 7,
            p as nat == pow2(e as nat),
            msb(m as nat) == e + msb(t as nat),
            p * t <= m < p * (t + 1),
            p <= m,
        decreases t,
    {
        assert(msb(t as nat) == 1 + msb((t / 2) as nat));
        assert(p * 2 * (t / 2) <= p * t) by (nonlinear_arith)
            requires
                t >= 2,
        ;
        assert(p * (t + 1) <= p * 2 * (t / 2 + 1)) by (nonlinear_arith)
            requires
                t >= 2,
        ;
        assert(pow2((e + 1) as nat) == 2 * pow2(e as nat));
        assert(p * 2 <= p * 2 * (t / 2)) by (nonlinear_arith)
            requires
                t >= 2,
        ;
        proof {
            lemma_msb_bounds(m as nat);
            lemma_msb_le_7(m as nat);
        }
        t = t / 2;
        e = e + 1;
        p = p * 2;
    }
    proof {
        lemma_msb_bounds(m as nat);
        lemma_msb_le_7(m as nat);
        lemma_pow2_shift(e as nat);
        lemma_pow2_add((23 - e) as nat, e as nat);
        lemma_pow2_values();
        assert(t == 1);
        assert(m < 2 * p);
        assert(pow2((23 - e) as nat) >= 1);
        let c = pow2((23 - e) as nat);
        let d = (m - p) as nat;
        let pp = p as nat;
        assert(d * c < pp * c) by (nonlinear_arith)
            requires
                d < pp,
                c >= 1,
        ;
    }
    let shift: u32 = 23 - e;
    let mant: u32 = (m as u32 - p) * pow2_u32(shift);
    (127 + e) * 8388608 + mant
}

proof fn lemma_msb_le_7(m: nat)
    requires
        1 <= m < 256,
    ensures
        msb(m) <= 7,
{
    lemma_msb_bounds(m);
    lemma_pow2_values();
    if msb(m) >= 8 {
        lemma_pow2_mono(8, msb(m));
    }
}

pub proof fn lemma_pow2_mono(a: nat, b: nat)
    requires
        a <= b,
    ensures
        pow2(a) <= pow2(b),
    decreases b,
{
    if b > a {
        lemma_pow2_mono(a, (b - 1) as nat);
    }
}

proof fn lemma_pow2_add(a: nat, b: nat)
    ensures
        pow2(a + b) == pow2(a) * pow2(b),
        pow2(a) >= 1,
    decreases a,
{
    if a > 0 {
        let a1 = (a - 1) as nat;
        lemma_pow2_add(a1, b);
        assert(pow2(a) == 2 * pow2(a1));
        assert(pow2(a + b) == 2 * pow2(a1 + b));
        let x = pow2(a1);
        let y = pow2(b);
        assert(2 * (x * y) == (2 * x) * y) by (nonlinear_arith);
    } else {
        assert(pow2(0) == 1);
        assert(a + b == b);
    }
}

proof fn lemma_pow2_shift(e: nat)
    requires
        e <= 7,
    ensures
        pow2((23 - e) as nat) <= 8388608,
{
    lemma_pow2_values();
    lemma_pow2_mono((23 - e) as nat, 23);
}

fn pow2_u32(k: u32) -> (p: u32)
    requires
        k <= 23,
    ensures
        p as nat == pow2(k as nat),
{
    let mut p: u32 = 1;
    let mut i: u32 = 0;
    while i < k
        invariant
            i <= k <= 23,
            p as nat == pow2(i as nat),
        decreases k - i,
    {
        proof {
            lemma_pow2_mono((i + 1) as nat, 23);
            lemma_pow2_values();
        }
        p = p * 2;
        i = i + 1;
    }
    p
}

/// Player List Item (0x38): name, online flag, ping 0.
pub fn build_player_list_item(username: &str, online: bool) -> (p: Vec<u8>)
    ensures
        p@ == packet_bytes(0x38, string_bytes(username@) + seq![flag(online)] + be_bytes(0, 2)),
{
    let mut content = write_string(username);
    content.push(if online {
        1
    } else {
        0
    });
    push_i16_be(&mut content, 0);
    build_packet(0x38, &mut content)
}

/// Chat Message (0x02) carrying a JSON text component.
pub fn build_chat(json: &str) -> (p: Vec<u8>)
    ensures
        p@ == packet_bytes(0x02, string_bytes(json@)),
{
    let mut content = write_string(json);
    build_packet(0x02, &mut content)
}

/// Disconnect (0x40) with a JSON reason.
pub fn build_disconnect(reason: &str) -> (p: Vec<u8>)
    ensures
        p@ == packet_bytes(0x40, string_bytes(reason@)),
{
    let mut content = write_string(reason);
    build_packet(0x40, &mut content)
}

/// Change Game State (0x2B), reason 3 (game mode), value `mode` as an f32.
pub fn build_game_mode_change(mode: u8) -> (p: Vec<u8>)
    ensures
        p@ == packet_bytes(0x2B, seq![3u8] + be_bytes(f32_bits_of(mode as nat), 4)),
{
    let mut content: Vec<u8> = Vec::new();
    content.push(3u8);
    push_u32_be(&mut content, f32_bits_of_u8(mode));
    proof {
        assert(content@ =~= seq![3u8] + be_bytes(f32_bits_of(mode as nat), 4));
    }
    build_packet(0x2B, &mut content)
}

/// Confirm Transaction (0x32).
pub fn build_transaction_confirmation(window_id: u8, action_number: i16, accepted: bool) -> (p:
    Vec<u8>)
    ensures
        p@ == packet_bytes(
            0x32,
            seq![window_id] + be_bytes(i16_bits(action_number), 2) + seq![flag(accepted)],
        ),
{
    let mut content: Vec<u8> = Vec::new();
    content.push(window_id);
    push_i16_be(&mut content, action_number);
    content.push(if accepted {
        1
    } else {
        0
    });
    proof {
        assert(content@ =~= seq![window_id] + be_bytes(i16_bits(action_number), 2) + seq![
            flag(accepted),
        ]);
    }
    build_packet(0x32, &mut content)
}

/// Slot data of an item stack as sent in equipment and set-slot packets:
/// count, damage and an empty NBT marker (-1) for a present item.
pub open spec fn stack_tail(item_id: i16, count: u8, damage: i16) -> Seq<u8> {
    if item_id >= 0 {
        seq![count] + be_bytes(i16_bits(damage), 2) + be_bytes(i16_bits(-1i16), 2)
    } else {
        Seq::<u8>::empty()
    }
}

/// Entity Equipment (0x04): entity, slot, item (count 1, damage 0).
pub fn build_entity_equipment(entity_id: i32, slot: i16, item_id: i16) -> (p: Vec<u8>)
    ensures
        p@ == packet_bytes(
            0x04,
            be_bytes(i32_bits(entity_id), 4) + be_bytes(i16_bits(slot), 2) + be_bytes(
                i16_bits(item_id),
                2,
            ) + stack_tail(item_id, 1, 0),
        ),
{
    let mut content: Vec<u8> = Vec::new();
    push_i32_be(&mut content, entity_id);
    push_i16_be(&mut content, slot);
    push_i16_be(&mut content, item_id);
    if item_id >= 0 {
        content.push(1u8);
        push_i16_be(&mut content, 0);
        push_i16_be(&mut content, -1);
    }
    proof {
        assert(content@ =~= be_bytes(i32_bits(entity_id), 4) + be_bytes(i16_bits(slot), 2)
            + be_bytes(i16_bits(item_id), 2) + stack_tail(item_id, 1, 0));
    }
    build_packet(0x04, &mut content)
}

/// Destroy Entities (0x13) for a single entity.
pub fn build_destroy_entity(entity_id: i32) -> (p: Vec<u8>)
    ensures
        p@ == packet_bytes(0x13, seq![1u8] + be_bytes(i32_bits(entity_id), 4)),
{
    let mut content: Vec<u8> = Vec::new();
    content.push(1u8);
    push_i32_be(&mut content, entity_id);
    build_packet(0x13, &mut content)
}

/// Block id stored in the low 12 bits of a block value.
pub open spec fn stored_id(stored: u16) -> u16 {
    stored % 4096
}

/// Metadata stored in the high 4 bits of a block value.
pub open spec fn stored_meta(stored: u16) -> u8 {
    (stored / 4096) as u8
}

/// Block Change (0x23): position, VarInt block id, metadata.
pub fn build_block_change(x: i32, y: u8, z: i32, stored: u16) -> (p: Vec<u8>)
    ensures
        p@ == packet_bytes(
            0x23,
            be_bytes(i32_bits(x), 4) + seq![y] + be_bytes(i32_bits(z), 4) + varint_bytes(
                stored_id(stored) as nat,
            ) + seq![stored_meta(stored)],
        ),
{
    let block: u16 = stored % 4096;
    let metadata: u8 = (stored / 4096) as u8;
    let mut content: Vec<u8> = Vec::new();
    push_i32_be(&mut content, x);
    content.push(y);
    push_i32_be(&mut content, z);
    let mut id_bytes = write_varint(block as i32);
    content.append(&mut id_bytes);
    content.push(metadata);
    build_packet(0x23, &mut content)
}

/// Item dropped when a block is broken: -1 for no drop.
pub open spec fn spec_block_to_item(stored: u16) -> i16 {
    let block_id = stored_id(stored);
    if block_id == 1 {
        4
    } else if block_id == 2 || block_id == 3 || block_id == 60 {
        3
    } else if block_id == 7 || block_id == 90 || block_id == 92 {
        -1i16
    } else if block_id == 16 {
        263
    } else if block_id == 55 {
        331
    } else if block_id == 56 {
        264
    } else if block_id == 59 {
        296
    } else if block_id == 64 {
        324
    } else if block_id == 71 {
        330
    } else if block_id == 83 {
        338
    } else {
        block_id as i16
    }
}

/// Item dropped when the block `stored` is broken (-1: nothing): stone
/// gives cobblestone, ores give their gem, door/wire/cane blocks give their
/// item, and other blocks drop themselves.
pub fn block_to_item(stored: u16) -> (item: i16)
    ensures
        item == spec_block_to_item(stored),
{
    let block_id = stored % 4096;
    match block_id {
        1 => 4,
        2 => 3,
        3 => 3,
        7 => -1,
        12 => 12,
        13 => 13,
        16 => 263,
        55 => 331,
        56 => 264,
        59 => 296,
        60 => 3,
        64 => 324,
        71 => 330,
        83 => 338,
        90 => -1,
        92 => -1,
        _ => block_id as i16,
    }
}

/// Entity Metadata (0x1C) of a dropped item: slot entry 10 with the stack.
pub fn build_item_metadata(entity_id: i32, item_id: i16, count: i8, damage: i16) -> (p: Vec<u8>)
    ensures
        p@ == packet_bytes(
            0x1C,
            be_bytes(i32_bits(entity_id), 4) + seq![0xAAu8] + be_bytes(i16_bits(item_id), 2)
                + seq![count as u8] + be_bytes(i16_bits(damage), 2) + be_bytes(i16_bits(-1i16), 2)
                + seq![0x7Fu8],
        ),
{
    let mut content: Vec<u8> = Vec::new();
    push_i32_be(&mut content, entity_id);
    content.push(0xAA);
    push_i16_be(&mut content, item_id);
    content.push(count as u8);
    push_i16_be(&mut content, damage);
    push_i16_be(&mut content, -1);
    content.push(0x7F);
    proof {
        assert(content@ =~= be_bytes(i32_bits(entity_id), 4) + seq![0xAAu8] + be_bytes(
            i16_bits(item_id),
            2,
        ) + seq![count as u8] + be_bytes(i16_bits(damage), 2) + be_bytes(i16_bits(-1i16), 2)
            + seq![0x7Fu8]);
    }
    build_packet(0x1C, &mut content)
}

/// Collect Item (0x0D).
pub fn build_collect_item(collected_id: i32, collector_id: i32) -> (p: Vec<u8>)
    ensures
        p@ == packet_bytes(
            0x0D,
            be_bytes(i32_bits(collected_id), 4) + be_bytes(i32_bits(collector_id), 4),
        ),
{
    let mut content: Vec<u8> = Vec::new();
    push_i32_be(&mut content, collected_id);
    push_i32_be(&mut content, collector_id);
    build_packet(0x0D, &mut content)
}

/// Entity Metadata (0x1C) with the flags byte (bit 1: sneaking).
pub fn build_entity_metadata_flags(entity_id: i32, sneaking: bool) -> (p: Vec<u8>)
    ensures
        p@ == packet_bytes(
            0x1C,
            be_bytes(i32_bits(entity_id), 4) + seq![0u8, if sneaking {
                2u8
            } else {
                0u8
            }, 0x7Fu8],
        ),
{
    let mut content: Vec<u8> = Vec::new();
    push_i32_be(&mut content, entity_id);
    content.push(0x00);
    content.push(if sneaking {
        0x02
    } else {
        0x00
    });
    content.push(0x7F);
    proof {
        assert(content@ =~= be_bytes(i32_bits(entity_id), 4) + seq![0u8, if sneaking {
            2u8
        } else {
            0u8
        }, 0x7Fu8]);
    }
    build_packet(0x1C, &mut content)
}

/// Entity Status (0x1A).
pub fn build_entity_status(entity_id: i32, status: u8) -> (p: Vec<u8>)
    ensures
        p@ == packet_bytes(0x1A, be_bytes(i32_bits(entity_id), 4) + seq![status]),
{
    let mut content: Vec<u8> = Vec::new();
    push_i32_be(&mut content, entity_id);
    content.push(status);
    build_packet(0x1A, &mut content)
}

/// Animation (0x28).
pub fn build_animation(entity_id: i32, animation: u8) -> (p: Vec<u8>)
    ensures
        p@ == packet_bytes(0x28, be_bytes(i32_bits(entity_id), 4) + seq![animation]),
{
    let mut content: Vec<u8> = Vec::new();
    push_i32_be(&mut content, entity_id);
    content.push(animation);
    build_packet(0x28, &mut content)
}

/// Respawn (0x07) with level type "flat".
pub fn build_respawn(dimension: i32, difficulty: u8, gamemode: u8) -> (p: Vec<u8>)
    ensures
        p@ == packet_bytes(
            0x07,
            be_bytes(i32_bits(dimension), 4) + seq![difficulty, gamemode] + string_bytes(
                "flat"@,
            ),
        ),
{
    let mut content: Vec<u8> = Vec::new();
    push_i32_be(&mut content, dimension);
    content.push(difficulty);
    content.push(gamemode);
    let mut level = write_string("flat");
    content.append(&mut level);
    proof {
        assert(content@ =~= be_bytes(i32_bits(dimension), 4) + seq![difficulty, gamemode]
            + string_bytes("flat"@));
    }
    build_packet(0x07, &mut content)
}

/// Set Slot (0x2F).
pub fn build_set_slot(window_id: u8, slot: i16, item_id: i16, count: i8, damage: i16) -> (p:
    Vec<u8>)
    ensures
        p@ == packet_bytes(
            0x2F,
            seq![window_id] + be_bytes(i16_bits(slot), 2) + be_bytes(i16_bits(item_id), 2)
                + stack_tail(item_id, count as u8, damage),
        ),
{
    let mut content: Vec<u8> = Vec::new();
    content.push(window_id);
    push_i16_be(&mut content, slot);
    push_i16_be(&mut content, item_id);
    if item_id >= 0 {
        content.push(count as u8);
        push_i16_be(&mut content, damage);
        push_i16_be(&mut content, -1);
    }
    proof {
        assert(content@ =~= seq![window_id] + be_bytes(i16_bits(slot), 2) + be_bytes(
            i16_bits(item_id),
            2,
        ) + stack_tail(item_id, count as u8, damage));
    }
    build_packet(0x2F, &mut content)
}

} // verus!
