use ferrum::game::redstone::{
    block_id, can_reset_dust_from, contains_from, dust_power_input, encode, facing, get_block_power,
    is_block_powered, is_opaque, is_power_source, is_redstone_relevant, meta, piston_offset,
    piston_pushable, redstone_tick, reset_dust_network, schedule_update, RedstoneQueues, MAX_ITER,
};
use ferrum::world::{get_block, set_block, WorldMap};

fn ground() -> WorldMap {
    let mut w = WorldMap::new();
    for x in -4..=6 {
        for z in -4..=4 {
            set_block(&mut w, x, 10, z, 1);
        }
    }
    w
}

#[test]
fn block_value_parts() {
    let s = encode(55, 9);
    assert_eq!(s, 55 + (9 << 12));
    assert_eq!(block_id(s), 55);
    assert_eq!(meta(s), 9);
}

#[test]
fn power_levels() {
    assert_eq!(get_block_power(encode(55, 7)), 7);
    assert_eq!(get_block_power(encode(69, 13)), 15);
    assert_eq!(get_block_power(encode(69, 5)), 0);
    assert_eq!(get_block_power(75), 15);
    assert_eq!(get_block_power(encode(70, 1)), 15);
    assert_eq!(get_block_power(1), 0);
    assert!(is_power_source(152));
    assert!(is_power_source(encode(77, 8)));
    assert!(!is_power_source(encode(77, 0)));
    assert!(!is_power_source(encode(55, 15)));
}

#[test]
fn block_classes() {
    assert!(is_opaque(1));
    assert!(is_opaque(20));
    assert!(!is_opaque(9));
    assert!(!is_opaque(0));
    assert!(is_redstone_relevant(55));
    assert!(!is_redstone_relevant(1));
    assert!(piston_pushable(1));
    assert!(!piston_pushable(7));
    assert_eq!(piston_offset(1), (0, 1, 0));
    assert_eq!(piston_offset(4), (-1, 0, 0));
    assert!(can_reset_dust_from(0, 0));
    assert!(can_reset_dust_from(55, 3));
    assert!(!can_reset_dust_from(55, 0));
    assert!(!can_reset_dust_from(1, 0));
    let _ = facing(0);
}

#[test]
fn wire_next_to_a_lever() {
    let mut w = ground();
    set_block(&mut w, 0, 11, 0, encode(69, 13));
    set_block(&mut w, 1, 11, 0, 55);
    assert_eq!(dust_power_input(&w, 1, 11, 0), 15);
    set_block(&mut w, 1, 11, 0, encode(55, 15));
    set_block(&mut w, 2, 11, 0, 55);
    assert_eq!(dust_power_input(&w, 2, 11, 0), 14);
    set_block(&mut w, 0, 11, 0, encode(69, 5));
    assert_eq!(dust_power_input(&w, 3, 11, 0), 0);
}

#[test]
fn a_lit_wire_powers_the_block_it_points_into() {
    let mut w = ground();
    set_block(&mut w, 0, 11, 0, encode(55, 10));
    assert!(is_block_powered(&w, 0, 10, 0));
    assert!(!is_block_powered(&w, 3, 10, 3));
}

#[test]
fn cut_wires_are_reset() {
    let mut w = ground();
    set_block(&mut w, 1, 11, 0, encode(55, 14));
    set_block(&mut w, 2, 11, 0, encode(55, 13));
    set_block(&mut w, 4, 11, 0, encode(55, 11));
    let reset = reset_dust_network(&mut w, &[(0, 11, 0)]);
    assert_eq!(reset.len(), 2);
    assert!(reset.contains(&(1, 11, 0)));
    assert!(reset.contains(&(2, 11, 0)));
    assert_eq!(get_block(&w, 1, 11, 0), 55);
    assert_eq!(get_block(&w, 2, 11, 0), 55);
    assert_eq!(get_block(&w, 4, 11, 0), encode(55, 11));
    // A wire at 0 that was just placed resets nothing.
    set_block(&mut w, 5, 11, 0, 55);
    assert!(reset_dust_network(&mut w, &[(5, 11, 0)]).is_empty());
}

#[test]
fn queue_helpers() {
    let mut q = vec![(1, 2, 3)];
    schedule_update(&mut q, 0, (1, 2, 3));
    assert_eq!(q.len(), 1);
    schedule_update(&mut q, 1, (1, 2, 3));
    assert_eq!(q.len(), 2);
    assert!(contains_from(&q, 1, (1, 2, 3)));
    assert!(!contains_from(&q, 2, (1, 2, 3)));
    assert_eq!(MAX_ITER, 50000);
}

#[test]
fn a_tick_lights_a_wire() {
    let mut w = ground();
    set_block(&mut w, 0, 11, 0, encode(69, 13));
    set_block(&mut w, 1, 11, 0, 55);
    let mut qs = RedstoneQueues { queue: vec![(1, 11, 0)], delayed: Vec::new() };
    let out = redstone_tick(&mut w, &mut qs, 5, &[]);
    assert_eq!(get_block(&w, 1, 11, 0), encode(55, 15));
    assert!(out.updates.contains(&(1, 11, 0, encode(55, 15))));
    // Replaying the reported updates on the old world gives the new one.
    let mut replay = ground();
    replay_into(&mut replay, &[(0, 11, 0, encode(69, 13)), (1, 11, 0, 55)]);
    replay_into(&mut replay, &out.updates);
    for x in -1..=3 {
        for y in 9..=13 {
            for z in -1..=1 {
                assert_eq!(get_block(&replay, x, y, z), get_block(&w, x, y, z));
            }
        }
    }
}

fn replay_into(w: &mut WorldMap, ups: &[(i32, i32, i32, u16)]) {
    for &(x, y, z, v) in ups {
        set_block(w, x, y, z, v);
    }
}

#[test]
fn delayed_changes_wait_for_their_tick() {
    let mut w = ground();
    let mut qs = RedstoneQueues { queue: Vec::new(), delayed: vec![(10, 3, 11, 3, 152)] };
    let out = redstone_tick(&mut w, &mut qs, 5, &[]);
    assert!(out.updates.is_empty());
    assert_eq!(qs.delayed.len(), 1);
    let out = redstone_tick(&mut w, &mut qs, 10, &[]);
    assert!(qs.delayed.is_empty());
    assert_eq!(get_block(&w, 3, 11, 3), 152);
    assert_eq!(out.updates[0], (3, 11, 3, 152));
}

#[test]
fn reset_follows_slopes_and_repeater_fronts() {
    let mut w = ground();
    // A repeater facing east only resets the wire in front of it.
    set_block(&mut w, 0, 11, 0, encode(93, 1));
    set_block(&mut w, 1, 11, 0, encode(55, 12));
    set_block(&mut w, -1, 11, 0, encode(55, 12));
    // The reset climbs a slope: one block east and one up.
    set_block(&mut w, 2, 12, 0, encode(55, 11));
    let reset = reset_dust_network(&mut w, &[(0, 11, 0)]);
    assert_eq!(reset, vec![(1, 11, 0), (2, 12, 0)]);
    assert_eq!(get_block(&w, -1, 11, 0), encode(55, 12));
    assert_eq!(get_block(&w, 2, 12, 0), 55);
}

#[test]
fn broken_blocks_are_sent_as_air() {
    let mut w = ground();
    set_block(&mut w, 3, 11, 3, 1);
    set_block(&mut w, 3, 12, 3, encode(76, 5));
    let mut qs = RedstoneQueues { queue: Vec::new(), delayed: vec![(5, 3, 11, 3, 0)] };
    let out = redstone_tick(&mut w, &mut qs, 5, &[]);
    assert_eq!(out.updates[0], (3, 11, 3, 0));
    assert!(out.broken.iter().any(|b| (b.0, b.1, b.2) == (3, 12, 3)));
    for b in &out.broken {
        assert!(out.updates.contains(&(b.0, b.1, b.2, 0)));
    }
    assert_eq!(get_block(&w, 3, 12, 3), 0);
}

#[test]
fn plates_follow_their_occupants() {
    let mut w = ground();
    set_block(&mut w, 2, 11, 2, 70);
    set_block(&mut w, -2, 11, 1, encode(72, 1));
    let mut qs = RedstoneQueues { queue: Vec::new(), delayed: Vec::new() };
    let out = redstone_tick(&mut w, &mut qs, 1, &[(2, 11, 2)]);
    assert!(out.updates.contains(&(2, 11, 2, encode(70, 1))));
    assert!(out.updates.contains(&(-2, 11, 1, 72)));
    assert_eq!(get_block(&w, 2, 11, 2), encode(70, 1));
    assert_eq!(get_block(&w, -2, 11, 1), 72);
    // Nothing changes while the occupants stay where they are.
    let out = redstone_tick(&mut w, &mut qs, 2, &[(2, 11, 2)]);
    assert!(!out.updates.iter().any(|u| (u.0, u.1, u.2) == (2, 11, 2)));
}

#[test]
fn a_repeater_waits_for_its_delay() {
    let mut w = ground();
    // Repeater facing east with the longest delay (4 ticks), fed by a lever.
    set_block(&mut w, -1, 11, 0, encode(69, 13));
    set_block(&mut w, 0, 11, 0, encode(93, 1 | 12));
    let mut qs = RedstoneQueues { queue: vec![(0, 11, 0)], delayed: Vec::new() };
    let out = redstone_tick(&mut w, &mut qs, 7, &[]);
    assert_eq!(out.processed[0], ((0, 11, 0), out.queue_start));
    assert_eq!(out.queue_start, 0);
    assert_eq!(qs.delayed, vec![(11, 0, 11, 0, encode(94, 13))]);
    assert_eq!(get_block(&w, 0, 11, 0), encode(93, 13));
    redstone_tick(&mut w, &mut qs, 11, &[]);
    assert_eq!(get_block(&w, 0, 11, 0), encode(94, 13));
}

#[test]
fn a_tick_breaks_a_cane_column_whole() {
    let mut w = ground();
    set_block(&mut w, 3, 11, 3, 12);
    set_block(&mut w, 3, 12, 3, 83);
    set_block(&mut w, 3, 13, 3, 83);
    let mut qs = RedstoneQueues { queue: Vec::new(), delayed: vec![(5, 3, 11, 3, 0)] };
    let out = redstone_tick(&mut w, &mut qs, 5, &[]);
    assert_eq!(get_block(&w, 3, 12, 3), 0);
    assert_eq!(get_block(&w, 3, 13, 3), 0);
    assert_eq!(out.broken, vec![(3, 12, 3, 83), (3, 13, 3, 83)]);
    assert!(out.updates.contains(&(3, 13, 3, 0)));
}
