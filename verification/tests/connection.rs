use ferrum::game::connection::{
    block_metadata, break_block, break_unsupported, button_release, dig_breaks, can_place_on, chat_message_json,
    chunks_in_view, find_safe_spawn, food_heal, is_interactive_block, is_valid_placeable_block,
    item_to_block_id, lost_support, place_block, place_door_top, toggle_at, toggle_block,
    unsupported_neighbours, Look, Placement,
};
use ferrum::world::{get_block, set_block, WorldMap};

fn look(yaw_dir: u8) -> Look {
    Look { yaw_dir, rotation16: 0, steep_down: false, steep_up: false }
}

fn flat_world(ground: i32) -> WorldMap {
    let mut w = WorldMap::new();
    for x in -12..=12 {
        for z in -12..=12 {
            for y in 0..=ground {
                set_block(&mut w, x, y, z, if y == ground { 2 } else { 1 });
            }
        }
    }
    w
}

#[test]
fn toggles() {
    // Door: open bit 4 flips.
    assert_eq!(toggle_block(64), Some(64 + (4 << 12)));
    assert_eq!(toggle_block(64 + (4 << 12)), Some(64));
    // Lever: on bit 8 flips.
    assert_eq!(toggle_block(69 + (5 << 12)), Some(69 + (13 << 12)));
    // Repeater: delay cycles, facing kept.
    assert_eq!(toggle_block(93 + (2 << 12)), Some(93 + (6 << 12)));
    assert_eq!(toggle_block(93 + (14 << 12)), Some(93 + (2 << 12)));
    assert_eq!(toggle_block(1), None);
    assert!(is_interactive_block(54));
    assert!(is_interactive_block(64 + (8 << 12)));
    assert!(!is_interactive_block(1));
}

#[test]
fn toggle_twice_gives_back_the_block() {
    for stored in [64u16, 71 + (3 << 12), 96 + (2 << 12), 107, 69 + (5 << 12), 77, 143 + (1 << 12)] {
        let once = toggle_block(stored).unwrap();
        assert_eq!(toggle_block(once), Some(stored));
    }
    let mut s = 94 + (1 << 12);
    for _ in 0..4 {
        s = toggle_block(s).unwrap();
    }
    assert_eq!(s, 94 + (1 << 12));
}

#[test]
fn items_place_their_block() {
    assert_eq!(item_to_block_id(324), 64);
    assert_eq!(item_to_block_id(331), 55);
    assert_eq!(item_to_block_id(356), 93);
    assert_eq!(item_to_block_id(4), 4);
    assert!(is_valid_placeable_block(1));
    assert!(!is_valid_placeable_block(0));
}

#[test]
fn placement_rules() {
    // A flower needs grass or dirt below, placed on the top face.
    assert!(can_place_on(37, 1, 2));
    assert!(!can_place_on(37, 1, 1));
    assert!(can_place_on(1, 1, 1));
}

#[test]
fn metadata_from_face_and_look() {
    // Torch on a wall faces away from it.
    assert_eq!(block_metadata(50, 5, &look(0), 0, 0), 1);
    assert_eq!(block_metadata(50, 2, &look(0), 0, 0), 4);
    assert_eq!(block_metadata(50, 1, &look(0), 0, 0), 5);
    // Logs take their axis from the face.
    assert_eq!(block_metadata(17, 4, &look(0), 0, 2), 6);
    assert_eq!(block_metadata(17, 2, &look(0), 0, 1), 9);
    // Wool keeps its colour, a slab placed under a block goes to the top half.
    assert_eq!(block_metadata(35, 1, &look(0), 0, 14), 14);
    assert_eq!(block_metadata(44, 0, &look(0), 0, 3), 11);
    // Lever on the floor, on the ceiling.
    assert_eq!(block_metadata(69, 1, &look(0), 0, 0), 5);
    assert_eq!(block_metadata(69, 0, &look(0), 0, 0), 0);
}

#[test]
fn food_values() {
    assert_eq!(food_heal(260), 4);
    assert_eq!(food_heal(364), 8);
    assert_eq!(food_heal(413), 10);
    assert_eq!(food_heal(1), 0);
}

#[test]
fn view_square() {
    let v = chunks_in_view(0, 0, 1);
    assert_eq!(v, vec![(-1, -1), (-1, 0), (-1, 1), (0, -1), (0, 0), (0, 1), (1, -1), (1, 0), (1, 1)]);
    assert_eq!(chunks_in_view(5, -3, 10).len(), 441);
    assert!(chunks_in_view(5, -3, -1).is_empty());
}

#[test]
fn spawn_on_the_surface() {
    let w = flat_world(10);
    assert_eq!(find_safe_spawn(&w, 0, 0, 17), (0, 11, 0));
    // An empty world: the default height.
    let empty = WorldMap::new();
    assert_eq!(find_safe_spawn(&empty, 3, 4, 17), (3, 17, 4));
}

#[test]
fn spawn_avoids_a_blocked_column() {
    let mut w = flat_world(10);
    // Column (0, 0) has a block on top with a one-block gap under a roof.
    set_block(&mut w, 0, 12, 0, 1);
    set_block(&mut w, 0, 14, 0, 1);
    set_block(&mut w, 0, 15, 0, 1);
    let p = find_safe_spawn(&w, 0, 0, 17);
    assert_eq!(p, (0, 16, 0));
    // The search starts just above the highest block of the column.
    let mut w = flat_world(10);
    set_block(&mut w, 0, 12, 0, 1);
    set_block(&mut w, 0, 13, 0, 1);
    assert_eq!(find_safe_spawn(&w, 0, 0, 17), (0, 14, 0));
}

#[test]
fn breaking_a_door_removes_both_halves() {
    let mut w = flat_world(10);
    set_block(&mut w, 2, 11, 2, 64);
    set_block(&mut w, 2, 12, 2, 64 + (8 << 12));
    let (old, other) = break_block(&mut w, 2, 11, 2);
    assert_eq!(old, 64);
    assert_eq!(other, Some((2, 12, 2)));
    assert_eq!(get_block(&w, 2, 11, 2), 0);
    assert_eq!(get_block(&w, 2, 12, 2), 0);
    let (old, other) = break_block(&mut w, 3, 10, 3);
    assert_eq!(old, 2);
    assert_eq!(other, None);
}

#[test]
fn toggling_the_top_of_a_door_opens_its_bottom() {
    let mut w = flat_world(10);
    set_block(&mut w, 2, 11, 2, 64);
    set_block(&mut w, 2, 12, 2, 64 + (8 << 12));
    assert_eq!(toggle_at(&mut w, 2, 12, 2), Some((2, 11, 2, 64 + (4 << 12))));
    assert_eq!(get_block(&w, 2, 11, 2), 64 + (4 << 12));
    assert_eq!(toggle_at(&mut w, 0, 10, 0), None);
}

#[test]
fn buttons_release() {
    assert_eq!(button_release(77 + (9 << 12)), Some((20, 77 + (1 << 12))));
    assert_eq!(button_release(143 + (12 << 12)), Some((30, 143 + (4 << 12))));
    assert_eq!(button_release(77 + (1 << 12)), None);
}

#[test]
fn support_cascade() {
    let mut w = flat_world(10);
    set_block(&mut w, 1, 11, 1, 50 + (5 << 12)); // torch on the floor
    set_block(&mut w, 1, 10, 1, 0); // its support is gone
    assert!(lost_support(&w, 1, 11, 1, 50, 5));
    let found = unsupported_neighbours(&w, 1, 10, 1);
    assert_eq!(found, vec![(1, 11, 1, 50 + (5 << 12))]);
    let broken = break_unsupported(&mut w, 1, 10, 1);
    assert_eq!(broken, vec![(1, 11, 1, 50 + (5 << 12))]);
    assert_eq!(get_block(&w, 1, 11, 1), 0);
}

#[test]
fn a_cane_column_falls_whole() {
    let mut w = flat_world(10);
    set_block(&mut w, 3, 11, 3, 83);
    set_block(&mut w, 3, 12, 3, 83);
    set_block(&mut w, 3, 13, 3, 83);
    set_block(&mut w, 3, 10, 3, 0);
    let broken = break_unsupported(&mut w, 3, 10, 3);
    assert_eq!(broken, vec![(3, 11, 3, 83), (3, 12, 3, 83), (3, 13, 3, 83)]);
    for y in 11..=13 {
        assert_eq!(get_block(&w, 3, y, 3), 0);
    }
}

#[test]
fn levers_and_buttons_hang_on_the_clicked_block() {
    let mut w = WorldMap::new();
    set_block(&mut w, 0, 64, 0, 1);
    // Clicking the west face (4) of the stone puts the lever west of it.
    let m = block_metadata(69, 4, &look(0), 0, 0);
    assert_eq!(m, 1);
    assert!(!lost_support(&w, -1, 64, 0, 69, m));
    assert!(lost_support(&w, 1, 64, 0, 69, m));
    let m = block_metadata(69, 5, &look(0), 0, 0);
    assert!(!lost_support(&w, 1, 64, 0, 69, m));
    let m = block_metadata(69, 2, &look(0), 0, 0);
    assert!(!lost_support(&w, 0, 64, -1, 69, m));
    let m = block_metadata(69, 3, &look(0), 0, 0);
    assert!(!lost_support(&w, 0, 64, 1, 69, m));
    // Buttons: every face of the stone holds the button placed on it.
    for (face, (x, y, z)) in [(0u8, (0, 63, 0)), (1, (0, 65, 0)), (2, (0, 64, -1)), (3, (0, 64, 1)), (4, (-1, 64, 0)), (5, (1, 64, 0))] {
        let m = block_metadata(77, face, &look(0), 0, 0);
        assert!(!lost_support(&w, x, y, z, 77, m));
        let m = block_metadata(69, face, &look(0), 0, 0);
        assert!(!lost_support(&w, x, y, z, 69, m));
    }
}

#[test]
fn placing_blocks() {
    let mut w = flat_world(10);
    let r = place_block(&mut w, 4, 1, 2, 0, 11, 0, &look(0), 0, 0);
    assert!(matches!(r, Placement::Placed { block_id: 4, meta: 0, stored: 4 }));
    assert_eq!(get_block(&w, 0, 11, 0), 4);
    // The target is taken now.
    let r = place_block(&mut w, 4, 1, 2, 0, 11, 0, &look(0), 0, 0);
    assert!(matches!(r, Placement::Refused));
    // A flower cannot stand on stone.
    let r = place_block(&mut w, 37, 1, 4, 1, 11, 1, &look(0), 0, 0);
    assert!(matches!(r, Placement::Refused));
    let r = place_block(&mut w, 0, 1, 2, 1, 11, 1, &look(0), 0, 0);
    assert!(matches!(r, Placement::Invalid));
}

#[test]
fn door_top_half() {
    let mut w = flat_world(10);
    set_block(&mut w, 0, 11, 0, 64 + (1 << 12));
    let top = place_door_top(&mut w, 0, 11, 0, 64, 1);
    assert_eq!(top & 0x0FFF, 64);
    assert_ne!(top >> 12 & 8, 0);
    assert_eq!(get_block(&w, 0, 12, 0), top);
}

#[test]
fn chat_json_escapes_text() {
    assert_eq!(chat_message_json("Bob", "hi"), "{\"text\":\"<Bob> hi\"}");
    assert_eq!(
        chat_message_json("Bob", "say \"x\" \\ y"),
        "{\"text\":\"<Bob> say \\\"x\\\" \\\\ y\"}"
    );
}

#[test]
fn digging_breaks_when_done_or_in_creative() {
    assert!(dig_breaks(2, false));
    assert!(dig_breaks(0, true));
    assert!(!dig_breaks(0, false));
    assert!(!dig_breaks(1, true));
}
