use ferrum::game::inventory::{CreativeAction, Inventory, MAX_STACK, SLOT_COUNT};

fn inv_with(slots: &[(usize, i16, u8)]) -> Inventory {
    let mut inv = Inventory::new();
    for &(s, item, count) in slots {
        inv.items[s] = item;
        inv.counts[s] = count;
    }
    inv
}

fn total(inv: &Inventory, item: i16) -> u32 {
    let mut t: u32 = 0;
    for s in 0..SLOT_COUNT {
        if inv.items[s] == item {
            t += inv.counts[s] as u32;
        }
    }
    if inv.cursor_item == item {
        t += inv.cursor_count as u32;
    }
    t
}

#[test]
fn new_inventory_is_empty() {
    let inv = Inventory::new();
    assert_eq!(inv.items.len(), SLOT_COUNT);
    assert!(inv.items.iter().all(|&i| i == -1));
    assert!(inv.counts.iter().all(|&c| c == 0));
    assert_eq!(inv.cursor_item, -1);
    assert_eq!(inv.selected_slot, 0);
    assert_eq!(MAX_STACK, 64);
}

#[test]
fn left_click_swaps_slot_and_cursor() {
    let mut inv = inv_with(&[(10, 4, 20)]);
    let out = inv.click_window(10, 0, 0);
    assert_eq!(out.changed, vec![(10, -1, 0)]);
    assert!(out.dropped.is_none());
    assert_eq!((inv.cursor_item, inv.cursor_count), (4, 20));
    let out = inv.click_window(10, 0, 0);
    assert_eq!(out.changed, vec![(10, 4, 20)]);
    assert_eq!((inv.cursor_item, inv.cursor_count), (-1, 0));
}

#[test]
fn right_click_takes_half_and_places_one() {
    let mut inv = inv_with(&[(12, 1, 7)]);
    inv.click_window(12, 1, 0);
    assert_eq!((inv.cursor_item, inv.cursor_count), (1, 4));
    assert_eq!(inv.counts[12], 3);
    let out = inv.click_window(13, 1, 0);
    assert_eq!(out.changed, vec![(13, 1, 1)]);
    assert_eq!(inv.cursor_count, 3);
    inv.click_window(12, 1, 0);
    assert_eq!(inv.counts[12], 4);
    assert_eq!(inv.cursor_count, 2);
    assert_eq!(total(&inv, 1), 7);
}

#[test]
fn shift_click_moves_hotbar_stack_to_main_inventory() {
    let mut inv = inv_with(&[(36, 3, 40), (9, 3, 60), (10, 5, 1)]);
    let out = inv.click_window(36, 0, 1);
    // Slot 9 is topped up to 64, then the first empty slot (11) gets the rest.
    assert_eq!(inv.counts[9], 64);
    assert_eq!((inv.items[11], inv.counts[11]), (3, 36));
    assert_eq!((inv.items[36], inv.counts[36]), (-1, 0));
    assert_eq!(out.changed, vec![(9, 3, 64), (11, 3, 36), (36, -1, 0)]);
    assert_eq!(total(&inv, 3), 100);
}

#[test]
fn shift_click_with_no_room_changes_nothing() {
    let mut inv = Inventory::new();
    for s in 36..45 {
        inv.items[s] = 7;
        inv.counts[s] = 64;
    }
    inv.items[20] = 1;
    inv.counts[20] = 5;
    let out = inv.click_window(20, 0, 1);
    assert!(out.changed.is_empty());
    assert_eq!(inv.counts[20], 5);
}

#[test]
fn number_key_swaps_with_hotbar() {
    let mut inv = inv_with(&[(15, 2, 9), (38, 4, 1)]);
    let out = inv.click_window(15, 2, 2);
    assert_eq!(out.changed, vec![(15, 4, 1), (38, 2, 9)]);
    inv.click_window(15, 2, 2);
    assert_eq!((inv.items[15], inv.counts[15]), (2, 9));
    assert_eq!((inv.items[38], inv.counts[38]), (4, 1));
}

#[test]
fn drop_key_and_cursor_drop() {
    let mut inv = inv_with(&[(40, 17, 5)]);
    let out = inv.click_window(40, 0, 4);
    assert_eq!(out.dropped, Some((17, 1)));
    assert_eq!(inv.counts[40], 4);
    let out = inv.click_window(40, 1, 4);
    assert_eq!(out.dropped, Some((17, 4)));
    assert_eq!((inv.items[40], inv.counts[40]), (-1, 0));
    inv.cursor_item = 3;
    inv.cursor_count = 10;
    let out = inv.click_window(-1, 1, 0);
    assert_eq!(out.dropped, Some((3, 1)));
    assert_eq!(inv.cursor_count, 9);
    let out = inv.click_window(-1, 0, 0);
    assert_eq!(out.dropped, Some((3, 9)));
    assert_eq!((inv.cursor_item, inv.cursor_count), (-1, 0));
}

#[test]
fn other_modes_resend_the_slot() {
    let mut inv = inv_with(&[(5, 2, 3)]);
    let out = inv.click_window(5, 0, 6);
    assert_eq!(out.changed, vec![(5, 2, 3)]);
    let out = inv.click_window(99, 0, 0);
    assert!(out.changed.is_empty());
}

#[test]
fn creative_actions() {
    let mut inv = Inventory::new();
    assert!(matches!(inv.creative_set(false, 36, 1, 64), CreativeAction::Ignore));
    assert_eq!(inv.items[36], -1);
    assert!(matches!(inv.creative_set(true, 36, 1, 64), CreativeAction::Stored));
    assert_eq!((inv.items[36], inv.counts[36]), (1, 64));
    assert!(matches!(inv.creative_set(true, 36, -1, 5), CreativeAction::Stored));
    assert_eq!((inv.items[36], inv.counts[36]), (-1, 0));
    assert!(matches!(inv.creative_set(true, -999, 4, 2), CreativeAction::Drop(4, 2)));
    assert!(matches!(inv.creative_set(true, -1, 5, 3), CreativeAction::Stored));
    assert_eq!((inv.cursor_item, inv.cursor_count), (5, 3));
    assert!(matches!(inv.creative_set(true, 50, 5, 3), CreativeAction::Ignore));
}

#[test]
fn held_item_operations() {
    let mut inv = inv_with(&[(36, 260, 2), (37, 326, 1)]);
    inv.select_slot(0);
    assert_eq!(inv.consume_held(260), Some((36, 260, 1)));
    assert_eq!(inv.consume_held(260), Some((36, -1, 0)));
    assert_eq!(inv.consume_held(260), None);
    inv.select_slot(1);
    assert_eq!(inv.selected_slot, 1);
    inv.select_slot(12);
    assert_eq!(inv.selected_slot, 1);
    assert_eq!(inv.empty_bucket(326), Some((37, 325, 1)));
    assert_eq!(inv.empty_bucket(326), None);
    assert_eq!(inv.drop_held(false), Some((325, 37, 1, 0)));
    assert_eq!(inv.drop_held(true), None);
}

#[test]
fn picked_up_items_fill_hotbar_first() {
    let mut inv = inv_with(&[(20, 4, 10), (38, 4, 64)]);
    assert_eq!(inv.pickup_slot(4), Some(20));
    assert_eq!(inv.pickup_slot(5), Some(36));
    assert_eq!(inv.store_picked(20, 4, 60), Some(64));
    assert_eq!(inv.store_picked(36, 5, 3), Some(3));
    assert_eq!(inv.store_picked(36, 6, 3), None);
    assert_eq!(inv.pickup_slot(4), Some(37));
}

#[test]
fn shift_click_stays_in_its_range() {
    // From the hotbar into the main inventory: a stack of 60 there takes 4,
    // the first empty main slot takes the rest; nothing else changes.
    let mut inv = inv_with(&[(40, 4, 50), (20, 4, 60), (2, 4, 10), (37, 4, 5)]);
    let (items0, counts0) = (inv.items.clone(), inv.counts.clone());
    let total0 = total(&inv, 4);
    inv.click_window(40, 0, 1);
    assert_eq!((inv.items[20], inv.counts[20]), (4, 64));
    assert_eq!((inv.items[9], inv.counts[9]), (4, 46));
    assert_eq!(inv.items[40], -1);
    for s in 0..SLOT_COUNT {
        if s != 40 && !(9..36).contains(&s) {
            assert_eq!((inv.items[s], inv.counts[s]), (items0[s], counts0[s]));
        }
        assert!(inv.counts[s] <= 64);
    }
    assert_eq!(total(&inv, 4), total0);
}
