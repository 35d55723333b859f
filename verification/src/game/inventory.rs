//! A player's inventory (45 slots and the stack held by the cursor) and
//! the rules of the inventory window: clicks, shift-clicks, hotbar swaps,
//! drops and creative edits.

use vstd::prelude::*;

verus! {

/// Number of slots of the player inventory window.
pub const SLOT_COUNT: usize = 45;

/// Largest stack a slot holds when stacks are merged.
pub const MAX_STACK: u8 = 64;

/// A player's items: item id per slot (-1 when empty), count per slot, the
/// selected hotbar slot (0..9) and the stack held by the cursor.
pub struct Inventory {
    pub items: Vec<i16>,
    pub counts: Vec<u8>,
    pub selected_slot: usize,
    pub cursor_item: i16,
    pub cursor_count: u8,
}

/// The contents of an inventory.
#[verifier::ext_equal]
pub struct InvView {
    pub items: Seq<i16>,
    pub counts: Seq<u8>,
    pub cursor_item: i16,
    pub cursor_count: u8,
}

impl View for Inventory {
    type V = InvView;

    open spec fn view(&self) -> InvView {
        InvView {
            items: self.items@,
            counts: self.counts@,
            cursor_item: self.cursor_item,
            cursor_count: self.cursor_count,
        }
    }
}

impl InvView {
    /// 45 slots.
    pub open spec fn wf(self) -> bool {
        self.items.len() == SLOT_COUNT && self.counts.len() == SLOT_COUNT
    }

    /// Empty slots (and an empty cursor) have count 0.
    pub open spec fn normalized(self) -> bool {
        &&& forall|i: int| 0 <= i < SLOT_COUNT && self.items[i] < 0 ==> #[trigger] self.counts[i] == 0
        &&& self.cursor_item < 0 ==> self.cursor_count == 0
    }
}

/// A slot update to send to the client: slot, item id, count.
pub open spec fn slot_entry(v: InvView, s: int) -> (i16, i16, i8) {
    (s as i16, v.items[s], v.counts[s] as i8)
}

/// Smaller of two counts.
pub open spec fn min_u8(a: u8, b: u8) -> u8 {
    if a <= b {
        a
    } else {
        b
    }
}

/// Left click (button 0) or right click on slot `s`: a left click swaps
/// the slot and the cursor; a right click with an empty cursor takes the
/// larger half of the slot, with a stack puts one item in an empty slot or
/// on a matching stack under 64.
pub open spec fn slot_click(v: InvView, s: int, button: u8) -> (InvView, Seq<(i16, i16, i8)>) {
    let it = v.items[s];
    let c = v.counts[s];
    if button == 0 {
        let w = InvView {
            items: v.items.update(s, v.cursor_item),
            counts: v.counts.update(
                s,
                if v.cursor_item >= 0 {
                    v.cursor_count
                } else {
                    0
                },
            ),
            cursor_item: it,
            cursor_count: if it >= 0 {
                c
            } else {
                0
            },
        };
        (w, seq![slot_entry(w, s)])
    } else if button == 1 {
        if v.cursor_item < 0 && it >= 0 && c > 0 {
            let half = ((c + 1) / 2) as u8;
            let w = if c > half {
                InvView {
                    counts: v.counts.update(s, (c - half) as u8),
                    cursor_item: it,
                    cursor_count: half,
                    ..v
                }
            } else {
                InvView {
                    items: v.items.update(s, -1i16),
                    counts: v.counts.update(s, 0u8),
                    cursor_item: it,
                    cursor_count: half,
                }
            };
            (w, seq![slot_entry(w, s)])
        } else if v.cursor_item >= 0 && it < 0 {
            let w0 = InvView {
                items: v.items.update(s, v.cursor_item),
                counts: v.counts.update(s, 1),
                ..v
            };
            let w = if v.cursor_count > 1 {
                InvView { cursor_count: (v.cursor_count - 1) as u8, ..w0 }
            } else {
                InvView { cursor_item: -1i16, cursor_count: 0, ..w0 }
            };
            (w, seq![slot_entry(w, s)])
        } else if v.cursor_item >= 0 && v.cursor_item == it && c < 64 {
            let w0 = InvView { counts: v.counts.update(s, (c + 1) as u8), ..v };
            let w = if v.cursor_count > 1 {
                InvView { cursor_count: (v.cursor_count - 1) as u8, ..w0 }
            } else {
                InvView { cursor_item: -1i16, cursor_count: 0, ..w0 }
            };
            (w, seq![slot_entry(w, s)])
        } else {
            (v, Seq::empty())
        }
    } else {
        (v, Seq::empty())
    }
}

/// First pass of a shift-click: stacks of `item` in slots `t..hi` under 64
/// are topped up from `rem` items, in slot order.
pub open spec fn merge_pass(v: InvView, item: i16, rem: u8, t: int, hi: int) -> (InvView, u8, Seq<
    (i16, i16, i8),
>)
    decreases hi - t,
{
    if t >= hi || rem == 0 {
        (v, rem, Seq::empty())
    } else if v.items[t] == item && v.counts[t] < 64 {
        let tr = min_u8(rem, (64 - v.counts[t]) as u8);
        let w = InvView { counts: v.counts.update(t, (v.counts[t] + tr) as u8), ..v };
        let r = merge_pass(w, item, (rem - tr) as u8, t + 1, hi);
        (r.0, r.1, seq![slot_entry(w, t)] + r.2)
    } else {
        merge_pass(v, item, rem, t + 1, hi)
    }
}

/// Second pass of a shift-click: empty slots in `t..hi` receive up to 64
/// of the `rem` items left, in slot order.
pub open spec fn fill_pass(v: InvView, item: i16, rem: u8, t: int, hi: int) -> (InvView, u8, Seq<
    (i16, i16, i8),
>)
    decreases hi - t,
{
    if t >= hi || rem == 0 {
        (v, rem, Seq::empty())
    } else if v.items[t] < 0 {
        let tr = min_u8(rem, 64);
        let w = InvView { items: v.items.update(t, item), counts: v.counts.update(t, tr), ..v };
        let r = fill_pass(w, item, (rem - tr) as u8, t + 1, hi);
        (r.0, r.1, seq![slot_entry(w, t)] + r.2)
    } else {
        fill_pass(v, item, rem, t + 1, hi)
    }
}

/// Slots a shift-click on slot `s` moves to: the hotbar (36..45) moves to
/// the main inventory (9..36) and back; other slots move to both (9..45).
pub open spec fn shift_targets(s: int) -> (int, int) {
    if 36 <= s < 45 {
        (9, 36)
    } else if 9 <= s < 36 {
        (36, 45)
    } else {
        (9, 45)
    }
}

/// Shift-click on slot `s`: its stack is merged into matching stacks of
/// the target slots, then into empty ones; whatever moved leaves the slot,
/// and the cursor is emptied when anything moved.
pub open spec fn shift_click(v: InvView, s: int) -> (InvView, Seq<(i16, i16, i8)>) {
    if v.items[s] < 0 {
        (v, Seq::empty())
    } else {
        let item = v.items[s];
        let (lo, hi) = shift_targets(s);
        let m = merge_pass(v, item, v.counts[s], lo, hi);
        let f = if m.1 > 0 {
            fill_pass(m.0, item, m.1, lo, hi)
        } else {
            (m.0, m.1, Seq::empty())
        };
        let rem = f.1;
        if rem < v.counts[s] {
            let w0 = if rem == 0 {
                InvView { items: f.0.items.update(s, -1i16), counts: f.0.counts.update(s, 0u8), ..f.0 }
            } else {
                InvView { counts: f.0.counts.update(s, rem), ..f.0 }
            };
            let w = if w0.cursor_item >= 0 {
                InvView { cursor_item: -1i16, cursor_count: 0, ..w0 }
            } else {
                w0
            };
            (w, m.2 + f.2 + seq![slot_entry(w, s)])
        } else {
            (f.0, m.2 + f.2)
        }
    }
}

/// Number key `button` on slot `s`: the slot and hotbar slot 36 + button
/// exchange their stacks.
pub open spec fn hotbar_swap(v: InvView, s: int, button: u8) -> (InvView, Seq<(i16, i16, i8)>) {
    let h = 36 + button;
    let it = v.items[s];
    let c = if it >= 0 {
        v.counts[s]
    } else {
        0
    };
    let w1 = InvView {
        items: v.items.update(s, v.items[h]),
        counts: v.counts.update(
            s,
            if v.items[h] >= 0 {
                v.counts[h]
            } else {
                0
            },
        ),
        ..v
    };
    let w = InvView { items: w1.items.update(h, it), counts: w1.counts.update(h, c), ..w1 };
    (w, seq![slot_entry(w, s), slot_entry(w, h)])
}

/// Effect of a click in the inventory window: the new contents, the slot
/// updates to send, and the stack dropped into the world (item, count).
pub open spec fn click(v: InvView, slot: i16, button: u8, mode: u8) -> (InvView, Seq<
    (i16, i16, i8),
>, Option<(i16, u8)>) {
    let in_range = 0 <= slot < 45;
    let s = slot as int;
    if mode == 0 {
        if slot == -1 {
            if v.cursor_item >= 0 && v.cursor_count > 0 {
                let n = if button == 0 {
                    v.cursor_count
                } else {
                    1u8
                };
                let rem = (v.cursor_count - n) as u8;
                let w = if rem == 0 {
                    InvView { cursor_item: -1i16, cursor_count: 0, ..v }
                } else {
                    InvView { cursor_count: rem, ..v }
                };
                (w, Seq::empty(), Some((v.cursor_item, n)))
            } else {
                (v, Seq::empty(), None)
            }
        } else if in_range {
            let r = slot_click(v, s, button);
            (r.0, r.1, None)
        } else {
            (v, Seq::empty(), None)
        }
    } else if mode == 1 {
        if in_range {
            let r = shift_click(v, s);
            (r.0, r.1, None)
        } else {
            (v, Seq::empty(), None)
        }
    } else if mode == 2 {
        if in_range && button < 9 {
            let r = hotbar_swap(v, s, button);
            (r.0, r.1, None)
        } else {
            (v, Seq::empty(), None)
        }
    } else if mode == 4 {
        if in_range && v.items[s] >= 0 && v.counts[s] > 0 {
            let n = if button == 0 {
                1u8
            } else {
                v.counts[s]
            };
            let rem = (v.counts[s] - n) as u8;
            let w = if rem == 0 {
                InvView { items: v.items.update(s, -1i16), counts: v.counts.update(s, 0u8), ..v }
            } else {
                InvView { counts: v.counts.update(s, rem), ..v }
            };
            (w, seq![slot_entry(w, s)], Some((v.items[s], n)))
        } else {
            (v, Seq::empty(), None)
        }
    } else {
        if in_range {
            (v, seq![slot_entry(v, s)], None)
        } else {
            (v, Seq::empty(), None)
        }
    }
}


/// The first pass of a shift-click changes no item id and no count outside
/// the slots it walks.
pub proof fn lemma_merge_frame(v: InvView, item: i16, rem: u8, t: int, hi: int, s: int)
    requires
        v.wf(),
        0 <= t,
        hi <= SLOT_COUNT,
        0 <= s < SLOT_COUNT,
        s < t || s >= hi,
    ensures
        merge_pass(v, item, rem, t, hi).0.wf(),
        merge_pass(v, item, rem, t, hi).0.items == v.items,
        merge_pass(v, item, rem, t, hi).0.counts[s] == v.counts[s],
        merge_pass(v, item, rem, t, hi).0.cursor_item == v.cursor_item,
        merge_pass(v, item, rem, t, hi).0.cursor_count == v.cursor_count,
        merge_pass(v, item, rem, t, hi).1 <= rem,
    decreases hi - t,
{
    if t >= hi || rem == 0 {
    } else if v.items[t] == item && v.counts[t] < 64 {
        let tr = min_u8(rem, (64 - v.counts[t]) as u8);
        let w = InvView { counts: v.counts.update(t, (v.counts[t] + tr) as u8), ..v };
        lemma_merge_frame(w, item, (rem - tr) as u8, t + 1, hi, s);
    } else {
        lemma_merge_frame(v, item, rem, t + 1, hi, s);
    }
}

/// The second pass of a shift-click changes nothing outside the slots it
/// walks.
pub proof fn lemma_fill_frame(v: InvView, item: i16, rem: u8, t: int, hi: int, s: int)
    requires
        v.wf(),
        0 <= t,
        hi <= SLOT_COUNT,
        0 <= s < SLOT_COUNT,
        s < t || s >= hi,
    ensures
        fill_pass(v, item, rem, t, hi).0.wf(),
        fill_pass(v, item, rem, t, hi).0.items[s] == v.items[s],
        fill_pass(v, item, rem, t, hi).0.counts[s] == v.counts[s],
        fill_pass(v, item, rem, t, hi).0.cursor_item == v.cursor_item,
        fill_pass(v, item, rem, t, hi).0.cursor_count == v.cursor_count,
        fill_pass(v, item, rem, t, hi).1 <= rem,
    decreases hi - t,
{
    if t >= hi || rem == 0 {
    } else if v.items[t] < 0 {
        let tr = min_u8(rem, 64);
        let w = InvView { items: v.items.update(t, item), counts: v.counts.update(t, tr), ..v };
        lemma_fill_frame(w, item, (rem - tr) as u8, t + 1, hi, s);
    } else {
        lemma_fill_frame(v, item, rem, t + 1, hi, s);
    }
}

/// What a click did: the slot updates to send and the stack to drop.
pub struct ClickOutcome {
    pub changed: Vec<(i16, i16, i8)>,
    pub dropped: Option<(i16, u8)>,
}

impl Inventory {
    /// An empty inventory with the first hotbar slot selected.
    pub fn new() -> (inv: Self)
        ensures
            inv@.wf(),
            inv@.normalized(),
            forall|i: int| 0 <= i < SLOT_COUNT ==> #[trigger] inv@.items[i] == -1 && inv@.counts[i]
                == 0,
            inv.cursor_item == -1,
            inv.cursor_count == 0,
            inv.selected_slot == 0,
    {
        Inventory {
            items: vec![-1i16; SLOT_COUNT],
            counts: vec![0u8; SLOT_COUNT],
            selected_slot: 0,
            cursor_item: -1,
            cursor_count: 0,
        }
    }

    fn entry(&self, s: usize) -> (e: (i16, i16, i8))
        requires
            self@.wf(),
            s < SLOT_COUNT,
        ensures
            e == slot_entry(self@, s as int),
    {
        (s as i16, self.items[s], self.counts[s] as i8)
    }

    fn slot_click_exec(&mut self, s: usize, button: u8, changed: &mut Vec<(i16, i16, i8)>)
        requires
            old(self)@.wf(),
            s < SLOT_COUNT,
        ensures
            final(self)@.wf(),
            final(self)@ == slot_click(old(self)@, s as int, button).0,
            final(changed)@ == old(changed)@ + slot_click(old(self)@, s as int, button).1,
            final(self).selected_slot == old(self).selected_slot,
    {
        let it = self.items[s];
        let c = self.counts[s];
        if button == 0 {
            let tmp_c = if it >= 0 { c } else { 0 };
            let ci = self.cursor_item;
            self.items.set(s, ci);
            self.counts.set(s, if ci >= 0 { self.cursor_count } else { 0 });
            self.cursor_item = it;
            self.cursor_count = tmp_c;
            let e = self.entry(s);
            changed.push(e);
            assert(self@ =~= slot_click(old(self)@, s as int, button).0);
        } else if button == 1 {
            if self.cursor_item < 0 && it >= 0 && c > 0 {
                let half = c / 2 + c % 2;
                assert(half == (c + 1) / 2);
                self.cursor_item = it;
                self.cursor_count = half;
                if c > half {
                    self.counts.set(s, c - half);
                } else {
                    self.items.set(s, -1);
                    self.counts.set(s, 0);
                }
                let e = self.entry(s);
                changed.push(e);
                assert(self@ =~= slot_click(old(self)@, s as int, button).0);
            } else if self.cursor_item >= 0 && it < 0 {
                let ci = self.cursor_item;
                self.items.set(s, ci);
                self.counts.set(s, 1);
                if self.cursor_count > 1 {
                    self.cursor_count = self.cursor_count - 1;
                } else {
                    self.cursor_item = -1;
                    self.cursor_count = 0;
                }
                let e = self.entry(s);
                changed.push(e);
                assert(self@ =~= slot_click(old(self)@, s as int, button).0);
            } else if self.cursor_item >= 0 && self.cursor_item == it && c < 64 {
                self.counts.set(s, c + 1);
                if self.cursor_count > 1 {
                    self.cursor_count = self.cursor_count - 1;
                } else {
                    self.cursor_item = -1;
                    self.cursor_count = 0;
                }
                let e = self.entry(s);
                changed.push(e);
                assert(self@ =~= slot_click(old(self)@, s as int, button).0);
            } else {
                assert(changed@ =~= old(changed)@ + slot_click(old(self)@, s as int, button).1);
            }
        } else {
            assert(changed@ =~= old(changed)@ + slot_click(old(self)@, s as int, button).1);
        }
    }

    fn merge_into(&mut self, item: i16, rem: u8, lo: usize, hi: usize, changed: &mut Vec<
        (i16, i16, i8),
    >) -> (r: u8)
        requires
            old(self)@.wf(),
            lo <= hi <= SLOT_COUNT,
        ensures
            final(self)@.wf(),
            final(self)@ == merge_pass(old(self)@, item, rem, lo as int, hi as int).0,
            r == merge_pass(old(self)@, item, rem, lo as int, hi as int).1,
            final(changed)@ == old(changed)@ + merge_pass(
                old(self)@,
                item,
                rem,
                lo as int,
                hi as int,
            ).2,
            final(self).selected_slot == old(self).selected_slot,
    {
        let ghost v0 = self@;
        let ghost ch0 = changed@;
        let mut remaining = rem;
        let mut t = lo;
        while t < hi && remaining > 0
            invariant
                self@.wf(),
                lo <= t <= hi <= SLOT_COUNT,
                self.selected_slot == old(self).selected_slot,
                ({
                    let now = merge_pass(self@, item, remaining, t as int, hi as int);
                    let all = merge_pass(v0, item, rem, lo as int, hi as int);
                    now.0 == all.0 && now.1 == all.1 && changed@ + now.2 == ch0 + all.2
                }),
            decreases hi - t,
        {
            if self.items[t] == item && self.counts[t] < 64 {
                let space = 64 - self.counts[t];
                let transfer = if remaining <= space { remaining } else { space };
                let nc = self.counts[t] + transfer;
                self.counts.set(t, nc);
                remaining = remaining - transfer;
                let e = self.entry(t);
                let ghost before = changed@;
                changed.push(e);
                assert(changed@ == before + seq![e]);
                proof {
                    let w = self@;
                    let r = merge_pass(w, item, remaining, t + 1, hi as int);
                    assert(before + seq![e] + r.2 =~= before + (seq![e] + r.2));
                }
            }
            t += 1;
        }
        proof {
            let now = merge_pass(self@, item, remaining, t as int, hi as int);
            assert(now.2 =~= Seq::<(i16, i16, i8)>::empty());
            assert(changed@ + now.2 =~= changed@);
        }
        remaining
    }

    fn fill_into(&mut self, item: i16, rem: u8, lo: usize, hi: usize, changed: &mut Vec<
        (i16, i16, i8),
    >) -> (r: u8)
        requires
            old(self)@.wf(),
            lo <= hi <= SLOT_COUNT,
        ensures
            final(self)@.wf(),
            final(self)@ == fill_pass(old(self)@, item, rem, lo as int, hi as int).0,
            r == fill_pass(old(self)@, item, rem, lo as int, hi as int).1,
            final(changed)@ == old(changed)@ + fill_pass(
                old(self)@,
                item,
                rem,
                lo as int,
                hi as int,
            ).2,
            final(self).selected_slot == old(self).selected_slot,
    {
        let ghost v0 = self@;
        let ghost ch0 = changed@;
        let mut remaining = rem;
        let mut t = lo;
        while t < hi && remaining > 0
            invariant
                self@.wf(),
                lo <= t <= hi <= SLOT_COUNT,
                self.selected_slot == old(self).selected_slot,
                ({
                    let now = fill_pass(self@, item, remaining, t as int, hi as int);
                    let all = fill_pass(v0, item, rem, lo as int, hi as int);
                    now.0 == all.0 && now.1 == all.1 && changed@ + now.2 == ch0 + all.2
                }),
            decreases hi - t,
        {
            if self.items[t] < 0 {
                let transfer = if remaining <= 64 { remaining } else { 64 };
                self.items.set(t, item);
                self.counts.set(t, transfer);
                remaining = remaining - transfer;
                let e = self.entry(t);
                let ghost before = changed@;
                changed.push(e);
                proof {
                    let w = self@;
                    let r = fill_pass(w, item, remaining, t + 1, hi as int);
                    assert(before + seq![e] + r.2 =~= before + (seq![e] + r.2));
                }
            }
            t += 1;
        }
        proof {
            let now = fill_pass(self@, item, remaining, t as int, hi as int);
            assert(now.2 =~= Seq::<(i16, i16, i8)>::empty());
            assert(changed@ + now.2 =~= changed@);
        }
        remaining
    }

    fn shift_click_exec(&mut self, s: usize, changed: &mut Vec<(i16, i16, i8)>)
        requires
            old(self)@.wf(),
            s < SLOT_COUNT,
        ensures
            final(self)@.wf(),
            final(self)@ == shift_click(old(self)@, s as int).0,
            final(changed)@ == old(changed)@ + shift_click(old(self)@, s as int).1,
            final(self).selected_slot == old(self).selected_slot,
    {
        if self.items[s] < 0 {
            assert(changed@ =~= old(changed)@ + shift_click(old(self)@, s as int).1);
            return;
        }
        let item = self.items[s];
        let count = self.counts[s];
        let (lo, hi): (usize, usize) = if 36 <= s && s < 45 {
            (9, 36)
        } else if 9 <= s && s < 36 {
            (36, 45)
        } else {
            (9, 45)
        };
        let ghost v0 = self@;
        let ghost ch0 = changed@;
        let mut remaining = self.merge_into(item, count, lo, hi, changed);
        let ghost ch1 = changed@;
        if remaining > 0 {
            remaining = self.fill_into(item, remaining, lo, hi, changed);
        }
        let ghost ch2 = changed@;
        proof {
            lemma_merge_frame(v0, item, count, lo as int, hi as int, s as int);
            let m = merge_pass(v0, item, count, lo as int, hi as int);
            if m.1 > 0 {
                lemma_fill_frame(m.0, item, m.1, lo as int, hi as int, s as int);
            }
        }
        if remaining < count {
            if remaining == 0 {
                self.items.set(s, -1);
                self.counts.set(s, 0);
            } else {
                self.counts.set(s, remaining);
            }
            if self.cursor_item >= 0 {
                self.cursor_item = -1;
                self.cursor_count = 0;
            }
            let e = self.entry(s);
            changed.push(e);
            assert(self@ =~= shift_click(v0, s as int).0);
            assert(changed@ =~= ch0 + shift_click(v0, s as int).1);
        } else {
            assert(changed@ =~= ch0 + shift_click(v0, s as int).1);
        }
    }
}


impl Inventory {
    /// Applies a click of the inventory window (window 0) on `slot` with
    /// `button` in `mode` (0 click, 1 shift-click, 2 number key, 4 drop key;
    /// other modes only resend the slot). Returns the slot updates to send
    /// and the stack dropped into the world.
    pub fn click_window(&mut self, slot: i16, button: u8, mode: u8) -> (out: ClickOutcome)
        requires
            old(self)@.wf(),
        ensures
            final(self)@.wf(),
            final(self)@ == click(old(self)@, slot, button, mode).0,
            out.changed@ == click(old(self)@, slot, button, mode).1,
            out.dropped == click(old(self)@, slot, button, mode).2,
            final(self).selected_slot == old(self).selected_slot,
    {
        let mut changed: Vec<(i16, i16, i8)> = Vec::new();
        let mut dropped: Option<(i16, u8)> = None;
        let in_range = 0 <= slot && slot < 45;
        if mode == 0 {
            if slot == -1 {
                if self.cursor_item >= 0 && self.cursor_count > 0 {
                    let n = if button == 0 { self.cursor_count } else { 1 };
                    let item = self.cursor_item;
                    let rem = self.cursor_count - n;
                    if rem == 0 {
                        self.cursor_item = -1;
                        self.cursor_count = 0;
                    } else {
                        self.cursor_count = rem;
                    }
                    dropped = Some((item, n));
                }
            } else if in_range {
                self.slot_click_exec(slot as usize, button, &mut changed);
                assert(changed@ =~= click(old(self)@, slot, button, mode).1);
            }
        } else if mode == 1 {
            if in_range {
                self.shift_click_exec(slot as usize, &mut changed);
                assert(changed@ =~= click(old(self)@, slot, button, mode).1);
            }
        } else if mode == 2 {
            if in_range && button < 9 {
                let s = slot as usize;
                let h = 36 + button as usize;
                let it = self.items[s];
                let c = if it >= 0 { self.counts[s] } else { 0 };
                let hi = self.items[h];
                let hc = if hi >= 0 { self.counts[h] } else { 0 };
                self.items.set(s, hi);
                self.counts.set(s, hc);
                self.items.set(h, it);
                self.counts.set(h, c);
                let e1 = self.entry(s);
                let e2 = self.entry(h);
                changed.push(e1);
                changed.push(e2);
                assert(self@ =~= click(old(self)@, slot, button, mode).0);
                assert(changed@ =~= click(old(self)@, slot, button, mode).1);
            }
        } else if mode == 4 {
            if in_range {
                let s = slot as usize;
                if self.items[s] >= 0 && self.counts[s] > 0 {
                    let item = self.items[s];
                    let n = if button == 0 { 1 } else { self.counts[s] };
                    let rem = self.counts[s] - n;
                    if rem == 0 {
                        self.items.set(s, -1);
                        self.counts.set(s, 0);
                    } else {
                        self.counts.set(s, rem);
                    }
                    let e = self.entry(s);
                    changed.push(e);
                    dropped = Some((item, n));
                    assert(self@ =~= click(old(self)@, slot, button, mode).0);
                    assert(changed@ =~= click(old(self)@, slot, button, mode).1);
                }
            }
        } else {
            if in_range {
                let e = self.entry(slot as usize);
                changed.push(e);
                assert(changed@ =~= click(old(self)@, slot, button, mode).1);
            }
        }
        ClickOutcome { changed, dropped }
    }
}

/// What a creative-inventory action asks for.
pub enum CreativeAction {
    /// Drop a stack (item, count) at the player's feet.
    Drop(i16, u8),
    /// A slot or the cursor was set.
    Stored,
    /// Nothing happens.
    Ignore,
}

/// Effect of the creative inventory setting `slot` to `count` of
/// `item_id`: slot -999 drops the stack, a slot 0..45 or the cursor (-1)
/// is set (count 0 when the item is empty), anything else is ignored; a
/// player who is not in creative mode changes nothing.
pub open spec fn creative(v: InvView, creative_mode: bool, slot: i16, item_id: i16, count: u8) -> (
    InvView,
    CreativeAction,
) {
    let c = if item_id >= 0 {
        count
    } else {
        0u8
    };
    if !creative_mode {
        (v, CreativeAction::Ignore)
    } else if slot == -999 && item_id >= 0 {
        (v, CreativeAction::Drop(item_id, count))
    } else if 0 <= slot < 45 {
        (
            InvView {
                items: v.items.update(slot as int, item_id),
                counts: v.counts.update(slot as int, c),
                ..v
            },
            CreativeAction::Stored,
        )
    } else if slot == -1 {
        (InvView { cursor_item: item_id, cursor_count: c, ..v }, CreativeAction::Stored)
    } else {
        (v, CreativeAction::Ignore)
    }
}

impl Inventory {
    /// Applies a creative-inventory action (see `creative`).
    pub fn creative_set(&mut self, creative_mode: bool, slot: i16, item_id: i16, count: u8) -> (a:
        CreativeAction)
        requires
            old(self)@.wf(),
        ensures
            final(self)@.wf(),
            final(self)@ == creative(old(self)@, creative_mode, slot, item_id, count).0,
            a == creative(old(self)@, creative_mode, slot, item_id, count).1,
            final(self).selected_slot == old(self).selected_slot,
    {
        let c = if item_id >= 0 { count } else { 0 };
        if !creative_mode {
            CreativeAction::Ignore
        } else if slot == -999 && item_id >= 0 {
            CreativeAction::Drop(item_id, count)
        } else if 0 <= slot && slot < 45 {
            self.items.set(slot as usize, item_id);
            self.counts.set(slot as usize, c);
            assert(self@ =~= creative(old(self)@, creative_mode, slot, item_id, count).0);
            CreativeAction::Stored
        } else if slot == -1 {
            self.cursor_item = item_id;
            self.cursor_count = c;
            CreativeAction::Stored
        } else {
            CreativeAction::Ignore
        }
    }
}


/// Search order of picked-up items: the hotbar (36..45), then the main
/// inventory (9..36).
pub open spec fn pickup_order(k: int) -> int {
    if k < 9 {
        36 + k
    } else {
        k
    }
}

/// First slot, in pickup order from position `k`, holding `item_id` with
/// fewer than 64 items.
pub open spec fn first_stack_from(v: InvView, item_id: i16, k: int) -> Option<int>
    decreases 36 - k,
{
    if k >= 36 || k < 0 {
        None
    } else if v.items[pickup_order(k)] == item_id && v.counts[pickup_order(k)] < 64 {
        Some(pickup_order(k))
    } else {
        first_stack_from(v, item_id, k + 1)
    }
}

/// First empty slot, in pickup order from position `k`.
pub open spec fn first_empty_from(v: InvView, k: int) -> Option<int>
    decreases 36 - k,
{
    if k >= 36 || k < 0 {
        None
    } else if v.items[pickup_order(k)] < 0 {
        Some(pickup_order(k))
    } else {
        first_empty_from(v, k + 1)
    }
}

/// Slot receiving a picked-up `item_id`: the first stack of it under 64,
/// else the first empty slot.
pub open spec fn pickup_target(v: InvView, item_id: i16) -> Option<int> {
    match first_stack_from(v, item_id, 0) {
        Some(s) => Some(s),
        None => first_empty_from(v, 0),
    }
}

impl Inventory {
    /// Selects hotbar slot `slot` when it is in 0..9.
    pub fn select_slot(&mut self, slot: i16)
        ensures
            final(self)@ == old(self)@,
            final(self).selected_slot == if 0 <= slot < 9 {
                slot as usize
            } else {
                old(self).selected_slot
            },
    {
        if 0 <= slot && slot < 9 {
            self.selected_slot = slot as usize;
        }
    }

    /// Drops the held stack (`whole`) or one item of it: returns the item,
    /// its slot, the number dropped and the number left, or nothing when
    /// the hand is empty. A held item with count 0 counts as one.
    pub fn drop_held(&mut self, whole: bool) -> (r: Option<(i16, usize, u8, u8)>)
        requires
            old(self)@.wf(),
            old(self).selected_slot < 9,
        ensures
            final(self)@.wf(),
            final(self).selected_slot == old(self).selected_slot,
            ({
                let h = 36 + old(self).selected_slot;
                let v = old(self)@;
                let item = v.items[h];
                let cur: u8 = if v.counts[h] == 0 && item >= 0 {
                    1
                } else {
                    v.counts[h]
                };
                if item >= 0 {
                    let n: u8 = if whole {
                        cur
                    } else {
                        1
                    };
                    let rem = (cur - n) as u8;
                    &&& r == Some((item, h as usize, n, rem))
                    &&& final(self)@ == if rem == 0 {
                        InvView { items: v.items.update(h, -1i16), counts: v.counts.update(h, 0u8), ..v }
                    } else {
                        InvView { counts: v.counts.update(h, rem), ..v }
                    }
                } else {
                    r is None && final(self)@ == v
                }
            }),
    {
        let h = 36 + self.selected_slot;
        let item = self.items[h];
        let current = if self.counts[h] == 0 && item >= 0 { 1 } else { self.counts[h] };
        if item >= 0 && current > 0 {
            let n = if whole { current } else { 1 };
            let rem = current - n;
            if rem == 0 {
                self.items.set(h, -1);
                self.counts.set(h, 0);
            } else {
                self.counts.set(h, rem);
            }
            Some((item, h, n, rem))
        } else {
            None
        }
    }

    /// Uses up one `item_id` from the held slot (a placed block, an eaten
    /// food): returns the slot update, or nothing when the hand does not
    /// hold that item.
    pub fn consume_held(&mut self, item_id: i16) -> (r: Option<(i16, i16, i8)>)
        requires
            old(self)@.wf(),
            old(self).selected_slot < 9,
        ensures
            final(self)@.wf(),
            final(self).selected_slot == old(self).selected_slot,
            ({
                let h = 36 + old(self).selected_slot;
                let v = old(self)@;
                if v.items[h] == item_id && v.counts[h] > 0 {
                    let c = (v.counts[h] - 1) as u8;
                    let w = if c == 0 {
                        InvView { items: v.items.update(h, -1i16), counts: v.counts.update(h, c), ..v }
                    } else {
                        InvView { counts: v.counts.update(h, c), ..v }
                    };
                    final(self)@ == w && r == Some(slot_entry(w, h))
                } else {
                    final(self)@ == v && r is None
                }
            }),
    {
        let h = 36 + self.selected_slot;
        if self.items[h] == item_id && self.counts[h] > 0 {
            let c = self.counts[h] - 1;
            self.counts.set(h, c);
            if c == 0 {
                self.items.set(h, -1);
            }
            let e = self.entry(h);
            assert(self@ =~= (if c == 0 {
                InvView { items: old(self)@.items.update(h as int, -1i16), counts: old(self)@.counts.update(h as int, c), ..old(self)@ }
            } else {
                InvView { counts: old(self)@.counts.update(h as int, c), ..old(self)@ }
            }));
            Some(e)
        } else {
            None
        }
    }

    /// Empties a bucket of `item_id` held in hand (it becomes one empty
    /// bucket, id 325): returns the slot update, or nothing when the hand
    /// does not hold that item.
    pub fn empty_bucket(&mut self, item_id: i16) -> (r: Option<(i16, i16, i8)>)
        requires
            old(self)@.wf(),
            old(self).selected_slot < 9,
        ensures
            final(self)@.wf(),
            final(self).selected_slot == old(self).selected_slot,
            ({
                let h = 36 + old(self).selected_slot;
                let v = old(self)@;
                if v.items[h] == item_id {
                    final(self)@ == InvView {
                        items: v.items.update(h, 325i16),
                        counts: v.counts.update(h, 1u8),
                        ..v
                    } && r == Some((h as i16, 325i16, 1i8))
                } else {
                    final(self)@ == v && r is None
                }
            }),
    {
        let h = 36 + self.selected_slot;
        if self.items[h] == item_id {
            self.items.set(h, 325);
            self.counts.set(h, 1);
            Some((h as i16, 325, 1))
        } else {
            None
        }
    }

    /// Slot that receives a picked-up `item_id`: the first stack of it under
    /// 64 (hotbar first), else the first empty slot.
    pub fn pickup_slot(&self, item_id: i16) -> (r: Option<usize>)
        requires
            self@.wf(),
        ensures
            match r {
                Some(s) => pickup_target(self@, item_id) == Some(s as int),
                None => pickup_target(self@, item_id) is None,
            },
    {
        let mut k: usize = 0;
        while k < 36
            invariant
                self@.wf(),
                k <= 36,
                first_stack_from(self@, item_id, 0) == first_stack_from(self@, item_id, k as int),
            decreases 36 - k,
        {
            let s = if k < 9 { 36 + k } else { k };
            if self.items[s] == item_id && self.counts[s] < 64 {
                return Some(s);
            }
            k += 1;
        }
        let mut k: usize = 0;
        while k < 36
            invariant
                self@.wf(),
                k <= 36,
                first_stack_from(self@, item_id, 0) is None,
                first_empty_from(self@, 0) == first_empty_from(self@, k as int),
            decreases 36 - k,
        {
            let s = if k < 9 { 36 + k } else { k };
            if self.items[s] < 0 {
                return Some(s);
            }
            k += 1;
        }
        None
    }

    /// Stores `count` picked-up items of `item_id` in `slot` when it is
    /// empty or holds that item (the stack is capped at 64): returns the new
    /// count, or nothing when the slot holds another item.
    pub fn store_picked(&mut self, slot: usize, item_id: i16, count: u8) -> (r: Option<u8>)
        requires
            old(self)@.wf(),
            slot < SLOT_COUNT,
        ensures
            final(self)@.wf(),
            final(self).selected_slot == old(self).selected_slot,
            ({
                let v = old(self)@;
                let sum = v.counts[slot as int] + count;
                let n: u8 = if sum > 64 {
                    64
                } else {
                    sum as u8
                };
                if v.items[slot as int] < 0 || v.items[slot as int] == item_id {
                    r == Some(n) && final(self)@ == InvView {
                        items: v.items.update(slot as int, item_id),
                        counts: v.counts.update(slot as int, n),
                        ..v
                    }
                } else {
                    r is None && final(self)@ == v
                }
            }),
    {
        if self.items[slot] < 0 {
            self.items.set(slot, item_id);
        }
        if self.items[slot] == item_id {
            let sum = self.counts[slot].saturating_add(count);
            let n = if sum > 64 { 64 } else { sum };
            self.counts.set(slot, n);
            proof {
                let v = old(self)@;
                assert(self@.items =~= v.items.update(slot as int, item_id));
            }
            Some(n)
        } else {
            None
        }
    }
}


/// Two left clicks on the same slot give back the inventory they started
/// from (slot and cursor exchange their stacks, twice), for an inventory
/// whose empty slots have count 0.
pub proof fn left_click_twice_restores(v: InvView, slot: i16)
    requires
        v.wf(),
        v.normalized(),
        0 <= slot < 45,
    ensures
        click(click(v, slot, 0, 0).0, slot, 0, 0).0 == v,
{
    let s = slot as int;
    let w = click(v, slot, 0, 0).0;
    let u = click(w, slot, 0, 0).0;
    assert(u.items =~= v.items);
    assert(u.counts =~= v.counts);
}

/// Pressing the same number key twice on a slot gives back the inventory
/// it started from, for an inventory whose empty slots have count 0.
pub proof fn hotbar_swap_twice_restores(v: InvView, slot: i16, button: u8)
    requires
        v.wf(),
        v.normalized(),
        0 <= slot < 45,
        button < 9,
    ensures
        click(click(v, slot, button, 2).0, slot, button, 2).0 == v,
{
    let s = slot as int;
    let h = 36 + button;
    let w = click(v, slot, button, 2).0;
    let u = click(w, slot, button, 2).0;
    assert(u.items =~= v.items);
    assert(u.counts =~= v.counts);
}


/// Items `x` counted by one slot holding `count` items `it`.
pub open spec fn held(it: i16, count: u8, x: i16) -> int {
    if it == x {
        count as int
    } else {
        0
    }
}

/// Items `x` held in the first `n` slots.
pub open spec fn slots_total(items: Seq<i16>, counts: Seq<u8>, x: i16, n: int) -> int
    decreases n,
{
    if n <= 0 {
        0
    } else {
        slots_total(items, counts, x, n - 1) + held(items[n - 1], counts[n - 1], x)
    }
}

/// Items `x` in the inventory, the cursor's stack included.
pub open spec fn item_total(v: InvView, x: i16) -> int {
    slots_total(v.items, v.counts, x, SLOT_COUNT as int) + held(v.cursor_item, v.cursor_count, x)
}

/// Items `x` in a dropped stack.
pub open spec fn dropped_total(d: Option<(i16, u8)>, x: i16) -> int {
    match d {
        Some((it, n)) => held(it, n, x),
        None => 0,
    }
}

proof fn lemma_slots_total_update(
    i1: Seq<i16>,
    c1: Seq<u8>,
    i2: Seq<i16>,
    c2: Seq<u8>,
    x: i16,
    n: int,
    k: int,
)
    requires
        0 <= n <= i1.len(),
        n <= c1.len(),
        n <= i2.len(),
        n <= c2.len(),
        forall|j: int| 0 <= j < n && j != k ==> #[trigger] i2[j] == i1[j] && c2[j] == c1[j],
    ensures
        0 <= k < n ==> slots_total(i2, c2, x, n) == slots_total(i1, c1, x, n) - held(i1[k], c1[k], x)
            + held(i2[k], c2[k], x),
        !(0 <= k < n) ==> slots_total(i2, c2, x, n) == slots_total(i1, c1, x, n),
    decreases n,
{
    if n > 0 {
        lemma_slots_total_update(i1, c1, i2, c2, x, n - 1, k);
    }
}

proof fn lemma_update_total(v: InvView, w: InvView, k: int, x: i16)
    requires
        v.wf(),
        w.wf(),
        0 <= k < SLOT_COUNT,
        forall|j: int| 0 <= j < SLOT_COUNT && j != k ==> #[trigger] w.items[j] == v.items[j],
        forall|j: int| 0 <= j < SLOT_COUNT && j != k ==> #[trigger] w.counts[j] == v.counts[j],
    ensures
        slots_total(w.items, w.counts, x, SLOT_COUNT as int) == slots_total(v.items, v.counts, x, SLOT_COUNT as int)
            - held(v.items[k], v.counts[k], x) + held(w.items[k], w.counts[k], x),
{
    assert forall|j: int| 0 <= j < SLOT_COUNT as int && j != k implies #[trigger] w.items[j] == v.items[j]
        && w.counts[j] == v.counts[j] by {
        assert(w.counts[j] == v.counts[j]);
    }
    lemma_slots_total_update(v.items, v.counts, w.items, w.counts, x, SLOT_COUNT as int, k);
}

proof fn lemma_merge_total(v: InvView, item: i16, rem: u8, t: int, hi: int, x: i16)
    requires
        v.wf(),
        0 <= t,
        hi <= SLOT_COUNT,
    ensures
        item_total(merge_pass(v, item, rem, t, hi).0, x) == item_total(v, x) + if x == item {
            rem - merge_pass(v, item, rem, t, hi).1
        } else {
            0
        },
    decreases hi - t,
{
    if t >= hi || rem == 0 {
    } else if v.items[t] == item && v.counts[t] < 64 {
        let tr = min_u8(rem, (64 - v.counts[t]) as u8);
        let w = InvView { counts: v.counts.update(t, (v.counts[t] + tr) as u8), ..v };
        lemma_update_total(v, w, t, x);
        lemma_merge_total(w, item, (rem - tr) as u8, t + 1, hi, x);
    } else {
        lemma_merge_total(v, item, rem, t + 1, hi, x);
    }
}

proof fn lemma_fill_total(v: InvView, item: i16, rem: u8, t: int, hi: int, x: i16)
    requires
        v.wf(),
        0 <= t,
        hi <= SLOT_COUNT,
        x >= 0,
    ensures
        item_total(fill_pass(v, item, rem, t, hi).0, x) == item_total(v, x) + if x == item {
            rem - fill_pass(v, item, rem, t, hi).1
        } else {
            0
        },
    decreases hi - t,
{
    if t >= hi || rem == 0 {
    } else if v.items[t] < 0 {
        let tr = min_u8(rem, 64);
        let w = InvView { items: v.items.update(t, item), counts: v.counts.update(t, tr), ..v };
        lemma_update_total(v, w, t, x);
        lemma_fill_total(w, item, (rem - tr) as u8, t + 1, hi, x);
    } else {
        lemma_fill_total(v, item, rem, t + 1, hi, x);
    }
}

/// The passes of a shift-click keep every stack at 64 items or fewer.
proof fn lemma_merge_cap(v: InvView, item: i16, rem: u8, t: int, hi: int)
    requires
        v.wf(),
        0 <= t,
        hi <= SLOT_COUNT,
        forall|i: int| 0 <= i < SLOT_COUNT ==> #[trigger] v.counts[i] <= 64,
    ensures
        forall|i: int| 0 <= i < SLOT_COUNT ==> #[trigger] merge_pass(v, item, rem, t, hi).0.counts[i] <= 64,
        merge_pass(v, item, rem, t, hi).0.wf(),
    decreases hi - t,
{
    if t >= hi || rem == 0 {
    } else if v.items[t] == item && v.counts[t] < 64 {
        let tr = min_u8(rem, (64 - v.counts[t]) as u8);
        let w = InvView { counts: v.counts.update(t, (v.counts[t] + tr) as u8), ..v };
        lemma_merge_cap(w, item, (rem - tr) as u8, t + 1, hi);
    } else {
        lemma_merge_cap(v, item, rem, t + 1, hi);
    }
}

proof fn lemma_fill_cap(v: InvView, item: i16, rem: u8, t: int, hi: int)
    requires
        v.wf(),
        0 <= t,
        hi <= SLOT_COUNT,
        forall|i: int| 0 <= i < SLOT_COUNT ==> #[trigger] v.counts[i] <= 64,
    ensures
        forall|i: int| 0 <= i < SLOT_COUNT ==> #[trigger] fill_pass(v, item, rem, t, hi).0.counts[i] <= 64,
        fill_pass(v, item, rem, t, hi).0.wf(),
    decreases hi - t,
{
    if t >= hi || rem == 0 {
    } else if v.items[t] < 0 {
        let tr = min_u8(rem, 64);
        let w = InvView { items: v.items.update(t, item), counts: v.counts.update(t, tr), ..v };
        lemma_fill_cap(w, item, (rem - tr) as u8, t + 1, hi);
    } else {
        lemma_fill_cap(v, item, rem, t + 1, hi);
    }
}

/// A shift-click on slot `s` changes only `s` and the slots of its target
/// range (9..36 from the hotbar, 36..45 from the main inventory, 9..45
/// otherwise), and keeps every stack at 64 items or fewer.
pub proof fn shift_click_stays_in_range(v: InvView, slot: i16, button: u8)
    requires
        v.wf(),
        0 <= slot < 45,
        forall|i: int| 0 <= i < SLOT_COUNT ==> #[trigger] v.counts[i] <= 64,
    ensures
        ({
            let w = click(v, slot, button, 1).0;
            let (lo, hi) = shift_targets(slot as int);
            &&& w.wf()
            &&& forall|i: int|
                0 <= i < SLOT_COUNT && i != slot && !(lo <= i < hi) ==> #[trigger] w.items[i] == v.items[i] && w.counts[i]
                    == v.counts[i]
            &&& forall|i: int| 0 <= i < SLOT_COUNT ==> #[trigger] w.counts[i] <= 64
        }),
{
    let s = slot as int;
    let w = click(v, slot, button, 1).0;
    let (lo, hi) = shift_targets(s);
    if v.items[s] >= 0 {
        let item = v.items[s];
        let m = merge_pass(v, item, v.counts[s], lo, hi);
        lemma_merge_cap(v, item, v.counts[s], lo, hi);
        lemma_merge_frame(v, item, v.counts[s], lo, hi, s);
        assert forall|i: int| 0 <= i < SLOT_COUNT && !(lo <= i < hi) implies #[trigger] m.0.counts[i] == v.counts[i] by {
            lemma_merge_frame(v, item, v.counts[s], lo, hi, i);
        }
        let f = if m.1 > 0 {
            fill_pass(m.0, item, m.1, lo, hi)
        } else {
            (m.0, m.1, Seq::empty())
        };
        if m.1 > 0 {
            lemma_fill_cap(m.0, item, m.1, lo, hi);
            lemma_fill_frame(m.0, item, m.1, lo, hi, s);
            assert forall|i: int| 0 <= i < SLOT_COUNT && !(lo <= i < hi) implies #[trigger] f.0.counts[i] == m.0.counts[i]
                && f.0.items[i] == m.0.items[i] by {
                lemma_fill_frame(m.0, item, m.1, lo, hi, i);
            }
        }
        assert(f.1 <= v.counts[s]);
        assert forall|i: int|
            0 <= i < SLOT_COUNT && i != s && !(lo <= i < hi) implies #[trigger] w.items[i] == v.items[i] && w.counts[i]
                == v.counts[i] by {
            lemma_merge_frame(v, item, v.counts[s], lo, hi, i);
            if m.1 > 0 {
                lemma_fill_frame(m.0, item, m.1, lo, hi, i);
            }
            assert(f.0.items[i] == v.items[i] && f.0.counts[i] == v.counts[i]);
        }
    }
}

/// A click moves items without making or destroying any: for every item id,
/// what the slots and the cursor hold afterwards plus what was dropped equals
/// what they held before. The cursor's stack must not be empty-counted, and a
/// shift-click made while the cursor holds a stack is left out (it empties
/// the cursor).
pub proof fn click_conserves_items(v: InvView, slot: i16, button: u8, mode: u8, x: i16)
    requires
        v.wf(),
        x >= 0,
        v.cursor_item >= 0 ==> v.cursor_count > 0,
        mode == 1 ==> v.cursor_item < 0,
    ensures
        item_total(click(v, slot, button, mode).0, x) + dropped_total(click(v, slot, button, mode).2, x)
            == item_total(v, x),
{
    let s = slot as int;
    let r = click(v, slot, button, mode);
    let w = r.0;
    if mode == 0 {
        if slot == -1 {
        } else if 0 <= slot < 45 {
            lemma_update_total(v, w, s, x);
        }
    } else if mode == 1 {
        if 0 <= slot < 45 && v.items[s] >= 0 {
            let item = v.items[s];
            let (lo, hi) = shift_targets(s);
            let m = merge_pass(v, item, v.counts[s], lo, hi);
            lemma_merge_total(v, item, v.counts[s], lo, hi, x);
            lemma_merge_frame(v, item, v.counts[s], lo, hi, s);
            if m.1 > 0 {
                lemma_fill_total(m.0, item, m.1, lo, hi, x);
                lemma_fill_frame(m.0, item, m.1, lo, hi, s);
            }
            let f = if m.1 > 0 {
                fill_pass(m.0, item, m.1, lo, hi)
            } else {
                (m.0, m.1, Seq::empty())
            };
            if f.1 < v.counts[s] {
                lemma_update_total(f.0, w, s, x);
            }
        }
    } else if mode == 2 {
        if 0 <= slot < 45 && button < 9 {
            let h = 36 + button;
            let w1 = InvView {
                items: v.items.update(s, v.items[h]),
                counts: v.counts.update(s, if v.items[h] >= 0 { v.counts[h] } else { 0 }),
                ..v
            };
            lemma_update_total(v, w1, s, x);
            lemma_update_total(w1, w, h, x);
        }
    } else if mode == 4 {
        if 0 <= slot < 45 && v.items[s] >= 0 && v.counts[s] > 0 {
            lemma_update_total(v, w, s, x);
        }
    }
}

} // verus!
