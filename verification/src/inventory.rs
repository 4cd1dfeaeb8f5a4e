use vstd::prelude::*;
use crate::item::{ItemStack, ItemType};

verus! {

/// Slots per row of the inventory grid.
pub const GRID_COLS: usize = 9;
/// Rows of the inventory grid; the last one is the hotbar.
pub const GRID_ROWS: usize = 4;
/// Number of inventory slots.
pub const NUM_SLOTS: usize = 36;
/// The most items a stack holds after merging or adding one.
pub const MAX_STACK: u8 = 64;

/// The inventory's slots and the stack held under the cursor while dragging.
pub struct Inventory {
    pub items: Vec<Option<ItemStack>>,
    pub drag_item: Option<ItemStack>,
}

/// Releasing the left button over a slot that holds `s` while dragging `d`:
/// stacks of one type merge into the slot (at most a full stack stays there,
/// the rest stays under the cursor), stacks of two types swap, a stack is
/// picked up from the slot or put down into an empty one.  The result is
/// the new slot and the new dragged stack.
pub open spec fn left_click(s: Option<ItemStack>, d: Option<ItemStack>) -> (Option<ItemStack>, Option<ItemStack>) {
    match s {
        Some(si) => match d {
            Some(di) => if si.item_type == di.item_type {
                let total = si.count + di.count;
                (
                    Some(ItemStack { count: if total < MAX_STACK { total as u8 } else { MAX_STACK }, ..si }),
                    if total > MAX_STACK {
                        Some(ItemStack { count: (total - MAX_STACK) as u8, ..di })
                    } else {
                        None
                    },
                )
            } else {
                (Some(di), Some(si))
            },
            None => (None, Some(si)),
        },
        None => (d, None),
    }
}

/// The dragged stack after one item has left it.
pub open spec fn one_less(di: ItemStack) -> Option<ItemStack> {
    if di.count == 1 {
        None
    } else {
        Some(ItemStack { count: (di.count - 1) as u8, ..di })
    }
}

/// Releasing the right button over a slot that holds `s` while dragging `d`:
/// one dragged item goes into the slot (an empty one, or a stack of the
/// same type that is not full); with nothing dragged, the larger half of a
/// stack of two or more is picked up.  The result is the new slot and the
/// new dragged stack.
pub open spec fn right_click(s: Option<ItemStack>, d: Option<ItemStack>) -> (Option<ItemStack>, Option<ItemStack>) {
    match d {
        Some(di) => match s {
            Some(si) => if si.item_type == di.item_type && si.count < MAX_STACK {
                (Some(ItemStack { count: (si.count + 1) as u8, ..si }), one_less(di))
            } else {
                (s, d)
            },
            None => (Some(ItemStack { item_type: di.item_type, count: 1 }), one_less(di)),
        },
        None => match s {
            Some(si) => if si.count > 1 {
                let half = (si.count + 1) / 2;
                let rest = si.count - half;
                (
                    if rest == 0 {
                        None
                    } else {
                        Some(ItemStack { count: rest as u8, ..si })
                    },
                    Some(ItemStack { item_type: si.item_type, count: half as u8 }),
                )
            } else {
                (s, None)
            },
            None => (None, None),
        },
    }
}

/// The click can be handled without a count leaving the range of a byte:
/// merged counts fit, a dragged stack that gives an item has one, and a
/// stack that is halved holds fewer than 255.
pub open spec fn click_safe(s: Option<ItemStack>, d: Option<ItemStack>, left: bool, right: bool) -> bool {
    if left {
        match (s, d) {
            (Some(si), Some(di)) => si.item_type != di.item_type || si.count + di.count <= 255,
            _ => true,
        }
    } else if right {
        match d {
            Some(di) => match s {
                Some(si) => !(si.item_type == di.item_type && si.count < MAX_STACK) || di.count >= 1,
                None => di.count >= 1,
            },
            None => match s {
                Some(si) => si.count < 255,
                None => true,
            },
        }
    } else {
        true
    }
}

/// What a click on slot `slot` does: `(items, drag)` becomes
/// `(items2, drag2)`.  The left button wins when both were released.
pub open spec fn clicked(
    items: Seq<Option<ItemStack>>,
    drag: Option<ItemStack>,
    slot: Option<usize>,
    left: bool,
    right: bool,
    items2: Seq<Option<ItemStack>>,
    drag2: Option<ItemStack>,
) -> bool {
    match slot {
        Some(i) => if left {
            let r = left_click(items[i as int], drag);
            items2 == items.update(i as int, r.0) && drag2 == r.1
        } else if right {
            let r = right_click(items[i as int], drag);
            items2 == items.update(i as int, r.0) && drag2 == r.1
        } else {
            items2 == items && drag2 == drag
        },
        None => items2 == items && drag2 == drag,
    }
}

/// How many items of type `t` a slot (or the cursor) holds.
pub open spec fn count_of(o: Option<ItemStack>, t: ItemType) -> int {
    match o {
        Some(s) => if s.item_type == t {
            s.count as int
        } else {
            0
        },
        None => 0,
    }
}

/// How many items of type `t` the slots hold together.
pub open spec fn slots_count(s: Seq<Option<ItemStack>>, t: ItemType) -> int
    decreases s.len(),
{
    if s.len() == 0 {
        0
    } else {
        slots_count(s.drop_last(), t) + count_of(s.last(), t)
    }
}

/// A stack that is neither empty nor over full.
pub open spec fn stack_ok(o: Option<ItemStack>) -> bool {
    o matches Some(s) ==> 1 <= s.count <= MAX_STACK
}

impl Inventory {
    /// The inventory has its full number of slots.
    pub open spec fn wf(&self) -> bool {
        self.items@.len() == NUM_SLOTS
    }

    /// How many items of type `t` the inventory holds, the dragged stack
    /// included.
    pub open spec fn total(&self, t: ItemType) -> int {
        slots_count(self.items@, t) + count_of(self.drag_item, t)
    }

    /// Every stack in the slots and under the cursor holds between one and a
    /// full stack of items.
    pub open spec fn stacks_ok(&self) -> bool {
        &&& forall|i: int| 0 <= i < self.items@.len() ==> stack_ok(#[trigger] self.items@[i])
        &&& stack_ok(self.drag_item)
    }

    /// An empty inventory with nothing dragged.
    pub fn new() -> (inv: Self)
        ensures
            inv.wf(),
            forall|i: int| 0 <= i < NUM_SLOTS ==> #[trigger] inv.items@[i] is None,
            inv.drag_item is None,
    {
        let mut items: Vec<Option<ItemStack>> = Vec::new();
        let mut k: usize = 0;
        while k < NUM_SLOTS
            invariant
                k <= NUM_SLOTS,
                items@.len() == k,
                forall|i: int| 0 <= i < k ==> #[trigger] items@[i] is None,
            decreases NUM_SLOTS - k,
        {
            items.push(None);
            k = k + 1;
        }
        Inventory { items, drag_item: None }
    }

    /// Whether a click on slot `i` can be handled without a count leaving
    /// the range of a byte (see `click_safe`).
    pub fn can_click(&self, i: usize, left_released: bool, right_released: bool) -> (r: bool)
        requires
            self.wf(),
            i < NUM_SLOTS,
        ensures
            r == click_safe(self.items@[i as int], self.drag_item, left_released, right_released),
    {
        let s = self.items[i];
        let d = self.drag_item;
        if left_released {
            match (s, d) {
                (Some(si), Some(di)) => si.item_type != di.item_type || si.count as u16 + di.count as u16 <= 255,
                _ => true,
            }
        } else if right_released {
            match d {
                Some(di) => match s {
                    Some(si) => !(si.item_type == di.item_type && si.count < MAX_STACK) || di.count >= 1,
                    None => di.count >= 1,
                },
                None => match s {
                    Some(si) => si.count < 255,
                    None => true,
                },
            }
        } else {
            true
        }
    }

    /// Handles a mouse button released over slot `slot` (`None` when the
    /// cursor is over no slot): the left button merges, swaps, picks up or
    /// puts down stacks; the right button moves one item into the slot or
    /// picks up half of its stack.
    pub fn handle_mouse_click(&mut self, slot: Option<usize>, left_released: bool, right_released: bool)
        requires
            old(self).wf(),
            slot matches Some(i) ==> i < NUM_SLOTS && click_safe(
                old(self).items@[i as int],
                old(self).drag_item,
                left_released,
                right_released,
            ),
        ensures
            final(self).wf(),
            clicked(
                old(self).items@,
                old(self).drag_item,
                slot,
                left_released,
                right_released,
                final(self).items@,
                final(self).drag_item,
            ),
            slot is Some && !left_released && right_released && old(self).drag_item is None && (old(
                self,
            ).items@[slot->0 as int] matches Some(s) && s.count >= 2) ==> {
                let i = slot->0;
                let s = old(self).items@[i as int]->0;
                &&& final(self).drag_item matches Some(d) && d.item_type == s.item_type
                &&& final(self).items@[i as int] matches Some(k) && k.item_type == s.item_type
                &&& final(self).drag_item->0.count + final(self).items@[i as int]->0.count == s.count
                &&& 0 <= final(self).drag_item->0.count - final(self).items@[i as int]->0.count <= 1
            },
    {
        let i = match slot {
            Some(i) => i,
            None => {
                return;
            },
        };
        if left_released {
            let slot_item = self.items[i];
            let drag_item = self.drag_item;
            let mut new_slot = None;
            let mut new_drag = None;
            match slot_item {
                Some(s_item) => match drag_item {
                    Some(d_item) => {
                        if s_item.item_type == d_item.item_type {
                            let total = s_item.count + d_item.count;
                            let kept = if total < MAX_STACK {
                                total
                            } else {
                                MAX_STACK
                            };
                            let left_over = total.saturating_sub(MAX_STACK);
                            new_slot = Some(ItemStack { count: kept, ..s_item });
                            if left_over > 0 {
                                new_drag = Some(ItemStack { count: left_over, ..d_item });
                            }
                        } else {
                            new_slot = Some(d_item);
                            new_drag = Some(s_item);
                        }
                    },
                    None => {
                        new_drag = Some(s_item);
                    },
                },
                None => {
                    new_slot = drag_item;
                },
            }
            self.items.set(i, new_slot);
            self.drag_item = new_drag;
        } else if right_released {
            let slot_item = self.items[i];
            match self.drag_item {
                Some(d_item) => match slot_item {
                    Some(s_item) => {
                        if s_item.item_type == d_item.item_type {
                            if s_item.count < MAX_STACK {
                                self.items.set(i, Some(ItemStack { count: s_item.count + 1, ..s_item }));
                                let rest = d_item.count - 1;
                                self.drag_item = if rest == 0 {
                                    None
                                } else {
                                    Some(ItemStack { count: rest, ..d_item })
                                };
                            }
                        }
                    },
                    None => {
                        self.items.set(i, Some(ItemStack::new(d_item.item_type, 1)));
                        let rest = d_item.count - 1;
                        self.drag_item = if rest == 0 {
                            None
                        } else {
                            Some(ItemStack { count: rest, ..d_item })
                        };
                    },
                },
                None => match slot_item {
                    Some(s_item) => {
                        if s_item.count > 1 {
                            let half = (s_item.count + 1) / 2;
                            let new_stack = ItemStack::new(s_item.item_type, half);
                            let rest = s_item.count - half;
                            if rest == 0 {
                                self.items.set(i, None);
                            } else {
                                self.items.set(i, Some(ItemStack { count: rest, ..s_item }));
                            }
                            self.drag_item = Some(new_stack);
                        }
                    },
                    None => {},
                },
            }
        }
        proof {
            let s0 = old(self).items@[i as int];
            let d0 = old(self).drag_item;
            let r = if left_released {
                left_click(s0, d0)
            } else if right_released {
                right_click(s0, d0)
            } else {
                (s0, d0)
            };
            assert(self.items@ =~= old(self).items@.update(i as int, r.0));
            assert(self.drag_item == r.1);
        }
    }
}

pub proof fn lemma_slots_count_update(s: Seq<Option<ItemStack>>, i: int, v: Option<ItemStack>, t: ItemType)
    requires
        0 <= i < s.len(),
    ensures
        slots_count(s.update(i, v), t) == slots_count(s, t) - count_of(s[i], t) + count_of(v, t),
    decreases s.len(),
{
    let s2 = s.update(i, v);
    if i == s.len() - 1 {
        assert(s2.drop_last() =~= s.drop_last());
    } else {
        lemma_slots_count_update(s.drop_last(), i, v, t);
        assert(s2.drop_last() =~= s.drop_last().update(i, v));
    }
}

/// One click neither creates nor destroys items: the slot and the cursor
/// together hold as many items of each type as before.
pub proof fn lemma_click_conserves(s: Option<ItemStack>, d: Option<ItemStack>, left: bool, right: bool, t: ItemType)
    requires
        click_safe(s, d, left, right),
    ensures
        left ==> count_of(left_click(s, d).0, t) + count_of(left_click(s, d).1, t) == count_of(s, t) + count_of(d, t),
        !left && right ==> count_of(right_click(s, d).0, t) + count_of(right_click(s, d).1, t) == count_of(s, t)
            + count_of(d, t),
{
}

/// A right click with nothing dragged on a stack of two or more picks up
/// the larger half: the cursor and the slot then hold stacks of the same
/// type whose counts add up to the old one and differ by at most one, the
/// cursor's being the larger.
pub proof fn law_right_click_takes_larger_half(si: ItemStack)
    requires
        si.count >= 2,
    ensures
        right_click(Some(si), None).0 matches Some(k) && k.item_type == si.item_type,
        right_click(Some(si), None).1 matches Some(d) && d.item_type == si.item_type,
        right_click(Some(si), None).0->0.count + right_click(Some(si), None).1->0.count == si.count,
        0 <= right_click(Some(si), None).1->0.count - right_click(Some(si), None).0->0.count <= 1,
{
}

/// A right click while dragging puts exactly one dragged item into an empty
/// slot or onto a same-type stack that is not full; otherwise it changes
/// nothing.
pub proof fn law_right_click_drops_one(s: Option<ItemStack>, di: ItemStack)
    requires
        di.count >= 1,
    ensures
        ({
            let r = right_click(s, Some(di));
            let takes = match s {
                Some(si) => si.item_type == di.item_type && si.count < MAX_STACK,
                None => true,
            };
            &&& takes ==> count_of(r.0, di.item_type) == count_of(s, di.item_type) + 1 && count_of(
                r.1,
                di.item_type,
            ) == di.count - 1
            &&& takes ==> (r.0 matches Some(k) && k.item_type == di.item_type)
            &&& !takes ==> r == (s, Some(di))
        }),
{
}

/// A left click with a stack on the cursor over a stack of the same type
/// fills the slot up to a full stack and keeps the rest on the cursor; over
/// a stack of another type the two swap; over an empty slot the dragged
/// stack goes down; with nothing dragged the slot's stack is picked up.
pub proof fn law_left_click_merges_or_swaps(s: Option<ItemStack>, d: Option<ItemStack>)
    requires
        click_safe(s, d, true, false),
    ensures
        ({
            let r = left_click(s, d);
            match (s, d) {
                (Some(si), Some(di)) => if si.item_type == di.item_type {
                    &&& r.0 matches Some(k) && k.item_type == si.item_type
                    &&& r.0->0.count == if si.count + di.count < MAX_STACK {
                        si.count + di.count
                    } else {
                        MAX_STACK as int
                    }
                    &&& count_of(r.1, si.item_type) == si.count + di.count - r.0->0.count
                    &&& r.1 matches Some(e) ==> e.item_type == si.item_type
                } else {
                    r == (d, s)
                },
                (Some(si), None) => r == (None::<ItemStack>, s),
                (None, _) => r == (d, None::<ItemStack>),
            }
        }),
{
}

/// A click on an inventory slot neither creates nor destroys items: for
/// every item type, the slots and the dragged stack together hold as many
/// items as before.
pub proof fn law_click_keeps_items(
    inv: Inventory,
    inv2: Inventory,
    slot: Option<usize>,
    left: bool,
    right: bool,
    t: ItemType,
)
    requires
        inv.wf(),
        slot matches Some(i) ==> i < NUM_SLOTS && click_safe(inv.items@[i as int], inv.drag_item, left, right),
        clicked(inv.items@, inv.drag_item, slot, left, right, inv2.items@, inv2.drag_item),
    ensures
        inv2.total(t) == inv.total(t),
{
    if let Some(i) = slot {
        let s0 = inv.items@[i as int];
        lemma_click_conserves(s0, inv.drag_item, left, right, t);
        if left {
            lemma_slots_count_update(inv.items@, i as int, left_click(s0, inv.drag_item).0, t);
        } else if right {
            lemma_slots_count_update(inv.items@, i as int, right_click(s0, inv.drag_item).0, t);
        }
    }
}

/// An inventory whose stacks all hold between one and a full stack of
/// items can be clicked anywhere, and stays so.
pub proof fn law_click_keeps_stacks_ok(
    inv: Inventory,
    inv2: Inventory,
    slot: Option<usize>,
    left: bool,
    right: bool,
)
    requires
        inv.wf(),
        inv.stacks_ok(),
        slot matches Some(i) ==> i < NUM_SLOTS,
        clicked(inv.items@, inv.drag_item, slot, left, right, inv2.items@, inv2.drag_item),
    ensures
        slot matches Some(i) ==> click_safe(inv.items@[i as int], inv.drag_item, left, right),
        inv2.wf(),
        inv2.stacks_ok(),
{
    if let Some(i) = slot {
        assert(stack_ok(inv.items@[i as int]));
        assert forall|j: int| 0 <= j < inv2.items@.len() implies stack_ok(#[trigger] inv2.items@[j]) by {
            if j != i {
                assert(stack_ok(inv.items@[j]));
            }
        }
    }
}

} // verus!
