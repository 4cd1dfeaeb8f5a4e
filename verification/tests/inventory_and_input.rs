use voxel_engine::block::BlockType;
use voxel_engine::input::{InputState, MouseButton};
use voxel_engine::inventory::Inventory;
use voxel_engine::item::{ItemStack, ItemType};

fn dirt(n: u8) -> Option<ItemStack> {
    Some(ItemStack::new(ItemType::Block(BlockType::Dirt), n))
}

fn grass(n: u8) -> Option<ItemStack> {
    Some(ItemStack::new(ItemType::Block(BlockType::Grass), n))
}

fn count(o: Option<ItemStack>) -> Option<(ItemType, u8)> {
    o.map(|s| (s.item_type, s.count))
}

#[test]
fn item_stack_new() {
    let s = ItemStack::new(ItemType::Block(BlockType::OakLog), 12);
    assert_eq!(s.item_type, ItemType::Block(BlockType::OakLog));
    assert_eq!(s.count, 12);
}

#[test]
fn new_inventory_is_empty() {
    let inv = Inventory::new();
    assert_eq!(inv.items.len(), 36);
    assert!(inv.items.iter().all(|s| s.is_none()));
    assert!(inv.drag_item.is_none());
}

#[test]
fn left_click_picks_up_and_puts_down() {
    let mut inv = Inventory::new();
    inv.items[3] = dirt(10);
    inv.handle_mouse_click(Some(3), true, false);
    assert!(inv.items[3].is_none());
    assert_eq!(count(inv.drag_item), count(dirt(10)));
    inv.handle_mouse_click(Some(7), true, false);
    assert_eq!(count(inv.items[7]), count(dirt(10)));
    assert!(inv.drag_item.is_none());
}

#[test]
fn left_click_merges_up_to_a_full_stack() {
    let mut inv = Inventory::new();
    inv.items[0] = dirt(50);
    inv.drag_item = dirt(30);
    inv.handle_mouse_click(Some(0), true, false);
    assert_eq!(count(inv.items[0]), count(dirt(64)));
    assert_eq!(count(inv.drag_item), count(dirt(16)));
    inv.items[1] = dirt(10);
    inv.handle_mouse_click(Some(1), true, false);
    assert_eq!(count(inv.items[1]), count(dirt(26)));
    assert!(inv.drag_item.is_none());
}

#[test]
fn left_click_swaps_different_items() {
    let mut inv = Inventory::new();
    inv.items[5] = dirt(4);
    inv.drag_item = grass(9);
    inv.handle_mouse_click(Some(5), true, false);
    assert_eq!(count(inv.items[5]), count(grass(9)));
    assert_eq!(count(inv.drag_item), count(dirt(4)));
}

#[test]
fn right_click_splits_and_drops_one() {
    let mut inv = Inventory::new();
    inv.items[2] = dirt(7);
    inv.handle_mouse_click(Some(2), false, true);
    assert_eq!(count(inv.items[2]), count(dirt(3)));
    assert_eq!(count(inv.drag_item), count(dirt(4)));
    inv.handle_mouse_click(Some(9), false, true);
    assert_eq!(count(inv.items[9]), count(dirt(1)));
    assert_eq!(count(inv.drag_item), count(dirt(3)));
    inv.handle_mouse_click(Some(2), false, true);
    assert_eq!(count(inv.items[2]), count(dirt(4)));
    assert_eq!(count(inv.drag_item), count(dirt(2)));
    inv.handle_mouse_click(Some(2), false, true);
    inv.handle_mouse_click(Some(2), false, true);
    assert_eq!(count(inv.items[2]), count(dirt(6)));
    assert!(inv.drag_item.is_none());
}

#[test]
fn right_click_leaves_full_or_other_stacks() {
    let mut inv = Inventory::new();
    inv.items[0] = dirt(64);
    inv.items[1] = grass(3);
    inv.items[2] = dirt(1);
    inv.drag_item = dirt(5);
    inv.handle_mouse_click(Some(0), false, true);
    inv.handle_mouse_click(Some(1), false, true);
    assert_eq!(count(inv.items[0]), count(dirt(64)));
    assert_eq!(count(inv.items[1]), count(grass(3)));
    assert_eq!(count(inv.drag_item), count(dirt(5)));
    inv.drag_item = None;
    inv.handle_mouse_click(Some(2), false, true);
    assert_eq!(count(inv.items[2]), count(dirt(1)), "a single item is not split");
    assert!(inv.drag_item.is_none());
}

#[test]
fn clicks_keep_the_number_of_items() {
    let mut inv = Inventory::new();
    inv.items[0] = dirt(40);
    inv.items[1] = dirt(40);
    inv.items[2] = grass(5);
    let total = |inv: &Inventory| -> u32 {
        inv.items.iter().chain(std::iter::once(&inv.drag_item)).map(|s| s.map_or(0, |s| s.count as u32)).sum()
    };
    let before = total(&inv);
    for (slot, left) in [(0, true), (1, true), (2, false), (2, true), (3, false), (0, false), (1, true)] {
        inv.handle_mouse_click(Some(slot), left, !left);
        assert_eq!(total(&inv), before);
    }
    inv.handle_mouse_click(None, true, false);
    assert_eq!(total(&inv), before);
}

#[test]
fn mouse_button_edges() {
    let mut input = InputState::new();
    input.on_mouse_button(MouseButton::Left, true, false);
    assert!(input.left_mouse_pressed_this_frame);
    assert!(input.left_mouse_is_down);
    input.clear_frame_state();
    assert!(!input.left_mouse_pressed_this_frame);
    assert!(input.left_mouse_is_down);
    // A repeated press while held is not a new press.
    input.on_mouse_button(MouseButton::Left, true, false);
    assert!(!input.left_mouse_pressed_this_frame);
    input.on_mouse_button(MouseButton::Left, false, false);
    assert!(input.left_mouse_released_this_frame);
    assert!(!input.left_mouse_is_down);
    // Releasing a button that is up is no release.
    input.on_mouse_button(MouseButton::Right, false, false);
    assert!(!input.right_mouse_released_this_frame);
    input.on_mouse_button(MouseButton::Other, true, false);
    assert!(!input.right_mouse_pressed_this_frame);
}

#[test]
fn key_edges() {
    let mut input = InputState::new();
    input.on_keyboard_input(17, true);
    assert!(input.keys_pressed_this_frame.contains(&17));
    assert!(input.keys_held.contains(&17));
    input.clear_frame_state();
    assert!(input.keys_pressed_this_frame.is_empty());
    input.on_keyboard_input(17, true);
    assert!(!input.keys_pressed_this_frame.contains(&17), "key repeat is not a new press");
    input.on_keyboard_input(17, false);
    assert!(!input.keys_held.contains(&17));
}

#[test]
fn can_click_refuses_byte_overflow() {
    let mut inv = Inventory::new();
    inv.items[0] = dirt(200);
    inv.drag_item = dirt(100);
    assert!(!inv.can_click(0, true, false));
    assert!(inv.can_click(0, false, true));
    inv.drag_item = grass(100);
    assert!(inv.can_click(0, true, false), "different items swap");
    inv.items[1] = dirt(255);
    inv.drag_item = None;
    assert!(!inv.can_click(1, false, true), "a full byte cannot be halved");
    assert!(inv.can_click(2, true, true));
}
