use vstd::prelude::*;
use crate::block::BlockType;

verus! {

/// What an inventory slot can hold.
#[derive(Debug, Clone, Copy, PartialEq, Eq, Structural)]
pub enum ItemType {
    Block(BlockType),
}

/// A number of items of one type held together.
#[derive(Debug, Clone, Copy)]
pub struct ItemStack {
    pub item_type: ItemType,
    pub count: u8,
}

impl ItemStack {
    pub fn new(item_type: ItemType, count: u8) -> (s: Self)
        ensures
            s == (ItemStack { item_type, count }),
    {
        Self { item_type, count }
    }
}

} // verus!
