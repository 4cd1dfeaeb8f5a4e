//! A voxel world: blocks, chunks, sky lighting, and the game rules that sit
//! on top of them (inventory slots, input edge detection, face culling).

pub mod block;
pub mod randomness;
pub mod chunk;
pub mod world;
pub mod mesh;
pub mod selection;
pub mod item;
pub mod inventory;
pub mod input;
pub mod texture;
pub mod player;
pub mod events;
