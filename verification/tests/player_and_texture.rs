use voxel_engine::block::BlockType;
use voxel_engine::player::{GameKey, PlayerMovementIntention};
use voxel_engine::texture::placeholder_rgba;
use voxel_engine::world::World;

#[test]
fn movement_keys_set_intentions() {
    let mut m = PlayerMovementIntention::new();
    assert_eq!(m.apply_key(GameKey::Forward, true), (true, false));
    assert!(m.forward);
    assert_eq!(m.apply_key(GameKey::Jump, true), (true, false));
    assert!(m.jump);
    assert_eq!(m.apply_key(GameKey::Forward, false), (true, false));
    assert!(!m.forward);
    assert_eq!(m.apply_key(GameKey::ToggleDebug, true), (true, true));
    assert_eq!(m.apply_key(GameKey::ToggleDebug, false), (true, false));
    assert_eq!(m.apply_key(GameKey::Shift, true), (false, false));
    assert_eq!(m.apply_key(GameKey::Other, true), (false, false));
    assert!(m.jump && !m.left && !m.right && !m.backward);
}

#[test]
fn solid_blocks_near_the_player() {
    let mut world = World::new();
    world.get_or_create_chunk(0, 0);
    let blocks = world.solid_blocks_in((0, 15, 0), (2, 18, 1));
    // Dirt at y = 15 and grass at y = 16 are solid, the air above is not;
    // trees do not grow at the chunk's edge.
    assert_eq!(blocks, vec![(0, 15, 0), (0, 16, 0), (1, 15, 0), (1, 16, 0)]);
    assert!(world.solid_blocks_in((0, 40, 0), (3, 45, 3)).is_empty());
    assert!(world.solid_blocks_in((20, 0, 0), (22, 5, 2)).is_empty(), "unloaded chunk");
    world.set_block((1, 17, 0), BlockType::Dirt).unwrap();
    assert_eq!(world.solid_blocks_in((1, 17, 0), (2, 18, 1)), vec![(1, 17, 0)]);
}

#[test]
fn placeholder_texture_is_a_checkerboard() {
    let rgba = placeholder_rgba();
    assert_eq!(rgba.len(), 16 * 16 * 4);
    assert_eq!(&rgba[0..4], &[255, 0, 255, 255]);
    let at = |x: usize, y: usize| &rgba[(y * 16 + x) * 4..(y * 16 + x) * 4 + 4];
    assert_eq!(at(4, 0), &[0, 0, 0, 255]);
    assert_eq!(at(4, 4), &[255, 0, 255, 255]);
    assert_eq!(at(15, 3), &[0, 0, 0, 255]);
    assert_eq!(at(3, 3), &[255, 0, 255, 255]);
    assert_eq!(at(15, 15), &[255, 0, 255, 255]);
}
