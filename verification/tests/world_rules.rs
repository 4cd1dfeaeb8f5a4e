use voxel_engine::block::BlockType;
use voxel_engine::world::World;

#[test]
fn set_block_outside_height_is_refused() {
    let mut world = World::new();
    assert_eq!(world.set_block((0, 32, 0), BlockType::Dirt), Err("Y coordinate out of world bounds"));
    assert_eq!(world.set_block((0, -1, 0), BlockType::Dirt), Err("Y coordinate out of world bounds"));
    assert!(world.get_chunk(0, 0).is_none(), "a refused set_block loads nothing");
}

#[test]
fn bedrock_cannot_be_dug() {
    let mut world = World::new();
    world.get_or_create_chunk(0, 0);
    assert_eq!(world.set_block((3, 0, 3), BlockType::Air), Err("Cannot replace Bedrock"));
    let b = world.get_block_at_world(3, 0, 3).unwrap();
    assert_eq!(b.block_type, BlockType::Bedrock);
}

#[test]
fn bedrock_can_be_replaced_by_another_opaque_block() {
    let mut world = World::new();
    world.get_or_create_chunk(0, 0);
    assert_eq!(world.set_block((3, 0, 3), BlockType::Dirt), Ok((0, 0)));
    assert_eq!(world.get_block_at_world(3, 0, 3).unwrap().block_type, BlockType::Dirt);
}

#[test]
fn set_block_in_unloaded_chunk_sees_open_space() {
    // Before its chunk is loaded a position counts as letting light
    // through: placing an opaque block there is a change of transparency,
    // so the bedrock underneath is protected, while "digging" it is not.
    let mut world = World::new();
    assert_eq!(world.set_block((3, 0, 3), BlockType::Dirt), Err("Cannot replace Bedrock"));
    assert_eq!(world.get_block_at_world(3, 0, 3).unwrap().block_type, BlockType::Bedrock);
    let mut other = World::new();
    assert_eq!(other.set_block((3, 0, 3), BlockType::Air), Ok((0, 0)));
    assert_eq!(other.get_block_at_world(3, 0, 3).unwrap().block_type, BlockType::Air);
}

#[test]
fn set_block_reports_chunk_of_negative_coordinates() {
    let mut world = World::new();
    assert_eq!(world.set_block((-1, 10, -17), BlockType::Grass), Ok((-1, -2)));
    assert!(world.get_chunk(-1, -2).is_some());
    assert_eq!(world.get_block_at_world(-1, 10, -17).unwrap().block_type, BlockType::Grass);
}

#[test]
fn world_to_chunk_coords_floors_and_clamps() {
    assert_eq!(World::world_to_chunk_coords(17, 5, -1), ((1, -1), (1, 5, 15)));
    assert_eq!(World::world_to_chunk_coords(-16, 40, 0), ((-1, 0), (0, 31, 0)));
    assert_eq!(World::world_to_chunk_coords(0, -3, 31), ((0, 1), (0, 0, 15)));
}

#[test]
fn get_block_at_world_clamps_height() {
    let mut world = World::new();
    world.get_or_create_chunk(0, 0);
    assert_eq!(world.get_block_at_world(1, -5, 1).unwrap().block_type, BlockType::Bedrock);
    assert!(world.get_block_at_world(16, 5, 1).is_none(), "chunk (1, 0) is not loaded");
}

#[test]
fn placed_opaque_block_is_dark_and_read_back() {
    let mut world = World::new();
    world.get_or_create_chunk(0, 0);
    world.set_block((4, 25, 4), BlockType::Dirt).unwrap();
    let b = world.get_block_at_world(4, 25, 4).unwrap();
    assert_eq!(b.block_type, BlockType::Dirt);
    assert_eq!(b.sky_light, 0);
    assert_eq!(world.get_light_level((4, 25, 4)), 0);
}

#[test]
fn dug_block_next_to_lit_air_takes_one_less() {
    let mut world = World::new();
    world.get_or_create_chunk(0, 0);
    // The grass at (0, 16, 1) has lit air above it (no tree trunk grows at
    // the chunk's edge); dig it and the block gets full light from straight
    // above.
    world.set_block((0, 16, 1), BlockType::Air).unwrap();
    assert_eq!(world.get_light_level((0, 16, 1)), 15);
    world.set_block((0, 15, 1), BlockType::Air).unwrap();
    assert_eq!(world.get_light_level((0, 15, 1)), 15);
    // Dig sideways below the surface: one level less.
    world.set_block((1, 15, 1), BlockType::Air).unwrap();
    assert_eq!(world.get_light_level((1, 15, 1)), 14);
}

#[test]
fn light_level_outside_world_is_zero() {
    let mut world = World::new();
    world.get_or_create_chunk(0, 0);
    assert_eq!(world.get_light_level((0, 40, 0)), 0);
    assert_eq!(world.get_light_level((0, -1, 0)), 0);
    assert_eq!(world.get_light_level((100, 20, 100)), 0);
}

#[test]
fn get_or_create_chunk_keeps_an_existing_chunk() {
    let mut world = World::new();
    world.set_block((2, 20, 2), BlockType::Dirt).unwrap();
    let chunk = world.get_or_create_chunk(0, 0);
    assert_eq!(chunk.coord, (0, 0));
    assert_eq!(chunk.get_block(2, 20, 2).unwrap().block_type, BlockType::Dirt);
}

#[test]
fn load_active_chunks_loads_three_by_three() {
    let mut world = World::new();
    let coords = world.load_active_chunks(5, -2);
    assert_eq!(
        coords,
        vec![(4, -3), (4, -2), (4, -1), (5, -3), (5, -2), (5, -1), (6, -3), (6, -2), (6, -1)]
    );
    for (cx, cz) in coords {
        assert_eq!(world.get_chunk(cx, cz).unwrap().coord, (cx, cz));
    }
    assert!(world.get_chunk(7, -2).is_none());
}

#[test]
fn generated_chunk_terrain_and_light() {
    let mut world = World::new();
    world.load_chunk(2, 3);
    let chunk = world.get_chunk(2, 3).unwrap();
    for x in 0..16 {
        for z in 0..16 {
            assert_eq!(chunk.get_block(x, 0, z).unwrap().block_type, BlockType::Bedrock);
            assert_eq!(chunk.get_block(x, 8, z).unwrap().block_type, BlockType::Dirt);
            assert_eq!(chunk.get_block(x, 16, z).unwrap().block_type, BlockType::Grass);
            assert_eq!(chunk.get_block(x, 16, z).unwrap().sky_light, 0);
            let top = chunk.get_block(x, 31, z).unwrap();
            assert!(top.block_type == BlockType::Air || top.block_type == BlockType::OakLeaves);
            assert_eq!(top.sky_light, 15);
        }
    }
}

#[test]
fn digging_never_darkens_other_blocks() {
    let mut world = World::new();
    world.get_or_create_chunk(0, 0);
    world.set_block((0, 16, 1), BlockType::Air).unwrap();
    world.set_block((0, 15, 1), BlockType::Air).unwrap();
    let before: Vec<u8> = (0..16)
        .flat_map(|x| (10..20).map(move |y| (x, y)))
        .map(|(x, y)| world.get_light_level((x, y, 1)))
        .collect();
    world.set_block((1, 15, 1), BlockType::Air).unwrap();
    let after: Vec<u8> = (0..16)
        .flat_map(|x| (10..20).map(move |y| (x, y)))
        .map(|(x, y)| world.get_light_level((x, y, 1)))
        .collect();
    for (i, (b, a)) in before.iter().zip(after.iter()).enumerate() {
        if i != 10 + 5 {
            assert!(a >= b);
        }
    }
}

#[test]
fn dug_block_takes_the_brightest_offer() {
    // At the top of the world nothing shines from above: a block dug there
    // takes what its neighbours pass on sideways.
    let mut world = World::new();
    world.get_or_create_chunk(0, 0);
    world.set_block((0, 31, 1), BlockType::Dirt).unwrap();
    assert_eq!(world.get_light_level((0, 31, 1)), 0);
    assert_eq!(world.get_light_level((0, 30, 1)), 14, "relit from the side");
    world.set_block((0, 31, 1), BlockType::Air).unwrap();
    assert_eq!(world.get_light_level((0, 31, 1)), 14);
}

#[test]
fn digging_in_the_dark_brightens_nothing() {
    let mut world = World::new();
    world.get_or_create_chunk(0, 0);
    let lights = |w: &World| -> Vec<u8> {
        (0..16)
            .flat_map(|x| (0..32).flat_map(move |y| (0..16).map(move |z| (x, y, z))))
            .map(|p| w.get_light_level(p))
            .collect()
    };
    let before = lights(&world);
    world.set_block((7, 10, 7), BlockType::Air).unwrap();
    assert_eq!(world.get_light_level((7, 10, 7)), 0);
    assert_eq!(lights(&world), before);
}

#[test]
fn same_transparency_change_leaves_every_other_light_alone() {
    let mut world = World::new();
    world.get_or_create_chunk(0, 0);
    let lights = |w: &World| -> Vec<u8> {
        (0..16)
            .flat_map(|x| (0..32).flat_map(move |y| (0..16).map(move |z| (x, y, z))))
            .map(|p| w.get_light_level(p))
            .collect()
    };
    let before = lights(&world);
    world.set_block((4, 16, 4), BlockType::Dirt).unwrap();
    assert_eq!(lights(&world), before);
}

#[test]
fn refused_bedrock_dig_changes_nothing() {
    let mut world = World::new();
    world.get_or_create_chunk(0, 0);
    let blocks = |w: &World| -> Vec<(BlockType, u8)> {
        (0..16)
            .flat_map(|x| (0..32).flat_map(move |y| (0..16).map(move |z| (x, y, z))))
            .map(|(x, y, z)| {
                let b = w.get_block_at_world(x, y, z).unwrap();
                (b.block_type, b.sky_light)
            })
            .collect()
    };
    let before = blocks(&world);
    assert_eq!(world.set_block((4, 0, 4), BlockType::Air), Err("Cannot replace Bedrock"));
    assert_eq!(blocks(&world), before);
}

#[test]
fn loaded_chunk_carries_its_coordinates() {
    let mut world = World::new();
    world.get_or_create_chunk(-3, 5);
    assert_eq!(world.get_chunk(-3, 5).unwrap().coord, (-3, 5));
    assert_eq!(world.get_or_create_chunk(-3, 5).coord, (-3, 5));
}
