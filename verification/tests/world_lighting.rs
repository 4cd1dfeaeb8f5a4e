use voxel_engine::block::BlockType;
use voxel_engine::world::World;

/// A world with chunk (0, 0) generated, in which no tree trunk stands near
/// the columns the tests dig: the tests describe flat terrain, and trees
/// grow at random, so a generation with a trunk there is drawn again.
fn world_with_flat_chunk() -> World {
    loop {
        let mut world = World::new();
        world.get_or_create_chunk(0, 0);
        let chunk = world.get_chunk(0, 0).unwrap();
        let trunk_nearby = (3..10).any(|x| {
            (3..12).any(|z| chunk.get_block(x, 17, z).unwrap().block_type == BlockType::OakLog)
        });
        if !trunk_nearby {
            return world;
        }
    }
}

#[test]
fn test_sky_light_update_on_dig() {
    // 1. SETUP: Create a world and generate a chunk.
    // This generates a chunk at (0,0) with standard terrain and runs the initial
    // sky light calculation. The surface level will be at Y=16.
    let mut world = world_with_flat_chunk();

    let grass_block_pos = (5, 16, 5);
    let block_underneath_pos = (5, 15, 5);

    // 2. ASSERT INITIAL STATE
    let grass_block = world
        .get_block_at_world(grass_block_pos.0, grass_block_pos.1, grass_block_pos.2)
        .expect("Grass block should exist.");
    assert_eq!(grass_block.block_type, BlockType::Grass);
    assert_eq!(grass_block.sky_light, 0, "Surface block should have full sky light.");

    let block_underneath = world
        .get_block_at_world(block_underneath_pos.0, block_underneath_pos.1, block_underneath_pos.2)
        .expect("Block underneath should exist.");
    assert_eq!(block_underneath.sky_light, 0, "Block underneath should initially be dark.");

    // 3. ACTION: Dig the grass block, replacing it with Air.
    world
        .set_block(grass_block_pos, BlockType::Air)
        .expect("Setting block should succeed.");
    world
        .set_block(block_underneath_pos, BlockType::Air)
        .expect("Setting block should succeed.");

    // 4. ASSERT FINAL STATE
    let air_block = world
        .get_block_at_world(block_underneath_pos.0, block_underneath_pos.1, block_underneath_pos.2)
        .expect("Dirt block should exist.");
    assert_eq!(air_block.sky_light, 15, "Newly exposed block should now have full sky light.");
}

#[test]
fn test_sky_light_spreads_horizontally_into_tunnel() {
    let mut world = world_with_flat_chunk();

    let surface_block_pos = (8, 16, 8);
    let under_surface_pos = (8, 15, 8);
    let tunnel_end_pos = (8, 15, 9);

    let tunnel_block_initial = world
        .get_block_at_world(tunnel_end_pos.0, tunnel_end_pos.1, tunnel_end_pos.2)
        .expect("Block should exist.");
    assert_eq!(tunnel_block_initial.sky_light, 0, "Tunnel block should initially be dark.");

    world
        .set_block(surface_block_pos, BlockType::Air)
        .expect("Digging surface block should succeed.");
    world
        .set_block(under_surface_pos, BlockType::Air)
        .expect("Digging block underneath should succeed.");

    let under_surface_air = world
        .get_block_at_world(under_surface_pos.0, under_surface_pos.1, under_surface_pos.2)
        .expect("Block should exist.");
    assert_eq!(under_surface_air.sky_light, 15, "Tunnel block should initially be dark.");

    world
        .set_block(tunnel_end_pos, BlockType::Air)
        .expect("Digging block should succeed.");

    let tunnel_block_final = world
        .get_block_at_world(tunnel_end_pos.0, tunnel_end_pos.1, tunnel_end_pos.2)
        .expect("Final tunnel block should exist.");
    assert_eq!(
        tunnel_block_final.sky_light, 14,
        "Light should spread one block into the tunnel, decreasing to 14."
    );
}

#[test]
fn test_light_in_horizontal_tunnel_from_shaft() {
    // aaaa (y=17, sky)
    // gagg (y=16, surface)
    // dahd (y=15, player head level)
    // dmfd (y=14, player foot level)
    // dddd (y=13, floor)
    let mut world = world_with_flat_chunk();

    let f_pos = (5, 14, 6);
    let m_pos = (5, 14, 5);
    let h_pos = (5, 15, 6);

    world.set_block((5, 16, 5), BlockType::Air).unwrap();
    world.set_block((5, 15, 5), BlockType::Air).unwrap();
    world.set_block(m_pos, BlockType::Air).unwrap();

    world.set_block(h_pos, BlockType::Air).unwrap();
    world.set_block(f_pos, BlockType::Air).unwrap();

    let block_at_m = world
        .get_block_at_world(m_pos.0, m_pos.1, m_pos.2)
        .expect("Block 'm' should exist.");
    assert_eq!(block_at_m.sky_light, 15, "Block 'm' in the open shaft should have full sky light.");

    let block_at_f = world
        .get_block_at_world(f_pos.0, f_pos.1, f_pos.2)
        .expect("Block 'f' should exist.");
    assert_eq!(
        block_at_f.sky_light, 14,
        "Block 'f' one block into the tunnel should have light level 14."
    );
}

#[test]
fn test_placing_one_block_roof_casts_shadow() {
    let mut world = world_with_flat_chunk();

    let roof_pos = (6, 19, 5);
    let head_pos = (6, 18, 5);
    let feet_pos = (6, 17, 5);

    assert_eq!(world.get_light_level(head_pos), 15, "Head position should initially be fully lit");
    assert_eq!(world.get_light_level(feet_pos), 15, "Feet position should initially be fully lit");

    world.set_block(roof_pos, BlockType::Dirt).unwrap();

    assert_eq!(world.get_light_level(head_pos), 14, "Head position should be lit from the side (14)");
    assert_eq!(world.get_light_level(feet_pos), 14, "Feet position should also be lit from the side (14)");
}

#[test]
fn digging_into_a_dark_tunnel_lights_it_from_the_shaft() {
    let mut world = world_with_flat_chunk();
    // A dark pocket dug first stays dark.
    world.set_block((5, 14, 6), BlockType::Air).unwrap();
    assert_eq!(world.get_light_level((5, 14, 6)), 0);
    // A shaft from the surface, then the block that joins it to the pocket.
    world.set_block((5, 16, 5), BlockType::Air).unwrap();
    world.set_block((5, 15, 5), BlockType::Air).unwrap();
    world.set_block((5, 14, 5), BlockType::Air).unwrap();
    assert_eq!(world.get_light_level((5, 14, 5)), 15);
    assert_eq!(world.get_light_level((5, 14, 6)), 14, "the dug block's light flows on");
}

#[test]
fn a_high_roof_shades_the_whole_column_below_it() {
    let mut world = world_with_flat_chunk();
    world.set_block((6, 20, 5), BlockType::Dirt).unwrap();
    assert_eq!(world.get_light_level((6, 20, 5)), 0);
    for y in 17..20 {
        assert_eq!(world.get_light_level((6, y, 5)), 14, "relit from the side at y = {}", y);
    }
    assert_eq!(world.get_light_level((6, 21, 5)), 15, "above the roof the sky still shines");
}

#[test]
fn a_roof_keeps_the_light_that_did_not_pass_through_it() {
    let mut world = world_with_flat_chunk();
    let all: Vec<(i32, i32, i32)> = (0..16)
        .flat_map(|x| (0..32).flat_map(move |y| (0..16).map(move |z| (x, y, z))))
        .collect();
    let before: Vec<u8> = all.iter().map(|&p| world.get_light_level(p)).collect();
    world.set_block((6, 19, 5), BlockType::Dirt).unwrap();
    for (p, b) in all.iter().zip(before.iter()) {
        let below_roof = p.0 == 6 && p.2 == 5 && p.1 < 19;
        if *p != (6, 19, 5) && *b == 15 && !below_roof {
            assert!(world.get_light_level(*p) >= 15, "light at {:?} was kept", p);
        }
    }
}

#[test]
fn closing_a_shaft_darkens_the_tunnel_behind_it() {
    let mut world = world_with_flat_chunk();
    world.set_block((5, 16, 5), BlockType::Air).unwrap();
    world.set_block((5, 15, 5), BlockType::Air).unwrap();
    world.set_block((5, 15, 6), BlockType::Air).unwrap();
    world.set_block((5, 15, 7), BlockType::Air).unwrap();
    assert_eq!(world.get_light_level((5, 15, 5)), 15);
    assert_eq!(world.get_light_level((5, 15, 6)), 14);
    assert_eq!(world.get_light_level((5, 15, 7)), 13);
    world.set_block((5, 16, 5), BlockType::Dirt).unwrap();
    assert_eq!(world.get_light_level((5, 15, 5)), 0);
    assert_eq!(world.get_light_level((5, 15, 6)), 0);
    assert_eq!(world.get_light_level((5, 15, 7)), 0);
}
