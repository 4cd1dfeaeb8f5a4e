use voxel_engine::block::{Block, BlockType};
use voxel_engine::chunk::Chunk;

#[test]
fn new_chunk_is_air_and_dark() {
    let chunk = Chunk::new(3, -4);
    assert_eq!(chunk.coord, (3, -4));
    let b = chunk.get_block(15, 31, 15).unwrap();
    assert_eq!(b.block_type, BlockType::Air);
    assert_eq!(b.sky_light, 0);
    assert!(chunk.get_block(16, 0, 0).is_none());
    assert!(chunk.get_block(0, 32, 0).is_none());
    assert!(chunk.get_block(0, 0, 16).is_none());
}

#[test]
fn chunk_set_block_reads_back_fresh_block() {
    let mut chunk = Chunk::new(0, 0);
    chunk.set_block_light(1, 2, 3, 9);
    assert_eq!(chunk.get_block(1, 2, 3).unwrap().sky_light, 9);
    assert_eq!(chunk.set_block(1, 2, 3, BlockType::Grass), Ok(()));
    let b = chunk.get_block(1, 2, 3).unwrap();
    assert_eq!(b.block_type, BlockType::Grass);
    assert_eq!(b.tree_id, None);
    assert_eq!(b.sky_light, 0);
    assert_eq!(chunk.get_block(1, 2, 4).unwrap().block_type, BlockType::Air);
    assert_eq!(chunk.set_block(1, 32, 3, BlockType::Grass), Err("Coordinates out of chunk bounds"));
}

#[test]
fn chunk_set_block_with_tree_id() {
    let mut chunk = Chunk::new(0, 0);
    assert_eq!(chunk.set_block_with_tree_id(4, 20, 4, BlockType::OakLeaves, 7), Ok(()));
    let b = chunk.get_block(4, 20, 4).unwrap();
    assert_eq!(b.block_type, BlockType::OakLeaves);
    assert_eq!(b.tree_id, Some(7));
    assert!(chunk.set_block_with_tree_id(16, 20, 4, BlockType::OakLeaves, 7).is_err());
}

#[test]
fn sky_light_of_open_chunk_is_full() {
    let mut chunk = Chunk::new(0, 0);
    chunk.calculate_sky_light();
    for y in 0..32 {
        assert_eq!(chunk.get_block(7, y, 7).unwrap().sky_light, 15);
    }
}

#[test]
fn sky_light_under_a_single_block() {
    let mut chunk = Chunk::new(0, 0);
    chunk.set_block(3, 10, 3, BlockType::Dirt).unwrap();
    chunk.calculate_sky_light();
    assert_eq!(chunk.get_block(3, 10, 3).unwrap().sky_light, 0, "opaque blocks stay dark");
    assert_eq!(chunk.get_block(3, 9, 3).unwrap().sky_light, 14, "lit from the side");
    assert_eq!(chunk.get_block(3, 11, 3).unwrap().sky_light, 15);
    assert_eq!(chunk.get_block(2, 9, 3).unwrap().sky_light, 15);
}

#[test]
fn sky_light_in_a_covered_pit() {
    // A roof over a one-block-wide shaft two blocks deep: light enters from
    // the open side and fades one level per step.
    let mut chunk = Chunk::new(0, 0);
    for x in 0..16 {
        for z in 0..16 {
            for y in 0..20 {
                chunk.set_block(x, y, z, BlockType::Dirt).unwrap();
            }
        }
    }
    chunk.set_block(5, 19, 5, BlockType::Air).unwrap();
    chunk.set_block(5, 18, 5, BlockType::Air).unwrap();
    chunk.set_block(6, 18, 5, BlockType::Air).unwrap();
    chunk.calculate_sky_light();
    assert_eq!(chunk.get_block(5, 19, 5).unwrap().sky_light, 15);
    assert_eq!(chunk.get_block(5, 18, 5).unwrap().sky_light, 15);
    assert_eq!(chunk.get_block(6, 18, 5).unwrap().sky_light, 14);
    assert_eq!(chunk.get_block(6, 19, 5).unwrap().sky_light, 0);
}

#[test]
fn generate_terrain_layers() {
    let mut chunk = Chunk::new(0, 0);
    chunk.generate_terrain();
    for x in 0..16 {
        for z in 0..16 {
            assert_eq!(chunk.get_block(x, 0, z).unwrap().block_type, BlockType::Bedrock);
            for y in 1..16 {
                assert_eq!(chunk.get_block(x, y, z).unwrap().block_type, BlockType::Dirt);
            }
            assert_eq!(chunk.get_block(x, 16, z).unwrap().block_type, BlockType::Grass);
            for y in 17..32 {
                let t = chunk.get_block(x, y, z).unwrap().block_type;
                assert!(t == BlockType::Air || t == BlockType::OakLog || t == BlockType::OakLeaves);
            }
        }
    }
}

#[test]
fn trees_have_trunks_below_leaves() {
    // Over many chunks some trees grow; every log stands on grass or on
    // another log, and every leaf block names a tree.
    for i in 0..40 {
        let mut chunk = Chunk::new(i, 0);
        chunk.generate_terrain();
        for x in 0..16 {
            for z in 0..16 {
                for y in 17..32 {
                    let b = chunk.get_block(x, y, z).unwrap();
                    if b.block_type == BlockType::OakLog {
                        let below = chunk.get_block(x, y - 1, z).unwrap().block_type;
                        assert!(below == BlockType::Grass || below == BlockType::OakLog);
                    }
                    if b.block_type == BlockType::OakLeaves {
                        assert!(b.tree_id.is_some());
                    }
                }
            }
        }
    }
}

#[test]
fn block_kinds() {
    let air = Block::new(BlockType::Air);
    assert!(!air.is_solid());
    assert!(air.is_transparent());
    let leaves = Block::new_with_tree_id(BlockType::OakLeaves, 3);
    assert_eq!(leaves.tree_id, Some(3));
    assert!(!leaves.is_solid());
    assert!(leaves.is_transparent());
    for t in [BlockType::Dirt, BlockType::Grass, BlockType::Bedrock, BlockType::OakLog] {
        let b = Block::new(t);
        assert!(b.is_solid());
        assert!(!b.is_transparent());
        assert_eq!(b.sky_light, 0);
        assert_eq!(b.block_light, 0);
    }
}

#[test]
fn texture_atlas_cells() {
    assert_eq!(
        Block::new(BlockType::Grass).get_texture_atlas_indices(),
        [[1, 0], [1, 0], [1, 0], [1, 0], [0, 0], [2, 0]]
    );
    assert_eq!(
        Block::new(BlockType::OakLog).get_texture_atlas_indices(),
        [[4, 0], [4, 0], [4, 0], [4, 0], [5, 0], [5, 0]]
    );
    assert_eq!(Block::new(BlockType::Dirt).get_texture_atlas_indices()[3], [2, 0]);
}

#[test]
fn grow_tree_places_trunk_and_drawn_leaves() {
    let mut chunk = Chunk::new(0, 0);
    let draws = vec![true; 100];
    chunk.grow_tree(8, 17, 8, 7, 4, &draws);
    for y in 17..21 {
        assert_eq!(chunk.get_block(8, y, 8).unwrap().block_type, BlockType::OakLog);
        assert_eq!(chunk.get_block(8, y, 8).unwrap().tree_id, None);
    }
    let leaf = chunk.get_block(8, 21, 8).unwrap();
    assert_eq!(leaf.block_type, BlockType::OakLeaves);
    assert_eq!(leaf.tree_id, Some(7));
    assert_eq!(chunk.get_block(10, 20, 8).unwrap().block_type, BlockType::OakLeaves);
    assert_eq!(chunk.get_block(9, 19, 8).unwrap().block_type, BlockType::OakLeaves);
    assert_eq!(chunk.get_block(9, 22, 8).unwrap().block_type, BlockType::OakLeaves);
    // Outside the layer's radius nothing grows.
    assert_eq!(chunk.get_block(10, 20, 10).unwrap().block_type, BlockType::Air);
    assert_eq!(chunk.get_block(10, 22, 8).unwrap().block_type, BlockType::Air);
    assert_eq!(chunk.get_block(8, 18, 9).unwrap().block_type, BlockType::Air);
}

#[test]
fn grow_tree_without_leaf_draws_is_a_bare_trunk() {
    let mut chunk = Chunk::new(0, 0);
    let draws = vec![false; 100];
    chunk.grow_tree(3, 17, 4, 2, 5, &draws);
    for y in 17..22 {
        assert_eq!(chunk.get_block(3, y, 4).unwrap().block_type, BlockType::OakLog);
    }
    let leaves = (0..16)
        .flat_map(|x| (0..32).flat_map(move |y| (0..16).map(move |z| (x, y, z))))
        .filter(|&(x, y, z)| chunk.get_block(x, y, z).unwrap().block_type == BlockType::OakLeaves)
        .count();
    assert_eq!(leaves, 0);
}

#[test]
fn grow_tree_too_close_to_the_top_changes_nothing() {
    let mut chunk = Chunk::new(0, 0);
    let draws = vec![true; 100];
    chunk.grow_tree(8, 25, 8, 1, 4, &draws);
    for y in 0..32 {
        assert_eq!(chunk.get_block(8, y, 8).unwrap().block_type, BlockType::Air);
    }
}

#[test]
fn tree_sites_and_tree_numbers() {
    let mut chunk = Chunk::new(0, 0);
    assert!(!chunk.tree_site(5, 5), "air is no site");
    chunk.set_block(5, 16, 5, BlockType::Grass).unwrap();
    chunk.set_block(1, 16, 5, BlockType::Grass).unwrap();
    assert!(chunk.tree_site(5, 5));
    assert!(!chunk.tree_site(1, 5), "too close to the side");
    assert_eq!(Chunk::next_tree_id(1), 2);
    assert_eq!(Chunk::next_tree_id(u32::MAX), 1);
    assert_eq!(chunk.coordinates(), (0, 0));
}
