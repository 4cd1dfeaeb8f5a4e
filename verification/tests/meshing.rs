use voxel_engine::block::BlockType;
use voxel_engine::mesh::{quad_indices, CubeFace};
use voxel_engine::selection::{placement_target, BlockFace};
use voxel_engine::world::World;

#[test]
fn face_quad_indices() {
    assert_eq!(CubeFace::Top.get_local_indices(), [0, 1, 2, 0, 2, 3]);
    assert_eq!(quad_indices(0), Vec::<u16>::new());
    assert_eq!(quad_indices(2), vec![0, 1, 2, 0, 2, 3, 4, 5, 6, 4, 6, 7]);
    let many = quad_indices(16383);
    assert_eq!(many.len(), 6 * 16383);
    assert_eq!(many[6 * 16382 + 5], 4 * 16382 + 3);
}

#[test]
fn face_offsets_and_order() {
    assert_eq!(CubeFace::Front.neighbour_offset(), (0, 0, -1));
    assert_eq!(CubeFace::Back.neighbour_offset(), (0, 0, 1));
    assert_eq!(CubeFace::Right.neighbour_offset(), (1, 0, 0));
    assert_eq!(CubeFace::Left.neighbour_offset(), (-1, 0, 0));
    assert_eq!(CubeFace::Top.neighbour_offset(), (0, 1, 0));
    assert_eq!(CubeFace::Bottom.neighbour_offset(), (0, -1, 0));
    for i in 0..6 {
        assert_eq!(CubeFace::from_index(i).index(), i);
    }
}

#[test]
fn mesh_of_unloaded_chunk_is_none() {
    let world = World::new();
    assert!(world.plan_chunk_mesh(0, 0).is_none());
}

#[test]
fn mesh_shows_faces_next_to_a_hole() {
    let mut world = World::new();
    world.get_or_create_chunk(0, 0);
    world.set_block((0, 16, 1), BlockType::Air).unwrap();
    let mesh = world.plan_chunk_mesh(0, 0).unwrap();
    let has = |x: usize, y: usize, z: usize, f: CubeFace| {
        mesh.opaque_faces.iter().any(|q| q.x == x && q.y == y && q.z == z && q.face == f)
    };
    // The dirt below the hole shows its top, the grass beside it its side.
    assert!(has(0, 15, 1, CubeFace::Top));
    assert!(has(1, 16, 1, CubeFace::Left));
    assert!(has(0, 16, 2, CubeFace::Front));
    // Buried faces are not drawn; the outer wall of a lone chunk is, since
    // its neighbour chunk is not loaded.
    assert!(!has(5, 10, 5, CubeFace::Top));
    assert!(!has(1, 15, 1, CubeFace::Left));
    assert!(has(0, 10, 5, CubeFace::Left));
    assert!(has(3, 0, 3, CubeFace::Bottom));
    // Faces come in meshing order and carry their block.
    for w in mesh.opaque_faces.windows(2) {
        let ka = (w[0].x * 512 + w[0].y * 16 + w[0].z) * 6 + w[0].face.index();
        let kb = (w[1].x * 512 + w[1].y * 16 + w[1].z) * 6 + w[1].face.index();
        assert!(ka < kb);
    }
    for q in &mesh.opaque_faces {
        assert_ne!(q.block.block_type, BlockType::Air);
        assert!(!q.block.is_transparent());
    }
}

#[test]
fn mesh_lists_transparent_blocks() {
    let mut world = World::new();
    world.get_or_create_chunk(0, 0);
    // Leaves block light but are drawn with the transparent blocks.
    world.set_block((0, 16, 0), BlockType::OakLeaves).unwrap();
    let mesh = world.plan_chunk_mesh(0, 0).unwrap();
    assert!(mesh.transparent_blocks.contains(&(0, 16, 0)));
    assert!(!mesh.opaque_faces.iter().any(|q| q.x == 0 && q.y == 16 && q.z == 0));
}

#[test]
fn visible_faces_of_a_block() {
    let mut world = World::new();
    world.get_or_create_chunk(0, 0);
    // A grass block on the surface: only its top (and nothing else) shows,
    // unless it lies at the edge of the loaded area.
    assert_eq!(world.visible_faces(1, 16, 1), vec![CubeFace::Top]);
    assert_eq!(world.visible_faces(0, 16, 1), vec![CubeFace::Left, CubeFace::Top]);
    assert!(world.is_face_visible(1, 16, 1, CubeFace::Top));
    assert!(!world.is_face_visible(1, 16, 1, CubeFace::Bottom));
}

#[test]
fn placement_and_outline() {
    assert_eq!(placement_target((3, 16, -2), BlockFace::PosY), (3, 17, -2));
    assert_eq!(placement_target((3, 16, -2), BlockFace::NegZ), (3, 16, -3));
    assert_eq!(BlockFace::NegX.get_neighbor_offset(), (-1, 0, 0));
    let mut world = World::new();
    world.get_or_create_chunk(0, 0);
    // The outline of a surface block shows on top (air) but not below (dirt).
    assert!(world.outline_face_visible((4, 16, 0), BlockFace::PosY));
    assert!(!world.outline_face_visible((4, 16, 4), BlockFace::NegY));
    // Nothing loaded beyond the chunk: the outline face shows.
    assert!(world.outline_face_visible((15, 10, 4), BlockFace::PosX));
}
