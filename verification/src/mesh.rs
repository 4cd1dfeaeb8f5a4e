use vstd::prelude::*;
use crate::block::{Block, BlockType, type_is_solid, type_is_transparent};
use crate::chunk::{Chunk, CHUNK_HEIGHT, CHUNK_VOLUME, in_chunk, block_index};
use crate::world::{World, is_i32, clamp_height};

verus! {

/// The six faces of a cube, in the order in which a block's faces are
/// visited when a chunk is meshed.
#[derive(Debug, Clone, Copy, PartialEq, Eq, Structural, Hash)]
pub enum CubeFace {
    Front,
    Back,
    Right,
    Left,
    Top,
    Bottom,
}

/// The place of a face in the visiting order, which is also its place in a
/// block's list of atlas cells.
pub open spec fn face_index(f: CubeFace) -> int {
    match f {
        CubeFace::Front => 0,
        CubeFace::Back => 1,
        CubeFace::Right => 2,
        CubeFace::Left => 3,
        CubeFace::Top => 4,
        CubeFace::Bottom => 5,
    }
}

/// The face at place `i` of the visiting order.
pub open spec fn face_at(i: int) -> CubeFace {
    if i == 0 {
        CubeFace::Front
    } else if i == 1 {
        CubeFace::Back
    } else if i == 2 {
        CubeFace::Right
    } else if i == 3 {
        CubeFace::Left
    } else if i == 4 {
        CubeFace::Top
    } else {
        CubeFace::Bottom
    }
}

/// The step from a block to the neighbour that one of its faces looks at.
pub open spec fn face_offset(f: CubeFace) -> (int, int, int) {
    match f {
        CubeFace::Front => (0, 0, -1),
        CubeFace::Back => (0, 0, 1),
        CubeFace::Right => (1, 0, 0),
        CubeFace::Left => (-1, 0, 0),
        CubeFace::Top => (0, 1, 0),
        CubeFace::Bottom => (0, -1, 0),
    }
}

/// The vertex order of the two triangles of a face quad.
pub open spec fn local_face_indices() -> Seq<u16> {
    seq![0u16, 1, 2, 0, 2, 3]
}

/// A face of the block at world position (x, y, z) is drawn unless the
/// neighbour it looks at is a loaded block that is both solid and opaque.
pub open spec fn face_shown(w: World, x: int, y: int, z: int, f: CubeFace) -> bool {
    let o = face_offset(f);
    !(w.block_at(x + o.0, y + o.1, z + o.2) matches Some(b) && type_is_solid(b.block_type)
        && !type_is_transparent(b.block_type))
}

/// Each face looks at the neighbour one step away along its own axis: the
/// top face up, the bottom face down, right and left along x, back and
/// front along z.
pub proof fn law_faces_look_at_their_neighbours(f: CubeFace)
    ensures
        f == CubeFace::Top ==> face_offset(f) == (0int, 1int, 0int),
        f == CubeFace::Bottom ==> face_offset(f) == (0int, -1int, 0int),
        f == CubeFace::Right ==> face_offset(f) == (1int, 0int, 0int),
        f == CubeFace::Left ==> face_offset(f) == (-1int, 0int, 0int),
        f == CubeFace::Back ==> face_offset(f) == (0int, 0int, 1int),
        f == CubeFace::Front ==> face_offset(f) == (0int, 0int, -1int),
{
}

/// A face is hidden exactly when the block it looks at is loaded and both
/// stops the player and blocks sight: a face next to air, leaves or any
/// other see-through block, or next to a chunk that is not loaded, is drawn.
pub proof fn law_faces_show_through_see_through_blocks(w: World, x: int, y: int, z: int, f: CubeFace)
    ensures
        ({
            let o = face_offset(f);
            match w.block_at(x + o.0, y + o.1, z + o.2) {
                Some(b) => {
                    &&& type_is_transparent(b.block_type) ==> face_shown(w, x, y, z, f)
                    &&& !type_is_solid(b.block_type) ==> face_shown(w, x, y, z, f)
                    &&& b.block_type == BlockType::OakLeaves ==> face_shown(w, x, y, z, f)
                    &&& b.block_type == BlockType::Air ==> face_shown(w, x, y, z, f)
                    &&& (type_is_solid(b.block_type) && !type_is_transparent(b.block_type)) ==> !face_shown(
                        w,
                        x,
                        y,
                        z,
                        f,
                    )
                },
                None => face_shown(w, x, y, z, f),
            }
        }),
{
}

/// In a chunk's mesh, a face of an opaque block that looks at a
/// see-through block (or at a chunk that is not loaded) is among the opaque
/// faces, and a face that looks at a solid opaque block is not.
pub proof fn law_mesh_faces_next_to_see_through_blocks(
    w: World,
    cx: int,
    cz: int,
    c: Chunk,
    m: ChunkMesh,
    x: int,
    y: int,
    z: int,
    f: CubeFace,
)
    requires
        mesh_of(w, cx, cz, c, m),
        in_chunk(x, y, z),
        !type_is_transparent(c.at(x, y, z).block_type),
    ensures
        ({
            let o = face_offset(f);
            let n = w.block_at(cx * 16 + x + o.0, y + o.1, cz * 16 + z + o.2);
            let listed = exists|j: int|
                0 <= j < m.opaque_faces@.len() && (#[trigger] m.opaque_faces@[j]).x == x && m.opaque_faces@[j].y == y
                    && m.opaque_faces@[j].z == z && m.opaque_faces@[j].face == f;
            &&& (n is None || (n matches Some(b) && (type_is_transparent(b.block_type) || !type_is_solid(
                b.block_type,
            )))) ==> listed
            &&& (n matches Some(b) && type_is_solid(b.block_type) && !type_is_transparent(b.block_type)) ==> !listed
        }),
{
    let o = face_offset(f);
    if face_shown(w, cx * 16 + x, y, cz * 16 + z, f) {
        assert(opaque_face_drawn(w, cx, cz, c, x, y, z, f));
    } else {
        if exists|j: int|
            0 <= j < m.opaque_faces@.len() && (#[trigger] m.opaque_faces@[j]).x == x && m.opaque_faces@[j].y == y
                && m.opaque_faces@[j].z == z && m.opaque_faces@[j].face == f {
            let j = choose|j: int|
                0 <= j < m.opaque_faces@.len() && (#[trigger] m.opaque_faces@[j]).x == x && m.opaque_faces@[j].y == y
                    && m.opaque_faces@[j].z == z && m.opaque_faces@[j].face == f;
            let q = m.opaque_faces@[j];
            assert(opaque_face_drawn(w, cx, cz, c, q.x as int, q.y as int, q.z as int, q.face));
        }
    }
}

/// Every neighbour of the world position (x, y, z) has i32 coordinates.
pub open spec fn neighbours_in_range(x: int, y: int, z: int) -> bool {
    &&& is_i32(x - 1) && is_i32(x + 1)
    &&& is_i32(y - 1) && is_i32(y + 1)
    &&& is_i32(z - 1) && is_i32(z + 1)
}

/// Chunk coordinates whose blocks and their neighbours all have i32 world
/// coordinates.
pub open spec fn chunk_in_range(c: int) -> bool {
    -134217727 <= c <= 134217726
}

/// Whether the blocks of chunk column `c` (an x or a z chunk coordinate)
/// and their neighbours all have i32 world coordinates, so the chunk can be
/// meshed.
pub fn chunk_range_ok(c: i32) -> (r: bool)
    ensures
        r == chunk_in_range(c as int),
{
    -134217727 <= c && c <= 134217726
}

impl CubeFace {
    /// The vertex order of the two triangles of this face's quad.
    pub fn get_local_indices(&self) -> (r: [u16; 6])
        ensures
            r@ == local_face_indices(),
    {
        let r: [u16; 6] = [0, 1, 2, 0, 2, 3];
        assert(r@ =~= local_face_indices());
        r
    }

    /// The step to the neighbour this face looks at.
    pub fn neighbour_offset(&self) -> (r: (i32, i32, i32))
        ensures
            (r.0 as int, r.1 as int, r.2 as int) == face_offset(*self),
    {
        match self {
            CubeFace::Front => (0, 0, -1),
            CubeFace::Back => (0, 0, 1),
            CubeFace::Right => (1, 0, 0),
            CubeFace::Left => (-1, 0, 0),
            CubeFace::Top => (0, 1, 0),
            CubeFace::Bottom => (0, -1, 0),
        }
    }

    /// The place of this face in the visiting order.
    pub fn index(&self) -> (r: usize)
        ensures
            r as int == face_index(*self),
    {
        match self {
            CubeFace::Front => 0,
            CubeFace::Back => 1,
            CubeFace::Right => 2,
            CubeFace::Left => 3,
            CubeFace::Top => 4,
            CubeFace::Bottom => 5,
        }
    }

    /// The face at place `i` of the visiting order.
    pub fn from_index(i: usize) -> (f: CubeFace)
        requires
            i < 6,
        ensures
            f == face_at(i as int),
            face_index(f) == i as int,
    {
        if i == 0 {
            CubeFace::Front
        } else if i == 1 {
            CubeFace::Back
        } else if i == 2 {
            CubeFace::Right
        } else if i == 3 {
            CubeFace::Left
        } else if i == 4 {
            CubeFace::Top
        } else {
            CubeFace::Bottom
        }
    }
}

pub proof fn lemma_face_index(f: CubeFace)
    ensures
        0 <= face_index(f) < 6,
        face_at(face_index(f)) == f,
{
}

/// A face of an opaque block that a chunk's mesh draws, with the block it
/// belongs to.
#[derive(Debug, Clone, Copy)]
pub struct FaceQuad {
    pub x: usize,
    pub y: usize,
    pub z: usize,
    pub face: CubeFace,
    pub block: Block,
}

/// What a chunk's mesh is made of: the drawn faces of its opaque blocks, and
/// its transparent blocks (other than air), whose faces are drawn back to
/// front once they have been sorted by distance from the eye.
pub struct ChunkMesh {
    pub opaque_faces: Vec<FaceQuad>,
    pub transparent_blocks: Vec<(usize, usize, usize)>,
}

/// Where a face quad stands in the order in which a chunk is meshed.
pub open spec fn quad_key(q: FaceQuad) -> int {
    block_index(q.x as int, q.y as int, q.z as int) * 6 + face_index(q.face)
}

/// The face `f` of the block at local position (x, y, z) of chunk `c`,
/// which stands at chunk coordinates (cx, cz) of world `w`, is part of the
/// opaque mesh: the block stops light and the face is not hidden.
pub open spec fn opaque_face_drawn(w: World, cx: int, cz: int, c: Chunk, x: int, y: int, z: int, f: CubeFace) -> bool {
    &&& !type_is_transparent(c.at(x, y, z).block_type)
    &&& face_shown(w, cx * 16 + x, y, cz * 16 + z, f)
}

/// The block at local position (x, y, z) of chunk `c` is drawn among the
/// transparent blocks: it lets light through and is not air.
pub open spec fn transparent_drawn(c: Chunk, x: int, y: int, z: int) -> bool {
    &&& c.at(x, y, z).block_type != BlockType::Air
    &&& type_is_transparent(c.at(x, y, z).block_type)
}

/// `m` is the mesh of chunk `c` at (cx, cz) in world `w`: exactly the drawn
/// opaque faces and the transparent blocks, each in meshing order.
pub open spec fn mesh_of(w: World, cx: int, cz: int, c: Chunk, m: ChunkMesh) -> bool {
    let o = m.opaque_faces@;
    let t = m.transparent_blocks@;
    &&& forall|j: int|
        0 <= j < o.len() ==> {
            let q = #[trigger] o[j];
            &&& in_chunk(q.x as int, q.y as int, q.z as int)
            &&& q.block == c.at(q.x as int, q.y as int, q.z as int)
            &&& opaque_face_drawn(w, cx, cz, c, q.x as int, q.y as int, q.z as int, q.face)
        }
    &&& forall|j: int, k: int| 0 <= j < k < o.len() ==> quad_key(#[trigger] o[j]) < quad_key(#[trigger] o[k])
    &&& forall|x: int, y: int, z: int, f: CubeFace|
        in_chunk(x, y, z) && #[trigger] opaque_face_drawn(w, cx, cz, c, x, y, z, f) ==> exists|j: int|
            0 <= j < o.len() && (#[trigger] o[j]).x == x && o[j].y == y && o[j].z == z && o[j].face == f
    &&& forall|j: int|
        0 <= j < t.len() ==> {
            let p = #[trigger] t[j];
            in_chunk(p.0 as int, p.1 as int, p.2 as int) && transparent_drawn(c, p.0 as int, p.1 as int, p.2 as int)
        }
    &&& forall|j: int, k: int|
        0 <= j < k < t.len() ==> block_index((#[trigger] t[j]).0 as int, t[j].1 as int, t[j].2 as int)
            < block_index((#[trigger] t[k]).0 as int, t[k].1 as int, t[k].2 as int)
    &&& forall|x: int, y: int, z: int|
        in_chunk(x, y, z) && #[trigger] transparent_drawn(c, x, y, z) ==> exists|j: int|
            0 <= j < t.len() && (#[trigger] t[j]).0 == x && t[j].1 == y && t[j].2 == z
}

proof fn lemma_split_index(i: int)
    requires
        0 <= i < CHUNK_VOLUME,
    ensures
        in_chunk(i / 512, (i / 16) % 32, i % 16),
        block_index(i / 512, (i / 16) % 32, i % 16) == i,
{
    assert(i == (i / 512) * 512 + ((i / 16) % 32) * 16 + i % 16) by (nonlinear_arith)
        requires
            0 <= i,
    {
        assert(i == (i / 16) * 16 + i % 16);
        assert(i / 16 == ((i / 16) / 32) * 32 + (i / 16) % 32);
        assert((i / 16) / 32 == i / 512);
    }
    assert(i / 512 < 16) by (nonlinear_arith)
        requires
            0 <= i < 8192,
    ;
}

impl World {
    /// Whether the face `face` of the block at world position (x, y, z) is
    /// drawn: it is, unless the neighbour it looks at is a loaded block
    /// that is solid and opaque.
    pub fn is_face_visible(&self, x: i32, y: i32, z: i32, face: CubeFace) -> (r: bool)
        requires
            self.wf(),
            neighbours_in_range(x as int, y as int, z as int),
        ensures
            r == face_shown(*self, x as int, y as int, z as int, face),
            ({
                let o = face_offset(face);
                match self.block_at(x + o.0, y + o.1, z + o.2) {
                    Some(b) => r <==> (type_is_transparent(b.block_type) || !type_is_solid(b.block_type)),
                    None => r,
                }
            }),
    {
        let (dx, dy, dz) = face.neighbour_offset();
        let nx = x + dx;
        let ny = y + dy;
        let nz = z + dz;
        if ny >= 0 && ny < CHUNK_HEIGHT as i32 {
            proof {
                assert(clamp_height(ny as int) == ny as int);
            }
            if let Some(neighbour) = self.get_block_at_world(nx, ny, nz) {
                if neighbour.is_solid() && !neighbour.is_transparent() {
                    return false;
                }
            }
        }
        true
    }

    /// The drawn faces of the block at world position (x, y, z), in
    /// visiting order.
    pub fn visible_faces(&self, x: i32, y: i32, z: i32) -> (r: Vec<CubeFace>)
        requires
            self.wf(),
            neighbours_in_range(x as int, y as int, z as int),
        ensures
            forall|j: int| 0 <= j < r.len() ==> face_shown(*self, x as int, y as int, z as int, #[trigger] r@[j]),
            forall|j: int, k: int| 0 <= j < k < r.len() ==> face_index(#[trigger] r@[j]) < face_index(#[trigger] r@[k]),
            forall|f: CubeFace| #[trigger] face_shown(*self, x as int, y as int, z as int, f) ==> r@.contains(f),
    {
        let mut r: Vec<CubeFace> = Vec::new();
        let mut d: usize = 0;
        while d < 6
            invariant
                d <= 6,
                self.wf(),
                neighbours_in_range(x as int, y as int, z as int),
                forall|j: int| 0 <= j < r.len() ==> face_shown(*self, x as int, y as int, z as int, #[trigger] r@[j]),
                forall|j: int| 0 <= j < r.len() ==> face_index(#[trigger] r@[j]) < d,
                forall|j: int, k: int| 0 <= j < k < r.len() ==> face_index(#[trigger] r@[j]) < face_index(#[trigger] r@[k]),
                forall|f: CubeFace| face_index(f) < d && #[trigger] face_shown(*self, x as int, y as int, z as int, f) ==> r@.contains(f),
            decreases 6 - d,
        {
            let face = CubeFace::from_index(d);
            let ghost r0 = r@;
            if self.is_face_visible(x, y, z, face) {
                r.push(face);
                proof {
                    assert(r@[r0.len() as int] == face);
                    assert forall|f: CubeFace| face_index(f) < d + 1 && #[trigger] face_shown(*self, x as int, y as int, z as int, f) implies r@.contains(f) by {
                        if face_index(f) < d {
                            let j = choose|j: int| 0 <= j < r0.len() && r0[j] == f;
                            assert(r@[j] == f);
                        } else {
                            lemma_face_index(f);
                            assert(r@[r0.len() as int] == f);
                        }
                    }
                }
            } else {
                proof {
                    assert forall|f: CubeFace| face_index(f) < d + 1 && #[trigger] face_shown(*self, x as int, y as int, z as int, f) implies r@.contains(f) by {
                        lemma_face_index(f);
                    }
                }
            }
            d = d + 1;
        }
        r
    }
    /// The mesh of the chunk at (chunk_x, chunk_z): its opaque blocks' drawn
    /// faces and its transparent blocks, in meshing order (by local position,
    /// x slowest and z fastest, and for each block its faces in visiting
    /// order); `None` when the chunk is not loaded.
    pub fn plan_chunk_mesh(&self, chunk_x: i32, chunk_z: i32) -> (r: Option<ChunkMesh>)
        requires
            self.wf(),
            chunk_in_range(chunk_x as int),
            chunk_in_range(chunk_z as int),
        ensures
            r is None <==> self.chunk_at(chunk_x as int, chunk_z as int) is None,
            r matches Some(m) ==> mesh_of(
                *self,
                chunk_x as int,
                chunk_z as int,
                self.chunk_at(chunk_x as int, chunk_z as int)->0,
                m,
            ),
    {
        let chunk = match self.get_chunk(chunk_x, chunk_z) {
            Some(c) => c,
            None => {
                return None;
            },
        };
        let ghost c = *chunk;
        let ghost cx = chunk_x as int;
        let ghost cz = chunk_z as int;
        proof {
            assert(self.chunk_map().contains_key(crate::world::key_of(cx, cz)));
        }
        let origin_x: i32 = chunk_x * 16;
        let origin_z: i32 = chunk_z * 16;
        let mut opaque_faces: Vec<FaceQuad> = Vec::new();
        let mut transparent_blocks: Vec<(usize, usize, usize)> = Vec::new();
        let mut i: usize = 0;
        while i < CHUNK_VOLUME
            invariant
                i <= CHUNK_VOLUME,
                self.wf(),
                c == *chunk,
                c.wf(),
                chunk_in_range(cx) && chunk_in_range(cz),
                origin_x as int == cx * 16,
                origin_z as int == cz * 16,
                forall|j: int|
                    0 <= j < opaque_faces@.len() ==> {
                        let q = #[trigger] opaque_faces@[j];
                        &&& in_chunk(q.x as int, q.y as int, q.z as int)
                        &&& q.block == c.at(q.x as int, q.y as int, q.z as int)
                        &&& opaque_face_drawn(*self, cx, cz, c, q.x as int, q.y as int, q.z as int, q.face)
                        &&& quad_key(q) < 6 * i
                    },
                forall|j: int, k: int|
                    0 <= j < k < opaque_faces@.len() ==> quad_key(#[trigger] opaque_faces@[j]) < quad_key(
                        #[trigger] opaque_faces@[k],
                    ),
                forall|x: int, y: int, z: int, f: CubeFace|
                    in_chunk(x, y, z) && block_index(x, y, z) < i && #[trigger] opaque_face_drawn(
                        *self,
                        cx,
                        cz,
                        c,
                        x,
                        y,
                        z,
                        f,
                    ) ==> exists|j: int|
                        0 <= j < opaque_faces@.len() && (#[trigger] opaque_faces@[j]).x == x
                            && opaque_faces@[j].y == y && opaque_faces@[j].z == z && opaque_faces@[j].face == f,
                forall|j: int|
                    0 <= j < transparent_blocks@.len() ==> {
                        let p = #[trigger] transparent_blocks@[j];
                        &&& in_chunk(p.0 as int, p.1 as int, p.2 as int)
                        &&& transparent_drawn(c, p.0 as int, p.1 as int, p.2 as int)
                        &&& block_index(p.0 as int, p.1 as int, p.2 as int) < i
                    },
                forall|j: int, k: int|
                    0 <= j < k < transparent_blocks@.len() ==> block_index(
                        (#[trigger] transparent_blocks@[j]).0 as int,
                        transparent_blocks@[j].1 as int,
                        transparent_blocks@[j].2 as int,
                    ) < block_index(
                        (#[trigger] transparent_blocks@[k]).0 as int,
                        transparent_blocks@[k].1 as int,
                        transparent_blocks@[k].2 as int,
                    ),
                forall|x: int, y: int, z: int|
                    in_chunk(x, y, z) && block_index(x, y, z) < i && #[trigger] transparent_drawn(c, x, y, z)
                        ==> exists|j: int|
                        0 <= j < transparent_blocks@.len() && (#[trigger] transparent_blocks@[j]).0 == x
                            && transparent_blocks@[j].1 == y && transparent_blocks@[j].2 == z,
            decreases CHUNK_VOLUME - i,
        {
            let x = i / 512;
            let y = (i / 16) % 32;
            let z = i % 16;
            proof {
                lemma_split_index(i as int);
            }
            let block = *chunk.get_block(x, y, z).unwrap();
            if block.block_type != BlockType::Air {
                if !block.is_transparent() {
                    let wx: i32 = origin_x + x as i32;
                    let wz: i32 = origin_z + z as i32;
                    let mut d: usize = 0;
                    while d < 6
                        invariant
                            d <= 6,
                            i < CHUNK_VOLUME,
                            self.wf(),
                            c.wf(),
                            in_chunk(x as int, y as int, z as int),
                            block_index(x as int, y as int, z as int) == i,
                            block == c.at(x as int, y as int, z as int),
                            !type_is_transparent(block.block_type),
                            wx as int == cx * 16 + x,
                            wz as int == cz * 16 + z,
                            neighbours_in_range(wx as int, y as int, wz as int),
                            forall|j: int|
                                0 <= j < opaque_faces@.len() ==> {
                                    let q = #[trigger] opaque_faces@[j];
                                    &&& in_chunk(q.x as int, q.y as int, q.z as int)
                                    &&& q.block == c.at(q.x as int, q.y as int, q.z as int)
                                    &&& opaque_face_drawn(*self, cx, cz, c, q.x as int, q.y as int, q.z as int, q.face)
                                    &&& quad_key(q) < 6 * i + d
                                },
                            forall|j: int, k: int|
                                0 <= j < k < opaque_faces@.len() ==> quad_key(#[trigger] opaque_faces@[j]) < quad_key(
                                    #[trigger] opaque_faces@[k],
                                ),
                            forall|x2: int, y2: int, z2: int, f: CubeFace|
                                in_chunk(x2, y2, z2) && (block_index(x2, y2, z2) < i || (block_index(x2, y2, z2) == i
                                    && face_index(f) < d)) && #[trigger] opaque_face_drawn(
                                    *self,
                                    cx,
                                    cz,
                                    c,
                                    x2,
                                    y2,
                                    z2,
                                    f,
                                ) ==> exists|j: int|
                                    0 <= j < opaque_faces@.len() && (#[trigger] opaque_faces@[j]).x == x2
                                        && opaque_faces@[j].y == y2 && opaque_faces@[j].z == z2
                                        && opaque_faces@[j].face == f,
                        decreases 6 - d,
                    {
                        let face = CubeFace::from_index(d);
                        let ghost o0 = opaque_faces@;
                        if self.is_face_visible(wx, y as i32, wz, face) {
                            opaque_faces.push(FaceQuad { x, y, z, face, block });
                            proof {
                                let n = o0.len() as int;
                                assert(opaque_faces@[n].face == face);
                                assert(forall|j: int| 0 <= j < n ==> opaque_faces@[j] == o0[j]);
                                assert forall|x2: int, y2: int, z2: int, f: CubeFace|
                                    in_chunk(x2, y2, z2) && (block_index(x2, y2, z2) < i || (block_index(x2, y2, z2) == i
                                        && face_index(f) < d + 1)) && #[trigger] opaque_face_drawn(
                                        *self,
                                        cx,
                                        cz,
                                        c,
                                        x2,
                                        y2,
                                        z2,
                                        f,
                                    ) implies exists|j: int|
                                        0 <= j < opaque_faces@.len() && (#[trigger] opaque_faces@[j]).x == x2
                                            && opaque_faces@[j].y == y2 && opaque_faces@[j].z == z2
                                            && opaque_faces@[j].face == f by {
                                    if block_index(x2, y2, z2) < i || face_index(f) < d {
                                        let j = choose|j: int|
                                            0 <= j < o0.len() && (#[trigger] o0[j]).x == x2 && o0[j].y == y2
                                                && o0[j].z == z2 && o0[j].face == f;
                                        assert(opaque_faces@[j] == o0[j]);
                                    } else {
                                        crate::chunk::lemma_index_injective(x2, y2, z2, x as int, y as int, z as int);
                                        lemma_face_index(f);
                                        assert(opaque_faces@[n].x == x2);
                                    }
                                }
                            }
                        } else {
                            proof {
                                assert forall|x2: int, y2: int, z2: int, f: CubeFace|
                                    in_chunk(x2, y2, z2) && (block_index(x2, y2, z2) < i || (block_index(x2, y2, z2) == i
                                        && face_index(f) < d + 1)) && #[trigger] opaque_face_drawn(
                                        *self,
                                        cx,
                                        cz,
                                        c,
                                        x2,
                                        y2,
                                        z2,
                                        f,
                                    ) implies exists|j: int|
                                        0 <= j < opaque_faces@.len() && (#[trigger] opaque_faces@[j]).x == x2
                                            && opaque_faces@[j].y == y2 && opaque_faces@[j].z == z2
                                            && opaque_faces@[j].face == f by {
                                    if block_index(x2, y2, z2) == i && face_index(f) == d {
                                        crate::chunk::lemma_index_injective(x2, y2, z2, x as int, y as int, z as int);
                                        lemma_face_index(f);
                                    }
                                }
                            }
                        }
                        d = d + 1;
                    }
                    proof {
                        assert forall|x2: int, y2: int, z2: int|
                            in_chunk(x2, y2, z2) && block_index(x2, y2, z2) < i + 1 && #[trigger] transparent_drawn(c, x2, y2, z2)
                                implies block_index(x2, y2, z2) < i by {
                            if block_index(x2, y2, z2) == i {
                                crate::chunk::lemma_index_injective(x2, y2, z2, x as int, y as int, z as int);
                            }
                        }
                        assert forall|x2: int, y2: int, z2: int, f: CubeFace|
                            in_chunk(x2, y2, z2) && block_index(x2, y2, z2) < i + 1 && #[trigger] opaque_face_drawn(
                                *self,
                                cx,
                                cz,
                                c,
                                x2,
                                y2,
                                z2,
                                f,
                            ) implies block_index(x2, y2, z2) < i || (block_index(x2, y2, z2) == i && face_index(f) < 6) by {
                            lemma_face_index(f);
                        }
                    }
                } else {
                    let ghost t0 = transparent_blocks@;
                    transparent_blocks.push((x, y, z));
                    proof {
                        let n = t0.len() as int;
                        assert(forall|j: int| 0 <= j < n ==> transparent_blocks@[j] == t0[j]);
                        assert(transparent_blocks@[n] == (x, y, z));
                        assert forall|x2: int, y2: int, z2: int|
                            in_chunk(x2, y2, z2) && block_index(x2, y2, z2) < i + 1 && #[trigger] transparent_drawn(c, x2, y2, z2)
                                implies exists|j: int|
                                0 <= j < transparent_blocks@.len() && (#[trigger] transparent_blocks@[j]).0 == x2
                                    && transparent_blocks@[j].1 == y2 && transparent_blocks@[j].2 == z2 by {
                            if block_index(x2, y2, z2) < i {
                                let j = choose|j: int|
                                    0 <= j < t0.len() && (#[trigger] t0[j]).0 == x2 && t0[j].1 == y2 && t0[j].2 == z2;
                                assert(transparent_blocks@[j] == t0[j]);
                            } else {
                                crate::chunk::lemma_index_injective(x2, y2, z2, x as int, y as int, z as int);
                                assert(transparent_blocks@[n].0 == x2);
                            }
                        }
                        assert forall|x2: int, y2: int, z2: int, f: CubeFace|
                            in_chunk(x2, y2, z2) && block_index(x2, y2, z2) < i + 1 && #[trigger] opaque_face_drawn(
                                *self,
                                cx,
                                cz,
                                c,
                                x2,
                                y2,
                                z2,
                                f,
                            ) implies block_index(x2, y2, z2) < i by {
                            if block_index(x2, y2, z2) == i {
                                crate::chunk::lemma_index_injective(x2, y2, z2, x as int, y as int, z as int);
                            }
                        }
                    }
                }
            } else {
                proof {
                    assert forall|x2: int, y2: int, z2: int|
                        in_chunk(x2, y2, z2) && block_index(x2, y2, z2) < i + 1 && #[trigger] transparent_drawn(c, x2, y2, z2)
                            implies block_index(x2, y2, z2) < i by {
                        if block_index(x2, y2, z2) == i {
                            crate::chunk::lemma_index_injective(x2, y2, z2, x as int, y as int, z as int);
                        }
                    }
                    assert forall|x2: int, y2: int, z2: int, f: CubeFace|
                        in_chunk(x2, y2, z2) && block_index(x2, y2, z2) < i + 1 && #[trigger] opaque_face_drawn(
                            *self,
                            cx,
                            cz,
                            c,
                            x2,
                            y2,
                            z2,
                            f,
                        ) implies block_index(x2, y2, z2) < i by {
                        if block_index(x2, y2, z2) == i {
                            crate::chunk::lemma_index_injective(x2, y2, z2, x as int, y as int, z as int);
                        }
                    }
                }
            }
            i = i + 1;
        }
        proof {
            assert forall|x: int, y: int, z: int| in_chunk(x, y, z) implies block_index(x, y, z) < CHUNK_VOLUME by {
                crate::chunk::lemma_index_bounds(x, y, z);
            }
        }
        Some(ChunkMesh { opaque_faces, transparent_blocks })
    }
}

/// The triangle indices of `face_count` face quads laid one after the other,
/// four vertices each: quad `k` uses vertices 4k to 4k + 3.
pub fn quad_indices(face_count: usize) -> (r: Vec<u16>)
    requires
        face_count <= 16383,
    ensures
        r@.len() == 6 * face_count,
        forall|i: int| 0 <= i < r@.len() ==> #[trigger] r@[i] == 4 * (i / 6) + local_face_indices()[i % 6],
{
    let mut r: Vec<u16> = Vec::new();
    let mut offset: u16 = 0;
    let mut k: usize = 0;
    while k < face_count
        invariant
            k <= face_count <= 16383,
            offset as int == 4 * k,
            r@.len() == 6 * k,
            forall|i: int| 0 <= i < r@.len() ==> #[trigger] r@[i] == 4 * (i / 6) + local_face_indices()[i % 6],
        decreases face_count - k,
    {
        let local = CubeFace::Front.get_local_indices();
        let mut j: usize = 0;
        while j < 6
            invariant
                j <= 6,
                k < face_count <= 16383,
                offset as int == 4 * k,
                local@ == local_face_indices(),
                r@.len() == 6 * k + j,
                forall|i: int| 0 <= i < r@.len() ==> #[trigger] r@[i] == 4 * (i / 6) + local_face_indices()[i % 6],
            decreases 6 - j,
        {
            let ghost n = r@.len() as int;
            r.push(offset + local[j]);
            proof {
                assert(n / 6 == k && n % 6 == j) by (nonlinear_arith)
                    requires
                        n == 6 * k + j,
                        0 <= j < 6,
                ;
            }
            j = j + 1;
        }
        offset = offset + 4;
        k = k + 1;
    }
    r
}

} // verus!
