use vstd::prelude::*;
use crate::block::type_is_solid;
use crate::world::{World, is_i32, clamp_height};

verus! {

/// The face of a block through which a ray entered it.
#[derive(Debug, Clone, Copy, PartialEq, Eq, Structural)]
pub enum BlockFace {
    PosX,
    NegX,
    PosY,
    NegY,
    PosZ,
    NegZ,
}

/// The unit step out of a block through one of its faces.
pub open spec fn block_face_offset(f: BlockFace) -> (int, int, int) {
    match f {
        BlockFace::PosX => (1, 0, 0),
        BlockFace::NegX => (-1, 0, 0),
        BlockFace::PosY => (0, 1, 0),
        BlockFace::NegY => (0, -1, 0),
        BlockFace::PosZ => (0, 0, 1),
        BlockFace::NegZ => (0, 0, -1),
    }
}

/// The world position one step out of `p` through face `f`.
pub open spec fn beyond(p: (i32, i32, i32), f: BlockFace) -> (int, int, int) {
    (
        p.0 + block_face_offset(f).0,
        p.1 + block_face_offset(f).1,
        p.2 + block_face_offset(f).2,
    )
}

/// The face `f` of the outline around the selected block at `p` is drawn
/// unless the block behind it is solid.  The height of that block is
/// clamped to the world, as `World::get_block_at_world` does.
pub open spec fn outline_face_shown(w: World, p: (i32, i32, i32), f: BlockFace) -> bool {
    let n = beyond(p, f);
    !(w.block_at(n.0, clamp_height(n.1), n.2) matches Some(b) && type_is_solid(b.block_type))
}

/// Each face leads to the neighbour one step away along its own axis, in
/// its own direction: a block placed against a face goes right next to it.
pub proof fn law_faces_lead_next_door(p: (i32, i32, i32), f: BlockFace)
    ensures
        f == BlockFace::PosX ==> beyond(p, f) == (p.0 + 1, p.1 as int, p.2 as int),
        f == BlockFace::NegX ==> beyond(p, f) == (p.0 - 1, p.1 as int, p.2 as int),
        f == BlockFace::PosY ==> beyond(p, f) == (p.0 as int, p.1 + 1, p.2 as int),
        f == BlockFace::NegY ==> beyond(p, f) == (p.0 as int, p.1 - 1, p.2 as int),
        f == BlockFace::PosZ ==> beyond(p, f) == (p.0 as int, p.1 as int, p.2 + 1),
        f == BlockFace::NegZ ==> beyond(p, f) == (p.0 as int, p.1 as int, p.2 - 1),
{
}

impl BlockFace {
    /// The unit step out of a block through this face.
    pub fn get_neighbor_offset(&self) -> (r: (i32, i32, i32))
        ensures
            (r.0 as int, r.1 as int, r.2 as int) == block_face_offset(*self),
    {
        match self {
            BlockFace::PosX => (1, 0, 0),
            BlockFace::NegX => (-1, 0, 0),
            BlockFace::PosY => (0, 1, 0),
            BlockFace::NegY => (0, -1, 0),
            BlockFace::PosZ => (0, 0, 1),
            BlockFace::NegZ => (0, 0, -1),
        }
    }
}

/// The position where a block placed against face `face` of the block at
/// `pos` goes: the neighbour behind that face.
pub fn placement_target(pos: (i32, i32, i32), face: BlockFace) -> (r: (i32, i32, i32))
    requires
        is_i32(beyond(pos, face).0),
        is_i32(beyond(pos, face).1),
        is_i32(beyond(pos, face).2),
    ensures
        (r.0 as int, r.1 as int, r.2 as int) == beyond(pos, face),
{
    let (dx, dy, dz) = face.get_neighbor_offset();
    (pos.0 + dx, pos.1 + dy, pos.2 + dz)
}

impl World {
    /// Whether the face `face` of the outline drawn around the selected
    /// block at `pos` shows: it does unless the block behind it is solid.
    pub fn outline_face_visible(&self, pos: (i32, i32, i32), face: BlockFace) -> (r: bool)
        requires
            self.wf(),
            is_i32(beyond(pos, face).0),
            is_i32(beyond(pos, face).1),
            is_i32(beyond(pos, face).2),
        ensures
            r == outline_face_shown(*self, pos, face),
    {
        let n = placement_target(pos, face);
        match self.get_block_at_world(n.0, n.1, n.2) {
            Some(b) => !b.is_solid(),
            None => true,
        }
    }
}

} // verus!
