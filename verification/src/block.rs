use vstd::prelude::*;

verus! {

/// The kinds of block the world is built from.
#[derive(Debug, Clone, Copy, PartialEq, Eq, Structural)]
pub enum BlockType {
    Air,
    Dirt,
    Grass,
    Bedrock,
    OakLog,
    OakLeaves,
}

/// One cell of the world.
#[derive(Debug, Clone, Copy)]
pub struct Block {
    pub block_type: BlockType,
    /// Identifies the tree a log or leaf block belongs to.
    pub tree_id: Option<u32>,
    pub sky_light: u8,
    pub block_light: u8,
}

/// Whether a block of this type stops the player (physics).
pub open spec fn type_is_solid(t: BlockType) -> bool {
    !(t == BlockType::Air || t == BlockType::OakLeaves)
}

/// Whether light and sight pass through a block of this type.
pub open spec fn type_is_transparent(t: BlockType) -> bool {
    t == BlockType::Air || t == BlockType::OakLeaves
}

/// Air and leaves let light and sight through and do not stop the player;
/// dirt, grass, bedrock and logs stop both.
pub proof fn law_block_kinds(t: BlockType)
    ensures
        (t == BlockType::Air || t == BlockType::OakLeaves) ==> type_is_transparent(t) && !type_is_solid(t),
        (t == BlockType::Dirt || t == BlockType::Grass || t == BlockType::Bedrock || t == BlockType::OakLog)
            ==> !type_is_transparent(t) && type_is_solid(t),
        type_is_solid(t) <==> !type_is_transparent(t),
{
}

/// A freshly placed block: no tree, no light.
pub open spec fn fresh_block(t: BlockType) -> Block {
    Block { block_type: t, tree_id: None, sky_light: 0, block_light: 0 }
}

impl Block {
    pub fn new(block_type: BlockType) -> (b: Self)
        ensures
            b == fresh_block(block_type),
    {
        Block { block_type, tree_id: None, sky_light: 0, block_light: 0 }
    }

    /// A block that belongs to the tree `tree_id`.
    pub fn new_with_tree_id(block_type: BlockType, tree_id: u32) -> (b: Self)
        ensures
            b == (Block { block_type, tree_id: Some(tree_id), sky_light: 0, block_light: 0 }),
    {
        Block { block_type, tree_id: Some(tree_id), sky_light: 0, block_light: 0 }
    }

    pub fn is_solid(&self) -> (r: bool)
        ensures
            r == type_is_solid(self.block_type),
    {
        match self.block_type {
            BlockType::Air => false,
            BlockType::OakLeaves => false,
            _ => true,
        }
    }

    pub fn is_transparent(&self) -> (r: bool)
        ensures
            r == type_is_transparent(self.block_type),
    {
        match self.block_type {
            BlockType::OakLeaves => true,
            BlockType::Air => true,
            _ => false,
        }
    }

    /// The texture-atlas cell (column, row) of each face, in the order
    /// front, back, right, left, top, bottom.
    pub fn get_texture_atlas_indices(&self) -> (r: [[u32; 2]; 6])
        ensures
            r@ == atlas_cells(self.block_type),
    {
        let r = match self.block_type {
            BlockType::Dirt => [[2, 0], [2, 0], [2, 0], [2, 0], [2, 0], [2, 0]],
            BlockType::Grass => [[1, 0], [1, 0], [1, 0], [1, 0], [0, 0], [2, 0]],
            BlockType::Bedrock => [[3, 0], [3, 0], [3, 0], [3, 0], [3, 0], [3, 0]],
            BlockType::Air => [[15, 15], [15, 15], [15, 15], [15, 15], [15, 15], [15, 15]],
            BlockType::OakLog => [[4, 0], [4, 0], [4, 0], [4, 0], [5, 0], [5, 0]],
            BlockType::OakLeaves => [[6, 0], [6, 0], [6, 0], [6, 0], [6, 0], [6, 0]],
        };
        assert(r@ =~= atlas_cells(self.block_type));
        r
    }
}

/// The atlas cells of a block type's faces: front, back, right, left, top, bottom.
pub open spec fn atlas_cells(t: BlockType) -> Seq<[u32; 2]> {
    let side: [u32; 2] = match t {
        BlockType::Dirt => [2, 0],
        BlockType::Grass => [1, 0],
        BlockType::Bedrock => [3, 0],
        BlockType::Air => [15, 15],
        BlockType::OakLog => [4, 0],
        BlockType::OakLeaves => [6, 0],
    };
    let top: [u32; 2] = match t {
        BlockType::Grass => [0, 0],
        BlockType::OakLog => [5, 0],
        _ => side,
    };
    let bottom: [u32; 2] = match t {
        BlockType::Grass => [2, 0],
        BlockType::OakLog => [5, 0],
        _ => side,
    };
    seq![side, side, side, side, top, bottom]
}

} // verus!
