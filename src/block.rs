use vstd::prelude::*;

verus! {

/// The kinds of block that a chunk can hold.
#[derive(Debug, Clone, Copy, PartialEq, Eq, Hash, Structural)]
pub enum BlockID {
    Air,
    Dirt,
    GrassBlock,
    Stone,
    Cobblestone,
    Bedrock,
    Obsidian,
    OakLog,
    OakLeaves,
    OakPlanks,
    Glass,
    Debug,
    Debug2,
}

/// Number of block kinds.
pub const BLOCK_KINDS: usize = 13;

impl BlockID {
    pub open spec fn air(self) -> bool {
        self == BlockID::Air
    }

    /// Air, leaves and glass let light and sight through.
    pub open spec fn transparent(self) -> bool {
        self == BlockID::Air || self == BlockID::OakLeaves || self == BlockID::Glass
    }

    pub open spec fn opaque(self) -> bool {
        !self.transparent()
    }

    pub open spec fn transparent_not_air(self) -> bool {
        self == BlockID::OakLeaves || self == BlockID::Glass
    }

    /// Transparent for ambient occlusion: leaves darken corners.
    pub open spec fn transparent_no_leaves(self) -> bool {
        self == BlockID::Air || self == BlockID::Glass
    }

    /// Position of the kind in the declaration order.
    pub open spec fn index_spec(self) -> int {
        match self {
            BlockID::Air => 0,
            BlockID::Dirt => 1,
            BlockID::GrassBlock => 2,
            BlockID::Stone => 3,
            BlockID::Cobblestone => 4,
            BlockID::Bedrock => 5,
            BlockID::Obsidian => 6,
            BlockID::OakLog => 7,
            BlockID::OakLeaves => 8,
            BlockID::OakPlanks => 9,
            BlockID::Glass => 10,
            BlockID::Debug => 11,
            BlockID::Debug2 => 12,
        }
    }

    pub fn is_air(&self) -> (r: bool)
        ensures
            r == self.air(),
    {
        *self == BlockID::Air
    }

    pub fn is_transparent(&self) -> (r: bool)
        ensures
            r == self.transparent(),
    {
        match self {
            BlockID::Air | BlockID::OakLeaves | BlockID::Glass => true,
            _ => false,
        }
    }

    pub fn is_opaque(&self) -> (r: bool)
        ensures
            r == self.opaque(),
    {
        !self.is_transparent()
    }

    pub fn is_transparent_not_air(&self) -> (r: bool)
        ensures
            r == self.transparent_not_air(),
    {
        match self {
            BlockID::OakLeaves | BlockID::Glass => true,
            _ => false,
        }
    }

    pub fn is_transparent_no_leaves(&self) -> (r: bool)
        ensures
            r == self.transparent_no_leaves(),
    {
        match self {
            BlockID::Air | BlockID::Glass => true,
            _ => false,
        }
    }

    /// Position of the kind in the declaration order, for table lookups.
    pub fn index(&self) -> (r: usize)
        ensures
            r as int == self.index_spec(),
            r < BLOCK_KINDS,
    {
        match self {
            BlockID::Air => 0,
            BlockID::Dirt => 1,
            BlockID::GrassBlock => 2,
            BlockID::Stone => 3,
            BlockID::Cobblestone => 4,
            BlockID::Bedrock => 5,
            BlockID::Obsidian => 6,
            BlockID::OakLog => 7,
            BlockID::OakLeaves => 8,
            BlockID::OakPlanks => 9,
            BlockID::Glass => 10,
            BlockID::Debug => 11,
            BlockID::Debug2 => 12,
        }
    }
}

/// The kind a random sample stands for: 1 dirt, 2 cobblestone, 3
/// obsidian, anything else air.
pub open spec fn sampled_block(sample: u32) -> BlockID {
    if sample == 1 {
        BlockID::Dirt
    } else if sample == 2 {
        BlockID::Cobblestone
    } else if sample == 3 {
        BlockID::Obsidian
    } else {
        BlockID::Air
    }
}

pub fn block_from_sample(sample: u32) -> (r: BlockID)
    ensures
        r == sampled_block(sample),
        1 <= sample <= 3 ==> r.opaque(),
{
    match sample {
        1 => BlockID::Dirt,
        2 => BlockID::Cobblestone,
        3 => BlockID::Obsidian,
        _ => BlockID::Air,
    }
}

/// A texture array layer.
pub type TextureLayer = u32;

/// One layer per face, in face order: +X, -X, +Y, -Y, +Z, -Z.
pub type UVFaces = (TextureLayer, TextureLayer, TextureLayer, TextureLayer, TextureLayer, TextureLayer);

/// How a block kind is textured: one texture everywhere, sides with a
/// distinct top and bottom, or one texture per face.
#[derive(Clone, Copy)]
pub enum BlockFaces<T> {
    All(T),
    Sides { sides: T, top: T, bottom: T },
    Each { top: T, bottom: T, front: T, back: T, left: T, right: T },
}

pub open spec fn uv_of_every_face(faces: BlockFaces<TextureLayer>) -> UVFaces {
    match faces {
        BlockFaces::All(uv) => (uv, uv, uv, uv, uv, uv),
        BlockFaces::Sides { sides, top, bottom } => (sides, sides, top, bottom, sides, sides),
        BlockFaces::Each { top, bottom, front, back, left, right } => (
            front,
            back,
            top,
            bottom,
            left,
            right,
        ),
    }
}

/// Unpacks the texture description of a block into one layer per face.
pub fn get_uv_of_every_face(faces: BlockFaces<TextureLayer>) -> (r: UVFaces)
    ensures
        r == uv_of_every_face(faces),
{
    match faces {
        BlockFaces::All(uv) => (uv, uv, uv, uv, uv, uv),
        BlockFaces::Sides { sides, top, bottom } => (sides, sides, top, bottom, sides, sides),
        BlockFaces::Each { top, bottom, front, back, left, right } => (
            front,
            back,
            top,
            bottom,
            left,
            right,
        ),
    }
}

/// The layer of face `f` (0 to 5) in a per-face tuple.
pub open spec fn layer_of_face(uv: UVFaces, f: int) -> TextureLayer {
    if f == 0 {
        uv.0
    } else if f == 1 {
        uv.1
    } else if f == 2 {
        uv.2
    } else if f == 3 {
        uv.3
    } else if f == 4 {
        uv.4
    } else {
        uv.5
    }
}

pub fn face_layer(uv: UVFaces, f: usize) -> (r: TextureLayer)
    requires
        f < 6,
    ensures
        r == layer_of_face(uv, f as int),
{
    if f == 0 {
        uv.0
    } else if f == 1 {
        uv.1
    } else if f == 2 {
        uv.2
    } else if f == 3 {
        uv.3
    } else if f == 4 {
        uv.4
    } else {
        uv.5
    }
}

} // verus!
