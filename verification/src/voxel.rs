use vstd::prelude::*;

use crate::chunk::{ChunkPosition, CHUNK_SIZE, MAX_HEIGHT};

verus! {

/// X, Y and Z coordinate of a voxel within the world.
#[derive(Copy, Clone, Debug, Hash, PartialEq, Eq, Structural)]
pub struct VoxelPosition {
    pub x: i32,
    pub y: i32,
    pub z: i32,
}

impl VoxelPosition {
    pub fn new(x: i32, y: i32, z: i32) -> (r: Self)
        ensures
            r == (VoxelPosition { x, y, z }),
    {
        Self { x, y, z }
    }

    pub fn x(&self) -> (r: i32)
        ensures
            r == self.x,
    {
        self.x
    }

    pub fn y(&self) -> (r: i32)
        ensures
            r == self.y,
    {
        self.y
    }

    pub fn z(&self) -> (r: i32)
        ensures
            r == self.z,
    {
        self.z
    }
}

/// Position of a voxel within a chunk, within
/// `[0, CHUNK_SIZE) x [0, MAX_HEIGHT) x [0, CHUNK_SIZE)`.
#[derive(Copy, Clone, Debug, Hash, PartialEq, Eq, Structural)]
pub struct LocalVoxelPosition {
    pub x: u8,
    pub y: u32,
    pub z: u8,
}

impl LocalVoxelPosition {
    /// The bounds every chunk-local position satisfies.
    pub open spec fn wf(self) -> bool {
        self.x < CHUNK_SIZE && self.y < MAX_HEIGHT && self.z < CHUNK_SIZE
    }

    pub fn new(x: u32, y: u32, z: u32) -> (r: Self)
        requires
            x < CHUNK_SIZE,
            y < MAX_HEIGHT,
            z < CHUNK_SIZE,
        ensures
            r.wf(),
            r.x == x && r.y == y && r.z == z,
    {
        Self { x: x as u8, y, z: z as u8 }
    }

    pub fn x(&self) -> (r: u32)
        ensures
            r == self.x,
    {
        self.x as u32
    }

    pub fn y(&self) -> (r: u32)
        ensures
            r == self.y,
    {
        self.y
    }

    pub fn z(&self) -> (r: u32)
        ensures
            r == self.z,
    {
        self.z as u32
    }

    /// The coordinates of `position` relative to the chunk containing it.
    pub fn of_world(position: VoxelPosition) -> (r: Self)
        requires
            0 <= position.y < MAX_HEIGHT,
        ensures
            r.wf(),
            r.x == position.x - ChunkPosition::chunk_coord(position.x as int),
            r.y == position.y,
            r.z == position.z - ChunkPosition::chunk_coord(position.z as int),
    {
        proof {
            crate::chunk::lemma_chunk_coord_bounds(position.x as int);
            crate::chunk::lemma_chunk_coord_bounds(position.z as int);
        }
        let chunk_pos = ChunkPosition::of_voxel(position);
        let x = position.x() - chunk_pos.x();
        let y = position.y();
        let z = position.z() - chunk_pos.z();
        Self::new(x as u32, y as u32, z as u32)
    }
}

/// One cell of the world: a single voxel and its kind.
#[derive(Copy, Clone, Debug)]
pub struct Voxel {
    pub kind: VoxelKind,
}

impl PartialEq for Voxel {
    fn eq(&self, other: &Voxel) -> (r: bool) {
        self.kind.eq(&other.kind)
    }
}

impl vstd::std_specs::cmp::PartialEqSpecImpl for Voxel {
    open spec fn obeys_eq_spec() -> bool {
        true
    }

    open spec fn eq_spec(&self, other: &Voxel) -> bool {
        self.kind == other.kind
    }
}

impl Eq for Voxel {

}

impl Default for Voxel {
    fn default() -> (r: Self)
        ensures
            r.kind == VoxelKind::Air,
    {
        Voxel { kind: VoxelKind::Air }
    }
}

impl Voxel {
    pub fn air() -> (r: Self)
        ensures
            r.kind == VoxelKind::Air,
    {
        Voxel { kind: VoxelKind::Air }
    }

    /// Whether the mesher emits geometry for this voxel at all.
    pub fn should_mesh(&self) -> (r: bool)
        ensures
            r == (self.kind != VoxelKind::Air),
    {
        !matches!(self.kind, VoxelKind::Air)
    }

    pub fn kind(&self) -> (r: VoxelKind)
        ensures
            r == self.kind,
    {
        self.kind
    }

    pub fn clear(&mut self)
        ensures
            final(self).kind == VoxelKind::Air,
    {
        self.kind = VoxelKind::Air;
    }

    /// Whether a face of a neighbouring voxel behind this voxel may show through.
    pub fn transparent(&self) -> (r: bool)
        ensures
            r == self.kind.is_transparent(),
    {
        self.kind.transparent()
    }

    /// Whether this voxel darkens the corners of faces adjacent to it.
    pub fn casts_shadow(&self) -> (r: bool)
        ensures
            r == self.kind.spec_casts_shadow(),
    {
        self.kind.casts_shadow()
    }

    /// Whether the player collides with this voxel instead of passing through.
    pub fn has_collision(&self) -> (r: bool)
        ensures
            r == (self.kind != VoxelKind::Air && self.kind != VoxelKind::Water),
    {
        !matches!(self.kind, VoxelKind::Air | VoxelKind::Water)
    }
}

/// The closed set of materials a voxel can hold. `Air` stands for absence
/// and is kept apart from every solid kind in the stable byte encoding.
#[derive(Copy, Clone, Debug)]
pub enum VoxelKind {
    Air,
    Stone,
    Grass,
    Water,
    Snow,
    Dirt,
}

impl PartialEq for VoxelKind {
    fn eq(&self, other: &VoxelKind) -> (r: bool) {
        matches!(
            (self, other),
            (VoxelKind::Air, VoxelKind::Air)
            | (VoxelKind::Stone, VoxelKind::Stone)
            | (VoxelKind::Grass, VoxelKind::Grass)
            | (VoxelKind::Water, VoxelKind::Water)
            | (VoxelKind::Snow, VoxelKind::Snow)
            | (VoxelKind::Dirt, VoxelKind::Dirt)
        )
    }
}

impl vstd::std_specs::cmp::PartialEqSpecImpl for VoxelKind {
    open spec fn obeys_eq_spec() -> bool {
        true
    }

    open spec fn eq_spec(&self, other: &VoxelKind) -> bool {
        *self == *other
    }
}

impl Eq for VoxelKind {

}

impl Default for VoxelKind {
    fn default() -> (r: Self)
        ensures
            r == VoxelKind::Air,
    {
        VoxelKind::Air
    }
}

/// The stable one-byte encoding of each kind, the wire value of the save
/// format. `Air` encodes as the maximum byte so that no future solid kind
/// can ever collide with "absence".
pub open spec fn spec_kind_byte(k: VoxelKind) -> u8 {
    match k {
        VoxelKind::Air => 255,
        VoxelKind::Stone => 0,
        VoxelKind::Grass => 1,
        VoxelKind::Water => 2,
        VoxelKind::Snow => 3,
        VoxelKind::Dirt => 4,
    }
}

impl VoxelKind {
    pub fn to_byte(&self) -> (r: u8)
        ensures
            r == spec_kind_byte(*self),
    {
        match self {
            VoxelKind::Air => 255,
            VoxelKind::Stone => 0,
            VoxelKind::Grass => 1,
            VoxelKind::Water => 2,
            VoxelKind::Snow => 3,
            VoxelKind::Dirt => 4,
        }
    }

    /// Decode the stable byte encoding; an unrecognized byte decodes to `None`.
    pub fn from_byte(b: u8) -> (r: Option<VoxelKind>)
        ensures
            r == spec_byte_kind(b),
            match r {
                Some(k) => spec_kind_byte(k) == b,
                None => forall|k: VoxelKind| spec_kind_byte(k) != b,
            },
    {
        match b {
            255 => Some(VoxelKind::Air),
            0 => Some(VoxelKind::Stone),
            1 => Some(VoxelKind::Grass),
            2 => Some(VoxelKind::Water),
            3 => Some(VoxelKind::Snow),
            4 => Some(VoxelKind::Dirt),
            _ => None,
        }
    }

    pub open spec fn is_transparent(self) -> bool {
        self == VoxelKind::Air || self == VoxelKind::Water
    }

    /// Whether a face of a neighbouring voxel behind this voxel may show through.
    pub fn transparent(&self) -> (r: bool)
        ensures
            r == self.is_transparent(),
    {
        matches!(self, VoxelKind::Air | VoxelKind::Water)
    }

    pub open spec fn spec_casts_shadow(self) -> bool {
        !self.is_transparent()
    }

    /// Whether this kind darkens the corners of faces adjacent to it.
    pub fn casts_shadow(&self) -> (r: bool)
        ensures
            r == self.spec_casts_shadow(),
    {
        !matches!(self, VoxelKind::Air | VoxelKind::Water)
    }

    pub open spec fn spec_receives_shadow(self) -> bool {
        self != VoxelKind::Water
    }

    /// Whether ambient occlusion darkens faces of this material at all.
    pub fn receives_shadow(&self) -> (r: bool)
        ensures
            r == self.spec_receives_shadow(),
    {
        !matches!(self, VoxelKind::Water)
    }
}

/// The inverse of the stable byte encoding.
pub open spec fn spec_byte_kind(b: u8) -> Option<VoxelKind> {
    if b == 255 {
        Some(VoxelKind::Air)
    } else if b == 0 {
        Some(VoxelKind::Stone)
    } else if b == 1 {
        Some(VoxelKind::Grass)
    } else if b == 2 {
        Some(VoxelKind::Water)
    } else if b == 3 {
        Some(VoxelKind::Snow)
    } else if b == 4 {
        Some(VoxelKind::Dirt)
    } else {
        None
    }
}

/// Decoding inverts encoding: a kind written to a save file always reads
/// back as itself.
pub proof fn lemma_kind_byte_round_trip(k: VoxelKind)
    ensures
        spec_byte_kind(spec_kind_byte(k)) == Some(k),
{
}

/// The byte encoding never maps two kinds to one byte, so a save file can
/// always be decoded back to exactly the kind that produced it.
pub proof fn lemma_kind_byte_injective(a: VoxelKind, b: VoxelKind)
    ensures
        spec_kind_byte(a) == spec_kind_byte(b) ==> a == b,
{
}

} // verus!
