use vstd::prelude::*;

use crate::octree::{
    chunk_value, covering_leaf, covers, enabled_octants, in_cube, is_pow2,
    lemma_enabled_leaves_unique, lemma_enabled_octants_complete, lemma_enabled_octants_sub,
    lemma_leaf_unique, octant_within, Octant, OctantPos, Octree,
};
use crate::voxel::{LocalVoxelPosition, Voxel, VoxelKind, VoxelPosition};

verus! {

/// Side length of a chunk in voxels along the x and z axes.
pub const CHUNK_SIZE: usize = 16;

pub const CHUNK_SIZE_I: i32 = 16;

/// Total world height in voxels; chunks span the full height.
pub const MAX_HEIGHT: usize = 256;

/// X and Z position of a chunk. Always multiples of [`CHUNK_SIZE`].
#[derive(Default, Debug, Clone, Copy, Hash, PartialEq, Eq, Structural)]
pub struct ChunkPosition {
    pub x: i32,
    pub z: i32,
}

impl ChunkPosition {
    /// Both coordinates sit on the chunk grid.
    pub open spec fn wf(self) -> bool {
        self.x as int % 16 == 0 && self.z as int % 16 == 0
    }

    /// The grid coordinate of the chunk containing world coordinate `c`:
    /// `c` rounded toward negative infinity to a multiple of 16.
    pub open spec fn chunk_coord(c: int) -> int {
        c - c % 16
    }

    pub fn new(x: i32, z: i32) -> (r: Self)
        requires
            x as int % 16 == 0,
            z as int % 16 == 0,
        ensures
            r == (ChunkPosition { x, z }),
            r.wf(),
    {
        Self { x, z }
    }

    pub fn x(&self) -> (r: i32)
        ensures
            r == self.x,
    {
        self.x
    }

    pub fn z(&self) -> (r: i32)
        ensures
            r == self.z,
    {
        self.z
    }

    /// The chunk containing `voxel`, rounding toward negative infinity so
    /// that negative coordinates land in the right chunk.
    pub fn of_voxel(voxel: VoxelPosition) -> (r: Self)
        ensures
            r.x == Self::chunk_coord(voxel.x as int),
            r.z == Self::chunk_coord(voxel.z as int),
            r.wf(),
    {
        let mx = voxel.x().checked_rem_euclid(16).unwrap();
        let mz = voxel.z().checked_rem_euclid(16).unwrap();
        proof {
            lemma_chunk_coord_bounds(voxel.x as int);
            lemma_chunk_coord_bounds(voxel.z as int);
        }
        Self { x: voxel.x() - mx, z: voxel.z() - mz }
    }

    /// The world position of the chunk-local position `rhs` inside this chunk.
    pub fn add_local(&self, rhs: LocalVoxelPosition) -> (r: VoxelPosition)
        requires
            rhs.wf(),
            self.x + rhs.x <= i32::MAX,
            self.z + rhs.z <= i32::MAX,
        ensures
            r.x == self.x + rhs.x,
            r.y == rhs.y,
            r.z == self.z + rhs.z,
    {
        VoxelPosition::new(self.x + rhs.x() as i32, rhs.y() as i32, self.z + rhs.z() as i32)
    }

    /// Offset this chunk by a whole number of chunks along x and z.
    pub fn offset(&self, dx: i32, dz: i32) -> (r: Self)
        requires
            self.wf(),
            dx as int % 16 == 0,
            dz as int % 16 == 0,
            i32::MIN <= self.x + dx <= i32::MAX,
            i32::MIN <= self.z + dz <= i32::MAX,
        ensures
            r.x == self.x + dx,
            r.z == self.z + dz,
            r.wf(),
    {
        Self { x: self.x + dx, z: self.z + dz }
    }

    /// The 4 chunks adjacent to this one along the cardinal directions.
    pub fn neighbouring_chunks(&self) -> (r: NeighbouringChunks)
        requires
            self.wf(),
            i32::MIN <= self.x - 16,
            self.x + 16 <= i32::MAX,
            i32::MIN <= self.z - 16,
            self.z + 16 <= i32::MAX,
        ensures
            r.neg_x == (ChunkPosition { x: (self.x - 16) as i32, z: self.z }),
            r.x == (ChunkPosition { x: (self.x + 16) as i32, z: self.z }),
            r.neg_z == (ChunkPosition { x: self.x, z: (self.z - 16) as i32 }),
            r.z == (ChunkPosition { x: self.x, z: (self.z + 16) as i32 }),
            r.neg_x.wf() && r.x.wf() && r.neg_z.wf() && r.z.wf(),
    {
        NeighbouringChunks {
            neg_x: Self { x: self.x - 16, z: self.z },
            x: Self { x: self.x + 16, z: self.z },
            neg_z: Self { x: self.x, z: self.z - 16 },
            z: Self { x: self.x, z: self.z + 16 },
        }
    }

    /// Chebyshev-style distance from the world origin used to decide which
    /// chunks are meshed synchronously.
    pub fn spawn_distance(&self) -> (r: usize)
        requires
            self.x != i32::MIN,
            self.z != i32::MIN,
        ensures
            r == vstd::math::max(vstd::math::abs(self.x as int) as int, vstd::math::abs(
                self.z as int,
            ) as int),
    {
        let ax: i32 = if self.x < 0 {
            -self.x
        } else {
            self.x
        };
        let az: i32 = if self.z < 0 {
            -self.z
        } else {
            self.z
        };
        let m: i32 = if ax >= az {
            ax
        } else {
            az
        };
        m as usize
    }

    pub fn in_range_of_spawn(&self, range: usize) -> (r: bool)
        requires
            range <= i32::MAX,
        ensures
            r == (self.x <= range && self.z <= range),
    {
        self.x <= range as i32 && self.z <= range as i32
    }
}

/// Rounding a coordinate down to the chunk grid moves it back by less than
/// one chunk and never overflows `i32`.
pub proof fn lemma_chunk_coord_bounds(c: int)
    requires
        i32::MIN <= c <= i32::MAX,
    ensures
        ChunkPosition::chunk_coord(c) % 16 == 0,
        0 <= c - ChunkPosition::chunk_coord(c) < 16,
        i32::MIN <= ChunkPosition::chunk_coord(c) <= c,
{
    vstd::arithmetic::div_mod::lemma_fundamental_div_mod(c, 16);
    vstd::arithmetic::div_mod::lemma_mod_bound(c, 16);
    assert((c - c % 16) % 16 == 0) by {
        vstd::arithmetic::div_mod::lemma_mod_multiples_vanish(c / 16, 0, 16);
    }
}

/// Coordinate round-trip: the chunk-grid part and the chunk-local part of a
/// voxel coordinate recombine to the original coordinate, and the local part
/// always lies within the chunk, negative coordinates included.
pub proof fn lemma_coordinate_round_trip(v: VoxelPosition)
    ensures
        ChunkPosition::chunk_coord(v.x as int) + (v.x - ChunkPosition::chunk_coord(
            v.x as int,
        )) == v.x,
        ChunkPosition::chunk_coord(v.z as int) + (v.z - ChunkPosition::chunk_coord(
            v.z as int,
        )) == v.z,
        0 <= v.x - ChunkPosition::chunk_coord(v.x as int) < CHUNK_SIZE,
        0 <= v.z - ChunkPosition::chunk_coord(v.z as int) < CHUNK_SIZE,
{
    lemma_chunk_coord_bounds(v.x as int);
    lemma_chunk_coord_bounds(v.z as int);
}

/// Chunk-local coordinates lie within the chunk's bounds.
pub open spec fn local_in_range(x: int, y: int, z: int) -> bool {
    0 <= x < CHUNK_SIZE && 0 <= y < MAX_HEIGHT && 0 <= z < CHUNK_SIZE
}

/// Division and remainder by 16 stay in range and recombine, for the world
/// heights a chunk spans.
proof fn lemma_slab_split(qy: int)
    by (nonlinear_arith)
    requires
        0 <= qy < 256,
    ensures
        0 <= qy / 16 < 16,
        0 <= qy % 16 < 16,
        16 * (qy / 16) + qy % 16 == qy,
{
}

/// Lexicographic point order agrees with the flattened index order, for a
/// grid with extents `dy` and `dz` in the two minor dimensions.
proof fn lemma_grid_index(
    dy: int,
    dz: int,
    px: int,
    py: int,
    pz: int,
    x: int,
    y: int,
    z: int,
)
    by (nonlinear_arith)
    requires
        dy > 0,
        dz > 0,
        0 <= px,
        0 <= py < dy,
        0 <= pz < dz,
        0 <= x,
        0 <= y <= dy,
        0 <= z <= dz,
        px < x || (px == x && py < y) || (px == x && py == y && pz < z),
    ensures
        0 <= (px * dy + py) * dz + pz,
        (px * dy + py) * dz + pz < (x * dy + y) * dz + z,
        (px * dy + py) * dz + pz < x * dy * dz + y * dz + z,
        (x * dy + y) * dz + z == x * dy * dz + y * dz + z,
{
}

/// An octant of one slab, lifted by the slab's vertical offset into
/// chunk-local coordinates.
pub open spec fn lift_octant(o: Octant<Voxel>, s: int) -> Octant<Voxel> {
    Octant {
        kind: o.kind,
        position: OctantPos(o.position.0, (o.position.1 + 16 * s) as usize, o.position.2),
        size: o.size,
        enabled: o.enabled,
    }
}

/// Slab `s`'s enabled octants, lifted to chunk-local coordinates.
pub open spec fn slab_octants(c: ChunkVoxels, s: int) -> Seq<Octant<Voxel>> {
    enabled_octants(c.voxels@[s].octants@).map_values(|o: Octant<Voxel>| lift_octant(o, s))
}

/// The enabled octants of the first `s` slabs, slab by slab.
pub open spec fn chunk_octants_upto(c: ChunkVoxels, s: int) -> Seq<Octant<Voxel>>
    decreases s,
{
    if s <= 0 {
        Seq::empty()
    } else {
        chunk_octants_upto(c, s - 1) + slab_octants(c, s - 1)
    }
}

/// Every enabled octant of the chunk's sixteen slabs, in slab order, lifted
/// by each slab's vertical offset: the exact sequence `iter_octants` yields.
pub open spec fn chunk_octants(c: ChunkVoxels) -> Seq<Octant<Voxel>> {
    chunk_octants_upto(c, 16)
}

/// Slab entry (s, j) appears in the chunk-octant sequence at the offset of
/// the earlier slabs.
proof fn lemma_chunk_octants_compose(c: ChunkVoxels, t: int, s: int, j: int)
    requires
        0 <= s < t,
        0 <= j < slab_octants(c, s).len(),
    ensures
        chunk_octants_upto(c, t).len() > chunk_octants_upto(c, s).len() + j,
        chunk_octants_upto(c, t)[chunk_octants_upto(c, s).len() + j] == slab_octants(c, s)[j],
    decreases t,
{
    if s < t - 1 {
        lemma_chunk_octants_compose(c, t - 1, s, j);
    }
}

/// Each chunk-octant entry is slab entry (s, j) at the offset of the
/// earlier slabs.
proof fn lemma_chunk_octants_decompose(c: ChunkVoxels, t: int, n: int)
    requires
        0 <= n < chunk_octants_upto(c, t).len(),
        0 <= t,
    ensures
        exists|s: int, j: int|
            0 <= s < t && 0 <= j < slab_octants(c, s).len() && n == chunk_octants_upto(
                c,
                s,
            ).len() + j && chunk_octants_upto(c, t)[n] == #[trigger] slab_octants(c, s)[j],
    decreases t,
{
    if t > 0 {
        let prev = chunk_octants_upto(c, t - 1);
        if n < prev.len() {
            lemma_chunk_octants_decompose(c, t - 1, n);
            let (s, j) = choose|s: int, j: int|
                0 <= s < t - 1 && 0 <= j < slab_octants(c, s).len() && n == chunk_octants_upto(
                    c,
                    s,
                ).len() + j && prev[n] == #[trigger] slab_octants(c, s)[j];
            assert(chunk_octants_upto(c, t)[n] == prev[n]);
            assert(0 <= s < t && 0 <= j < slab_octants(c, s).len() && n == chunk_octants_upto(
                c,
                s,
            ).len() + j && chunk_octants_upto(c, t)[n] == slab_octants(c, s)[j]);
        } else {
            let s = t - 1;
            let j = n - prev.len();
            assert(chunk_octants_upto(c, t)[n] == slab_octants(c, s)[j]);
        }
    }
}

/// Every entry of a slab's lifted octants is enabled, sized within the
/// slab, and sits in the slab's vertical band.
proof fn lemma_slab_entry_band(c: ChunkVoxels, s: int, j: int)
    requires
        c.wf(),
        0 <= s < 16,
        0 <= j < slab_octants(c, s).len(),
    ensures
        ({
            let e = slab_octants(c, s)[j];
            let u = enabled_octants(c.voxels@[s].octants@)[j];
            &&& e.enabled
            &&& 1 <= e.size <= 16
            &&& e.position.0 + e.size <= 16
            &&& 16 * s <= e.position.1
            &&& e.position.1 + e.size <= 16 * s + 16
            &&& e.position.2 + e.size <= 16
            &&& e.kind == u.kind
            &&& e.size == u.size
            &&& e.position.0 == u.position.0
            &&& e.position.1 == u.position.1 + 16 * s
            &&& e.position.2 == u.position.2
        }),
{
    let octs = c.voxels@[s].octants@;
    lemma_enabled_octants_sub(octs);
    let f = enabled_octants(octs);
    assert(octs.contains(f[j]));
    let i = choose|i: int| 0 <= i < octs.len() && octs[i] == f[j];
    assert(octant_within(octs[i], 16));
    assert(is_pow2(octs[i].size as int));
    assert(slab_octants(c, s)[j] == lift_octant(f[j], s));
}

/// A vertical stack of octrees, one per 16-voxel-tall slab, covering the
/// full world height of one chunk; slab `s` covers `y` in `[16 s, 16 s + 16)`.
#[derive(Debug, Clone)]
pub struct ChunkVoxels {
    pub voxels: Vec<Octree<CHUNK_SIZE, Voxel>>,
}

impl ChunkVoxels {
    /// Sixteen well-formed slab octrees.
    pub open spec fn wf(self) -> bool {
        &&& self.voxels@.len() == 16
        &&& forall|s: int| 0 <= s < 16 ==> (#[trigger] self.voxels@[s]).wf()
    }

    /// The voxel this chunk holds at a local position.
    pub open spec fn spec_voxel(self, x: int, y: int, z: int) -> Voxel {
        self.voxels@[y / 16].spec_at(x, y % 16, z)
    }

    /// A chunk filled with `Air`: sixteen slab octrees, each a single
    /// uniform leaf.
    pub fn new() -> (r: Self)
        ensures
            r.wf(),
            forall|s: int|
                0 <= s < 16 ==> (#[trigger] r.voxels@[s]).octants@.len() == 1
                    && r.voxels@[s].octants@[0].kind is Chunk,
            forall|x: int, y: int, z: int|
                #[trigger] local_in_range(x, y, z) ==> r.spec_voxel(x, y, z).kind
                    == VoxelKind::Air,
    {
        proof {
            reveal_with_fuel(is_pow2, 5);
            assert(is_pow2(CHUNK_SIZE as int));
        }
        let mut voxels: Vec<Octree<CHUNK_SIZE, Voxel>> = Vec::new();
        let mut s: usize = 0;
        while s < 16
            invariant
                is_pow2(CHUNK_SIZE as int),
                s <= 16,
                voxels@.len() == s,
                forall|i: int|
                    0 <= i < s ==> (#[trigger] voxels@[i]).wf() && voxels@[i].octants@.len() == 1
                        && voxels@[i].octants@[0].kind is Chunk && forall|x: int, y: int, z: int|
                        in_cube(CHUNK_SIZE as int, x, y, z) ==> voxels@[i].spec_at(x, y, z).kind
                            == VoxelKind::Air,
            decreases 16 - s,
        {
            voxels.push(Octree::new_filled(Voxel::air()));
            s += 1;
        }
        let r = Self { voxels };
        proof {
            assert forall|x: int, y: int, z: int| #[trigger]
                local_in_range(x, y, z) implies r.spec_voxel(x, y, z).kind == VoxelKind::Air by {
                lemma_slab_split(y);
                assert(in_cube(CHUNK_SIZE as int, x, y % 16, z));
            }
        }
        r
    }

    pub fn voxel(&self, position: LocalVoxelPosition) -> (r: &Voxel)
        requires
            self.wf(),
            position.wf(),
        ensures
            *r == self.spec_voxel(position.x as int, position.y as int, position.z as int),
    {
        proof {
            lemma_slab_split(position.y as int);
        }
        let idx = (position.y() / 16) as usize;
        let opos = OctantPos::new_u32(position.x(), position.y() % 16, position.z());
        self.voxels[idx].get(opos)
    }

    /// A mutable reference to the voxel at a local position, splitting the
    /// containing slab octree down to a unit leaf as needed.
    pub fn voxel_mut(&mut self, position: LocalVoxelPosition) -> (r: &mut Voxel)
        requires
            old(self).wf(),
            position.wf(),
        ensures
            *r == old(self).spec_voxel(position.x as int, position.y as int, position.z as int),
            final(self).wf(),
            forall|x: int, y: int, z: int|
                #[trigger] local_in_range(x, y, z) ==> final(self).spec_voxel(x, y, z) == (if x
                    == position.x && y == position.y && z == position.z {
                    *final(r)
                } else {
                    old(self).spec_voxel(x, y, z)
                }),
    {
        proof {
            lemma_slab_split(position.y as int);
            assert forall|qy: int| 0 <= qy < 256 implies 0 <= #[trigger] (qy / 16) < 16 && 0 <= qy
                % 16 < 16 && 16 * (qy / 16) + qy % 16 == qy by {
                lemma_slab_split(qy);
            }
        }
        let idx = (position.y() / 16) as usize;
        let opos = OctantPos::new_u32(position.x(), position.y() % 16, position.z());
        self.voxels[idx].get_mut(opos)
    }

    /// Every octant of every slab, skipping orphaned entries, with the
    /// slab's vertical offset applied to its position: exactly the sequence
    /// `chunk_octants(self)`. Each entry holding a value is a homogeneous
    /// region — all its points hold that value in this chunk — and together
    /// the value-holding entries cover every local point exactly once: the
    /// "meshable octant" partition the mesher walks.
    pub fn iter_octants(&self) -> (r: Vec<Octant<Voxel>>)
        requires
            self.wf(),
        ensures
            r@ == chunk_octants(*self),
            forall|n: int|
                0 <= n < r@.len() ==> {
                    let o = #[trigger] r@[n];
                    &&& o.enabled
                    &&& 1 <= o.size <= CHUNK_SIZE
                    &&& o.position.0 + o.size <= CHUNK_SIZE
                    &&& o.position.1 + o.size <= MAX_HEIGHT
                    &&& o.position.2 + o.size <= CHUNK_SIZE
                    &&& (o.kind is Chunk ==> forall|x: int, y: int, z: int|
                        #[trigger] covers(o, x, y, z) ==> local_in_range(x, y, z)
                            && self.spec_voxel(x, y, z) == chunk_value(o))
                },
            forall|x: int, y: int, z: int|
                #[trigger] local_in_range(x, y, z) ==> exists|n: int|
                    0 <= n < r@.len() && (#[trigger] r@[n]).kind is Chunk && covers(
                        r@[n],
                        x,
                        y,
                        z,
                    ),
            forall|n1: int, n2: int, x: int, y: int, z: int|
                #![trigger covers(r@[n1], x, y, z), covers(r@[n2], x, y, z)]
                0 <= n1 < r@.len() && 0 <= n2 < r@.len() && local_in_range(x, y, z)
                    && r@[n1].kind is Chunk && r@[n2].kind is Chunk && covers(r@[n1], x, y, z)
                    && covers(r@[n2], x, y, z) ==> n1 == n2,
    {
        let mut r: Vec<Octant<Voxel>> = Vec::new();
        let mut s: usize = 0;
        while s < 16
            invariant
                self.wf(),
                s <= 16,
                r@ == chunk_octants_upto(*self, s as int),
                forall|n: int|
                    0 <= n < r@.len() ==> {
                        let o = #[trigger] r@[n];
                        &&& o.enabled
                        &&& 1 <= o.size <= CHUNK_SIZE
                        &&& o.position.0 + o.size <= CHUNK_SIZE
                        &&& o.position.1 + o.size <= MAX_HEIGHT
                        &&& o.position.2 + o.size <= CHUNK_SIZE
                        &&& (o.kind is Chunk ==> forall|x: int, y: int, z: int|
                            #[trigger] covers(o, x, y, z) ==> local_in_range(x, y, z)
                                && self.spec_voxel(x, y, z) == chunk_value(o))
                    },
            decreases 16 - s,
        {
            let slab = self.voxels[s].iter_octants();
            proof {
                lemma_enabled_octants_sub(self.voxels@[s as int].octants@);
            }
            let mut j: usize = 0;
            while j < slab.len()
                invariant
                    self.wf(),
                    s < 16,
                    j <= slab.len(),
                    slab@ == enabled_octants(self.voxels@[s as int].octants@),
                    r@ == chunk_octants_upto(*self, s as int) + slab_octants(
                        *self,
                        s as int,
                    ).take(j as int),
                    forall|m: int|
                        0 <= m < slab@.len() ==> (#[trigger] slab@[m]).enabled
                            && self.voxels@[s as int].octants@.contains(slab@[m]),
                    forall|n: int|
                        0 <= n < r@.len() ==> {
                            let o = #[trigger] r@[n];
                            &&& o.enabled
                            &&& 1 <= o.size <= CHUNK_SIZE
                            &&& o.position.0 + o.size <= CHUNK_SIZE
                            &&& o.position.1 + o.size <= MAX_HEIGHT
                            &&& o.position.2 + o.size <= CHUNK_SIZE
                            &&& (o.kind is Chunk ==> forall|x: int, y: int, z: int|
                                #[trigger] covers(o, x, y, z) ==> local_in_range(x, y, z)
                                    && self.spec_voxel(x, y, z) == chunk_value(o))
                        },
                decreases slab.len() - j,
            {
                let o = slab[j];
                let ghost tree = self.voxels@[s as int];
                proof {
                    let m = choose|m: int|
                        0 <= m < tree.octants@.len() && tree.octants@[m] == slab@[j as int];
                    assert(octant_within(tree.octants@[m], CHUNK_SIZE as int));
                    assert(is_pow2(tree.octants@[m].size as int));
                    assert(o.size >= 1);
                }
                let lifted = Octant {
                    kind: o.kind,
                    position: OctantPos(o.position.0, o.position.1 + s * 16, o.position.2),
                    size: o.size,
                    enabled: o.enabled,
                };
                proof {
                    let m = choose|m: int|
                        0 <= m < tree.octants@.len() && tree.octants@[m] == slab@[j as int];
                    assert(lifted == lift_octant(slab@[j as int], s as int));
                    assert(lifted == slab_octants(*self, s as int)[j as int]);
                    assert(slab_octants(*self, s as int).take(j + 1) == slab_octants(
                        *self,
                        s as int,
                    ).take(j as int).push(lifted));
                    if lifted.kind is Chunk {
                        assert forall|x: int, y: int, z: int| #[trigger]
                            covers(lifted, x, y, z) implies local_in_range(x, y, z)
                            && self.spec_voxel(x, y, z) == chunk_value(lifted) by {
                            let ly = y - 16 * (s as int);
                            assert(covers(o, x, ly, z));
                            assert(0 <= ly < 16);
                            assert(y / 16 == s as int && y % 16 == ly) by (nonlinear_arith)
                                requires
                                    0 <= ly < 16,
                                    y == 16 * (s as int) + ly,
                                    0 <= s < 16,
                            ;
                            assert(covering_leaf(tree.octants@, m, x, ly, z));
                            lemma_leaf_unique(tree.octants@, CHUNK_SIZE as int, m, x, ly, z);
                        }
                    }
                }
                r.push(lifted);
                j += 1;
            }
            proof {
                assert(slab_octants(*self, s as int).take(slab@.len() as int) == slab_octants(
                    *self,
                    s as int,
                ));
                assert(r@ == chunk_octants_upto(*self, s + 1));
            }
            s += 1;
        }
        proof {
            // every local point lies in exactly one homogeneous entry: the
            // slab trees partition their bands, and the bands tile the chunk
            assert forall|x: int, y: int, z: int| #[trigger]
                local_in_range(x, y, z) implies exists|n: int|
                0 <= n < r@.len() && (#[trigger] r@[n]).kind is Chunk && covers(
                    r@[n],
                    x,
                    y,
                    z,
                ) by {
                lemma_slab_split(y);
                let sl = y / 16;
                let ly = y % 16;
                let octs = self.voxels@[sl].octants@;
                assert(in_cube(CHUNK_SIZE as int, x, ly, z));
                let i = choose|i: int| covering_leaf(octs, i, x, ly, z);
                lemma_enabled_octants_complete(octs, i);
                let f = enabled_octants(octs);
                let j = choose|j: int| 0 <= j < f.len() && f[j] == octs[i];
                lemma_chunk_octants_compose(*self, 16, sl, j);
                let n = chunk_octants_upto(*self, sl).len() + j;
                assert(octant_within(octs[i], 16));
                assert(r@[n] == lift_octant(octs[i], sl));
                assert(covers(r@[n], x, y, z));
            }
            assert forall|n1: int, n2: int, x: int, y: int, z: int|
                #![trigger covers(r@[n1], x, y, z), covers(r@[n2], x, y, z)]
                0 <= n1 < r@.len() && 0 <= n2 < r@.len() && local_in_range(x, y, z)
                    && r@[n1].kind is Chunk && r@[n2].kind is Chunk && covers(r@[n1], x, y, z)
                    && covers(r@[n2], x, y, z) implies n1 == n2 by {
                lemma_slab_split(y);
                lemma_chunk_octants_decompose(*self, 16, n1);
                lemma_chunk_octants_decompose(*self, 16, n2);
                let (s1, j1) = choose|s1: int, j1: int|
                    0 <= s1 < 16 && 0 <= j1 < slab_octants(*self, s1).len() && n1
                        == chunk_octants_upto(*self, s1).len() + j1 && chunk_octants_upto(
                        *self,
                        16,
                    )[n1] == #[trigger] slab_octants(*self, s1)[j1];
                let (s2, j2) = choose|s2: int, j2: int|
                    0 <= s2 < 16 && 0 <= j2 < slab_octants(*self, s2).len() && n2
                        == chunk_octants_upto(*self, s2).len() + j2 && chunk_octants_upto(
                        *self,
                        16,
                    )[n2] == #[trigger] slab_octants(*self, s2)[j2];
                lemma_slab_entry_band(*self, s1, j1);
                lemma_slab_entry_band(*self, s2, j2);
                // both entries contain y, so they sit in the same band
                assert(16 * s1 <= y < 16 * s1 + 16 && 16 * s2 <= y < 16 * s2 + 16);
                assert(s1 == s2);
                let octs = self.voxels@[s1].octants@;
                let f = enabled_octants(octs);
                let ly = y - 16 * s1;
                assert(covers(f[j1], x, ly, z) && covers(f[j2], x, ly, z));
                lemma_enabled_leaves_unique(octs, CHUNK_SIZE as int, j1, j2, x, ly, z);
            }
        }
        r
    }

    /// Every voxel with its local position, one entry per point, in
    /// lexicographic x, y, z order.
    pub fn iter_local_pos(&self) -> (r: Vec<(LocalVoxelPosition, Voxel)>)
        requires
            self.wf(),
        ensures
            r@.len() == 16 * 256 * 16,
            forall|n: int| 0 <= n < r@.len() ==> (#[trigger] r@[n]).0.wf(),
            forall|x: int, y: int, z: int|
                #[trigger] local_in_range(x, y, z) ==> r@[(x * 256 + y) * 16 + z] == (
                LocalVoxelPosition { x: x as u8, y: y as u32, z: z as u8 },
                self.spec_voxel(x, y, z),
            ),
    {
        let mut r: Vec<(LocalVoxelPosition, Voxel)> = Vec::new();
        let mut x: usize = 0;
        while x < 16
            invariant
                self.wf(),
                x <= 16,
                r@.len() == x * 256 * 16,
                forall|n: int| 0 <= n < r@.len() ==> (#[trigger] r@[n]).0.wf(),
                forall|px: int, py: int, pz: int|
                    #[trigger] local_in_range(px, py, pz) && px < x ==> r@[(px * 256 + py) * 16
                        + pz] == (LocalVoxelPosition { x: px as u8, y: py as u32, z: pz as u8 },
                    self.spec_voxel(px, py, pz)),
            decreases 16 - x,
        {
            let mut y: usize = 0;
            while y < 256
                invariant
                    self.wf(),
                    x < 16,
                    y <= 256,
                    r@.len() == x * 256 * 16 + y * 16,
                    forall|n: int| 0 <= n < r@.len() ==> (#[trigger] r@[n]).0.wf(),
                    forall|px: int, py: int, pz: int|
                        #[trigger] local_in_range(px, py, pz) && (px < x || (px == x && py < y))
                            ==> r@[(px * 256 + py) * 16 + pz] == (LocalVoxelPosition {
                            x: px as u8,
                            y: py as u32,
                            z: pz as u8,
                        }, self.spec_voxel(px, py, pz)),
                decreases 256 - y,
            {
                let mut z: usize = 0;
                while z < 16
                    invariant
                        self.wf(),
                        x < 16,
                        y < 256,
                        z <= 16,
                        r@.len() == x * 256 * 16 + y * 16 + z,
                        forall|n: int| 0 <= n < r@.len() ==> (#[trigger] r@[n]).0.wf(),
                        forall|px: int, py: int, pz: int|
                            #[trigger] local_in_range(px, py, pz) && (px < x || (px == x && (py < y
                                || (py == y && pz < z)))) ==> r@[(px * 256 + py) * 16 + pz] == (
                            LocalVoxelPosition { x: px as u8, y: py as u32, z: pz as u8 },
                            self.spec_voxel(px, py, pz)),
                    decreases 16 - z,
                {
                    let lvp = LocalVoxelPosition::new(x as u32, y as u32, z as u32);
                    let v = *self.voxel(lvp);
                    proof {
                        assert((x * 256 + y) * 16 + z == x * 256 * 16 + y * 16
                            + z) by (nonlinear_arith);
                    }
                    r.push((lvp, v));
                    proof {
                        let (xi, yi, zi) = (x as int, y as int, z as int);
                        assert forall|px: int, py: int, pz: int|
                            #[trigger] local_in_range(px, py, pz) && (px < xi || (px == xi && (py
                                < yi || (py == yi && pz <= zi)))) implies r@[(px * 256 + py) * 16
                            + pz] == (LocalVoxelPosition { x: px as u8, y: py as u32, z: pz as u8 },
                        self.spec_voxel(px, py, pz)) by {
                            if !(px == xi && py == yi && pz == zi) {
                                lemma_grid_index(256, 16, px, py, pz, xi, yi, zi);
                            }
                        }
                    }
                    z += 1;
                }
                proof {
                    assert(x * 256 * 16 + y * 16 + 16 == x * 256 * 16 + (y + 1)
                        * 16) by (nonlinear_arith);
                }
                y += 1;
            }
            proof {
                assert(x * 256 * 16 + 256 * 16 == (x + 1) * 256 * 16) by (nonlinear_arith);
            }
            x += 1;
        }
        r
    }

    /// Every voxel with its local index as a tuple, in the same order as
    /// [`Self::iter_local_pos`].
    pub fn iter(&self) -> (r: Vec<((usize, usize, usize), Voxel)>)
        requires
            self.wf(),
        ensures
            r@.len() == 16 * 256 * 16,
            forall|x: int, y: int, z: int|
                #[trigger] local_in_range(x, y, z) ==> r@[(x * 256 + y) * 16 + z] == (
                (x as usize, y as usize, z as usize),
                self.spec_voxel(x, y, z),
            ),
    {
        let entries = self.iter_local_pos();
        let mut r: Vec<((usize, usize, usize), Voxel)> = Vec::new();
        let mut i: usize = 0;
        while i < entries.len()
            invariant
                entries@.len() == 16 * 256 * 16,
                i <= entries@.len(),
                r@.len() == i,
                forall|n: int| 0 <= n < entries@.len() ==> (#[trigger] entries@[n]).0.wf(),
                forall|n: int|
                    0 <= n < i ==> r@[n] == {
                        let (p, v) = #[trigger] entries@[n];
                        ((p.x as usize, p.y as usize, p.z as usize), v)
                    },
                forall|x: int, y: int, z: int|
                    #[trigger] local_in_range(x, y, z) ==> entries@[(x * 256 + y) * 16 + z] == (
                    LocalVoxelPosition { x: x as u8, y: y as u32, z: z as u8 },
                    self.spec_voxel(x, y, z),
                ),
            decreases entries.len() - i,
        {
            let (p, v) = entries[i];
            r.push(((p.x() as usize, p.y() as usize, p.z() as usize), v));
            i += 1;
        }
        proof {
            assert forall|x: int, y: int, z: int| #[trigger]
                local_in_range(x, y, z) implies r@[(x * 256 + y) * 16 + z] == (
            (x as usize, y as usize, z as usize),
            self.spec_voxel(x, y, z),
            ) by {
                lemma_grid_index(256, 16, x, y, z, 16, 0, 0);
            }
        }
        r
    }

    /// Every voxel with its world position, given the chunk's own position.
    pub fn iter_world_pos(&self, chunk_pos: ChunkPosition) -> (r: Vec<(VoxelPosition, Voxel)>)
        requires
            self.wf(),
            chunk_pos.x + 16 <= i32::MAX,
            chunk_pos.z + 16 <= i32::MAX,
        ensures
            r@.len() == 16 * 256 * 16,
            forall|x: int, y: int, z: int|
                #[trigger] local_in_range(x, y, z) ==> r@[(x * 256 + y) * 16 + z] == (
                VoxelPosition {
                    x: (chunk_pos.x + x) as i32,
                    y: y as i32,
                    z: (chunk_pos.z + z) as i32,
                },
                self.spec_voxel(x, y, z),
            ),
    {
        let entries = self.iter_local_pos();
        let mut r: Vec<(VoxelPosition, Voxel)> = Vec::new();
        let mut i: usize = 0;
        while i < entries.len()
            invariant
                self.wf(),
                chunk_pos.x + 16 <= i32::MAX,
                chunk_pos.z + 16 <= i32::MAX,
                entries@.len() == 16 * 256 * 16,
                i <= entries@.len(),
                r@.len() == i,
                forall|n: int| 0 <= n < entries@.len() ==> (#[trigger] entries@[n]).0.wf(),
                forall|n: int|
                    0 <= n < i ==> r@[n] == {
                        let (p, v) = #[trigger] entries@[n];
                        (VoxelPosition {
                            x: (chunk_pos.x + p.x) as i32,
                            y: p.y as i32,
                            z: (chunk_pos.z + p.z) as i32,
                        }, v)
                    },
                forall|x: int, y: int, z: int|
                    #[trigger] local_in_range(x, y, z) ==> entries@[(x * 256 + y) * 16 + z] == (
                    LocalVoxelPosition { x: x as u8, y: y as u32, z: z as u8 },
                    self.spec_voxel(x, y, z),
                ),
            decreases entries.len() - i,
        {
            let (p, v) = entries[i];
            let wp = VoxelPosition::new(
                chunk_pos.x() + p.x() as i32,
                p.y() as i32,
                chunk_pos.z() + p.z() as i32,
            );
            r.push((wp, v));
            i += 1;
        }
        proof {
            assert forall|x: int, y: int, z: int| #[trigger]
                local_in_range(x, y, z) implies r@[(x * 256 + y) * 16 + z] == (
            VoxelPosition { x: (chunk_pos.x + x) as i32, y: y as i32, z: (chunk_pos.z + z) as i32 },
            self.spec_voxel(x, y, z),
            ) by {
                lemma_grid_index(256, 16, x, y, z, 16, 0, 0);
            }
        }
        r
    }
}

/// The 4 chunks bordering a given chunk.
pub struct NeighbouringChunks {
    pub neg_x: ChunkPosition,
    pub x: ChunkPosition,
    pub neg_z: ChunkPosition,
    pub z: ChunkPosition,
}

impl NeighbouringChunks {
    pub fn all(&self) -> (r: [ChunkPosition; 4])
        ensures
            r@ == seq![self.neg_x, self.x, self.neg_z, self.z],
    {
        [self.neg_x, self.x, self.neg_z, self.z]
    }
}

} // verus!
