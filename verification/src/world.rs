use vstd::prelude::*;

use std::collections::HashMap;

use crate::chunk::ChunkPosition;
use crate::terrain::{spiral, spiral_at, spiral_cap, NoiseField};
use crate::voxel::VoxelPosition;

verus! {

broadcast use vstd::std_specs::hash::group_hash_axioms;

/// A chunk position packed into the map key: each coordinate shifted into
/// the unsigned range, the x part in the high word.
pub open spec fn spec_chunk_key(x: int, z: int) -> int {
    (x + 0x8000_0000) * 0x1_0000_0000 + (z + 0x8000_0000)
}

/// Packed keys collide only for equal positions, so the map never confuses
/// two chunks.
pub proof fn lemma_chunk_key_injective(x1: int, z1: int, x2: int, z2: int)
    by (nonlinear_arith)
    requires
        i32::MIN <= x1 <= i32::MAX,
        i32::MIN <= z1 <= i32::MAX,
        i32::MIN <= x2 <= i32::MAX,
        i32::MIN <= z2 <= i32::MAX,
        spec_chunk_key(x1, z1) == spec_chunk_key(x2, z2),
    ensures
        x1 == x2 && z1 == z2,
{
}

/// The chunk index of one world: a handle per resident chunk position, the
/// immutable seed, and the shared precomputed noise field every chunk's
/// generation reads.
pub struct World<H> {
    pub seed: u32,
    pub chunk_map: HashMap<u64, H>,
    pub noise: NoiseField,
}

impl<H: Copy> World<H> {
    /// The handles keyed by packed chunk position.
    pub open spec fn map(self) -> Map<u64, H> {
        self.chunk_map@
    }

    pub open spec fn wf(self) -> bool {
        self.noise.wf()
    }

    pub fn new(seed: u32, noise: NoiseField) -> (r: Self)
        requires
            noise.wf(),
        ensures
            r.seed == seed,
            r.noise == noise,
            r.map() == Map::<u64, H>::empty(),
            r.wf(),
    {
        World { seed, chunk_map: HashMap::new(), noise }
    }

    /// The packed map key of a chunk position.
    pub fn chunk_key(pos: ChunkPosition) -> (r: u64)
        ensures
            r == spec_chunk_key(pos.x as int, pos.z as int),
    {
        let xs = (pos.x() as i64 + 0x8000_0000) as u64;
        let zs = (pos.z() as i64 + 0x8000_0000) as u64;
        xs * 0x1_0000_0000 + zs
    }

    /// Register a freshly generated chunk's handle. Registering a position
    /// twice is a caller error — the system never generates a chunk twice —
    /// and is excluded here.
    pub fn add_chunk(&mut self, pos: ChunkPosition, handle: H)
        requires
            !old(self).map().dom().contains(
                spec_chunk_key(pos.x as int, pos.z as int) as u64,
            ),
        ensures
            final(self).map() == old(self).map().insert(
                spec_chunk_key(pos.x as int, pos.z as int) as u64,
                handle,
            ),
            final(self).seed == old(self).seed,
            final(self).noise == old(self).noise,
    {
        let key = Self::chunk_key(pos);
        self.chunk_map.insert(key, handle);
    }

    /// Remove a chunk's handle when it unloads.
    pub fn remove_chunk(&mut self, pos: ChunkPosition)
        ensures
            final(self).map() == old(self).map().remove(
                spec_chunk_key(pos.x as int, pos.z as int) as u64,
            ),
            final(self).seed == old(self).seed,
            final(self).noise == old(self).noise,
    {
        let key = Self::chunk_key(pos);
        self.chunk_map.remove(&key);
    }

    /// The handle of the chunk at `pos`, if resident.
    pub fn chunk_at(&self, pos: ChunkPosition) -> (r: Option<H>)
        ensures
            r == (if self.map().dom().contains(
                spec_chunk_key(pos.x as int, pos.z as int) as u64,
            ) {
                Some(self.map()[spec_chunk_key(pos.x as int, pos.z as int) as u64])
            } else {
                Option::<H>::None
            }),
    {
        let key = Self::chunk_key(pos);
        match self.chunk_map.get(&key) {
            Some(h) => Some(*h),
            None => None,
        }
    }

    /// The handle of the chunk containing a world voxel position.
    pub fn chunk_containing(&self, pos: VoxelPosition) -> (r: Option<H>)
        ensures
            ({
                let key = spec_chunk_key(
                    ChunkPosition::chunk_coord(pos.x as int),
                    ChunkPosition::chunk_coord(pos.z as int),
                ) as u64;
                r == (if self.map().dom().contains(key) {
                    Some(self.map()[key])
                } else {
                    Option::<H>::None
                })
            }),
    {
        let chunk_base = ChunkPosition::of_voxel(pos);
        self.chunk_at(chunk_base)
    }

    /// How many chunks are resident.
    pub fn chunk_count(&self) -> (r: usize)
        ensures
            r == self.map().dom().len(),
    {
        self.chunk_map.len()
    }
}

/// The chunks whose meshes an edit at `pos` leaves stale: the owning chunk,
/// and — when the voxel sits on a chunk border — the neighbour sharing that
/// border, so that no voxel write becomes visible without its dependent
/// meshes being rebuilt.
pub fn chunks_to_remesh(pos: VoxelPosition) -> (r: Vec<ChunkPosition>)
    requires
        i32::MIN + 16 <= pos.x <= i32::MAX - 16,
        i32::MIN + 16 <= pos.z <= i32::MAX - 16,
    ensures
        ({
            let cx = ChunkPosition::chunk_coord(pos.x as int);
            let cz = ChunkPosition::chunk_coord(pos.z as int);
            let lx = pos.x - cx;
            let lz = pos.z - cz;
            r@ == seq![ChunkPosition { x: cx as i32, z: cz as i32 }] + (if lx == 0 {
                seq![ChunkPosition { x: (cx - 16) as i32, z: cz as i32 }]
            } else if lx == 15 {
                seq![ChunkPosition { x: (cx + 16) as i32, z: cz as i32 }]
            } else {
                Seq::<ChunkPosition>::empty()
            }) + (if lz == 0 {
                seq![ChunkPosition { x: cx as i32, z: (cz - 16) as i32 }]
            } else if lz == 15 {
                seq![ChunkPosition { x: cx as i32, z: (cz + 16) as i32 }]
            } else {
                Seq::<ChunkPosition>::empty()
            })
        }),
{
    proof {
        crate::chunk::lemma_chunk_coord_bounds(pos.x as int);
        crate::chunk::lemma_chunk_coord_bounds(pos.z as int);
    }
    let own = ChunkPosition::of_voxel(pos);
    let lx = pos.x() - own.x();
    let lz = pos.z() - own.z();
    let mut r: Vec<ChunkPosition> = Vec::new();
    r.push(own);
    if lx == 0 {
        r.push(ChunkPosition::new(own.x() - 16, own.z()));
    } else if lx == 15 {
        r.push(ChunkPosition::new(own.x() + 16, own.z()));
    }
    if lz == 0 {
        r.push(ChunkPosition::new(own.x(), own.z() - 16));
    } else if lz == 15 {
        r.push(ChunkPosition::new(own.x(), own.z() + 16));
    }
    proof {
        assert(r@ =~= seq![own] + (if pos.x - own.x == 0 {
            seq![ChunkPosition { x: (own.x - 16) as i32, z: own.z }]
        } else if pos.x - own.x == 15 {
            seq![ChunkPosition { x: (own.x + 16) as i32, z: own.z }]
        } else {
            Seq::<ChunkPosition>::empty()
        }) + (if pos.z - own.z == 0 {
            seq![ChunkPosition { x: own.x, z: (own.z - 16) as i32 }]
        } else if pos.z - own.z == 15 {
            seq![ChunkPosition { x: own.x, z: (own.z + 16) as i32 }]
        } else {
            Seq::<ChunkPosition>::empty()
        }));
    }
    r
}


/// Of the chunks a pass visits, the ones not yet resident, in visit order:
/// what the pass generates.
pub open spec fn spec_to_generate<H>(
    footprint: Seq<ChunkPosition>,
    m: Map<u64, H>,
) -> Seq<ChunkPosition> {
    footprint.filter(
        |c: ChunkPosition| !m.dom().contains(spec_chunk_key(c.x as int, c.z as int) as u64),
    )
}

/// Of the resident chunks, the ones the pass did not visit: what the pass
/// unloads.
pub open spec fn spec_to_unload(
    resident: Seq<ChunkPosition>,
    footprint: Seq<ChunkPosition>,
) -> Seq<ChunkPosition> {
    resident.filter(|c: ChunkPosition| !footprint.contains(c))
}

proof fn lemma_to_generate_step<H>(footprint: Seq<ChunkPosition>, m: Map<u64, H>)
    requires
        footprint.len() > 0,
    ensures
        spec_to_generate(footprint, m) == if !m.dom().contains(
            spec_chunk_key(footprint.last().x as int, footprint.last().z as int) as u64,
        ) {
            spec_to_generate(footprint.drop_last(), m).push(footprint.last())
        } else {
            spec_to_generate(footprint.drop_last(), m)
        },
{
    reveal(Seq::filter);
}

proof fn lemma_to_unload_step(resident: Seq<ChunkPosition>, footprint: Seq<ChunkPosition>)
    requires
        resident.len() > 0,
    ensures
        spec_to_unload(resident, footprint) == if !footprint.contains(resident.last()) {
            spec_to_unload(resident.drop_last(), footprint).push(resident.last())
        } else {
            spec_to_unload(resident.drop_last(), footprint)
        },
{
    reveal(Seq::filter);
}

/// Whether a chunk position occurs in a list.
fn contains_chunk(list: &Vec<ChunkPosition>, c: ChunkPosition) -> (r: bool)
    ensures
        r == list@.contains(c),
{
    let mut i: usize = 0;
    while i < list.len()
        invariant
            i <= list@.len(),
            forall|n: int| 0 <= n < i ==> list@[n] != c,
        decreases list@.len() - i,
    {
        let e = list[i];
        if e == c {
            proof {
                assert(list@[i as int] == c);
            }
            return true;
        }
        i += 1;
    }
    false
}

/// One generation pass's decisions around the viewer: the chunk positions
/// the expanding spiral visits within `radius` (in visit order), which of
/// them are not yet resident and must be generated, and which of the given
/// resident chunks fell outside the pass and are unloaded. The caller
/// performs the work; the choices are all made here.
#[verifier::rlimit(60)]
pub fn plan_chunk_updates<H: Copy>(
    world: &World<H>,
    resident: &Vec<ChunkPosition>,
    viewer: ChunkPosition,
    radius: i64,
) -> (r: (Vec<ChunkPosition>, Vec<ChunkPosition>, Vec<ChunkPosition>))
    requires
        viewer.wf(),
        0 <= radius <= 1024,
        -1000000 <= viewer.x <= 1000000,
        -1000000 <= viewer.z <= 1000000,
    ensures
        // the footprint is the spiral walk scaled to the chunk grid
        r.0@.len() <= spiral_cap(radius as int, radius as int),
        r.0@.len() == spiral_cap(radius as int, radius as int) || !(spiral_at(
            r.0@.len() as nat,
        ).x <= radius && spiral_at(r.0@.len() as nat).y <= radius),
        forall|i: int|
            0 <= i < r.0@.len() ==> (#[trigger] r.0@[i]) == (ChunkPosition {
                x: (viewer.x + 16 * spiral_at(i as nat).x) as i32,
                z: (viewer.z + 16 * spiral_at(i as nat).y) as i32,
            }),
        forall|i: int| 0 <= i < r.0@.len() ==> (#[trigger] r.0@[i]).wf(),
        // generate exactly the visited chunks that are not resident
        r.1@ == spec_to_generate(r.0@, world.map()),
        // unload exactly the resident chunks the pass did not visit
        r.2@ == spec_to_unload(resident@, r.0@),
{
    let pts = spiral(radius, radius);
    let mut footprint: Vec<ChunkPosition> = Vec::new();
    let mut to_generate: Vec<ChunkPosition> = Vec::new();
    let mut i: usize = 0;
    while i < pts.len()
        invariant
            viewer.wf(),
            0 <= radius <= 1024,
            -1000000 <= viewer.x <= 1000000,
            -1000000 <= viewer.z <= 1000000,
            crate::terrain::spiral_prefix_ok(pts@, radius as int, radius as int),
            pts@.len() <= spiral_cap(radius as int, radius as int),
            i <= pts@.len(),
            footprint@.len() == i,
            forall|n: int|
                0 <= n < i ==> (#[trigger] footprint@[n]) == (ChunkPosition {
                    x: (viewer.x + 16 * spiral_at(n as nat).x) as i32,
                    z: (viewer.z + 16 * spiral_at(n as nat).y) as i32,
                }),
            forall|n: int| 0 <= n < i ==> (#[trigger] footprint@[n]).wf(),
            to_generate@ == spec_to_generate(footprint@, world.map()),
        decreases pts@.len() - i,
    {
        let (sx, sz) = pts[i];
        proof {
            assert(pts@[i as int].0 == spiral_at(i as nat).x);
            assert(-(pts@.len() as int) <= sx <= radius && -(pts@.len() as int) <= sz <= radius);
            assert(spiral_cap(radius as int, radius as int) <= 4206601) by (nonlinear_arith)
                requires
                    0 <= radius <= 1024,
            ;
            assert(-69000000 <= viewer.x + 16 * sx <= 69000000);
            assert(-69000000 <= viewer.z + 16 * sz <= 69000000);
            assert((viewer.x + 16 * sx) % 16 == 0 && (viewer.z + 16 * sz) % 16 == 0) by {
                vstd::arithmetic::div_mod::lemma_mod_multiples_vanish(
                    sx as int,
                    viewer.x as int,
                    16,
                );
                vstd::arithmetic::div_mod::lemma_mod_multiples_vanish(
                    sz as int,
                    viewer.z as int,
                    16,
                );
            }
        }
        let cx = (viewer.x() as i64 + 16 * sx) as i32;
        let cz = (viewer.z() as i64 + 16 * sz) as i32;
        let cp = ChunkPosition::new(cx, cz);
        let ghost pre = footprint@;
        footprint.push(cp);
        let absent = contains_chunk_key_absent(world, cp);
        if absent {
            to_generate.push(cp);
        }
        proof {
            assert(footprint@.drop_last() == pre);
            assert(footprint@.last() == cp);
            lemma_to_generate_step(footprint@, world.map());
        }
        i += 1;
    }
    let mut to_unload: Vec<ChunkPosition> = Vec::new();
    let mut n: usize = 0;
    while n < resident.len()
        invariant
            n <= resident@.len(),
            to_unload@ == spec_to_unload(resident@.take(n as int), footprint@),
        decreases resident@.len() - n,
    {
        let c = resident[n];
        let visited = contains_chunk(&footprint, c);
        let ghost pre = resident@.take(n as int);
        if !visited {
            to_unload.push(c);
        }
        proof {
            assert(resident@.take(n + 1).drop_last() == pre);
            assert(resident@.take(n + 1).last() == c);
            lemma_to_unload_step(resident@.take(n + 1), footprint@);
        }
        n += 1;
    }
    proof {
        assert(resident@.take(resident@.len() as int) == resident@);
    }
    (footprint, to_generate, to_unload)
}

/// Whether no chunk is registered at `cp`.
fn contains_chunk_key_absent<H: Copy>(world: &World<H>, cp: ChunkPosition) -> (r: bool)
    ensures
        r == !world.map().dom().contains(spec_chunk_key(cp.x as int, cp.z as int) as u64),
{
    world.chunk_at(cp).is_none()
}

} // verus!
