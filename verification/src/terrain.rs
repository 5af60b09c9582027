use vstd::prelude::*;

use crate::chunk::{local_in_range, ChunkPosition, ChunkVoxels, CHUNK_SIZE, MAX_HEIGHT};
use crate::voxel::{LocalVoxelPosition, Voxel, VoxelKind, VoxelPosition};

verus! {

/// The two integers the terrain formula reads from the noise field at one
/// (x, z) column: the squared noise value and the noise value raised to 1.2,
/// each scaled by the world height and floored. A sample whose noise value
/// makes the power undefined contributes 0, as the float-to-integer cast of
/// the producing code does.
#[derive(Copy, Clone, Debug, PartialEq, Eq, Structural)]
pub struct NoiseSample {
    /// `floor(noise^2 * 256)`: how far the ground rises above the sea base.
    pub height_offset: u32,
    /// `floor(noise^1.2 * 256)`: the sea-floor level before clamping.
    pub sea_floor: u32,
}

/// A precomputed field of noise samples over a fixed extent, shared by every
/// chunk's generation and by save-diff recomputation. World column (x, z)
/// reads the sample at index `(x + width/2) + (z + length/2) * width`.
pub struct NoiseField {
    pub width: usize,
    pub length: usize,
    pub samples: Vec<NoiseSample>,
}

impl NoiseField {
    pub open spec fn wf(self) -> bool {
        &&& self.samples@.len() == self.width * self.length
        &&& 1 <= self.width <= 65536
        &&& 1 <= self.length <= 65536
    }

    /// The world columns the field covers.
    pub open spec fn in_bounds(self, x: int, z: int) -> bool {
        &&& 0 <= x + self.width / 2 < self.width
        &&& 0 <= z + self.length / 2 < self.length
    }

    pub open spec fn spec_sample(self, x: int, z: int) -> NoiseSample {
        self.samples@[(x + self.width / 2) + (z + self.length / 2) * self.width]
    }

    pub fn new(width: usize, length: usize, samples: Vec<NoiseSample>) -> (r: Self)
        requires
            samples@.len() == width * length,
            1 <= width <= 65536,
            1 <= length <= 65536,
        ensures
            r.wf(),
            r == (NoiseField { width, length, samples }),
    {
        NoiseField { width, length, samples }
    }

    /// The sample covering world column (x, z).
    pub fn sample(&self, x: i32, z: i32) -> (r: NoiseSample)
        requires
            self.wf(),
            self.in_bounds(x as int, z as int),
        ensures
            r == self.spec_sample(x as int, z as int),
    {
        let nx = (x + (self.width / 2) as i32) as usize;
        let nz = (z + (self.length / 2) as i32) as usize;
        proof {
            assert((x + self.width as int / 2) + (z + self.length as int / 2) * self.width
                < self.width * self.length && self.width * self.length <= 65536
                * 65536) by (nonlinear_arith)
                requires
                    0 <= x + self.width as int / 2 < self.width,
                    0 <= z + self.length as int / 2 < self.length,
                    1 <= self.width <= 65536,
                    1 <= self.length <= 65536,
            ;
        }
        self.samples[nx + nz * self.width]
    }
}

/// The material at ground height `height`: snow on high peaks, grass at
/// middle elevations (dirt just below the surface there), stone elsewhere.
pub open spec fn spec_ground_height_to_voxel(height: int, is_top_level: bool) -> VoxelKind {
    if height > 100 && is_top_level {
        VoxelKind::Snow
    } else if !(50 <= height <= 96) {
        VoxelKind::Stone
    } else if is_top_level {
        VoxelKind::Grass
    } else {
        VoxelKind::Dirt
    }
}

pub fn ground_height_to_voxel(height: usize, is_top_level: bool) -> (r: VoxelKind)
    ensures
        r == spec_ground_height_to_voxel(height as int, is_top_level),
{
    if height > 100 && is_top_level {
        return VoxelKind::Snow;
    }
    if !(50 <= height && height <= 96) {
        return VoxelKind::Stone;
    }
    if is_top_level {
        VoxelKind::Grass
    } else {
        VoxelKind::Dirt
    }
}

/// The deterministic terrain formula: the kind at height `y` of a column
/// whose noise sample is `sample`. Ground rises `height_offset` above the
/// sea base of 64, clamped below the world ceiling; a column with no rise is
/// sea: stone up to the sea floor (at least 32), two layers of water above
/// the base, air above that.
pub open spec fn spec_block_at(y: int, sample: NoiseSample) -> VoxelKind {
    if sample.height_offset == 0 {
        let floor = if sample.sea_floor < 32 {
            32 as int
        } else {
            sample.sea_floor as int
        };
        if y < floor {
            VoxelKind::Stone
        } else if y < 66 {
            VoxelKind::Water
        } else {
            VoxelKind::Air
        }
    } else {
        let height = if sample.height_offset > 191 {
            255 as int
        } else {
            64 + sample.height_offset
        };
        if y < height {
            spec_ground_height_to_voxel(y, false)
        } else if y == height {
            spec_ground_height_to_voxel(height, true)
        } else {
            VoxelKind::Air
        }
    }
}

/// The kind of the voxel at a world position, computed from the noise field
/// alone. Pure and bit-reproducible: the save format depends on re-deriving
/// exactly this value from the world seed.
pub fn block_at_position(pos: VoxelPosition, noise: &NoiseField) -> (r: VoxelKind)
    requires
        noise.wf(),
        noise.in_bounds(pos.x as int, pos.z as int),
        pos.y >= 0,
    ensures
        r == spec_block_at(pos.y as int, noise.spec_sample(pos.x as int, pos.z as int)),
{
    let sample = noise.sample(pos.x(), pos.z());
    let y = pos.y() as u32;
    if sample.height_offset == 0 {
        let floor: u32 = if sample.sea_floor < 32 {
            32
        } else {
            sample.sea_floor
        };
        if y < floor {
            VoxelKind::Stone
        } else if y < 66 {
            VoxelKind::Water
        } else {
            VoxelKind::Air
        }
    } else {
        let height: u32 = if sample.height_offset > 191 {
            255
        } else {
            64 + sample.height_offset
        };
        if y < height {
            ground_height_to_voxel(y as usize, false)
        } else if y == height {
            ground_height_to_voxel(height as usize, true)
        } else {
            VoxelKind::Air
        }
    }
}

/// Generator determinism: the block at a position is a function of the
/// position and the noise field alone, so two evaluations on equal inputs
/// agree; only a different field (a different seed) can change the result.
pub proof fn lemma_generator_deterministic(
    y1: int,
    s1: NoiseSample,
    y2: int,
    s2: NoiseSample,
)
    requires
        y1 == y2,
        s1 == s2,
    ensures
        spec_block_at(y1, s1) == spec_block_at(y2, s2),
{
}

/// Fill a fresh chunk by evaluating the deterministic generator at every
/// local position.
pub fn generate_chunk_voxels(chunk_pos: ChunkPosition, noise: &NoiseField) -> (r: ChunkVoxels)
    requires
        noise.wf(),
        forall|x: int, z: int|
            0 <= x < CHUNK_SIZE && 0 <= z < CHUNK_SIZE ==> #[trigger] noise.in_bounds(
                chunk_pos.x + x,
                chunk_pos.z + z,
            ),
    ensures
        r.wf(),
        forall|x: int, y: int, z: int|
            #[trigger] local_in_range(x, y, z) ==> r.spec_voxel(x, y, z).kind == spec_block_at(
                y,
                noise.spec_sample(chunk_pos.x + x, chunk_pos.z + z),
            ),
{
    let mut voxels = ChunkVoxels::new();
    let mut x: usize = 0;
    while x < CHUNK_SIZE
        invariant
            noise.wf(),
            forall|qx: int, qz: int|
                0 <= qx < CHUNK_SIZE && 0 <= qz < CHUNK_SIZE ==> #[trigger] noise.in_bounds(
                    chunk_pos.x + qx,
                    chunk_pos.z + qz,
                ),
            x <= CHUNK_SIZE,
            voxels.wf(),
            forall|qx: int, qy: int, qz: int|
                #[trigger] local_in_range(qx, qy, qz) && qx < x ==> voxels.spec_voxel(
                    qx,
                    qy,
                    qz,
                ).kind == spec_block_at(qy, noise.spec_sample(chunk_pos.x + qx, chunk_pos.z + qz)),
        decreases CHUNK_SIZE - x,
    {
        let mut y: usize = 0;
        while y < MAX_HEIGHT
            invariant
                noise.wf(),
                forall|qx: int, qz: int|
                    0 <= qx < CHUNK_SIZE && 0 <= qz < CHUNK_SIZE ==> #[trigger] noise.in_bounds(
                        chunk_pos.x + qx,
                        chunk_pos.z + qz,
                    ),
                x < CHUNK_SIZE,
                y <= MAX_HEIGHT,
                voxels.wf(),
                forall|qx: int, qy: int, qz: int|
                    #[trigger] local_in_range(qx, qy, qz) && (qx < x || (qx == x && qy < y))
                        ==> voxels.spec_voxel(qx, qy, qz).kind == spec_block_at(
                        qy,
                        noise.spec_sample(chunk_pos.x + qx, chunk_pos.z + qz),
                    ),
            decreases MAX_HEIGHT - y,
        {
            let mut z: usize = 0;
            while z < CHUNK_SIZE
                invariant
                    noise.wf(),
                    forall|qx: int, qz: int|
                        0 <= qx < CHUNK_SIZE && 0 <= qz < CHUNK_SIZE ==> #[trigger] noise.in_bounds(
                            chunk_pos.x + qx,
                            chunk_pos.z + qz,
                        ),
                    x < CHUNK_SIZE,
                    y < MAX_HEIGHT,
                    z <= CHUNK_SIZE,
                    voxels.wf(),
                    forall|qx: int, qy: int, qz: int|
                        #[trigger] local_in_range(qx, qy, qz) && (qx < x || (qx == x && (qy < y || (
                        qy == y && qz < z)))) ==> voxels.spec_voxel(qx, qy, qz).kind
                            == spec_block_at(
                            qy,
                            noise.spec_sample(chunk_pos.x + qx, chunk_pos.z + qz),
                        ),
                decreases CHUNK_SIZE - z,
            {
                let local_pos = LocalVoxelPosition::new(x as u32, y as u32, z as u32);
                proof {
                    assert(noise.in_bounds(chunk_pos.x + x as int, chunk_pos.z + z as int));
                }
                let global_pos = VoxelPosition::new(
                    chunk_pos.x() + x as i32,
                    y as i32,
                    chunk_pos.z() + z as i32,
                );
                let kind = block_at_position(global_pos, noise);
                let ghost before = voxels;
                let slot = voxels.voxel_mut(local_pos);
                slot.kind = kind;
                proof {
                    assert forall|qx: int, qy: int, qz: int|
                        #[trigger] local_in_range(qx, qy, qz) && (qx < x || (qx == x && (qy < y || (
                        qy == y && qz <= z)))) implies voxels.spec_voxel(qx, qy, qz).kind
                        == spec_block_at(
                        qy,
                        noise.spec_sample(chunk_pos.x + qx, chunk_pos.z + qz),
                    ) by {
                        if qx == x && qy == y && qz == z {
                        } else {
                            assert(voxels.spec_voxel(qx, qy, qz) == before.spec_voxel(qx, qy, qz));
                        }
                    }
                }
                z += 1;
            }
            y += 1;
        }
        x += 1;
    }
    voxels
}


/// One walker state of the expanding square spiral used to schedule chunk
/// generation around the viewer: position, heading, and the bookkeeping
/// that lengthens a leg after every second turn.
pub struct SpiralState {
    pub x: int,
    pub y: int,
    pub dir: int,
    pub steps: int,
    pub step_count: int,
    pub steps_in_dir: int,
}

pub open spec fn spiral_init() -> SpiralState {
    SpiralState { x: 0, y: 0, dir: 0, steps: 1, step_count: 0, steps_in_dir: 0 }
}

/// Heading vector of each of the four walk directions.
pub open spec fn spiral_heading(d: int) -> (int, int) {
    if d == 0 {
        (1, 0)
    } else if d == 1 {
        (0, 1)
    } else if d == 2 {
        (-1, 0)
    } else {
        (0, -1)
    }
}

/// One step of the spiral walk: move along the heading; at the end of a
/// leg turn, and after every second completed leg lengthen the next one.
pub open spec fn spiral_step(s: SpiralState) -> SpiralState {
    let (dx, dy) = spiral_heading(s.dir);
    let x = s.x + dx;
    let y = s.y + dy;
    if s.steps_in_dir + 1 == s.steps {
        if s.step_count == 1 {
            SpiralState {
                x,
                y,
                dir: (s.dir + 1) % 4,
                steps: s.steps + 1,
                step_count: 0,
                steps_in_dir: 0,
            }
        } else {
            SpiralState {
                x,
                y,
                dir: (s.dir + 1) % 4,
                steps: s.steps,
                step_count: s.step_count + 1,
                steps_in_dir: 0,
            }
        }
    } else {
        SpiralState {
            x,
            y,
            dir: s.dir,
            steps: s.steps,
            step_count: s.step_count,
            steps_in_dir: s.steps_in_dir + 1,
        }
    }
}

/// The walker state after `n` emitted points.
pub open spec fn spiral_at(n: nat) -> SpiralState
    decreases n,
{
    if n == 0 {
        spiral_init()
    } else {
        spiral_step(spiral_at((n - 1) as nat))
    }
}

/// An upper bound on the points any bounded spiral walk can emit before
/// leaving the box: enough steps to wrap the box a few times over.
pub open spec fn spiral_cap(max_x: int, max_y: int) -> int {
    let m = if max_x >= max_y {
        if max_x >= 0 {
            max_x
        } else {
            0
        }
    } else {
        if max_y >= 0 {
            max_y
        } else {
            0
        }
    };
    (2 * m + 3) * (2 * m + 3)
}

/// Every entry of `r` is the spiral walk's point of its index, within the
/// bounds.
pub open spec fn spiral_prefix_ok(r: Seq<(i64, i64)>, max_x: int, max_y: int) -> bool {
    forall|i: int|
        0 <= i < r.len() ==> (#[trigger] r[i]).0 == spiral_at(i as nat).x && r[i].1 == spiral_at(
            i as nat,
        ).y && spiral_at(i as nat).x <= max_x && spiral_at(i as nat).y <= max_y && -i <= spiral_at(
            i as nat,
        ).x && -i <= spiral_at(i as nat).y
}

/// The expanding square spiral of grid points around the origin, emitted in
/// walk order while each point stays within `max_x` and `max_y`: exactly
/// the prefix of the spiral walk before its first out-of-bounds point
/// (within a generous step budget that bounded walks never exhaust).
#[verifier::spinoff_prover]
#[verifier::rlimit(60)]
pub fn spiral(max_x: i64, max_y: i64) -> (r: Vec<(i64, i64)>)
    requires
        -65536 <= max_x <= 65536,
        -65536 <= max_y <= 65536,
    ensures
        spiral_prefix_ok(r@, max_x as int, max_y as int),
        r@.len() <= spiral_cap(max_x as int, max_y as int),
        r@.len() == spiral_cap(max_x as int, max_y as int) || !(spiral_at(r@.len() as nat).x
            <= max_x && spiral_at(r@.len() as nat).y <= max_y),
{
    let m: i64 = if max_x >= max_y {
        if max_x >= 0 {
            max_x
        } else {
            0
        }
    } else {
        if max_y >= 0 {
            max_y
        } else {
            0
        }
    };
    let t: u64 = (2 * m + 3) as u64;
    proof {
        assert(t <= 131075);
        assert(t * t <= 0x5_0000_0000) by (nonlinear_arith)
            requires
                t <= 131075,
        ;
    }
    let cap: u64 = t * t;
    let mut r: Vec<(i64, i64)> = Vec::new();
    let mut x: i64 = 0;
    let mut y: i64 = 0;
    let mut dir: u64 = 0;
    let mut steps: u64 = 1;
    let mut step_count: u64 = 0;
    let mut steps_in_dir: u64 = 0;
    let mut cnt: u64 = 0;
    while cnt < cap
        invariant
            -65536 <= max_x <= 65536,
            -65536 <= max_y <= 65536,
            cap == spiral_cap(max_x as int, max_y as int),
            cap <= 0x5_0000_0000,
            cnt <= cap,
            r@.len() == cnt,
            spiral_at(cnt as nat) == (SpiralState {
                x: x as int,
                y: y as int,
                dir: dir as int,
                steps: steps as int,
                step_count: step_count as int,
                steps_in_dir: steps_in_dir as int,
            }),
            -(cnt as int) <= x <= 65536 + 1,
            -(cnt as int) <= y <= 65536 + 1,
            dir < 4,
            step_count <= 1,
            1 <= steps <= cnt + 1,
            steps_in_dir < steps,
            spiral_prefix_ok(r@, max_x as int, max_y as int),
        decreases cap - cnt,
    {
        if !(x <= max_x && y <= max_y) {
            return r;
        }
        r.push((x, y));
        let (dx, dy): (i64, i64) = match dir {
            0 => (1, 0),
            1 => (0, 1),
            2 => (-1, 0),
            _ => (0, -1),
        };
        proof {
            assert(spiral_heading(dir as int) == (dx as int, dy as int));
        }
        x = x + dx;
        y = y + dy;
        steps_in_dir = steps_in_dir + 1;
        if steps_in_dir == steps {
            steps_in_dir = 0;
            dir = (dir + 1) % 4;
            if step_count == 1 {
                step_count = 0;
                steps = steps + 1;
            } else {
                step_count = step_count + 1;
            }
        }
        cnt = cnt + 1;
        proof {
            assert(spiral_at(cnt as nat) == spiral_step(spiral_at((cnt - 1) as nat)));
        }
    }
    r
}

} // verus!
