use vstd::prelude::*;

use bit_field::BitField;

use crate::chunk::{chunk_octants, ChunkPosition, ChunkVoxels, CHUNK_SIZE, MAX_HEIGHT};
use crate::octree::{Octant, OctantKind};
use crate::voxel::{spec_kind_byte, Voxel, VoxelKind};

verus! {

/// Two raised to `n`, as a plain integer.
pub open spec fn p2(n: nat) -> int {
    vstd::arithmetic::power2::pow2(n) as int
}

/// Replace bits `[lo, hi)` of `x` by `value`, leaving the other bits alone.
/// Relies on bit_field's `BitField::set_bits` on `u32`, which panics when
/// `value` does not fit the range — excluded here.
#[verifier::external_body]
fn set_bits_u32(x: u32, lo: usize, hi: usize, value: u32) -> (r: u32)
    requires
        lo < hi,
        hi <= 32,
        (value as int) < p2((hi - lo) as nat),
    ensures
        r == (x as int) % p2(lo as nat) + (value as int) * p2(lo as nat) + ((x as int) / p2(
            hi as nat,
        )) * p2(hi as nat),
{
    let mut y = x;
    y.set_bits(lo..hi, value);
    y
}

/// The packed per-vertex attribute word handed to the renderer. The packed
/// bit layout is the wire contract: bits 0..3 the face-normal index, 3..6
/// the material's byte encoding, 6..8 the corner index, 8..10 the
/// ambient-occlusion class.
#[derive(Copy, Clone, Debug)]
pub struct VertexData {
    pub normal_idx: u32,
    pub material: VoxelKind,
    pub uv: u32,
    pub neighbours: u32,
}

impl VertexData {
    pub open spec fn wf(self) -> bool {
        &&& self.normal_idx <= 5
        &&& self.material != VoxelKind::Air
        &&& self.uv < 4
        &&& self.neighbours < 4
    }

    /// The packed wire value.
    pub open spec fn spec_packed(self) -> int {
        self.normal_idx + 8 * spec_kind_byte(self.material) + 64 * self.uv + 256
            * self.neighbours
    }

    pub fn new() -> (r: Self)
        ensures
            r == (VertexData {
                normal_idx: 0u32,
                material: VoxelKind::Stone,
                uv: 0u32,
                neighbours: 0u32,
            }),
    {
        VertexData { normal_idx: 0, material: VoxelKind::Stone, uv: 0, neighbours: 0 }
    }

    pub fn set_normal_idx(&mut self, idx: u32)
        requires
            idx <= 5,
        ensures
            *final(self) == (VertexData { normal_idx: idx, ..*old(self) }),
    {
        self.normal_idx = idx;
    }

    pub fn set_material(&mut self, kind: VoxelKind)
        requires
            kind != VoxelKind::Air,
        ensures
            *final(self) == (VertexData { material: kind, ..*old(self) }),
    {
        self.material = kind;
    }

    pub fn set_uv(&mut self, uv: u32)
        requires
            uv < 4,
        ensures
            *final(self) == (VertexData { uv, ..*old(self) }),
    {
        self.uv = uv;
    }

    pub fn set_neighbours(&mut self, neighbours: u32)
        requires
            neighbours < 4,
        ensures
            *final(self) == (VertexData { neighbours, ..*old(self) }),
    {
        self.neighbours = neighbours;
    }

    /// Pack the four attributes into one 32-bit word with the stable layout.
    pub fn to_u32(&self) -> (r: u32)
        requires
            self.wf(),
        ensures
            r == self.spec_packed(),
            r < 1024,
    {
        proof {
            vstd::arithmetic::power2::lemma2_to64();
            assert(p2(0) == 1 && p2(2) == 4 && p2(3) == 8 && p2(6) == 64 && p2(8) == 256 && p2(10)
                == 1024);
        }
        let mat = self.material.to_byte() as u32;
        proof {
            assert(mat <= 4);
        }
        let v1 = set_bits_u32(0, 0, 3, self.normal_idx);
        proof {
            assert(v1 == self.normal_idx);
        }
        let v2 = set_bits_u32(v1, 3, 6, mat);
        proof {
            assert(v2 == self.normal_idx + 8 * mat);
        }
        let v3 = set_bits_u32(v2, 6, 8, self.uv);
        proof {
            assert(v3 == self.normal_idx + 8 * mat + 64 * self.uv);
        }
        let v4 = set_bits_u32(v3, 8, 10, self.neighbours);
        proof {
            assert(v4 == self.normal_idx + 8 * mat + 64 * self.uv + 256 * self.neighbours);
        }
        v4
    }
}

/// Padded voxel grid for meshing one chunk: the chunk's own voxels in
/// `[1, 17) x [0, 256) x [1, 17)` and one voxel of each horizontal
/// neighbour's facing edge in the border, held in an ndarray 3-array.
#[verifier::external_body]
pub struct VoxelGrid {
    inner: ndarray::Array3<Voxel>,
}

/// What the padded grid holds at each in-range index triple.
pub uninterp spec fn grid_contents(g: VoxelGrid) -> Map<(int, int, int), Voxel>;

/// Indices of the padded grid: 18 x 256 x 18.
pub open spec fn grid_in_range(x: int, y: int, z: int) -> bool {
    0 <= x < 18 && 0 <= y < 256 && 0 <= z < 18
}

/// Relies on ndarray's `Array3::from_elem`: an (18, 256, 18) array holding
/// `v` everywhere.
#[verifier::external_body]
fn grid_new(v: Voxel) -> (g: VoxelGrid)
    ensures
        forall|x: int, y: int, z: int|
            #[trigger] grid_contents(g).dom().contains((x, y, z)) <==> grid_in_range(x, y, z),
        forall|x: int, y: int, z: int|
            grid_in_range(x, y, z) ==> #[trigger] grid_contents(g)[(x, y, z)] == v,
{
    VoxelGrid { inner: ndarray::Array3::from_elem((18, 256, 18), v) }
}

/// Relies on ndarray's `Index` for `Array3`, which panics out of bounds —
/// excluded here.
#[verifier::external_body]
fn grid_get(g: &VoxelGrid, x: usize, y: usize, z: usize) -> (r: Voxel)
    requires
        grid_in_range(x as int, y as int, z as int),
    ensures
        r == grid_contents(*g)[(x as int, y as int, z as int)],
{
    g.inner[(x, y, z)]
}

/// Relies on ndarray's `IndexMut` for `Array3`, which panics out of bounds —
/// excluded here.
#[verifier::external_body]
fn grid_set(g: &mut VoxelGrid, x: usize, y: usize, z: usize, v: Voxel)
    requires
        grid_in_range(x as int, y as int, z as int),
    ensures
        grid_contents(*final(g)) == grid_contents(*old(g)).insert(
            (x as int, y as int, z as int),
            v,
        ),
{
    g.inner[(x, y, z)] = v;
}

/// Unit offset of face `f`'s outward normal; faces are numbered front,
/// back, left, right, bottom, top.
pub open spec fn face_dir(f: int) -> (int, int, int) {
    if f == 0 {
        (0, 0, -1)
    } else if f == 1 {
        (0, 0, 1)
    } else if f == 2 {
        (-1, 0, 0)
    } else if f == 3 {
        (1, 0, 0)
    } else if f == 4 {
        (0, -1, 0)
    } else {
        (0, 1, 0)
    }
}

/// The grid voxel at unit offsets `(ox, oy, oz)` from the octant corner
/// `(px, py, pz)`, taking the horizontal padding into account; outside the
/// world's height there is only air.
pub open spec fn sample_at(
    gc: Map<(int, int, int), Voxel>,
    px: int,
    py: int,
    pz: int,
    ox: int,
    oy: int,
    oz: int,
) -> Voxel {
    if py + oy < 0 || py + oy >= 256 {
        Voxel { kind: VoxelKind::Air }
    } else {
        gc[(px + ox + 1, py + oy, pz + oz + 1)]
    }
}

/// The voxel kind one step along `f`'s normal from the octant corner.
pub open spec fn spec_adjacent(
    gc: Map<(int, int, int), Voxel>,
    px: int,
    py: int,
    pz: int,
    f: int,
) -> VoxelKind {
    let (dx, dy, dz) = face_dir(f);
    sample_at(gc, px, py, pz, dx, dy, dz).kind
}

/// A face shows iff the voxel in front of it is transparent and not the
/// same transparent material (two adjacent water voxels produce no seam).
pub open spec fn face_visible(material: VoxelKind, neighbour: VoxelKind) -> bool {
    neighbour.is_transparent() && neighbour != material
}

/// How many of the first `f` faces of an octant at `(px, py, pz)` show.
pub open spec fn emitted_upto(
    gc: Map<(int, int, int), Voxel>,
    material: VoxelKind,
    px: int,
    py: int,
    pz: int,
    f: int,
) -> int
    decreases f,
{
    if f <= 0 {
        0
    } else {
        emitted_upto(gc, material, px, py, pz, f - 1) + (if face_visible(
            material,
            spec_adjacent(gc, px, py, pz, f - 1),
        ) {
            1int
        } else {
            0int
        })
    }
}

/// Mesh face culling at the extremes: a voxel whose six neighbours are all
/// opaque emits no faces; a non-air voxel surrounded by air alone emits all
/// six.
pub proof fn lemma_face_culling(
    gc: Map<(int, int, int), Voxel>,
    material: VoxelKind,
    px: int,
    py: int,
    pz: int,
)
    requires
        material != VoxelKind::Air,
    ensures
        (forall|f: int|
            0 <= f < 6 ==> !(#[trigger] spec_adjacent(gc, px, py, pz, f)).is_transparent())
            ==> emitted_upto(gc, material, px, py, pz, 6) == 0,
        (forall|f: int|
            0 <= f < 6 ==> #[trigger] spec_adjacent(gc, px, py, pz, f) == VoxelKind::Air)
            ==> emitted_upto(gc, material, px, py, pz, 6) == 6,
{
    reveal_with_fuel(emitted_upto, 7);
}

/// Ambient-occlusion class of one face corner, from whether its two
/// orthogonal neighbours and its diagonal neighbour cast shadow:
/// 0 darkest, 3 brightest.
pub open spec fn spec_ao_class(side1: bool, corner: bool, side2: bool) -> u32 {
    if side1 && side2 {
        0
    } else if (side1 && corner && !side2) || (!side1 && corner && side2) {
        1
    } else if !side1 && !corner && !side2 {
        3
    } else {
        2
    }
}

/// AO monotonicity at the extremes: two shadow-casting orthogonal
/// neighbours (with any diagonal) give the darkest class, and no
/// shadow-casters at all give the brightest.
pub proof fn lemma_ao_extremes(corner: bool)
    ensures
        spec_ao_class(true, corner, true) == 0,
        spec_ao_class(false, false, false) == 3,
{
}

fn ao_class(side1: bool, corner: bool, side2: bool) -> (r: u32)
    ensures
        r == spec_ao_class(side1, corner, side2),
        r < 4,
{
    match (side1, corner, side2) {
        (true, _, true) => 0,
        (true, true, false) | (false, true, true) => 1,
        (false, false, false) => 3,
        _ => 2,
    }
}

/// The two axes spanning face `f`'s plane, used to reach the eight voxels
/// ringing a face for ambient occlusion.
pub open spec fn spec_perps(f: int) -> ((int, int, int), (int, int, int)) {
    if f == 0 {
        ((0, 1, 0), (1, 0, 0))
    } else if f == 1 {
        ((0, 1, 0), (-1, 0, 0))
    } else if f == 2 {
        ((0, 1, 0), (0, 0, -1))
    } else if f == 3 {
        ((0, 1, 0), (0, 0, 1))
    } else if f == 4 {
        ((1, 0, 0), (0, 0, 1))
    } else {
        ((1, 0, 0), (0, 0, -1))
    }
}

/// Offset of the `i`-th voxel of the ring around face `f`, anticlockwise
/// from 'middle left': the face normal plus a combination of the two
/// perpendicular axes.
pub open spec fn ring_offset(f: int, i: int) -> (int, int, int) {
    let (dx, dy, dz) = face_dir(f);
    let (p1, p2) = spec_perps(f);
    if i == 0 {
        (dx + p1.0, dy + p1.1, dz + p1.2)
    } else if i == 1 {
        (dx + p1.0 + p2.0, dy + p1.1 + p2.1, dz + p1.2 + p2.2)
    } else if i == 2 {
        (dx + p2.0, dy + p2.1, dz + p2.2)
    } else if i == 3 {
        (dx - p1.0 + p2.0, dy - p1.1 + p2.1, dz - p1.2 + p2.2)
    } else if i == 4 {
        (dx - p1.0, dy - p1.1, dz - p1.2)
    } else if i == 5 {
        (dx - p1.0 - p2.0, dy - p1.1 - p2.1, dz - p1.2 - p2.2)
    } else if i == 6 {
        (dx - p2.0, dy - p2.1, dz - p2.2)
    } else {
        (dx + p1.0 - p2.0, dy + p1.1 - p2.1, dz + p1.2 - p2.2)
    }
}

/// Whether the `i`-th ring voxel casts shadow onto face `f`.
pub open spec fn ring_shadow(
    gc: Map<(int, int, int), Voxel>,
    px: int,
    py: int,
    pz: int,
    f: int,
    i: int,
) -> bool {
    let (ox, oy, oz) = ring_offset(f, i);
    sample_at(gc, px, py, pz, ox, oy, oz).kind.spec_casts_shadow()
}

/// The three ring indices a corner samples: its two orthogonal neighbours
/// around its diagonal one.
pub open spec fn corner_ring(c: int, k: int) -> int {
    if c == 0 {
        if k == 0 {
            2
        } else if k == 1 {
            3
        } else {
            4
        }
    } else if c == 1 {
        if k == 0 {
            0
        } else if k == 1 {
            1
        } else {
            2
        }
    } else if c == 2 {
        if k == 0 {
            6
        } else if k == 1 {
            7
        } else {
            0
        }
    } else {
        if k == 0 {
            4
        } else if k == 1 {
            5
        } else {
            6
        }
    }
}

/// The ambient-occlusion class of corner `c` of face `f`, for a material
/// that receives shadow.
pub open spec fn spec_corner_ao(
    gc: Map<(int, int, int), Voxel>,
    px: int,
    py: int,
    pz: int,
    f: int,
    c: int,
) -> u32 {
    spec_ao_class(
        ring_shadow(gc, px, py, pz, f, corner_ring(c, 0)),
        ring_shadow(gc, px, py, pz, f, corner_ring(c, 1)),
        ring_shadow(gc, px, py, pz, f, corner_ring(c, 2)),
    )
}

/// The ambient-occlusion class written for corner `c` of face `f`: the
/// sampled class, or full brightness for materials that take no shadow.
pub open spec fn face_ao(
    gc: Map<(int, int, int), Voxel>,
    m: VoxelKind,
    px: int,
    py: int,
    pz: int,
    f: int,
    c: int,
) -> u32 {
    if m.spec_receives_shadow() {
        spec_corner_ao(gc, px, py, pz, f, c)
    } else {
        3
    }
}

/// The anisotropy correction: flip the quad's triangulation diagonal when
/// the other diagonal is lighter.
pub open spec fn face_flipped(
    gc: Map<(int, int, int), Voxel>,
    m: VoxelKind,
    px: int,
    py: int,
    pz: int,
    f: int,
) -> bool {
    face_ao(gc, m, px, py, pz, f, 0) + face_ao(gc, m, px, py, pz, f, 2) < face_ao(
        gc,
        m,
        px,
        py,
        pz,
        f,
        1,
    ) + face_ao(gc, m, px, py, pz, f, 3)
}

/// The corner id of the `k`-th of the six triangle-list vertices of a quad,
/// for the two triangulations.
pub open spec fn quad_corner(flip: bool, k: int) -> int {
    if flip {
        if k == 0 {
            3
        } else if k == 1 {
            1
        } else if k == 2 {
            0
        } else if k == 3 {
            3
        } else if k == 4 {
            2
        } else {
            1
        }
    } else {
        if k == 0 {
            2
        } else if k == 1 {
            1
        } else if k == 2 {
            0
        } else if k == 3 {
            3
        } else if k == 4 {
            2
        } else {
            0
        }
    }
}

/// The unit-cube coordinates of corner `c` of face `f`, in the winding
/// order the renderer expects.
pub open spec fn spec_corner(f: int, c: int) -> (int, int, int) {
    if f == 0 {
        if c == 0 {
            (1, 0, 0)
        } else if c == 1 {
            (1, 1, 0)
        } else if c == 2 {
            (0, 1, 0)
        } else {
            (0, 0, 0)
        }
    } else if f == 1 {
        if c == 0 {
            (0, 0, 1)
        } else if c == 1 {
            (0, 1, 1)
        } else if c == 2 {
            (1, 1, 1)
        } else {
            (1, 0, 1)
        }
    } else if f == 2 {
        if c == 0 {
            (0, 0, 0)
        } else if c == 1 {
            (0, 1, 0)
        } else if c == 2 {
            (0, 1, 1)
        } else {
            (0, 0, 1)
        }
    } else if f == 3 {
        if c == 0 {
            (1, 0, 1)
        } else if c == 1 {
            (1, 1, 1)
        } else if c == 2 {
            (1, 1, 0)
        } else {
            (1, 0, 0)
        }
    } else if f == 4 {
        if c == 0 {
            (0, 0, 1)
        } else if c == 1 {
            (1, 0, 1)
        } else if c == 2 {
            (1, 0, 0)
        } else {
            (0, 0, 0)
        }
    } else {
        if c == 0 {
            (0, 1, 0)
        } else if c == 1 {
            (1, 1, 0)
        } else if c == 2 {
            (1, 1, 1)
        } else {
            (0, 1, 1)
        }
    }
}

/// The `k`-th vertex position of face `f`'s quad: the octant corner plus
/// the face corner scaled by the octant's side length.
pub open spec fn face_vertex(
    gc: Map<(int, int, int), Voxel>,
    m: VoxelKind,
    px: int,
    py: int,
    pz: int,
    size: int,
    f: int,
    k: int,
) -> (i32, i32, i32) {
    let c = quad_corner(face_flipped(gc, m, px, py, pz, f), k);
    let (ux, uy, uz) = spec_corner(f, c);
    ((px + ux * size) as i32, (py + uy * size) as i32, (pz + uz * size) as i32)
}

/// The `k`-th packed attribute word of face `f`'s quad.
pub open spec fn face_word(
    gc: Map<(int, int, int), Voxel>,
    m: VoxelKind,
    px: int,
    py: int,
    pz: int,
    f: int,
    k: int,
) -> u32 {
    let c = quad_corner(face_flipped(gc, m, px, py, pz, f), k);
    (VertexData {
        normal_idx: f as u32,
        material: m,
        uv: c as u32,
        neighbours: face_ao(gc, m, px, py, pz, f, c),
    }).spec_packed() as u32
}

/// The vertex positions an octant's first `f` faces emit: six per visible
/// face, nothing for an occluded one.
pub open spec fn octant_positions_upto(
    gc: Map<(int, int, int), Voxel>,
    m: VoxelKind,
    px: int,
    py: int,
    pz: int,
    size: int,
    f: int,
) -> Seq<(i32, i32, i32)>
    decreases f,
{
    if f <= 0 {
        Seq::empty()
    } else {
        octant_positions_upto(gc, m, px, py, pz, size, f - 1) + (if face_visible(
            m,
            spec_adjacent(gc, px, py, pz, f - 1),
        ) {
            Seq::new(6, |k: int| face_vertex(gc, m, px, py, pz, size, f - 1, k))
        } else {
            Seq::empty()
        })
    }
}

/// The packed attribute words an octant's first `f` faces emit.
pub open spec fn octant_words_upto(
    gc: Map<(int, int, int), Voxel>,
    m: VoxelKind,
    px: int,
    py: int,
    pz: int,
    f: int,
) -> Seq<u32>
    decreases f,
{
    if f <= 0 {
        Seq::empty()
    } else {
        octant_words_upto(gc, m, px, py, pz, f - 1) + (if face_visible(
            m,
            spec_adjacent(gc, px, py, pz, f - 1),
        ) {
            Seq::new(6, |k: int| face_word(gc, m, px, py, pz, f - 1, k))
        } else {
            Seq::empty()
        })
    }
}

/// The vertex positions the first `n` octants emit: one run of quads per
/// homogeneous non-air octant, at the octant's own corner and scale.
pub open spec fn mesh_positions_upto(
    gc: Map<(int, int, int), Voxel>,
    octs: Seq<Octant<Voxel>>,
    n: int,
) -> Seq<(i32, i32, i32)>
    decreases n,
{
    if n <= 0 {
        Seq::empty()
    } else {
        mesh_positions_upto(gc, octs, n - 1) + (match octs[n - 1].kind {
            OctantKind::Chunk(v) => if v.kind != VoxelKind::Air {
                octant_positions_upto(
                    gc,
                    v.kind,
                    octs[n - 1].position.0 as int,
                    octs[n - 1].position.1 as int,
                    octs[n - 1].position.2 as int,
                    octs[n - 1].size as int,
                    6,
                )
            } else {
                Seq::empty()
            },
            OctantKind::Node(_) => Seq::empty(),
        })
    }
}

/// The packed attribute words the first `n` octants emit.
pub open spec fn mesh_words_upto(
    gc: Map<(int, int, int), Voxel>,
    octs: Seq<Octant<Voxel>>,
    n: int,
) -> Seq<u32>
    decreases n,
{
    if n <= 0 {
        Seq::empty()
    } else {
        mesh_words_upto(gc, octs, n - 1) + (match octs[n - 1].kind {
            OctantKind::Chunk(v) => if v.kind != VoxelKind::Air {
                octant_words_upto(
                    gc,
                    v.kind,
                    octs[n - 1].position.0 as int,
                    octs[n - 1].position.1 as int,
                    octs[n - 1].position.2 as int,
                    6,
                )
            } else {
                Seq::empty()
            },
            OctantKind::Node(_) => Seq::empty(),
        })
    }
}

/// Every entry of `adj_chunks` is a well-formed chunk sitting at one of the
/// four cardinal neighbour positions, each position at most once — exactly
/// the set a chunk's update pass hands the mesher.
pub open spec fn adjacent_ok(cp: ChunkPosition, adj: Seq<(ChunkPosition, ChunkVoxels)>) -> bool {
    &&& forall|n: int| 0 <= n < adj.len() ==> (#[trigger] adj[n]).1.wf()
    &&& forall|n: int|
        0 <= n < adj.len() ==> {
            let dx = (#[trigger] adj[n]).0.x - cp.x;
            let dz = adj[n].0.z - cp.z;
            (dx == -16 && dz == 0) || (dx == 16 && dz == 0) || (dx == 0 && dz == -16) || (dx == 0
                && dz == 16)
        }
    &&& forall|n1: int, n2: int|
        0 <= n1 < n2 < adj.len() ==> (#[trigger] adj[n1]).0 != (#[trigger] adj[n2]).0
}

/// The resident neighbour on the side at offset `(dx, dz)`, if any.
pub open spec fn side_chunk(
    adj: Seq<(ChunkPosition, ChunkVoxels)>,
    cp: ChunkPosition,
    dx: int,
    dz: int,
) -> Option<ChunkVoxels> {
    if exists|n: int|
        0 <= n < adj.len() && (#[trigger] adj[n]).0.x == cp.x + dx && adj[n].0.z == cp.z + dz {
        Some(
            adj[choose|n: int|
                0 <= n < adj.len() && (#[trigger] adj[n]).0.x == cp.x + dx && adj[n].0.z == cp.z
                    + dz].1,
        )
    } else {
        None
    }
}

/// What the padded grid holds once built: the chunk's voxels shifted one
/// step inward, each resident neighbour's facing edge plane in the border,
/// and air everywhere else (absent neighbours fail open).
pub open spec fn padded_voxel(
    cp: ChunkPosition,
    chunk: ChunkVoxels,
    adj: Seq<(ChunkPosition, ChunkVoxels)>,
    gx: int,
    gy: int,
    gz: int,
) -> Voxel {
    if 1 <= gx <= 16 && 1 <= gz <= 16 {
        chunk.spec_voxel(gx - 1, gy, gz - 1)
    } else if gx == 0 && 1 <= gz <= 16 {
        border_voxel(side_chunk(adj, cp, -16, 0), 15, gy, gz - 1)
    } else if gx == 17 && 1 <= gz <= 16 {
        border_voxel(side_chunk(adj, cp, 16, 0), 0, gy, gz - 1)
    } else if gz == 0 && 1 <= gx <= 16 {
        border_voxel(side_chunk(adj, cp, 0, -16), gx - 1, gy, 15)
    } else if gz == 17 && 1 <= gx <= 16 {
        border_voxel(side_chunk(adj, cp, 0, 16), gx - 1, gy, 0)
    } else {
        Voxel { kind: VoxelKind::Air }
    }
}

/// A resident neighbour's voxel, or air where no neighbour is resident.
pub open spec fn border_voxel(opt: Option<ChunkVoxels>, lx: int, y: int, lz: int) -> Voxel {
    match opt {
        Option::Some(c) => c.spec_voxel(lx, y, lz),
        Option::None => Voxel { kind: VoxelKind::Air },
    }
}

/// The whole padded grid as a map, the model `from_chunk`'s output is
/// stated against.
pub open spec fn padded_contents(
    cp: ChunkPosition,
    chunk: ChunkVoxels,
    adj: Seq<(ChunkPosition, ChunkVoxels)>,
) -> Map<(int, int, int), Voxel> {
    Map::new(
        |t: (int, int, int)| grid_in_range(t.0, t.1, t.2),
        |t: (int, int, int)| padded_voxel(cp, chunk, adj, t.0, t.1, t.2),
    )
}

/// Extending the neighbour list by an entry on a different side leaves a
/// side's chunk unchanged; the entry's own side becomes that chunk.
proof fn lemma_side_chunk_step(
    adj: Seq<(ChunkPosition, ChunkVoxels)>,
    cp: ChunkPosition,
    a: int,
    dx: int,
    dz: int,
)
    requires
        0 <= a < adj.len(),
        forall|n1: int, n2: int|
            0 <= n1 < n2 < adj.len() ==> (#[trigger] adj[n1]).0 != (#[trigger] adj[n2]).0,
    ensures
        adj[a].0.x == cp.x + dx && adj[a].0.z == cp.z + dz ==> side_chunk(
            adj.take(a + 1),
            cp,
            dx,
            dz,
        ) == Some(adj[a].1),
        !(adj[a].0.x == cp.x + dx && adj[a].0.z == cp.z + dz) ==> side_chunk(
            adj.take(a + 1),
            cp,
            dx,
            dz,
        ) == side_chunk(adj.take(a), cp, dx, dz),
{
    let pre = adj.take(a);
    let post = adj.take(a + 1);
    assert(forall|n: int| 0 <= n < a ==> post[n] == adj[n] && pre[n] == adj[n]);
    assert(post[a as int] == adj[a]);
    if adj[a].0.x == cp.x + dx && adj[a].0.z == cp.z + dz {
        assert(exists|n: int|
            0 <= n < post.len() && (#[trigger] post[n]).0.x == cp.x + dx && post[n].0.z == cp.z
                + dz);
        let n = choose|n: int|
            0 <= n < post.len() && (#[trigger] post[n]).0.x == cp.x + dx && post[n].0.z == cp.z
                + dz;
        assert(post[n].0 == adj[a].0);
        if n != a {
            assert(adj[n].0 != adj[a].0);
            assert(false);
        }
    } else {
        if exists|n: int|
            0 <= n < post.len() && (#[trigger] post[n]).0.x == cp.x + dx && post[n].0.z == cp.z
                + dz {
            let n = choose|n: int|
                0 <= n < post.len() && (#[trigger] post[n]).0.x == cp.x + dx && post[n].0.z == cp.z
                    + dz;
            assert(n != a);
            assert(pre[n] == post[n]);
            assert(exists|m: int|
                0 <= m < pre.len() && (#[trigger] pre[m]).0.x == cp.x + dx && pre[m].0.z == cp.z
                    + dz);
            let m1 = choose|m: int|
                0 <= m < pre.len() && (#[trigger] pre[m]).0.x == cp.x + dx && pre[m].0.z == cp.z
                    + dz;
            assert(pre[m1].0 == post[n].0);
            if m1 != n {
                assert(adj[m1].0 != adj[n].0);
                assert(false);
            }
        } else {
            assert(!exists|n: int|
                0 <= n < pre.len() && (#[trigger] pre[n]).0.x == cp.x + dx && pre[n].0.z == cp.z
                    + dz) by {
                if exists|n: int|
                    0 <= n < pre.len() && (#[trigger] pre[n]).0.x == cp.x + dx && pre[n].0.z
                        == cp.z + dz {
                    let n = choose|n: int|
                        0 <= n < pre.len() && (#[trigger] pre[n]).0.x == cp.x + dx && pre[n].0.z
                            == cp.z + dz;
                    assert(post[n].0.x == cp.x + dx && post[n].0.z == cp.z + dz);
                    assert(false);
                }
            }
        }
    }
}

/// A triangle mesh for one chunk: vertex positions in chunk-local integer
/// coordinates, and one packed attribute word per vertex, emitted as
/// non-indexed triangles, six vertices per face.
pub struct ChunkMesh {
    pub positions: Vec<(i32, i32, i32)>,
    pub data: Vec<u32>,
}

/// The two axes spanning face `f`'s plane, as executable values.
fn face_perps(f: usize) -> (r: ((i32, i32, i32), (i32, i32, i32)))
    requires
        f < 6,
    ensures
        (r.0.0 as int, r.0.1 as int, r.0.2 as int) == spec_perps(f as int).0,
        (r.1.0 as int, r.1.1 as int, r.1.2 as int) == spec_perps(f as int).1,
        -1 <= r.0.0 <= 1 && -1 <= r.0.1 <= 1 && -1 <= r.0.2 <= 1,
        -1 <= r.1.0 <= 1 && -1 <= r.1.1 <= 1 && -1 <= r.1.2 <= 1,
{
    match f {
        0 => ((0, 1, 0), (1, 0, 0)),
        1 => ((0, 1, 0), (-1, 0, 0)),
        2 => ((0, 1, 0), (0, 0, -1)),
        3 => ((0, 1, 0), (0, 0, 1)),
        4 => ((1, 0, 0), (0, 0, 1)),
        _ => ((1, 0, 0), (0, 0, -1)),
    }
}

/// The grid voxel at a unit offset from the octant corner.
fn adjacent_voxel(
    grid: &VoxelGrid,
    px: usize,
    py: usize,
    pz: usize,
    ox: i32,
    oy: i32,
    oz: i32,
) -> (r: Voxel)
    requires
        px < 16,
        py < 256,
        pz < 16,
        -1 <= ox <= 1,
        -1 <= oy <= 1,
        -1 <= oz <= 1,
        forall|x: int, y: int, z: int|
            #[trigger] grid_contents(*grid).dom().contains((x, y, z)) <==> grid_in_range(x, y, z),
    ensures
        r == sample_at(
            grid_contents(*grid),
            px as int,
            py as int,
            pz as int,
            ox as int,
            oy as int,
            oz as int,
        ),
{
    let y = py as i32 + oy;
    if y < 0 || y >= 256 {
        Voxel::air()
    } else {
        grid_get(
            grid,
            (px as i32 + ox + 1) as usize,
            y as usize,
            (pz as i32 + oz + 1) as usize,
        )
    }
}

/// The local-space coordinates of corner `c` of face `f` of a unit cube.
fn corner_offset(f: usize, c: usize) -> (r: (u32, u32, u32))
    requires
        f < 6,
        c < 4,
    ensures
        (r.0 as int, r.1 as int, r.2 as int) == spec_corner(f as int, c as int),
        r.0 <= 1 && r.1 <= 1 && r.2 <= 1,
{
    match (f, c) {
        (0, 0) => (1, 0, 0),
        (0, 1) => (1, 1, 0),
        (0, 2) => (0, 1, 0),
        (0, 3) => (0, 0, 0),
        (1, 0) => (0, 0, 1),
        (1, 1) => (0, 1, 1),
        (1, 2) => (1, 1, 1),
        (1, 3) => (1, 0, 1),
        (2, 0) => (0, 0, 0),
        (2, 1) => (0, 1, 0),
        (2, 2) => (0, 1, 1),
        (2, 3) => (0, 0, 1),
        (3, 0) => (1, 0, 1),
        (3, 1) => (1, 1, 1),
        (3, 2) => (1, 1, 0),
        (3, 3) => (1, 0, 0),
        (4, 0) => (0, 0, 1),
        (4, 1) => (1, 0, 1),
        (4, 2) => (1, 0, 0),
        (4, 3) => (0, 0, 0),
        (5, 0) => (0, 1, 0),
        (5, 1) => (1, 1, 0),
        (5, 2) => (1, 1, 1),
        _ => (0, 1, 1),
    }
}

/// The `i`-th voxel of the ring around face `f` of the octant corner.
#[verifier::rlimit(100)]
fn ring_voxel(
    grid: &VoxelGrid,
    px: usize,
    py: usize,
    pz: usize,
    f: usize,
    i: usize,
) -> (r: Voxel)
    requires
        px < 16,
        py < 256,
        pz < 16,
        f < 6,
        i < 8,
        forall|x: int, y: int, z: int|
            #[trigger] grid_contents(*grid).dom().contains((x, y, z)) <==> grid_in_range(x, y, z),
    ensures
        ({
            let (ox, oy, oz) = ring_offset(f as int, i as int);
            r == sample_at(grid_contents(*grid), px as int, py as int, pz as int, ox, oy, oz)
        }),
{
    let (dx, dy, dz): (i32, i32, i32) = match f {
        0 => (0, 0, -1),
        1 => (0, 0, 1),
        2 => (-1, 0, 0),
        3 => (1, 0, 0),
        4 => (0, -1, 0),
        _ => (0, 1, 0),
    };
    proof {
        assert(face_dir(f as int) == (dx as int, dy as int, dz as int));
    }
    let (p1, p2) = face_perps(f);
    let (ox, oy, oz): (i32, i32, i32) = match i {
        0 => (dx + p1.0, dy + p1.1, dz + p1.2),
        1 => (dx + p1.0 + p2.0, dy + p1.1 + p2.1, dz + p1.2 + p2.2),
        2 => (dx + p2.0, dy + p2.1, dz + p2.2),
        3 => (dx - p1.0 + p2.0, dy - p1.1 + p2.1, dz - p1.2 + p2.2),
        4 => (dx - p1.0, dy - p1.1, dz - p1.2),
        5 => (dx - p1.0 - p2.0, dy - p1.1 - p2.1, dz - p1.2 - p2.2),
        6 => (dx - p2.0, dy - p2.1, dz - p2.2),
        _ => (dx + p1.0 - p2.0, dy + p1.1 - p2.1, dz + p1.2 - p2.2),
    };
    proof {
        assert((ox as int, oy as int, oz as int) == ring_offset(f as int, i as int));
        assert(-1 <= ox <= 1 && -1 <= oy <= 1 && -1 <= oz <= 1);
    }
    adjacent_voxel(grid, px, py, pz, ox, oy, oz)
}

/// The four ambient-occlusion classes of a face's corners, sampled from the
/// eight voxels ringing the face, or full brightness for a material that
/// takes no shadow.
#[verifier::rlimit(100)]
fn face_ao_values(
    grid: &VoxelGrid,
    material: VoxelKind,
    px: usize,
    py: usize,
    pz: usize,
    f: usize,
) -> (ao: [u32; 4])
    requires
        px < 16,
        py < 256,
        pz < 16,
        f < 6,
        forall|x: int, y: int, z: int|
            #[trigger] grid_contents(*grid).dom().contains((x, y, z)) <==> grid_in_range(x, y, z),
    ensures
        forall|c: int|
            0 <= c < 4 ==> #[trigger] ao@[c] == face_ao(
                grid_contents(*grid),
                material,
                px as int,
                py as int,
                pz as int,
                f as int,
                c,
            ),
        forall|c: int| 0 <= c < 4 ==> #[trigger] ao@[c] < 4,
{
    let ghost gc = grid_contents(*grid);
    if !material.receives_shadow() {
        return [3, 3, 3, 3];
    }
    let n0 = ring_voxel(grid, px, py, pz, f, 0);
    let n1 = ring_voxel(grid, px, py, pz, f, 1);
    let n2 = ring_voxel(grid, px, py, pz, f, 2);
    let n3 = ring_voxel(grid, px, py, pz, f, 3);
    let n4 = ring_voxel(grid, px, py, pz, f, 4);
    let n5 = ring_voxel(grid, px, py, pz, f, 5);
    let n6 = ring_voxel(grid, px, py, pz, f, 6);
    let n7 = ring_voxel(grid, px, py, pz, f, 7);
    let s = [
        n0.casts_shadow(),
        n1.casts_shadow(),
        n2.casts_shadow(),
        n3.casts_shadow(),
        n4.casts_shadow(),
        n5.casts_shadow(),
        n6.casts_shadow(),
        n7.casts_shadow(),
    ];
    proof {
        let fi = f as int;
        let (pxi, pyi, pzi) = (px as int, py as int, pz as int);
        assert(s@[0] == ring_shadow(gc, pxi, pyi, pzi, fi, 0));
        assert(s@[1] == ring_shadow(gc, pxi, pyi, pzi, fi, 1));
        assert(s@[2] == ring_shadow(gc, pxi, pyi, pzi, fi, 2));
        assert(s@[3] == ring_shadow(gc, pxi, pyi, pzi, fi, 3));
        assert(s@[4] == ring_shadow(gc, pxi, pyi, pzi, fi, 4));
        assert(s@[5] == ring_shadow(gc, pxi, pyi, pzi, fi, 5));
        assert(s@[6] == ring_shadow(gc, pxi, pyi, pzi, fi, 6));
        assert(s@[7] == ring_shadow(gc, pxi, pyi, pzi, fi, 7));
    }
    let ao: [u32; 4] = [
        ao_class(s[2], s[3], s[4]),
        ao_class(s[0], s[1], s[2]),
        ao_class(s[6], s[7], s[0]),
        ao_class(s[4], s[5], s[6]),
    ];
    proof {
        let fi = f as int;
        let (pxi, pyi, pzi) = (px as int, py as int, pz as int);
        assert(ao@[0] == face_ao(gc, material, pxi, pyi, pzi, fi, 0));
        assert(ao@[1] == face_ao(gc, material, pxi, pyi, pzi, fi, 1));
        assert(ao@[2] == face_ao(gc, material, pxi, pyi, pzi, fi, 2));
        assert(ao@[3] == face_ao(gc, material, pxi, pyi, pzi, fi, 3));
    }
    ao
}

/// Emit the visible faces of one homogeneous octant into the mesh buffers:
/// exactly the six vertices per visible face of the emission model, with
/// per-corner ambient occlusion and the flipped triangulation where the
/// lighter diagonal wins.
#[verifier::rlimit(100)]
fn add_cube(
    grid: &VoxelGrid,
    positions: &mut Vec<(i32, i32, i32)>,
    data: &mut Vec<u32>,
    material: VoxelKind,
    px: usize,
    py: usize,
    pz: usize,
    size: usize,
)
    requires
        material != VoxelKind::Air,
        px < 16,
        py < 256,
        pz < 16,
        1 <= size <= 16,
        old(positions)@.len() == old(data)@.len(),
        forall|n: int| 0 <= n < old(data)@.len() ==> old(data)@[n] < 1024,
        forall|x: int, y: int, z: int|
            #[trigger] grid_contents(*grid).dom().contains((x, y, z)) <==> grid_in_range(x, y, z),
    ensures
        final(positions)@ == old(positions)@ + octant_positions_upto(
            grid_contents(*grid),
            material,
            px as int,
            py as int,
            pz as int,
            size as int,
            6,
        ),
        final(data)@ == old(data)@ + octant_words_upto(
            grid_contents(*grid),
            material,
            px as int,
            py as int,
            pz as int,
            6,
        ),
        final(positions)@.len() == final(data)@.len(),
        forall|n: int| 0 <= n < final(data)@.len() ==> final(data)@[n] < 1024,
{
    let ghost gc = grid_contents(*grid);
    let mut f: usize = 0;
    while f < 6
        invariant
            material != VoxelKind::Air,
            px < 16,
            py < 256,
            pz < 16,
            1 <= size <= 16,
            gc == grid_contents(*grid),
            forall|x: int, y: int, z: int|
                #[trigger] grid_contents(*grid).dom().contains((x, y, z)) <==> grid_in_range(
                    x,
                    y,
                    z,
                ),
            f <= 6,
            positions@.len() == data@.len(),
            positions@ == old(positions)@ + octant_positions_upto(
                gc,
                material,
                px as int,
                py as int,
                pz as int,
                size as int,
                f as int,
            ),
            data@ == old(data)@ + octant_words_upto(
                gc,
                material,
                px as int,
                py as int,
                pz as int,
                f as int,
            ),
            forall|n: int| 0 <= n < data@.len() ==> data@[n] < 1024,
        decreases 6 - f,
    {
        let (dx, dy, dz): (i32, i32, i32) = match f {
            0 => (0, 0, -1),
            1 => (0, 0, 1),
            2 => (-1, 0, 0),
            3 => (1, 0, 0),
            4 => (0, -1, 0),
            _ => (0, 1, 0),
        };
        let adj = adjacent_voxel(grid, px, py, pz, dx, dy, dz);
        let visible = {
            let t = adj.transparent();
            let same = adj.kind() == material;
            t && !same
        };
        proof {
            assert(face_dir(f as int) == (dx as int, dy as int, dz as int));
            assert(adj.kind == spec_adjacent(gc, px as int, py as int, pz as int, f as int));
            assert(visible == face_visible(material, spec_adjacent(gc, px as int, py as int,
            pz as int, f as int)));
        }
        if visible {
            let mut per_vertex = VertexData::new();
            per_vertex.set_normal_idx(f as u32);
            per_vertex.set_material(material);
            let ao = face_ao_values(grid, material, px, py, pz, f);
            // Flip the quad's diagonal when the other diagonal is lighter.
            let mut indices: [usize; 6] = [2, 1, 0, 3, 2, 0];
            let flip = ao[0] + ao[2] < ao[1] + ao[3];
            if flip {
                indices[0] = 3;
                indices[5] = 1;
            }
            proof {
                let fi = f as int;
                let (pxi, pyi, pzi) = (px as int, py as int, pz as int);
                assert(flip == face_flipped(gc, material, pxi, pyi, pzi, fi));
                assert(forall|k: int| 0 <= k < 6 ==> #[trigger] indices@[k] == quad_corner(
                    flip,
                    k,
                ));
            }
            let mut v: usize = 0;
            while v < 6
                invariant
                    material != VoxelKind::Air,
                    px < 16,
                    py < 256,
                    pz < 16,
                    1 <= size <= 16,
                    f < 6,
                    v <= 6,
                    gc == grid_contents(*grid),
                    per_vertex.normal_idx == f as u32,
                    per_vertex.material == material,
                    flip == face_flipped(gc, material, px as int, py as int, pz as int, f as int),
                    face_visible(
                        material,
                        spec_adjacent(gc, px as int, py as int, pz as int, f as int),
                    ),
                    forall|k: int| 0 <= k < 6 ==> #[trigger] indices@[k] == quad_corner(flip, k),
                    forall|k: int| 0 <= k < 6 ==> #[trigger] indices@[k] < 4,
                    forall|c: int|
                        0 <= c < 4 ==> #[trigger] ao@[c] == face_ao(
                            gc,
                            material,
                            px as int,
                            py as int,
                            pz as int,
                            f as int,
                            c,
                        ),
                    forall|c: int| 0 <= c < 4 ==> #[trigger] ao@[c] < 4,
                    positions@.len() == data@.len(),
                    positions@ == old(positions)@ + octant_positions_upto(
                        gc,
                        material,
                        px as int,
                        py as int,
                        pz as int,
                        size as int,
                        f as int,
                    ) + Seq::new(
                        v as nat,
                        |k: int|
                            face_vertex(
                                gc,
                                material,
                                px as int,
                                py as int,
                                pz as int,
                                size as int,
                                f as int,
                                k,
                            ),
                    ),
                    data@ == old(data)@ + octant_words_upto(
                        gc,
                        material,
                        px as int,
                        py as int,
                        pz as int,
                        f as int,
                    ) + Seq::new(
                        v as nat,
                        |k: int|
                            face_word(gc, material, px as int, py as int, pz as int, f as int, k),
                    ),
                    forall|n: int| 0 <= n < data@.len() ==> data@[n] < 1024,
                decreases 6 - v,
            {
                let idx = indices[v];
                let (ux, uy, uz) = corner_offset(f, idx);
                per_vertex.set_uv(idx as u32);
                per_vertex.set_neighbours(ao[idx]);
                let scale = size as u32;
                let sx: u32 = if ux == 0 {
                    0
                } else {
                    scale
                };
                let sy: u32 = if uy == 0 {
                    0
                } else {
                    scale
                };
                let sz2: u32 = if uz == 0 {
                    0
                } else {
                    scale
                };
                let vert = (px as i32 + sx as i32, py as i32 + sy as i32, pz as i32 + sz2 as i32);
                proof {
                    let fi = f as int;
                    let (pxi, pyi, pzi) = (px as int, py as int, pz as int);
                    assert(idx as int == quad_corner(flip, v as int));
                    assert((ux as int, uy as int, uz as int) == spec_corner(fi, idx as int));
                    assert(sx == ux * size && sy == uy * size && sz2 == uz * size);
                    assert(vert == face_vertex(gc, material, pxi, pyi, pzi, size as int, fi,
                    v as int));
                    assert(per_vertex.spec_packed() == face_word(gc, material, pxi, pyi, pzi, fi,
                    v as int));
                }
                positions.push(vert);
                data.push(per_vertex.to_u32());
                proof {
                    assert(Seq::new(
                        (v + 1) as nat,
                        |k: int|
                            face_vertex(
                                gc,
                                material,
                                px as int,
                                py as int,
                                pz as int,
                                size as int,
                                f as int,
                                k,
                            ),
                    ) =~= Seq::new(
                        v as nat,
                        |k: int|
                            face_vertex(
                                gc,
                                material,
                                px as int,
                                py as int,
                                pz as int,
                                size as int,
                                f as int,
                                k,
                            ),
                    ).push(vert));
                    assert(Seq::new(
                        (v + 1) as nat,
                        |k: int|
                            face_word(gc, material, px as int, py as int, pz as int, f as int, k),
                    ) =~= Seq::new(
                        v as nat,
                        |k: int|
                            face_word(gc, material, px as int, py as int, pz as int, f as int, k),
                    ).push(face_word(gc, material, px as int, py as int, pz as int, f as int,
                    v as int)));
                }
                v += 1;
            }
            proof {
                let fi = f as int;
                let (pxi, pyi, pzi) = (px as int, py as int, pz as int);
                assert(octant_positions_upto(gc, material, pxi, pyi, pzi, size as int, fi + 1)
                    == octant_positions_upto(gc, material, pxi, pyi, pzi, size as int, fi)
                    + Seq::new(
                    6,
                    |k: int| face_vertex(gc, material, pxi, pyi, pzi, size as int, fi, k),
                ));
                assert(octant_words_upto(gc, material, pxi, pyi, pzi, fi + 1) == octant_words_upto(
                    gc,
                    material,
                    pxi,
                    pyi,
                    pzi,
                    fi,
                ) + Seq::new(6, |k: int| face_word(gc, material, pxi, pyi, pzi, fi, k)));
            }
        } else {
            proof {
                let fi = f as int;
                let (pxi, pyi, pzi) = (px as int, py as int, pz as int);
                assert(octant_positions_upto(gc, material, pxi, pyi, pzi, size as int, fi + 1)
                    =~= octant_positions_upto(gc, material, pxi, pyi, pzi, size as int, fi));
                assert(octant_words_upto(gc, material, pxi, pyi, pzi, fi + 1)
                    =~= octant_words_upto(gc, material, pxi, pyi, pzi, fi));
            }
        }
        f += 1;
    }
}


/// The border plane a neighbour on side `side` fills (sides: low x, high x,
/// low z, high z).
pub open spec fn on_side_plane(side: int, gx: int, gz: int) -> bool {
    if side == 0 {
        gx == 0 && 1 <= gz <= 16
    } else if side == 1 {
        gx == 17 && 1 <= gz <= 16
    } else if side == 2 {
        gz == 0 && 1 <= gx <= 16
    } else {
        gz == 17 && 1 <= gx <= 16
    }
}

/// The running coordinate of a border-plane cell.
pub open spec fn side_pu(side: int, gx: int, gz: int) -> int {
    if side < 2 {
        gz - 1
    } else {
        gx - 1
    }
}

/// The neighbour-local coordinates a border-plane cell reads.
pub open spec fn side_src(side: int, gx: int, gy: int, gz: int) -> (int, int, int) {
    if side == 0 {
        (15, gy, gz - 1)
    } else if side == 1 {
        (0, gy, gz - 1)
    } else if side == 2 {
        (gx - 1, gy, 15)
    } else {
        (gx - 1, gy, 0)
    }
}

/// The chunk-grid offset of side `side`.
pub open spec fn side_delta(side: int) -> (int, int) {
    if side == 0 {
        (-16, 0)
    } else if side == 1 {
        (16, 0)
    } else if side == 2 {
        (0, -16)
    } else {
        (0, 16)
    }
}

/// Build the renderable mesh for one chunk from its voxels and its resident
/// cardinal neighbours' edge voxels: for every homogeneous non-air octant,
/// one quad (six non-indexed vertices) per face whose facing padded-grid
/// voxel lets it show, at the octant's corner and scale, each vertex tagged
/// with the packed normal/material/corner/occlusion word. Absent neighbours
/// contribute air at the border, so boundary faces fail open rather than
/// under-render.
#[verifier::rlimit(100)]
pub fn from_chunk(
    chunk_pos: ChunkPosition,
    chunk_voxels: &ChunkVoxels,
    adj_chunks: &Vec<(ChunkPosition, ChunkVoxels)>,
) -> (r: ChunkMesh)
    requires
        chunk_voxels.wf(),
        adjacent_ok(chunk_pos, adj_chunks@),
    ensures
        r.positions@ == mesh_positions_upto(
            padded_contents(chunk_pos, *chunk_voxels, adj_chunks@),
            chunk_octants(*chunk_voxels),
            chunk_octants(*chunk_voxels).len() as int,
        ),
        r.data@ == mesh_words_upto(
            padded_contents(chunk_pos, *chunk_voxels, adj_chunks@),
            chunk_octants(*chunk_voxels),
            chunk_octants(*chunk_voxels).len() as int,
        ),
        r.positions@.len() == r.data@.len(),
        r.positions@.len() % 6 == 0,
        forall|n: int| 0 <= n < r.data@.len() ==> r.data@[n] < 1024,
{
    let mut grid = grid_new(Voxel::air());
    // The chunk's own voxels fill the interior of the padded grid.
    let mut x: usize = 0;
    while x < 16
        invariant
            chunk_voxels.wf(),
            x <= 16,
            forall|gx: int, gy: int, gz: int|
                #[trigger] grid_contents(grid).dom().contains((gx, gy, gz)) <==> grid_in_range(
                    gx,
                    gy,
                    gz,
                ),
            forall|gx: int, gy: int, gz: int|
                grid_in_range(gx, gy, gz) ==> #[trigger] grid_contents(grid)[(gx, gy, gz)] == (
                if 1 <= gx <= 16 && 1 <= gz <= 16 && gx - 1 < x {
                    chunk_voxels.spec_voxel(gx - 1, gy, gz - 1)
                } else {
                    Voxel { kind: VoxelKind::Air }
                }),
        decreases 16 - x,
    {
        let mut y: usize = 0;
        while y < 256
            invariant
                chunk_voxels.wf(),
                x < 16,
                y <= 256,
                forall|gx: int, gy: int, gz: int|
                    #[trigger] grid_contents(grid).dom().contains((gx, gy, gz)) <==> grid_in_range(
                        gx,
                        gy,
                        gz,
                    ),
                forall|gx: int, gy: int, gz: int|
                    grid_in_range(gx, gy, gz) ==> #[trigger] grid_contents(grid)[(gx, gy, gz)] == (
                    if 1 <= gx <= 16 && 1 <= gz <= 16 && (gx - 1 < x || (gx - 1 == x && gy < y)) {
                        chunk_voxels.spec_voxel(gx - 1, gy, gz - 1)
                    } else {
                        Voxel { kind: VoxelKind::Air }
                    }),
            decreases 256 - y,
        {
            let mut z: usize = 0;
            while z < 16
                invariant
                    chunk_voxels.wf(),
                    x < 16,
                    y < 256,
                    z <= 16,
                    forall|gx: int, gy: int, gz: int|
                        #[trigger] grid_contents(grid).dom().contains((gx, gy, gz))
                            <==> grid_in_range(gx, gy, gz),
                    forall|gx: int, gy: int, gz: int|
                        grid_in_range(gx, gy, gz) ==> #[trigger] grid_contents(grid)[(gx, gy, gz)]
                            == (if 1 <= gx <= 16 && 1 <= gz <= 16 && (gx - 1 < x || (gx - 1 == x
                            && (gy < y || (gy == y && gz - 1 < z)))) {
                            chunk_voxels.spec_voxel(gx - 1, gy, gz - 1)
                        } else {
                            Voxel { kind: VoxelKind::Air }
                        }),
                decreases 16 - z,
            {
                let v = *chunk_voxels.voxel(
                    crate::voxel::LocalVoxelPosition::new(x as u32, y as u32, z as u32),
                );
                grid_set(&mut grid, x + 1, y, z + 1, v);
                z += 1;
            }
            y += 1;
        }
        x += 1;
    }
    // Each resident neighbour contributes its facing edge plane to the
    // border, for culling and ambient occlusion across chunk seams.
    proof {
        assert forall|gx: int, gy: int, gz: int|
            grid_in_range(gx, gy, gz) implies #[trigger] grid_contents(grid)[(gx, gy, gz)]
            == padded_voxel(chunk_pos, *chunk_voxels, adj_chunks@.take(0), gx, gy, gz) by {
            assert(adj_chunks@.take(0).len() == 0);
        }
    }
    let mut a: usize = 0;
    while a < adj_chunks.len()
        invariant
            chunk_voxels.wf(),
            adjacent_ok(chunk_pos, adj_chunks@),
            a <= adj_chunks@.len(),
            forall|gx: int, gy: int, gz: int|
                #[trigger] grid_contents(grid).dom().contains((gx, gy, gz)) <==> grid_in_range(
                    gx,
                    gy,
                    gz,
                ),
            forall|gx: int, gy: int, gz: int|
                grid_in_range(gx, gy, gz) ==> #[trigger] grid_contents(grid)[(gx, gy, gz)]
                    == padded_voxel(chunk_pos, *chunk_voxels, adj_chunks@.take(a as int), gx, gy,
                gz),
        decreases adj_chunks@.len() - a,
    {
        let (adj_pos, _) = &adj_chunks[a];
        let adj_pos = *adj_pos;
        let dxc = adj_pos.x() as i64 - chunk_pos.x() as i64;
        let dzc = adj_pos.z() as i64 - chunk_pos.z() as i64;
        let side: u8 = if dxc == -16 && dzc == 0 {
            0
        } else if dxc == 16 && dzc == 0 {
            1
        } else if dxc == 0 && dzc == -16 {
            2
        } else if dxc == 0 && dzc == 16 {
            3
        } else {
            vstd::pervasive::unreached()
        };
        proof {
            assert((adj_pos.x - chunk_pos.x, adj_pos.z - chunk_pos.z) == side_delta(side as int));
        }
        let mut u: usize = 0;
        while u < 16
            invariant
                chunk_voxels.wf(),
                adjacent_ok(chunk_pos, adj_chunks@),
                a < adj_chunks@.len(),
                u <= 16,
                side <= 3,
                (adj_chunks@[a as int].0.x - chunk_pos.x, adj_chunks@[a as int].0.z - chunk_pos.z)
                    == side_delta(side as int),
                forall|gx: int, gy: int, gz: int|
                    #[trigger] grid_contents(grid).dom().contains((gx, gy, gz)) <==> grid_in_range(
                        gx,
                        gy,
                        gz,
                    ),
                forall|gx: int, gy: int, gz: int|
                    grid_in_range(gx, gy, gz) ==> #[trigger] grid_contents(grid)[(gx, gy, gz)] == (
                    if on_side_plane(side as int, gx, gz) && side_pu(side as int, gx, gz)
                        < u as int {
                        ({
                            let (sx, sy, sz2) = side_src(side as int, gx, gy, gz);
                            adj_chunks@[a as int].1.spec_voxel(sx, sy, sz2)
                        })
                    } else {
                        padded_voxel(
                            chunk_pos,
                            *chunk_voxels,
                            adj_chunks@.take(a as int),
                            gx,
                            gy,
                            gz,
                        )
                    }),
            decreases 16 - u,
        {
            let mut y: usize = 0;
            while y < 256
                invariant
                    chunk_voxels.wf(),
                    adjacent_ok(chunk_pos, adj_chunks@),
                    a < adj_chunks@.len(),
                    u < 16,
                    y <= 256,
                    side <= 3,
                    (adj_chunks@[a as int].0.x - chunk_pos.x, adj_chunks@[a as int].0.z
                        - chunk_pos.z) == side_delta(side as int),
                    forall|gx: int, gy: int, gz: int|
                        #[trigger] grid_contents(grid).dom().contains((gx, gy, gz))
                            <==> grid_in_range(gx, gy, gz),
                    forall|gx: int, gy: int, gz: int|
                        grid_in_range(gx, gy, gz) ==> #[trigger] grid_contents(grid)[(gx, gy, gz)]
                            == (if on_side_plane(side as int, gx, gz) && (side_pu(
                            side as int,
                            gx,
                            gz,
                        ) < u as int || (side_pu(side as int, gx, gz) == u as int && gy
                            < y as int)) {
                            ({
                                let (sx, sy, sz2) = side_src(side as int, gx, gy, gz);
                                adj_chunks@[a as int].1.spec_voxel(sx, sy, sz2)
                            })
                        } else {
                            padded_voxel(
                                chunk_pos,
                                *chunk_voxels,
                                adj_chunks@.take(a as int),
                                gx,
                                gy,
                                gz,
                            )
                        }),
                decreases 256 - y,
            {
                let adj = &adj_chunks[a].1;
                // The edge voxel facing this chunk, and where it lands in
                // the padding.
                let (lx, lz, gx, gz): (u32, u32, usize, usize) = match side {
                    0 => (15, u as u32, 0, u + 1),
                    1 => (0, u as u32, 17, u + 1),
                    2 => (u as u32, 15, u + 1, 0),
                    _ => (u as u32, 0, u + 1, 17),
                };
                let v = *adj.voxel(crate::voxel::LocalVoxelPosition::new(lx, y as u32, lz));
                proof {
                    assert(on_side_plane(side as int, gx as int, gz as int));
                    assert(side_pu(side as int, gx as int, gz as int) == u as int);
                    assert(side_src(side as int, gx as int, y as int, gz as int) == (
                        lx as int,
                        y as int,
                        lz as int,
                    ));
                }
                grid_set(&mut grid, gx, y, gz, v);
                y += 1;
            }
            u += 1;
        }
        proof {
            // the whole plane is written: the grid now matches the model
            // with this neighbour included
            assert forall|gx: int, gy: int, gz: int|
                grid_in_range(gx, gy, gz) implies #[trigger] grid_contents(grid)[(gx, gy, gz)]
                == padded_voxel(
                chunk_pos,
                *chunk_voxels,
                adj_chunks@.take(a + 1),
                gx,
                gy,
                gz,
            ) by {
                let sd = side_delta(side as int);
                lemma_side_chunk_step(adj_chunks@, chunk_pos, a as int, sd.0, sd.1);
                lemma_side_chunk_step(adj_chunks@, chunk_pos, a as int, -16, 0);
                lemma_side_chunk_step(adj_chunks@, chunk_pos, a as int, 16, 0);
                lemma_side_chunk_step(adj_chunks@, chunk_pos, a as int, 0, -16);
                lemma_side_chunk_step(adj_chunks@, chunk_pos, a as int, 0, 16);
            }
        }
        a += 1;
    }
    proof {
        assert(adj_chunks@.take(adj_chunks@.len() as int) == adj_chunks@);
        assert(grid_contents(grid) =~= padded_contents(chunk_pos, *chunk_voxels, adj_chunks@));
    }
    // One pass over the homogeneous octants; a region of air emits nothing.
    let ghost gcm = grid_contents(grid);
    let mut positions: Vec<(i32, i32, i32)> = Vec::new();
    let mut data: Vec<u32> = Vec::new();
    let octants = chunk_voxels.iter_octants();
    let mut n: usize = 0;
    while n < octants.len()
        invariant
            n <= octants@.len(),
            gcm == grid_contents(grid),
            octants@ == chunk_octants(*chunk_voxels),
            forall|gx: int, gy: int, gz: int|
                #[trigger] grid_contents(grid).dom().contains((gx, gy, gz)) <==> grid_in_range(
                    gx,
                    gy,
                    gz,
                ),
            positions@ == mesh_positions_upto(gcm, octants@, n as int),
            data@ == mesh_words_upto(gcm, octants@, n as int),
            positions@.len() == data@.len(),
            positions@.len() % 6 == 0,
            forall|m: int| 0 <= m < data@.len() ==> data@[m] < 1024,
            forall|m: int|
                0 <= m < octants@.len() ==> {
                    let o = #[trigger] octants@[m];
                    &&& 1 <= o.size <= CHUNK_SIZE
                    &&& o.position.0 + o.size <= CHUNK_SIZE
                    &&& o.position.1 + o.size <= MAX_HEIGHT
                    &&& o.position.2 + o.size <= CHUNK_SIZE
                },
        decreases octants@.len() - n,
    {
        let o = octants[n];
        let ghost before = positions@.len() as int;
        match o.kind {
            OctantKind::Chunk(v) => {
                if v.should_mesh() {
                    add_cube(
                        &grid,
                        &mut positions,
                        &mut data,
                        v.kind(),
                        o.position.x(),
                        o.position.y(),
                        o.position.z(),
                        o.size,
                    );
                    proof {
                        lemma_octant_emission_len(
                            gcm,
                            v.kind,
                            o.position.0 as int,
                            o.position.1 as int,
                            o.position.2 as int,
                            o.size as int,
                            6,
                        );
                    }
                }
            },
            OctantKind::Node(_) => {},
        }
        n += 1;
    }
    ChunkMesh { positions, data }
}

/// An octant emits exactly six vertices per visible face, so the culling
/// law reads directly off the mesh: an all-occluded octant contributes
/// nothing and a fully exposed one six quads.
pub proof fn lemma_emission_count(
    gc: Map<(int, int, int), Voxel>,
    m: VoxelKind,
    px: int,
    py: int,
    pz: int,
    size: int,
    f: int,
)
    ensures
        octant_positions_upto(gc, m, px, py, pz, size, f).len() == 6 * emitted_upto(
            gc,
            m,
            px,
            py,
            pz,
            f,
        ),
    decreases f,
{
    if f > 0 {
        lemma_emission_count(gc, m, px, py, pz, size, f - 1);
    }
}

/// An octant's first `f` faces emit six positions and six words per visible
/// face: the two buffers stay in step and grow by whole faces.
proof fn lemma_octant_emission_len(
    gc: Map<(int, int, int), Voxel>,
    m: VoxelKind,
    px: int,
    py: int,
    pz: int,
    size: int,
    f: int,
)
    ensures
        octant_positions_upto(gc, m, px, py, pz, size, f).len() == octant_words_upto(
            gc,
            m,
            px,
            py,
            pz,
            f,
        ).len(),
        octant_positions_upto(gc, m, px, py, pz, size, f).len() % 6 == 0,
    decreases f,
{
    if f > 0 {
        lemma_octant_emission_len(gc, m, px, py, pz, size, f - 1);
    }
}

} // verus!
