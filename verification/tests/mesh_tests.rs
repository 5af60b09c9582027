use cormine::chunk::{ChunkPosition, ChunkVoxels};
use cormine::mesh::{from_chunk, VertexData};
use cormine::voxel::{LocalVoxelPosition, VoxelKind};

fn lone_voxel_chunk(kind: VoxelKind) -> ChunkVoxels {
    let mut c = ChunkVoxels::new();
    c.voxel_mut(LocalVoxelPosition::new(8, 100, 8)).kind = kind;
    c
}

#[test]
fn lone_voxel_emits_six_faces() {
    let c = lone_voxel_chunk(VoxelKind::Stone);
    let mesh = from_chunk(ChunkPosition::new(0, 0), &c, &Vec::new());
    // six faces, two triangles each, non-indexed
    assert_eq!(mesh.positions.len(), 6 * 6);
    assert_eq!(mesh.data.len(), mesh.positions.len());
}

#[test]
fn fully_surrounded_voxel_emits_no_faces() {
    let mut c = lone_voxel_chunk(VoxelKind::Stone);
    for (dx, dy, dz) in [
        (1i32, 0i32, 0i32),
        (-1, 0, 0),
        (0, 1, 0),
        (0, -1, 0),
        (0, 0, 1),
        (0, 0, -1),
    ] {
        let l = LocalVoxelPosition::new((8 + dx) as u32, (100 + dy) as u32, (8 + dz) as u32);
        c.voxel_mut(l).kind = VoxelKind::Dirt;
    }
    let mesh = from_chunk(ChunkPosition::new(0, 0), &c, &Vec::new());
    // the centre voxel is fully occluded and contributes nothing; each of
    // the six neighbours shows five faces of its own
    assert_eq!(mesh.positions.len(), 6 * 5 * 6);
}

#[test]
fn adjacent_water_produces_no_seam() {
    let mut c = ChunkVoxels::new();
    c.voxel_mut(LocalVoxelPosition::new(4, 50, 4)).kind = VoxelKind::Water;
    c.voxel_mut(LocalVoxelPosition::new(5, 50, 4)).kind = VoxelKind::Water;
    let mesh = from_chunk(ChunkPosition::new(0, 0), &c, &Vec::new());
    // two cubes, minus the two touching faces
    assert_eq!(mesh.positions.len(), (12 - 2) * 6);
}

#[test]
fn neighbour_chunk_occludes_border_face() {
    // a solid voxel on this chunk's +x border, and a resident neighbour
    // whose facing edge voxel is solid too: the shared face is culled
    let mut c = ChunkVoxels::new();
    c.voxel_mut(LocalVoxelPosition::new(15, 100, 8)).kind = VoxelKind::Stone;
    let mut adj = ChunkVoxels::new();
    adj.voxel_mut(LocalVoxelPosition::new(0, 100, 8)).kind = VoxelKind::Dirt;
    let here = ChunkPosition::new(0, 0);
    let mesh_alone = from_chunk(here, &c, &Vec::new());
    let neighbours = vec![(ChunkPosition::new(16, 0), adj)];
    let mesh_with = from_chunk(here, &c, &neighbours);
    assert_eq!(mesh_alone.positions.len(), 6 * 6);
    assert_eq!(mesh_with.positions.len(), 5 * 6);
}

#[test]
fn vertex_data_bit_layout() {
    let mut v = VertexData::new();
    v.set_normal_idx(5);
    v.set_material(VoxelKind::Dirt);
    v.set_uv(2);
    v.set_neighbours(3);
    // bits 0..3 normal, 3..6 material byte, 6..8 corner, 8..10 occlusion
    assert_eq!(v.to_u32(), 5 | (4 << 3) | (2 << 6) | (3 << 8));
    let mut w = VertexData::new();
    w.set_normal_idx(0);
    w.set_material(VoxelKind::Stone);
    w.set_uv(0);
    w.set_neighbours(0);
    assert_eq!(w.to_u32(), 0);
}

#[test]
fn mesh_data_words_fit_ten_bits() {
    let c = lone_voxel_chunk(VoxelKind::Grass);
    let mesh = from_chunk(ChunkPosition::new(0, 0), &c, &Vec::new());
    for w in mesh.data.iter() {
        assert!(*w < 1024);
    }
}
