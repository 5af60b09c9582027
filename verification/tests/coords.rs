use cormine::chunk::ChunkPosition;
use cormine::voxel::{LocalVoxelPosition, Voxel, VoxelKind, VoxelPosition};

#[test]
fn chunk_of_negative_voxel_rounds_down() {
    let v = VoxelPosition::new(-1, 5, -1);
    let c = ChunkPosition::of_voxel(v);
    assert_eq!(c.x(), -16);
    assert_eq!(c.z(), -16);
    let l = LocalVoxelPosition::of_world(v);
    assert_eq!((l.x(), l.y(), l.z()), (15, 5, 15));
}

#[test]
fn coordinate_round_trip() {
    for &(x, y, z) in &[
        (0i32, 0i32, 0i32),
        (-1, 5, -1),
        (17, 255, -33),
        (-16, 0, 16),
        (12345, 100, -54321),
    ] {
        let v = VoxelPosition::new(x, y, z);
        let c = ChunkPosition::of_voxel(v);
        let l = LocalVoxelPosition::of_world(v);
        let back = c.add_local(l);
        assert_eq!((back.x(), back.y(), back.z()), (x, y, z));
        assert!(l.x() < 16 && l.z() < 16);
    }
}

#[test]
fn neighbouring_chunks_are_cardinal() {
    let c = ChunkPosition::new(32, -16);
    let n = c.neighbouring_chunks().all();
    assert_eq!((n[0].x(), n[0].z()), (16, -16));
    assert_eq!((n[1].x(), n[1].z()), (48, -16));
    assert_eq!((n[2].x(), n[2].z()), (32, -32));
    assert_eq!((n[3].x(), n[3].z()), (32, 0));
}

#[test]
fn voxel_kind_byte_round_trip() {
    for k in [
        VoxelKind::Air,
        VoxelKind::Stone,
        VoxelKind::Grass,
        VoxelKind::Water,
        VoxelKind::Snow,
        VoxelKind::Dirt,
    ] {
        assert_eq!(VoxelKind::from_byte(k.to_byte()), Some(k));
    }
    assert_eq!(VoxelKind::Air.to_byte(), 255);
    assert_eq!(VoxelKind::Stone.to_byte(), 0);
    assert_eq!(VoxelKind::from_byte(9), None);
}

#[test]
fn voxel_flags() {
    let air = Voxel { kind: VoxelKind::Air };
    let water = Voxel { kind: VoxelKind::Water };
    let stone = Voxel { kind: VoxelKind::Stone };
    assert!(!air.should_mesh());
    assert!(stone.should_mesh());
    assert!(air.transparent() && water.transparent() && !stone.transparent());
    assert!(!air.casts_shadow() && !water.casts_shadow() && stone.casts_shadow());
    assert!(!air.has_collision() && !water.has_collision() && stone.has_collision());
    let mut v = stone;
    v.clear();
    assert_eq!(v.kind(), VoxelKind::Air);
}
