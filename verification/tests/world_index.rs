use cormine::chunk::ChunkPosition;
use cormine::terrain::{NoiseField, NoiseSample};
use cormine::voxel::VoxelPosition;
use cormine::world::{chunks_to_remesh, plan_chunk_updates, World};

fn tiny_field() -> NoiseField {
    let s = NoiseSample { height_offset: 0, sea_floor: 0 };
    NoiseField::new(2, 2, vec![s, s, s, s])
}

#[test]
fn world_add_lookup_remove() {
    let mut w: World<u64> = World::new(9, tiny_field());
    assert_eq!(w.chunk_count(), 0);
    let a = ChunkPosition::new(0, 0);
    let b = ChunkPosition::new(-16, 32);
    w.add_chunk(a, 100);
    w.add_chunk(b, 200);
    assert_eq!(w.chunk_count(), 2);
    assert_eq!(w.chunk_at(a), Some(100));
    assert_eq!(w.chunk_at(b), Some(200));
    assert_eq!(w.chunk_at(ChunkPosition::new(16, 0)), None);
    assert_eq!(w.chunk_containing(VoxelPosition::new(-1, 70, 47)), Some(200));
    assert_eq!(w.chunk_containing(VoxelPosition::new(15, 0, 15)), Some(100));
    w.remove_chunk(a);
    assert_eq!(w.chunk_at(a), None);
    assert_eq!(w.chunk_count(), 1);
}

#[test]
fn edits_invalidate_boundary_neighbours() {
    // interior voxel: only its own chunk
    let r = chunks_to_remesh(VoxelPosition::new(5, 70, 5));
    assert_eq!(r.len(), 1);
    assert_eq!((r[0].x(), r[0].z()), (0, 0));
    // on the low-x border: the chunk to the west too
    let r = chunks_to_remesh(VoxelPosition::new(16, 70, 5));
    assert_eq!(r.len(), 2);
    assert_eq!((r[1].x(), r[1].z()), (0, 0));
    // a corner voxel of a negative chunk touches both neighbours
    let r = chunks_to_remesh(VoxelPosition::new(-1, 70, -16));
    assert_eq!(r.len(), 3);
    assert_eq!((r[0].x(), r[0].z()), (-16, -16));
    assert_eq!((r[1].x(), r[1].z()), (0, -16));
    assert_eq!((r[2].x(), r[2].z()), (-16, -32));
}

#[test]
fn spawn_distance_and_range() {
    let c = ChunkPosition::new(-48, 32);
    assert_eq!(c.spawn_distance(), 48);
    assert!(c.in_range_of_spawn(48));
    assert!(!ChunkPosition::new(64, 0).in_range_of_spawn(32));
}

#[test]
fn plan_generates_missing_and_unloads_stale() {
    let mut w: World<u64> = World::new(1, tiny_field());
    w.add_chunk(ChunkPosition::new(0, 0), 1);
    w.add_chunk(ChunkPosition::new(160, 0), 2);
    let resident = vec![ChunkPosition::new(0, 0), ChunkPosition::new(160, 0)];
    let (footprint, to_generate, to_unload) =
        plan_chunk_updates(&w, &resident, ChunkPosition::new(0, 0), 1);
    // the radius-1 spiral visits the origin's ring of nine chunks
    assert_eq!(footprint.len(), 9);
    assert!(footprint.contains(&ChunkPosition::new(-16, 16)));
    // the resident origin chunk is skipped, the other eight are generated
    assert_eq!(to_generate.len(), 8);
    assert!(!to_generate.contains(&ChunkPosition::new(0, 0)));
    // the far-away resident chunk is unloaded
    assert_eq!(to_unload, vec![ChunkPosition::new(160, 0)]);
}
