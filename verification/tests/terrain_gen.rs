use cormine::terrain::{
    block_at_position, generate_chunk_voxels, ground_height_to_voxel, spiral, NoiseField,
    NoiseSample,
};
use cormine::chunk::ChunkPosition;
use cormine::voxel::{LocalVoxelPosition, VoxelKind, VoxelPosition};

use noise::utils::{NoiseMapBuilder, PlaneMapBuilder};
use noise::{BasicMulti, Perlin, ScalePoint};

/// The same multi-octave noise the game samples, reduced to the two
/// integers per column the terrain formula reads.
fn field_from_seed(seed: u32) -> NoiseField {
    let mut basic_multi = BasicMulti::<Perlin>::new(seed);
    basic_multi.octaves = 4;
    basic_multi.persistence = 0.5;
    basic_multi.lacunarity = 2.0;

    let mut scaled_bm: ScalePoint<_> = ScalePoint::new(basic_multi);
    scaled_bm.x_scale = 4.5;
    scaled_bm.y_scale = 4.5;

    let map = PlaneMapBuilder::<_, 3>::new(scaled_bm).set_size(1024, 1024).build();
    let mut samples = Vec::with_capacity(1024 * 1024);
    for z in 0..1024 {
        for x in 0..1024 {
            let v = map.get_value(x, z);
            samples.push(NoiseSample {
                height_offset: (v.powf(2.0) * 256.0) as u32,
                sea_floor: (v.powf(1.2) * 256.0) as u32,
            });
        }
    }
    NoiseField::new(1024, 1024, samples)
}

#[test]
fn ground_material_thresholds() {
    assert_eq!(ground_height_to_voxel(101, true), VoxelKind::Snow);
    assert_eq!(ground_height_to_voxel(101, false), VoxelKind::Stone);
    assert_eq!(ground_height_to_voxel(70, true), VoxelKind::Grass);
    assert_eq!(ground_height_to_voxel(70, false), VoxelKind::Dirt);
    assert_eq!(ground_height_to_voxel(49, true), VoxelKind::Stone);
    assert_eq!(ground_height_to_voxel(97, false), VoxelKind::Stone);
}

#[test]
fn generator_formula_on_synthetic_samples() {
    // a sea column: stone below the floor, two layers of water, air above
    let sea = NoiseSample { height_offset: 0, sea_floor: 10 };
    let mut samples = Vec::new();
    for _ in 0..4 {
        samples.push(sea);
    }
    let field = NoiseField::new(2, 2, samples);
    assert_eq!(block_at_position(VoxelPosition::new(0, 31, 0), &field), VoxelKind::Stone);
    assert_eq!(block_at_position(VoxelPosition::new(0, 32, 0), &field), VoxelKind::Water);
    assert_eq!(block_at_position(VoxelPosition::new(0, 65, 0), &field), VoxelKind::Water);
    assert_eq!(block_at_position(VoxelPosition::new(0, 66, 0), &field), VoxelKind::Air);
    // a ground column of height 64 + 16 = 80: grass on top, dirt below
    let hill = NoiseSample { height_offset: 16, sea_floor: 0 };
    let field = NoiseField::new(2, 2, vec![hill, hill, hill, hill]);
    assert_eq!(block_at_position(VoxelPosition::new(0, 80, 0), &field), VoxelKind::Grass);
    assert_eq!(block_at_position(VoxelPosition::new(0, 79, 0), &field), VoxelKind::Dirt);
    assert_eq!(block_at_position(VoxelPosition::new(0, 81, 0), &field), VoxelKind::Air);
    assert_eq!(block_at_position(VoxelPosition::new(0, 30, 0), &field), VoxelKind::Stone);
    // a tall column clamps at the world ceiling and gets snow
    let peak = NoiseSample { height_offset: 200, sea_floor: 0 };
    let field = NoiseField::new(2, 2, vec![peak, peak, peak, peak]);
    assert_eq!(block_at_position(VoxelPosition::new(0, 255, 0), &field), VoxelKind::Snow);
}

#[test]
fn generator_deterministic() {
    let field = field_from_seed(7);
    let p = VoxelPosition::new(3, 70, -5);
    assert_eq!(block_at_position(p, &field), block_at_position(p, &field));
    // a different seed gives a different field somewhere
    let other = field_from_seed(8);
    let mut any_diff = false;
    for x in -50..50 {
        if block_at_position(VoxelPosition::new(x, 70, 0), &field)
            != block_at_position(VoxelPosition::new(x, 70, 0), &other)
        {
            any_diff = true;
        }
    }
    assert!(any_diff);
}

#[test]
fn block_at_spawn_matches_reference_run() {
    let field = field_from_seed(42);
    let got = block_at_position(VoxelPosition::new(0, 70, 0), &field);
    assert_eq!(got, VoxelKind::Air);
}

#[test]
fn generated_chunk_matches_generator() {
    let field = field_from_seed(3);
    let cp = ChunkPosition::new(16, -32);
    let chunk = generate_chunk_voxels(cp, &field);
    for (x, y, z) in [(0u32, 0u32, 0u32), (15, 70, 15), (7, 255, 3), (4, 64, 9)] {
        let local = LocalVoxelPosition::new(x, y, z);
        let world = VoxelPosition::new(16 + x as i32, y as i32, -32 + z as i32);
        assert_eq!(chunk.voxel(local).kind(), block_at_position(world, &field));
    }
}

#[test]
fn spiral_covers_square_in_walk_order() {
    let pts = spiral(2, 2);
    assert_eq!(pts.len(), 25);
    assert_eq!(&pts[..5], &[(0, 0), (1, 0), (1, 1), (0, 1), (-1, 1)]);
    for dx in -2i64..=2 {
        for dy in -2i64..=2 {
            assert!(pts.contains(&(dx, dy)), "missing ({dx},{dy})");
        }
    }
    // no duplicates
    for i in 0..pts.len() {
        for j in 0..i {
            assert_ne!(pts[i], pts[j]);
        }
    }
    assert_eq!(spiral(-1, -1).len(), 0);
}
