use cormine::chunk::{ChunkPosition, ChunkVoxels};
use cormine::save::{apply_diff, SaveData, SaveError, Serializer};
use cormine::terrain::{generate_chunk_voxels, NoiseField, NoiseSample};
use cormine::voxel::{LocalVoxelPosition, VoxelKind, VoxelPosition};

#[test]
fn leb128_unsigned_round_trip() {
    for &v in &[0u64, 1, 127, 128, 300, 16384, u64::MAX, u64::MAX - 1, 1 << 32] {
        let mut w = Serializer::new(Vec::new());
        w.write_leb128_unsigned(v).unwrap();
        let mut r = Serializer::new(w.bytes);
        assert_eq!(r.read_leb128_unsigned().unwrap(), v);
        assert_eq!(r.pos, r.bytes.len());
    }
}

#[test]
fn leb128_signed_round_trip() {
    for &v in &[
        0i64,
        1,
        -1,
        63,
        64,
        -64,
        -65,
        127,
        128,
        i64::MAX,
        i64::MIN,
        -300,
        1 << 40,
    ] {
        let mut w = Serializer::new(Vec::new());
        w.write_leb128_signed(v).unwrap();
        let mut r = Serializer::new(w.bytes);
        assert_eq!(r.read_leb128_signed().unwrap(), v);
        assert_eq!(r.pos, r.bytes.len());
    }
}

#[test]
fn leb128_matches_reference_encoder() {
    for &v in &[0i64, 1, -1, 64, -65, 123456789, -987654321, i64::MAX, i64::MIN] {
        let mut w = Serializer::new(Vec::new());
        w.write_leb128_signed(v).unwrap();
        let mut reference = Vec::new();
        leb128::write::signed(&mut reference, v).unwrap();
        assert_eq!(w.bytes, reference);
    }
    for &v in &[0u64, 127, 128, 300, u64::MAX] {
        let mut w = Serializer::new(Vec::new());
        w.write_leb128_unsigned(v).unwrap();
        let mut reference = Vec::new();
        leb128::write::unsigned(&mut reference, v).unwrap();
        assert_eq!(w.bytes, reference);
    }
}

#[test]
fn leb128_read_errors() {
    // all continuation bytes, then end of stream
    let mut r = Serializer::new(vec![0x80, 0x80]);
    assert_eq!(r.read_leb128_unsigned(), Err(SaveError::UnexpectedEof));
    // a value one past u64::MAX
    let mut r = Serializer::new(vec![0xFF, 0xFF, 0xFF, 0xFF, 0xFF, 0xFF, 0xFF, 0xFF, 0xFF, 0x02]);
    assert_eq!(r.read_leb128_unsigned(), Err(SaveError::Overflow));
}

#[test]
fn serializer_primitives() {
    let mut w = Serializer::new(Vec::new());
    w.write_u32(0xDEAD_BEEF).unwrap();
    w.write_byte(7).unwrap();
    w.write_bytes([1u8, 2, 3]).unwrap();
    let mut r = Serializer::new(w.bytes);
    assert_eq!(r.read_u32().unwrap(), 0xDEAD_BEEF);
    assert_eq!(r.read_byte().unwrap(), 7);
    assert_eq!(r.read_bytes::<3>().unwrap(), [1, 2, 3]);
    assert_eq!(r.read_byte(), Err(SaveError::UnexpectedEof));
}

#[test]
fn save_data_round_trip() {
    let sd = SaveData {
        seed: 42,
        width: 16,
        length: 8,
        voxels: vec![
            (VoxelPosition::new(-1, 70, 12), VoxelKind::Stone),
            (VoxelPosition::new(100, 0, -100), VoxelKind::Water),
        ],
    };
    let bytes = sd.to_bytes();
    let back = SaveData::from_bytes(&bytes).unwrap();
    assert_eq!(back.seed, 42);
    assert_eq!(back.width, 16);
    assert_eq!(back.length, 8);
    assert_eq!(back.voxels.len(), 2);
    let (p0, k0) = back.voxels[0];
    assert_eq!((p0.x(), p0.y(), p0.z()), (-1, 70, 12));
    assert_eq!(k0, VoxelKind::Stone);
    let (p1, k1) = back.voxels[1];
    assert_eq!((p1.x(), p1.y(), p1.z()), (100, 0, -100));
    assert_eq!(k1, VoxelKind::Water);
}

#[test]
fn save_data_corrupt_streams() {
    // too short for the seed
    assert!(SaveData::from_bytes(&[1, 2, 3]).is_err());
    // a record cut off after its first coordinate
    let sd = SaveData { seed: 1, width: 0, length: 0, voxels: Vec::new() };
    let mut bytes = sd.to_bytes();
    bytes.push(5);
    assert_eq!(SaveData::from_bytes(&bytes).err(), Some(SaveError::UnexpectedEof));
    // an unrecognized voxel kind byte
    let sd = SaveData {
        seed: 1,
        width: 0,
        length: 0,
        voxels: vec![(VoxelPosition::new(0, 0, 0), VoxelKind::Stone)],
    };
    let mut bytes = sd.to_bytes();
    let last = bytes.len() - 1;
    bytes[last] = 9;
    assert_eq!(SaveData::from_bytes(&bytes).err(), Some(SaveError::BadVoxelKind));
}

fn synthetic_field() -> NoiseField {
    let mut samples = Vec::new();
    for i in 0..64 * 64u32 {
        samples.push(NoiseSample {
            height_offset: (i * 7) % 60,
            sea_floor: (i * 3) % 100,
        });
    }
    NoiseField::new(64, 64, samples)
}

#[test]
fn save_round_trip_through_generated_world() {
    let noise = synthetic_field();
    let cp = ChunkPosition::new(0, 0);
    let mut edited = generate_chunk_voxels(cp, &noise);
    // a few edits: break one voxel, place two others
    edited.voxel_mut(LocalVoxelPosition::new(3, 64, 3)).kind = VoxelKind::Air;
    edited.voxel_mut(LocalVoxelPosition::new(0, 10, 15)).kind = VoxelKind::Snow;
    edited.voxel_mut(LocalVoxelPosition::new(15, 200, 0)).kind = VoxelKind::Water;
    let chunks = vec![(cp, edited)];
    let save = SaveData::from_world(&chunks, 42, &noise);
    assert_eq!(save.seed, 42);
    let bytes = save.to_bytes();
    let loaded = SaveData::from_bytes(&bytes).unwrap();
    assert_eq!(loaded.voxels.len(), save.voxels.len());

    let mut fresh: ChunkVoxels = generate_chunk_voxels(cp, &noise);
    apply_diff(cp, &mut fresh, &loaded.voxels);
    let edited = &chunks[0].1;
    for x in 0..16u32 {
        for y in 0..256u32 {
            for z in 0..16u32 {
                let l = LocalVoxelPosition::new(x, y, z);
                assert_eq!(fresh.voxel(l).kind(), edited.voxel(l).kind(), "at ({x},{y},{z})");
            }
        }
    }
}
