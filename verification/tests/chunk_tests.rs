use blockmod::chunk::{Chunk, CHUNK_SIZE, CHUNK_VOLUME};
use blockmod::pos::{world_to_chunk, ChunkPos};

#[test]
fn flatten_expand_roundtrip() {
    assert_eq!(Chunk::flatten(0, 0, 0), 0);
    assert_eq!(Chunk::flatten(1, 2, 3), 1 + 2 * 32 + 3 * 1024);
    assert_eq!(Chunk::flatten(31, 31, 31), CHUNK_VOLUME - 1);
    for &i in &[0usize, 1, 31, 32, 1023, 1024, 4097, 32767] {
        let (x, y, z) = Chunk::expand(i);
        assert_eq!(Chunk::flatten(x, y, z), i);
        assert!(x < CHUNK_SIZE && y < CHUNK_SIZE && z < CHUNK_SIZE);
    }
}

#[test]
fn world_to_chunk_floors_toward_negative_infinity() {
    let c = world_to_chunk(0, 31, 32);
    assert_eq!((c.x, c.y, c.z), (0, 0, 1));
    let c = world_to_chunk(-1, -32, -33);
    assert_eq!((c.x, c.y, c.z), (-1, -1, -2));
    let c = world_to_chunk(63, -64, 64);
    assert_eq!((c.x, c.y, c.z), (1, -2, 2));
}

#[test]
fn generate_is_deterministic() {
    let a = Chunk::generate(ChunkPos::new(2, -1, 7));
    let b = Chunk::generate(ChunkPos::new(2, -1, 7));
    for i in 0..CHUNK_VOLUME {
        let (x, y, z) = Chunk::expand(i);
        assert_eq!(a.block_at(x, y, z), b.block_at(x, y, z));
    }
}

#[test]
fn occupancy_follows_height_rule() {
    // At chunk (0,0,0) the rule is (x % 30) * 32 > y * 30.
    let c = Chunk::generate(ChunkPos::new(0, 0, 0));
    // Column x == 0 is empty: 0 > y * 30 never holds.
    for y in 0..CHUNK_SIZE {
        assert!(c.block_at(0, y, 0).is_none());
    }
    // Column x == 1 holds voxels for y == 0 and y == 1 only.
    assert!(c.block_at(1, 0, 0).is_some());
    assert!(c.block_at(1, 1, 0).is_some());
    assert!(c.block_at(1, 2, 0).is_none());
    // Occupancy does not depend on z.
    assert!(c.block_at(1, 1, 31).is_some());
    assert!(c.block_at(1, 2, 31).is_none());
    // x == 30 wraps to 0 and is empty again.
    assert!(c.block_at(30, 0, 0).is_none());
}

#[test]
fn colors_derive_from_cell_coordinates() {
    let c = Chunk::generate(ChunkPos::new(0, -1, 0));
    let b = c.block_at(7, 3, 9).unwrap();
    assert_eq!(b.color.r, 7);
    assert_eq!(b.color.g, 3);
    assert_eq!(b.color.b, 9);
}

#[test]
fn interior_voxels_with_six_neighbors_are_invisible() {
    // At chunk (0,-1,0) every world height is negative, so every cell is
    // occupied: all interior voxels are occluded, all border voxels stay
    // visible.
    let c = Chunk::generate(ChunkPos::new(0, -1, 0));
    assert!(!c.block_at(1, 1, 1).unwrap().visible);
    assert!(!c.block_at(16, 16, 16).unwrap().visible);
    assert!(!c.block_at(30, 30, 30).unwrap().visible);
    // Border cells are always visible, whatever their neighbours hold.
    assert!(c.block_at(0, 5, 5).unwrap().visible);
    assert!(c.block_at(31, 5, 5).unwrap().visible);
    assert!(c.block_at(5, 0, 5).unwrap().visible);
    assert!(c.block_at(5, 31, 5).unwrap().visible);
    assert!(c.block_at(5, 5, 0).unwrap().visible);
    assert!(c.block_at(5, 5, 31).unwrap().visible);
}

#[test]
fn extract_yields_each_visible_voxel_once_then_nothing() {
    let mut c = Chunk::generate(ChunkPos::new(0, -1, 0));
    assert!(c.dirty());
    let snapshot = c.extract(ChunkPos::new(0, -1, 0)).unwrap();
    assert!(!c.dirty());
    // A fully occupied chunk hides its 30^3 interior voxels.
    let visible = snapshot
        .blocks
        .iter()
        .filter(|b| match b {
            Some(bl) => bl.visible,
            None => false,
        })
        .count();
    assert_eq!(visible, 32768 - 27000);
    let records = snapshot.build_records();
    assert_eq!(records.len(), 32768 - 27000);
    // The chunk is clean now, so a second extraction yields nothing.
    assert!(c.extract(ChunkPos::new(0, -1, 0)).is_none());
}

#[test]
fn records_carry_world_positions_and_w_one() {
    let pos = ChunkPos::new(1, -1, 2);
    let mut c = Chunk::generate(pos);
    let snapshot = c.extract(pos).unwrap();
    let records = snapshot.build_records();
    // The first cell is (0,0,0), occupied (world height -32) and visible
    // (border), so the first record is its world position.
    assert_eq!(records[0].x, 32);
    assert_eq!(records[0].y, -32);
    assert_eq!(records[0].z, 64);
    assert_eq!(records[0].w, 1);
    for r in &records {
        assert_eq!(r.w, 1);
        assert!(r.x >= 32 && r.x < 64);
        assert!(r.y >= -32 && r.y < 0);
        assert!(r.z >= 64 && r.z < 96);
    }
}
