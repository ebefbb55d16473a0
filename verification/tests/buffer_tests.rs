use blockmod::chunk::Chunk;
use blockmod::pos::ChunkPos;
use blockmod::render::{gen_i_buffer_data, prepare_frame, RenderChunk, VOX_I_COUNT};
use blockmod::vox_buffer::VoxBuffer;

fn snapshot_at(generate_at: ChunkPos, tag: ChunkPos) -> RenderChunk {
    let mut chunk = Chunk::generate(generate_at);
    chunk.extract(tag).unwrap()
}

#[test]
fn insert_remove_len() {
    let mut buf = VoxBuffer::new();
    assert_eq!(buf.len(), 0);
    assert_eq!(buf.chunk_count(), 0);

    let a = ChunkPos::new(0, 0, 0);
    let b = ChunkPos::new(1, 0, 0);
    let ra = snapshot_at(ChunkPos::new(0, -1, 0), a).build_records();
    let rb = snapshot_at(ChunkPos::new(0, 0, 0), b).build_records();
    let na = ra.len();
    let nb = rb.len();

    // Insert returns the total as it stood before the call.
    assert_eq!(buf.insert(a, ra), 0);
    assert_eq!(buf.insert(b, rb), na);
    assert_eq!(buf.len(), na + nb);
    assert_eq!(buf.chunk_count(), 2);
    assert!(buf.contains(a) && buf.contains(b));

    // Replacing a coordinate swaps its records, not a second copy.
    let ra2 = snapshot_at(ChunkPos::new(0, 0, 0), a).build_records();
    let na2 = ra2.len();
    buf.insert(a, ra2);
    assert_eq!(buf.len(), na2 + nb);
    assert_eq!(buf.chunk_count(), 2);

    // Removal drops the coordinate; removing an absent one is a no-op.
    buf.remove(a);
    assert_eq!(buf.len(), nb);
    assert!(!buf.contains(a));
    buf.remove(a);
    assert_eq!(buf.len(), nb);
    assert_eq!(buf.chunk_count(), 1);
}

#[test]
fn capacity_only_grows() {
    let mut buf = VoxBuffer::new();
    assert_eq!(buf.capacity(), 0);
    assert!(!buf.has_buffer());
    // Growing allocates exactly the demand, 32 bytes per record.
    assert_eq!(buf.reserve(10), Some(320));
    assert_eq!(buf.capacity(), 10);
    assert!(buf.has_buffer());
    // A smaller demand leaves the buffer alone.
    assert_eq!(buf.reserve(5), None);
    assert_eq!(buf.capacity(), 10);
    assert_eq!(buf.reserve(12), Some(384));
    assert_eq!(buf.capacity(), 12);
}

#[test]
fn write_buffer_lays_records_out_contiguously() {
    let mut buf = VoxBuffer::new();
    let a = ChunkPos::new(0, 0, 0);
    let b = ChunkPos::new(1, 0, 0);
    let ra = snapshot_at(ChunkPos::new(0, -1, 0), a).build_records();
    let rb = snapshot_at(ChunkPos::new(0, 0, 0), b).build_records();
    buf.insert(a, ra.clone());
    buf.insert(b, rb.clone());
    let (alloc, data) = buf.write_buffer();
    assert_eq!(alloc, Some((ra.len() + rb.len()) * 32));
    assert_eq!(data.len(), ra.len() + rb.len());
    assert_eq!(&data[..ra.len()], &ra[..]);
    assert_eq!(&data[ra.len()..], &rb[..]);
    // A second sync with unchanged demand needs no new allocation.
    let (alloc2, data2) = buf.write_buffer();
    assert_eq!(alloc2, None);
    assert_eq!(data2.len(), data.len());
}

#[test]
fn index_buffer_has_eighteen_indices_per_instance() {
    let pattern: [u32; 18] = [0, 2, 1, 2, 3, 1, 5, 4, 1, 1, 4, 0, 0, 4, 6, 0, 6, 2];
    assert_eq!(VOX_I_COUNT, 18);
    let empty = gen_i_buffer_data(0);
    assert!(empty.is_empty());
    let two = gen_i_buffer_data(2);
    assert_eq!(two.len(), 2 * 18);
    for k in 0..18 {
        assert_eq!(two[k], pattern[k]);
        assert_eq!(two[18 + k], 8 + pattern[k]);
    }
    let many = gen_i_buffer_data(100);
    assert_eq!(many.len(), 100 * 18);
    for (k, &i) in many.iter().enumerate() {
        assert_eq!(i, (k / 18) as u32 * 8 + pattern[k % 18]);
    }
}

#[test]
fn prepare_is_skipped_when_nothing_changed() {
    let mut buf = VoxBuffer::new();
    let removed: Vec<ChunkPos> = Vec::new();
    let snapshots: Vec<RenderChunk> = Vec::new();
    let plan = prepare_frame(&mut buf, &removed, &snapshots);
    assert!(plan.is_none());
    assert_eq!(buf.capacity(), 0);
}

#[test]
fn prepare_applies_removals_before_merges() {
    // A coordinate evicted and regenerated within the same cycle must end
    // up with exactly its newest records: not dropped, not doubled.
    let x = ChunkPos::new(3, 0, 3);
    let mut buf = VoxBuffer::new();
    let old_snap = snapshot_at(ChunkPos::new(0, -1, 0), x);
    let old_len = old_snap.build_records().len();
    buf.insert(x, old_snap.build_records());
    assert_eq!(buf.len(), old_len);

    let new_snap = snapshot_at(ChunkPos::new(0, 0, 0), x);
    let new_records = new_snap.build_records();
    assert_ne!(new_records.len(), old_len);
    let removed = vec![x];
    let snapshots = vec![new_snap];
    let plan = prepare_frame(&mut buf, &removed, &snapshots).unwrap();

    assert!(buf.contains(x));
    assert_eq!(buf.len(), new_records.len());
    let stored = buf.records(x).unwrap();
    assert_eq!(&stored[..], &new_records[..]);
    assert_eq!(plan.i_count as usize, new_records.len() * 18);
    assert_eq!(plan.indices.len(), new_records.len() * 18);
    assert_eq!(plan.instances.len(), new_records.len());
}

#[test]
fn prepare_removal_without_replacement_empties_the_coordinate() {
    let x = ChunkPos::new(0, 0, 0);
    let mut buf = VoxBuffer::new();
    buf.insert(x, snapshot_at(ChunkPos::new(0, -1, 0), x).build_records());
    let removed = vec![x];
    let snapshots: Vec<RenderChunk> = Vec::new();
    let plan = prepare_frame(&mut buf, &removed, &snapshots).unwrap();
    assert!(!buf.contains(x));
    assert_eq!(buf.len(), 0);
    assert_eq!(plan.i_count, 0);
    assert!(plan.indices.is_empty());
    assert!(plan.instances.is_empty());
    assert!(plan.alloc.is_none());
}
