use blockmod::chunk::Chunk;
use blockmod::pos::ChunkPos;
use blockmod::render::prepare_frame;
use blockmod::vox_buffer::VoxBuffer;
use blockmod::world_map::{gen_limit, in_render_range, WorldMap, RENDER_RADIUS};

#[test]
fn sphere_test_is_strictly_euclidean() {
    let center = ChunkPos::new(0, 0, 0);
    // Distance squared 16 == R^2: excluded by the strict comparison.
    assert!(!in_render_range(center, 4, ChunkPos::new(4, 0, 0)));
    // Distance squared 18 > 16: excluded.
    assert!(!in_render_range(center, 4, ChunkPos::new(3, 3, 0)));
    // The center itself is included.
    assert!(in_render_range(center, 4, ChunkPos::new(0, 0, 0)));
    // And so is everything strictly inside.
    assert!(in_render_range(center, 4, ChunkPos::new(3, 0, 0)));
    assert!(in_render_range(center, 4, ChunkPos::new(2, 2, 2)));
}

#[test]
fn load_chunks_makes_the_sphere_resident() {
    let mut map = WorldMap::new(4);
    let out = map.load_chunks(ChunkPos::new(0, 0, 0));
    assert!(out.evicted.is_empty());
    assert_eq!(out.spawned.len(), map.resident_count());
    assert!(map.is_resident(ChunkPos::new(0, 0, 0)));
    assert!(map.is_resident(ChunkPos::new(3, 0, 0)));
    assert!(!map.is_resident(ChunkPos::new(4, 0, 0)));
    assert!(!map.is_resident(ChunkPos::new(3, 3, 0)));
}

#[test]
fn gen_limit_matches_the_volume_formula() {
    // ceil((4/3) * pi * r^3 / 100) with pi ~ 3.1416.
    assert_eq!(gen_limit(0), 0);
    assert_eq!(gen_limit(1), 1);
    assert_eq!(gen_limit(4), 3);
    assert_eq!(gen_limit(10), 42);
}

#[test]
fn default_map_uses_the_render_radius() {
    let map = WorldMap::default();
    assert_eq!(map.render_radius(), RENDER_RADIUS);
}

#[test]
fn observer_scenario_small_radius() {
    // Under the strict sphere test, radius 1 admits only the center
    // itself: every face neighbour sits at distance squared 1, and
    // 1 < 1 fails just as 16 < 16 does at radius 4.
    let mut map = WorldMap::new(1);
    let out = map.load_chunks(ChunkPos::new(0, 0, 0));
    assert_eq!(map.resident_count(), 1);
    assert_eq!(out.spawned.len(), 1);

    // Radius 2 keeps the whole 3x3x3 cube: its farthest members, the
    // corners, sit at distance squared 3 < 4.
    let mut map = WorldMap::new(2);
    let origin = ChunkPos::new(0, 0, 0);
    let out = map.load_chunks(origin);
    assert_eq!(map.resident_count(), 27);
    assert_eq!(out.spawned.len(), 27);
    for c in &out.spawned {
        assert!(map.is_pending(*c));
        assert!(!map.is_ready(*c));
    }

    // Generation completes for all; the rate limit for radius 2 is one
    // attachment per update, so one resolve call drains one completion.
    let mut completed: Vec<(ChunkPos, Chunk)> = out
        .spawned
        .iter()
        .map(|c| (*c, Chunk::generate(*c)))
        .collect();
    let mut rounds = 0;
    while !completed.is_empty() {
        let before = completed.len();
        completed = map.resolve(completed);
        assert_eq!(completed.len(), before - 1);
        rounds += 1;
    }
    assert_eq!(rounds, 27);
    for c in &out.spawned {
        assert!(map.is_ready(*c));
    }

    // One extraction yields every snapshot and clears the dirt.
    let (snaps, removed) = map.extract();
    assert_eq!(snaps.len(), 27);
    assert!(removed.is_empty());

    // One prepare pass leaves the staging cache holding one key per chunk.
    let mut buf = VoxBuffer::new();
    let plan = prepare_frame(&mut buf, &removed, &snaps).unwrap();
    assert_eq!(buf.chunk_count(), 27);
    assert_eq!(plan.i_count as usize, buf.len() * 18);

    // Nothing is dirty any more, so a second cycle has no work.
    let (snaps2, removed2) = map.extract();
    assert!(snaps2.is_empty());
    assert!(removed2.is_empty());
    let plan2 = prepare_frame(&mut buf, &removed2, &snaps2);
    assert!(plan2.is_none());
    assert_eq!(buf.chunk_count(), 27);
}

#[test]
fn moving_the_observer_evicts_and_records_removals() {
    let mut map = WorldMap::new(2);
    map.load_chunks(ChunkPos::new(0, 0, 0));
    assert_eq!(map.resident_count(), 27);
    let out = map.load_chunks(ChunkPos::new(100, 0, 0));
    assert_eq!(out.evicted.len(), 27);
    assert_eq!(out.spawned.len(), 27);
    assert_eq!(map.resident_count(), 27);
    assert!(!map.is_resident(ChunkPos::new(0, 0, 0)));
    assert!(map.is_resident(ChunkPos::new(100, 0, 0)));
    assert_eq!(map.removed_count(), 27);
    // Extraction hands the removal list over and clears it.
    let (_, removed) = map.extract();
    assert_eq!(removed.len(), 27);
    assert_eq!(map.removed_count(), 0);
}

#[test]
fn reloading_the_same_position_is_a_no_op() {
    let mut map = WorldMap::new(2);
    map.load_chunks(ChunkPos::new(5, 5, 5));
    let count = map.resident_count();
    let out = map.load_chunks(ChunkPos::new(5, 5, 5));
    assert!(out.spawned.is_empty());
    assert!(out.evicted.is_empty());
    assert_eq!(map.resident_count(), count);
    assert_eq!(map.removed_count(), 0);
}

#[test]
fn stale_completion_is_discarded() {
    let mut map = WorldMap::new(1);
    map.load_chunks(ChunkPos::new(0, 0, 0));
    // A completion for a coordinate that is not resident: dropped.
    let stale = ChunkPos::new(50, 50, 50);
    let deferred = map.resolve(vec![(stale, Chunk::generate(stale))]);
    assert!(deferred.is_empty());
    assert!(!map.is_resident(stale));
    // A completion for an already-ready coordinate: also dropped.
    let origin = ChunkPos::new(0, 0, 0);
    map.resolve(vec![(origin, Chunk::generate(origin))]);
    assert!(map.is_ready(origin));
    let deferred = map.resolve(vec![(origin, Chunk::generate(origin))]);
    assert!(deferred.is_empty());
    assert!(map.is_ready(origin));
}

#[test]
fn resolve_defers_completions_beyond_the_rate_limit() {
    // Radius 4 allows three attachments per update.
    let mut map = WorldMap::new(4);
    let out = map.load_chunks(ChunkPos::new(0, 0, 0));
    assert!(out.spawned.len() >= 5);
    let completed: Vec<(ChunkPos, Chunk)> = out.spawned[..5]
        .iter()
        .map(|c| (*c, Chunk::generate(*c)))
        .collect();
    let deferred = map.resolve(completed);
    assert_eq!(deferred.len(), 2);
    let mut ready = 0;
    for c in &out.spawned[..5] {
        if map.is_ready(*c) {
            ready += 1;
        }
    }
    assert_eq!(ready, 3);
    // The deferred completions attach on the next update.
    let deferred = map.resolve(deferred);
    assert!(deferred.is_empty());
    for c in &out.spawned[..5] {
        assert!(map.is_ready(*c));
    }
}
