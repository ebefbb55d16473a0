use vstd::prelude::*;

verus! {

/// A chunk's position in chunk-space (not voxel-space): the world is an
/// infinite grid of cubes, `CHUNK_SIZE` voxels on each axis, and a
/// `ChunkPos` addresses one such cube. The world position of the voxel at
/// local cell `(x, y, z)` inside chunk `c` is `c * CHUNK_SIZE + (x, y, z)`.
#[derive(Clone, Copy, PartialEq, Eq, Structural, Debug, Hash)]
pub struct ChunkPos {
    pub x: i32,
    pub y: i32,
    pub z: i32,
}

impl ChunkPos {
    pub fn new(x: i32, y: i32, z: i32) -> (p: ChunkPos)
        ensures
            p == (ChunkPos { x, y, z }),
    {
        ChunkPos { x, y, z }
    }
}

/// Largest magnitude of a world coordinate accepted by [`chunk_axis_of_world`]:
/// beyond this the chunk coordinate would no longer fit in an `i32`.
pub const WORLD_COORD_LIMIT: i64 = 0x10_0000_0000_0000;

/// Floor division of a world-space coordinate by the chunk side length 32,
/// one axis at a time: the chunk that contains world coordinate `w` spans
/// `[32 * c, 32 * c + 32)`, also for negative `w`.
pub fn chunk_axis_of_world(w: i64) -> (c: i64)
    requires
        -WORLD_COORD_LIMIT <= w < WORLD_COORD_LIMIT,
    ensures
        32 * c <= w < 32 * c + 32,
{
    // Shift into non-negative range so that unsigned division floors.
    let u: u64 = (w + WORLD_COORD_LIMIT) as u64;
    let q: u64 = u / 32;
    let c: i64 = (q as i64) - (WORLD_COORD_LIMIT / 32);
    proof {
        assert(u == w + WORLD_COORD_LIMIT);
        assert(u as int == 32 * (u as int / 32) + (u as int % 32)) by {
            vstd::arithmetic::div_mod::lemma_fundamental_div_mod(u as int, 32);
        }
    }
    c
}

/// The chunk that contains the world-space voxel position `(wx, wy, wz)`.
/// An observer's position is mapped through this to decide which chunks
/// must be resident; each axis is floored toward negative infinity.
pub fn world_to_chunk(wx: i64, wy: i64, wz: i64) -> (c: ChunkPos)
    requires
        -0x1_0000_0000 <= wx < 0x1_0000_0000,
        -0x1_0000_0000 <= wy < 0x1_0000_0000,
        -0x1_0000_0000 <= wz < 0x1_0000_0000,
    ensures
        32 * c.x <= wx < 32 * c.x + 32,
        32 * c.y <= wy < 32 * c.y + 32,
        32 * c.z <= wz < 32 * c.z + 32,
{
    let cx = chunk_axis_of_world(wx);
    let cy = chunk_axis_of_world(wy);
    let cz = chunk_axis_of_world(wz);
    ChunkPos { x: cx as i32, y: cy as i32, z: cz as i32 }
}

} // verus!
