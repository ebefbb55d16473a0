use crate::block::{Block, BlockColor};
use crate::pos::ChunkPos;
use crate::vox_buffer::VoxBuffer;
use vstd::prelude::*;

verus! {

/// A render-side snapshot of one chunk's geometry: the block array as it
/// stood at extraction time, tagged with the chunk's coordinate. Produced
/// once per dirty chunk by the extract stage, consumed by the prepare
/// stage, and never fed back into the simulation side.
pub struct RenderChunk {
    pub blocks: Vec<Option<Block>>,
    pub pos: ChunkPos,
}

/// One GPU instance record: the voxel's absolute world position as a
/// homogeneous 4-vector (`w == 1` marks a real voxel, as opposed to a
/// sentinel) and its colour. The render backend turns each field into a
/// 32-bit float channel, so a record occupies `VOX_BYTE_SIZE` bytes.
#[derive(Clone, Copy, PartialEq, Eq, Structural, Debug)]
pub struct GpuVox {
    pub x: i64,
    pub y: i64,
    pub z: i64,
    pub w: i64,
    pub color: BlockColor,
}

/// Bytes per instance record in the GPU layout: eight 32-bit channels,
/// four of position and four of colour.
pub const VOX_BYTE_SIZE: usize = 32;

/// The record for the voxel in cell `i` of the chunk at `pos`.
pub open spec fn vox_of(pos: ChunkPos, i: int, b: Block) -> GpuVox {
    GpuVox {
        x: (pos.x * 32 + (i % 32)) as i64,
        y: (pos.y * 32 + ((i / 32) % 32)) as i64,
        z: (pos.z * 32 + (i / 1024)) as i64,
        w: 1,
        color: b.color,
    }
}

/// The records of the first `n` cells of a snapshot: one record per
/// occupied-and-visible voxel, in cell order.
pub open spec fn records_prefix(pos: ChunkPos, blocks: Seq<Option<Block>>, n: int) -> Seq<GpuVox>
    decreases n,
{
    if n <= 0 {
        Seq::empty()
    } else {
        records_prefix(pos, blocks, n - 1) + match blocks[n - 1] {
            Some(b) => if b.visible {
                seq![vox_of(pos, n - 1, b)]
            } else {
                Seq::empty()
            },
            None => Seq::empty(),
        }
    }
}

/// All instance records of a snapshot.
pub open spec fn records_of(rc: RenderChunk) -> Seq<GpuVox> {
    records_prefix(rc.pos, rc.blocks@, rc.blocks@.len() as int)
}

/// How many of the first `n` cells hold an occupied-and-visible voxel.
pub open spec fn visible_count(blocks: Seq<Option<Block>>, n: int) -> int
    decreases n,
{
    if n <= 0 {
        0
    } else {
        visible_count(blocks, n - 1) + match blocks[n - 1] {
            Some(b) => if b.visible {
                1int
            } else {
                0int
            },
            None => 0int,
        }
    }
}

/// Law: a snapshot yields exactly one record per occupied-and-visible
/// voxel — the record list's length is the visible-voxel count.
pub proof fn lemma_records_count(pos: ChunkPos, blocks: Seq<Option<Block>>, n: int)
    ensures
        records_prefix(pos, blocks, n).len() == if n <= 0 {
            0
        } else {
            visible_count(blocks, n)
        },
    decreases n,
{
    if n > 0 {
        lemma_records_count(pos, blocks, n - 1);
    }
}

impl RenderChunk {
    pub open spec fn wf(&self) -> bool {
        self.blocks@.len() == 32768
    }

    /// Pack this snapshot into its instance records: walk the cells in
    /// order and emit one record per occupied-and-visible voxel, carrying
    /// the voxel's absolute world position and colour.
    pub fn build_records(&self) -> (records: Vec<GpuVox>)
        requires
            self.wf(),
        ensures
            records@ == records_of(*self),
    {
        let mut records: Vec<GpuVox> = Vec::new();
        let mut i: usize = 0;
        while i < 32768
            invariant
                self.wf(),
                i <= 32768,
                records@ == records_prefix(self.pos, self.blocks@, i as int),
            decreases 32768 - i,
        {
            if let Some(b) = self.blocks[i] {
                if b.visible {
                    records.push(
                        GpuVox {
                            x: (self.pos.x as i64) * 32 + (i % 32) as i64,
                            y: (self.pos.y as i64) * 32 + ((i / 32) % 32) as i64,
                            z: (self.pos.z as i64) * 32 + (i / 1024) as i64,
                            w: 1,
                            color: b.color,
                        },
                    );
                }
            }
            proof {
                assert(records@ =~= records_prefix(self.pos, self.blocks@, i + 1));
            }
            i = i + 1;
        }
        records
    }
}

/// A snapshot yields at most one record per cell.
proof fn lemma_records_len_le(pos: ChunkPos, blocks: Seq<Option<Block>>, n: int)
    requires
        0 <= n,
    ensures
        records_prefix(pos, blocks, n).len() <= n,
    decreases n,
{
    if n > 0 {
        lemma_records_len_le(pos, blocks, n - 1);
    }
}

impl RenderChunk {
    /// Merge this snapshot into the staging cache: its records replace
    /// whatever the cache held for this coordinate.
    pub fn prepare(&self, gpu_voxes: &mut VoxBuffer)
        requires
            self.wf(),
            old(gpu_voxes).wf(),
            old(gpu_voxes).total() + 32768 <= usize::MAX,
        ensures
            final(gpu_voxes).wf(),
            final(gpu_voxes).stored_records(self.pos) == Some(records_of(*self)),
            forall|q: ChunkPos|
                q != self.pos ==> final(gpu_voxes).stored_records(q)
                    == old(gpu_voxes).stored_records(q),
            final(gpu_voxes).cap() == old(gpu_voxes).cap(),
            final(gpu_voxes).total() == old(gpu_voxes).total() + records_of(*self).len()
                - (match old(gpu_voxes).stored_records(self.pos) {
                Some(r) => r.len() as int,
                None => 0,
            }),
    {
        proof {
            lemma_records_len_le(self.pos, self.blocks@, self.blocks@.len() as int);
        }
        let records = self.build_records();
        let _ = gpu_voxes.insert(self.pos, records);
    }
}

/// Whether some snapshot in the batch carries this coordinate.
pub open spec fn has_snapshot(snaps: Seq<RenderChunk>, q: ChunkPos) -> bool {
    exists|k: int| 0 <= k < snaps.len() && snaps[k].pos == q
}

/// What one prepare pass hands the render backend: the buffer allocation
/// to make, if the demand grew; the full instance layout to write; and
/// the freshly rebuilt index buffer with its draw count.
pub struct FramePlan {
    pub alloc: Option<usize>,
    pub instances: Vec<GpuVox>,
    pub indices: Vec<u32>,
    pub i_count: u32,
}

/// The per-frame prepare stage. Skipped entirely — no GPU work at all —
/// when there are no new snapshots and no removals. Otherwise removals
/// are applied strictly before the new snapshots are merged, so a
/// coordinate evicted and regenerated in the same frame keeps exactly
/// its newest records; then the whole resident set is serialized and the
/// index buffer rebuilt to match the new instance count.
#[verifier::rlimit(60)]
pub fn prepare_frame(
    gpu_voxes: &mut VoxBuffer,
    removed: &Vec<ChunkPos>,
    snapshots: &Vec<RenderChunk>,
) -> (out: Option<FramePlan>)
    requires
        old(gpu_voxes).wf(),
        forall|k: int| 0 <= k < snapshots@.len() ==> (#[trigger] snapshots@[k]).wf(),
        forall|k1: int, k2: int|
            0 <= k1 < k2 < snapshots@.len() ==> (#[trigger] snapshots@[k1]).pos
                != (#[trigger] snapshots@[k2]).pos,
        old(gpu_voxes).total() + snapshots@.len() * 32768 <= 0x07FF_FFFF,
    ensures
        final(gpu_voxes).wf(),
        out.is_none() <==> (snapshots@.len() == 0 && removed@.len() == 0),
        out.is_none() ==> final(gpu_voxes).entries() == old(gpu_voxes).entries()
            && final(gpu_voxes).cap() == old(gpu_voxes).cap(),
        forall|k: int|
            0 <= k < snapshots@.len() ==> final(gpu_voxes).stored_records(
                (#[trigger] snapshots@[k]).pos,
            ) == Some(records_of(snapshots@[k])),
        forall|q: ChunkPos|
            !has_snapshot(snapshots@, q) && removed@.contains(q)
                ==> final(gpu_voxes).stored_records(q) == None::<Seq<GpuVox>>,
        forall|q: ChunkPos|
            !has_snapshot(snapshots@, q) && !removed@.contains(q)
                ==> final(gpu_voxes).stored_records(q) == old(gpu_voxes).stored_records(q),
        match out {
            Some(plan) => {
                &&& plan.i_count == final(gpu_voxes).total() * 18
                &&& plan.indices@.len() == final(gpu_voxes).total() * 18
                &&& (forall|k: int|
                    0 <= k < plan.indices@.len() ==> plan.indices@[k] == (k / 18) * 8
                        + vox_index_pattern(k % 18))
                &&& plan.instances@ == crate::vox_buffer::flatten_records(
                    final(gpu_voxes).entries(),
                )
                &&& plan.instances@.len() == final(gpu_voxes).total()
                &&& (old(gpu_voxes).cap() < final(gpu_voxes).total() ==> plan.alloc == Some(
                    ((final(gpu_voxes).total() * 32) as usize),
                ) && final(gpu_voxes).cap() == final(gpu_voxes).total())
                &&& (old(gpu_voxes).cap() >= final(gpu_voxes).total() ==> plan.alloc.is_none()
                    && final(gpu_voxes).cap() == old(gpu_voxes).cap())
            },
            None => true,
        },
{
    if snapshots.len() == 0 && removed.len() == 0 {
        return None;
    }

    // Removals strictly first.
    let mut t: usize = 0;
    while t < removed.len()
        invariant
            old(gpu_voxes).wf(),
            gpu_voxes.wf(),
            t <= removed@.len(),
            gpu_voxes.cap() == old(gpu_voxes).cap(),
            gpu_voxes.total() <= old(gpu_voxes).total(),
            forall|u: int|
                0 <= u < t ==> gpu_voxes.stored_records(#[trigger] removed@[u]) == None::<
                    Seq<GpuVox>,
                >,
            forall|q: ChunkPos|
                !removed@.subrange(0, t as int).contains(q) ==> gpu_voxes.stored_records(q)
                    == #[trigger] old(gpu_voxes).stored_records(q),
        decreases removed@.len() - t,
    {
        let ghost tt = t as int;
        gpu_voxes.remove(removed[t]);
        proof {
            assert forall|q: ChunkPos|
                !removed@.subrange(0, tt + 1).contains(q) implies !removed@.subrange(
                0,
                tt,
            ).contains(q) && q != removed@[tt] by {
                if removed@.subrange(0, tt).contains(q) {
                    let w = choose|w: int|
                        0 <= w < tt && removed@.subrange(0, tt)[w] == q;
                    assert(removed@.subrange(0, tt + 1)[w] == q);
                }
                assert(removed@.subrange(0, tt + 1)[tt] == removed@[tt]);
            }
        }
        t = t + 1;
    }

    // Then the fresh snapshots, newest data winning.
    let ghost mid = gpu_voxes.entries();
    let mut k: usize = 0;
    while k < snapshots.len()
        invariant
            gpu_voxes.wf(),
            k <= snapshots@.len(),
            forall|j: int| 0 <= j < snapshots@.len() ==> (#[trigger] snapshots@[j]).wf(),
            forall|k1: int, k2: int|
                0 <= k1 < k2 < snapshots@.len() ==> (#[trigger] snapshots@[k1]).pos
                    != (#[trigger] snapshots@[k2]).pos,
            gpu_voxes.cap() == old(gpu_voxes).cap(),
            gpu_voxes.total() <= old(gpu_voxes).total() + k * 32768,
            old(gpu_voxes).total() + snapshots@.len() * 32768 <= 0x07FF_FFFF,
            forall|u: int|
                0 <= u < k ==> gpu_voxes.stored_records((#[trigger] snapshots@[u]).pos) == Some(
                    records_of(snapshots@[u]),
                ),
            forall|q: ChunkPos|
                (forall|u: int| 0 <= u < k ==> (#[trigger] snapshots@[u]).pos != q)
                    ==> gpu_voxes.stored_records(q) == #[trigger] crate::vox_buffer::stored_in(
                    mid,
                    q,
                ),
        decreases snapshots@.len() - k,
    {
        proof {
            lemma_records_len_le(
                snapshots@[k as int].pos,
                snapshots@[k as int].blocks@,
                snapshots@[k as int].blocks@.len() as int,
            );
        }
        let rc = &snapshots[k];
        rc.prepare(gpu_voxes);
        k = k + 1;
    }

    proof {
        assert(removed@.subrange(0, removed@.len() as int) =~= removed@);
        assert forall|q: ChunkPos|
            !has_snapshot(snapshots@, q) && removed@.contains(q) implies gpu_voxes.stored_records(
            q,
        ) == None::<Seq<GpuVox>> by {
            assert(forall|v: int| 0 <= v < snapshots@.len() ==> (#[trigger] snapshots@[v]).pos != q);
            assert(gpu_voxes.stored_records(q) == crate::vox_buffer::stored_in(mid, q));
            let u = choose|u: int| 0 <= u < removed@.len() && removed@[u] == q;
            assert(removed@[u] == q);
        }
        assert forall|q: ChunkPos|
            !has_snapshot(snapshots@, q) && !removed@.contains(q) implies gpu_voxes.stored_records(
            q,
        ) == old(gpu_voxes).stored_records(q) by {
            assert(forall|v: int| 0 <= v < snapshots@.len() ==> (#[trigger] snapshots@[v]).pos != q);
            assert(gpu_voxes.stored_records(q) == crate::vox_buffer::stored_in(mid, q));
            assert(!removed@.subrange(0, removed@.len() as int).contains(q));
        }
    }
    let total = gpu_voxes.len();
    let indices = gen_i_buffer_data(total);
    let i_count = (total * 18) as u32;
    let (alloc, data) = gpu_voxes.write_buffer();
    Some(FramePlan { alloc, instances: data, indices, i_count })
}

/// Indices per voxel instance: three faces of two triangles each. Only
/// half the cube's faces are indexed — for opaque axis-aligned cubes the
/// three back faces are never visible, which halves the triangle count.
pub const VOX_I_COUNT: usize = 18;

/// Vertices pulled per voxel instance: the cube's eight corners.
pub const VOX_VERTEX_COUNT: usize = 8;

/// The fixed per-cube corner pattern that the index buffer repeats.
pub open spec fn vox_index_pattern(k: int) -> u32 {
    seq![0u32, 2, 1, 2, 3, 1, 5, 4, 1, 1, 4, 0, 0, 4, 6, 0, 6, 2][k]
}

/// Build the index buffer for `vox_count` resident instances: exactly
/// `vox_count * VOX_I_COUNT` entries, where entry `k` addresses corner
/// `vox_index_pattern(k % VOX_I_COUNT)` of instance `k / VOX_I_COUNT`,
/// each instance `VOX_VERTEX_COUNT` vertices apart.
pub fn gen_i_buffer_data(vox_count: usize) -> (data: Vec<u32>)
    requires
        vox_count <= 0x07FF_FFFF,
    ensures
        data@.len() == vox_count * 18,
        forall|k: int|
            0 <= k < data@.len() ==> data@[k] == (k / 18) * 8 + vox_index_pattern(k % 18),
{
    let pattern: [u32; 18] = [0, 2, 1, 2, 3, 1, 5, 4, 1, 1, 4, 0, 0, 4, 6, 0, 6, 2];
    let i_count = vox_count * 18;
    let mut data: Vec<u32> = Vec::new();
    let mut k: usize = 0;
    while k < i_count
        invariant
            i_count == vox_count * 18,
            vox_count <= 0x07FF_FFFF,
            k <= i_count,
            data@.len() == k,
            pattern@ =~= seq![0u32, 2, 1, 2, 3, 1, 5, 4, 1, 1, 4, 0, 0, 4, 6, 0, 6, 2],
            forall|j: int| 0 <= j < k ==> data@[j] == (j / 18) * 8 + vox_index_pattern(j % 18),
        decreases i_count - k,
    {
        data.push(((k / 18) * 8) as u32 + pattern[k % 18]);
        k = k + 1;
    }
    data
}

} // verus!
