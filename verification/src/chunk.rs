use crate::block::{Block, BlockColor};
use crate::pos::ChunkPos;
use crate::render::RenderChunk;
use vstd::arithmetic::div_mod::{lemma_fundamental_div_mod_converse, lemma_fundamental_div_mod};
use vstd::prelude::*;

verus! {

/// Voxels per chunk edge.
pub const CHUNK_SIZE: usize = 32;

/// Voxels per chunk face: `CHUNK_SIZE * CHUNK_SIZE`.
pub const CHUNK_AREA: usize = 1024;

/// Voxels per chunk: `CHUNK_SIZE * CHUNK_SIZE * CHUNK_SIZE`.
pub const CHUNK_VOLUME: usize = 32768;

/// Flat index of the local cell `(x, y, z)` in a chunk's block array:
/// x-major order, `x + y * CHUNK_SIZE + z * CHUNK_SIZE * CHUNK_SIZE`.
pub open spec fn cell_index(x: int, y: int, z: int) -> int {
    x + y * 32 + z * 1024
}

/// The local cell coordinates lie inside the chunk cube.
pub open spec fn valid_cell(x: int, y: int, z: int) -> bool {
    0 <= x < 32 && 0 <= y < 32 && 0 <= z < 32
}

/// The generation rule: a cell holds a voxel exactly when the height ramp
/// `(x % 30) / 30 * CHUNK_SIZE` exceeds the cell's absolute world height
/// `c.y * CHUNK_SIZE + y`, here compared exactly over the integers as
/// `(x % 30) * 32 > (c.y * 32 + y) * 30`. Occupancy does not depend on `z`
/// or on the chunk's x/z coordinate; the parameter is kept so that the six
/// neighbour cells of the occlusion rule read naturally.
pub open spec fn cell_occupied(c: ChunkPos, x: int, y: int, z: int) -> bool {
    (x % 30) * 32 > (c.y * 32 + y) * 30
}

/// The colour a generated voxel carries, derived from its local cell.
pub open spec fn cell_color(x: int, y: int, z: int) -> BlockColor {
    BlockColor { r: (x % 100) as u8, g: (y % 10) as u8, b: (z % 55) as u8 }
}

/// Interior cells exclude the one-cell border, so that every axis
/// neighbour lookup stays inside the chunk.
pub open spec fn cell_interior(x: int, y: int, z: int) -> bool {
    1 <= x < 31 && 1 <= y < 31 && 1 <= z < 31
}

/// A voxel is occluded exactly when it is interior and all six of its
/// axis-aligned neighbour cells are occupied. Border cells are never
/// occluded: deciding them would need the neighbouring chunk's data,
/// which is not available at generation time.
pub open spec fn cell_occluded(c: ChunkPos, x: int, y: int, z: int) -> bool {
    &&& cell_interior(x, y, z)
    &&& cell_occupied(c, x + 1, y, z)
    &&& cell_occupied(c, x - 1, y, z)
    &&& cell_occupied(c, x, y + 1, z)
    &&& cell_occupied(c, x, y - 1, z)
    &&& cell_occupied(c, x, y, z + 1)
    &&& cell_occupied(c, x, y, z - 1)
}

/// What generation leaves in one cell before the occlusion pass: every
/// occupied voxel starts out visible.
spec fn occupancy_cell(c: ChunkPos, x: int, y: int, z: int) -> Option<Block> {
    if cell_occupied(c, x, y, z) {
        Some(Block { color: cell_color(x, y, z), visible: true })
    } else {
        None
    }
}

/// What generation leaves in one cell once the occlusion pass has run.
pub open spec fn generated_cell(c: ChunkPos, x: int, y: int, z: int) -> Option<Block> {
    if cell_occupied(c, x, y, z) {
        Some(Block { color: cell_color(x, y, z), visible: !cell_occluded(c, x, y, z) })
    } else {
        None
    }
}

/// The complete block array of the chunk at `c`: a function of the
/// coordinate alone, which is what makes generation deterministic.
pub open spec fn generated_blocks(c: ChunkPos) -> Seq<Option<Block>> {
    Seq::new(32768, |i: int| generated_cell(c, i % 32, (i / 32) % 32, i / 1024))
}

/// The flat index of a valid cell decomposes back into its coordinates.
pub proof fn lemma_cell_index_decomp(x: int, y: int, z: int)
    requires
        valid_cell(x, y, z),
    ensures
        0 <= cell_index(x, y, z) < 32768,
        cell_index(x, y, z) % 32 == x,
        (cell_index(x, y, z) / 32) % 32 == y,
        cell_index(x, y, z) / 1024 == z,
{
    let i = cell_index(x, y, z);
    assert(i == (y + 32 * z) * 32 + x);
    lemma_fundamental_div_mod_converse(i, 32, y + 32 * z, x);
    lemma_fundamental_div_mod_converse(y + 32 * z, 32, z, y);
    assert(i == z * 1024 + (x + 32 * y));
    lemma_fundamental_div_mod_converse(i, 1024, z, x + 32 * y);
}

/// Every flat index below the chunk volume is the index of a valid cell.
pub proof fn lemma_index_cells(i: int)
    requires
        0 <= i < 32768,
    ensures
        valid_cell(i % 32, (i / 32) % 32, i / 1024),
        cell_index(i % 32, (i / 32) % 32, i / 1024) == i,
{
    lemma_fundamental_div_mod(i, 32);
    lemma_fundamental_div_mod(i / 32, 32);
    vstd::arithmetic::div_mod::lemma_div_denominator(i, 32, 32);
    assert(i / 1024 == (i / 32) / 32);
}

/// A fixed-size cubic region of voxels, the unit of generation, streaming
/// and rendering. The blocks sit in one flat array in x-major order; the
/// `dirty` flag marks geometry that the render side has not yet consumed.
pub struct Chunk {
    blocks: Vec<Option<Block>>,
    dirty: bool,
}

impl Chunk {
    /// The flat block array, one slot per cell.
    pub closed spec fn block_seq(&self) -> Seq<Option<Block>> {
        self.blocks@
    }

    /// True until the chunk's geometry has been extracted once.
    pub closed spec fn is_dirty(&self) -> bool {
        self.dirty
    }

    pub open spec fn wf(&self) -> bool {
        self.block_seq().len() == 32768
    }

    /// Flat index of a local cell, `x + y * CHUNK_SIZE + z * CHUNK_AREA`.
    pub fn flatten(x: usize, y: usize, z: usize) -> (i: usize)
        requires
            x < 32,
            y < 32,
            z < 32,
        ensures
            i == cell_index(x as int, y as int, z as int),
            i < 32768,
    {
        proof {
            lemma_cell_index_decomp(x as int, y as int, z as int);
        }
        x + y * 32 + z * 1024
    }

    /// The local cell coordinates `(x, y, z)` of a flat index.
    pub fn expand(i: usize) -> (cell: (usize, usize, usize))
        requires
            i < 32768,
        ensures
            valid_cell(cell.0 as int, cell.1 as int, cell.2 as int),
            cell_index(cell.0 as int, cell.1 as int, cell.2 as int) == i,
    {
        proof {
            lemma_index_cells(i as int);
        }
        (i % 32, (i / 32) % 32, i / 1024)
    }

    /// The block in one cell.
    pub fn block_at(&self, x: usize, y: usize, z: usize) -> (b: Option<Block>)
        requires
            self.wf(),
            x < 32,
            y < 32,
            z < 32,
        ensures
            b == self.block_seq()[cell_index(x as int, y as int, z as int)],
    {
        let i = Self::flatten(x, y, z);
        self.blocks[i]
    }

    /// Whether the chunk's geometry still awaits extraction.
    pub fn dirty(&self) -> (d: bool)
        ensures
            d == self.is_dirty(),
    {
        self.dirty
    }

    /// Generate the chunk at coordinate `pos`: one pass decides occupancy
    /// and colour per cell from the height rule, a second pass clears the
    /// visibility flag of every occupied interior cell whose six axis
    /// neighbours are occupied. The result is `generated_blocks(pos)`, a
    /// function of the coordinate alone, and the chunk starts out dirty.
    #[verifier::rlimit(60)]
    pub fn generate(pos: ChunkPos) -> (chunk: Chunk)
        ensures
            chunk.wf(),
            chunk.is_dirty(),
            chunk.block_seq() == generated_blocks(pos),
    {
        let mut blocks: Vec<Option<Block>> = Vec::new();
        let mut i: usize = 0;
        while i < 32768
            invariant
                i <= 32768,
                blocks@.len() == i,
                forall|j: int|
                    0 <= j < i ==> blocks@[j] == occupancy_cell(
                        pos,
                        j % 32,
                        (j / 32) % 32,
                        j / 1024,
                    ),
            decreases 32768 - i,
        {
            let x = i % 32;
            let y = (i / 32) % 32;
            let z = i / 1024;
            let world_y: i64 = (pos.y as i64) * 32 + (y as i64);
            if ((x % 30) as i64) * 32 > world_y * 30 {
                blocks.push(
                    Some(
                        Block {
                            color: BlockColor {
                                r: (x % 100) as u8,
                                g: (y % 10) as u8,
                                b: (z % 55) as u8,
                            },
                            visible: true,
                        },
                    ),
                );
            } else {
                blocks.push(None);
            }
            i = i + 1;
        }

        let mut i: usize = 0;
        while i < 32768
            invariant
                i <= 32768,
                blocks@.len() == 32768,
                forall|j: int|
                    0 <= j < 32768 ==> (#[trigger] blocks@[j]).is_some() == cell_occupied(
                        pos,
                        j % 32,
                        (j / 32) % 32,
                        j / 1024,
                    ),
                forall|j: int|
                    0 <= j < i ==> blocks@[j] == generated_cell(pos, j % 32, (j / 32) % 32, j / 1024),
                forall|j: int|
                    i <= j < 32768 ==> blocks@[j] == occupancy_cell(
                        pos,
                        j % 32,
                        (j / 32) % 32,
                        j / 1024,
                    ),
            decreases 32768 - i,
        {
            let (x, y, z) = Self::expand(i);
            proof {
                lemma_cell_index_decomp(x as int, y as int, z as int);
            }
            if 1 <= x && x < 31 && 1 <= y && y < 31 && 1 <= z && z < 31 {
                if neighbors_occupied(&blocks, pos, x, y, z) {
                    if let Some(b) = blocks[i] {
                        blocks.set(i, Some(Block { color: b.color, visible: false }));
                    }
                }
            }
            proof {
                assert(blocks@[i as int] == generated_cell(pos, x as int, y as int, z as int));
            }
            i = i + 1;
        }

        proof {
            assert(blocks@ =~= generated_blocks(pos));
        }
        Chunk { blocks, dirty: true }
    }

    /// Hand the chunk's geometry to the render side, at most once: a dirty
    /// chunk yields a snapshot of its blocks tagged with its coordinate and
    /// comes back clean; a clean chunk yields nothing and is unchanged.
    pub fn extract(&mut self, pos: ChunkPos) -> (snapshot: Option<RenderChunk>)
        requires
            old(self).wf(),
        ensures
            final(self).wf(),
            final(self).block_seq() == old(self).block_seq(),
            !final(self).is_dirty(),
            old(self).is_dirty() ==> snapshot_of(snapshot, old(self).block_seq(), pos),
            !old(self).is_dirty() ==> snapshot.is_none(),
    {
        if self.dirty {
            let blocks = copy_blocks(&self.blocks);
            self.dirty = false;
            Some(RenderChunk { blocks, pos })
        } else {
            None
        }
    }
}

/// The snapshot carries exactly the given blocks and coordinate.
pub open spec fn snapshot_of(
    snapshot: Option<RenderChunk>,
    blocks: Seq<Option<Block>>,
    pos: ChunkPos,
) -> bool {
    match snapshot {
        Some(rc) => rc.blocks@ == blocks && rc.pos == pos,
        None => false,
    }
}

/// Whether all six axis-neighbour cells of an interior cell are occupied,
/// read off a block array whose occupancy already matches the generation
/// rule.
fn neighbors_occupied(
    blocks: &Vec<Option<Block>>,
    pos: ChunkPos,
    x: usize,
    y: usize,
    z: usize,
) -> (r: bool)
    requires
        blocks@.len() == 32768,
        forall|j: int|
            0 <= j < 32768 ==> (#[trigger] blocks@[j]).is_some() == cell_occupied(
                pos,
                j % 32,
                (j / 32) % 32,
                j / 1024,
            ),
        1 <= x < 31,
        1 <= y < 31,
        1 <= z < 31,
    ensures
        r == (cell_occupied(pos, x + 1, y as int, z as int) && cell_occupied(
            pos,
            x - 1,
            y as int,
            z as int,
        ) && cell_occupied(pos, x as int, y + 1, z as int) && cell_occupied(
            pos,
            x as int,
            y - 1,
            z as int,
        ) && cell_occupied(pos, x as int, y as int, z + 1) && cell_occupied(
            pos,
            x as int,
            y as int,
            z - 1,
        )),
{
    proof {
        lemma_cell_index_decomp(x + 1, y as int, z as int);
        lemma_cell_index_decomp(x - 1, y as int, z as int);
        lemma_cell_index_decomp(x as int, y + 1, z as int);
        lemma_cell_index_decomp(x as int, y - 1, z as int);
        lemma_cell_index_decomp(x as int, y as int, z + 1);
        lemma_cell_index_decomp(x as int, y as int, z - 1);
    }
    blocks[Chunk::flatten(x + 1, y, z)].is_some() && blocks[Chunk::flatten(x - 1, y, z)].is_some()
        && blocks[Chunk::flatten(x, y + 1, z)].is_some() && blocks[Chunk::flatten(
        x,
        y - 1,
        z,
    )].is_some() && blocks[Chunk::flatten(x, y, z + 1)].is_some() && blocks[Chunk::flatten(
        x,
        y,
        z - 1,
    )].is_some()
}

/// Element-wise copy of a block array (blocks are plain values).
fn copy_blocks(v: &Vec<Option<Block>>) -> (r: Vec<Option<Block>>)
    ensures
        r@ == v@,
{
    let mut r: Vec<Option<Block>> = Vec::new();
    let mut i: usize = 0;
    while i < v.len()
        invariant
            i <= v@.len(),
            r@.len() == i,
            forall|j: int| 0 <= j < i ==> r@[j] == v@[j],
        decreases v@.len() - i,
    {
        r.push(v[i]);
        i = i + 1;
    }
    proof {
        assert(r@ =~= v@);
    }
    r
}

/// Law: generation is deterministic. The chunk produced at a coordinate is
/// the one sequence `generated_blocks(c)`, so two chunks generated at the
/// same coordinate hold identical occupancy, colours and visibility flags.
pub proof fn lemma_generate_deterministic(a: Chunk, b: Chunk, c: ChunkPos)
    requires
        a.block_seq() == generated_blocks(c),
        b.block_seq() == generated_blocks(c),
    ensures
        a.block_seq() == b.block_seq(),
{
}

/// Law: the occlusion rule. In a generated chunk, an occupied interior
/// voxel whose six axis-neighbour cells are all occupied is invisible; an
/// occupied border voxel is visible no matter what its neighbours hold.
pub proof fn lemma_occlusion_rule(c: ChunkPos, x: int, y: int, z: int)
    requires
        valid_cell(x, y, z),
    ensures
        generated_blocks(c)[cell_index(x, y, z)] == generated_cell(c, x, y, z),
        cell_occupied(c, x, y, z) && cell_interior(x, y, z) && cell_occupied(c, x + 1, y, z)
            && cell_occupied(c, x - 1, y, z) && cell_occupied(c, x, y + 1, z) && cell_occupied(
            c,
            x,
            y - 1,
            z,
        ) && cell_occupied(c, x, y, z + 1) && cell_occupied(c, x, y, z - 1) ==> generated_cell(
            c,
            x,
            y,
            z,
        ) == (Some(Block { color: cell_color(x, y, z), visible: false })),
        cell_occupied(c, x, y, z) && !cell_interior(x, y, z) ==> generated_cell(c, x, y, z) == (
        Some(Block { color: cell_color(x, y, z), visible: true })),
{
    lemma_cell_index_decomp(x, y, z);
}

} // verus!
