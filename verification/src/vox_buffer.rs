use crate::alist::{
    alist_find, alist_lookup, distinct_keys, lemma_lookup_distinct, lemma_lookup_none,
    lemma_lookup_push, lemma_lookup_remove, lemma_lookup_update,
};
use crate::pos::ChunkPos;
use crate::render::GpuVox;
use vstd::prelude::*;

verus! {

/// Total number of records across all bindings.
pub open spec fn total_records(s: Seq<(ChunkPos, Vec<GpuVox>)>) -> int
    decreases s.len(),
{
    if s.len() == 0 {
        0
    } else {
        total_records(s.drop_last()) + s.last().1@.len()
    }
}

/// All records laid out contiguously, binding after binding: this is the
/// order in which a sync writes them into the backing buffer, so the
/// offsets it assigns stay consistent within one call.
pub open spec fn flatten_records(s: Seq<(ChunkPos, Vec<GpuVox>)>) -> Seq<GpuVox>
    decreases s.len(),
{
    if s.len() == 0 {
        Seq::empty()
    } else {
        flatten_records(s.drop_last()) + s.last().1@
    }
}

/// One more binding contributes its records at the end.
proof fn lemma_prefix_step(s: Seq<(ChunkPos, Vec<GpuVox>)>, j: int)
    requires
        0 <= j < s.len(),
    ensures
        total_records(s.take(j + 1)) == total_records(s.take(j)) + s[j].1@.len(),
        flatten_records(s.take(j + 1)) == flatten_records(s.take(j)) + s[j].1@,
{
    assert(s.take(j + 1).drop_last() =~= s.take(j));
    assert(s.take(j + 1).last() == s[j]);
}

/// A prefix never holds more records than the whole sequence.
proof fn lemma_total_prefix_le(s: Seq<(ChunkPos, Vec<GpuVox>)>, j: int)
    requires
        0 <= j <= s.len(),
    ensures
        total_records(s.take(j)) <= total_records(s),
    decreases s.len() - j,
{
    if j == s.len() {
        assert(s.take(j) =~= s);
    } else {
        lemma_prefix_step(s, j);
        lemma_total_prefix_le(s, j + 1);
    }
}

/// The flattened layout holds exactly one slot per record.
pub proof fn lemma_flatten_len(s: Seq<(ChunkPos, Vec<GpuVox>)>)
    ensures
        flatten_records(s).len() == total_records(s),
    decreases s.len(),
{
    if s.len() > 0 {
        lemma_flatten_len(s.drop_last());
    }
}

/// Replacing the value of one binding shifts the total by the difference.
proof fn lemma_total_update(s: Seq<(ChunkPos, Vec<GpuVox>)>, j: int, e: (ChunkPos, Vec<GpuVox>))
    requires
        0 <= j < s.len(),
    ensures
        total_records(s.update(j, e)) == total_records(s) - s[j].1@.len() + e.1@.len(),
    decreases s.len(),
{
    let t = s.update(j, e);
    if j == s.len() - 1 {
        assert(t.drop_last() =~= s.drop_last());
    } else {
        assert(t.drop_last() =~= s.drop_last().update(j, e));
        assert(t.last() == s.last());
        lemma_total_update(s.drop_last(), j, e);
    }
}

/// Appending a binding adds its records to the total.
proof fn lemma_total_push(s: Seq<(ChunkPos, Vec<GpuVox>)>, e: (ChunkPos, Vec<GpuVox>))
    ensures
        total_records(s.push(e)) == total_records(s) + e.1@.len(),
{
    assert(s.push(e).drop_last() =~= s);
}

/// Removing a binding subtracts its records from the total.
proof fn lemma_total_remove(s: Seq<(ChunkPos, Vec<GpuVox>)>, j: int)
    requires
        0 <= j < s.len(),
    ensures
        total_records(s.remove(j)) == total_records(s) - s[j].1@.len(),
    decreases s.len(),
{
    let t = s.remove(j);
    if j == s.len() - 1 {
        assert(t =~= s.drop_last());
    } else {
        assert(t.drop_last() =~= s.drop_last().remove(j));
        assert(t.last() == s.last());
        lemma_total_remove(s.drop_last(), j);
    }
}

/// The records an entry sequence stores for a coordinate, if any.
pub open spec fn stored_in(s: Seq<(ChunkPos, Vec<GpuVox>)>, p: ChunkPos) -> Option<Seq<GpuVox>> {
    match alist_lookup(s, p) {
        Some(v) => Some(v@),
        None => None,
    }
}

/// The staging cache between extraction and the GPU: a map from chunk
/// coordinate to that chunk's packed instance records, plus the record
/// capacity of the backing buffer. The buffer itself is a GPU resource
/// owned by the render backend; this type decides when it must grow and
/// in what order the records are written, and the backend follows.
pub struct VoxBuffer {
    voxes: Vec<(ChunkPos, Vec<GpuVox>)>,
    capacity: usize,
}

impl VoxBuffer {
    /// The bindings, in their storage order.
    pub closed spec fn entries(&self) -> Seq<(ChunkPos, Vec<GpuVox>)> {
        self.voxes@
    }

    /// The records stored for a coordinate, if any.
    pub open spec fn stored_records(&self, p: ChunkPos) -> Option<Seq<GpuVox>> {
        stored_in(self.entries(), p)
    }

    /// Record capacity of the backing buffer; zero while none exists.
    pub closed spec fn cap(&self) -> int {
        self.capacity as int
    }

    /// Total resident record count, over all coordinates.
    pub open spec fn total(&self) -> int {
        total_records(self.entries())
    }

    /// Number of coordinates holding records.
    pub open spec fn num_chunks(&self) -> int {
        self.entries().len() as int
    }

    pub open spec fn wf(&self) -> bool {
        distinct_keys(self.entries()) && self.total() <= usize::MAX as int
    }

    /// An empty cache with no backing buffer.
    pub fn new() -> (b: VoxBuffer)
        ensures
            b.wf(),
            b.cap() == 0,
            b.num_chunks() == 0,
            b.total() == 0,
            forall|q: ChunkPos| b.stored_records(q) == None::<Seq<GpuVox>>,
    {
        VoxBuffer { voxes: Vec::new(), capacity: 0 }
    }

    /// Record capacity of the backing buffer.
    pub fn capacity(&self) -> (c: usize)
        ensures
            c == self.cap(),
    {
        self.capacity
    }

    /// Whether a backing buffer exists yet: one is created the first time
    /// the capacity grows past zero, and never destroyed.
    pub fn has_buffer(&self) -> (r: bool)
        ensures
            r == (self.cap() > 0),
    {
        self.capacity > 0
    }

    /// Number of coordinates holding records.
    pub fn chunk_count(&self) -> (n: usize)
        ensures
            n == self.num_chunks(),
    {
        self.voxes.len()
    }

    /// Total resident record count: the sum of all bindings' lengths,
    /// recomputed on demand.
    pub fn len(&self) -> (n: usize)
        requires
            self.wf(),
        ensures
            n == self.total(),
    {
        let mut acc: usize = 0;
        let mut j: usize = 0;
        while j < self.voxes.len()
            invariant
                self.wf(),
                j <= self.entries().len(),
                acc == total_records(self.entries().take(j as int)),
            decreases self.entries().len() - j,
        {
            proof {
                lemma_prefix_step(self.entries(), j as int);
                lemma_total_prefix_le(self.entries(), j + 1);
            }
            acc = acc + self.voxes[j].1.len();
            j = j + 1;
        }
        proof {
            assert(self.entries().take(self.entries().len() as int) =~= self.entries());
        }
        acc
    }

    /// Replace-or-insert the record list for a coordinate. Returns the
    /// total record count as it stood before the call.
    pub fn insert(&mut self, pos: ChunkPos, value: Vec<GpuVox>) -> (index: usize)
        requires
            old(self).wf(),
            old(self).total() + value@.len() <= usize::MAX,
        ensures
            final(self).wf(),
            index == old(self).total(),
            final(self).stored_records(pos) == Some(value@),
            forall|q: ChunkPos| q != pos ==> final(self).stored_records(q) == old(self).stored_records(q),
            final(self).cap() == old(self).cap(),
            final(self).total() == old(self).total() + value@.len() - (match old(
                self,
            ).stored_records(pos) {
                Some(r) => r.len() as int,
                None => 0,
            }),
            final(self).num_chunks() == old(self).num_chunks() + (if old(self).stored_records(
                pos,
            ).is_some() {
                0int
            } else {
                1int
            }),
    {
        let index = self.len();
        match alist_find(&self.voxes, pos) {
            Some(j) => {
                proof {
                    let s = self.entries();
                    let t = s.update(j as int, (pos, value));
                    lemma_lookup_distinct(s, j as int);
                    lemma_total_update(s, j as int, (pos, value));
                    assert forall|q: ChunkPos| q != pos implies alist_lookup(t, q) == alist_lookup(
                        s,
                        q,
                    ) by {
                        lemma_lookup_update(s, j as int, value, q);
                    }
                    assert(alist_lookup(t, pos) == Some(value)) by {
                        lemma_lookup_update(s, j as int, value, pos);
                    }
                    assert forall|a: int, b: int| 0 <= a < b < t.len() implies (#[trigger] t[a]).0
                        != (#[trigger] t[b]).0 by {
                        assert(t[a].0 == s[a].0 && t[b].0 == s[b].0);
                    }
                }
                self.voxes.set(j, (pos, value));
                index
            },
            None => {
                proof {
                    let s = self.entries();
                    let t = s.push((pos, value));
                    lemma_lookup_none(s, pos);
                    lemma_total_push(s, (pos, value));
                    assert forall|q: ChunkPos| q != pos implies alist_lookup(t, q) == alist_lookup(
                        s,
                        q,
                    ) by {
                        lemma_lookup_push(s, pos, value, q);
                    }
                    assert(alist_lookup(t, pos) == Some(value)) by {
                        lemma_lookup_push(s, pos, value, pos);
                    }
                    assert forall|a: int, b: int| 0 <= a < b < t.len() implies (#[trigger] t[a]).0
                        != (#[trigger] t[b]).0 by {
                        if b < t.len() - 1 {
                            assert(t[a] == s[a] && t[b] == s[b]);
                        } else {
                            assert(t[a] == s[a] && t[b] == (pos, value));
                        }
                    }
                }
                self.voxes.push((pos, value));
                index
            },
        }
    }

    /// Drop a coordinate's record list; a no-op if the coordinate holds
    /// none (a chunk may be evicted before it ever produced a snapshot).
    pub fn remove(&mut self, pos: ChunkPos)
        requires
            old(self).wf(),
        ensures
            final(self).wf(),
            final(self).stored_records(pos) == None::<Seq<GpuVox>>,
            forall|q: ChunkPos| q != pos ==> final(self).stored_records(q) == old(self).stored_records(q),
            final(self).cap() == old(self).cap(),
            final(self).total() == old(self).total() - (match old(self).stored_records(pos) {
                Some(r) => r.len() as int,
                None => 0,
            }),
            final(self).num_chunks() == old(self).num_chunks() - (if old(self).stored_records(
                pos,
            ).is_some() {
                1int
            } else {
                0int
            }),
    {
        match alist_find(&self.voxes, pos) {
            Some(j) => {
                proof {
                    let s = self.entries();
                    let t = s.remove(j as int);
                    lemma_lookup_distinct(s, j as int);
                    lemma_total_remove(s, j as int);
                    lemma_lookup_remove(s, j as int, pos);
                    assert forall|q: ChunkPos| q != pos implies alist_lookup(t, q) == alist_lookup(
                        s,
                        q,
                    ) by {
                        lemma_lookup_remove(s, j as int, q);
                    }
                }
                let _ = self.voxes.remove(j);
            },
            None => {
                proof {
                    lemma_lookup_none(self.entries(), pos);
                }
            },
        }
    }

    /// The records stored for a coordinate, as a copy.
    pub fn records(&self, pos: ChunkPos) -> (r: Option<Vec<GpuVox>>)
        ensures
            match r {
                Some(v) => self.stored_records(pos) == Some(v@),
                None => self.stored_records(pos) == None::<Seq<GpuVox>>,
            },
    {
        match alist_find(&self.voxes, pos) {
            Some(j) => {
                proof {
                    crate::alist::lemma_lookup_at_index(self.entries(), j as int);
                }
                Some(copy_records(&self.voxes[j].1))
            },
            None => {
                proof {
                    lemma_lookup_none(self.entries(), pos);
                }
                None
            },
        }
    }

    /// Whether a coordinate holds records.
    pub fn contains(&self, pos: ChunkPos) -> (r: bool)
        ensures
            r == self.stored_records(pos).is_some(),
    {
        match alist_find(&self.voxes, pos) {
            Some(j) => {
                proof {
                    crate::alist::lemma_lookup_at_index(self.entries(), j as int);
                }
                true
            },
            None => {
                proof {
                    lemma_lookup_none(self.entries(), pos);
                }
                false
            },
        }
    }

    /// Grow the backing buffer to hold `capacity` records: if the demand
    /// exceeds the current capacity, the capacity becomes exactly the
    /// demand and the result is the byte size of the buffer the render
    /// backend must now allocate. Capacity never shrinks.
    pub fn reserve(&mut self, capacity: usize) -> (alloc: Option<usize>)
        requires
            capacity <= usize::MAX / 32,
        ensures
            final(self).entries() == old(self).entries(),
            old(self).cap() < capacity ==> final(self).cap() == capacity && alloc == Some(
                (capacity * 32) as usize,
            ),
            old(self).cap() >= capacity ==> final(self).cap() == old(self).cap()
                && alloc.is_none(),
            final(self).cap() >= old(self).cap(),
    {
        if capacity > self.capacity {
            self.capacity = capacity;
            Some(capacity * 32)
        } else {
            None
        }
    }

    /// Serialize the whole resident set: ensure the buffer holds the
    /// total demand, then lay every binding's records out contiguously,
    /// binding after binding. The result is the byte size of the buffer
    /// to allocate first, if the demand outgrew the capacity, and the
    /// full record layout to write; an empty cache yields an empty
    /// layout and no allocation, so nothing is written.
    pub fn write_buffer(&mut self) -> (plan: (Option<usize>, Vec<GpuVox>))
        requires
            old(self).wf(),
            old(self).total() <= usize::MAX / 32,
        ensures
            final(self).wf(),
            final(self).entries() == old(self).entries(),
            plan.1@ == flatten_records(old(self).entries()),
            plan.1@.len() == old(self).total(),
            old(self).cap() < old(self).total() ==> plan.0 == Some(
                ((old(self).total() * 32) as usize),
            ) && final(self).cap() == old(self).total(),
            old(self).cap() >= old(self).total() ==> plan.0.is_none()
                && final(self).cap() == old(self).cap(),
    {
        let n = self.len();
        let alloc = self.reserve(n);
        let mut data: Vec<GpuVox> = Vec::new();
        let mut j: usize = 0;
        while j < self.voxes.len()
            invariant
                self.wf(),
                j <= self.entries().len(),
                data@ == flatten_records(self.entries().take(j as int)),
            decreases self.entries().len() - j,
        {
            proof {
                lemma_prefix_step(self.entries(), j as int);
            }
            let m = self.voxes[j].1.len();
            let mut k: usize = 0;
            while k < m
                invariant
                    self.wf(),
                    j < self.entries().len(),
                    m == self.entries()[j as int].1@.len(),
                    k <= m,
                    data@ == flatten_records(self.entries().take(j as int)) + self.entries()[j as int].1@.take(k as int),
                decreases m - k,
            {
                data.push(self.voxes[j].1[k]);
                proof {
                    assert(data@ =~= flatten_records(self.entries().take(j as int))
                        + self.entries()[j as int].1@.take(k + 1));
                }
                k = k + 1;
            }
            proof {
                assert(self.entries()[j as int].1@.take(m as int) =~= self.entries()[j as int].1@);
            }
            j = j + 1;
        }
        proof {
            assert(self.entries().take(self.entries().len() as int) =~= self.entries());
            lemma_flatten_len(self.entries());
        }
        (alloc, data)
    }
}

/// Element-wise copy of a record list (records are plain values).
fn copy_records(v: &Vec<GpuVox>) -> (r: Vec<GpuVox>)
    ensures
        r@ == v@,
{
    let mut r: Vec<GpuVox> = Vec::new();
    let mut i: usize = 0;
    while i < v.len()
        invariant
            i <= v@.len(),
            r@.len() == i,
            forall|j: int| 0 <= j < i ==> r@[j] == v@[j],
        decreases v@.len() - i,
    {
        r.push(v[i]);
        i = i + 1;
    }
    proof {
        assert(r@ =~= v@);
    }
    r
}

} // verus!
