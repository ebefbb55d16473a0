use crate::alist::{
    alist_find, alist_lookup, distinct_keys, lemma_distinct_push, lemma_lookup_distinct,
    lemma_lookup_none, lemma_lookup_push, lemma_lookup_some_iff_key,
};
use crate::chunk::Chunk;
use crate::pos::ChunkPos;
use crate::render::RenderChunk;
use vstd::arithmetic::div_mod::{lemma_fundamental_div_mod, lemma_fundamental_div_mod_converse};
use vstd::prelude::*;

verus! {

/// Default render radius, in chunks: how far around the observer chunks
/// are kept resident.
pub const RENDER_RADIUS: i32 = 4;

/// Largest accepted render radius.
pub const RADIUS_LIMIT: i32 = 512;

/// Largest magnitude of an observer chunk coordinate accepted by
/// `load_chunks`: beyond this, adding a radius offset could overflow.
pub const OBSERVER_LIMIT: i32 = 2_000_000_000;

/// A coordinate is in render range of the observer at `p` exactly when it
/// lies strictly within Euclidean distance `r`: a sphere, not a cube, so
/// the resident count stays `O(r^3)` with a tighter constant.
pub open spec fn in_sphere(p: ChunkPos, r: int, c: ChunkPos) -> bool {
    (c.x - p.x) * (c.x - p.x) + (c.y - p.y) * (c.y - p.y) + (c.z - p.z) * (c.z - p.z) < r * r
}

/// The strict sphere test, executable: distance squared strictly below
/// the radius squared.
pub fn in_render_range(p: ChunkPos, r: i32, c: ChunkPos) -> (b: bool)
    ensures
        b == in_sphere(p, r as int, c),
{
    let dx = c.x as i128 - p.x as i128;
    let dy = c.y as i128 - p.y as i128;
    let dz = c.z as i128 - p.z as i128;
    proof {
        assert(0 <= dx * dx <= 0x1_0000_0000_0000_0000 && 0 <= dy * dy <= 0x1_0000_0000_0000_0000
            && 0 <= dz * dz <= 0x1_0000_0000_0000_0000 && 0 <= (r as i128) * (r as i128)
            <= 0x4000_0000_0000_0000) by (nonlinear_arith)
            requires
                -0x1_0000_0000 <= dx <= 0x1_0000_0000,
                -0x1_0000_0000 <= dy <= 0x1_0000_0000,
                -0x1_0000_0000 <= dz <= 0x1_0000_0000,
                -0x8000_0000 <= r as i128 <= 0x8000_0000,
        ;
    }
    dx * dx + dy * dy + dz * dz < (r as i128) * (r as i128)
}

/// Everything strictly inside the sphere lies strictly inside the cube of
/// half-side `r`.
proof fn lemma_sphere_in_cube(p: ChunkPos, r: int, c: ChunkPos)
    requires
        0 <= r,
        in_sphere(p, r, c),
    ensures
        -r < c.x - p.x < r,
        -r < c.y - p.y < r,
        -r < c.z - p.z < r,
{
    let dx = c.x - p.x;
    let dy = c.y - p.y;
    let dz = c.z - p.z;
    assert(dx * dx >= 0 && dy * dy >= 0 && dz * dz >= 0) by (nonlinear_arith);
    assert(dx * dx < r * r && r >= 0 ==> -r < dx < r) by (nonlinear_arith);
    assert(dy * dy < r * r && r >= 0 ==> -r < dy < r) by (nonlinear_arith);
    assert(dz * dz < r * r && r >= 0 ==> -r < dz < r) by (nonlinear_arith);
}

/// Flat enumeration index of a coordinate inside the cube of half-side
/// `r` around `p`.
spec fn cube_index(p: ChunkPos, r: int, c: ChunkPos) -> int {
    let n = 2 * r + 1;
    (c.x - p.x + r) * (n * n) + (c.y - p.y + r) * n + (c.z - p.z + r)
}

/// The coordinate enumerated at flat index `k` inside the cube of
/// half-side `r` around `p`.
spec fn cube_coord(p: ChunkPos, r: int, k: int) -> ChunkPos {
    let n = 2 * r + 1;
    ChunkPos {
        x: (p.x + k / (n * n) - r) as i32,
        y: (p.y + (k / n) % n - r) as i32,
        z: (p.z + k % n - r) as i32,
    }
}

/// The flat enumeration reaches every coordinate of the cube: a
/// coordinate whose offsets lie within the cube is enumerated at its own
/// `cube_index`.
proof fn lemma_cube_coord_of(p: ChunkPos, r: int, c: ChunkPos)
    requires
        0 <= r,
        -r <= c.x - p.x <= r,
        -r <= c.y - p.y <= r,
        -r <= c.z - p.z <= r,
        -0x8000_0000 <= c.x < 0x8000_0000,
        -0x8000_0000 <= c.y < 0x8000_0000,
        -0x8000_0000 <= c.z < 0x8000_0000,
    ensures
        0 <= cube_index(p, r, c) < (2 * r + 1) * (2 * r + 1) * (2 * r + 1),
        cube_coord(p, r, cube_index(p, r, c)) == c,
{
    let n = 2 * r + 1;
    let a = c.x - p.x + r;
    let b = c.y - p.y + r;
    let g = c.z - p.z + r;
    let k = cube_index(p, r, c);
    assert(0 <= a < n && 0 <= b < n && 0 <= g < n);
    assert(b * n + g < n * n && 0 <= b * n + g) by (nonlinear_arith)
        requires
            0 <= b < n,
            0 <= g < n,
    ;
    assert(k == a * (n * n) + (b * n + g));
    lemma_fundamental_div_mod_converse(k, n * n, a, b * n + g);
    assert(k == (a * n + b) * n + g) by (nonlinear_arith)
        requires
            k == a * (n * n) + b * n + g,
    ;
    lemma_fundamental_div_mod_converse(k, n, a * n + b, g);
    lemma_fundamental_div_mod_converse(a * n + b, n, a, b);
    assert(k / (n * n) == a && (k / n) % n == b && k % n == g);
    assert(0 <= k < n * n * n) by (nonlinear_arith)
        requires
            k == a * (n * n) + b * n + g,
            0 <= a < n,
            0 <= b < n,
            0 <= g < n,
    ;
    assert(cube_coord(p, r, k).x == (p.x + a - r) as i32 && p.x + a - r == c.x);
    assert(cube_coord(p, r, k) == c);
}

/// Enumerate the expected set: every coordinate within render range of
/// the observer at `pos`, each exactly once.
fn expected_coords(pos: ChunkPos, r: i32) -> (expected: Vec<ChunkPos>)
    requires
        0 <= r <= RADIUS_LIMIT,
        -OBSERVER_LIMIT <= pos.x <= OBSERVER_LIMIT,
        -OBSERVER_LIMIT <= pos.y <= OBSERVER_LIMIT,
        -OBSERVER_LIMIT <= pos.z <= OBSERVER_LIMIT,
    ensures
        forall|w: int| 0 <= w < expected@.len() ==> in_sphere(pos, r as int, #[trigger] expected@[w]),
        forall|w1: int, w2: int|
            0 <= w1 < w2 < expected@.len() ==> #[trigger] expected@[w1] != #[trigger] expected@[w2],
        forall|c: ChunkPos| in_sphere(pos, r as int, c) ==> expected@.contains(c),
{
    let n: usize = (2 * r + 1) as usize;
    proof {
        assert(n * n <= 1050625 && n * n * n <= 1076890625) by (nonlinear_arith)
            requires
                0 < n <= 1025,
        ;
    }
    let n2: usize = n * n;
    let total: usize = n2 * n;
    let mut expected: Vec<ChunkPos> = Vec::new();
    let mut k: usize = 0;
    while k < total
        invariant
            n == 2 * r + 1,
            n2 == n * n,
            total == n * n * n,
            0 <= r <= RADIUS_LIMIT,
            -OBSERVER_LIMIT <= pos.x <= OBSERVER_LIMIT,
            -OBSERVER_LIMIT <= pos.y <= OBSERVER_LIMIT,
            -OBSERVER_LIMIT <= pos.z <= OBSERVER_LIMIT,
            k <= total,
            forall|w: int|
                0 <= w < expected@.len() ==> in_sphere(pos, r as int, #[trigger] expected@[w]),
            forall|w: int|
                0 <= w < expected@.len() ==> cube_index(pos, r as int, #[trigger] expected@[w]) < k,
            forall|w1: int, w2: int|
                0 <= w1 < w2 < expected@.len() ==> cube_index(pos, r as int, #[trigger] expected@[w1])
                    < cube_index(pos, r as int, #[trigger] expected@[w2]),
            forall|j: int|
                0 <= j < k && in_sphere(pos, r as int, cube_coord(pos, r as int, j))
                    ==> expected@.contains(cube_coord(pos, r as int, j)),
        decreases total - k,
    {
        let a: usize = k / n2;
        let b: usize = (k / n) % n;
        let g: usize = k % n;
        proof {
            lemma_fundamental_div_mod(k as int, n as int);
            lemma_fundamental_div_mod(k as int / (n as int), n as int);
            vstd::arithmetic::div_mod::lemma_div_denominator(k as int, n as int, n as int);
            assert(a < n && b < n && g < n) by {
                assert(k as int / (n2 as int) < n as int) by (nonlinear_arith)
                    requires
                        0 <= k as int,
                        (k as int) < (n as int) * (n2 as int),
                        n2 == (n as int) * (n as int),
                        0 < n as int,
                ;
            }
        }
        let c = ChunkPos {
            x: pos.x + (a as i32 - r),
            y: pos.y + (b as i32 - r),
            z: pos.z + (g as i32 - r),
        };
        proof {
            assert(c == cube_coord(pos, r as int, k as int));
            assert(cube_index(pos, r as int, c) == k as int) by {
                assert(k as int == (a as int) * ((n as int) * (n as int)) + (b as int) * (n as int)
                    + (g as int)) by (nonlinear_arith)
                    requires
                        k as int == (n as int) * (k as int / (n as int)) + (k as int) % (n as int),
                        k as int / (n as int) == (n as int) * ((k as int / (n as int)) / (n as int))
                            + (k as int / (n as int)) % (n as int),
                        (k as int / (n as int)) / (n as int) == k as int / ((n as int) * (n as int)),
                        a as int == k as int / ((n as int) * (n as int)),
                        b as int == (k as int / (n as int)) % (n as int),
                        g as int == (k as int) % (n as int),
                ;
            }
        }
        let ghost prev = expected@;
        if in_render_range(pos, r, c) {
            expected.push(c);
        }
        proof {
            assert forall|j: int|
                0 <= j <= k as int && in_sphere(
                    pos,
                    r as int,
                    cube_coord(pos, r as int, j),
                ) implies expected@.contains(cube_coord(pos, r as int, j)) by {
                let cj = cube_coord(pos, r as int, j);
                if j == k as int {
                    assert(cj == c);
                    assert(expected@[expected@.len() - 1] == c);
                } else {
                    assert(prev.contains(cj));
                    let w = choose|w: int| 0 <= w < prev.len() && prev[w] == cj;
                    assert(expected@[w] == cj);
                }
            }
        }
        k = k + 1;
    }
    proof {
        assert forall|c: ChunkPos| in_sphere(pos, r as int, c) implies expected@.contains(c) by {
            lemma_sphere_in_cube(pos, r as int, c);
            lemma_cube_coord_of(pos, r as int, c);
            assert(in_sphere(pos, r as int, cube_coord(pos, r as int, cube_index(pos, r as int, c))));
        }
    }
    expected
}

/// One chunk slot of the world map: generation has been dispatched for
/// the coordinate but has not completed (`Pending`), or the generated
/// chunk is attached (`Ready`).
pub enum Slot {
    Pending,
    Ready(Chunk),
}

impl Slot {
    pub open spec fn is_pending(self) -> bool {
        match self {
            Slot::Pending => true,
            Slot::Ready(_) => false,
        }
    }

    /// The slot's chunk is well-formed if it has one.
    pub open spec fn wf(self) -> bool {
        match self {
            Slot::Pending => true,
            Slot::Ready(ch) => ch.wf(),
        }
    }
}

/// No coordinate appears twice.
pub open spec fn distinct_coords(s: Seq<ChunkPos>) -> bool {
    forall|i: int, j: int| 0 <= i < j < s.len() ==> s[i] != s[j]
}

/// The bindings that survive an observer move: those whose coordinate is
/// still within render range, in their original order.
spec fn kept_of(s: Seq<(ChunkPos, Slot)>, pos: ChunkPos, r: int) -> Seq<(ChunkPos, Slot)>
    decreases s.len(),
{
    if s.len() == 0 {
        Seq::empty()
    } else {
        (if in_sphere(pos, r, s[0].0) {
            seq![s[0]]
        } else {
            Seq::empty()
        }) + kept_of(s.drop_first(), pos, r)
    }
}

/// The coordinates evicted by an observer move: those that fell out of
/// render range, in their original order.
spec fn evicted_of(s: Seq<(ChunkPos, Slot)>, pos: ChunkPos, r: int) -> Seq<ChunkPos>
    decreases s.len(),
{
    if s.len() == 0 {
        Seq::empty()
    } else {
        (if in_sphere(pos, r, s[0].0) {
            Seq::empty()
        } else {
            seq![s[0].0]
        }) + evicted_of(s.drop_first(), pos, r)
    }
}

/// Processing one more binding appends its contribution.
proof fn lemma_partition_snoc(s: Seq<(ChunkPos, Slot)>, e: (ChunkPos, Slot), pos: ChunkPos, r: int)
    ensures
        kept_of(s.push(e), pos, r) == kept_of(s, pos, r) + (if in_sphere(pos, r, e.0) {
            seq![e]
        } else {
            Seq::<(ChunkPos, Slot)>::empty()
        }),
        evicted_of(s.push(e), pos, r) == evicted_of(s, pos, r) + (if in_sphere(pos, r, e.0) {
            Seq::<ChunkPos>::empty()
        } else {
            seq![e.0]
        }),
    decreases s.len(),
{
    if s.len() == 0 {
        reveal_with_fuel(kept_of, 2);
        reveal_with_fuel(evicted_of, 2);
        assert(s.push(e)[0] == e);
        assert(s.push(e).drop_first() =~= Seq::<(ChunkPos, Slot)>::empty());
        assert(kept_of(s.push(e), pos, r) =~= kept_of(s, pos, r) + (if in_sphere(pos, r, e.0) {
            seq![e]
        } else {
            Seq::<(ChunkPos, Slot)>::empty()
        }));
        assert(evicted_of(s.push(e), pos, r) =~= evicted_of(s, pos, r) + (if in_sphere(
            pos,
            r,
            e.0,
        ) {
            Seq::<ChunkPos>::empty()
        } else {
            seq![e.0]
        }));
    } else {
        assert(s.push(e)[0] == s[0]);
        assert(s.push(e).drop_first() =~= s.drop_first().push(e));
        lemma_partition_snoc(s.drop_first(), e, pos, r);
        assert(kept_of(s.push(e), pos, r) =~= kept_of(s, pos, r) + (if in_sphere(pos, r, e.0) {
            seq![e]
        } else {
            Seq::<(ChunkPos, Slot)>::empty()
        }));
        assert(evicted_of(s.push(e), pos, r) =~= evicted_of(s, pos, r) + (if in_sphere(
            pos,
            r,
            e.0,
        ) {
            Seq::<ChunkPos>::empty()
        } else {
            seq![e.0]
        }));
    }
}

/// What surviving bindings look up to: in-range keys keep their binding,
/// out-of-range keys are gone, and the keys stay distinct.
proof fn lemma_kept_lookup(s: Seq<(ChunkPos, Slot)>, pos: ChunkPos, r: int, q: ChunkPos)
    requires
        distinct_keys(s),
    ensures
        distinct_keys(kept_of(s, pos, r)),
        alist_lookup(kept_of(s, pos, r), q) == (if in_sphere(pos, r, q) {
            alist_lookup(s, q)
        } else {
            None::<Slot>
        }),
    decreases s.len(),
{
    let ks = kept_of(s, pos, r);
    if s.len() == 0 {
    } else {
        let h = s[0];
        let rest = s.drop_first();
        crate::alist::lemma_distinct_drop_first(s);
        lemma_kept_lookup(rest, pos, r, q);
        lemma_kept_lookup(rest, pos, r, h.0);
        assert forall|j: int| 0 <= j < rest.len() implies (#[trigger] rest[j]).0 != h.0 by {
            assert(rest[j] == s[j + 1]);
        }
        lemma_lookup_none(rest, h.0);
        if in_sphere(pos, r, h.0) {
            assert(ks =~= seq![h] + kept_of(rest, pos, r));
            assert(ks[0] == h);
            assert(ks.drop_first() =~= kept_of(rest, pos, r));
            lemma_lookup_some_iff_key(kept_of(rest, pos, r), h.0);
            assert forall|a: int, b: int| 0 <= a < b < ks.len() implies (#[trigger] ks[a]).0
                != (#[trigger] ks[b]).0 by {
                if a > 0 {
                    assert(ks[a] == kept_of(rest, pos, r)[a - 1]);
                    assert(ks[b] == kept_of(rest, pos, r)[b - 1]);
                } else {
                    assert(ks[b] == kept_of(rest, pos, r)[b - 1]);
                    assert(alist_lookup(kept_of(rest, pos, r), h.0) == None::<Slot>);
                }
            }
        } else {
            assert(ks =~= kept_of(rest, pos, r));
            if q == h.0 {
                lemma_lookup_some_iff_key(ks, q);
                assert(alist_lookup(ks, q) == None::<Slot>);
            }
        }
    }
}

/// Surviving bindings carry well-formed slots if the originals did, and
/// when every key is in range nothing moves at all.
proof fn lemma_kept_preserves(s: Seq<(ChunkPos, Slot)>, pos: ChunkPos, r: int)
    ensures
        (forall|j: int| 0 <= j < s.len() ==> (#[trigger] s[j]).1.wf()) ==> (forall|j: int|
            0 <= j < kept_of(s, pos, r).len() ==> (#[trigger] kept_of(s, pos, r)[j]).1.wf()),
        (forall|j: int| 0 <= j < s.len() ==> in_sphere(pos, r, (#[trigger] s[j]).0)) ==> kept_of(
            s,
            pos,
            r,
        ) == s && evicted_of(s, pos, r) == Seq::<ChunkPos>::empty(),
    decreases s.len(),
{
    if s.len() == 0 {
        assert(kept_of(s, pos, r) =~= s);
    } else {
        let rest = s.drop_first();
        lemma_kept_preserves(rest, pos, r);
        assert forall|j: int| 0 <= j < rest.len() implies rest[j] == s[j + 1] by {}
        if forall|j: int| 0 <= j < s.len() ==> (#[trigger] s[j]).1.wf() {
            assert(s[0].1.wf());
            let ks = kept_of(s, pos, r);
            if in_sphere(pos, r, s[0].0) {
                assert forall|j: int| 0 <= j < ks.len() implies (#[trigger] ks[j]).1.wf() by {
                    if j == 0 {
                    } else {
                        assert(ks[j] == kept_of(rest, pos, r)[j - 1]);
                    }
                }
            } else {
                assert forall|j: int| 0 <= j < ks.len() implies (#[trigger] ks[j]).1.wf() by {
                    assert(ks[j] == kept_of(rest, pos, r)[j]);
                }
            }
        }
        if forall|j: int| 0 <= j < s.len() ==> in_sphere(pos, r, (#[trigger] s[j]).0) {
            assert(in_sphere(pos, r, s[0].0));
            assert(kept_of(s, pos, r) =~= seq![s[0]] + kept_of(rest, pos, r));
            assert(kept_of(s, pos, r) =~= s);
        }
    }
}

/// A coordinate is evicted exactly when it was resident and fell out of
/// range, and no coordinate is evicted twice.
proof fn lemma_evicted_contains(s: Seq<(ChunkPos, Slot)>, pos: ChunkPos, r: int, q: ChunkPos)
    requires
        distinct_keys(s),
    ensures
        evicted_of(s, pos, r).contains(q) <==> ((exists|j: int|
            0 <= j < s.len() && (#[trigger] s[j]).0 == q) && !in_sphere(pos, r, q)),
        distinct_coords(evicted_of(s, pos, r)),
    decreases s.len(),
{
    let ev = evicted_of(s, pos, r);
    if s.len() == 0 {
    } else {
        let h = s[0];
        let rest = s.drop_first();
        crate::alist::lemma_distinct_drop_first(s);
        lemma_evicted_contains(rest, pos, r, q);
        lemma_evicted_contains(rest, pos, r, h.0);
        assert forall|j: int| 0 <= j < rest.len() implies (#[trigger] rest[j]).0 != h.0 by {
            assert(rest[j] == s[j + 1]);
        }
        let evr = evicted_of(rest, pos, r);
        if in_sphere(pos, r, h.0) {
            assert(ev =~= evr);
            if ev.contains(q) {
                let j = choose|j: int| 0 <= j < rest.len() && (#[trigger] rest[j]).0 == q;
                assert(s[j + 1].0 == q);
            }
            if (exists|j: int| 0 <= j < s.len() && (#[trigger] s[j]).0 == q) && !in_sphere(
                pos,
                r,
                q,
            ) {
                let j = choose|j: int| 0 <= j < s.len() && (#[trigger] s[j]).0 == q;
                assert(j != 0);
                assert(rest[j - 1].0 == q);
            }
        } else {
            assert(ev =~= seq![h.0] + evr);
            assert(ev[0] == h.0);
            assert(ev.drop_first() =~= evr);
            if q == h.0 {
                assert(ev.contains(q)) by {
                    assert(ev[0] == q);
                }
                assert(s[0].0 == q);
            } else {
                if ev.contains(q) {
                    let w = choose|w: int| 0 <= w < ev.len() && ev[w] == q;
                    assert(w != 0);
                    assert(evr[w - 1] == q);
                    let j = choose|j: int| 0 <= j < rest.len() && (#[trigger] rest[j]).0 == q;
                    assert(s[j + 1].0 == q);
                }
                if (exists|j: int| 0 <= j < s.len() && (#[trigger] s[j]).0 == q) && !in_sphere(
                    pos,
                    r,
                    q,
                ) {
                    let j = choose|j: int| 0 <= j < s.len() && (#[trigger] s[j]).0 == q;
                    assert(j != 0);
                    assert(rest[j - 1].0 == q);
                    assert(evr.contains(q));
                    let w = choose|w: int| 0 <= w < evr.len() && evr[w] == q;
                    assert(ev[w + 1] == q);
                }
            }
            assert(!evr.contains(h.0));
            assert forall|a: int, b: int| 0 <= a < b < ev.len() implies ev[a] != ev[b] by {
                if a == 0 {
                    assert(ev[b] == evr[b - 1]);
                    if ev[b] == h.0 {
                        assert(evr.contains(h.0)) by {
                            assert(evr[b - 1] == h.0);
                        }
                    }
                } else {
                    assert(ev[a] == evr[a - 1] && ev[b] == evr[b - 1]);
                }
            }
        }
    }
}

/// What one observer move did: which coordinates now need generation
/// dispatched, and which were evicted (whose resources the caller must
/// release).
pub struct LoadOutcome {
    pub spawned: Vec<ChunkPos>,
    pub evicted: Vec<ChunkPos>,
}

/// The set of chunks resident around the observer: a map from chunk
/// coordinate to its slot, plus the list of coordinates removed since the
/// last extraction. Every coordinate within render range of the last
/// observed position has a slot, and every slot is within range, except
/// during the window between an eviction and the extraction that
/// consumes the removal list.
pub struct WorldMap {
    radius: i32,
    chunks: Vec<(ChunkPos, Slot)>,
    removed_chunks: Vec<ChunkPos>,
}

impl WorldMap {
    /// The resident bindings, in storage order.
    pub closed spec fn entries(&self) -> Seq<(ChunkPos, Slot)> {
        self.chunks@
    }

    /// Coordinates evicted since the last extraction.
    pub closed spec fn removed(&self) -> Seq<ChunkPos> {
        self.removed_chunks@
    }

    /// The configured render radius.
    pub closed spec fn radius(&self) -> int {
        self.radius as int
    }

    /// The slot of a coordinate, if it is resident.
    pub open spec fn slot_of(&self, c: ChunkPos) -> Option<Slot> {
        alist_lookup(self.entries(), c)
    }

    pub open spec fn resident(&self, c: ChunkPos) -> bool {
        self.slot_of(c).is_some()
    }

    /// The coordinate is resident and still awaiting its chunk.
    pub open spec fn pending_at(&self, c: ChunkPos) -> bool {
        match self.slot_of(c) {
            Some(s) => s.is_pending(),
            None => false,
        }
    }

    /// The coordinate is resident with a chunk attached.
    pub open spec fn ready_at(&self, c: ChunkPos) -> bool {
        match self.slot_of(c) {
            Some(s) => !s.is_pending(),
            None => false,
        }
    }

    pub open spec fn wf(&self) -> bool {
        &&& distinct_keys(self.entries())
        &&& 0 <= self.radius() <= RADIUS_LIMIT as int
        &&& forall|j: int| 0 <= j < self.entries().len() ==> (#[trigger] self.entries()[j]).1.wf()
    }

    /// An empty map for a session with the given render radius.
    pub fn new(radius: i32) -> (m: WorldMap)
        requires
            0 <= radius <= RADIUS_LIMIT,
        ensures
            m.wf(),
            m.radius() == radius,
            m.removed() == Seq::<ChunkPos>::empty(),
            forall|c: ChunkPos| !m.resident(c),
    {
        WorldMap { radius, chunks: Vec::new(), removed_chunks: Vec::new() }
    }

    /// The configured render radius.
    pub fn render_radius(&self) -> (r: i32)
        ensures
            r == self.radius(),
    {
        self.radius
    }

    /// How many coordinates are resident.
    pub fn resident_count(&self) -> (n: usize)
        ensures
            n == self.entries().len(),
    {
        self.chunks.len()
    }

    /// How many evictions await the next extraction.
    pub fn removed_count(&self) -> (n: usize)
        ensures
            n == self.removed().len(),
    {
        self.removed_chunks.len()
    }

    /// Whether a coordinate is resident.
    pub fn is_resident(&self, c: ChunkPos) -> (r: bool)
        ensures
            r == self.resident(c),
    {
        match alist_find(&self.chunks, c) {
            Some(j) => {
                proof {
                    crate::alist::lemma_lookup_at_index(self.entries(), j as int);
                }
                true
            },
            None => {
                proof {
                    lemma_lookup_none(self.entries(), c);
                }
                false
            },
        }
    }

    /// Whether a coordinate is resident and still awaiting generation.
    pub fn is_pending(&self, c: ChunkPos) -> (r: bool)
        ensures
            r == self.pending_at(c),
    {
        match alist_find(&self.chunks, c) {
            Some(j) => {
                proof {
                    crate::alist::lemma_lookup_at_index(self.entries(), j as int);
                }
                match &self.chunks[j].1 {
                    Slot::Pending => true,
                    Slot::Ready(_) => false,
                }
            },
            None => {
                proof {
                    lemma_lookup_none(self.entries(), c);
                }
                false
            },
        }
    }

    /// Whether a coordinate is resident with its chunk attached.
    pub fn is_ready(&self, c: ChunkPos) -> (r: bool)
        ensures
            r == self.ready_at(c),
    {
        match alist_find(&self.chunks, c) {
            Some(j) => {
                proof {
                    crate::alist::lemma_lookup_at_index(self.entries(), j as int);
                }
                match &self.chunks[j].1 {
                    Slot::Pending => false,
                    Slot::Ready(_) => true,
                }
            },
            None => {
                proof {
                    lemma_lookup_none(self.entries(), c);
                }
                false
            },
        }
    }

    /// React to the observer standing in chunk `pos`: after the call the
    /// resident set is exactly the render sphere around `pos`. Slots
    /// already in range keep their state; coordinates that entered the
    /// sphere become `Pending` and are returned as `spawned`, for the
    /// caller to dispatch generation; coordinates that left the sphere
    /// are dropped, returned as `evicted`, and recorded for the next
    /// extraction. Running this twice for the same observer position is
    /// a no-op the second time.
    #[verifier::rlimit(80)]
    pub fn load_chunks(&mut self, pos: ChunkPos) -> (out: LoadOutcome)
        requires
            old(self).wf(),
            -OBSERVER_LIMIT <= pos.x <= OBSERVER_LIMIT,
            -OBSERVER_LIMIT <= pos.y <= OBSERVER_LIMIT,
            -OBSERVER_LIMIT <= pos.z <= OBSERVER_LIMIT,
        ensures
            final(self).wf(),
            final(self).radius() == old(self).radius(),
            forall|c: ChunkPos| #[trigger]
                final(self).resident(c) <==> in_sphere(pos, old(self).radius(), c),
            forall|c: ChunkPos|
                in_sphere(pos, old(self).radius(), c) && old(self).resident(c)
                    ==> #[trigger] final(self).slot_of(c) == old(self).slot_of(c),
            forall|c: ChunkPos|
                in_sphere(pos, old(self).radius(), c) && !old(self).resident(c)
                    ==> #[trigger] final(self).slot_of(c) == Some(Slot::Pending),
            forall|c: ChunkPos| #[trigger]
                out.spawned@.contains(c) <==> (in_sphere(pos, old(self).radius(), c)
                    && !old(self).resident(c)),
            distinct_coords(out.spawned@),
            forall|c: ChunkPos| #[trigger]
                out.evicted@.contains(c) <==> (old(self).resident(c) && !in_sphere(
                    pos,
                    old(self).radius(),
                    c,
                )),
            distinct_coords(out.evicted@),
            final(self).removed() == old(self).removed() + out.evicted@,
            (forall|c: ChunkPos| #[trigger]
                old(self).resident(c) <==> in_sphere(pos, old(self).radius(), c))
                ==> final(self).entries() == old(self).entries() && out.spawned@.len() == 0
                && out.evicted@.len() == 0,
    {
        let r = self.radius;
        let ghost orig = self.entries();
        let ghost ri = r as int;
        let expected = expected_coords(pos, r);

        // Evict what fell out of range, keeping the survivors in order.
        let mut kept: Vec<(ChunkPos, Slot)> = Vec::new();
        let mut evicted: Vec<ChunkPos> = Vec::new();
        let ghost mut processed: int = 0;
        while self.chunks.len() > 0
            invariant
                ri == r as int,
                0 <= processed <= orig.len(),
                self.chunks@ == orig.subrange(processed, orig.len() as int),
                kept@ == kept_of(orig.take(processed), pos, ri),
                evicted@ == evicted_of(orig.take(processed), pos, ri),
                self.radius == r,
                self.removed_chunks@ == old(self).removed(),
            decreases self.chunks@.len(),
        {
            proof {
                assert(self.chunks@[0] == orig[processed]);
            }
            let (p, slot) = self.chunks.remove(0);
            proof {
                assert(self.chunks@ =~= orig.subrange(processed + 1, orig.len() as int));
                assert(orig.take(processed + 1) =~= orig.take(processed).push((p, slot)));
                lemma_partition_snoc(orig.take(processed), (p, slot), pos, ri);
            }
            if in_render_range(pos, r, p) {
                kept.push((p, slot));
            } else {
                evicted.push(p);
            }
            proof {
                assert(kept@ =~= kept_of(orig.take(processed + 1), pos, ri));
                assert(evicted@ =~= evicted_of(orig.take(processed + 1), pos, ri));
                processed = processed + 1;
            }
        }
        proof {
            assert(orig.take(orig.len() as int) =~= orig);
            assert(processed == orig.len());
        }
        let ghost keptv = kept@;
        self.chunks = kept;

        // Record the evictions for the next extraction.
        let mut t: usize = 0;
        while t < evicted.len()
            invariant
                ri == r as int,
                t <= evicted@.len(),
                self.removed_chunks@ == old(self).removed() + evicted@.take(t as int),
                self.chunks@ == keptv,
                self.radius == r,
            decreases evicted@.len() - t,
        {
            self.removed_chunks.push(evicted[t]);
            proof {
                assert(self.removed_chunks@ =~= old(self).removed() + evicted@.take(t + 1));
            }
            t = t + 1;
        }
        proof {
            assert(evicted@.take(evicted@.len() as int) =~= evicted@);
            lemma_kept_preserves(orig, pos, ri);
            assert forall|q: ChunkPos| true implies #[trigger] alist_lookup(keptv, q) == (
            if in_sphere(pos, ri, q) {
                alist_lookup(orig, q)
            } else {
                None::<Slot>
            }) by {
                lemma_kept_lookup(orig, pos, ri, q);
            }
            lemma_kept_lookup(orig, pos, ri, pos);
        }

        // Request what entered the sphere and is not yet resident.
        let mut spawned: Vec<ChunkPos> = Vec::new();
        let mut u: usize = 0;
        while u < expected.len()
            invariant
                ri == r as int,
                u <= expected@.len(),
                self.radius == r,
                0 <= r <= RADIUS_LIMIT,
                self.removed_chunks@ == old(self).removed() + evicted@,
                distinct_keys(self.chunks@),
                forall|j: int|
                    0 <= j < self.chunks@.len() ==> (#[trigger] self.chunks@[j]).1.wf(),
                forall|j: int| 0 <= j < keptv.len() ==> (#[trigger] keptv[j]).1.wf(),
                self.chunks@.len() >= keptv.len(),
                self.chunks@.take(keptv.len() as int) == keptv,
                forall|k: int|
                    keptv.len() <= k < self.chunks@.len() ==> (#[trigger] self.chunks@[k]).1
                        == Slot::Pending && alist_lookup(keptv, self.chunks@[k].0) == None::<Slot>
                        && in_sphere(pos, ri, self.chunks@[k].0) && spawned@.contains(
                        self.chunks@[k].0,
                    ),
                forall|q: ChunkPos| #[trigger]
                    alist_lookup(keptv, q).is_some() ==> alist_lookup(self.chunks@, q)
                        == alist_lookup(keptv, q),
                forall|q: ChunkPos| #[trigger]
                    alist_lookup(self.chunks@, q).is_some() ==> alist_lookup(keptv, q).is_some()
                        || in_sphere(pos, ri, q),
                forall|w: int|
                    0 <= w < u ==> (if alist_lookup(keptv, #[trigger] expected@[w]).is_some() {
                        alist_lookup(self.chunks@, expected@[w]) == alist_lookup(
                            keptv,
                            expected@[w],
                        )
                    } else {
                        alist_lookup(self.chunks@, expected@[w]) == Some(Slot::Pending)
                    }),
                forall|w: int|
                    0 <= w < spawned@.len() ==> in_sphere(pos, ri, #[trigger] spawned@[w])
                        && alist_lookup(keptv, spawned@[w]) == None::<Slot> && alist_lookup(
                        self.chunks@,
                        spawned@[w],
                    ).is_some(),
                forall|w: int|
                    0 <= w < u && alist_lookup(keptv, #[trigger] expected@[w]) == None::<Slot>
                        ==> spawned@.contains(expected@[w]),
                distinct_coords(spawned@),
                forall|w: int|
                    0 <= w < expected@.len() ==> in_sphere(pos, ri, #[trigger] expected@[w]),
                forall|w1: int, w2: int|
                    0 <= w1 < w2 < expected@.len() ==> #[trigger] expected@[w1]
                        != #[trigger] expected@[w2],
            decreases expected@.len() - u,
        {
            let c = expected[u];
            let ghost before = self.chunks@;
            let ghost spawned_before = spawned@;
            match alist_find(&self.chunks, c) {
                Some(j) => {
                    proof {
                        lemma_lookup_distinct(self.chunks@, j as int);
                        if alist_lookup(keptv, c).is_none() {
                            if j < keptv.len() {
                                assert(keptv[j as int] == self.chunks@[j as int]);
                                lemma_lookup_some_iff_key(keptv, c);
                                assert(false);
                            }
                            assert(spawned@.contains(c));
                        }
                    }
                },
                None => {
                    proof {
                        lemma_lookup_none(self.chunks@, c);
                        lemma_distinct_push(self.chunks@, c, Slot::Pending);
                        assert forall|q: ChunkPos| q != c implies #[trigger] alist_lookup(
                            before.push((c, Slot::Pending)),
                            q,
                        ) == alist_lookup(before, q) by {
                            lemma_lookup_push(before, c, Slot::Pending, q);
                        }
                        lemma_lookup_push(before, c, Slot::Pending, c);
                    }
                    self.chunks.push((c, Slot::Pending));
                    spawned.push(c);
                    proof {
                        assert(self.chunks@.take(keptv.len() as int) =~= before.take(
                            keptv.len() as int,
                        ));
                        assert(spawned@[spawned@.len() - 1] == c);
                        assert forall|k: int|
                            keptv.len() <= k < self.chunks@.len() implies spawned@.contains(
                            (#[trigger] self.chunks@[k]).0,
                        ) by {
                            if k < self.chunks@.len() - 1 {
                                assert(before[k] == self.chunks@[k]);
                                assert(spawned_before.contains(self.chunks@[k].0));
                                let w = choose|w: int|
                                    0 <= w < spawned_before.len() && spawned_before[w]
                                        == self.chunks@[k].0;
                                assert(spawned@[w] == self.chunks@[k].0);
                            } else {
                                assert(self.chunks@[k] == (c, Slot::Pending));
                            }
                        }
                        assert forall|w: int|
                            0 <= w < spawned@.len() implies in_sphere(
                            pos,
                            ri,
                            #[trigger] spawned@[w],
                        ) && alist_lookup(keptv, spawned@[w]) == None::<Slot> && alist_lookup(
                            self.chunks@,
                            spawned@[w],
                        ).is_some() by {
                            if w < spawned@.len() - 1 {
                                assert(spawned@[w] == spawned_before[w]);
                            }
                        }
                        assert forall|w: int|
                            0 <= w < u + 1 && alist_lookup(keptv, #[trigger] expected@[w])
                                == None::<Slot> implies spawned@.contains(expected@[w]) by {
                            if w < u {
                                assert(spawned_before.contains(expected@[w]));
                                let v = choose|v: int|
                                    0 <= v < spawned_before.len() && spawned_before[v]
                                        == expected@[w];
                                assert(spawned@[v] == expected@[w]);
                            } else {
                                assert(spawned@[spawned@.len() - 1] == expected@[w]);
                            }
                        }
                    }
                },
            }
            u = u + 1;
        }

        // Everything in range is now resident; assemble the outcome.
        proof {
            let fin = self.chunks@;
            assert forall|c: ChunkPos| #[trigger]
                alist_lookup(fin, c).is_some() == in_sphere(pos, ri, c) by {
                if in_sphere(pos, ri, c) {
                    assert(expected@.contains(c));
                    let w = choose|w: int| 0 <= w < expected@.len() && expected@[w] == c;
                    assert(if alist_lookup(keptv, expected@[w]).is_some() {
                        alist_lookup(fin, expected@[w]) == alist_lookup(keptv, expected@[w])
                    } else {
                        alist_lookup(fin, expected@[w]) == Some(Slot::Pending)
                    });
                }
            }
            assert forall|c: ChunkPos|
                in_sphere(pos, ri, c) && alist_lookup(orig, c).is_some() implies #[trigger]
                alist_lookup(fin, c) == alist_lookup(orig, c) by {
                assert(alist_lookup(keptv, c) == alist_lookup(orig, c));
                assert(alist_lookup(keptv, c).is_some());
            }
            assert forall|c: ChunkPos|
                in_sphere(pos, ri, c) && alist_lookup(orig, c).is_none() implies #[trigger]
                alist_lookup(fin, c) == Some(Slot::Pending) by {
                assert(alist_lookup(keptv, c) == None::<Slot>);
                assert(expected@.contains(c));
                let w = choose|w: int| 0 <= w < expected@.len() && expected@[w] == c;
                assert(if alist_lookup(keptv, expected@[w]).is_some() {
                    alist_lookup(fin, expected@[w]) == alist_lookup(keptv, expected@[w])
                } else {
                    alist_lookup(fin, expected@[w]) == Some(Slot::Pending)
                });
            }
            assert forall|c: ChunkPos| #[trigger]
                spawned@.contains(c) <==> (in_sphere(pos, ri, c) && alist_lookup(
                orig,
                c,
            ).is_none()) by {
                if spawned@.contains(c) {
                    let w = choose|w: int| 0 <= w < spawned@.len() && spawned@[w] == c;
                    assert(in_sphere(pos, ri, spawned@[w]));
                }
                if in_sphere(pos, ri, c) && alist_lookup(orig, c).is_none() {
                    assert(expected@.contains(c));
                    let w = choose|w: int| 0 <= w < expected@.len() && expected@[w] == c;
                    assert(spawned@.contains(expected@[w]));
                }
            }
            assert forall|c: ChunkPos| #[trigger]
                evicted@.contains(c) <==> (alist_lookup(orig, c).is_some() && !in_sphere(
                pos,
                ri,
                c,
            )) by {
                lemma_evicted_contains(orig, pos, ri, c);
                lemma_lookup_some_iff_key(orig, c);
            }
            lemma_evicted_contains(orig, pos, ri, pos);
            if forall|c: ChunkPos| #[trigger]
                old(self).resident(c) <==> in_sphere(pos, old(self).radius(), c) {
                assert forall|j: int|
                    0 <= j < orig.len() implies in_sphere(pos, ri, (#[trigger] orig[j]).0) by {
                    lemma_lookup_distinct(orig, j);
                    assert(old(self).resident(orig[j].0));
                }
                assert(keptv == orig && evicted_of(orig, pos, ri) == Seq::<ChunkPos>::empty());
                assert(evicted@.len() == 0);
                if spawned@.len() > 0 {
                    assert(in_sphere(pos, ri, spawned@[0]) && alist_lookup(keptv, spawned@[0])
                        == None::<Slot>);
                    assert(!old(self).resident(spawned@[0]));
                    assert(false);
                }
                if self.chunks@.len() > keptv.len() {
                    let k = keptv.len() as int;
                    assert(alist_lookup(keptv, self.chunks@[k].0) == None::<Slot> && in_sphere(
                        pos,
                        ri,
                        self.chunks@[k].0,
                    ));
                    assert(!old(self).resident(self.chunks@[k].0));
                    assert(false);
                }
                assert(self.chunks@ =~= keptv);
                assert(self.removed_chunks@ =~= old(self).removed());
            }
        }
        LoadOutcome { spawned, evicted }
    }

    /// Attach completed generations to their pending slots, at most
    /// `gen_limit` of them per call: each completion processed fills its
    /// coordinate's slot if that slot is still pending, and is discarded
    /// if the coordinate was evicted meanwhile or already holds a chunk.
    /// Whatever the limit left unprocessed is returned for a later call,
    /// in order, so a burst of completions cannot stall one update.
    pub fn resolve(&mut self, completed: Vec<(ChunkPos, Chunk)>) -> (deferred: Vec<
        (ChunkPos, Chunk),
    >)
        requires
            old(self).wf(),
            forall|k: int| 0 <= k < completed@.len() ==> (#[trigger] completed@[k]).1.wf(),
        ensures
            final(self).wf(),
            final(self).radius() == old(self).radius(),
            final(self).removed() == old(self).removed(),
            deferred@ == completed@.skip(
                attach_count(old(self).radius(), completed@.len() as int),
            ),
            final(self).entries() == attach_all(
                old(self).entries(),
                completed@.take(attach_count(old(self).radius(), completed@.len() as int)),
            ),
            final(self).entries().len() == old(self).entries().len(),
            forall|c: ChunkPos| #[trigger] final(self).resident(c) == old(self).resident(c),
    {
        let limit = gen_limit(self.radius);
        let ghost orig = self.entries();
        let ghost all = completed@;
        let ghost n = attach_count(self.radius as int, all.len() as int);
        let mut completed = completed;
        let mut count: usize = 0;
        while count < limit && completed.len() > 0
            invariant
                limit == gen_limit_spec(old(self).radius()),
                n == attach_count(old(self).radius(), all.len() as int),
                orig == old(self).entries(),
                0 <= count,
                count as int <= n,
                completed@ == all.skip(count as int),
                forall|k: int| 0 <= k < all.len() ==> (#[trigger] all[k]).1.wf(),
                self.chunks@ == attach_all(orig, all.take(count as int)),
                self.chunks@.len() == orig.len(),
                forall|j: int|
                    0 <= j < orig.len() ==> (#[trigger] self.chunks@[j]).0 == orig[j].0,
                distinct_keys(self.chunks@),
                forall|j: int|
                    0 <= j < self.chunks@.len() ==> (#[trigger] self.chunks@[j]).1.wf(),
                self.radius == old(self).radius,
                self.removed_chunks@ == old(self).removed(),
            decreases completed@.len(),
        {
            proof {
                assert(completed@[0] == all[count as int]);
            }
            let (p, ch) = completed.remove(0);
            proof {
                assert(completed@ =~= all.skip(count + 1));
                assert(all.take(count + 1) =~= all.take(count as int).push((p, ch)));
                lemma_attach_all_snoc(orig, all.take(count as int), (p, ch));
            }
            let ghost before = self.chunks@;
            match alist_find(&self.chunks, p) {
                Some(j) => {
                    proof {
                        lemma_attach_one_found(before, j as int, p, ch);
                    }
                    let found_pending = match &self.chunks[j].1 {
                        Slot::Pending => true,
                        Slot::Ready(_) => false,
                    };
                    if found_pending {
                        self.chunks.set(j, (p, Slot::Ready(ch)));
                        proof {
                            assert forall|a: int, b: int|
                                0 <= a < b < self.chunks@.len() implies (#[trigger] self.chunks@[a]).0
                                != (#[trigger] self.chunks@[b]).0 by {
                                assert(self.chunks@[a].0 == before[a].0 && self.chunks@[b].0
                                    == before[b].0);
                            }
                        }
                    }
                },
                None => {
                    proof {
                        lemma_lookup_none(before, p);
                        lemma_attach_one_absent(before, p, ch);
                    }
                },
            }
            count = count + 1;
        }
        proof {
            if completed@.len() == 0 {
                assert(count as int == all.len());
            }
            assert(count as int == n);
            let fin = self.chunks@;
            assert forall|c: ChunkPos| #[trigger]
                alist_lookup(fin, c).is_some() == alist_lookup(orig, c).is_some() by {
                lemma_lookup_some_iff_key(fin, c);
                lemma_lookup_some_iff_key(orig, c);
                if exists|j: int| 0 <= j < fin.len() && (#[trigger] fin[j]).0 == c {
                    let j = choose|j: int| 0 <= j < fin.len() && (#[trigger] fin[j]).0 == c;
                    assert(orig[j].0 == c);
                }
                if exists|j: int| 0 <= j < orig.len() && (#[trigger] orig[j]).0 == c {
                    let j = choose|j: int| 0 <= j < orig.len() && (#[trigger] orig[j]).0 == c;
                    assert(fin[j].0 == c);
                }
            }
        }
        completed
    }

    /// Once per frame, cross the simulation/render boundary: every ready
    /// chunk that is still dirty emits its snapshot and comes back clean,
    /// and the accumulated removal list is handed over and cleared. A
    /// second call without new attachments or evictions yields nothing.
    pub fn extract(&mut self) -> (out: (Vec<RenderChunk>, Vec<ChunkPos>))
        requires
            old(self).wf(),
        ensures
            final(self).wf(),
            final(self).radius() == old(self).radius(),
            final(self).removed() == Seq::<ChunkPos>::empty(),
            out.1@ == old(self).removed(),
            final(self).entries().len() == old(self).entries().len(),
            forall|j: int|
                0 <= j < old(self).entries().len() ==> (#[trigger] final(self).entries()[j]).0
                    == old(self).entries()[j].0 && cleaned_slot(
                    old(self).entries()[j].1,
                    final(self).entries()[j].1,
                ),
            forall|c: ChunkPos| #[trigger] final(self).resident(c) == old(self).resident(c),
            out.0@.len() == snaps_of(old(self).entries()).len(),
            forall|k: int|
                0 <= k < out.0@.len() ==> (#[trigger] out.0@[k]).pos == snaps_of(
                    old(self).entries(),
                )[k].0 && out.0@[k].blocks@ == snaps_of(old(self).entries())[k].1,
            snaps_of(final(self).entries()) == Seq::<
                (ChunkPos, Seq<Option<crate::block::Block>>),
            >::empty(),
    {
        let ghost orig = self.entries();
        let mut snaps: Vec<RenderChunk> = Vec::new();
        let mut i: usize = 0;
        while i < self.chunks.len()
            invariant
                orig == old(self).entries(),
                distinct_keys(orig),
                forall|j: int| 0 <= j < orig.len() ==> (#[trigger] orig[j]).1.wf(),
                i <= self.chunks@.len(),
                self.chunks@.len() == orig.len(),
                forall|j: int|
                    0 <= j < orig.len() ==> (#[trigger] self.chunks@[j]).0 == orig[j].0,
                forall|j: int|
                    0 <= j < i ==> cleaned_slot(orig[j].1, (#[trigger] self.chunks@[j]).1),
                forall|j: int| i <= j < orig.len() ==> #[trigger] self.chunks@[j] == orig[j],
                snaps@.len() == snaps_of(orig.take(i as int)).len(),
                forall|k: int|
                    0 <= k < snaps@.len() ==> (#[trigger] snaps@[k]).pos == snaps_of(
                        orig.take(i as int),
                    )[k].0 && snaps@[k].blocks@ == snaps_of(orig.take(i as int))[k].1,
                self.radius == old(self).radius,
                self.removed_chunks@ == old(self).removed(),
            decreases self.chunks@.len() - i,
        {
            proof {
                lemma_snaps_take_step(orig, i as int);
            }
            let ghost chunks0 = self.chunks@;
            let mut tmp: (ChunkPos, Slot) = (ChunkPos { x: 0, y: 0, z: 0 }, Slot::Pending);
            self.chunks.set_and_swap(i, &mut tmp);
            let (p, slot) = tmp;
            let new_slot = match slot {
                Slot::Pending => Slot::Pending,
                Slot::Ready(mut ch) => {
                    if let Some(rc) = ch.extract(p) {
                        snaps.push(rc);
                    }
                    Slot::Ready(ch)
                },
            };
            let mut back = (p, new_slot);
            self.chunks.set_and_swap(i, &mut back);
            proof {
                assert(self.chunks@ =~= chunks0.update(i as int, (p, new_slot)));
            }
            i = i + 1;
        }
        proof {
            assert(orig.take(orig.len() as int) =~= orig);
            lemma_snaps_clean(self.chunks@);
            let fin = self.chunks@;
            assert forall|c: ChunkPos| #[trigger]
                alist_lookup(fin, c).is_some() == alist_lookup(orig, c).is_some() by {
                lemma_lookup_some_iff_key(fin, c);
                lemma_lookup_some_iff_key(orig, c);
                if exists|j: int| 0 <= j < fin.len() && (#[trigger] fin[j]).0 == c {
                    let j = choose|j: int| 0 <= j < fin.len() && (#[trigger] fin[j]).0 == c;
                    assert(orig[j].0 == c);
                }
                if exists|j: int| 0 <= j < orig.len() && (#[trigger] orig[j]).0 == c {
                    let j = choose|j: int| 0 <= j < orig.len() && (#[trigger] orig[j]).0 == c;
                    assert(fin[j].0 == c);
                }
            }
        }
        let removed_out = copy_coords(&self.removed_chunks);
        self.removed_chunks.clear();
        (snaps, removed_out)
    }
}

impl Default for WorldMap {
    /// A fresh session map with the default render radius.
    fn default() -> (m: WorldMap)
        ensures
            m.wf(),
            m.radius() == RENDER_RADIUS as int,
            m.removed() == Seq::<ChunkPos>::empty(),
            forall|c: ChunkPos| !m.resident(c),
    {
        WorldMap::new(RENDER_RADIUS)
    }
}

/// How one extraction step transforms a slot: a pending slot is left
/// alone, a ready chunk keeps its blocks but is clean afterwards.
pub open spec fn cleaned_slot(before: Slot, after: Slot) -> bool {
    match before {
        Slot::Pending => after is Pending,
        Slot::Ready(ch) => match after {
            Slot::Ready(ch2) => ch2.block_seq() == ch.block_seq() && !ch2.is_dirty() && ch2.wf(),
            Slot::Pending => false,
        },
    }
}

/// The snapshots one extraction emits: one `(coordinate, blocks)` pair
/// per ready-and-dirty slot, in storage order.
pub open spec fn snaps_of(s: Seq<(ChunkPos, Slot)>) -> Seq<
    (ChunkPos, Seq<Option<crate::block::Block>>),
>
    decreases s.len(),
{
    if s.len() == 0 {
        Seq::empty()
    } else {
        snaps_of(s.drop_last()) + (match s.last().1 {
            Slot::Ready(ch) => if ch.is_dirty() {
                seq![(s.last().0, ch.block_seq())]
            } else {
                Seq::empty()
            },
            Slot::Pending => Seq::empty(),
        })
    }
}

/// One more slot contributes its snapshot, if any, at the end.
proof fn lemma_snaps_take_step(s: Seq<(ChunkPos, Slot)>, j: int)
    requires
        0 <= j < s.len(),
    ensures
        snaps_of(s.take(j + 1)) == snaps_of(s.take(j)) + (match s[j].1 {
            Slot::Ready(ch) => if ch.is_dirty() {
                seq![(s[j].0, ch.block_seq())]
            } else {
                Seq::<(ChunkPos, Seq<Option<crate::block::Block>>)>::empty()
            },
            Slot::Pending => Seq::<(ChunkPos, Seq<Option<crate::block::Block>>)>::empty(),
        }),
{
    assert(s.take(j + 1).drop_last() =~= s.take(j));
    assert(s.take(j + 1).last() == s[j]);
}

/// Law: a map whose ready chunks are all clean emits no snapshots.
pub proof fn lemma_snaps_clean(s: Seq<(ChunkPos, Slot)>)
    requires
        forall|j: int|
            0 <= j < s.len() ==> match (#[trigger] s[j]).1 {
                Slot::Ready(ch) => !ch.is_dirty(),
                Slot::Pending => true,
            },
    ensures
        snaps_of(s) == Seq::<(ChunkPos, Seq<Option<crate::block::Block>>)>::empty(),
    decreases s.len(),
{
    if s.len() > 0 {
        assert forall|j: int|
            0 <= j < s.drop_last().len() implies match (#[trigger] s.drop_last()[j]).1 {
            Slot::Ready(ch) => !ch.is_dirty(),
            Slot::Pending => true,
        } by {
            assert(s.drop_last()[j] == s[j]);
        }
        lemma_snaps_clean(s.drop_last());
        assert(snaps_of(s) =~= Seq::<(ChunkPos, Seq<Option<crate::block::Block>>)>::empty());
    }
}

/// Element-wise copy of a coordinate list.
fn copy_coords(v: &Vec<ChunkPos>) -> (r: Vec<ChunkPos>)
    ensures
        r@ == v@,
{
    let mut r: Vec<ChunkPos> = Vec::new();
    let mut i: usize = 0;
    while i < v.len()
        invariant
            i <= v@.len(),
            r@.len() == i,
            forall|j: int| 0 <= j < i ==> r@[j] == v@[j],
        decreases v@.len() - i,
    {
        r.push(v[i]);
        i = i + 1;
    }
    proof {
        assert(r@ =~= v@);
    }
    r
}

/// How many completions one update attaches: all of them, up to the
/// generation-rate limit for the configured radius.
pub open spec fn attach_count(r: int, m: int) -> int {
    if m <= gen_limit_spec(r) {
        m
    } else {
        gen_limit_spec(r)
    }
}

/// The generation-rate limit for radius `r`: the ceiling of the render
/// sphere's volume `(4/3)*pi*r^3` times the fixed per-frame rate `0.01`,
/// computed exactly over the integers with `pi` taken as `3.1416`.
pub open spec fn gen_limit_spec(r: int) -> int {
    (5236 * (r * r * r) + 124999) / 125000
}

/// The generation-rate limit, executable.
pub fn gen_limit(r: i32) -> (n: usize)
    requires
        0 <= r <= RADIUS_LIMIT,
    ensures
        n == gen_limit_spec(r as int),
{
    let rr = r as u64;
    proof {
        assert(rr * rr <= 262144 && rr * rr * rr <= 134217728 && 5236 * (rr * rr * rr)
            <= 702764023808) by (nonlinear_arith)
            requires
                0 <= rr <= 512,
        ;
    }
    let num = 5236 * (rr * rr * rr) + 124999;
    let n = num / 125000;
    proof {
        lemma_fundamental_div_mod_converse(702764148807, 125000, 5622113, 23807);
        vstd::arithmetic::div_mod::lemma_div_is_ordered(num as int, 702764148807, 125000);
        assert(n <= 5622113);
    }
    n as usize
}

/// What a sequence of completions leaves in the slot map: each in turn
/// fills its coordinate's slot if that slot is pending, and is ignored
/// otherwise.
pub open spec fn attach_all(s: Seq<(ChunkPos, Slot)>, cs: Seq<(ChunkPos, Chunk)>) -> Seq<
    (ChunkPos, Slot),
>
    decreases cs.len(),
{
    if cs.len() == 0 {
        s
    } else {
        attach_all(attach_one(s, cs[0].0, cs[0].1), cs.drop_first())
    }
}

/// What one completion leaves in the slot map.
pub open spec fn attach_one(s: Seq<(ChunkPos, Slot)>, p: ChunkPos, ch: Chunk) -> Seq<
    (ChunkPos, Slot),
>
    decreases s.len(),
{
    if s.len() == 0 {
        s
    } else if s[0].0 == p {
        if s[0].1.is_pending() {
            seq![(p, Slot::Ready(ch))] + s.drop_first()
        } else {
            s
        }
    } else {
        seq![s[0]] + attach_one(s.drop_first(), p, ch)
    }
}

/// Attaching at a found binding is a positional update of that binding,
/// or nothing if the slot is no longer pending.
proof fn lemma_attach_one_found(s: Seq<(ChunkPos, Slot)>, j: int, p: ChunkPos, ch: Chunk)
    requires
        distinct_keys(s),
        0 <= j < s.len(),
        s[j].0 == p,
    ensures
        s[j].1.is_pending() ==> attach_one(s, p, ch) == s.update(j, (p, Slot::Ready(ch))),
        !s[j].1.is_pending() ==> attach_one(s, p, ch) == s,
    decreases j,
{
    if j == 0 {
        if s[0].1.is_pending() {
            assert(attach_one(s, p, ch) =~= s.update(0, (p, Slot::Ready(ch))));
        }
    } else {
        assert(s[0].0 != p);
        crate::alist::lemma_distinct_drop_first(s);
        assert(s.drop_first()[j - 1] == s[j]);
        lemma_attach_one_found(s.drop_first(), j - 1, p, ch);
        if s[j].1.is_pending() {
            assert(attach_one(s, p, ch) =~= s.update(j, (p, Slot::Ready(ch)))) by {
                assert(s.drop_first().update(j - 1, (p, Slot::Ready(ch))) =~= s.update(
                    j,
                    (p, Slot::Ready(ch)),
                ).drop_first());
            }
        } else {
            assert(attach_one(s, p, ch) =~= s);
        }
    }
}

/// Attaching a completion for an absent coordinate discards it.
proof fn lemma_attach_one_absent(s: Seq<(ChunkPos, Slot)>, p: ChunkPos, ch: Chunk)
    requires
        forall|j: int| 0 <= j < s.len() ==> (#[trigger] s[j]).0 != p,
    ensures
        attach_one(s, p, ch) == s,
    decreases s.len(),
{
    if s.len() > 0 {
        assert forall|j: int|
            0 <= j < s.drop_first().len() implies (#[trigger] s.drop_first()[j]).0 != p by {
            assert(s.drop_first()[j] == s[j + 1]);
        }
        lemma_attach_one_absent(s.drop_first(), p, ch);
        assert(attach_one(s, p, ch) =~= s);
    }
}

/// A left fold over completions extends one at a time at the back.
proof fn lemma_attach_all_snoc(s: Seq<(ChunkPos, Slot)>, cs: Seq<(ChunkPos, Chunk)>, e: (
    ChunkPos,
    Chunk,
))
    ensures
        attach_all(s, cs.push(e)) == attach_one(attach_all(s, cs), e.0, e.1),
    decreases cs.len(),
{
    if cs.len() == 0 {
        assert(cs.push(e)[0] == e);
        assert(cs.push(e).drop_first() =~= Seq::<(ChunkPos, Chunk)>::empty());
        assert(attach_all(attach_one(s, e.0, e.1), cs.push(e).drop_first()) == attach_one(
            attach_all(s, cs),
            e.0,
            e.1,
        ));
    } else {
        assert(cs.push(e)[0] == cs[0]);
        assert(cs.push(e).drop_first() =~= cs.drop_first().push(e));
        lemma_attach_all_snoc(attach_one(s, cs[0].0, cs[0].1), cs.drop_first(), e);
    }
}

} // verus!
