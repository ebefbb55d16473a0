use crate::pos::ChunkPos;
use vstd::prelude::*;

verus! {

/// Both the world map and the staging cache key their entries by chunk
/// position and keep the bindings in a vector with pairwise-distinct keys.
/// This module gives that representation its map semantics: `alist_lookup`
/// is the first binding of a key, and the lemmas connect it to the
/// positional view that loops naturally maintain.

/// The first binding for `p`, scanning from the front.
pub open spec fn alist_lookup<V>(s: Seq<(ChunkPos, V)>, p: ChunkPos) -> Option<V>
    decreases s.len(),
{
    if s.len() == 0 {
        None
    } else if s[0].0 == p {
        Some(s[0].1)
    } else {
        alist_lookup(s.drop_first(), p)
    }
}

/// Pairwise-distinct keys: the sequence of bindings behaves as a map.
pub open spec fn distinct_keys<V>(s: Seq<(ChunkPos, V)>) -> bool {
    forall|i: int, j: int| 0 <= i < j < s.len() ==> (#[trigger] s[i]).0 != (#[trigger] s[j]).0
}

/// A lookup succeeds exactly when some binding carries the key.
pub proof fn lemma_lookup_some_iff_key<V>(s: Seq<(ChunkPos, V)>, p: ChunkPos)
    ensures
        alist_lookup(s, p).is_some() <==> exists|j: int| 0 <= j < s.len() && (#[trigger] s[j]).0 == p,
    decreases s.len(),
{
    if s.len() == 0 {
    } else if s[0].0 == p {
        assert(s[0].0 == p);
    } else {
        lemma_lookup_some_iff_key(s.drop_first(), p);
        if alist_lookup(s, p).is_some() {
            let j = choose|j: int| 0 <= j < s.drop_first().len() && (#[trigger] s.drop_first()[j]).0 == p;
            assert(s[j + 1].0 == p);
        }
        if exists|j: int| 0 <= j < s.len() && (#[trigger] s[j]).0 == p {
            let j = choose|j: int| 0 <= j < s.len() && (#[trigger] s[j]).0 == p;
            assert(j != 0);
            assert(s.drop_first()[j - 1].0 == p);
        }
    }
}

/// A binding whose key appears nowhere earlier is what the lookup returns.
pub proof fn lemma_lookup_at_index<V>(s: Seq<(ChunkPos, V)>, i: int)
    requires
        0 <= i < s.len(),
        forall|j: int| 0 <= j < i ==> (#[trigger] s[j]).0 != s[i].0,
    ensures
        alist_lookup(s, s[i].0) == Some(s[i].1),
    decreases i,
{
    if i == 0 {
    } else {
        assert(s[0].0 != s[i].0);
        assert forall|j: int| 0 <= j < i - 1 implies (#[trigger] s.drop_first()[j]).0
            != s.drop_first()[i - 1].0 by {
            assert(s.drop_first()[j] == s[j + 1]);
        }
        lemma_lookup_at_index(s.drop_first(), i - 1);
    }
}

/// With distinct keys, every binding is the one the lookup finds.
pub proof fn lemma_lookup_distinct<V>(s: Seq<(ChunkPos, V)>, i: int)
    requires
        distinct_keys(s),
        0 <= i < s.len(),
    ensures
        alist_lookup(s, s[i].0) == Some(s[i].1),
{
    lemma_lookup_at_index(s, i);
}

/// A key carried by no binding is not found.
pub proof fn lemma_lookup_none<V>(s: Seq<(ChunkPos, V)>, p: ChunkPos)
    requires
        forall|j: int| 0 <= j < s.len() ==> (#[trigger] s[j]).0 != p,
    ensures
        alist_lookup(s, p) == None::<V>,
{
    lemma_lookup_some_iff_key(s, p);
}

/// Replacing the value at one binding changes exactly that key's lookup.
pub proof fn lemma_lookup_update<V>(s: Seq<(ChunkPos, V)>, i: int, v: V, q: ChunkPos)
    requires
        0 <= i < s.len(),
    ensures
        q == s[i].0 && (forall|j: int| 0 <= j < i ==> (#[trigger] s[j]).0 != s[i].0)
            ==> alist_lookup(s.update(i, (s[i].0, v)), q) == Some(v),
        q != s[i].0 ==> alist_lookup(s.update(i, (s[i].0, v)), q) == alist_lookup(s, q),
    decreases s.len(),
{
    let t = s.update(i, (s[i].0, v));
    if i == 0 {
        if q != s[0].0 {
            assert(t.drop_first() =~= s.drop_first());
        }
    } else {
        assert(t[0] == s[0]);
        assert(t.drop_first() =~= s.drop_first().update(i - 1, (s.drop_first()[i - 1].0, v)));
        lemma_lookup_update(s.drop_first(), i - 1, v, q);
        assert forall|j: int| 0 <= j < i - 1 && (forall|k: int| 0 <= k < i
            ==> (#[trigger] s[k]).0 != s[i].0) implies (#[trigger] s.drop_first()[j]).0
            != s.drop_first()[i - 1].0 by {
            assert(s.drop_first()[j] == s[j + 1]);
        }
    }
}

/// Appending a binding leaves every other key's lookup unchanged, and the
/// new key's lookup becomes the new value if it was absent before.
pub proof fn lemma_lookup_push<V>(s: Seq<(ChunkPos, V)>, p: ChunkPos, v: V, q: ChunkPos)
    ensures
        q != p ==> alist_lookup(s.push((p, v)), q) == alist_lookup(s, q),
        q == p && alist_lookup(s, p) == None::<V> ==> alist_lookup(s.push((p, v)), q) == Some(v),
    decreases s.len(),
{
    if s.len() == 0 {
        assert(s.push((p, v))[0] == (p, v));
        assert(s.push((p, v)).drop_first() =~= Seq::<(ChunkPos, V)>::empty());
    } else {
        assert(s.push((p, v))[0] == s[0]);
        assert(s.push((p, v)).drop_first() =~= s.drop_first().push((p, v)));
        lemma_lookup_push(s.drop_first(), p, v, q);
    }
}

/// Dropping the first binding keeps the keys distinct.
pub proof fn lemma_distinct_drop_first<V>(s: Seq<(ChunkPos, V)>)
    requires
        distinct_keys(s),
        s.len() > 0,
    ensures
        distinct_keys(s.drop_first()),
{
    assert forall|a: int, b: int| 0 <= a < b < s.drop_first().len() implies (#[trigger] s.drop_first()[a]).0 != (#[trigger] s.drop_first()[b]).0 by {
        assert(s.drop_first()[a] == s[a + 1] && s.drop_first()[b] == s[b + 1]);
    }
}

/// Find the first binding for a key, scanning from the front.
pub fn alist_find<V>(s: &Vec<(ChunkPos, V)>, p: ChunkPos) -> (r: Option<usize>)
    ensures
        match r {
            Some(j) => j < s@.len() && s@[j as int].0 == p && (forall|k: int|
                0 <= k < j ==> (#[trigger] s@[k]).0 != p),
            None => forall|k: int| 0 <= k < s@.len() ==> (#[trigger] s@[k]).0 != p,
        },
{
    let mut j: usize = 0;
    while j < s.len()
        invariant
            j <= s@.len(),
            forall|k: int| 0 <= k < j ==> (#[trigger] s@[k]).0 != p,
        decreases s@.len() - j,
    {
        if s[j].0 == p {
            return Some(j);
        }
        j = j + 1;
    }
    None
}

/// Appending a binding for an absent key keeps the keys distinct.
pub proof fn lemma_distinct_push<V>(s: Seq<(ChunkPos, V)>, p: ChunkPos, v: V)
    requires
        distinct_keys(s),
        alist_lookup(s, p) == None::<V>,
    ensures
        distinct_keys(s.push((p, v))),
{
    lemma_lookup_some_iff_key(s, p);
    let t = s.push((p, v));
    assert forall|a: int, b: int| 0 <= a < b < t.len() implies (#[trigger] t[a]).0
        != (#[trigger] t[b]).0 by {
        if b < t.len() - 1 {
            assert(t[a] == s[a] && t[b] == s[b]);
        } else {
            assert(t[a] == s[a] && t[b] == (p, v));
        }
    }
}

/// Removing one binding removes exactly its key's lookup and keeps the
/// keys distinct.
pub proof fn lemma_lookup_remove<V>(s: Seq<(ChunkPos, V)>, i: int, q: ChunkPos)
    requires
        distinct_keys(s),
        0 <= i < s.len(),
    ensures
        distinct_keys(s.remove(i)),
        q == s[i].0 ==> alist_lookup(s.remove(i), q) == None::<V>,
        q != s[i].0 ==> alist_lookup(s.remove(i), q) == alist_lookup(s, q),
    decreases s.len(),
{
    let t = s.remove(i);
    assert forall|a: int, b: int| 0 <= a < b < t.len() implies (#[trigger] t[a]).0
        != (#[trigger] t[b]).0 by {
        if b < i {
            assert(t[a] == s[a] && t[b] == s[b]);
        } else if a < i {
            assert(t[a] == s[a] && t[b] == s[b + 1]);
        } else {
            assert(t[a] == s[a + 1] && t[b] == s[b + 1]);
        }
    }
    if q == s[i].0 {
        assert forall|j: int| 0 <= j < t.len() implies (#[trigger] t[j]).0 != q by {
            if j < i {
                assert(t[j] == s[j]);
            } else {
                assert(t[j] == s[j + 1]);
            }
        }
        lemma_lookup_none(t, q);
    } else {
        if i == 0 {
            assert(t =~= s.drop_first());
        } else {
            assert(t[0] == s[0]);
            if s[0].0 != q {
                assert(t.drop_first() =~= s.drop_first().remove(i - 1));
                lemma_distinct_drop_first(s);
                lemma_lookup_remove(s.drop_first(), i - 1, q);
            }
        }
    }
}

} // verus!
