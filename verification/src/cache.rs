//! The bounded chunk cache: a least-recently-used map from 64-bit content
//! hashes to the chunk's compressed payload and embedding.
//!
//! The cache itself is `lru::LruCache`, kept behind trusted wrappers. Its
//! contents are named by `lru_entries`: the recency sequence of the cache,
//! most recently used entry first. Every wrapper states, over that name,
//! what the crate's source shows the method does to the recency list; all
//! reasoning above the wrappers is verified against those statements.

use vstd::prelude::*;
use lru::LruCache;
use std::num::NonZeroUsize;

verus! {

/// The value stored for one chunk: its deflate payload and its embedding
/// coordinates.
pub type ChunkData = (Vec<u8>, Vec<i64>);

/// The mathematical value of one stored chunk: the payload bytes and the
/// embedding coordinates.
pub type ChunkDataModel = (Seq<u8>, Seq<i64>);

/// One recency-list entry: the chunk hash and the value it stores.
pub type ChunkEntry = (u64, ChunkDataModel);

#[verifier::external_type_specification]
#[verifier::external_body]
#[verifier::reject_recursive_types(K)]
#[verifier::reject_recursive_types(V)]
#[verifier::reject_recursive_types(S)]
pub struct ExLruCache<K, V, S>(LruCache<K, V, S>);

/// What the cache holds: its entries in recency order, the most recently
/// used entry first, the least recently used entry last.
pub uninterp spec fn lru_entries(c: LruCache<u64, ChunkData>) -> Seq<ChunkEntry>;

/// The bound the cache was constructed with.
pub uninterp spec fn lru_cap(c: LruCache<u64, ChunkData>) -> nat;

/// The first position holding key `k`, or `-1` when no entry has it.
pub open spec fn find_index(m: Seq<ChunkEntry>, k: u64) -> int
    decreases m.len(),
{
    if m.len() == 0 {
        -1
    } else if m[0].0 == k {
        0
    } else {
        let r = find_index(m.drop_first(), k);
        if r < 0 {
            -1
        } else {
            r + 1
        }
    }
}

/// Whether some entry has key `k`.
pub open spec fn model_contains(m: Seq<ChunkEntry>, k: u64) -> bool {
    find_index(m, k) >= 0
}

/// The sequence with position `i` removed.
pub open spec fn remove_at(m: Seq<ChunkEntry>, i: int) -> Seq<ChunkEntry> {
    m.subrange(0, i) + m.subrange(i + 1, m.len() as int)
}

/// The recency list after the entry at `i` moves to the front.
pub open spec fn move_to_front(m: Seq<ChunkEntry>, i: int) -> Seq<ChunkEntry> {
    seq![m[i]] + remove_at(m, i)
}

/// The recency list after a lookup of `k` that promotes a hit.
pub open spec fn spec_touch(m: Seq<ChunkEntry>, k: u64) -> Seq<ChunkEntry> {
    let fi = find_index(m, k);
    if fi >= 0 {
        move_to_front(m, fi)
    } else {
        m
    }
}

/// The recency list after `k` is inserted with value `v` into a cache of
/// bound `cap`: an existing entry is updated and promoted; otherwise the
/// new entry enters at the front, evicting the last entry when the list
/// is full.
pub open spec fn spec_put(m: Seq<ChunkEntry>, cap: nat, k: u64, v: ChunkDataModel) -> Seq<ChunkEntry> {
    let fi = find_index(m, k);
    if fi >= 0 {
        seq![(k, v)] + remove_at(m, fi)
    } else if m.len() >= cap && m.len() >= 1 {
        seq![(k, v)] + m.subrange(0, m.len() - 1)
    } else {
        seq![(k, v)] + m
    }
}

/// Keys are pairwise distinct.
pub open spec fn model_unique(m: Seq<ChunkEntry>) -> bool {
    forall|i: int, j: int| 0 <= i < j < m.len() ==> (#[trigger] m[i]).0 != (#[trigger] m[j]).0
}

/// `find_index` finds `k` exactly when some entry has it, at the first
/// position that does.
pub proof fn lemma_find_index(m: Seq<ChunkEntry>, k: u64)
    ensures
        find_index(m, k) >= 0 ==> 0 <= find_index(m, k) < m.len() && m[find_index(m, k)].0 == k,
        find_index(m, k) < 0 ==> forall|i: int| 0 <= i < m.len() ==> (#[trigger] m[i]).0 != k,
        find_index(m, k) >= 0 ==> forall|i: int|
            0 <= i < find_index(m, k) ==> (#[trigger] m[i]).0 != k,
    decreases m.len(),
{
    if m.len() > 0 && m[0].0 != k {
        lemma_find_index(m.drop_first(), k);
        assert(forall|i: int|
            1 <= i < m.len() ==> #[trigger] m[i] == m.drop_first()[i - 1]);
    }
}

/// Relies on `lru::LruCache::new`: a fresh cache with the given bound holds
/// nothing.
#[verifier::external_body]
pub(crate) fn cache_new(cap: usize) -> (c: LruCache<u64, ChunkData>)
    requires
        cap >= 1,
    ensures
        lru_entries(c) == Seq::<ChunkEntry>::empty(),
        lru_cap(c) == cap,
{
    LruCache::new(NonZeroUsize::new(cap).unwrap())
}

/// Relies on `lru::LruCache::get`: a hit hands back the stored value and
/// moves its entry to the head of the recency list; a miss changes nothing.
#[verifier::external_body]
pub(crate) fn cache_get(c: &mut LruCache<u64, ChunkData>, k: u64) -> (r: Option<ChunkData>)
    ensures
        lru_cap(*final(c)) == lru_cap(*old(c)),
        find_index(lru_entries(*old(c)), k) >= 0 ==> {
            &&& r is Some
            &&& ((r->0).0@, (r->0).1@) == lru_entries(*old(c))[find_index(
                lru_entries(*old(c)),
                k,
            )].1
            &&& lru_entries(*final(c)) == spec_touch(lru_entries(*old(c)), k)
        },
        find_index(lru_entries(*old(c)), k) < 0 ==> {
            &&& r is None
            &&& lru_entries(*final(c)) == lru_entries(*old(c))
        },
{
    c.get(&k).cloned()
}

/// Relies on `lru::LruCache::put`: an existing key is updated and promoted;
/// a new key enters at the head, and when the cache is full the entry at the
/// tail of the recency list — the least recently used one — is evicted.
#[verifier::external_body]
pub(crate) fn cache_put(c: &mut LruCache<u64, ChunkData>, k: u64, payload: Vec<u8>, emb: Vec<i64>)
    ensures
        lru_cap(*final(c)) == lru_cap(*old(c)),
        lru_entries(*final(c)) == spec_put(
            lru_entries(*old(c)),
            lru_cap(*old(c)),
            k,
            (payload@, emb@),
        ),
{
    c.put(k, (payload, emb));
}

/// Relies on `lru::LruCache::cap`: the bound the cache was constructed
/// with, a positive number by its `NonZeroUsize` type.
#[verifier::external_body]
pub(crate) fn cache_capacity(c: &LruCache<u64, ChunkData>) -> (r: usize)
    ensures
        r == lru_cap(*c),
        r >= 1,
{
    c.cap().get()
}

/// Relies on `lru::LruCache::len`: the number of entries.
#[verifier::external_body]
pub(crate) fn cache_len(c: &LruCache<u64, ChunkData>) -> (r: usize)
    ensures
        r == lru_entries(*c).len(),
{
    c.len()
}

/// Relies on `lru::LruCache::contains`: whether a key is present, without
/// touching recency.
#[verifier::external_body]
pub(crate) fn cache_contains(c: &LruCache<u64, ChunkData>, k: u64) -> (r: bool)
    ensures
        r == model_contains(lru_entries(*c), k),
{
    c.contains(&k)
}

/// Relies on `lru::LruCache::peek`: the stored value of a key, without
/// touching recency.
#[verifier::external_body]
pub(crate) fn cache_peek(c: &LruCache<u64, ChunkData>, k: u64) -> (r: Option<ChunkData>)
    ensures
        find_index(lru_entries(*c), k) >= 0 ==> r is Some && ((r->0).0@, (r->0).1@)
            == lru_entries(*c)[find_index(lru_entries(*c), k)].1,
        find_index(lru_entries(*c), k) < 0 ==> r is None,
{
    c.peek(&k).cloned()
}

/// A promotion keeps the entry set, the key uniqueness and the length of
/// the recency list.
pub proof fn lemma_touch_preserves(m: Seq<ChunkEntry>, k: u64)
    requires
        model_unique(m),
    ensures
        model_unique(spec_touch(m, k)),
        spec_touch(m, k).len() == m.len(),
        forall|q: u64| model_contains(spec_touch(m, k), q) == model_contains(m, q),
{
    let fi = find_index(m, k);
    lemma_find_index(m, k);
    if fi >= 0 {
        let m2 = move_to_front(m, fi);
        assert(m2.len() == m.len());
        assert forall|i: int, j: int| 0 <= i < j < m2.len() implies (#[trigger] m2[i]).0 != (
        #[trigger] m2[j]).0 by {
            lemma_move_entry_positions(m, fi);
        }
        assert forall|q: u64| model_contains(m2, q) == model_contains(m, q) by {
            lemma_contains_iff_witness(m, q);
            lemma_contains_iff_witness(m2, q);
            lemma_move_entry_positions(m, fi);
            if exists|i: int| 0 <= i < m.len() && (#[trigger] m[i]).0 == q {
                let w = choose|i: int| 0 <= i < m.len() && (#[trigger] m[i]).0 == q;
                if w == fi {
                    assert(m2[0].0 == q);
                } else if w < fi {
                    assert(m2[w + 1].0 == q);
                } else {
                    assert(m2[w].0 == q);
                }
            }
            if exists|i: int| 0 <= i < m2.len() && (#[trigger] m2[i]).0 == q {
                let w = choose|i: int| 0 <= i < m2.len() && (#[trigger] m2[i]).0 == q;
                if w == 0 {
                    assert(m[fi].0 == q);
                } else if w <= fi {
                    assert(m[w - 1].0 == q);
                } else {
                    assert(m[w].0 == q);
                }
            }
        }
    }
}

/// Where each entry of a recency list sits after a move to the front:
/// position `i` leads, earlier entries shift one back, later ones stay.
pub proof fn lemma_move_entry_positions(m: Seq<ChunkEntry>, i: int)
    requires
        0 <= i < m.len(),
    ensures
        move_to_front(m, i).len() == m.len(),
        move_to_front(m, i)[0] == m[i],
        forall|j: int| 0 <= j < i ==> move_to_front(m, i)[j + 1] == m[j],
        forall|j: int| i < j < m.len() ==> move_to_front(m, i)[j] == m[j],
{
    let m2 = move_to_front(m, i);
    assert(m2.len() == m.len());
    assert forall|j: int| 0 <= j < i implies m2[j + 1] == m[j] by {
        assert(m2[j + 1] == remove_at(m, i)[j]);
    }
    assert forall|j: int| i < j < m.len() implies m2[j] == m[j] by {
        assert(m2[j] == remove_at(m, i)[j - 1]);
    }
}

/// A key is present exactly when some position holds it.
pub proof fn lemma_contains_iff_witness(m: Seq<ChunkEntry>, k: u64)
    ensures
        model_contains(m, k) <==> exists|i: int| 0 <= i < m.len() && (#[trigger] m[i]).0 == k,
    decreases m.len(),
{
    lemma_find_index(m, k);
    if find_index(m, k) >= 0 {
        assert(m[find_index(m, k)].0 == k);
    }
}

/// An insertion keeps keys unique and never grows the recency list past the
/// bound: the invariants behind safe concurrent use of the shared cache.
pub proof fn lemma_put_preserves(m: Seq<ChunkEntry>, cap: nat, k: u64, v: ChunkDataModel)
    requires
        model_unique(m),
        m.len() <= cap,
        cap >= 1,
    ensures
        model_unique(spec_put(m, cap, k, v)),
        spec_put(m, cap, k, v).len() <= cap,
        model_contains(spec_put(m, cap, k, v), k),
{
    let fi = find_index(m, k);
    lemma_find_index(m, k);
    let m2 = spec_put(m, cap, k, v);
    assert(m2[0].0 == k);
    assert(model_contains(m2, k)) by {
        lemma_contains_iff_witness(m2, k);
    }
    if fi >= 0 {
        let rest = remove_at(m, fi);
        assert(m2.len() == m.len());
        assert forall|i: int, j: int| 0 <= i < j < m2.len() implies (#[trigger] m2[i]).0 != (
        #[trigger] m2[j]).0 by {
            if i == 0 {
                if j <= fi {
                    assert(m2[j] == m[j - 1]);
                } else {
                    assert(m2[j] == m[j]);
                }
            } else {
                let pi = if i <= fi { i - 1 } else { i };
                let pj = if j <= fi { j - 1 } else { j };
                assert(m2[i] == m[pi]);
                assert(m2[j] == m[pj]);
            }
        }
    } else if m.len() >= cap {
        assert(m2.len() == m.len());
        assert forall|i: int, j: int| 0 <= i < j < m2.len() implies (#[trigger] m2[i]).0 != (
        #[trigger] m2[j]).0 by {
            if i == 0 {
                assert(m2[j] == m[j - 1]);
            } else {
                assert(m2[i] == m[i - 1]);
                assert(m2[j] == m[j - 1]);
            }
        }
    } else {
        assert forall|i: int, j: int| 0 <= i < j < m2.len() implies (#[trigger] m2[i]).0 != (
        #[trigger] m2[j]).0 by {
            if i == 0 {
                assert(m2[j] == m[j - 1]);
            } else {
                assert(m2[i] == m[i - 1]);
                assert(m2[j] == m[j - 1]);
            }
        }
    }
}

/// An insertion introduces no key but its own: whatever is present
/// afterwards was the inserted key or was present before.
pub proof fn lemma_put_keys(m: Seq<ChunkEntry>, cap: nat, k: u64, v: ChunkDataModel, q: u64)
    requires
        model_contains(spec_put(m, cap, k, v), q),
    ensures
        q == k || model_contains(m, q),
{
    let fi = find_index(m, k);
    lemma_find_index(m, k);
    let m2 = spec_put(m, cap, k, v);
    lemma_contains_iff_witness(m2, q);
    let w = choose|i: int| 0 <= i < m2.len() && (#[trigger] m2[i]).0 == q;
    if w == 0 {
        assert(q == k);
    } else {
        lemma_contains_iff_witness(m, q);
        if fi >= 0 {
            if w <= fi {
                assert(m2[w] == remove_at(m, fi)[w - 1]);
                assert(remove_at(m, fi)[w - 1] == m.subrange(0, fi)[w - 1]);
                assert(m2[w] == m[w - 1]);
            } else {
                assert(m2[w] == remove_at(m, fi)[w - 1]);
                assert(remove_at(m, fi)[w - 1] == m.subrange(fi + 1, m.len() as int)[w - 1 - fi]);
                assert(m2[w] == m[w]);
            }
        } else if m.len() >= cap && m.len() >= 1 {
            assert(m2[w] == m.subrange(0, m.len() - 1)[w - 1]);
            assert(m2[w] == m[w - 1]);
        } else {
            assert(m2[w] == m[w - 1]);
        }
    }
}

/// Least-recently-used eviction: inserting a fresh key into a full cache
/// with distinct keys drops exactly the entry at the tail of the recency
/// list — the least recently touched one — and keeps every other entry.
pub proof fn lemma_lru_eviction(m: Seq<ChunkEntry>, cap: nat, k: u64, v: ChunkDataModel)
    requires
        model_unique(m),
        m.len() == cap,
        cap >= 1,
        !model_contains(m, k),
    ensures
        model_contains(spec_put(m, cap, k, v), k),
        !model_contains(spec_put(m, cap, k, v), m[m.len() - 1].0),
        forall|i: int|
            0 <= i < m.len() - 1 ==> model_contains(spec_put(m, cap, k, v), (#[trigger] m[i]).0),
        spec_put(m, cap, k, v).len() == cap,
{
    lemma_find_index(m, k);
    let m2 = spec_put(m, cap, k, v);
    assert(m2.len() == cap);
    assert(m2[0].0 == k);
    lemma_contains_iff_witness(m2, k);
    let evicted = m[m.len() - 1].0;
    assert(!model_contains(m2, evicted)) by {
        lemma_contains_iff_witness(m2, evicted);
        assert forall|i: int| 0 <= i < m2.len() implies (#[trigger] m2[i]).0 != evicted by {
            if i == 0 {
                assert(m[m.len() - 1].0 == evicted);
            } else {
                assert(m2[i] == m[i - 1]);
                assert(m[i - 1].0 != m[m.len() - 1].0);
            }
        }
    }
    assert forall|i: int| 0 <= i < m.len() - 1 implies model_contains(m2, (#[trigger] m[i]).0) by {
        assert(m2[i + 1] == m[i]);
        lemma_contains_iff_witness(m2, m[i].0);
    }
}

} // verus!
