//! The chunk-level compression engine.
//!
//! A text is tokenized, the tokens are partitioned into consecutive chunks
//! of at most the configured chunk size, and each chunk is either replaced
//! by a short reference token — when its content hash is already cached —
//! or emitted in full and cached. The whole pass is modelled by the spec
//! function `spec_compress`, a function of the cache's recency list and the
//! chunk sequence; `compress` is proved to return exactly its result.

use vstd::prelude::*;
use lru::LruCache;
use crate::cache::ChunkData;
use crate::cache::ChunkDataModel;
use crate::cache::ChunkEntry;
use crate::cache::cache_get;
use crate::cache::cache_len;
use crate::cache::cache_new;
use crate::cache::cache_peek;
use crate::cache::cache_put;
use crate::cache::find_index;
use crate::cache::lru_cap;
use crate::cache::lru_entries;
use crate::cache::lemma_put_preserves;
use crate::cache::lemma_touch_preserves;
use crate::cache::lemma_find_index;
use crate::cache::model_contains;
use crate::cache::model_unique;
use crate::cache::spec_put;
use crate::cache::spec_touch;
use crate::digest::chunk_hash_raw;
use crate::digest::deflate_of;
use crate::digest::deflate_text;
use crate::digest::hash_of;
use crate::embedding::DIM_MAX;
use crate::embedding::HashEmbedder;
use crate::embedding::embedding_of;
use crate::ratio::Ratio;
use crate::text::dec_digits;
use crate::text::join_sp;
use crate::text::join_tokens;
use crate::text::tokenize;
use crate::text::tokens_of;
use crate::text::u64_to_dec;

verus! {

/// The cached state of one chunk: its compressed bytes and its embedding.
#[derive(Clone, Debug)]
pub struct PrecompState {
    /// The deflate-compressed chunk text.
    pub compressed_kv: Vec<u8>,
    /// The chunk's embedding coordinates.
    pub embedding: Vec<i64>,
}

/// The reference token emitted for a cache hit: a hash mark followed by the
/// decimal hash.
pub open spec fn ref_text(h: u64) -> Seq<char> {
    seq!['#'] + dec_digits(h as int)
}

/// The chunks of a token sequence: each chunk joins up to `cs` consecutive
/// tokens with single spaces and remembers how many tokens it took.
pub open spec fn chunk_records(ts: Seq<Seq<char>>, cs: nat) -> Seq<(Seq<char>, nat)>
    decreases ts.len(),
{
    if ts.len() == 0 || cs == 0 {
        Seq::empty()
    } else {
        let k: nat = if ts.len() < cs {
            ts.len() as nat
        } else {
            cs
        };
        seq![(join_sp(ts.take(k as int)), k)] + chunk_records(ts.skip(k as int), cs)
    }
}

/// The token counts of a chunk sequence, summed.
pub open spec fn sum_counts(chunks: Seq<(Seq<char>, nat)>) -> int
    decreases chunks.len(),
{
    if chunks.len() == 0 {
        0
    } else {
        chunks[0].1 + sum_counts(chunks.drop_first())
    }
}

/// Chunking spends every token exactly once.
pub proof fn lemma_chunk_records_sum(ts: Seq<Seq<char>>, cs: nat)
    requires
        cs >= 1,
    ensures
        sum_counts(chunk_records(ts, cs)) == ts.len(),
        forall|i: int|
            0 <= i < chunk_records(ts, cs).len() ==> 1 <= (#[trigger] chunk_records(ts, cs)[i]).1
                <= cs,
    decreases ts.len(),
{
    if ts.len() > 0 {
        let k: nat = if ts.len() < cs {
            ts.len() as nat
        } else {
            cs
        };
        lemma_chunk_records_sum(ts.skip(k as int), cs);
        assert(chunk_records(ts, cs).drop_first() =~= chunk_records(ts.skip(k as int), cs));
    }
}

/// The chunk texts of a token sequence.
pub open spec fn chunk_texts(ts: Seq<Seq<char>>, cs: nat) -> Seq<Seq<char>>
    decreases ts.len(),
{
    if ts.len() == 0 || cs == 0 {
        Seq::empty()
    } else {
        let k: nat = if ts.len() < cs {
            ts.len() as nat
        } else {
            cs
        };
        seq![join_sp(ts.take(k as int))] + chunk_texts(ts.skip(k as int), cs)
    }
}

/// The chunk texts are the texts of the chunk records.
pub proof fn lemma_chunk_texts_eq(ts: Seq<Seq<char>>, cs: nat)
    ensures
        chunk_texts(ts, cs).len() == chunk_records(ts, cs).len(),
        forall|i: int|
            0 <= i < chunk_texts(ts, cs).len() ==> #[trigger] chunk_texts(ts, cs)[i]
                == chunk_records(ts, cs)[i].0,
    decreases ts.len(),
{
    if ts.len() > 0 && cs > 0 {
        let k: nat = if ts.len() < cs {
            ts.len() as nat
        } else {
            cs
        };
        lemma_chunk_texts_eq(ts.skip(k as int), cs);
    }
}

/// Joining two non-empty piece sequences joins their joins.
pub proof fn lemma_join_concat(a: Seq<Seq<char>>, b: Seq<Seq<char>>)
    requires
        a.len() > 0,
        b.len() > 0,
    ensures
        join_sp(a + b) == join_sp(a) + seq![' '] + join_sp(b),
    decreases a.len(),
{
    if a.len() == 1 {
        assert((a + b)[0] == a[0]);
        assert((a + b).drop_first() =~= b);
        assert(join_sp(a + b) == a[0] + seq![' '] + join_sp(b));
    } else {
        assert((a + b).drop_first() =~= a.drop_first() + b);
        lemma_join_concat(a.drop_first(), b);
        assert(join_sp(a + b) == (a + b)[0] + seq![' '] + join_sp(a.drop_first() + b));
        assert(join_sp(a + b) =~= join_sp(a) + seq![' '] + join_sp(b));
    }
}

/// Rejoining the chunks of a token sequence rejoins the tokens: chunking
/// followed by space-joining normalizes whitespace and nothing else.
pub proof fn lemma_join_chunks(ts: Seq<Seq<char>>, cs: nat)
    requires
        cs >= 1,
    ensures
        join_sp(chunk_texts(ts, cs)) == join_sp(ts),
    decreases ts.len(),
{
    if ts.len() == 0 {
    } else if ts.len() <= cs {
        let k = ts.len() as int;
        assert(ts.take(k) =~= ts);
        assert(ts.skip(k) =~= Seq::<Seq<char>>::empty());
        assert(chunk_texts(ts.skip(k), cs) =~= Seq::<Seq<char>>::empty());
        assert(chunk_texts(ts, cs) == seq![join_sp(ts.take(k))] + chunk_texts(ts.skip(k), cs));
        assert(join_sp(ts.take(k)) == join_sp(ts));
        assert(chunk_texts(ts, cs) =~= seq![join_sp(ts)]);
        assert(join_sp(seq![join_sp(ts)]) == join_sp(ts));
    } else {
        let k = cs as int;
        lemma_join_chunks(ts.skip(k), cs);
        assert(ts.skip(k).len() > 0);
        assert(chunk_texts(ts.skip(k), cs).len() > 0);
        assert(chunk_texts(ts, cs) == seq![join_sp(ts.take(k))] + chunk_texts(ts.skip(k), cs));
        lemma_join_concat(seq![join_sp(ts.take(k))], chunk_texts(ts.skip(k), cs));
        assert(join_sp(seq![join_sp(ts.take(k))]) == join_sp(ts.take(k)));
        lemma_join_concat(ts.take(k), ts.skip(k));
        assert(ts.take(k) + ts.skip(k) =~= ts);
    }
}

/// One compression pass over a chunk sequence, from a cache state: the
/// final cache state, the emitted token count, and the output pieces.
/// A hit emits the reference token and counts one; a miss caches the
/// chunk's deflate payload and embedding, emits the chunk text and counts
/// its tokens.
pub open spec fn spec_compress(
    m: Seq<ChunkEntry>,
    cap: nat,
    dim: nat,
    chunks: Seq<(Seq<char>, nat)>,
) -> (Seq<ChunkEntry>, int, Seq<Seq<char>>)
    decreases chunks.len(),
{
    if chunks.len() == 0 {
        (m, 0int, Seq::empty())
    } else {
        let t = chunks[0].0;
        let k = chunks[0].1;
        let h = hash_of(t);
        if model_contains(m, h) {
            let r = spec_compress(spec_touch(m, h), cap, dim, chunks.drop_first());
            (r.0, r.1 + 1, seq![ref_text(h)] + r.2)
        } else {
            let r = spec_compress(
                spec_put(m, cap, h, (deflate_of(t), embedding_of(t, dim))),
                cap,
                dim,
                chunks.drop_first(),
            );
            (r.0, r.1 + k, seq![t] + r.2)
        }
    }
}

/// A pass in which every chunk misses — no chunk hash is cached beforehand
/// and the chunks' hashes are pairwise distinct — emits every chunk in full.
pub proof fn lemma_compress_all_miss(
    m: Seq<ChunkEntry>,
    cap: nat,
    dim: nat,
    chunks: Seq<(Seq<char>, nat)>,
)
    requires
        forall|i: int|
            0 <= i < chunks.len() ==> !model_contains(m, hash_of((#[trigger] chunks[i]).0)),
        forall|i: int, j: int|
            0 <= i < j < chunks.len() ==> hash_of((#[trigger] chunks[i]).0) != hash_of(
                (#[trigger] chunks[j]).0,
            ),
    ensures
        spec_compress(m, cap, dim, chunks).1 == sum_counts(chunks),
        spec_compress(m, cap, dim, chunks).2.len() == chunks.len(),
        forall|i: int|
            0 <= i < chunks.len() ==> #[trigger] spec_compress(m, cap, dim, chunks).2[i]
                == chunks[i].0,
    decreases chunks.len(),
{
    if chunks.len() > 0 {
        let t = chunks[0].0;
        let h = hash_of(t);
        let v = (deflate_of(t), embedding_of(t, dim));
        assert(!model_contains(m, h));
        let m1 = spec_put(m, cap, h, v);
        let tail = chunks.drop_first();
        assert forall|i: int| 0 <= i < tail.len() implies !model_contains(
            m1,
            hash_of((#[trigger] tail[i]).0),
        ) by {
            assert(tail[i] == chunks[i + 1]);
            let hi = hash_of(chunks[i + 1].0);
            assert(hi != h);
            assert(!model_contains(m, hi));
            if model_contains(m1, hi) {
                crate::cache::lemma_put_keys(m, cap, h, v, hi);
            }
        }
        assert(forall|i: int, j: int|
            0 <= i < j < tail.len() ==> hash_of((#[trigger] tail[i]).0) != hash_of(
                (#[trigger] tail[j]).0,
            )) by {
            assert(forall|i: int| 0 <= i < tail.len() ==> #[trigger] tail[i] == chunks[i + 1]);
        }
        lemma_compress_all_miss(m1, cap, dim, tail);
        let r = spec_compress(m, cap, dim, chunks);
        assert(r.2 == seq![t] + spec_compress(m1, cap, dim, tail).2);
        assert(forall|i: int|
            1 <= i < chunks.len() ==> #[trigger] r.2[i] == spec_compress(m1, cap, dim, tail).2[i
                - 1]);
    }
}

/// Law: compressing a text against a cache that holds none of its chunks —
/// an empty cache in particular — with pairwise distinct chunk hashes saves
/// nothing: every token is emitted, so the ratio is one, and the output is
/// the text's chunks rejoined, which is the text's tokens rejoined.
pub proof fn lemma_cold_compress_identity(
    m: Seq<ChunkEntry>,
    cap: nat,
    dim: nat,
    ts: Seq<Seq<char>>,
    cs: nat,
)
    requires
        cs >= 1,
        forall|i: int|
            0 <= i < chunk_records(ts, cs).len() ==> !model_contains(
                m,
                hash_of((#[trigger] chunk_records(ts, cs)[i]).0),
            ),
        forall|i: int, j: int|
            0 <= i < j < chunk_records(ts, cs).len() ==> hash_of(
                (#[trigger] chunk_records(ts, cs)[i]).0,
            ) != hash_of((#[trigger] chunk_records(ts, cs)[j]).0),
    ensures
        spec_compress(m, cap, dim, chunk_records(ts, cs)).1 == ts.len(),
        join_sp(spec_compress(m, cap, dim, chunk_records(ts, cs)).2) == join_sp(ts),
{
    let chunks = chunk_records(ts, cs);
    lemma_compress_all_miss(m, cap, dim, chunks);
    lemma_chunk_records_sum(ts, cs);
    lemma_chunk_texts_eq(ts, cs);
    assert(spec_compress(m, cap, dim, chunks).2 =~= chunk_texts(ts, cs));
    lemma_join_chunks(ts, cs);
}

/// Whether key `k` sits among the first `p` entries of the recency list.
pub open spec fn in_prefix(m: Seq<ChunkEntry>, p: int, k: u64) -> bool {
    exists|i: int| 0 <= i < p && i < m.len() && (#[trigger] m[i]).0 == k
}

/// The warmed-cache relation: everything that sat in the front `p` entries
/// before the pass, and every chunk of the pass, sits in the front `p2`
/// entries afterwards.
pub open spec fn warmed(
    m: Seq<ChunkEntry>,
    p: int,
    chunks: Seq<(Seq<char>, nat)>,
    mf: Seq<ChunkEntry>,
    p2: int,
) -> bool {
    &&& (forall|k: u64| in_prefix(m, p, k) ==> #[trigger] in_prefix(mf, p2, k))
    &&& (forall|i: int|
        0 <= i < chunks.len() ==> in_prefix(mf, p2, hash_of((#[trigger] chunks[i]).0)))
}

/// A compression pass warms the cache: while the front `p` entries plus the
/// pass's chunks fit within the bound, every chunk of the pass ends up
/// cached, and nothing that sat in front of the untouched entries is
/// evicted.
pub proof fn lemma_compress_warms(
    m: Seq<ChunkEntry>,
    cap: nat,
    dim: nat,
    chunks: Seq<(Seq<char>, nat)>,
    p: int,
)
    requires
        model_unique(m),
        m.len() <= cap,
        0 <= p <= m.len(),
        p + chunks.len() <= cap,
    ensures
        ({
            let r = spec_compress(m, cap, dim, chunks);
            &&& model_unique(r.0)
            &&& r.0.len() <= cap
            &&& exists|p2: int|
                0 <= p2 <= p + chunks.len() && p2 <= r.0.len() && #[trigger] warmed(
                    m,
                    p,
                    chunks,
                    r.0,
                    p2,
                )
        }),
    decreases chunks.len(),
{
    if chunks.len() == 0 {
        assert(warmed(m, p, chunks, m, p));
    } else {
        let t = chunks[0].0;
        let h = hash_of(t);
        let rest = chunks.drop_first();
        let fi = crate::cache::find_index(m, h);
        crate::cache::lemma_find_index(m, h);
        if fi >= 0 {
            let m1 = spec_touch(m, h);
            lemma_touch_preserves(m, h);
            crate::cache::lemma_move_entry_positions(m, fi);
            let p1: int = if fi < p {
                p
            } else {
                p + 1
            };
            assert(in_prefix(m1, p1, h)) by {
                assert(m1[0].0 == h);
            }
            assert forall|k: u64| in_prefix(m, p, k) implies #[trigger] in_prefix(m1, p1, k) by {
                let i = choose|i: int| 0 <= i < p && i < m.len() && (#[trigger] m[i]).0 == k;
                if i == fi {
                    assert(m1[0].0 == k);
                } else if i < fi {
                    assert(m1[i + 1].0 == k);
                } else {
                    assert(m1[i].0 == k);
                }
            }
            lemma_compress_warms(m1, cap, dim, rest, p1);
            let rf = spec_compress(m1, cap, dim, rest);
            let p2 = choose|p2: int|
                0 <= p2 <= p1 + rest.len() && p2 <= rf.0.len() && #[trigger] warmed(
                    m1,
                    p1,
                    rest,
                    rf.0,
                    p2,
                );
            assert(spec_compress(m, cap, dim, chunks).0 == rf.0);
            assert(warmed(m, p, chunks, rf.0, p2)) by {
                assert forall|i: int| 0 <= i < chunks.len() implies in_prefix(
                    rf.0,
                    p2,
                    hash_of((#[trigger] chunks[i]).0),
                ) by {
                    if i == 0 {
                        assert(in_prefix(m1, p1, h));
                    } else {
                        assert(chunks[i] == rest[i - 1]);
                    }
                }
            }
        } else {
            let v = (deflate_of(t), embedding_of(t, dim));
            let m1 = spec_put(m, cap, h, v);
            lemma_put_preserves(m, cap, h, v);
            let p1: int = p + 1;
            assert(m1[0].0 == h);
            assert(in_prefix(m1, p1, h));
            if m.len() >= cap {
                assert(m.len() == cap);
                assert(p <= m.len() - 1);
                assert(m1 == seq![(h, v)] + m.subrange(0, m.len() - 1));
                assert forall|k: u64| in_prefix(m, p, k) implies #[trigger] in_prefix(
                    m1,
                    p1,
                    k,
                ) by {
                    let i = choose|i: int| 0 <= i < p && i < m.len() && (#[trigger] m[i]).0 == k;
                    assert(m1[i + 1] == m.subrange(0, m.len() - 1)[i]);
                    assert(m1[i + 1].0 == k);
                }
            } else {
                assert(m1 == seq![(h, v)] + m);
                assert forall|k: u64| in_prefix(m, p, k) implies #[trigger] in_prefix(
                    m1,
                    p1,
                    k,
                ) by {
                    let i = choose|i: int| 0 <= i < p && i < m.len() && (#[trigger] m[i]).0 == k;
                    assert(m1[i + 1].0 == k);
                }
            }
            lemma_compress_warms(m1, cap, dim, rest, p1);
            let rf = spec_compress(m1, cap, dim, rest);
            let p2 = choose|p2: int|
                0 <= p2 <= p1 + rest.len() && p2 <= rf.0.len() && #[trigger] warmed(
                    m1,
                    p1,
                    rest,
                    rf.0,
                    p2,
                );
            assert(spec_compress(m, cap, dim, chunks).0 == rf.0);
            assert(warmed(m, p, chunks, rf.0, p2)) by {
                assert forall|i: int| 0 <= i < chunks.len() implies in_prefix(
                    rf.0,
                    p2,
                    hash_of((#[trigger] chunks[i]).0),
                ) by {
                    if i == 0 {
                        assert(in_prefix(m1, p1, h));
                    } else {
                        assert(chunks[i] == rest[i - 1]);
                    }
                }
            }
        }
    }
}

/// A pass in which every chunk is already cached emits one reference token
/// per chunk and caches nothing new.
pub proof fn lemma_compress_all_hits(
    m: Seq<ChunkEntry>,
    cap: nat,
    dim: nat,
    chunks: Seq<(Seq<char>, nat)>,
)
    requires
        model_unique(m),
        forall|i: int|
            0 <= i < chunks.len() ==> model_contains(m, hash_of((#[trigger] chunks[i]).0)),
    ensures
        spec_compress(m, cap, dim, chunks).1 == chunks.len(),
    decreases chunks.len(),
{
    if chunks.len() > 0 {
        let h = hash_of(chunks[0].0);
        let m1 = spec_touch(m, h);
        lemma_touch_preserves(m, h);
        let rest = chunks.drop_first();
        assert forall|i: int| 0 <= i < rest.len() implies model_contains(
            m1,
            hash_of((#[trigger] rest[i]).0),
        ) by {
            assert(rest[i] == chunks[i + 1]);
        }
        lemma_compress_all_hits(m1, cap, dim, rest);
    }
}

/// A pass emits at least one token unit per chunk.
pub proof fn lemma_compress_emits_at_least(
    m: Seq<ChunkEntry>,
    cap: nat,
    dim: nat,
    chunks: Seq<(Seq<char>, nat)>,
)
    requires
        forall|i: int| 0 <= i < chunks.len() ==> (#[trigger] chunks[i]).1 >= 1,
    ensures
        spec_compress(m, cap, dim, chunks).1 >= chunks.len(),
    decreases chunks.len(),
{
    if chunks.len() > 0 {
        let t = chunks[0].0;
        let h = hash_of(t);
        let rest = chunks.drop_first();
        assert(forall|i: int| 0 <= i < rest.len() ==> (#[trigger] rest[i]).1 >= 1);
        if model_contains(m, h) {
            lemma_compress_emits_at_least(spec_touch(m, h), cap, dim, rest);
        } else {
            lemma_compress_emits_at_least(
                spec_put(m, cap, h, (deflate_of(t), embedding_of(t, dim))),
                cap,
                dim,
                rest,
            );
        }
    }
}

/// Law: filling a full cache of distinct keys with one more chunk evicts
/// exactly the least recently touched entry, and a pass over a chunk whose
/// hash was evicted misses again, emitting its full token count.
#[verifier::rlimit(50)]
pub proof fn lemma_evicted_chunk_misses_again(
    m: Seq<ChunkEntry>,
    cap: nat,
    dim: nat,
    fresh: (Seq<char>, nat),
    evicted: (Seq<char>, nat),
)
    requires
        model_unique(m),
        m.len() == cap,
        cap >= 1,
        !model_contains(m, hash_of(fresh.0)),
        hash_of(evicted.0) == m[m.len() - 1].0,
    ensures
        ({
            let m2 = spec_put(
                m,
                cap,
                hash_of(fresh.0),
                (deflate_of(fresh.0), embedding_of(fresh.0, dim)),
            );
            &&& model_contains(m2, hash_of(fresh.0))
            &&& !model_contains(m2, hash_of(evicted.0))
            &&& spec_compress(m2, cap, dim, seq![evicted]).1 == evicted.1
        }),
{
    let h = hash_of(fresh.0);
    let v = (deflate_of(fresh.0), embedding_of(fresh.0, dim));
    crate::cache::lemma_lru_eviction(m, cap, h, v);
    let m2 = spec_put(m, cap, h, v);
    let one = seq![evicted];
    assert(one[0] == evicted);
    assert(!model_contains(m2, hash_of(one[0].0)));
    let m3 = spec_put(m2, cap, hash_of(evicted.0), (deflate_of(evicted.0), embedding_of(evicted.0, dim)));
    assert(one.drop_first() =~= Seq::<(Seq<char>, nat)>::empty());
    assert(spec_compress(m3, cap, dim, one.drop_first()).1 == 0);
    assert(spec_compress(m2, cap, dim, one).1 == evicted.1);
}

/// Law: compressing a text twice against the same cache never does worse
/// the second time. When the cache bound covers the text's chunks, the
/// first pass leaves every chunk cached, so the second pass hits on all of
/// them and emits exactly one token unit per chunk — no more than any pass
/// emits. With a bound below the chunk count the first pass can evict its
/// own chunks, and the second pass may pay full price again.
pub proof fn lemma_second_pass_no_worse(
    m: Seq<ChunkEntry>,
    cap: nat,
    dim: nat,
    ts: Seq<Seq<char>>,
    cs: nat,
)
    requires
        cs >= 1,
        model_unique(m),
        m.len() <= cap,
        chunk_records(ts, cs).len() <= cap,
    ensures
        ({
            let chunks = chunk_records(ts, cs);
            let first = spec_compress(m, cap, dim, chunks);
            let second = spec_compress(first.0, cap, dim, chunks);
            second.1 <= first.1
        }),
{
    let chunks = chunk_records(ts, cs);
    let first = spec_compress(m, cap, dim, chunks);
    lemma_compress_warms(m, cap, dim, chunks, 0);
    let p2 = choose|p2: int|
        0 <= p2 <= chunks.len() && p2 <= first.0.len() && #[trigger] warmed(
            m,
            0,
            chunks,
            first.0,
            p2,
        );
    assert forall|i: int| 0 <= i < chunks.len() implies model_contains(
        first.0,
        hash_of((#[trigger] chunks[i]).0),
    ) by {
        assert(in_prefix(first.0, p2, hash_of(chunks[i].0)));
        crate::cache::lemma_contains_iff_witness(first.0, hash_of(chunks[i].0));
    }
    lemma_compress_all_hits(first.0, cap, dim, chunks);
    lemma_chunk_records_sum(ts, cs);
    lemma_compress_emits_at_least(m, cap, dim, chunks);
}

/// The chunk-compression engine: a chunk size, a bounded
/// least-recently-used cache keyed by chunk content hash, and the
/// embedding provider consulted on cache misses.
pub struct HHTCEngine {
    chunk_size: usize,
    cache: LruCache<u64, ChunkData>,
    embedder: HashEmbedder,
}

impl HHTCEngine {
    /// The recency list of the cache, most recently used chunk first.
    pub closed spec fn entries(self) -> Seq<ChunkEntry> {
        lru_entries(self.cache)
    }

    /// The bound of the cache.
    pub closed spec fn capacity_spec(self) -> nat {
        lru_cap(self.cache)
    }

    /// The configured chunk size.
    pub closed spec fn chunk_size_spec(self) -> nat {
        self.chunk_size as nat
    }

    /// The embedding dimension used for cached chunks.
    pub closed spec fn dim_spec(self) -> nat {
        self.embedder.dim as nat
    }

    /// A positive chunk size, a bounded well-formed embedder, and a cache
    /// within its bound whose keys are pairwise distinct.
    pub open spec fn wf(self) -> bool {
        &&& self.chunk_size_spec() >= 1
        &&& 1 <= self.dim_spec() <= DIM_MAX as nat
        &&& self.capacity_spec() >= 1
        &&& self.entries().len() <= self.capacity_spec()
        &&& model_unique(self.entries())
    }

    /// A fresh engine with an empty cache.
    pub fn new(chunk_size: usize, cache_capacity: usize, dim: usize) -> (r: HHTCEngine)
        requires
            chunk_size >= 1,
            cache_capacity >= 1,
            1 <= dim <= DIM_MAX,
        ensures
            r.wf(),
            r.entries() == Seq::<ChunkEntry>::empty(),
            r.capacity_spec() == cache_capacity,
            r.chunk_size_spec() == chunk_size,
            r.dim_spec() == dim,
    {
        HHTCEngine {
            chunk_size,
            cache: cache_new(cache_capacity),
            embedder: HashEmbedder::new(dim),
        }
    }

    /// The number of chunks currently cached.
    pub fn cache_len(&self) -> (r: usize)
        ensures
            r == self.entries().len(),
    {
        cache_len(&self.cache)
    }

    /// The bound of the cache.
    pub fn capacity(&self) -> (r: usize)
        requires
            self.wf(),
        ensures
            r == self.capacity_spec(),
    {
        crate::cache::cache_capacity(&self.cache)
    }

    /// Whether the chunk with this text is currently cached. Does not touch
    /// recency.
    pub fn contains_chunk(&self, text: &str) -> (r: bool)
        ensures
            r == model_contains(self.entries(), hash_of(text@)),
    {
        let h = chunk_hash_raw(text);
        crate::cache::cache_contains(&self.cache, h)
    }

    /// The cached state of the chunk with this text, if present. Does not
    /// touch recency.
    pub fn cached_state(&self, text: &str) -> (r: Option<PrecompState>)
        ensures
            model_contains(self.entries(), hash_of(text@)) ==> r is Some && ((r->0).compressed_kv@,
            (r->0).embedding@) == self.entries()[find_index(
                self.entries(),
                hash_of(text@),
            )].1,
            !model_contains(self.entries(), hash_of(text@)) ==> r is None,
    {
        let h = chunk_hash_raw(text);
        match cache_peek(&self.cache, h) {
            Some(d) => Some(PrecompState { compressed_kv: d.0, embedding: d.1 }),
            None => None,
        }
    }

    /// Compress a text against the cache.
    ///
    /// The text is tokenized by whitespace; a text with no tokens yields the
    /// empty output and the ratio one. Otherwise the result — output text,
    /// emitted count, final cache state — is exactly `spec_compress` on the
    /// text's chunks, and the ratio is the emitted count over the total
    /// token count.
    pub fn compress(&mut self, text: &str) -> (r: (String, Ratio))
        requires
            old(self).wf(),
        ensures
            final(self).wf(),
            final(self).capacity_spec() == old(self).capacity_spec(),
            final(self).chunk_size_spec() == old(self).chunk_size_spec(),
            final(self).dim_spec() == old(self).dim_spec(),
            r.1.wf(),
            tokens_of(text@).len() == 0 ==> {
                &&& final(self).entries() == old(self).entries()
                &&& r.0@ == Seq::<char>::empty()
                &&& r.1.is_one_spec()
            },
            tokens_of(text@).len() > 0 ==> {
                let out = spec_compress(
                    old(self).entries(),
                    old(self).capacity_spec(),
                    old(self).dim_spec(),
                    chunk_records(tokens_of(text@), old(self).chunk_size_spec()),
                );
                &&& final(self).entries() == out.0
                &&& r.1.emitted == out.1
                &&& r.1.total == tokens_of(text@).len()
                &&& r.0@ == join_sp(out.2)
            },
    {
        let tokens = tokenize(text);
        let total = tokens.len();
        if total == 0 {
            return (String::new(), Ratio::one());
        }
        let ghost tv = tokens.deep_view();
        let ghost cs = self.chunk_size_spec();
        let ghost m0 = self.entries();
        let ghost cap = self.capacity_spec();
        let ghost dim = self.dim_spec();
        let ghost chunks = chunk_records(tv, cs);

        let mut idx: usize = 0;
        let mut emitted: usize = 0;
        let mut pieces: Vec<String> = Vec::new();
        proof {
            lemma_chunk_records_sum(tv, cs);
            assert(tv.skip(0) =~= tv);
            assert(pieces.deep_view() =~= Seq::<Seq<char>>::empty());
            assert(pieces.deep_view() + spec_compress(m0, cap, dim, chunks).2 =~= spec_compress(
                m0,
                cap,
                dim,
                chunks,
            ).2);
        }
        while idx < total
            invariant
                0 <= idx <= total,
                total == tv.len(),
                tv == tokens.deep_view(),
                tokens@.len() == total,
                emitted <= idx,
                idx > 0 ==> emitted >= 1,
                self.wf(),
                self.chunk_size == old(self).chunk_size,
                self.embedder == old(self).embedder,
                cs == self.chunk_size_spec(),
                cap == self.capacity_spec(),
                dim == self.dim_spec(),
                cs >= 1,
                ({
                    let full = spec_compress(m0, cap, dim, chunks);
                    let cur = spec_compress(
                        self.entries(),
                        cap,
                        dim,
                        chunk_records(tv.skip(idx as int), cs),
                    );
                    &&& full.0 == cur.0
                    &&& full.1 == emitted + cur.1
                    &&& full.2 == pieces.deep_view() + cur.2
                }),
            decreases total - idx,
        {
            let remaining = total - idx;
            let k = if remaining < self.chunk_size {
                remaining
            } else {
                self.chunk_size
            };
            let chunk_text = join_tokens(&tokens, idx, idx + k);
            let ghost rest = tv.skip(idx as int);
            let ghost rem_chunks = chunk_records(rest, cs);
            proof {
                assert(rest.len() == total - idx);
                assert(rest.take(k as int) =~= tv.subrange(idx as int, idx + k));
                assert(rem_chunks[0] == (join_sp(rest.take(k as int)), k as nat));
                assert(rem_chunks.drop_first() =~= chunk_records(rest.skip(k as int), cs));
                assert(rest.skip(k as int) =~= tv.skip(idx + k));
                lemma_chunk_records_sum(rest, cs);
            }
            let h = chunk_hash_raw(chunk_text.as_str());
            let ghost m_before = self.entries();
            let hit = cache_get(&mut self.cache, h);
            proof {
                lemma_find_index(m_before, h);
            }
            match hit {
                Some(_) => {
                    proof {
                        lemma_touch_preserves(m_before, h);
                    }
                    let mut piece = String::new();
                    piece.append("#");
                    let digits = u64_to_dec(h);
                    piece.append(digits.as_str());
                    proof {
                        reveal_strlit("#");
                        assert("#"@ =~= seq!['#']);
                        assert(piece@ =~= ref_text(h));
                    }
                    let ghost dv0 = pieces.deep_view();
                    pieces.push(piece);
                    proof {
                        assert(pieces.deep_view() =~= dv0.push(ref_text(h)));
                        assert(dv0.push(ref_text(h)) + spec_compress(
                            self.entries(),
                            cap,
                            dim,
                            rem_chunks.drop_first(),
                        ).2 =~= dv0 + (seq![ref_text(h)] + spec_compress(
                            self.entries(),
                            cap,
                            dim,
                            rem_chunks.drop_first(),
                        ).2));
                    }
                    emitted = emitted + 1;
                },
                None => {
                    let payload = deflate_text(chunk_text.as_str());
                    let emb = self.embedder.embed(chunk_text.as_str());
                    proof {
                        lemma_put_preserves(
                            m_before,
                            cap,
                            h,
                            (deflate_of(chunk_text@), embedding_of(chunk_text@, dim)),
                        );
                    }
                    cache_put(&mut self.cache, h, payload, emb.coords);
                    let ghost dv0 = pieces.deep_view();
                    pieces.push(chunk_text);
                    proof {
                        assert(pieces.deep_view() =~= dv0.push(rem_chunks[0].0));
                        assert(dv0.push(rem_chunks[0].0) + spec_compress(
                            self.entries(),
                            cap,
                            dim,
                            rem_chunks.drop_first(),
                        ).2 =~= dv0 + (seq![rem_chunks[0].0] + spec_compress(
                            self.entries(),
                            cap,
                            dim,
                            rem_chunks.drop_first(),
                        ).2));
                    }
                    emitted = emitted + k;
                },
            }
            idx = idx + k;
        }
        proof {
            assert(tv.skip(total as int) =~= Seq::<Seq<char>>::empty());
            let cur = spec_compress(self.entries(), cap, dim, chunk_records(tv.skip(total as int), cs));
            assert(cur.0 == self.entries() && cur.1 == 0 && cur.2 =~= Seq::<Seq<char>>::empty());
            assert(pieces.deep_view() + cur.2 =~= pieces.deep_view());
        }
        let output = join_tokens(&pieces, 0, pieces.len());
        proof {
            assert(pieces.deep_view().subrange(0, pieces.deep_view().len() as int)
                =~= pieces.deep_view());
        }
        (output, Ratio { emitted, total })
    }
}

} // verus!
