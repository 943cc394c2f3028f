//! The knowledge store: durable records mirrored by an in-memory vector
//! index, and similarity queries over it.
//!
//! The durable store is an external collaborator reachable only through
//! get/put/iterate; the library models it as the keyed record sequence that
//! those operations maintain, and keeps the vector index aligned with it
//! entry by entry — the synchronization invariant is part of `wf`.

use vstd::prelude::*;
use crate::embedding::DIM_MAX;
use crate::embedding::coords_bounded;
use crate::embedding::Embedding;
use crate::embedding::HashEmbedder;
use crate::embedding::Similarity;
use crate::embedding::cosine_similarity;
use crate::embedding::lemma_exceeds_monotone;
use crate::embedding::lemma_sim_ge_total;
use crate::embedding::lemma_sim_ge_transitive;
use crate::embedding::sim_cmp_ge;
use crate::embedding::sim_ge;
use crate::embedding::spec_cosine;

verus! {

/// One knowledge record: an identifier, the knowledge text, a confidence in
/// thousandths of one, and the text's embedding.
#[derive(Clone, Debug)]
pub struct KnowledgeBlob {
    /// The record's durable key.
    pub key: String,
    /// The knowledge text.
    pub value: String,
    /// Confidence in the fact, in thousandths: `0` to `1000`.
    pub confidence_milli: u32,
    /// The embedding of the knowledge text.
    pub embedding: Embedding,
}

impl KnowledgeBlob {
    /// Confidence within scale and a well-formed embedding.
    pub open spec fn wf(self) -> bool {
        self.confidence_milli <= 1000 && self.embedding.wf()
    }
}

/// The fixed seed facts a fresh store is pre-populated with, in order.
pub open spec fn seed_facts() -> Seq<(Seq<char>, Seq<char>)> {
    seq![
        ("transformer"@, "Transformers are a deep learning architecture that relies on self-attention mechanisms."@),
        ("attention"@, "Attention mechanisms allow a model to weigh the importance of different parts of the input sequence."@),
        ("Rust"@, "Rust is a systems programming language focused on safety, speed, and concurrency."@),
        ("unsupervised learning"@, "Unsupervised learning is a type of machine learning that looks for patterns in data without explicit labels."@),
        ("supervised learning"@, "Supervised learning uses labeled data to train a model."@),
        ("garbage collection"@, "Rust is not a garbage collected language and manages memory ownership at compile time."@),
        ("bottleneck"@, "LLM inference is often bottlenecked by memory bandwidth, not just compute."@),
        ("France capital"@, "The capital of France is Paris."@),
        ("Paris"@, "Paris is known for its Eiffel Tower, Louvre Museum, and rich history."@),
        ("car speed"@, "A bicycle is not the fastest car in the world."@),
        ("fastest car"@, "The world's fastest cars are designed for high speeds, not cycling."@),
    ]
}

/// The seed keys are pairwise distinct.
pub proof fn lemma_seed_keys_distinct()
    ensures
        forall|i: int, j: int|
            0 <= i < j < seed_facts().len() ==> (#[trigger] seed_facts()[i]).0 != (
            #[trigger] seed_facts()[j]).0,
{
    reveal_strlit("transformer");
    reveal_strlit("attention");
    reveal_strlit("Rust");
    reveal_strlit("unsupervised learning");
    reveal_strlit("supervised learning");
    reveal_strlit("garbage collection");
    reveal_strlit("bottleneck");
    reveal_strlit("France capital");
    reveal_strlit("Paris");
    reveal_strlit("car speed");
    reveal_strlit("fastest car");
    assert(seed_facts()[0].0.len() == 11);
    assert(seed_facts()[1].0.len() == 9);
    assert(seed_facts()[2].0.len() == 4);
    assert(seed_facts()[3].0.len() == 21);
    assert(seed_facts()[4].0.len() == 19);
    assert(seed_facts()[5].0.len() == 18);
    assert(seed_facts()[6].0.len() == 10);
    assert(seed_facts()[7].0.len() == 14);
    assert(seed_facts()[8].0.len() == 5);
    assert(seed_facts()[9].0.len() == 9);
    assert(seed_facts()[10].0.len() == 11);
    assert(seed_facts()[0].0 != seed_facts()[1].0);
    assert(seed_facts()[0].0 != seed_facts()[2].0);
    assert(seed_facts()[0].0 != seed_facts()[3].0);
    assert(seed_facts()[0].0 != seed_facts()[4].0);
    assert(seed_facts()[0].0 != seed_facts()[5].0);
    assert(seed_facts()[0].0 != seed_facts()[6].0);
    assert(seed_facts()[0].0 != seed_facts()[7].0);
    assert(seed_facts()[0].0 != seed_facts()[8].0);
    assert(seed_facts()[0].0 != seed_facts()[9].0);
    assert(seed_facts()[0].0[0] == 't' && seed_facts()[10].0[0] == 'f');
    assert(seed_facts()[0].0 != seed_facts()[10].0);
    assert(seed_facts()[1].0 != seed_facts()[2].0);
    assert(seed_facts()[1].0 != seed_facts()[3].0);
    assert(seed_facts()[1].0 != seed_facts()[4].0);
    assert(seed_facts()[1].0 != seed_facts()[5].0);
    assert(seed_facts()[1].0 != seed_facts()[6].0);
    assert(seed_facts()[1].0 != seed_facts()[7].0);
    assert(seed_facts()[1].0 != seed_facts()[8].0);
    assert(seed_facts()[1].0[0] == 'a' && seed_facts()[9].0[0] == 'c');
    assert(seed_facts()[1].0 != seed_facts()[9].0);
    assert(seed_facts()[1].0 != seed_facts()[10].0);
    assert(seed_facts()[2].0 != seed_facts()[3].0);
    assert(seed_facts()[2].0 != seed_facts()[4].0);
    assert(seed_facts()[2].0 != seed_facts()[5].0);
    assert(seed_facts()[2].0 != seed_facts()[6].0);
    assert(seed_facts()[2].0 != seed_facts()[7].0);
    assert(seed_facts()[2].0 != seed_facts()[8].0);
    assert(seed_facts()[2].0 != seed_facts()[9].0);
    assert(seed_facts()[2].0 != seed_facts()[10].0);
    assert(seed_facts()[3].0 != seed_facts()[4].0);
    assert(seed_facts()[3].0 != seed_facts()[5].0);
    assert(seed_facts()[3].0 != seed_facts()[6].0);
    assert(seed_facts()[3].0 != seed_facts()[7].0);
    assert(seed_facts()[3].0 != seed_facts()[8].0);
    assert(seed_facts()[3].0 != seed_facts()[9].0);
    assert(seed_facts()[3].0 != seed_facts()[10].0);
    assert(seed_facts()[4].0 != seed_facts()[5].0);
    assert(seed_facts()[4].0 != seed_facts()[6].0);
    assert(seed_facts()[4].0 != seed_facts()[7].0);
    assert(seed_facts()[4].0 != seed_facts()[8].0);
    assert(seed_facts()[4].0 != seed_facts()[9].0);
    assert(seed_facts()[4].0 != seed_facts()[10].0);
    assert(seed_facts()[5].0 != seed_facts()[6].0);
    assert(seed_facts()[5].0 != seed_facts()[7].0);
    assert(seed_facts()[5].0 != seed_facts()[8].0);
    assert(seed_facts()[5].0 != seed_facts()[9].0);
    assert(seed_facts()[5].0 != seed_facts()[10].0);
    assert(seed_facts()[6].0 != seed_facts()[7].0);
    assert(seed_facts()[6].0 != seed_facts()[8].0);
    assert(seed_facts()[6].0 != seed_facts()[9].0);
    assert(seed_facts()[6].0 != seed_facts()[10].0);
    assert(seed_facts()[7].0 != seed_facts()[8].0);
    assert(seed_facts()[7].0 != seed_facts()[9].0);
    assert(seed_facts()[7].0 != seed_facts()[10].0);
    assert(seed_facts()[8].0 != seed_facts()[9].0);
    assert(seed_facts()[8].0 != seed_facts()[10].0);
    assert(seed_facts()[9].0 != seed_facts()[10].0);
}

/// A key that no record carries is not present.
pub proof fn lemma_fresh_key(recs: Seq<KnowledgeBlob>, key: Seq<char>)
    requires
        forall|q: int| 0 <= q < recs.len() ==> (#[trigger] recs[q]).key@ != key,
    ensures
        !has_key(recs, key),
{
    if has_key(recs, key) {
        let j = choose|j: int| 0 <= j < recs.len() && (#[trigger] recs[j]).key@ == key;
        assert(recs[j].key@ != key);
    }
}

/// Whether a record carries exactly these fields.
pub open spec fn record_matches(
    r: KnowledgeBlob,
    key: Seq<char>,
    value: Seq<char>,
    confidence_milli: u32,
    coords: Seq<i64>,
) -> bool {
    &&& r.key@ == key
    &&& r.value@ == value
    &&& r.confidence_milli == confidence_milli
    &&& r.embedding.coords@ == coords
}

/// Whether some record in `recs` carries key `key`.
pub open spec fn has_key(recs: Seq<KnowledgeBlob>, key: Seq<char>) -> bool {
    exists|j: int| 0 <= j < recs.len() && (#[trigger] recs[j]).key@ == key
}

/// The knowledge store.
pub struct EKFStorage {
    records: Vec<KnowledgeBlob>,
    vector_index: Vec<(String, Embedding)>,
    embedder: HashEmbedder,
}

impl EKFStorage {
    /// The durable records, in insertion order.
    pub closed spec fn recs(self) -> Seq<KnowledgeBlob> {
        self.records@
    }

    /// The vector index entries.
    pub closed spec fn idx(self) -> Seq<(String, Embedding)> {
        self.vector_index@
    }

    /// The embedding dimension of the store's provider.
    pub closed spec fn dim_spec(self) -> nat {
        self.embedder.dim as nat
    }

    /// Well-formed records with pairwise distinct keys, and a vector index
    /// that mirrors the durable records position by position.
    pub open spec fn wf(self) -> bool {
        &&& forall|i: int| 0 <= i < self.recs().len() ==> (#[trigger] self.recs()[i]).wf()
        &&& forall|i: int, j: int|
            0 <= i < j < self.recs().len() ==> (#[trigger] self.recs()[i]).key@ != (
            #[trigger] self.recs()[j]).key@
        &&& self.idx().len() == self.recs().len()
        &&& forall|i: int|
            0 <= i < self.recs().len() ==> (#[trigger] self.idx()[i]).0@ == self.recs()[i].key@
                && self.idx()[i].1.coords@ == self.recs()[i].embedding.coords@
                && self.idx()[i].1.wf()
        &&& 1 <= self.dim_spec() <= DIM_MAX as nat
    }

    /// An empty store whose provider embeds into `dim` dimensions.
    pub fn new(dim: usize) -> (r: EKFStorage)
        requires
            1 <= dim <= DIM_MAX,
        ensures
            r.wf(),
            r.recs().len() == 0,
            r.dim_spec() == dim,
    {
        EKFStorage {
            records: Vec::new(),
            vector_index: Vec::new(),
            embedder: HashEmbedder::new(dim),
        }
    }

    /// The number of stored records.
    pub fn len(&self) -> (r: usize)
        requires
            self.wf(),
        ensures
            r == self.recs().len(),
    {
        self.records.len()
    }

    /// The stored value for a key, if any.
    pub fn get(&self, key: &str) -> (r: Option<String>)
        requires
            self.wf(),
        ensures
            match r {
                Some(v) => exists|i: int|
                    0 <= i < self.recs().len() && (#[trigger] self.recs()[i]).key@ == key@
                        && self.recs()[i].value@ == v@,
                None => forall|i: int|
                    0 <= i < self.recs().len() ==> (#[trigger] self.recs()[i]).key@ != key@,
            },
    {
        let n = self.records.len();
        let mut i: usize = 0;
        while i < n
            invariant
                0 <= i <= n,
                n == self.recs().len(),
                self.wf(),
                forall|q: int| 0 <= q < i ==> (#[trigger] self.recs()[q]).key@ != key@,
            decreases n - i,
        {
            if crate::text::str_eq(self.records[i].key.as_str(), key) {
                return Some(self.records[i].value.clone());
            }
            i = i + 1;
        }
        None
    }

    /// Insert a record, embedding its value with the store's provider.
    pub fn insert_fact(&mut self, key: String, value: String, confidence_milli: u32)
        requires
            old(self).wf(),
            confidence_milli <= 1000,
        ensures
            final(self).wf(),
            final(self).dim_spec() == old(self).dim_spec(),
            final(self).recs().len() >= old(self).recs().len(),
            final(self).recs().len() <= old(self).recs().len() + 1,
            exists|i: int|
                0 <= i < final(self).recs().len() && (#[trigger] final(self).recs()[i]).key@ == key@
                    && final(self).recs()[i].value@ == value@,
            !has_key(old(self).recs(), key@) ==> {
                &&& final(self).recs().len() == old(self).recs().len() + 1
                &&& (forall|q: int|
                    0 <= q < old(self).recs().len() ==> #[trigger] final(self).recs()[q] == old(
                        self,
                    ).recs()[q])
                &&& record_matches(
                    final(self).recs()[old(self).recs().len() as int],
                    key@,
                    value@,
                    confidence_milli,
                    crate::embedding::embedding_of(value@, old(self).dim_spec()),
                )
            },
    {
        let embedding = self.embedder.embed(value.as_str());
        self.insert(key, value, confidence_milli, embedding);
    }

    /// Insert a record with an explicit embedding: a fresh key is appended
    /// to the durable records and the vector index together; an existing
    /// key has both its record and its index entry replaced in place.
    pub fn insert(&mut self, key: String, value: String, confidence_milli: u32, embedding: Embedding)
        requires
            old(self).wf(),
            confidence_milli <= 1000,
            embedding.wf(),
        ensures
            final(self).wf(),
            final(self).dim_spec() == old(self).dim_spec(),
            final(self).recs().len() >= old(self).recs().len(),
            final(self).recs().len() <= old(self).recs().len() + 1,
            exists|i: int|
                0 <= i < final(self).recs().len() && (#[trigger] final(self).recs()[i]).key@ == key@
                    && final(self).recs()[i].value@ == value@
                    && final(self).recs()[i].embedding.coords@ == embedding.coords@,
            has_key(old(self).recs(), key@) ==> {
                let j = choose|j: int|
                    0 <= j < old(self).recs().len() && (#[trigger] old(self).recs()[j]).key@
                        == key@;
                &&& final(self).recs().len() == old(self).recs().len()
                &&& (forall|q: int|
                    0 <= q < old(self).recs().len() && q != j ==> #[trigger] final(self).recs()[q]
                        == old(self).recs()[q])
                &&& record_matches(
                    final(self).recs()[j],
                    key@,
                    value@,
                    confidence_milli,
                    embedding.coords@,
                )
            },
            !has_key(old(self).recs(), key@) ==> {
                &&& final(self).recs().len() == old(self).recs().len() + 1
                &&& (forall|q: int|
                    0 <= q < old(self).recs().len() ==> #[trigger] final(self).recs()[q] == old(
                        self,
                    ).recs()[q])
                &&& record_matches(
                    final(self).recs()[old(self).recs().len() as int],
                    key@,
                    value@,
                    confidence_milli,
                    embedding.coords@,
                )
            },
    {
        let ghost emb0 = embedding;
        let n = self.records.len();
        let mut i: usize = 0;
        while i < n
            invariant
                0 <= i <= n,
                n == self.recs().len(),
                self.wf(),
                *self == *old(self),
                embedding == emb0,
                emb0.wf(),
                confidence_milli <= 1000,
                forall|q: int| 0 <= q < i ==> (#[trigger] self.recs()[q]).key@ != key@,
            decreases n - i,
        {
            if crate::text::str_eq(self.records[i].key.as_str(), key.as_str()) {
                let ghost recs0 = self.records@;
                let ghost idx0 = self.vector_index@;
                let entry_key = key.clone();
                let blob = KnowledgeBlob {
                    key,
                    value,
                    confidence_milli,
                    embedding: embedding.duplicate(),
                };
                self.records.set(i, blob);
                let entry = (entry_key, embedding);
                self.vector_index.set(i, entry);
                proof {
                    assert(self.recs()[i as int].key@ == recs0[i as int].key@);
                    assert(forall|q: int|
                        0 <= q < self.recs().len() && q != i ==> #[trigger] self.recs()[q]
                            == recs0[q]);
                    assert(forall|q: int|
                        0 <= q < self.idx().len() && q != i ==> #[trigger] self.idx()[q]
                            == idx0[q]);
                    assert(self.recs()[i as int].value@ == value@);
                    assert(self.recs()[i as int].confidence_milli == confidence_milli);
                    assert(self.recs()[i as int].embedding.coords@ == emb0.coords@);
                    assert(emb0.wf());
                    assert(coords_bounded(self.recs()[i as int].embedding.coords@));
                    assert(self.recs()[i as int].embedding.coords@.len() <= DIM_MAX);
                    assert(self.recs()[i as int].confidence_milli <= 1000);
                    assert(self.recs()[i as int].embedding.wf());
                    assert(self.recs()[i as int].wf());
                    assert(self.idx()[i as int].0@ == self.recs()[i as int].key@);
                    assert(self.idx()[i as int].1.coords@ == self.recs()[i as int].embedding.coords@);
                    assert(self.idx()[i as int].1.wf());
                    assert forall|p1: int, p2: int|
                        0 <= p1 < p2 < self.recs().len() implies (#[trigger] self.recs()[p1]).key@
                        != (#[trigger] self.recs()[p2]).key@ by {
                        assert(recs0[p1].key@ != recs0[p2].key@);
                        if p1 != i {
                            assert(self.recs()[p1] == recs0[p1]);
                        }
                        if p2 != i {
                            assert(self.recs()[p2] == recs0[p2]);
                        }
                    }
                    assert(recs0 == old(self).recs());
                    assert(recs0[i as int].key@ == key@);
                    assert(has_key(old(self).recs(), key@));
                    let j = choose|j: int|
                        0 <= j < old(self).recs().len() && (#[trigger] old(self).recs()[j]).key@
                            == key@;
                    assert(j == i) by {
                        if j < i {
                            assert(recs0[j].key@ != key@);
                        } else if j > i {
                            assert(recs0[i as int].key@ != recs0[j].key@);
                        }
                    }
                }
                return ;
            }
            i = i + 1;
        }
        let ghost recs0 = self.records@;
        let ghost idx0 = self.vector_index@;
        let entry_key = key.clone();
        let blob = KnowledgeBlob {
            key,
            value,
            confidence_milli,
            embedding: embedding.duplicate(),
        };
        self.records.push(blob);
        self.vector_index.push((entry_key, embedding));
        proof {
            assert(forall|q: int|
                0 <= q < recs0.len() ==> #[trigger] self.recs()[q] == recs0[q]);
            assert(forall|q: int|
                0 <= q < idx0.len() ==> #[trigger] self.idx()[q] == idx0[q]);
            assert(self.recs()[recs0.len() as int].key@ == key@);
            assert(recs0 == old(self).recs());
            assert(!has_key(old(self).recs(), key@)) by {
                if has_key(old(self).recs(), key@) {
                    let j = choose|j: int|
                        0 <= j < old(self).recs().len() && (#[trigger] old(self).recs()[j]).key@
                            == key@;
                    assert(recs0[j].key@ != key@);
                }
            }
        }
    }

    /// Pre-populate an empty store with the fixed seed facts, each embedded
    /// and persisted exactly once, in order.
    pub fn populate_initial_knowledge(&mut self)
        requires
            old(self).wf(),
            old(self).recs().len() == 0,
        ensures
            final(self).wf(),
            final(self).dim_spec() == old(self).dim_spec(),
            final(self).recs().len() == seed_facts().len(),
            forall|i: int|
                0 <= i < seed_facts().len() ==> record_matches(
                    #[trigger] final(self).recs()[i],
                    seed_facts()[i].0,
                    seed_facts()[i].1,
                    950,
                    crate::embedding::embedding_of(seed_facts()[i].1, old(self).dim_spec()),
                ),
    {
        let seeds: Vec<(&str, &str)> = vec![
            ("transformer", "Transformers are a deep learning architecture that relies on self-attention mechanisms."),
            ("attention", "Attention mechanisms allow a model to weigh the importance of different parts of the input sequence."),
            ("Rust", "Rust is a systems programming language focused on safety, speed, and concurrency."),
            ("unsupervised learning", "Unsupervised learning is a type of machine learning that looks for patterns in data without explicit labels."),
            ("supervised learning", "Supervised learning uses labeled data to train a model."),
            ("garbage collection", "Rust is not a garbage collected language and manages memory ownership at compile time."),
            ("bottleneck", "LLM inference is often bottlenecked by memory bandwidth, not just compute."),
            ("France capital", "The capital of France is Paris."),
            ("Paris", "Paris is known for its Eiffel Tower, Louvre Museum, and rich history."),
            ("car speed", "A bicycle is not the fastest car in the world."),
            ("fastest car", "The world's fastest cars are designed for high speeds, not cycling."),
        ];
        proof {
            assert(seeds@.len() == seed_facts().len());
            assert(seeds@[0].0@ == seed_facts()[0].0 && seeds@[0].1@ == seed_facts()[0].1);
            assert(seeds@[1].0@ == seed_facts()[1].0 && seeds@[1].1@ == seed_facts()[1].1);
            assert(seeds@[2].0@ == seed_facts()[2].0 && seeds@[2].1@ == seed_facts()[2].1);
            assert(seeds@[3].0@ == seed_facts()[3].0 && seeds@[3].1@ == seed_facts()[3].1);
            assert(seeds@[4].0@ == seed_facts()[4].0 && seeds@[4].1@ == seed_facts()[4].1);
            assert(seeds@[5].0@ == seed_facts()[5].0 && seeds@[5].1@ == seed_facts()[5].1);
            assert(seeds@[6].0@ == seed_facts()[6].0 && seeds@[6].1@ == seed_facts()[6].1);
            assert(seeds@[7].0@ == seed_facts()[7].0 && seeds@[7].1@ == seed_facts()[7].1);
            assert(seeds@[8].0@ == seed_facts()[8].0 && seeds@[8].1@ == seed_facts()[8].1);
            assert(seeds@[9].0@ == seed_facts()[9].0 && seeds@[9].1@ == seed_facts()[9].1);
            assert(seeds@[10].0@ == seed_facts()[10].0 && seeds@[10].1@ == seed_facts()[10].1);
        }
        let ghost dim0 = self.dim_spec();
        let mut k: usize = 0;
        while k < seeds.len()
            invariant
                0 <= k <= seeds@.len(),
                seeds@.len() == seed_facts().len(),
                forall|i: int|
                    0 <= i < seeds@.len() ==> (#[trigger] seeds@[i]).0@ == seed_facts()[i].0
                        && seeds@[i].1@ == seed_facts()[i].1,
                self.wf(),
                self.dim_spec() == dim0,
                self.recs().len() == k,
                forall|i: int|
                    0 <= i < k ==> record_matches(
                        #[trigger] self.recs()[i],
                        seed_facts()[i].0,
                        seed_facts()[i].1,
                        950,
                        crate::embedding::embedding_of(seed_facts()[i].1, dim0),
                    ),
            decreases seeds@.len() - k,
        {
            proof {
                lemma_seed_keys_distinct();
                assert forall|q: int| 0 <= q < self.recs().len() implies (
                #[trigger] self.recs()[q]).key@ != seeds@[k as int].0@ by {
                    assert(self.recs()[q].key@ == seed_facts()[q].0);
                    assert(seed_facts()[q].0 != seed_facts()[k as int].0);
                }
                lemma_fresh_key(self.recs(), seeds@[k as int].0@);
            }
            let (key, value) = seeds[k];
            self.insert_fact(key.to_owned(), value.to_owned(), 950);
            k = k + 1;
        }
    }

    /// The candidates a query ranks: for each index entry, its exact cosine
    /// similarity to the query embedding.
    pub open spec fn sim_at(self, e: Embedding, i: int) -> Similarity {
        spec_cosine(e, self.idx()[i].1)
    }

    /// Query the store with a prompt: the prompt is embedded with the
    /// store's hash-derived provider and the most relevant knowledge values
    /// are returned.
    pub fn query(&self, prompt: &str) -> (r: Vec<String>)
        requires
            self.wf(),
        ensures
            query_post(*self, prompt@, r.deep_view()),
    {
        let e = self.embedder.embed(prompt);
        self.query_with_embedding(&e)
    }

    /// Query with an explicit embedding: rank every index entry by cosine
    /// similarity, keep the top three, drop those at or below the relevance
    /// threshold, and return the surviving records' values in descending
    /// order of similarity.
    pub fn query_with_embedding(&self, e: &Embedding) -> (r: Vec<String>)
        requires
            self.wf(),
            e.wf(),
        ensures
            query_with_embedding_post(*self, *e, r.deep_view()),
    {
        let n = self.vector_index.len();
        let mut order: Vec<(usize, Similarity)> = Vec::new();
        let mut q: usize = 0;
        while q < n
            invariant
                0 <= q <= n,
                n == self.idx().len(),
                self.wf(),
                e.wf(),
                order@.len() == q,
                forall|a: int|
                    0 <= a < order@.len() ==> (#[trigger] order@[a]).0 < q && order@[a].1
                        == self.sim_at(*e, order@[a].0 as int) && order@[a].1.wf(),
                forall|p: int| 0 <= p < q ==> #[trigger] appears(order@, p),
                forall|a: int, b: int|
                    0 <= a < b < order@.len() ==> (#[trigger] order@[a]).0 != (
                    #[trigger] order@[b]).0,
                forall|a: int, b: int|
                    0 <= a < b < order@.len() ==> sim_ge(
                        (#[trigger] order@[a]).1,
                        (#[trigger] order@[b]).1,
                    ),
            decreases n - q,
        {
            let s = cosine_similarity(e, &self.vector_index[q].1);
            let mut p: usize = 0;
            while p < order.len() && sim_cmp_ge(&order[p].1, &s)
                invariant
                    0 <= p <= order@.len(),
                    e.wf(),
                    s.wf(),
                    forall|a: int| 0 <= a < order@.len() ==> (#[trigger] order@[a]).1.wf(),
                    forall|a: int| 0 <= a < p ==> sim_ge((#[trigger] order@[a]).1, s),
                decreases order@.len() - p,
            {
                p = p + 1;
            }
            proof {
                if p < order@.len() {
                    lemma_sim_ge_total(order@[p as int].1, s);
                }
            }
            let ghost before = order@;
            order.insert(p, (q, s));
            proof {
                assert(order@ == before.insert(p as int, (q, s)));
                assert forall|a: int, b: int| 0 <= a < b < order@.len() implies sim_ge(
                    (#[trigger] order@[a]).1,
                    (#[trigger] order@[b]).1,
                ) by {
                    let pa = if a < p {
                        a
                    } else {
                        a - 1
                    };
                    let pb = if b <= p {
                        b - 1
                    } else {
                        b - 1
                    };
                    if a == p {
                        if b > p {
                            assert(order@[b] == before[b - 1]);
                            if p < before.len() {
                                if b - 1 > p {
                                    lemma_sim_ge_transitive(s, before[p as int].1, before[b - 1].1);
                                }
                            }
                        }
                    } else if b == p {
                        assert(order@[a] == before[a]);
                    } else if a < p && b < p {
                        assert(order@[a] == before[a]);
                        assert(order@[b] == before[b]);
                    } else if a < p {
                        assert(order@[a] == before[a]);
                        assert(order@[b] == before[b - 1]);
                        if b - 1 == a {
                            lemma_sim_ge_transitive(before[a].1, s, s);
                        }
                    } else {
                        assert(order@[a] == before[a - 1]);
                        assert(order@[b] == before[b - 1]);
                    }
                }
                assert forall|pp: int| 0 <= pp < q + 1 implies #[trigger] appears(
                    order@,
                    pp,
                ) by {
                    if pp == q {
                        assert(order@[p as int].0 == pp);
                    } else {
                        assert(appears(before, pp));
                        let w = choose|a: int| 0 <= a < before.len() && (#[trigger] before[a]).0
                            == pp;
                        if w < p {
                            assert(order@[w].0 == pp);
                        } else {
                            assert(order@[w + 1].0 == pp);
                        }
                    }
                }
            }
            q = q + 1;
        }
        let take_n = if order.len() < 3 {
            order.len()
        } else {
            3
        };
        let mut results: Vec<String> = Vec::new();
        let ghost mut ids: Seq<int> = Seq::empty();
        let mut a: usize = 0;
        while a < take_n
            invariant
                0 <= a <= take_n,
                take_n <= 3,
                take_n <= order@.len(),
                order@.len() == n,
                n == self.idx().len(),
                self.wf(),
                e.wf(),
                forall|x: int|
                    0 <= x < order@.len() ==> (#[trigger] order@[x]).0 < n && order@[x].1
                        == self.sim_at(*e, order@[x].0 as int) && order@[x].1.wf(),
                forall|x: int, y: int|
                    0 <= x < y < order@.len() ==> sim_ge(
                        (#[trigger] order@[x]).1,
                        (#[trigger] order@[y]).1,
                    ),
                forall|x: int, y: int|
                    0 <= x < y < order@.len() ==> (#[trigger] order@[x]).0 != (
                    #[trigger] order@[y]).0,
                forall|p: int| 0 <= p < n ==> #[trigger] appears(order@, p),
                results.deep_view().len() == ids.len(),
                ids.len() <= a,
                forall|x: int, y: int| 0 <= x < y < ids.len() ==> ids[x] != ids[y],
                forall|x: int|
                    0 <= x < ids.len() ==> 0 <= #[trigger] ids[x] < self.recs().len(),
                forall|x: int|
                    0 <= x < ids.len() ==> #[trigger] results.deep_view()[x] == self.recs()[ids[x]].value@,
                forall|x: int|
                    0 <= x < ids.len() ==> self.sim_at(*e, #[trigger] ids[x]).exceeds_threshold_spec(),
                forall|x: int, y: int|
                    0 <= x < y < ids.len() ==> sim_ge(
                        self.sim_at(*e, #[trigger] ids[x]),
                        self.sim_at(*e, #[trigger] ids[y]),
                    ),
                // every considered position either entered the results or
                // fell at or below the threshold
                forall|x: int|
                    0 <= x < a ==> (#[trigger] order@[x]).1.exceeds_threshold_spec() ==> exists|y: int|
                        0 <= y < ids.len() && ids[y] == order@[x].0,
                // every returned id comes from a considered candidate
                forall|x: int|
                    0 <= x < ids.len() ==> #[trigger] from_prefix(order@, a as int, ids[x]),
            decreases take_n - a,
        {
            let (qi, s) = order[a];
            if s.exceeds_threshold() {
                let ghost dv0 = results.deep_view();
                let ghost ids0 = ids;
                results.push(self.records[qi].value.clone());
                proof {
                    assert(results.deep_view() =~= dv0.push(self.recs()[qi as int].value@));
                    ids = ids.push(qi as int);
                    assert(order@[a as int].0 == qi && order@[a as int].1 == s);
                    assert forall|x: int| 0 <= x < ids0.len() implies #[trigger] ids0[x] != qi
                        as int && sim_ge(self.sim_at(*e, ids0[x]), self.sim_at(*e, qi as int)) by {
                        assert(from_prefix(order@, a as int, ids0[x]));
                        let ox = choose|ox: int|
                            0 <= ox < a && (#[trigger] order@[ox]).0 == ids0[x];
                        assert(order@[ox].0 != order@[a as int].0);
                        assert(order@[ox].1 == self.sim_at(*e, ids0[x]));
                        assert(sim_ge(order@[ox].1, order@[a as int].1));
                    }
                    assert forall|x: int| 0 <= x < ids.len() implies #[trigger] from_prefix(
                        order@,
                        a + 1,
                        ids[x],
                    ) by {
                        if x < ids0.len() {
                            assert(from_prefix(order@, a as int, ids0[x]));
                            let ox = choose|ox: int|
                                0 <= ox < a && (#[trigger] order@[ox]).0 == ids0[x];
                            assert(order@[ox].0 == ids[x]);
                        } else {
                            assert(order@[a as int].0 == ids[x]);
                        }
                    }
                    assert forall|x: int|
                        0 <= x < a + 1 && (#[trigger] order@[x]).1.exceeds_threshold_spec() implies exists|y: int|
                        0 <= y < ids.len() && ids[y] == order@[x].0 by {
                        if x < a {
                            let y0 = choose|y: int|
                                0 <= y < ids0.len() && ids0[y] == order@[x].0;
                            assert(ids[y0] == order@[x].0);
                        } else {
                            assert(ids[ids.len() - 1] == order@[x].0);
                        }
                    }
                }
            } else {
                proof {
                    assert forall|x: int| 0 <= x < ids.len() implies #[trigger] from_prefix(
                        order@,
                        a + 1,
                        ids[x],
                    ) by {
                        assert(from_prefix(order@, a as int, ids[x]));
                        let ox = choose|ox: int| 0 <= ox < a && (#[trigger] order@[ox]).0 == ids[x];
                        assert(order@[ox].0 == ids[x]);
                    }
                }
            }
            a = a + 1;
        }
        proof {
            lemma_query_completeness(*self, *e, order@, ids, take_n as int);
            lemma_query_dominance(*self, *e, order@, ids, take_n as int);
            assert(query_witness(*self, *e, results.deep_view(), ids));
            assert(query_with_embedding_post(*self, *e, results.deep_view()));
        }
        results
    }
}

/// Whether some candidate in `order` carries index position `p`.
pub open spec fn appears(order: Seq<(usize, Similarity)>, p: int) -> bool {
    exists|x: int| 0 <= x < order.len() && (#[trigger] order[x]).0 == p
}

/// Whether one of the first `a` candidates in `order` carries index
/// position `id`.
pub open spec fn from_prefix(order: Seq<(usize, Similarity)>, a: int, id: int) -> bool {
    exists|ox: int| 0 <= ox < a && (#[trigger] order[ox]).0 == id
}

/// Whether index position `p` is among the returned positions.
pub open spec fn id_in(ids: Seq<int>, p: int) -> bool {
    exists|z: int| 0 <= z < ids.len() && #[trigger] ids[z] == p
}

/// What a query returns: at most three values, each the value of a distinct
/// record whose similarity to the query embedding strictly exceeds the
/// threshold, in descending order of similarity; an empty index yields no
/// values; every returned value ranks at least as high as anything left
/// out; and a value is left out only when three better ones were returned.
pub open spec fn query_with_embedding_post(st: EKFStorage, e: Embedding, out: Seq<Seq<char>>) -> bool {
    exists|ids: Seq<int>| query_witness(st, e, out, ids)
}

/// The witness behind `query_with_embedding_post`.
pub open spec fn query_witness(st: EKFStorage, e: Embedding, out: Seq<Seq<char>>, ids: Seq<int>) -> bool {
    &&& out.len() <= 3
    &&& ids.len() == out.len()
    &&& (forall|x: int, y: int| 0 <= x < y < ids.len() ==> ids[x] != ids[y])
    &&& (forall|x: int| 0 <= x < ids.len() ==> 0 <= #[trigger] ids[x] < st.recs().len())
    &&& (forall|x: int| 0 <= x < ids.len() ==> #[trigger] out[x] == st.recs()[ids[x]].value@)
    &&& (forall|x: int|
        0 <= x < ids.len() ==> st.sim_at(e, #[trigger] ids[x]).exceeds_threshold_spec())
    &&& (forall|x: int, y: int|
        0 <= x < y < ids.len() ==> sim_ge(
            st.sim_at(e, #[trigger] ids[x]),
            st.sim_at(e, #[trigger] ids[y]),
        ))
    &&& (forall|y: int, p: int|
        #![trigger ids[y], st.sim_at(e, p)]
        0 <= y < ids.len() && 0 <= p < st.idx().len() && !id_in(ids, p) ==> sim_ge(
            st.sim_at(e, ids[y]),
            st.sim_at(e, p),
        ))
    &&& (out.len() < 3 ==> forall|p: int|
        0 <= p < st.idx().len() && st.sim_at(e, p).exceeds_threshold_spec() ==> exists|y: int|
            0 <= y < ids.len() && ids[y] == p)
}

/// What `query` returns for a prompt: the post of a query with the
/// hash-derived embedding of the prompt. The embedding is pinned by its
/// coordinates, and the post depends on nothing else of it.
pub open spec fn query_post(st: EKFStorage, prompt: Seq<char>, out: Seq<Seq<char>>) -> bool {
    exists|e: Embedding|
        (#[trigger] e.coords@) == crate::embedding::embedding_of(prompt, st.dim_spec())
            && query_with_embedding_post(st, e, out)
}

/// If fewer than three values were returned, nothing relevant was missed:
/// every index entry above the threshold is among the returned ones.
proof fn lemma_query_completeness(
    st: EKFStorage,
    e: Embedding,
    order: Seq<(usize, Similarity)>,
    ids: Seq<int>,
    take_n: int,
)
    requires
        st.wf(),
        e.wf(),
        order.len() == st.idx().len(),
        take_n == if order.len() < 3 { order.len() as int } else { 3int },
        forall|x: int|
            0 <= x < order.len() ==> (#[trigger] order[x]).0 < order.len() && order[x].1
                == st.sim_at(e, order[x].0 as int) && order[x].1.wf(),
        forall|x: int, y: int|
            0 <= x < y < order.len() ==> sim_ge((#[trigger] order[x]).1, (#[trigger] order[y]).1),
        forall|p: int| 0 <= p < order.len() ==> #[trigger] appears(order, p),
        forall|x: int, y: int|
            0 <= x < y < order.len() ==> (#[trigger] order[x]).0 != (#[trigger] order[y]).0,
        forall|x: int|
            0 <= x < take_n ==> (#[trigger] order[x]).1.exceeds_threshold_spec() ==> exists|y: int|
                0 <= y < ids.len() && ids[y] == order[x].0,
        forall|x: int, y: int| 0 <= x < y < ids.len() ==> ids[x] != ids[y],
        ids.len() <= take_n,
    ensures
        ids.len() < 3 ==> forall|p: int|
            0 <= p < st.idx().len() && st.sim_at(e, p).exceeds_threshold_spec() ==> exists|y: int|
                0 <= y < ids.len() && ids[y] == p,
{
    if ids.len() < 3 {
        assert forall|p: int|
            0 <= p < st.idx().len() && st.sim_at(e, p).exceeds_threshold_spec() implies exists|y: int|
            0 <= y < ids.len() && ids[y] == p by {
            assert(appears(order, p));
            let x = choose|x: int| 0 <= x < order.len() && (#[trigger] order[x]).0 == p;
            assert(order[x].1 == st.sim_at(e, p));
            if x < take_n {
                assert(exists|y: int| 0 <= y < ids.len() && ids[y] == order[x].0);
            } else {
                // every one of the first three candidates ranks at least as
                // high as this one, so all of them exceed the threshold and
                // all three were returned — contradicting ids.len() < 3
                assert(take_n == 3);
                assert forall|w: int| 0 <= w < 3 implies (#[trigger] order[w]).1.exceeds_threshold_spec() by {
                    assert(sim_ge(order[w].1, order[x].1));
                    lemma_exceeds_monotone(order[w].1, order[x].1);
                }
                lemma_distinct_ids_count(order, ids, take_n);
                assert(false);
            }
        }
    }
}

/// Every returned position ranks at least as high as every index position
/// left out: a returned value came from the considered prefix of the
/// descending order, and anything left out either sits behind that prefix
/// or fell at the threshold below every returned candidate.
proof fn lemma_query_dominance(
    st: EKFStorage,
    e: Embedding,
    order: Seq<(usize, Similarity)>,
    ids: Seq<int>,
    take_n: int,
)
    requires
        st.wf(),
        e.wf(),
        order.len() == st.idx().len(),
        0 <= take_n <= order.len(),
        forall|x: int|
            0 <= x < order.len() ==> (#[trigger] order[x]).0 < order.len() && order[x].1
                == st.sim_at(e, order[x].0 as int) && order[x].1.wf(),
        forall|x: int, y: int|
            0 <= x < y < order.len() ==> sim_ge((#[trigger] order[x]).1, (#[trigger] order[y]).1),
        forall|p: int| 0 <= p < order.len() ==> #[trigger] appears(order, p),
        forall|x: int, y: int|
            0 <= x < y < order.len() ==> (#[trigger] order[x]).0 != (#[trigger] order[y]).0,
        forall|x: int|
            0 <= x < take_n ==> (#[trigger] order[x]).1.exceeds_threshold_spec() ==> exists|y: int|
                0 <= y < ids.len() && ids[y] == order[x].0,
        forall|y: int| 0 <= y < ids.len() ==> #[trigger] from_prefix(order, take_n, ids[y]),
        forall|y: int|
            0 <= y < ids.len() ==> st.sim_at(e, #[trigger] ids[y]).exceeds_threshold_spec(),
    ensures
        forall|y: int, p: int|
            #![trigger ids[y], st.sim_at(e, p)]
            0 <= y < ids.len() && 0 <= p < st.idx().len() && !id_in(ids, p) ==> sim_ge(
                st.sim_at(e, ids[y]),
                st.sim_at(e, p),
            ),
{
    assert forall|y: int, p: int|
        0 <= y < ids.len() && 0 <= p < st.idx().len() && !id_in(ids, p) implies sim_ge(
        st.sim_at(e, #[trigger] ids[y]),
        #[trigger] st.sim_at(e, p),
    ) by {
        assert(from_prefix(order, take_n, ids[y]));
        let oy = choose|ox: int| 0 <= ox < take_n && (#[trigger] order[ox]).0 == ids[y];
        assert(appears(order, p));
        let x = choose|x: int| 0 <= x < order.len() && (#[trigger] order[x]).0 == p;
        assert(order[oy].1 == st.sim_at(e, ids[y]));
        assert(order[x].1 == st.sim_at(e, p));
        assert(ids[y] != p) by {
            if ids[y] == p {
                assert(id_in(ids, p));
            }
        }
        assert(oy != x);
        if x >= take_n {
            assert(sim_ge(order[oy].1, order[x].1));
        } else {
            assert(!order[x].1.exceeds_threshold_spec()) by {
                if order[x].1.exceeds_threshold_spec() {
                    let z = choose|z: int| 0 <= z < ids.len() && ids[z] == order[x].0;
                    assert(ids[z] == p);
                    assert(id_in(ids, p));
                }
            }
            if oy < x {
                assert(sim_ge(order[oy].1, order[x].1));
            } else {
                // a candidate ahead of a returned one in the descending
                // order ranks at least as high, so it would exceed the
                // threshold too and could not have been left out
                assert(sim_ge(order[x].1, order[oy].1));
                lemma_exceeds_monotone(order[x].1, order[oy].1);
            }
        }
    }
}

/// If each of the first three candidates is returned and returned positions
/// are distinct, at least three were returned.
proof fn lemma_distinct_ids_count(order: Seq<(usize, Similarity)>, ids: Seq<int>, take_n: int)
    requires
        take_n == 3,
        order.len() >= 3,
        forall|x: int|
            0 <= x < take_n ==> (#[trigger] order[x]).1.exceeds_threshold_spec() ==> exists|y: int|
                0 <= y < ids.len() && ids[y] == order[x].0,
        forall|w: int| 0 <= w < 3 ==> (#[trigger] order[w]).1.exceeds_threshold_spec(),
        forall|x: int, y: int| 0 <= x < y < ids.len() ==> ids[x] != ids[y],
        forall|x: int, y: int|
            0 <= x < y < order.len() ==> (#[trigger] order[x]).0 != (#[trigger] order[y]).0,
    ensures
        ids.len() >= 3,
{
    let y0 = choose|y: int| 0 <= y < ids.len() && ids[y] == order[0].0;
    let y1 = choose|y: int| 0 <= y < ids.len() && ids[y] == order[1].0;
    let y2 = choose|y: int| 0 <= y < ids.len() && ids[y] == order[2].0;
    assert(order[0].0 != order[1].0 && order[0].0 != order[2].0 && order[1].0 != order[2].0);
    assert(y0 != y1 && y0 != y2 && y1 != y2);
}

} // verus!
