use optimacore::embedding::Embedding;
use optimacore::embedding::HashEmbedder;
use optimacore::embedding::cosine_similarity;
use optimacore::embedding::sim_cmp_ge;

fn emb(coords: Vec<i64>) -> Embedding {
    Embedding { coords }
}

#[test]
fn self_similarity_of_nonzero_vector_is_one() {
    let v = emb(vec![3, 4, 0, -5]);
    let s = cosine_similarity(&v, &v);
    assert!(s.is_one());
    assert!(!s.is_zero());
}

#[test]
fn mismatched_lengths_yield_zero() {
    let v = emb(vec![1, 2, 3]);
    let w = emb(vec![1, 2]);
    let s = cosine_similarity(&v, &w);
    assert!(s.is_zero());
    assert!(!s.is_one());
}

#[test]
fn all_zero_vector_yields_zero() {
    let v = emb(vec![0, 0, 0]);
    let w = emb(vec![1, 2, 3]);
    assert!(cosine_similarity(&v, &w).is_zero());
    assert!(cosine_similarity(&w, &v).is_zero());
    assert!(cosine_similarity(&v, &v).is_zero());
}

#[test]
fn empty_vectors_yield_zero() {
    let v = emb(vec![]);
    assert!(cosine_similarity(&v, &v).is_zero());
}

#[test]
fn threshold_is_strict() {
    // parallel vectors: similarity one, above the threshold
    let v = emb(vec![10, 0]);
    let w = emb(vec![5, 0]);
    assert!(cosine_similarity(&v, &w).exceeds_threshold());
    // orthogonal vectors: similarity zero, below the threshold
    let o = emb(vec![0, 7]);
    assert!(!cosine_similarity(&v, &o).exceeds_threshold());
    // 3-4-5 triangle: similarity exactly 0.6 does not exceed the threshold
    let a = emb(vec![1, 0]);
    let b = emb(vec![3, 4]);
    assert!(!cosine_similarity(&a, &b).exceeds_threshold());
}

#[test]
fn ranking_order_is_consistent() {
    let q = emb(vec![10, 0]);
    let close = cosine_similarity(&q, &emb(vec![9, 1]));
    let far = cosine_similarity(&q, &emb(vec![1, 9]));
    let negative = cosine_similarity(&q, &emb(vec![-10, 0]));
    assert!(sim_cmp_ge(&close, &far));
    assert!(!sim_cmp_ge(&far, &close));
    assert!(sim_cmp_ge(&far, &negative));
    assert!(sim_cmp_ge(&close, &close));
}

#[test]
fn hash_embedder_is_deterministic_and_bounded() {
    let e = HashEmbedder::new(16);
    assert_eq!(e.dim(), 16);
    let a = e.embed("some text");
    let b = e.embed("some text");
    let c = e.embed("other text");
    assert_eq!(a.coords, b.coords);
    assert_eq!(a.coords.len(), 16);
    assert_ne!(a.coords, c.coords);
    for x in a.coords.iter() {
        assert!(-512 <= *x && *x <= 512);
    }
}
