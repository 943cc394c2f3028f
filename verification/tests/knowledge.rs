use optimacore::ekf::EKFStorage;
use optimacore::embedding::Embedding;

fn emb(coords: Vec<i64>) -> Embedding {
    Embedding { coords }
}

#[test]
fn empty_store_returns_no_results() {
    let store = EKFStorage::new(16);
    assert_eq!(store.len(), 0);
    let results = store.query("anything at all");
    assert!(results.is_empty());
}

#[test]
fn query_returns_at_most_three_results_sorted_by_similarity() {
    let mut store = EKFStorage::new(4);
    store.insert("a".to_string(), "fact a".to_string(), 900, emb(vec![10, 0, 0, 0]));
    store.insert("b".to_string(), "fact b".to_string(), 900, emb(vec![9, 1, 0, 0]));
    store.insert("c".to_string(), "fact c".to_string(), 900, emb(vec![8, 2, 0, 0]));
    store.insert("d".to_string(), "fact d".to_string(), 900, emb(vec![7, 3, 0, 0]));
    store.insert("e".to_string(), "fact e".to_string(), 900, emb(vec![0, 0, 9, 0]));
    assert_eq!(store.len(), 5);
    let q = emb(vec![10, 0, 0, 0]);
    let results = store.query_with_embedding(&q);
    assert_eq!(results.len(), 3);
    assert_eq!(results[0], "fact a");
    assert_eq!(results[1], "fact b");
    assert_eq!(results[2], "fact c");
}

#[test]
fn results_below_threshold_are_dropped() {
    let mut store = EKFStorage::new(2);
    store.insert("x".to_string(), "irrelevant".to_string(), 900, emb(vec![0, 5]));
    store.insert("y".to_string(), "relevant".to_string(), 900, emb(vec![5, 0]));
    let results = store.query_with_embedding(&emb(vec![7, 0]));
    assert_eq!(results, vec!["relevant".to_string()]);
}

#[test]
fn inserting_an_existing_key_replaces_its_record() {
    let mut store = EKFStorage::new(2);
    store.insert("k".to_string(), "old".to_string(), 500, emb(vec![1, 0]));
    store.insert("k".to_string(), "new".to_string(), 700, emb(vec![1, 0]));
    assert_eq!(store.len(), 1);
    assert_eq!(store.get("k"), Some("new".to_string()));
    assert_eq!(store.get("missing"), None);
}

#[test]
fn seeded_store_holds_the_initial_facts() {
    let mut store = EKFStorage::new(16);
    store.populate_initial_knowledge();
    assert_eq!(store.len(), 11);
    assert_eq!(
        store.get("France capital"),
        Some("The capital of France is Paris.".to_string())
    );
    assert_eq!(
        store.get("Rust"),
        Some(
            "Rust is a systems programming language focused on safety, speed, and concurrency."
                .to_string()
        )
    );
}

#[test]
fn query_finds_a_stored_value_by_its_own_text() {
    let mut store = EKFStorage::new(16);
    store.insert_fact("solo".to_string(), "a singular fact".to_string(), 950);
    // the hash-derived provider embeds equal texts equally, so querying with
    // the stored text itself is a perfect match
    let results = store.query("a singular fact");
    assert_eq!(results, vec!["a singular fact".to_string()]);
}
