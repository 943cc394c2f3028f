use optimacore::hhtc::HHTCEngine;
use optimacore::digest::chunk_fingerprint;

#[test]
fn empty_text_yields_ratio_one() {
    let mut engine = HHTCEngine::new(16, 100, 16);
    let (out, ratio) = engine.compress("");
    assert_eq!(out, "");
    assert!(ratio.is_one());
}

#[test]
fn whitespace_only_text_yields_ratio_one() {
    let mut engine = HHTCEngine::new(16, 100, 16);
    let (out, ratio) = engine.compress("   \t \n ");
    assert_eq!(out, "");
    assert!(ratio.is_one());
}

#[test]
fn cold_cache_unique_chunks_ratio_one_and_identity_output() {
    let mut engine = HHTCEngine::new(2, 100, 16);
    let (out, ratio) = engine.compress("alpha beta gamma delta epsilon");
    assert_eq!(out, "alpha beta gamma delta epsilon");
    assert!(ratio.is_one());
    assert_eq!(ratio.emitted, 5);
    assert_eq!(ratio.total, 5);
}

#[test]
fn output_normalizes_whitespace() {
    let mut engine = HHTCEngine::new(4, 100, 16);
    let (out, ratio) = engine.compress("  alpha \t beta\n gamma  ");
    assert_eq!(out, "alpha beta gamma");
    assert!(ratio.is_one());
}

#[test]
fn second_pass_hits_cache_and_never_does_worse() {
    let mut engine = HHTCEngine::new(2, 100, 16);
    let text = "alpha beta gamma delta epsilon zeta";
    let (_, first) = engine.compress(text);
    let (out, second) = engine.compress(text);
    assert_eq!(first.total, 6);
    assert_eq!(second.total, 6);
    // three chunks of two tokens, all hits: one reference token each
    assert_eq!(second.emitted, 3);
    assert!(second.emitted * first.total <= first.emitted * second.total);
    assert!(out.starts_with('#'));
}

#[test]
fn eviction_makes_room_and_forgets_least_recent() {
    let mut engine = HHTCEngine::new(8, 1, 16);
    engine.compress("alpha");
    assert!(engine.contains_chunk("alpha"));
    engine.compress("beta");
    assert!(!engine.contains_chunk("alpha"));
    assert!(engine.contains_chunk("beta"));
    // the evicted chunk misses again and is emitted in full
    let (out, ratio) = engine.compress("alpha");
    assert_eq!(out, "alpha");
    assert!(ratio.is_one());
}

#[test]
fn least_recently_touched_entry_is_the_one_evicted() {
    let mut engine = HHTCEngine::new(8, 2, 16);
    engine.compress("alpha");
    engine.compress("beta");
    // touch alpha so beta becomes least recently used
    engine.compress("alpha");
    engine.compress("gamma");
    assert!(engine.contains_chunk("alpha"));
    assert!(!engine.contains_chunk("beta"));
    assert!(engine.contains_chunk("gamma"));
}

#[test]
fn cache_never_exceeds_capacity() {
    let mut engine = HHTCEngine::new(1, 3, 16);
    engine.compress("one two three four five six seven");
    assert!(engine.cache_len() <= engine.capacity());
    assert_eq!(engine.capacity(), 3);
}

#[test]
fn cached_payload_is_the_deflate_of_the_chunk_text() {
    let mut engine = HHTCEngine::new(16, 10, 16);
    engine.compress("hello world");
    let state = engine.cached_state("hello world").expect("chunk should be cached");
    let mut enc = flate2::write::DeflateEncoder::new(Vec::new(), flate2::Compression::default());
    std::io::Write::write_all(&mut enc, "hello world".as_bytes()).unwrap();
    let expected = enc.finish().unwrap();
    assert_eq!(state.compressed_kv, expected);
    assert_ne!(state.compressed_kv, "hello world".as_bytes());
    assert_eq!(state.embedding.len(), 16);
}

#[test]
fn fingerprint_is_stable_and_content_derived() {
    assert_eq!(chunk_fingerprint("abc"), chunk_fingerprint("abc"));
    assert_ne!(chunk_fingerprint("abc"), chunk_fingerprint("abd"));
    let digest = blake3::hash("abc".as_bytes());
    let first: [u8; 8] = digest.as_bytes()[0..8].try_into().unwrap();
    assert_eq!(chunk_fingerprint("abc"), u64::from_le_bytes(first));
}
