//! Trusted bridges to the content-hash and byte-compression crates.
//!
//! Both calls are pure functions of their input text, so each result is
//! given a name that the rest of the library reasons with.

use vstd::prelude::*;

verus! {

/// The 64-bit content hash of a text: the first eight bytes of its blake3
/// digest, read little-endian. A function of the characters alone.
pub uninterp spec fn hash_of(s: Seq<char>) -> u64;

/// Relies on `blake3::hash`: the digest is a deterministic function of the
/// input bytes alone, and `Hash::as_bytes` exposes its 32 bytes.
#[verifier::external_body]
pub(crate) fn chunk_hash_raw(text: &str) -> (r: u64)
    ensures
        r == hash_of(text@),
{
    let digest = blake3::hash(text.as_bytes());
    let first: [u8; 8] = digest.as_bytes()[0..8].try_into().unwrap();
    u64::from_le_bytes(first)
}

/// The 64-bit content hash of a text, used as the cache key of a chunk.
pub fn chunk_fingerprint(text: &str) -> (r: u64)
    ensures
        r == hash_of(text@),
{
    chunk_hash_raw(text)
}

/// The raw-deflate compression of a text's bytes at the default level:
/// a function of the characters alone.
pub uninterp spec fn deflate_of(s: Seq<char>) -> Seq<u8>;

/// Relies on `flate2::write::DeflateEncoder`: raw deflate at the default
/// level is a deterministic function of the input bytes. Writing into a
/// `Vec` sink cannot fail, so the two unwraps never fire.
#[verifier::external_body]
pub(crate) fn deflate_text(text: &str) -> (r: Vec<u8>)
    ensures
        r@ == deflate_of(text@),
{
    let mut enc = flate2::write::DeflateEncoder::new(Vec::new(), flate2::Compression::default());
    std::io::Write::write_all(&mut enc, text.as_bytes()).unwrap();
    enc.finish().unwrap()
}

} // verus!
