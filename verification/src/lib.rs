//! Verified core of a prompt-compression pipeline: chunk-level deduplication
//! against a bounded least-recently-used cache, a vector-similarity knowledge
//! store over fixed-point embeddings, reflection trimming and contradiction
//! rollback, and an orchestrator that accumulates running statistics.
//!
//! External collaborators (the embedding model, the generation service, the
//! scoring oracles, telemetry) enter the library as plain values; everything
//! the library decides or computes from them is verified.

pub mod cache;
pub mod digest;
pub mod ekf;
pub mod embedding;
pub mod gpu_monitor;
pub mod hhtc;
pub mod llm;
pub mod pipeline;
pub mod ratio;
pub mod rollback;
pub mod text;
