//! Incremental knowledge-graph construction from a text-generation service.
//!
//! The crate holds the verified core of the system: a streaming response
//! decoder that reassembles a chunked, line-delimited event stream into one
//! text answer, a tolerant extractor that recovers a JSON array of insight
//! records from noisy text, an additive knowledge graph with idempotent merge
//! semantics, and the worklist logic that drives exploration of newly
//! discovered concepts. Network transport, the interactive prompt and the
//! final file output live outside the library and hand it plain values.

pub mod graph;
pub mod decoder;
pub mod explore;
pub mod insight;
pub mod prompts;
pub mod render;
