//! Context layer of a transcript-attestation toolchain.
//!
//! Given the authenticated byte transcript of an HTTP conversation together
//! with the byte ranges that are actually authenticated, this library parses
//! the transcript into span-bearing HTTP and JSON trees (redacted regions
//! surface as explicit nodes), enforces an operator-supplied structure
//! template against the parsed candidate, plans the byte ranges whose
//! commitment establishes the declared structure, and emits a canonical
//! record of the revealed context.

pub mod ranges;
pub mod span;
pub mod transcript;
pub mod errors;
pub mod json;
pub mod json_parse;
pub mod json_enforce;
pub mod json_commit;
pub mod http;
pub mod http_parse;
pub mod http_transcript;
pub mod json_context;
pub mod http_context;
pub mod http_enforce;
pub mod laws;
