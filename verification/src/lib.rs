//! Decoder for a compact, reference-based JSON encoding.
//!
//! An encoded document is a flat table of "chunks" (raw JSON values) in
//! which a number stands for "the chunk at this index", negative indices
//! count from the end of the table, and out-of-band patch lines may append
//! chunks and rewire placeholder arrays.  Decoding resolves chunk 0 into a
//! fully dereferenced JSON value.

pub mod json;
pub mod scan;
pub mod parse;
pub mod decode;
pub mod encode;
pub mod laws;

pub use json::{JVal, Json};
pub use decode::{DecodeError, Decoder, apply_patch_line, decode_document, resolve_index};
