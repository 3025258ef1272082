//! A verified append-only co-store for embedding vectors and record
//! metadata, together with the request-orchestration rules built on
//! top of it: single insert, bulk insert with per-item failure
//! reporting, and search-hit resolution.
//!
//! Vectors are handled as sequences of 32-bit words (the bit patterns
//! of the embedding's fixed-width entries); metadata records are kept
//! as one canonically encoded JSON line each, positionally aligned
//! with the vector log through an offset table.

pub mod codec;
pub mod error;
pub mod record;
pub mod reviews;
pub mod store;
pub mod text;
