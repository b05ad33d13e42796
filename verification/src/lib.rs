//! A personal e-book catalog: a verified sync pipeline and hybrid
//! search/storage engine.
//!
//! The library ingests normalized book records, tracks bibliographic
//! enrichment fetched from an external catalog, prepares fixed-length
//! vector embeddings for semantic search, and builds the injection-safe
//! dynamic queries that drive lexical and substring retrieval.

use vstd::prelude::*;

pub mod catalog;
pub mod embed;
pub mod enrich;
pub mod import;
pub mod ingest;
pub mod json;
pub mod query;
pub mod sync;
pub mod text;
pub mod types;
pub mod vector;

verus! {

/// The fixed dimension of every stored embedding vector.
pub const EMBEDDING_DIM: usize = 768;

} // verus!
