//! Indexing and retrieval engine for a local library of AI-generated images.
//!
//! The crate covers the four core components of the gallery backend:
//! generation-metadata parsing, directory-scan support (PNG text chunks and
//! content fingerprints), the searchable storage engine with keyset
//! pagination, and the thumbnail cache engine.

use vstd::prelude::*;

pub mod forge;
pub mod json;
pub mod parser;
pub mod query;
pub mod scan;
pub mod scanner;
pub mod search;
pub mod sidecar;
pub mod store;
pub mod tags;
pub mod text;
pub mod thumbs;

verus! {

/// Storage profile selecting conservative (spinning disk) or aggressive
/// (solid state) concurrency settings.
#[derive(Debug, Clone, Copy, PartialEq, Eq, Structural)]
pub enum StorageProfile {
    Hdd,
    Ssd,
}

} // verus!
