//! Errors of the chunkers' configuration and of the embedding backend.
use vstd::prelude::*;

verus! {

/// Errors that can occur when configuring or running a chunker.
#[derive(Debug, Clone, PartialEq, Eq)]
pub enum Error {
    /// Invalid chunk size (must be > 0).
    InvalidChunkSize(usize),
    /// Overlap is not smaller than the chunk size.
    OverlapExceedsSize { size: usize, overlap: usize },
    /// Semantic chunking is not available in this build.
    SemanticFeatureRequired,
    /// The embedding backend failed.
    Embedding(String),
}

} // verus!
