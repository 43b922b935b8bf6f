//! Text chunking for retrieval pipelines.
//!
//! A document is split into bounded fragments ("slabs"), each carrying its
//! byte span in the source. Offsets are byte offsets and never fall inside a
//! multi-byte character.
use vstd::prelude::*;

pub mod capacity;
pub mod code;
pub mod error;
pub mod fixed;
pub mod late;
pub mod model;
pub mod recursive;
pub mod semantic;
pub mod sentence;
pub mod slab;
pub mod text;

pub use capacity::{ChunkCapacity, ChunkCapacityError};
pub use code::{CodeChunker, CodeChunkerError, CodeLanguage};
pub use error::Error;
pub use fixed::FixedChunker;
pub use late::{LateChunker, LateChunkingPooler};
pub use model::{ModelChunker, TokenClassifier};
pub use recursive::RecursiveChunker;
pub use sentence::SentenceChunker;
pub use slab::Slab;

verus! {

/// A text chunking strategy.
pub trait Chunker: Send + Sync {
    /// Split text into chunks.
    fn chunk(&self, text: &str) -> Vec<Slab>;

    /// Estimate the number of chunks for a text of `text_len` bytes; used
    /// only to pre-size buffers.
    fn estimate_chunks(&self, text_len: usize) -> usize {
        let n = text_len / 500;
        if n > 1 {
            n
        } else {
            1
        }
    }
}

} // verus!
