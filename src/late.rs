//! Late chunking: pooling token embeddings of the whole document over the
//! chunks' spans. This module decides which tokens belong to each chunk;
//! the arithmetic on the embeddings is the caller's.
use vstd::prelude::*;
use crate::Chunker;
use crate::slab::Slab;

verus! {

/// The tokens of the span `[start, end)` of a document of `doc_len` bytes cut
/// into `n_tokens` tokens of even density: from `start * n / len` up to
/// `end * n / len` (at most `n`), rounded down; `None` when that range is
/// empty, and the whole document is then used.
pub open spec fn ratio_range(start: int, end: int, doc_len: int, n_tokens: int) -> Option<(int, int)> {
    let lo = start * n_tokens / doc_len;
    let hi_raw = end * n_tokens / doc_len;
    let hi = if hi_raw < n_tokens { hi_raw } else { n_tokens };
    if hi <= lo {
        None
    } else {
        Some((lo, hi))
    }
}

/// The token range of a chunk in ratio mode; see [`ratio_range`].
pub fn token_range(start: usize, end: usize, doc_len: usize, n_tokens: usize) -> (r: Option<(usize, usize)>)
    requires
        doc_len > 0,
    ensures
        r matches Some(p) ==> ratio_range(start as int, end as int, doc_len as int, n_tokens as int)
            == Some((p.0 as int, p.1 as int)),
        r is None ==> ratio_range(start as int, end as int, doc_len as int, n_tokens as int) is None,
{
    proof {
        assert((start as int) * (n_tokens as int) <= u128::MAX) by (nonlinear_arith)
            requires
                start <= usize::MAX,
                n_tokens <= usize::MAX,
                usize::MAX < 0x1_0000_0000_0000_0000,
        ;
        assert((end as int) * (n_tokens as int) <= u128::MAX) by (nonlinear_arith)
            requires
                end <= usize::MAX,
                n_tokens <= usize::MAX,
                usize::MAX < 0x1_0000_0000_0000_0000,
        ;
    }
    let lo_wide = (start as u128) * (n_tokens as u128) / (doc_len as u128);
    let hi_wide = (end as u128) * (n_tokens as u128) / (doc_len as u128);
    let hi_wide = if hi_wide < n_tokens as u128 { hi_wide } else { n_tokens as u128 };
    if hi_wide <= lo_wide {
        None
    } else {
        proof {
            assert(lo_wide < hi_wide <= n_tokens);
        }
        Some((lo_wide as usize, hi_wide as usize))
    }
}

/// The positions of the tokens, given as byte spans, that overlap the span
/// `[start, end)`, in order.
pub open spec fn overlapping(offsets: Seq<(usize, usize)>, start: int, end: int) -> Seq<int>
    decreases offsets.len(),
{
    if offsets.len() == 0 {
        seq![]
    } else {
        let t = offsets.last();
        let before = overlapping(offsets.drop_last(), start, end);
        if t.0 < end && t.1 > start {
            before.push(offsets.len() - 1)
        } else {
            before
        }
    }
}

/// The tokens overlapping a chunk in exact mode; see [`overlapping`].
pub fn overlapping_tokens(offsets: &Vec<(usize, usize)>, start: usize, end: usize) -> (r: Vec<usize>)
    ensures
        r@.map_values(|x: usize| x as int) == overlapping(offsets@, start as int, end as int),
{
    let mut out: Vec<usize> = Vec::new();
    let mut k: usize = 0;
    proof {
        assert(offsets@.subrange(0, 0) =~= Seq::<(usize, usize)>::empty());
        assert(out@.map_values(|x: usize| x as int) =~= Seq::<int>::empty());
    }
    while k < offsets.len()
        invariant
            k <= offsets@.len(),
            out@.map_values(|x: usize| x as int) == overlapping(
                offsets@.subrange(0, k as int),
                start as int,
                end as int,
            ),
        decreases offsets@.len() - k,
    {
        let ghost before = out@.map_values(|x: usize| x as int);
        let t = offsets[k];
        if t.0 < end && t.1 > start {
            out.push(k);
        }
        k += 1;
        proof {
            let sub = offsets@.subrange(0, k as int);
            assert(sub.drop_last() =~= offsets@.subrange(0, k - 1));
            assert(sub.last() == t);
            assert(out@.map_values(|x: usize| x as int) =~= overlapping(sub, start as int, end as int));
        }
    }
    proof {
        assert(offsets@.subrange(0, k as int) =~= offsets@);
    }
    out
}

/// Late chunking pooler: pools token embeddings into chunk embeddings of a
/// fixed dimension.
#[derive(Debug, Clone)]
pub struct LateChunkingPooler {
    dim: usize,
}

impl LateChunkingPooler {
    /// The embedding dimension.
    pub closed spec fn dim_spec(&self) -> usize {
        self.dim
    }

    /// A pooler for embeddings of dimension `dim`.
    pub fn new(dim: usize) -> (r: Self)
        ensures
            r.dim_spec() == dim,
    {
        LateChunkingPooler { dim }
    }

    /// The embedding dimension.
    pub fn dim(&self) -> (r: usize)
        ensures
            r == self.dim_spec(),
    {
        self.dim
    }
}

/// A chunker that wraps a base chunker, for late chunking.
#[derive(Debug)]
pub struct LateChunker<C: Chunker> {
    base: C,
    pooler: LateChunkingPooler,
}

impl<C: Chunker> LateChunker<C> {
    /// The pooler's dimension.
    pub closed spec fn dim_spec(&self) -> usize {
        self.pooler.dim
    }

    /// Wrap `base`, pooling embeddings of dimension `dim`.
    pub fn new(base: C, dim: usize) -> (r: Self)
        ensures
            r.dim_spec() == dim,
    {
        LateChunker { base, pooler: LateChunkingPooler::new(dim) }
    }

    /// The pooler for late chunking.
    pub fn pooler(&self) -> (r: &LateChunkingPooler)
        ensures
            r.dim_spec() == self.dim_spec(),
    {
        &self.pooler
    }
}

impl<C: Chunker> Chunker for LateChunker<C> {
    fn chunk(&self, text: &str) -> Vec<Slab> {
        self.base.chunk(text)
    }

    fn estimate_chunks(&self, text_len: usize) -> usize {
        self.base.estimate_chunks(text_len)
    }
}

} // verus!
