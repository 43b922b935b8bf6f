//! Model-based chunking: a token-classification model predicts where to cut.
use vstd::prelude::*;
use vstd::string::*;
use vstd::utf8::*;
use crate::Chunker;
use crate::slab::{Slab, slabs_follow};
use crate::text::{byte_len, substr};

verus! {

broadcast use vstd::utf8::group_utf8_lib;

/// A token classification model that predicts split points.
pub trait TokenClassifier: Send + Sync {
    /// Byte offsets of `text` where a new chunk should begin.
    fn predict_splits(&self, text: &str) -> Vec<usize>;
}

/// The spans cut from `doc` at `points[i..]`, the current chunk having
/// started at `start`: a point is used when it lies after `start`, within
/// the document and on a character boundary, and ignored otherwise; what is
/// left after the last cut is the final chunk.
pub open spec fn cut_spans(doc: Seq<u8>, points: Seq<usize>, i: int, start: int) -> Seq<(int, int)>
    decreases points.len() - i,
{
    if i >= points.len() || i < 0 {
        if start < doc.len() {
            seq![(start, doc.len() as int)]
        } else {
            seq![]
        }
    } else {
        let p = points[i] as int;
        if start < p && p <= doc.len() && is_char_boundary(doc, p) {
            seq![(start, p)] + cut_spans(doc, points, i + 1, p)
        } else {
            cut_spans(doc, points, i + 1, start)
        }
    }
}

/// Cut `text` at the given points; see [`cut_spans`].
pub fn cut_at(text: &str, points: &Vec<usize>) -> (r: Vec<Slab>)
    ensures
        slabs_follow(r@, cut_spans(text.spec_bytes(), points@, 0, 0), text.spec_bytes()),
{
    let ghost doc = text.spec_bytes();
    let len = byte_len(text);
    let mut slabs: Vec<Slab> = Vec::new();
    let mut start: usize = 0;
    let mut i: usize = 0;
    let ghost mut done: Seq<(int, int)> = seq![];
    while i < points.len()
        invariant
            doc == text.spec_bytes(),
            len == doc.len(),
            i <= points@.len(),
            start <= len,
            is_char_boundary(doc, start as int),
            slabs_follow(slabs@, done, doc),
            done + cut_spans(doc, points@, i as int, start as int) == cut_spans(doc, points@, 0, 0),
        decreases points@.len() - i,
    {
        let p = points[i];
        let ghost old_done = done;
        let ghost old_start = start;
        if start < p && p <= len && text.is_char_boundary(p) {
            let index = slabs.len();
            slabs.push(Slab::new(substr(text, start, p), start, p, index));
            proof {
                done = done.push((start as int, p as int));
                assert(cut_spans(doc, points@, i as int, start as int) == seq![(start as int, p as int)]
                    + cut_spans(doc, points@, i + 1, p as int));
            }
            start = p;
        }
        i += 1;
        proof {
            assert(done + cut_spans(doc, points@, i as int, start as int) =~= old_done + cut_spans(
                doc,
                points@,
                i - 1,
                old_start as int,
            ));
        }
    }
    if start < len {
        proof {
            is_char_boundary_start_end_of_seq(doc);
        }
        let index = slabs.len();
        slabs.push(Slab::new(substr(text, start, len), start, len, index));
        proof {
            done = done.push((start as int, len as int));
        }
    }
    proof {
        assert(done =~= cut_spans(doc, points@, 0, 0));
    }
    slabs
}

/// A chunker that uses a model to predict boundaries.
pub struct ModelChunker<M: TokenClassifier> {
    model: M,
}

impl<M: TokenClassifier> ModelChunker<M> {
    /// A chunker backed by `model`.
    pub fn new(model: M) -> (r: Self) {
        ModelChunker { model }
    }

    /// Cut `text` where the model predicts; the chunks are exact spans of
    /// `text` that follow one another from its start to its end.
    pub fn chunk(&self, text: &str) -> (r: Vec<Slab>)
        ensures
            exists|points: Seq<usize>|
                slabs_follow(r@, cut_spans(text.spec_bytes(), points, 0, 0), text.spec_bytes()),
    {
        if byte_len(text) == 0 {
            let r: Vec<Slab> = Vec::new();
            proof {
                assert(cut_spans(text.spec_bytes(), Seq::<usize>::empty(), 0, 0) =~= Seq::<(int, int)>::empty());
                assert(slabs_follow(r@, cut_spans(text.spec_bytes(), Seq::<usize>::empty(), 0, 0), text.spec_bytes()));
            }
            return r;
        }
        let points = self.model.predict_splits(text);
        cut_at(text, &points)
    }
}

impl<M: TokenClassifier> Chunker for ModelChunker<M> {
    fn chunk(&self, text: &str) -> Vec<Slab> {
        ModelChunker::chunk(self, text)
    }
}

} // verus!
