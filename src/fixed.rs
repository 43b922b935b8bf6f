//! Fixed-size chunking with overlap: a window of `size` bytes that moves by
//! `size - overlap` bytes, with both ends kept on character boundaries.
use vstd::prelude::*;
use vstd::string::*;
use vstd::utf8::*;
use crate::Chunker;
use crate::error::Error;
use crate::slab::{Slab, slabs_follow};
use crate::text::{
    byte_len, ceil_boundary, ceil_char_boundary, floor_boundary, floor_char_boundary,
    lemma_ceil_bounds, lemma_ceil_mono, lemma_floor_bounds, lemma_floor_is_boundary, substr,
};

verus! {

broadcast use vstd::utf8::group_utf8_lib;

/// Where the window from `start` ends: `min(start + size, len)` snapped down
/// to a character boundary, or, when that leaves nothing because one
/// character is wider than the window, the end of that character.
pub open spec fn window_end(doc: Seq<u8>, size: int, start: int) -> int {
    let down = floor_boundary(doc, if start + size < doc.len() { start + size } else { doc.len() as int });
    if down > start {
        down
    } else {
        ceil_boundary(doc, start + 1)
    }
}

/// The spans the fixed splitter emits from window start `start` on: the
/// window `[start, window_end)`, then, unless `start + step` reaches the end,
/// the windows from `start + step` snapped up to a boundary, but never past
/// the end of this window.
pub open spec fn fixed_spans(doc: Seq<u8>, size: int, step: int, start: int) -> Seq<(int, int)>
    decreases doc.len() - start,
{
    if start >= doc.len() || start < 0 {
        seq![]
    } else {
        let end = window_end(doc, size, start);
        let head = seq![(start, end)];
        let next = start + step;
        let up = ceil_boundary(doc, next);
        let following = if up < end { up } else { end };
        if next >= doc.len() || following <= start || following > doc.len() {
            head
        } else {
            head + fixed_spans(doc, size, step, following)
        }
    }
}

/// Fixed-size chunker with configurable overlap.
#[derive(Debug)]
pub struct FixedChunker {
    size: usize,
    overlap: usize,
}

impl FixedChunker {
    #[verifier::type_invariant]
    closed spec fn inv(self) -> bool {
        0 < self.size && self.overlap < self.size
    }

    /// The window size in bytes.
    pub closed spec fn size_spec(&self) -> usize {
        self.size
    }

    /// The overlap between adjacent windows in bytes.
    pub closed spec fn overlap_spec(&self) -> usize {
        self.overlap
    }

    /// A chunker with windows of `size` bytes overlapping by `overlap` bytes.
    pub fn new(size: usize, overlap: usize) -> (r: Self)
        requires
            size > 0,
            overlap < size,
        ensures
            r.size_spec() == size,
            r.overlap_spec() == overlap,
    {
        FixedChunker { size, overlap }
    }

    /// Like [`FixedChunker::new`], but rejects a zero size or an overlap that
    /// is not smaller than the size.
    pub fn try_new(size: usize, overlap: usize) -> (r: Result<Self, Error>)
        ensures
            size == 0 <==> r == Err::<Self, Error>(Error::InvalidChunkSize(size)),
            (size > 0 && overlap >= size) <==> r == Err::<Self, Error>(
                Error::OverlapExceedsSize { size, overlap },
            ),
            r matches Ok(c) ==> c.size_spec() == size && c.overlap_spec() == overlap,
    {
        if size == 0 {
            Err(Error::InvalidChunkSize(size))
        } else if overlap >= size {
            Err(Error::OverlapExceedsSize { size, overlap })
        } else {
            Ok(FixedChunker { size, overlap })
        }
    }

    /// A chunker with no overlap.
    pub fn no_overlap(size: usize) -> (r: Self)
        requires
            size > 0,
        ensures
            r.size_spec() == size,
            r.overlap_spec() == 0,
    {
        Self::new(size, 0)
    }

    /// The step between window starts.
    fn step(&self) -> (r: usize)
        ensures
            r == self.size_spec() - self.overlap_spec(),
            0 < r <= self.size_spec(),
    {
        proof {
            use_type_invariant(self);
        }
        self.size - self.overlap
    }

    /// The spans this chunker emits on `doc`.
    pub open spec fn spans(&self, doc: Seq<u8>) -> Seq<(int, int)> {
        fixed_spans(
            doc,
            self.size_spec() as int,
            self.size_spec() - self.overlap_spec(),
            0,
        )
    }

    /// Split `text` into windows; see [`fixed_spans`].
    pub fn chunk(&self, text: &str) -> (r: Vec<Slab>)
        ensures
            slabs_follow(r@, self.spans(text.spec_bytes()), text.spec_bytes()),
    {
        proof {
            use_type_invariant(self);
        }
        let ghost doc = text.spec_bytes();
        let len = byte_len(text);
        let step = self.step();
        let size = self.size;
        let mut slabs: Vec<Slab> = Vec::new();
        let mut start: usize = 0;
        let ghost mut done: Seq<(int, int)> = seq![];
        while start < len
            invariant
                len == doc.len(),
                doc == text.spec_bytes(),
                0 < step <= size,
                step == self.size_spec() - self.overlap_spec(),
                size == self.size_spec(),
                start <= len,
                is_char_boundary(doc, start as int),
                slabs_follow(slabs@, done, doc),
                done + fixed_spans(doc, size as int, step as int, start as int) == self.spans(doc),
            decreases len - start,
        {
            let ghost old_start = start;
            let ghost old_done = done;
            let window = if size < len - start {
                start + size
            } else {
                len
            };
            let down = floor_char_boundary(text, window);
            let end = if down > start {
                down
            } else {
                ceil_char_boundary(text, start + 1)
            };
            proof {
                lemma_ceil_bounds(doc, start + 1);
                assert(end == window_end(doc, size as int, start as int));
            }
            let index = slabs.len();
            slabs.push(Slab::new(substr(text, start, end), start, end, index));
            proof {
                done = done.push((start as int, end as int));
            }
            let ghost head = seq![(old_start as int, end as int)];
            if step >= len - start {
                start = len;
                proof {
                    assert(fixed_spans(doc, size as int, step as int, old_start as int) == head);
                    assert(fixed_spans(doc, size as int, step as int, start as int) =~= Seq::<(int, int)>::empty());
                }
            } else {
                let up = ceil_char_boundary(text, start + step);
                start = if up < end {
                    up
                } else {
                    end
                };
                proof {
                    assert(fixed_spans(doc, size as int, step as int, old_start as int) == head
                        + fixed_spans(doc, size as int, step as int, start as int));
                }
            }
            proof {
                let rest = fixed_spans(doc, size as int, step as int, old_start as int);
                assert(done == old_done + head);
                assert(done + fixed_spans(doc, size as int, step as int, start as int)
                    =~= old_done + rest);
                assert forall|i: int| 0 <= i < slabs@.len() implies {
                    &&& (#[trigger] slabs@[i]).start == done[i].0
                    &&& slabs@[i].end == done[i].1
                    &&& slabs@[i].index == i
                    &&& crate::slab::slab_in_doc(slabs@[i], doc)
                } by {
                }
            }
        }
        proof {
            assert(done =~= self.spans(doc));
        }
        slabs
    }
}

/// The total length of a list of spans.
pub open spec fn total_len(spans: Seq<(int, int)>) -> int
    decreases spans.len(),
{
    if spans.len() == 0 {
        0
    } else {
        (spans[0].1 - spans[0].0) + total_len(spans.drop_first())
    }
}

/// The spans cover `[from, to)`: the first starts at `from`, the last ends at
/// `to`, and each one starts after the previous start and no later than the
/// previous end.
pub open spec fn covers(spans: Seq<(int, int)>, from: int, to: int) -> bool {
    &&& spans.len() > 0
    &&& spans[0].0 == from
    &&& spans.last().1 == to
    &&& forall|i: int|
        0 <= i < spans.len() - 1 ==> spans[i].0 < #[trigger] spans[i + 1].0 <= spans[i].1
}

/// Each span starts exactly where the previous one ends.
pub open spec fn contiguous(spans: Seq<(int, int)>) -> bool {
    forall|i: int| 0 <= i < spans.len() - 1 ==> #[trigger] spans[i + 1].0 == spans[i].1
}

proof fn lemma_fixed_spans_from(doc: Seq<u8>, size: int, step: int, start: int)
    requires
        valid_utf8(doc),
        0 < step <= size,
        0 <= start < doc.len(),
        is_char_boundary(doc, start),
    ensures
        covers(fixed_spans(doc, size, step, start), start, doc.len() as int),
        step == size ==> contiguous(fixed_spans(doc, size, step, start)),
        step == size ==> total_len(fixed_spans(doc, size, step, start)) == doc.len() - start,
    decreases doc.len() - start,
{
    let window = if start + size < doc.len() { start + size } else { doc.len() as int };
    let down = floor_boundary(doc, window);
    lemma_floor_bounds(doc, window, start);
    lemma_ceil_bounds(doc, start + 1);
    let end = window_end(doc, size, start);
    assert(start < end <= doc.len());
    let next = start + step;
    let sp = fixed_spans(doc, size, step, start);
    let head = seq![(start, end)];
    if next < doc.len() {
        lemma_ceil_bounds(doc, next);
        let up = ceil_boundary(doc, next);
        let following = if up < end { up } else { end };
        assert(start < following <= end);
        assert(is_char_boundary(doc, following)) by {
            if up >= end {
                if down > start {
                    lemma_floor_is_boundary(doc, window);
                }
            }
        }
        if following == doc.len() {
            assert(end == doc.len());
            assert(sp == head + fixed_spans(doc, size, step, following));
            assert(fixed_spans(doc, size, step, following) =~= Seq::<(int, int)>::empty());
            assert(sp =~= head);
            if step == size {
                assert(sp.drop_first() =~= Seq::<(int, int)>::empty());
                assert(total_len(Seq::<(int, int)>::empty()) == 0);
            }
        } else {
            let rest = fixed_spans(doc, size, step, following);
            lemma_fixed_spans_from(doc, size, step, following);
            assert(sp == head + rest);
            assert forall|i: int| 0 <= i < sp.len() - 1 implies sp[i].0 < #[trigger] sp[i + 1].0
                <= sp[i].1 by {
                if i > 0 {
                    let j = i - 1;
                    assert(sp[i] == rest[j]);
                    assert(sp[i + 1] == rest[j + 1]);
                    assert(rest[j].0 < rest[j + 1].0 <= rest[j].1);
                } else {
                    assert(sp[1] == rest[0]);
                }
            }
            if step == size {
                assert(following == end) by {
                    if down > start {
                        assert(window == next);
                    } else {
                        lemma_ceil_mono(doc, start + 1, next);
                    }
                }
                assert forall|i: int| 0 <= i < sp.len() - 1 implies #[trigger] sp[i + 1].0
                    == sp[i].1 by {
                    if i > 0 {
                        let j = i - 1;
                        assert(sp[i] == rest[j]);
                        assert(sp[i + 1] == rest[j + 1]);
                        assert(rest[j + 1].0 == rest[j].1);
                    } else {
                        assert(sp[1] == rest[0]);
                    }
                }
                assert(sp.drop_first() =~= rest);
                assert(total_len(sp) == (sp[0].1 - sp[0].0) + total_len(rest));
            }
        }
    } else {
        assert(window == doc.len());
        is_char_boundary_start_end_of_seq(doc);
        assert(down == doc.len());
        assert(sp == head);
        assert(sp.drop_first() =~= Seq::<(int, int)>::empty());
        assert(total_len(Seq::<(int, int)>::empty()) == 0);
        assert(total_len(sp) == (sp[0].1 - sp[0].0) + total_len(sp.drop_first()));
    }
}

/// The fixed splitter's chunks cover `[0, len)` of a non-empty document;
/// without overlap they are exactly contiguous and their lengths add up to
/// the document's length.
pub proof fn lemma_fixed_covers(doc: Seq<u8>, size: usize, overlap: usize)
    requires
        valid_utf8(doc),
        doc.len() > 0,
        0 < size,
        overlap < size,
    ensures
        covers(fixed_spans(doc, size as int, size - overlap, 0), 0, doc.len() as int),
        overlap == 0 ==> contiguous(fixed_spans(doc, size as int, size - overlap, 0)),
        overlap == 0 ==> total_len(fixed_spans(doc, size as int, size - overlap, 0)) == doc.len(),
{
    is_char_boundary_start_end_of_seq(doc);
    lemma_fixed_spans_from(doc, size as int, size - overlap, 0);
}

impl Clone for FixedChunker {
    fn clone(&self) -> (r: Self)
        ensures
            r.size_spec() == self.size_spec() && r.overlap_spec() == self.overlap_spec(),
    {
        proof {
            use_type_invariant(self);
        }
        FixedChunker { size: self.size, overlap: self.overlap }
    }
}

impl Chunker for FixedChunker {
    fn chunk(&self, text: &str) -> Vec<Slab> {
        FixedChunker::chunk(self, text)
    }

    fn estimate_chunks(&self, text_len: usize) -> usize {
        let step = self.step();
        if text_len == 0 {
            0
        } else {
            (text_len - 1) / step + 1
        }
    }
}

} // verus!
