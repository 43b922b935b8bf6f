//! Sentence-based chunking: groups of `n` sentences per chunk.
use vstd::prelude::*;
use vstd::string::*;
use vstd::utf8::*;
use unicode_segmentation::UnicodeSegmentation;
use crate::Chunker;
use crate::slab::{Slab, slab_in_doc};
use crate::text::{
    blank, byte_len, concat_all, is_blank, is_boundary_span, lead_ws, lemma_boundary_after_prefix,
    lemma_concat_all_first, lemma_inner_boundary, lemma_lead_ws, lemma_piece_span,
    lemma_pieces_span, lemma_trail_ws, lemma_utf8_bytes_concat, piece_start, substr, trail_ws,
    trim_chars, trim_end, trim_start, utf8_bytes, views, white_space,
};

verus! {

broadcast use vstd::utf8::group_utf8_lib;

/// What `split_sentence_bounds` returns: `s` cut at its sentence
/// boundaries.
pub uninterp spec fn sentence_pieces(s: Seq<char>) -> Seq<Seq<char>>;

/// `s` cut at its sentence boundaries.
///
/// Relies on unicode-segmentation's `split_sentence_bounds`, which cuts at
/// UAX #29 sentence boundaries; the concatenation of the pieces is `s`.
#[verifier::external_body]
pub(crate) fn split_sentences(s: &str) -> (r: Vec<String>)
    ensures
        views(r@) == sentence_pieces(s@),
        concat_all(views(r@)) == s@,
{
    s.split_sentence_bounds().map(|p| p.to_owned()).collect()
}

/// The positions of the pieces that are not blank, in order.
pub open spec fn kept(p: Seq<Seq<char>>) -> Seq<int>
    decreases p.len(),
{
    if p.len() == 0 {
        seq![]
    } else if blank(p.last()) {
        kept(p.drop_last())
    } else {
        kept(p.drop_last()).push(p.len() - 1)
    }
}

/// The position in `kept` of the last sentence of group `g`.
pub open spec fn group_last(count: int, n: int, g: int) -> int {
    if g * n + n < count {
        g * n + n - 1
    } else {
        count - 1
    }
}

/// The chunks of the sentence splitter on `doc`, cut into pieces `p`: one
/// chunk per group of `n` non-blank pieces; chunk `g` is the text from the
/// group's first piece to the end of its last one, without leading and
/// trailing white space, at its place in `doc`.
pub open spec fn sentence_slabs(r: Seq<Slab>, doc: Seq<u8>, p: Seq<Seq<char>>, n: int) -> bool {
    let ks = kept(p);
    &&& r.len() == (ks.len() + n - 1) / n
    &&& forall|g: int|
        0 <= g < r.len() ==> {
            let x = ks[g * n];
            let y = ks[group_last(ks.len() as int, n, g)] + 1;
            &&& (#[trigger] r[g]).index == g
            &&& slab_in_doc(r[g], doc)
            &&& piece_start(p, x) <= r[g].start < r[g].end <= piece_start(p, y)
            &&& r[g].text@ == trim_chars(concat_all(p.subrange(x, y)))
        }
}

/// The span of `trim_chars(chars)` inside `[gs, ge)`, where `chars` is the
/// non-blank text that `[gs, ge)` holds.
#[verifier::rlimit(80)]
pub(crate) fn trimmed_span(text: &str, gs: usize, ge: usize, Ghost(chars): Ghost<Seq<char>>) -> (r: (usize, usize))
    requires
        is_boundary_span(text.spec_bytes(), gs as int, ge as int),
        utf8_bytes(chars) == text.spec_bytes().subrange(gs as int, ge as int),
        !blank(chars),
    ensures
        gs <= r.0 < r.1 <= ge,
        is_boundary_span(text.spec_bytes(), r.0 as int, r.1 as int),
        text.spec_bytes().subrange(r.0 as int, r.1 as int) == utf8_bytes(trim_chars(chars)),
{
    let ghost doc = text.spec_bytes();
    let grp = substr(text, gs, ge);
    proof {
        encode_utf8_decode_utf8(grp@);
        encode_utf8_decode_utf8(chars);
        assert(grp@ == chars);
    }
    let glen = ge - gs;
    let lead = trim_start(grp);
    let trail = trim_end(grp);
    let ghost len = chars.len() as int;
    let ghost la = len - lead@.len();
    let ghost t = trail@.len() as int;
    proof {
        if la == len {
            assert(chars.subrange(0, la) =~= chars);
        }
        lemma_lead_ws(chars, la);
        assert(la < len);
        assert(!white_space(chars[la])) by {
            assert(lead@[0] == chars[la]);
        }
        if t > 0 {
            assert(chars[t - 1] == trail@[t - 1]);
        }
        lemma_trail_ws(chars, t);
        if la >= t {
            assert(chars[la] == chars.subrange(t, len)[la - t]);
        }
        assert(trim_chars(chars) == chars.subrange(la, t));
        let c0 = chars.subrange(0, la);
        let c1 = chars.subrange(la, t);
        let c2 = chars.subrange(t, len);
        assert(chars =~= c0 + (c1 + c2));
        assert(chars =~= (c0 + c1) + c2);
        assert(lead@ =~= c1 + c2);
        assert(trail@ =~= c0 + c1);
        lemma_utf8_bytes_concat(c0, c1 + c2);
        lemma_utf8_bytes_concat(c0 + c1, c2);
        lemma_utf8_bytes_concat(c0, c1);
        lemma_boundary_after_prefix(c0, c1 + c2);
        lemma_boundary_after_prefix(c0 + c1, c2);
    }
    let a = glen - byte_len(lead);
    let b = byte_len(trail);
    proof {
        let c0 = chars.subrange(0, la);
        let c1 = chars.subrange(la, t);
        let gb = doc.subrange(gs as int, ge as int);
        assert(a == utf8_bytes(c0).len());
        assert(b == utf8_bytes(c0).len() + utf8_bytes(c1).len());
        if 0 < a < glen {
            lemma_inner_boundary(doc, gs as int, ge as int, a as int);
        }
        if 0 < b < glen {
            lemma_inner_boundary(doc, gs as int, ge as int, b as int);
        }
        assert(gb.subrange(a as int, b as int) =~= utf8_bytes(c1));
        crate::text::lemma_utf8_nonempty(c1);
        assert(doc.subrange(gs + a, gs + b) =~= gb.subrange(a as int, b as int));
    }
    (gs + a, gs + b)
}

/// Sentence-based chunker.
#[derive(Debug)]
pub struct SentenceChunker {
    sentences_per_chunk: usize,
}

impl SentenceChunker {
    #[verifier::type_invariant]
    closed spec fn inv(self) -> bool {
        self.sentences_per_chunk > 0
    }

    /// The number of sentences per chunk.
    pub closed spec fn per_chunk_spec(&self) -> usize {
        self.sentences_per_chunk
    }

    /// A chunker that puts `sentences_per_chunk` sentences in each chunk.
    pub fn new(sentences_per_chunk: usize) -> (r: Self)
        requires
            sentences_per_chunk > 0,
        ensures
            r.per_chunk_spec() == sentences_per_chunk,
    {
        SentenceChunker { sentences_per_chunk }
    }

    /// A chunker with one sentence per chunk.
    pub fn single() -> (r: Self)
        ensures
            r.per_chunk_spec() == 1,
    {
        Self::new(1)
    }

    /// Split `text`; see [`sentence_slabs`].
    pub fn chunk(&self, text: &str) -> (r: Vec<Slab>)
        ensures
            sentence_slabs(
                r@,
                text.spec_bytes(),
                sentence_pieces(text@),
                self.per_chunk_spec() as int,
            ),
    {
        proof {
            use_type_invariant(self);
        }
        let ghost doc = text.spec_bytes();
        let pieces = split_sentences(text);
        let ghost pv = views(pieces@);
        let spans = Self::kept_spans(text, &pieces);
        let ghost ks = kept(pv);
        let n = self.sentences_per_chunk;
        let count = spans.len();
        let mut slabs: Vec<Slab> = Vec::new();
        let mut q: usize = 0;
        let mut g: usize = 0;
        proof {
            if count == 0 {
                assert((count + n - 1) / (n as int) == 0) by (nonlinear_arith)
                    requires
                        count == 0,
                        n > 0,
                ;
            }
        }
        while q < count
            invariant
                doc == text.spec_bytes(),
                pv == views(pieces@),
                pv == sentence_pieces(text@),
                concat_all(pv) == text@,
                ks == kept(pv),
                count == ks.len(),
                spans@.len() == count,
                forall|k: int|
                    0 <= k < count ==> (#[trigger] spans@[k]).0 == piece_start(pv, ks[k]) && spans@[k].1
                        == piece_start(pv, ks[k] + 1),
                forall|k: int| 0 <= k < count ==> 0 <= #[trigger] ks[k] < pv.len() && !blank(pv[ks[k]]),
                forall|a: int, b: int| 0 <= a < b < count ==> #[trigger] ks[a] < #[trigger] ks[b],
                n == self.per_chunk_spec(),
                n > 0,
                q <= count,
                g <= q,
                slabs@.len() == g,
                q < count ==> q == g * n,
                q == count ==> (count + n - 1) / (n as int) == g,
                forall|h: int|
                    0 <= h < g ==> {
                        let x = ks[h * n];
                        let y = ks[group_last(count as int, n as int, h)] + 1;
                        &&& (#[trigger] slabs@[h]).index == h
                        &&& slab_in_doc(slabs@[h], doc)
                        &&& piece_start(pv, x) <= slabs@[h].start < slabs@[h].end <= piece_start(pv, y)
                        &&& slabs@[h].text@ == trim_chars(concat_all(pv.subrange(x, y)))
                    },
            decreases count - q,
        {
            let last = if n < count - q {
                q + n - 1
            } else {
                count - 1
            };
            let ghost x = ks[q as int];
            let ghost y = ks[last as int] + 1;
            proof {
                assert(group_last(count as int, n as int, g as int) == last) by (nonlinear_arith)
                    requires
                        q == g * n,
                        last == (if n < count - q { q + n - 1 } else { count - 1 }),
                ;
                if q < last {
                    assert(ks[q as int] < ks[last as int]);
                }
                lemma_pieces_span(pv, x, y);
                let sub = pv.subrange(x, y);
                lemma_concat_all_first(sub);
                assert(sub[0] == pv[x]);
                assert(!blank(concat_all(sub))) by {
                    let k = choose|k: int| 0 <= k < pv[x].len() && !white_space(#[trigger] pv[x][k]);
                    assert(concat_all(sub)[k] == pv[x][k]);
                }
            }
            let gs = spans[q].0;
            let ge = spans[last].1;
            let span = trimmed_span(text, gs, ge, Ghost(concat_all(pv.subrange(x, y))));
            let piece = substr(text, span.0, span.1);
            proof {
                encode_utf8_decode_utf8(piece@);
                encode_utf8_decode_utf8(trim_chars(concat_all(pv.subrange(x, y))));
            }
            slabs.push(Slab::new(piece, span.0, span.1, g));
            proof {
                assert(slabs@[g as int].text@ == trim_chars(concat_all(pv.subrange(x, y))));
            }
            if n < count - q {
                q = q + n;
            } else {
                q = count;
            }
            let ghost old_g = g;
            g = g + 1;
            proof {
                if q == count {
                    assert((count + n - 1) / (n as int) == g) by (nonlinear_arith)
                        requires
                            old_g * n < count,
                            count <= old_g * n + n,
                            g == old_g + 1,
                            n > 0,
                    ;
                } else {
                    assert(q == g * n) by (nonlinear_arith)
                        requires
                            q == old_g * n + n,
                            g == old_g + 1,
                    ;
                }
            }
        }
        slabs
    }

    /// The byte spans of the pieces that are not blank.
    fn kept_spans(text: &str, pieces: &Vec<String>) -> (r: Vec<(usize, usize)>)
        requires
            concat_all(views(pieces@)) == text@,
        ensures
            r@.len() == kept(views(pieces@)).len(),
            forall|k: int|
                0 <= k < r@.len() ==> (#[trigger] r@[k]).0 == piece_start(
                    views(pieces@),
                    kept(views(pieces@))[k],
                ) && r@[k].1 == piece_start(views(pieces@), kept(views(pieces@))[k] + 1),
            forall|k: int|
                0 <= k < r@.len() ==> 0 <= #[trigger] kept(views(pieces@))[k] < pieces@.len()
                    && !blank(views(pieces@)[kept(views(pieces@))[k]]),
            forall|a: int, b: int|
                0 <= a < b < r@.len() ==> #[trigger] kept(views(pieces@))[a]
                    < #[trigger] kept(views(pieces@))[b],
    {
        let ghost pv = views(pieces@);
        let total = byte_len(text);
        let mut spans: Vec<(usize, usize)> = Vec::new();
        let mut cursor: usize = 0;
        let mut k: usize = 0;
        proof {
            assert(pv.subrange(0, 0) =~= Seq::<Seq<char>>::empty());
        }
        while k < pieces.len()
            invariant
                pv == views(pieces@),
                concat_all(pv) == text@,
                total == text.spec_bytes().len(),
                k <= pieces@.len(),
                cursor == piece_start(pv, k as int),
                spans@.len() == kept(pv.subrange(0, k as int)).len(),
                forall|q: int|
                    0 <= q < spans@.len() ==> (#[trigger] spans@[q]).0 == piece_start(
                        pv,
                        kept(pv.subrange(0, k as int))[q],
                    ) && spans@[q].1 == piece_start(pv, kept(pv.subrange(0, k as int))[q] + 1),
                forall|q: int|
                    0 <= q < spans@.len() ==> 0 <= #[trigger] kept(pv.subrange(0, k as int))[q] < k
                        && !blank(pv[kept(pv.subrange(0, k as int))[q]]),
                forall|a: int, b: int|
                    0 <= a < b < spans@.len() ==> #[trigger] kept(pv.subrange(0, k as int))[a]
                        < #[trigger] kept(pv.subrange(0, k as int))[b],
            decreases pieces@.len() - k,
        {
            proof {
                lemma_piece_span(pv, k as int);
            }
            let ghost before = kept(pv.subrange(0, k as int));
            let plen = byte_len(pieces[k].as_str());
            let keep = !is_blank(pieces[k].as_str());
            if keep {
                spans.push((cursor, cursor + plen));
            }
            cursor = cursor + plen;
            k += 1;
            proof {
                let sub = pv.subrange(0, k as int);
                assert(sub.drop_last() =~= pv.subrange(0, k - 1));
                assert(sub.last() == pv[k - 1]);
                assert(pv[k - 1] == pieces@[k - 1]@);
                let now = kept(sub);
                if keep {
                    assert(now == before.push(k - 1));
                } else {
                    assert(now == before);
                }
                assert forall|q: int| 0 <= q < spans@.len() implies (#[trigger] spans@[q]).0
                    == piece_start(pv, now[q]) && spans@[q].1 == piece_start(pv, now[q] + 1) by {
                    if q < before.len() {
                        assert(now[q] == before[q]);
                    }
                }
                assert forall|q: int| 0 <= q < spans@.len() implies 0 <= #[trigger] now[q] < k
                    && !blank(pv[now[q]]) by {
                    if q < before.len() {
                        assert(now[q] == before[q]);
                    }
                }
                assert forall|a: int, b: int| 0 <= a < b < spans@.len() implies #[trigger] now[a]
                    < #[trigger] now[b] by {
                    if b < before.len() {
                        assert(now[a] == before[a]);
                        assert(now[b] == before[b]);
                    } else {
                        assert(now[a] == before[a]);
                    }
                }
            }
        }
        proof {
            assert(pv.subrange(0, k as int) =~= pv);
        }
        spans
    }
}

impl Clone for SentenceChunker {
    fn clone(&self) -> (r: Self)
        ensures
            r.per_chunk_spec() == self.per_chunk_spec(),
    {
        proof {
            use_type_invariant(self);
        }
        SentenceChunker { sentences_per_chunk: self.sentences_per_chunk }
    }
}

impl Chunker for SentenceChunker {
    fn chunk(&self, text: &str) -> Vec<Slab> {
        SentenceChunker::chunk(self, text)
    }

    fn estimate_chunks(&self, text_len: usize) -> usize {
        proof {
            use_type_invariant(self);
        }
        let n = (text_len / 100) / self.sentences_per_chunk;
        if n > 1 {
            n
        } else {
            1
        }
    }
}

} // verus!
