//! The decisions of semantic chunking: which sentences there are, where the
//! topic shifts, and how the sentences between two shifts make a chunk.
//! Embedding the sentences and comparing them is left to the caller.
use vstd::prelude::*;
use vstd::string::*;
use vstd::utf8::*;
use crate::sentence::{kept, sentence_pieces, split_sentences};
use crate::slab::{Slab, slab_in_doc};
use crate::text::{
    blank, byte_len, concat_all, is_blank, is_boundary_span, join_with, lemma_join_push,
    lemma_piece_span, piece_start, push_str, substr, trim_chars, utf8_bytes, views, white_space,
};

verus! {

broadcast use vstd::utf8::group_utf8_lib;

/// The sentences of a text: the non-blank pieces of its sentence
/// segmentation, each without its surrounding white space, at its place in
/// the document.
pub open spec fn sentence_slabs_of(r: Seq<Slab>, doc: Seq<u8>, p: Seq<Seq<char>>) -> bool {
    let ks = kept(p);
    &&& r.len() == ks.len()
    &&& forall|q: int|
        0 <= q < r.len() ==> {
            &&& (#[trigger] r[q]).index == q
            &&& slab_in_doc(r[q], doc)
            &&& piece_start(p, ks[q]) <= r[q].start <= r[q].end <= piece_start(p, ks[q] + 1)
            &&& r[q].text@ == trim_chars(p[ks[q]])
        }
}

/// The sentences of `text`; see [`sentence_slabs_of`].
pub fn extract_sentences(text: &str) -> (r: Vec<Slab>)
    ensures
        sentence_slabs_of(r@, text.spec_bytes(), sentence_pieces(text@)),
{
    let ghost doc = text.spec_bytes();
    let pieces = split_sentences(text);
    let ghost pv = views(pieces@);
    let total = byte_len(text);
    let mut out: Vec<Slab> = Vec::new();
    let mut cursor: usize = 0;
    let mut k: usize = 0;
    proof {
        assert(pv.subrange(0, 0) =~= Seq::<Seq<char>>::empty());
    }
    while k < pieces.len()
        invariant
            doc == text.spec_bytes(),
            pv == views(pieces@),
            pv == sentence_pieces(text@),
            concat_all(pv) == text@,
            total == doc.len(),
            k <= pieces@.len(),
            cursor == piece_start(pv, k as int),
            sentence_slabs_of(out@, doc, pv.subrange(0, k as int)),
            forall|q: int|
                0 <= q < out@.len() ==> piece_start(pv, kept(pv.subrange(0, k as int))[q] + 1)
                    == piece_start(pv.subrange(0, k as int), kept(pv.subrange(0, k as int))[q] + 1)
                    && 0 <= #[trigger] kept(pv.subrange(0, k as int))[q] < k,
        decreases pieces@.len() - k,
    {
        proof {
            lemma_piece_span(pv, k as int);
        }
        let ghost sub = pv.subrange(0, k as int);
        let ghost before = out@;
        let plen = byte_len(pieces[k].as_str());
        let next = cursor + plen;
        if !is_blank(pieces[k].as_str()) {
            proof {
                encode_utf8_decode_utf8(pv[k as int]);
                assert(pieces@[k as int]@ == pv[k as int]);
            }
            let span = crate::sentence::trimmed_span(text, cursor, next, Ghost(pv[k as int]));
            let piece = substr(text, span.0, span.1);
            proof {
                encode_utf8_decode_utf8(piece@);
                encode_utf8_decode_utf8(trim_chars(pv[k as int]));
            }
            let index = out.len();
            out.push(Slab::new(piece, span.0, span.1, index));
        }
        cursor = next;
        k += 1;
        proof {
            let now = pv.subrange(0, k as int);
            assert(now.drop_last() =~= sub);
            assert(now.last() == pv[k - 1]);
            assert(pv[k - 1] == pieces@[k - 1]@);
            assert forall|j: int| 0 <= j <= k - 1 implies piece_start(now, j) == piece_start(pv, j)
                && piece_start(sub, j) == piece_start(pv, j) by {
                assert(now.subrange(0, j) =~= pv.subrange(0, j));
                assert(sub.subrange(0, j) =~= pv.subrange(0, j));
            }
            assert(piece_start(now, k as int) == piece_start(pv, k as int)) by {
                assert(now.subrange(0, k as int) =~= pv.subrange(0, k as int));
            }
            let ks_now = kept(now);
            let ks_before = kept(sub);
            assert forall|q: int| 0 <= q < out@.len() implies {
                &&& (#[trigger] out@[q]).index == q
                &&& slab_in_doc(out@[q], doc)
                &&& piece_start(now, ks_now[q]) <= out@[q].start <= out@[q].end <= piece_start(
                    now,
                    ks_now[q] + 1,
                )
                &&& out@[q].text@ == trim_chars(now[ks_now[q]])
            } && piece_start(pv, ks_now[q] + 1) == piece_start(now, ks_now[q] + 1) && 0 <= ks_now[q]
                < k by {
                if q < before.len() {
                    assert(ks_now[q] == ks_before[q]);
                    assert(out@[q] == before[q]);
                    assert(now[ks_now[q]] == sub[ks_before[q]]);
                } else {
                    assert(ks_now[q] == k - 1);
                }
            }
        }
    }
    proof {
        assert(pv.subrange(0, k as int) =~= pv);
    }
    out
}

/// The split points from position `i` on, the last split having been at
/// `last`: position `i` splits when the similarity between sentences
/// `i - 1` and `i` is below the threshold (`below[i - 1]`) and at least `min`
/// sentences have passed since the last split.
pub open spec fn split_scan(below: Seq<bool>, min: int, i: int, last: int) -> Seq<int>
    decreases below.len() + 1 - i,
{
    if i > below.len() || i < 1 {
        seq![]
    } else if below[i - 1] && i - last >= min {
        seq![i] + split_scan(below, min, i + 1, i)
    } else {
        split_scan(below, min, i + 1, last)
    }
}

/// The positions of the sentences that begin a new chunk.
pub fn find_split_points(below: &Vec<bool>, min_chunk_sentences: usize) -> (r: Vec<usize>)
    ensures
        r@.map_values(|x: usize| x as int) == split_scan(below@, min_chunk_sentences as int, 1, 0),
{
    let mut out: Vec<usize> = Vec::new();
    let mut last: usize = 0;
    let mut k: usize = 0;
    let ghost full = split_scan(below@, min_chunk_sentences as int, 1, 0);
    proof {
        assert(out@.map_values(|x: usize| x as int) + split_scan(
            below@,
            min_chunk_sentences as int,
            1,
            0,
        ) =~= full);
    }
    while k < below.len()
        invariant
            k <= below@.len(),
            last <= k,
            out@.map_values(|x: usize| x as int) + split_scan(
                below@,
                min_chunk_sentences as int,
                k + 1,
                last as int,
            ) == full,
        decreases below@.len() - k,
    {
        let i = k + 1;
        let ghost before = out@.map_values(|x: usize| x as int);
        let ghost rest = split_scan(below@, min_chunk_sentences as int, i as int, last as int);
        if below[i - 1] && i - last >= min_chunk_sentences {
            out.push(i);
            last = i;
            proof {
                assert(out@.map_values(|x: usize| x as int) =~= before.push(i as int));
            }
        }
        k += 1;
        proof {
            let now = out@.map_values(|x: usize| x as int);
            assert(now + split_scan(below@, min_chunk_sentences as int, k + 1, last as int)
                =~= before + rest);
        }
    }
    proof {
        assert(split_scan(below@, min_chunk_sentences as int, k + 1, last as int) =~= Seq::<
            int,
        >::empty());
        assert(out@.map_values(|x: usize| x as int) =~= full);
    }
    out
}

/// The texts of a list of slabs.
pub open spec fn texts(s: Seq<Slab>) -> Seq<Seq<char>> {
    s.map_values(|x: Slab| x.text@)
}

/// Where the groups begin and end: 0, the split points, and `n`.
pub open spec fn group_bounds(splits: Seq<int>, n: int) -> Seq<int> {
    seq![0] + splits + seq![n]
}

/// The split points are increasing and lie strictly between 0 and `n`.
pub open spec fn splits_ok(splits: Seq<int>, n: int) -> bool {
    &&& forall|k: int| 0 <= k < splits.len() ==> 0 < #[trigger] splits[k] < n
    &&& forall|a: int, b: int| 0 <= a < b < splits.len() ==> #[trigger] splits[a] < #[trigger] splits[b]
}

/// One chunk per group of sentences between two split points: the
/// sentences' texts joined by single spaces, spanning from the first
/// sentence's start to the last one's end.
pub open spec fn semantic_groups(r: Seq<Slab>, sents: Seq<Slab>, splits: Seq<int>) -> bool {
    let b = group_bounds(splits, sents.len() as int);
    &&& r.len() == splits.len() + 1
    &&& forall|g: int|
        0 <= g < r.len() ==> {
            &&& (#[trigger] r[g]).index == g
            &&& r[g].start == sents[b[g]].start
            &&& r[g].end == sents[b[g + 1] - 1].end
            &&& r[g].text@ == join_with(texts(sents.subrange(b[g], b[g + 1])), " "@)
        }
}

/// The chunk made of sentences `[lo, hi)`.
fn join_group(sentences: &Vec<Slab>, lo: usize, hi: usize, index: usize) -> (r: Slab)
    requires
        lo < hi <= sentences@.len(),
    ensures
        r.index == index,
        r.start == sentences@[lo as int].start,
        r.end == sentences@[hi - 1].end,
        r.text@ == join_with(texts(sentences@.subrange(lo as int, hi as int)), " "@),
{
    let mut text = String::new();
    let mut k = lo;
    proof {
        assert(texts(sentences@.subrange(lo as int, lo as int)) =~= Seq::<Seq<char>>::empty());
    }
    while k < hi
        invariant
            lo <= k <= hi <= sentences@.len(),
            text@ == join_with(texts(sentences@.subrange(lo as int, k as int)), " "@),
        decreases hi - k,
    {
        let ghost before = texts(sentences@.subrange(lo as int, k as int));
        if k > lo {
            push_str(&mut text, " ");
        }
        push_str(&mut text, sentences[k].text.as_str());
        k += 1;
        proof {
            let x = sentences@[k - 1].text@;
            assert(texts(sentences@.subrange(lo as int, k as int)) =~= before.push(x));
            lemma_join_push(before, " "@, x);
            if k - 1 == lo {
                assert(before.len() == 0);
                assert(text@ =~= x);
            } else {
                assert(text@ =~= join_with(before, " "@) + " "@ + x);
            }
        }
    }
    Slab { text, start: sentences[lo].start, end: sentences[hi - 1].end, index }
}

/// The chunks made of the sentences between the split points; see
/// [`semantic_groups`].
pub fn assemble_chunks(sentences: &Vec<Slab>, splits: &Vec<usize>) -> (r: Vec<Slab>)
    requires
        sentences@.len() > 0,
        splits_ok(splits@.map_values(|x: usize| x as int), sentences@.len() as int),
    ensures
        semantic_groups(r@, sentences@, splits@.map_values(|x: usize| x as int)),
{
    let ghost sp = splits@.map_values(|x: usize| x as int);
    let ghost b = group_bounds(sp, sentences@.len() as int);
    let n = sentences.len();
    let m = splits.len();
    let mut out: Vec<Slab> = Vec::new();
    let mut lo: usize = 0;
    let mut g: usize = 0;
    while g < m
        invariant
            sp == splits@.map_values(|x: usize| x as int),
            b == group_bounds(sp, n as int),
            n == sentences@.len(),
            m == sp.len(),
            splits_ok(sp, n as int),
            g <= m,
            lo == b[g as int],
            lo < n,
            out@.len() == g,
            forall|h: int|
                0 <= h < g ==> {
                    &&& (#[trigger] out@[h]).index == h
                    &&& out@[h].start == sentences@[b[h]].start
                    &&& out@[h].end == sentences@[b[h + 1] - 1].end
                    &&& out@[h].text@ == join_with(texts(sentences@.subrange(b[h], b[h + 1])), " "@)
                },
        decreases m - g,
    {
        let hi = splits[g];
        proof {
            assert(b[g + 1] == sp[g as int]);
            assert(sp[g as int] == hi);
            if g > 0 {
                assert(sp[g - 1] < sp[g as int]);
                assert(b[g as int] == sp[g - 1]);
            }
        }
        out.push(join_group(sentences, lo, hi, g));
        lo = hi;
        g += 1;
    }
    proof {
        assert(b[m + 1] == n);
    }
    out.push(join_group(sentences, lo, n, m));
    out
}

proof fn lemma_split_scan_ok(below: Seq<bool>, min: int, i: int, last: int)
    requires
        1 <= i,
    ensures
        forall|k: int|
            0 <= k < split_scan(below, min, i, last).len() ==> i <= #[trigger] split_scan(
                below,
                min,
                i,
                last,
            )[k] <= below.len(),
        forall|a: int, b: int|
            0 <= a < b < split_scan(below, min, i, last).len() ==> #[trigger] split_scan(
                below,
                min,
                i,
                last,
            )[a] < #[trigger] split_scan(below, min, i, last)[b],
    decreases below.len() + 1 - i,
{
    if i <= below.len() {
        lemma_split_scan_ok(below, min, i + 1, if below[i - 1] && i - last >= min { i } else { last });
        let s = split_scan(below, min, i, last);
        if below[i - 1] && i - last >= min {
            let t = split_scan(below, min, i + 1, i);
            assert(s == seq![i] + t);
            assert forall|k: int| 0 <= k < s.len() implies i <= #[trigger] s[k] <= below.len() by {
                if k > 0 {
                    assert(s[k] == t[k - 1]);
                }
            }
            assert forall|a: int, b: int| 0 <= a < b < s.len() implies #[trigger] s[a] < #[trigger] s[b] by {
                assert(s[b] == t[b - 1]);
                if a > 0 {
                    assert(s[a] == t[a - 1]);
                }
            }
        } else {
            let t = split_scan(below, min, i + 1, last);
            assert(s == t);
            assert forall|k: int| 0 <= k < s.len() implies i <= #[trigger] s[k] <= below.len() by {
                assert(s[k] == t[k]);
            }
        }
    }
}

/// The chunks of semantic splitting, given the sentences of `text` and, for
/// each two neighbouring sentences, whether their similarity is below the
/// threshold; `None` means the embedding failed, and then the whole text,
/// trimmed, is one chunk spanning the document.
pub fn semantic_chunks(
    text: &str,
    sentences: &Vec<Slab>,
    below: Option<Vec<bool>>,
    min_chunk_sentences: usize,
) -> (r: Vec<Slab>)
    requires
        below matches Some(b) ==> b@.len() + 1 == sentences@.len(),
    ensures
        sentences@.len() == 0 ==> r@.len() == 0,
        sentences@.len() > 0 && below is None ==> {
            &&& blank(text@) ==> r@.len() == 0
            &&& !blank(text@) ==> {
                &&& r@.len() == 1
                &&& r@[0].text@ == trim_chars(text@)
                &&& r@[0].start == 0
                &&& r@[0].end == text.spec_bytes().len()
                &&& r@[0].index == 0
            }
        },
        sentences@.len() > 0 ==> (below matches Some(b) ==> semantic_groups(
            r@,
            sentences@,
            split_scan(b@, min_chunk_sentences as int, 1, 0),
        )),
{
    if sentences.len() == 0 {
        return Vec::new();
    }
    match below {
        Some(b) => {
            let splits = find_split_points(&b, min_chunk_sentences);
            proof {
                lemma_split_scan_ok(b@, min_chunk_sentences as int, 1, 0);
            }
            assemble_chunks(sentences, &splits)
        },
        None => {
            if is_blank(text) {
                return Vec::new();
            }
            let len = byte_len(text);
            proof {
                is_char_boundary_start_end_of_seq(text.spec_bytes());
                assert(text.spec_bytes().subrange(0, len as int) =~= text.spec_bytes());
            }
            let span = crate::sentence::trimmed_span(text, 0, len, Ghost(text@));
            let piece = substr(text, span.0, span.1);
            proof {
                encode_utf8_decode_utf8(piece@);
                encode_utf8_decode_utf8(trim_chars(text@));
            }
            let mut r: Vec<Slab> = Vec::new();
            r.push(Slab::new(piece, 0, len, 0));
            r
        },
    }
}

} // verus!
