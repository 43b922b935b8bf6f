//! Recursive splitting over a hierarchy of separators, coarsest first.
use vstd::prelude::*;
use vstd::string::*;
use vstd::utf8::*;
use crate::Chunker;
use crate::slab::{Slab, slab_in_doc};
use crate::text::{
    byte_len, lemma_floor_bounds, ceil_boundary, ceil_char_boundary, concat_all, floor_boundary,
    floor_char_boundary, is_boundary_span, join_with, lemma_ceil_skips, lemma_concat_all_append,
    lemma_concat_all_single, lemma_inner_boundary, lemma_piece_span, no_inner_boundary, push_str,
    substr, utf8_bytes, views,
};

verus! {

broadcast use vstd::utf8::group_utf8_lib;

/// What `str::split` returns: the pieces of `s` between matches of `sep`.
pub uninterp spec fn split_parts(s: Seq<char>, sep: Seq<char>) -> Seq<Seq<char>>;

/// The pieces of `s` between the matches of `sep`.
///
/// Relies on std's `str::split`: there is at least one piece, and the pieces
/// joined with `sep` give back `s`.
#[verifier::external_body]
fn split_on(s: &str, sep: &str) -> (r: Vec<String>)
    ensures
        views(r@) == split_parts(s@, sep@),
        r@.len() >= 1,
        join_with(views(r@), sep@) == s@,
{
    s.split(sep).map(|p| p.to_owned()).collect()
}

/// A fragment fits: at most `max` bytes, or a single character.
pub open spec fn fragment_fits(b: Seq<u8>, max: int) -> bool {
    b.len() <= max || no_inner_boundary(b)
}

/// Every fragment of the list fits.
pub open spec fn all_fit(frags: Seq<Seq<char>>, max: int) -> bool {
    forall|i: int| 0 <= i < frags.len() ==> fragment_fits(utf8_bytes(#[trigger] frags[i]), max)
}

/// No fragment is empty.
pub open spec fn all_nonempty(frags: Seq<Seq<char>>) -> bool {
    forall|i: int| 0 <= i < frags.len() ==> (#[trigger] frags[i]).len() > 0
}

/// Where a chunk whose raw fragment is `[raw, end)` starts once pulled back by
/// up to `overlap` bytes, snapped down to a boundary; where that would make
/// the chunk longer than `max` bytes, it starts at `end - max` snapped up to
/// a boundary instead, and never after its own raw start.
pub open spec fn pulled_start(doc: Seq<u8>, raw: int, end: int, max: int, overlap: int) -> int {
    let by_overlap = if raw > overlap { raw - overlap } else { 0 };
    let down = floor_boundary(doc, by_overlap);
    if end - max <= down {
        down
    } else {
        let up = ceil_boundary(doc, end - max);
        if up < raw { up } else { raw }
    }
}

/// Where raw fragment `i` starts: where the previous chunk ends.
pub open spec fn raw_start(r: Seq<Slab>, i: int) -> int {
    if i == 0 {
        0
    } else {
        r[i - 1].end as int
    }
}

/// The chunks of the recursive splitter on `doc`: their raw fragments
/// `[raw_start, end)` follow one another from 0 to the end of `doc`, each
/// fits, and each chunk starts at its pulled-back start.
pub open spec fn recursive_slabs(r: Seq<Slab>, doc: Seq<u8>, max: int, overlap: int) -> bool {
    &&& (r.len() == 0 <==> doc.len() == 0)
    &&& r.len() > 0 ==> r.last().end == doc.len()
    &&& forall|i: int|
        0 <= i < r.len() ==> {
            &&& (#[trigger] r[i]).index == i
            &&& slab_in_doc(r[i], doc)
            &&& raw_start(r, i) < r[i].end
            &&& fragment_fits(doc.subrange(raw_start(r, i), r[i].end as int), max)
            &&& r[i].start == pulled_start(doc, raw_start(r, i), r[i].end as int, max, overlap)
        }
}

/// The forced split of `doc` from `start` on: cuts every `max` bytes, each
/// moved down to a character boundary, or, where that would leave nothing,
/// up to the end of the next character.
pub open spec fn force_from(doc: Seq<u8>, max: int, start: int) -> Seq<Seq<char>>
    decreases doc.len() - start,
{
    if start >= doc.len() || start < 0 {
        seq![]
    } else {
        let window = if max < doc.len() - start { start + max } else { doc.len() as int };
        let down = floor_boundary(doc, window);
        let end = if down <= start { ceil_boundary(doc, start + 1) } else { down };
        if end <= start || end > doc.len() {
            seq![]
        } else {
            seq![decode_utf8(doc.subrange(start, end))] + force_from(doc, max, end)
        }
    }
}

/// The raw fragments of `text` from separator `idx` on: `text` itself if it
/// fits in `max` bytes; the forced split once the separators are used up;
/// the same text with the next separator if this one does not occur; else
/// the greedy accumulation of the parts (see [`accumulate`]).
pub open spec fn split_rec(seps: Seq<Seq<char>>, max: int, text: Seq<char>, idx: int) -> Seq<Seq<char>>
    decreases seps.len() - idx, 1int, 0int,
{
    if utf8_bytes(text).len() <= max {
        seq![text]
    } else if idx >= seps.len() || idx < 0 {
        force_from(utf8_bytes(text), max, 0)
    } else {
        let parts = split_parts(text, seps[idx]);
        if parts.len() == 1 {
            split_rec(seps, max, text, idx + 1)
        } else {
            accumulate(seps, max, idx, parts, 0, seq![], seq![])
        }
    }
}

/// The greedy accumulation of `parts[k..]` (each but the last followed by the
/// separator) into `current`, after the fragments `result`: a part joins
/// `current` while that stays within `max` bytes; otherwise `current` is
/// flushed (see [`flush_spec`]) and the part starts the next one.
pub open spec fn accumulate(
    seps: Seq<Seq<char>>,
    max: int,
    idx: int,
    parts: Seq<Seq<char>>,
    k: int,
    current: Seq<char>,
    result: Seq<Seq<char>>,
) -> Seq<Seq<char>>
    decreases seps.len() - idx, 0int, parts.len() - k,
{
    if k >= parts.len() || k < 0 || idx < 0 || idx >= seps.len() {
        if current.len() > 0 && 0 <= idx < seps.len() {
            if utf8_bytes(current).len() <= max {
                result.push(current)
            } else {
                result + split_rec(seps, max, current, idx + 1)
            }
        } else {
            result
        }
    } else {
        let piece = if k < parts.len() - 1 { parts[k] + seps[idx] } else { parts[k] };
        if current.len() == 0 {
            accumulate(seps, max, idx, parts, k + 1, piece, result)
        } else if utf8_bytes(current).len() + utf8_bytes(piece).len() <= max {
            accumulate(seps, max, idx, parts, k + 1, current + piece, result)
        } else if utf8_bytes(current).len() <= max {
            accumulate(seps, max, idx, parts, k + 1, piece, result.push(current))
        } else {
            accumulate(
                seps,
                max,
                idx,
                parts,
                k + 1,
                piece,
                result + split_rec(seps, max, current, idx + 1),
            )
        }
    }
}

/// `result` after flushing `current`: pushed as it is if it fits, else split
/// with the next separator.
pub open spec fn flush_spec(
    seps: Seq<Seq<char>>,
    max: int,
    idx: int,
    result: Seq<Seq<char>>,
    current: Seq<char>,
) -> Seq<Seq<char>> {
    if utf8_bytes(current).len() <= max {
        result.push(current)
    } else {
        result + split_rec(seps, max, current, idx + 1)
    }
}

/// The raw spans of the chunks hold the given fragments, one each, in order.
pub open spec fn holds_fragments(r: Seq<Slab>, doc: Seq<u8>, frags: Seq<Seq<char>>) -> bool {
    &&& r.len() == frags.len()
    &&& forall|i: int|
        0 <= i < r.len() ==> doc.subrange(raw_start(r, i), (#[trigger] r[i]).end as int)
            == utf8_bytes(frags[i])
}

proof fn lemma_join_step(p: Seq<Seq<char>>, sep: Seq<char>, i: int)
    requires
        0 <= i < p.len(),
    ensures
        i < p.len() - 1 ==> join_with(p.subrange(i, p.len() as int), sep) == p[i] + sep
            + join_with(p.subrange(i + 1, p.len() as int), sep),
        i == p.len() - 1 ==> join_with(p.subrange(i, p.len() as int), sep) == p[i],
{
    let s = p.subrange(i, p.len() as int);
    assert(s.drop_first() =~= p.subrange(i + 1, p.len() as int));
    assert(s[0] == p[i]);
}

/// Recursive character splitter.
#[derive(Debug, Clone)]
pub struct RecursiveChunker {
    max_size: usize,
    overlap: usize,
    separators: Vec<String>,
}

impl RecursiveChunker {
    /// The size limit in bytes.
    pub closed spec fn max_size_spec(&self) -> usize {
        self.max_size
    }

    /// The overlap in bytes.
    pub closed spec fn overlap_spec(&self) -> usize {
        self.overlap
    }

    /// The separators, coarsest first.
    pub closed spec fn separators_spec(&self) -> Seq<Seq<char>> {
        views(self.separators@)
    }

    /// A chunker with the given size limit and separators, coarsest first.
    pub fn new(max_size: usize, separators: &[&str]) -> (r: Self)
        requires
            max_size > 0,
            separators@.len() > 0,
        ensures
            r.max_size_spec() == max_size,
            r.overlap_spec() == 0,
            r.separators_spec() == separators@.map_values(|s: &str| s@),
    {
        let mut seps: Vec<String> = Vec::new();
        let mut i: usize = 0;
        while i < separators.len()
            invariant
                i <= separators@.len(),
                seps@.len() == i,
                forall|k: int| 0 <= k < i ==> (#[trigger] seps@[k])@ == separators@[k]@,
            decreases separators@.len() - i,
        {
            let owned = separators[i].to_owned();
            seps.push(owned);
            i += 1;
        }
        proof {
            assert(views(seps@) =~= separators@.map_values(|s: &str| s@));
        }
        RecursiveChunker { max_size, overlap: 0, separators: seps }
    }

    /// The same chunker with the given overlap.
    pub fn with_overlap(self, overlap: usize) -> (r: Self)
        ensures
            r.max_size_spec() == self.max_size_spec(),
            r.overlap_spec() == overlap,
            r.separators_spec() == self.separators_spec(),
    {
        RecursiveChunker { max_size: self.max_size, overlap, separators: self.separators }
    }

    /// Separators for prose: paragraphs, lines, sentences, words.
    pub fn prose(max_size: usize) -> (r: Self)
        requires
            max_size > 0,
        ensures
            r.max_size_spec() == max_size,
            r.overlap_spec() == 0,
            r.separators_spec() == seq!["\n\n"@, "\n"@, ". "@, " "@],
    {
        let r = Self::new(max_size, &["\n\n", "\n", ". ", " "]);
        proof {
            assert(r.separators_spec() =~= seq!["\n\n"@, "\n"@, ". "@, " "@]);
        }
        r
    }

    /// Separators for Markdown: second- and third-level headings, then the
    /// prose ones.
    pub fn markdown(max_size: usize) -> (r: Self)
        requires
            max_size > 0,
        ensures
            r.max_size_spec() == max_size,
            r.overlap_spec() == 0,
            r.separators_spec() == seq!["\n## "@, "\n### "@, "\n\n"@, "\n"@, ". "@, " "@],
    {
        let r = Self::new(max_size, &["\n## ", "\n### ", "\n\n", "\n", ". ", " "]);
        proof {
            assert(r.separators_spec() =~= seq![
                "\n## "@,
                "\n### "@,
                "\n\n"@,
                "\n"@,
                ". "@,
                " "@,
            ]);
        }
        r
    }

    /// Split `text` into raw fragments, trying separators from `sep_index`
    /// on: the fragments put together give back `text` exactly, and each is
    /// at most `max_size` bytes or a single character.
    pub fn split_recursive(&self, text: &str, sep_index: usize) -> (r: Vec<String>)
        ensures
            concat_all(views(r@)) == text@,
            all_fit(views(r@), self.max_size_spec() as int),
            views(r@) == split_rec(
                self.separators_spec(),
                self.max_size_spec() as int,
                text@,
                sep_index as int,
            ),
            text@.len() > 0 ==> all_nonempty(views(r@)),
        decreases self.separators_spec().len() - sep_index,
    {
        let len = byte_len(text);
        if len <= self.max_size {
            let mut r: Vec<String> = Vec::new();
            r.push(text.to_owned());
            proof {
                assert(views(r@) =~= seq![text@]);
                lemma_concat_all_single(text@);
            }
            return r;
        }
        if sep_index >= self.separators.len() {
            return self.force_split(text);
        }
        let sep = self.separators[sep_index].as_str();
        let parts = split_on(text, sep);
        if parts.len() == 1 {
            return self.split_recursive(text, sep_index + 1);
        }
        let ghost pv = views(parts@);
        let ghost seps = self.separators_spec();
        let ghost target = split_rec(seps, self.max_size_spec() as int, text@, sep_index as int);
        let n = parts.len();
        let mut result: Vec<String> = Vec::new();
        let mut current = String::new();
        let mut i: usize = 0;
        proof {
            assert(pv.subrange(0, n as int) =~= pv);
            assert(concat_all(views(result@)) + current@ =~= Seq::<char>::empty());
            assert(views(result@) =~= Seq::<Seq<char>>::empty());
            assert(current@ =~= Seq::<char>::empty());
            assert(target == accumulate(
                seps,
                self.max_size_spec() as int,
                sep_index as int,
                pv,
                0,
                seq![],
                seq![],
            ));
        }
        while i < n
            invariant
                n == parts@.len(),
                pv == views(parts@),
                i <= n,
                sep_index < self.separators_spec().len(),
                sep@ == self.separators_spec()[sep_index as int],
                concat_all(views(result@)) + current@ + join_with(
                    pv.subrange(i as int, n as int),
                    sep@,
                ) == text@,
                all_fit(views(result@), self.max_size_spec() as int),
                all_nonempty(views(result@)),
                seps == self.separators_spec(),
                pv == split_parts(text@, sep@),
                n >= 2,
                target == split_rec(seps, self.max_size_spec() as int, text@, sep_index as int),
                accumulate(
                    seps,
                    self.max_size_spec() as int,
                    sep_index as int,
                    pv,
                    i as int,
                    current@,
                    views(result@),
                ) == target,
            decreases n - i,
        {
            let mut with_sep = parts[i].clone();
            if i < n - 1 {
                push_str(&mut with_sep, sep);
            }
            proof {
                lemma_join_step(pv, sep@, i as int);
                let rest = join_with(pv.subrange(i + 1, n as int), sep@);
                if i < n - 1 {
                    assert(join_with(pv.subrange(i as int, n as int), sep@) =~= with_sep@ + rest);
                } else {
                    assert(pv.subrange(i + 1, n as int) =~= Seq::<Seq<char>>::empty());
                    assert(join_with(pv.subrange(i as int, n as int), sep@) =~= with_sep@ + rest);
                }
            }
            let ghost before = concat_all(views(result@));
            let ghost cur = current@;
            let cl = byte_len(current.as_str());
            let wl = byte_len(with_sep.as_str());
            if current.as_str().is_empty() {
                current = with_sep;
                proof {
                    assert(cur =~= Seq::<char>::empty());
                }
            } else if cl <= self.max_size && wl <= self.max_size - cl {
                push_str(&mut current, with_sep.as_str());
            } else {
                self.flush(&mut result, current, sep_index);
                current = with_sep;
            }
            i += 1;
            proof {
                let rest = join_with(pv.subrange(i as int, n as int), sep@);
                assert(before + cur + (with_sep@ + rest) == text@);
                assert(concat_all(views(result@)) + current@ + rest =~= before + cur + (with_sep@
                    + rest));
            }
        }
        proof {
            assert(pv.subrange(n as int, n as int) =~= Seq::<Seq<char>>::empty());
            assert(concat_all(views(result@)) + current@ =~= text@);
        }
        if !current.as_str().is_empty() {
            self.flush(&mut result, current, sep_index);
        } else {
            proof {
                assert(concat_all(views(result@)) =~= text@);
            }
        }
        result
    }

    /// Append `current` to `result`, split further on the next separator if
    /// it is too large.
    fn flush(&self, result: &mut Vec<String>, current: String, sep_index: usize)
        requires
            sep_index < self.separators_spec().len(),
            all_fit(views(old(result)@), self.max_size_spec() as int),
            all_nonempty(views(old(result)@)),
            current@.len() > 0,
        ensures
            concat_all(views(final(result)@)) == concat_all(views(old(result)@)) + current@,
            all_fit(views(final(result)@), self.max_size_spec() as int),
            all_nonempty(views(final(result)@)),
            views(final(result)@) == flush_spec(
                self.separators_spec(),
                self.max_size_spec() as int,
                sep_index as int,
                views(old(result)@),
                current@,
            ),
        decreases self.separators_spec().len() - sep_index, 0nat,
    {
        let ghost before = views(result@);
        if byte_len(current.as_str()) <= self.max_size {
            result.push(current);
            proof {
                assert(views(result@).drop_last() =~= before);
                assert(views(result@) =~= before.push(current@));
            }
        } else {
            let count = self.separators.len();
            proof {
                assert(self.separators_spec().len() == count);
            }
            let mut sub = self.split_recursive(current.as_str(), sep_index + 1);
            let ghost subv = views(sub@);
            result.append(&mut sub);
            proof {
                assert(views(result@) =~= before + subv);
                lemma_concat_all_append(before, subv);
            }
        }
    }

    /// Cut `text` every `max_size` bytes, each cut moved down to a character
    /// boundary; a character wider than `max_size` is kept whole.
    fn force_split(&self, text: &str) -> (r: Vec<String>)
        ensures
            concat_all(views(r@)) == text@,
            all_fit(views(r@), self.max_size_spec() as int),
            all_nonempty(views(r@)),
            views(r@) == force_from(text.spec_bytes(), self.max_size_spec() as int, 0),
    {
        let ghost doc = text.spec_bytes();
        let len = byte_len(text);
        let max = self.max_size;
        let mut result: Vec<String> = Vec::new();
        let mut start: usize = 0;
        proof {
            assert(utf8_bytes(concat_all(views(result@))) =~= doc.subrange(0, 0));
        }
        while start < len
            invariant
                doc == text.spec_bytes(),
                len == doc.len(),
                max == self.max_size_spec(),
                start <= len,
                is_char_boundary(doc, start as int),
                utf8_bytes(concat_all(views(result@))) == doc.subrange(0, start as int),
                all_fit(views(result@), max as int),
                all_nonempty(views(result@)),
                views(result@) + force_from(doc, max as int, start as int) == force_from(doc, max as int, 0),
            decreases len - start,
        {
            let window_end = if max < len - start {
                start + max
            } else {
                len
            };
            let mut end = floor_char_boundary(text, window_end);
            let ghost by_floor = end > start;
            if end <= start {
                end = ceil_char_boundary(text, start + 1);
            }
            let piece = substr(text, start, end);
            let ghost before = views(result@);
            result.push(piece.to_owned());
            proof {
                let pb = doc.subrange(start as int, end as int);
                assert(utf8_bytes(piece@) == pb);
                if !by_floor {
                    assert forall|k: int| 0 < k < pb.len() implies !#[trigger] is_char_boundary(
                        pb,
                        k,
                    ) by {
                        lemma_inner_boundary(doc, start as int, end as int, k);
                        lemma_ceil_skips(doc, start + 1, start + k);
                    }
                }
                assert(fragment_fits(utf8_bytes(piece@), max as int));
                assert(piece@.len() > 0) by {
                    if piece@.len() == 0 {
                        assert(utf8_bytes(piece@) =~= Seq::<u8>::empty());
                    }
                }
                assert(views(result@) =~= before.push(piece@));
                assert(views(result@).drop_last() =~= before);
                crate::text::lemma_utf8_bytes_concat(concat_all(before), piece@);
                assert(doc.subrange(0, start as int) + pb =~= doc.subrange(0, end as int));
                encode_utf8_decode_utf8(piece@);
                assert(force_from(doc, max as int, start as int) == seq![piece@] + force_from(
                    doc,
                    max as int,
                    end as int,
                ));
                assert(views(result@) + force_from(doc, max as int, end as int) =~= before + (seq![
                    piece@] + force_from(doc, max as int, end as int)));
            }
            start = end;
        }
        proof {
            assert(doc.subrange(0, len as int) =~= doc);
            encode_utf8_decode_utf8(concat_all(views(result@)));
            encode_utf8_decode_utf8(text@);
            assert(views(result@) + force_from(doc, max as int, start as int) =~= views(result@));
        }
        result
    }

    /// Split `text`; see [`recursive_slabs`].
    #[verifier::rlimit(60)]
    pub fn chunk(&self, text: &str) -> (r: Vec<Slab>)
        ensures
            recursive_slabs(
                r@,
                text.spec_bytes(),
                self.max_size_spec() as int,
                self.overlap_spec() as int,
            ),
            text@.len() > 0 ==> holds_fragments(
                r@,
                text.spec_bytes(),
                split_rec(self.separators_spec(), self.max_size_spec() as int, text@, 0),
            ),
    {
        let ghost doc = text.spec_bytes();
        let len = byte_len(text);
        let mut slabs: Vec<Slab> = Vec::new();
        if len == 0 {
            return slabs;
        }
        let frags = self.split_recursive(text, 0);
        let ghost fv = views(frags@);
        let max = self.max_size;
        let overlap = self.overlap;
        let mut cursor: usize = 0;
        let mut i: usize = 0;
        proof {
            assert(fv.subrange(0, 0) =~= Seq::<Seq<char>>::empty());
            if frags@.len() == 0 {
                assert(fv =~= Seq::<Seq<char>>::empty());
            }
        }
        while i < frags.len()
            invariant
                doc == text.spec_bytes(),
                len == doc.len(),
                fv == views(frags@),
                concat_all(fv) == text@,
                all_fit(fv, max as int),
                all_nonempty(fv),
                max == self.max_size_spec(),
                overlap == self.overlap_spec(),
                i <= frags@.len(),
                slabs@.len() == i,
                cursor == utf8_bytes(concat_all(fv.subrange(0, i as int))).len(),
                i > 0 ==> slabs@[i - 1].end == cursor,
                forall|j: int|
                    0 <= j < i ==> doc.subrange(raw_start(slabs@, j), (#[trigger] slabs@[j]).end as int)
                        == utf8_bytes(fv[j]),
                forall|j: int|
                    0 <= j < i ==> {
                        &&& (#[trigger] slabs@[j]).index == j
                        &&& slab_in_doc(slabs@[j], doc)
                        &&& raw_start(slabs@, j) < slabs@[j].end
                        &&& fragment_fits(
                            doc.subrange(raw_start(slabs@, j), slabs@[j].end as int),
                            max as int,
                        )
                        &&& slabs@[j].start == pulled_start(
                            doc,
                            raw_start(slabs@, j),
                            slabs@[j].end as int,
                            max as int,
                            overlap as int,
                        )
                    },
            decreases frags@.len() - i,
        {
            proof {
                lemma_piece_span(fv, i as int);
            }
            proof {
                crate::text::lemma_utf8_nonempty(fv[i as int]);
            }
            let flen = byte_len(frags[i].as_str());
            let start = cursor;
            let end = cursor + flen;
            let by_overlap = if start > overlap {
                start - overlap
            } else {
                0
            };
            let down = floor_char_boundary(text, by_overlap);
            let pulled = if end <= max || end - max <= down {
                down
            } else {
                let up = ceil_char_boundary(text, end - max);
                if up < start {
                    up
                } else {
                    start
                }
            };
            proof {
                lemma_floor_bounds(doc, by_overlap as int, 0);
            }
            let ghost old_slabs = slabs@;
            slabs.push(Slab::new(substr(text, pulled, end), pulled, end, i));
            proof {
                assert(fv[i as int] == frags@[i as int]@);
                assert forall|j: int| 0 <= j < i implies raw_start(slabs@, j) == raw_start(
                    old_slabs,
                    j,
                ) && #[trigger] slabs@[j] == old_slabs[j] by {}
                assert(raw_start(slabs@, i as int) == start);
            }
            cursor = end;
            i += 1;
        }
        proof {
            assert(fv.subrange(0, i as int) =~= fv);
            assert(text@.len() > 0) by {
                if text@.len() == 0 {
                    assert(doc =~= Seq::<u8>::empty());
                }
            }
        }
        slabs
    }
}

/// A chunk of the recursive splitter is at most `max` bytes, or it is exactly
/// its raw fragment and that fragment is a single character.
pub proof fn lemma_recursive_chunk_size(r: Seq<Slab>, doc: Seq<u8>, max: int, overlap: int, i: int)
    requires
        recursive_slabs(r, doc, max, overlap),
        0 <= i < r.len(),
        0 <= overlap,
    ensures
        r[i].end - r[i].start <= max || (r[i].start == raw_start(r, i) && no_inner_boundary(
            doc.subrange(raw_start(r, i), r[i].end as int),
        )),
{
    let raw = raw_start(r, i);
    let end = r[i].end as int;
    assert(slab_in_doc(r[i], doc));
    if i > 0 {
        assert(slab_in_doc(r[i - 1], doc));
    }
    assert(raw <= end);
    let by_overlap = if raw > overlap { raw - overlap } else { 0 };
    let down = floor_boundary(doc, by_overlap);
    if end - max > down && 0 <= end - max <= doc.len() {
        lemma_ceil_bounds_any(doc, end - max);
    }
}

/// Without overlap a chunk starts at its raw start.
pub proof fn lemma_pulled_no_overlap(doc: Seq<u8>, raw: int, end: int, max: int)
    requires
        0 <= raw <= end <= doc.len(),
        0 <= max,
        is_char_boundary(doc, raw),
    ensures
        pulled_start(doc, raw, end, max, 0) == raw,
{
    assert(floor_boundary(doc, raw) == raw);
    if end - max > raw {
        lemma_ceil_bounds_any(doc, end - max);
    }
}

/// The ceiling of a position within the document is at or above it.
proof fn lemma_ceil_bounds_any(doc: Seq<u8>, i: int)
    requires
        0 <= i <= doc.len(),
    ensures
        i <= ceil_boundary(doc, i),
    decreases doc.len() - i,
{
    if i < doc.len() && !is_char_boundary(doc, i) {
        lemma_ceil_bounds_any(doc, i + 1);
    }
}

impl Chunker for RecursiveChunker {
    fn chunk(&self, text: &str) -> Vec<Slab> {
        RecursiveChunker::chunk(self, text)
    }

    fn estimate_chunks(&self, text_len: usize) -> usize {
        let step = if self.max_size > self.overlap {
            self.max_size - self.overlap
        } else {
            1
        };
        let n = text_len / step;
        if n > 1 {
            n
        } else {
            1
        }
    }
}

} // verus!
