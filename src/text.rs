//! Byte-level facts about UTF-8 text, and the few std string operations the
//! chunkers need.
use vstd::prelude::*;
use vstd::utf8::*;
use vstd::string::*;

verus! {

broadcast use vstd::utf8::group_utf8_lib;

/// The UTF-8 encoding of a character sequence.
pub open spec fn utf8_bytes(s: Seq<char>) -> Seq<u8> {
    encode_utf8(s)
}

/// `[start, end)` is a pair of character boundaries of `doc`.
pub open spec fn is_boundary_span(doc: Seq<u8>, start: int, end: int) -> bool {
    &&& 0 <= start <= end <= doc.len()
    &&& is_char_boundary(doc, start)
    &&& is_char_boundary(doc, end)
}

/// The nearest character boundary at or below `i`.
pub open spec fn floor_boundary(doc: Seq<u8>, i: int) -> int
    decreases i,
{
    if i <= 0 {
        0
    } else if is_char_boundary(doc, i) {
        i
    } else {
        floor_boundary(doc, i - 1)
    }
}

/// The nearest character boundary at or above `i`, or the end of `doc`.
pub open spec fn ceil_boundary(doc: Seq<u8>, i: int) -> int
    decreases doc.len() - i,
{
    if i >= doc.len() {
        doc.len() as int
    } else if is_char_boundary(doc, i) {
        i
    } else {
        ceil_boundary(doc, i + 1)
    }
}

/// No character boundary lies strictly inside `b`: it holds at most one
/// character.
pub open spec fn no_inner_boundary(b: Seq<u8>) -> bool {
    forall|k: int| 0 < k < b.len() ==> !#[trigger] is_char_boundary(b, k)
}

/// No position in `[i, ceil_boundary(doc, i))` is a character boundary.
pub proof fn lemma_ceil_skips(doc: Seq<u8>, i: int, j: int)
    requires
        0 <= i <= j < ceil_boundary(doc, i),
    ensures
        !is_char_boundary(doc, j),
    decreases doc.len() - i,
{
    if i < doc.len() && !is_char_boundary(doc, i) && j > i {
        lemma_ceil_skips(doc, i + 1, j);
    }
}

/// Inside a piece cut at a boundary, the character boundaries are those of
/// the whole text.
pub proof fn lemma_inner_boundary(doc: Seq<u8>, start: int, end: int, k: int)
    requires
        valid_utf8(doc),
        is_boundary_span(doc, start, end),
        0 < k < end - start,
    ensures
        is_char_boundary(doc.subrange(start, end), k) == is_char_boundary(doc, start + k),
{
    valid_utf8_split(doc, start);
    let tail = doc.subrange(start, doc.len() as int);
    assert(is_char_boundary(tail, end - start)) by {
        assert(is_char_boundary(doc, end));
        if end < doc.len() {
            is_char_boundary_iff_not_is_continuation_byte(doc, end);
            is_char_boundary_iff_not_is_continuation_byte(tail, end - start);
            assert(tail[end - start] == doc[end]);
        } else {
            is_char_boundary_start_end_of_seq(tail);
        }
    }
    valid_utf8_split(tail, end - start);
    let piece = doc.subrange(start, end);
    assert(tail.subrange(0, end - start) =~= piece);
    is_char_boundary_iff_not_is_continuation_byte(piece, k);
    is_char_boundary_iff_not_is_continuation_byte(doc, start + k);
    assert(piece[k] == doc[start + k]);
}

/// The floor of `i` lies between any boundary at or below `i` and `i`.
pub proof fn lemma_floor_bounds(doc: Seq<u8>, i: int, b: int)
    requires
        0 <= b <= i,
        is_char_boundary(doc, b),
    ensures
        b <= floor_boundary(doc, i) <= i,
    decreases i,
{
    if i > 0 && !is_char_boundary(doc, i) {
        lemma_floor_bounds(doc, i - 1, b);
    }
}

/// The floor of a position is a character boundary.
pub proof fn lemma_floor_is_boundary(doc: Seq<u8>, i: int)
    requires
        valid_utf8(doc),
    ensures
        is_char_boundary(doc, floor_boundary(doc, i)),
    decreases i,
{
    is_char_boundary_start_end_of_seq(doc);
    if i > 0 && !is_char_boundary(doc, i) {
        lemma_floor_is_boundary(doc, i - 1);
    }
}

/// The ceiling of `i <= len` is a boundary between `i` and the end.
pub proof fn lemma_ceil_bounds(doc: Seq<u8>, i: int)
    requires
        valid_utf8(doc),
        0 <= i <= doc.len(),
    ensures
        i <= ceil_boundary(doc, i) <= doc.len(),
        is_char_boundary(doc, ceil_boundary(doc, i)),
    decreases doc.len() - i,
{
    if i >= doc.len() {
        is_char_boundary_start_end_of_seq(doc);
    } else if !is_char_boundary(doc, i) {
        lemma_ceil_bounds(doc, i + 1);
    }
}

/// The ceiling is monotone.
pub proof fn lemma_ceil_mono(doc: Seq<u8>, i: int, j: int)
    requires
        valid_utf8(doc),
        0 <= i <= j <= doc.len(),
    ensures
        ceil_boundary(doc, i) <= ceil_boundary(doc, j),
    decreases j - i,
{
    lemma_ceil_bounds(doc, j);
    if i < j && i < doc.len() && !is_char_boundary(doc, i) {
        lemma_ceil_mono(doc, i + 1, j);
    }
}

/// The largest character boundary of `s` at or below `i <= s.len()`.
pub fn floor_char_boundary(s: &str, i: usize) -> (r: usize)
    requires
        i <= s.spec_bytes().len(),
    ensures
        r == floor_boundary(s.spec_bytes(), i as int),
        r <= i,
        is_char_boundary(s.spec_bytes(), r as int),
{
    let mut j = i;
    while j > 0 && !s.is_char_boundary(j)
        invariant
            j <= i,
            floor_boundary(s.spec_bytes(), j as int) == floor_boundary(s.spec_bytes(), i as int),
        decreases j,
    {
        j -= 1;
    }
    j
}

/// The smallest character boundary of `s` at or above `i`, at most `s.len()`.
pub fn ceil_char_boundary(s: &str, i: usize) -> (r: usize)
    requires
        i <= s.spec_bytes().len(),
    ensures
        r == ceil_boundary(s.spec_bytes(), i as int),
        i <= r <= s.spec_bytes().len(),
        is_char_boundary(s.spec_bytes(), r as int),
{
    let len = byte_len(s);
    let mut j = i;
    while j < len && !s.is_char_boundary(j)
        invariant
            i <= j <= len,
            len == s.spec_bytes().len(),
            ceil_boundary(s.spec_bytes(), j as int) == ceil_boundary(s.spec_bytes(), i as int),
        decreases len - j,
    {
        j += 1;
    }
    proof {
        if j == len {
            is_char_boundary_start_end_of_seq(s.spec_bytes());
        }
    }
    j
}

/// A non-empty text has a non-empty encoding.
pub proof fn lemma_utf8_nonempty(s: Seq<char>)
    requires
        s.len() > 0,
    ensures
        utf8_bytes(s).len() > 0,
{
    assert(encode_scalar(s[0] as u32).len() >= 1);
}

/// Encoding distributes over concatenation.
pub proof fn lemma_utf8_bytes_concat(a: Seq<char>, b: Seq<char>)
    ensures
        utf8_bytes(a + b) == utf8_bytes(a) + utf8_bytes(b),
    decreases a.len(),
{
    if a.len() == 0 {
        assert(a + b =~= b);
        assert(utf8_bytes(a) + utf8_bytes(b) =~= utf8_bytes(b));
    } else {
        assert((a + b).drop_first() =~= a.drop_first() + b);
        lemma_utf8_bytes_concat(a.drop_first(), b);
        assert(utf8_bytes(a + b) =~= utf8_bytes(a) + utf8_bytes(b));
    }
}

/// The length of `s` in bytes.
pub fn byte_len(s: &str) -> (r: usize)
    ensures
        r == s.spec_bytes().len(),
{
    s.as_bytes().len()
}

/// The character views of a list of strings.
pub open spec fn views(v: Seq<String>) -> Seq<Seq<char>> {
    v.map_values(|p: String| p@)
}

/// The concatenation of a list of character sequences.
pub open spec fn concat_all(s: Seq<Seq<char>>) -> Seq<char>
    decreases s.len(),
{
    if s.len() == 0 {
        seq![]
    } else {
        concat_all(s.drop_last()) + s.last()
    }
}

/// `parts` joined with `sep` between each two neighbours.
pub open spec fn join_with(parts: Seq<Seq<char>>, sep: Seq<char>) -> Seq<char>
    decreases parts.len(),
{
    if parts.len() == 0 {
        seq![]
    } else if parts.len() == 1 {
        parts[0]
    } else {
        parts[0] + sep + join_with(parts.drop_first(), sep)
    }
}

/// Joining one more part adds the separator and the part at the end.
pub proof fn lemma_join_push(p: Seq<Seq<char>>, sep: Seq<char>, x: Seq<char>)
    ensures
        join_with(p.push(x), sep) == if p.len() == 0 {
            x
        } else {
            join_with(p, sep) + sep + x
        },
    decreases p.len(),
{
    if p.len() == 1 {
        assert(p.push(x).drop_first() =~= seq![x]);
        assert(join_with(seq![x], sep) == x);
    } else if p.len() > 1 {
        assert(p.push(x).drop_first() =~= p.drop_first().push(x));
        lemma_join_push(p.drop_first(), sep, x);
        assert(join_with(p.push(x), sep) =~= join_with(p, sep) + sep + x);
    }
}

pub proof fn lemma_concat_all_append(a: Seq<Seq<char>>, b: Seq<Seq<char>>)
    ensures
        concat_all(a + b) == concat_all(a) + concat_all(b),
    decreases b.len(),
{
    if b.len() == 0 {
        assert(a + b =~= a);
        assert(concat_all(a) + concat_all(b) =~= concat_all(a));
    } else {
        assert((a + b).drop_last() =~= a + b.drop_last());
        lemma_concat_all_append(a, b.drop_last());
        assert(concat_all(a + b) =~= concat_all(a) + concat_all(b));
    }
}

pub proof fn lemma_concat_all_single(x: Seq<char>)
    ensures
        concat_all(seq![x]) == x,
{
    assert(seq![x].drop_last() =~= Seq::<Seq<char>>::empty());
    assert(concat_all(Seq::<Seq<char>>::empty()) + x =~= x);
}

/// The position right after a prefix is a character boundary.
pub proof fn lemma_boundary_after_prefix(a: Seq<char>, b: Seq<char>)
    ensures
        is_char_boundary(utf8_bytes(a + b), utf8_bytes(a).len() as int),
    decreases a.len(),
{
    lemma_utf8_bytes_concat(a, b);
    if a.len() > 0 {
        let ab = a + b;
        encode_utf8_first_scalar(ab);
        encode_utf8_valid_utf8(ab);
        assert(pop_first_scalar(encode_utf8(ab)) =~= encode_utf8(ab.drop_first()));
        assert(ab.drop_first() =~= a.drop_first() + b);
        assert(ab[0] == a[0]);
        lemma_boundary_after_prefix(a.drop_first(), b);
    }
}

/// In the encoding of a concatenation, piece `i` occupies the bytes right
/// after the pieces before it, between two character boundaries.
pub proof fn lemma_piece_span(s: Seq<Seq<char>>, i: int)
    requires
        0 <= i < s.len(),
    ensures
        ({
            let doc = utf8_bytes(concat_all(s));
            let pre = utf8_bytes(concat_all(s.subrange(0, i))).len() as int;
            let post = pre + utf8_bytes(s[i]).len();
            &&& post <= doc.len()
            &&& is_char_boundary(doc, pre)
            &&& is_char_boundary(doc, post)
            &&& doc.subrange(pre, post) == utf8_bytes(s[i])
            &&& utf8_bytes(concat_all(s.subrange(0, i + 1))).len() == post
        }),
{
    let a = concat_all(s.subrange(0, i));
    let x = s[i];
    let rest = s.subrange(i + 1, s.len() as int);
    let c = concat_all(rest);
    assert(s =~= s.subrange(0, i) + seq![x] + rest);
    assert(s.subrange(0, i + 1) =~= s.subrange(0, i) + seq![x]);
    lemma_concat_all_append(s.subrange(0, i) + seq![x], rest);
    lemma_concat_all_append(s.subrange(0, i), seq![x]);
    lemma_concat_all_single(x);
    assert(concat_all(s) == a + x + c);
    assert(a + x + c =~= a + (x + c));
    lemma_boundary_after_prefix(a, x + c);
    lemma_boundary_after_prefix(a + x, c);
    lemma_utf8_bytes_concat(a, x);
    lemma_utf8_bytes_concat(a + x, c);
    let doc = utf8_bytes(concat_all(s));
    assert(doc == utf8_bytes(a) + utf8_bytes(x) + utf8_bytes(c));
    assert(doc.subrange(utf8_bytes(a).len() as int, (utf8_bytes(a).len() + utf8_bytes(x).len()) as int)
        =~= utf8_bytes(x));
}

/// Whether two strings are equal, compared byte by byte.
pub fn str_eq(a: &str, b: &str) -> (r: bool)
    ensures
        r == (a@ == b@),
{
    let x = a.as_bytes();
    let y = b.as_bytes();
    if x.len() != y.len() {
        return false;
    }
    let mut i: usize = 0;
    while i < x.len()
        invariant
            x@ == a.spec_bytes(),
            y@ == b.spec_bytes(),
            x@.len() == y@.len(),
            i <= x@.len(),
            forall|k: int| 0 <= k < i ==> x@[k] == y@[k],
        decreases x@.len() - i,
    {
        if x[i] != y[i] {
            return false;
        }
        i += 1;
    }
    proof {
        assert(x@ =~= y@);
        encode_utf8_decode_utf8(a@);
        encode_utf8_decode_utf8(b@);
    }
    true
}

/// Unicode's White_Space property: what `char::is_whitespace` reports, and
/// what `str::trim_start` and `str::trim_end` remove.
pub open spec fn white_space(c: char) -> bool {
    let u = c as u32;
    ||| 0x9 <= u <= 0xD
    ||| u == 0x20
    ||| u == 0x85
    ||| u == 0xA0
    ||| u == 0x1680
    ||| 0x2000 <= u <= 0x200A
    ||| u == 0x2028
    ||| u == 0x2029
    ||| u == 0x202F
    ||| u == 0x205F
    ||| u == 0x3000
}

/// All characters of `s` are white space.
pub open spec fn blank(s: Seq<char>) -> bool {
    forall|k: int| 0 <= k < s.len() ==> white_space(#[trigger] s[k])
}

/// `s` without its leading white space.
///
/// Relies on std's `str::trim_start`: the result is the suffix of `s` that
/// starts at its first character that is not white space.
#[verifier::external_body]
pub fn trim_start(s: &str) -> (r: &str)
    ensures
        r@.len() <= s@.len(),
        r@ == s@.subrange(s@.len() - r@.len(), s@.len() as int),
        blank(s@.subrange(0, s@.len() - r@.len())),
        r@.len() > 0 ==> !white_space(r@[0]),
{
    s.trim_start()
}

/// `s` without its trailing white space.
///
/// Relies on std's `str::trim_end`: the result is the prefix of `s` that ends
/// at its last character that is not white space.
#[verifier::external_body]
pub fn trim_end(s: &str) -> (r: &str)
    ensures
        r@.len() <= s@.len(),
        r@ == s@.subrange(0, r@.len() as int),
        blank(s@.subrange(r@.len() as int, s@.len() as int)),
        r@.len() > 0 ==> !white_space(r@[r@.len() - 1]),
{
    s.trim_end()
}

/// The number of white-space characters `s` starts with.
pub open spec fn lead_ws(s: Seq<char>) -> int
    decreases s.len(),
{
    if s.len() == 0 || !white_space(s[0]) {
        0
    } else {
        1 + lead_ws(s.drop_first())
    }
}

/// The number of white-space characters `s` ends with.
pub open spec fn trail_ws(s: Seq<char>) -> int
    decreases s.len(),
{
    if s.len() == 0 || !white_space(s.last()) {
        0
    } else {
        1 + trail_ws(s.drop_last())
    }
}

/// `s` without its leading and trailing white space.
pub open spec fn trim_chars(s: Seq<char>) -> Seq<char> {
    if lead_ws(s) == s.len() {
        seq![]
    } else {
        s.subrange(lead_ws(s), s.len() - trail_ws(s))
    }
}

pub proof fn lemma_lead_ws(s: Seq<char>, m: int)
    requires
        0 <= m <= s.len(),
        blank(s.subrange(0, m)),
        m < s.len() ==> !white_space(s[m]),
    ensures
        lead_ws(s) == m,
    decreases m,
{
    if m > 0 {
        assert(white_space(s.subrange(0, m)[0]));
        assert(s.drop_first().subrange(0, m - 1) =~= s.subrange(0, m).drop_first());
        assert forall|k: int| 0 <= k < m - 1 implies white_space(
            #[trigger] s.drop_first().subrange(0, m - 1)[k],
        ) by {
            assert(s.drop_first().subrange(0, m - 1)[k] == s.subrange(0, m)[k + 1]);
        }
        lemma_lead_ws(s.drop_first(), m - 1);
    }
}

pub proof fn lemma_trail_ws(s: Seq<char>, m: int)
    requires
        0 <= m <= s.len(),
        blank(s.subrange(m, s.len() as int)),
        m > 0 ==> !white_space(s[m - 1]),
    ensures
        trail_ws(s) == s.len() - m,
    decreases s.len() - m,
{
    if m < s.len() {
        assert(white_space(s.subrange(m, s.len() as int)[s.len() - m - 1]));
        let t = s.drop_last();
        assert forall|k: int| 0 <= k < t.len() - m implies white_space(
            #[trigger] t.subrange(m, t.len() as int)[k],
        ) by {
            assert(t.subrange(m, t.len() as int)[k] == s.subrange(m, s.len() as int)[k]);
        }
        lemma_trail_ws(t, m);
    }
}

/// Whether `s` holds only white space.
pub fn is_blank(s: &str) -> (r: bool)
    ensures
        r == blank(s@),
{
    let t = trim_start(s);
    let r = t.is_empty();
    proof {
        if !r {
            assert(!white_space(s@[s@.len() - t@.len()]));
        } else {
            assert(s@.subrange(0, s@.len() - t@.len()) =~= s@);
        }
    }
    r
}

/// Where piece `k` of a concatenation starts, in bytes.
pub open spec fn piece_start(p: Seq<Seq<char>>, k: int) -> int {
    utf8_bytes(concat_all(p.subrange(0, k))).len() as int
}

/// The bytes from piece `x` up to piece `y` are the encoding of those
/// pieces; both ends are character boundaries.
pub proof fn lemma_pieces_span(p: Seq<Seq<char>>, x: int, y: int)
    requires
        0 <= x <= y <= p.len(),
    ensures
        piece_start(p, x) <= piece_start(p, y) <= utf8_bytes(concat_all(p)).len(),
        utf8_bytes(concat_all(p)).subrange(piece_start(p, x), piece_start(p, y)) == utf8_bytes(
            concat_all(p.subrange(x, y)),
        ),
        is_char_boundary(utf8_bytes(concat_all(p)), piece_start(p, x)),
        is_char_boundary(utf8_bytes(concat_all(p)), piece_start(p, y)),
{
    let a = concat_all(p.subrange(0, x));
    let b = concat_all(p.subrange(x, y));
    let c = concat_all(p.subrange(y, p.len() as int));
    assert(p.subrange(0, y) =~= p.subrange(0, x) + p.subrange(x, y));
    assert(p =~= p.subrange(0, y) + p.subrange(y, p.len() as int));
    lemma_concat_all_append(p.subrange(0, x), p.subrange(x, y));
    lemma_concat_all_append(p.subrange(0, y), p.subrange(y, p.len() as int));
    lemma_utf8_bytes_concat(a, b);
    lemma_utf8_bytes_concat(a + b, c);
    assert(a + b + c =~= a + (b + c));
    lemma_boundary_after_prefix(a, b + c);
    lemma_boundary_after_prefix(a + b, c);
    let doc = utf8_bytes(concat_all(p));
    assert(doc == utf8_bytes(a) + utf8_bytes(b) + utf8_bytes(c));
    assert(doc.subrange(utf8_bytes(a).len() as int, (utf8_bytes(a).len() + utf8_bytes(b).len()) as int)
        =~= utf8_bytes(b));
}

/// A concatenation starts with its first piece.
pub proof fn lemma_concat_all_first(p: Seq<Seq<char>>)
    requires
        p.len() > 0,
    ensures
        concat_all(p) == p[0] + concat_all(p.drop_first()),
{
    assert(p =~= seq![p[0]] + p.drop_first());
    lemma_concat_all_append(seq![p[0]], p.drop_first());
    lemma_concat_all_single(p[0]);
}

/// Appends `t` to `s`.
///
/// Relies on std's `String::push_str`.
#[verifier::external_body]
pub fn push_str(s: &mut String, t: &str)
    ensures
        final(s)@ == old(s)@ + t@,
{
    s.push_str(t)
}

/// The text between two character boundaries of `s`.
///
/// Relies on std's `str` range indexing, which returns the bytes
/// `[start, end)` and panics only when an end is not a character boundary or
/// is out of range.
#[verifier::external_body]
pub fn substr(s: &str, start: usize, end: usize) -> (r: &str)
    requires
        is_boundary_span(s.spec_bytes(), start as int, end as int),
    ensures
        r.spec_bytes() == s.spec_bytes().subrange(start as int, end as int),
{
    &s[start..end]
}

} // verus!
