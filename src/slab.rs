//! The slab: one chunk of text with its position in the document.
use vstd::prelude::*;
use crate::text::{byte_len, is_boundary_span, push_str, utf8_bytes};

verus! {

/// A chunk of text with its byte span `[start, end)` in the source
/// document and its zero-based position in the emitted sequence.
#[derive(Debug, Clone, PartialEq, Eq)]
pub struct Slab {
    /// The chunk text.
    pub text: String,
    /// Byte offset where this chunk starts in the source document.
    pub start: usize,
    /// Byte offset where this chunk ends (exclusive).
    pub end: usize,
    /// Zero-based index of this chunk in the sequence.
    pub index: usize,
}

/// The slab's span is a pair of character boundaries of `doc` and its text
/// is exactly the bytes of that span.
pub open spec fn slab_in_doc(s: Slab, doc: Seq<u8>) -> bool {
    &&& is_boundary_span(doc, s.start as int, s.end as int)
    &&& s.bytes() == doc.subrange(s.start as int, s.end as int)
}

/// The slabs are the given spans of `doc`, in order, numbered from zero.
pub open spec fn slabs_follow(r: Seq<Slab>, spans: Seq<(int, int)>, doc: Seq<u8>) -> bool {
    &&& r.len() == spans.len()
    &&& forall|i: int|
        0 <= i < r.len() ==> {
            &&& (#[trigger] r[i]).start == spans[i].0
            &&& r[i].end == spans[i].1
            &&& r[i].index == i
            &&& slab_in_doc(r[i], doc)
        }
}

/// The character of a decimal digit.
pub open spec fn digit_char(d: nat) -> char {
    if d == 0 { '0' }
    else if d == 1 { '1' }
    else if d == 2 { '2' }
    else if d == 3 { '3' }
    else if d == 4 { '4' }
    else if d == 5 { '5' }
    else if d == 6 { '6' }
    else if d == 7 { '7' }
    else if d == 8 { '8' }
    else { '9' }
}

/// `n` written in decimal.
pub open spec fn decimal(n: nat) -> Seq<char>
    decreases n,
{
    if n < 10 {
        seq![digit_char(n)]
    } else {
        decimal(n / 10).push(digit_char(n % 10))
    }
}

/// The one-character string of a decimal digit.
fn digit_str(d: usize) -> (r: &'static str)
    requires
        d < 10,
    ensures
        r@ == seq![digit_char(d as nat)],
{
    proof {
        reveal_strlit("0");
        reveal_strlit("1");
        reveal_strlit("2");
        reveal_strlit("3");
        reveal_strlit("4");
        reveal_strlit("5");
        reveal_strlit("6");
        reveal_strlit("7");
        reveal_strlit("8");
        reveal_strlit("9");
    }
    let r = if d == 0 {
        "0"
    } else if d == 1 {
        "1"
    } else if d == 2 {
        "2"
    } else if d == 3 {
        "3"
    } else if d == 4 {
        "4"
    } else if d == 5 {
        "5"
    } else if d == 6 {
        "6"
    } else if d == 7 {
        "7"
    } else if d == 8 {
        "8"
    } else {
        "9"
    };
    proof {
        assert(r@ =~= seq![digit_char(d as nat)]);
    }
    r
}

/// Append `n` in decimal to `s`.
fn push_decimal(s: &mut String, n: usize)
    ensures
        final(s)@ == old(s)@ + decimal(n as nat),
    decreases n,
{
    if n < 10 {
        push_str(s, digit_str(n));
    } else {
        push_decimal(s, n / 10);
        push_str(s, digit_str(n % 10));
        proof {
            assert(decimal(n as nat) == decimal((n / 10) as nat).push(digit_char((n % 10) as nat)));
            assert(final(s)@ =~= old(s)@ + decimal(n as nat));
        }
    }
}

impl Slab {
    /// The UTF-8 bytes of the chunk text.
    pub open spec fn bytes(&self) -> Seq<u8> {
        utf8_bytes(self.text@)
    }

    /// Create a new slab.
    pub fn new(text: &str, start: usize, end: usize, index: usize) -> (r: Slab)
        ensures
            r.text@ == text@,
            r.start == start,
            r.end == end,
            r.index == index,
    {
        Slab { text: text.to_owned(), start, end, index }
    }

    /// The length of this chunk in bytes.
    pub fn len(&self) -> (r: usize)
        ensures
            r == self.bytes().len(),
    {
        byte_len(self.text.as_str())
    }

    /// Whether this chunk is empty.
    pub fn is_empty(&self) -> (r: bool)
        ensures
            r == (self.text@.len() == 0),
    {
        self.text.as_str().is_empty()
    }

    /// A one-line description:
    /// `Slab { index: I, span: START..END, len: LEN }`.
    pub fn to_string(&self) -> (r: String)
        ensures
            r@ == "Slab { index: "@ + decimal(self.index as nat) + ", span: "@ + decimal(
                self.start as nat,
            ) + ".."@ + decimal(self.end as nat) + ", len: "@ + decimal(
                self.bytes().len(),
            ) + " }"@,
    {
        let mut r = String::new();
        push_str(&mut r, "Slab { index: ");
        push_decimal(&mut r, self.index);
        push_str(&mut r, ", span: ");
        push_decimal(&mut r, self.start);
        push_str(&mut r, "..");
        push_decimal(&mut r, self.end);
        push_str(&mut r, ", len: ");
        push_decimal(&mut r, self.len());
        push_str(&mut r, " }");
        proof {
            assert(r@ =~= "Slab { index: "@ + decimal(self.index as nat) + ", span: "@ + decimal(
                self.start as nat,
            ) + ".."@ + decimal(self.end as nat) + ", len: "@ + decimal(self.bytes().len())
                + " }"@);
        }
        r
    }

    /// The byte span of this chunk in the source document.
    pub fn span(&self) -> (r: core::ops::Range<usize>)
        ensures
            r.start == self.start,
            r.end == self.end,
    {
        self.start..self.end
    }
}

} // verus!
