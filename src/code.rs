//! Structure-aware chunking of source code: the syntax tree is cut into
//! atomic units, which are merged into maximal chunks with whole-unit
//! overlap.
use vstd::prelude::*;
use vstd::string::*;
use vstd::utf8::*;
use crate::Chunker;
use crate::recursive::{RecursiveChunker, holds_fragments, lemma_pulled_no_overlap, raw_start, recursive_slabs, split_rec};
use crate::slab::{Slab, slab_in_doc};
use crate::text::{
    blank, floor_boundary, byte_len, is_blank, is_boundary_span, lemma_inner_boundary, lemma_piece_span, piece_start,
    str_eq, substr, utf8_bytes,
};

verus! {

broadcast use vstd::utf8::group_utf8_lib;

/// Supported programming languages.
#[derive(Debug, Clone, Copy, PartialEq, Eq, Structural)]
pub enum CodeLanguage {
    Rust,
    Python,
    /// TypeScript and JavaScript.
    TypeScript,
    Go,
}

/// The language a file extension stands for.
pub open spec fn extension_language(ext: Seq<char>) -> Option<CodeLanguage> {
    if ext == "rs"@ {
        Some(CodeLanguage::Rust)
    } else if ext == "py"@ {
        Some(CodeLanguage::Python)
    } else if ext == "ts"@ || ext == "tsx"@ || ext == "js"@ || ext == "jsx"@ {
        Some(CodeLanguage::TypeScript)
    } else if ext == "go"@ {
        Some(CodeLanguage::Go)
    } else {
        None
    }
}

/// The node kinds that stand for a cohesive block (function, class, type).
pub open spec fn block_kind(lang: CodeLanguage, kind: Seq<char>) -> bool {
    match lang {
        CodeLanguage::Rust => kind == "function_item"@ || kind == "impl_item"@ || kind
            == "mod_item"@ || kind == "struct_item"@ || kind == "enum_item"@ || kind
            == "trait_item"@,
        CodeLanguage::Python => kind == "function_definition"@ || kind == "class_definition"@,
        CodeLanguage::TypeScript => kind == "function_declaration"@ || kind
            == "class_declaration"@ || kind == "method_definition"@ || kind
            == "interface_declaration"@ || kind == "enum_declaration"@,
        CodeLanguage::Go => kind == "function_declaration"@ || kind == "method_declaration"@
            || kind == "type_declaration"@,
    }
}

#[verifier::external_type_specification]
#[verifier::external_body]
pub struct ExLanguage(tree_sitter::Language);

/// What the grammar constants are: the tree-sitter grammar of `lang`.
pub uninterp spec fn grammar(lang: CodeLanguage) -> tree_sitter::Language;

/// What `parse_syntax` returns: the syntax tree of `text` in `lang` listed in
/// pre-order, or `None` when parsing fails. A fresh parser has no timeout and
/// no cancellation flag, so this depends on the grammar and the text alone.
pub uninterp spec fn syntax_tree(lang: CodeLanguage, text: Seq<char>) -> Option<Seq<SyntaxNode>>;

/// Relies on tree-sitter-rust's `LANGUAGE`: the Rust grammar.
#[verifier::external_body]
fn rust_grammar() -> (r: tree_sitter::Language)
    ensures
        r == grammar(CodeLanguage::Rust),
{
    tree_sitter_rust::LANGUAGE.into()
}

/// Relies on tree-sitter-python's `LANGUAGE`: the Python grammar.
#[verifier::external_body]
fn python_grammar() -> (r: tree_sitter::Language)
    ensures
        r == grammar(CodeLanguage::Python),
{
    tree_sitter_python::LANGUAGE.into()
}

/// Relies on tree-sitter-typescript's `LANGUAGE_TYPESCRIPT`: the TypeScript
/// grammar.
#[verifier::external_body]
fn typescript_grammar() -> (r: tree_sitter::Language)
    ensures
        r == grammar(CodeLanguage::TypeScript),
{
    tree_sitter_typescript::LANGUAGE_TYPESCRIPT.into()
}

/// Relies on tree-sitter-go's `LANGUAGE`: the Go grammar.
#[verifier::external_body]
fn go_grammar() -> (r: tree_sitter::Language)
    ensures
        r == grammar(CodeLanguage::Go),
{
    tree_sitter_go::LANGUAGE.into()
}

impl CodeLanguage {
    /// The tree-sitter grammar of this language.
    pub fn get_language(&self) -> (r: tree_sitter::Language)
        ensures
            r == grammar(*self),
    {
        match self {
            Self::Rust => rust_grammar(),
            Self::Python => python_grammar(),
            Self::TypeScript => typescript_grammar(),
            Self::Go => go_grammar(),
        }
    }

    /// The language of a file extension, if it is supported.
    pub fn from_extension(ext: &str) -> (r: Option<Self>)
        ensures
            r == extension_language(ext@),
    {
        if str_eq(ext, "rs") {
            Some(Self::Rust)
        } else if str_eq(ext, "py") {
            Some(Self::Python)
        } else if str_eq(ext, "ts") || str_eq(ext, "tsx") || str_eq(ext, "js") || str_eq(
            ext,
            "jsx",
        ) {
            Some(Self::TypeScript)
        } else if str_eq(ext, "go") {
            Some(Self::Go)
        } else {
            None
        }
    }

    /// Whether a node kind stands for a cohesive block in this language.
    pub fn is_block_node(&self, kind: &str) -> (r: bool)
        ensures
            r == block_kind(*self, kind@),
    {
        match self {
            Self::Rust => str_eq(kind, "function_item") || str_eq(kind, "impl_item") || str_eq(
                kind,
                "mod_item",
            ) || str_eq(kind, "struct_item") || str_eq(kind, "enum_item") || str_eq(
                kind,
                "trait_item",
            ),
            Self::Python => str_eq(kind, "function_definition") || str_eq(kind, "class_definition"),
            Self::TypeScript => str_eq(kind, "function_declaration") || str_eq(
                kind,
                "class_declaration",
            ) || str_eq(kind, "method_definition") || str_eq(kind, "interface_declaration")
                || str_eq(kind, "enum_declaration"),
            Self::Go => str_eq(kind, "function_declaration") || str_eq(kind, "method_declaration")
                || str_eq(kind, "type_declaration"),
        }
    }
}

/// Errors of code chunking.
#[derive(Debug, Clone, PartialEq, Eq)]
pub enum CodeChunkerError {
    /// The grammar was generated for a parser version this library does not
    /// support.
    LanguageError { version: usize },
    /// The text could not be parsed.
    ParseError,
}

/// One node of a syntax tree listed in pre-order: its byte range and the
/// position of its parent in the list (`None` for the root).
#[derive(Debug, Clone, Copy, PartialEq, Eq)]
pub struct SyntaxNode {
    pub start: usize,
    pub end: usize,
    pub parent: Option<usize>,
}

/// The syntax tree of `text` in `language`, the grammar of `lang`, listed in
/// pre-order.
///
/// Relies on tree-sitter's `Parser::set_language` and `Parser::parse` (`None`
/// when either fails; a fresh parser has no timeout or cancellation flag) and
/// copies each node's `start_byte`, `end_byte` and children as listed by
/// `Node::children`.
#[verifier::external_body]
fn parse_syntax(lang: CodeLanguage, language: &tree_sitter::Language, text: &str) -> (r: Option<
    Vec<SyntaxNode>,
>)
    requires
        *language == grammar(lang),
    ensures
        r is None <==> syntax_tree(lang, text@) is None,
        r matches Some(v) ==> syntax_tree(lang, text@) == Some(v@),
{
    let _ = lang;
    let mut parser = tree_sitter::Parser::new();
    parser.set_language(language).ok()?;
    let tree = parser.parse(text, None)?;
    let mut nodes = Vec::new();
    let mut stack = vec![(tree.root_node(), None)];
    while let Some((node, parent)) = stack.pop() {
        let at = Some(nodes.len());
        nodes.push(SyntaxNode { start: node.start_byte(), end: node.end_byte(), parent });
        let mut cursor = node.walk();
        let kids: Vec<_> = node.children(&mut cursor).map(|k| (k, at)).collect();
        stack.extend(kids.into_iter().rev());
    }
    Some(nodes)
}

/// Every node spans a pair of character boundaries of `doc`, and every
/// parent comes before its children and contains them.
pub open spec fn tree_wf(nodes: Seq<SyntaxNode>, doc: Seq<u8>) -> bool {
    forall|j: int|
        0 <= j < nodes.len() ==> {
            &&& is_boundary_span(doc, (#[trigger] nodes[j]).start as int, nodes[j].end as int)
            &&& match nodes[j].parent {
                None => true,
                Some(p) => p < j && nodes[p as int].start <= nodes[j].start && nodes[j].end
                    <= nodes[p as int].end,
            }
        }
}

/// The units are spans of `doc` between character boundaries, in order and
/// not overlapping.
pub open spec fn units_ordered(units: Seq<(usize, usize)>, doc: Seq<u8>) -> bool {
    &&& forall|k: int|
        0 <= k < units.len() ==> is_boundary_span(
            doc,
            (#[trigger] units[k]).0 as int,
            units[k].1 as int,
        )
    &&& forall|k: int| 0 <= k < units.len() - 1 ==> (#[trigger] units[k]).1 <= units[k + 1].0
}

/// Every unit is a span of `doc` between character boundaries inside
/// `[lo, hi]`.
pub open spec fn units_within(units: Seq<(usize, usize)>, doc: Seq<u8>, lo: int, hi: int) -> bool {
    forall|k: int|
        0 <= k < units.len() ==> {
            &&& is_boundary_span(doc, (#[trigger] units[k]).0 as int, units[k].1 as int)
            &&& lo <= units[k].0
            &&& units[k].1 <= hi
        }
}

/// The chunks of the code splitter: non-empty exact spans of `doc`,
/// numbered from zero, whose starts and ends never move backwards; without
/// overlap they do not overlap at all.
pub open spec fn code_slabs(r: Seq<Slab>, doc: Seq<u8>, overlap: int) -> bool {
    &&& forall|k: int|
        0 <= k < r.len() ==> (#[trigger] r[k]).index == k && slab_in_doc(r[k], doc) && r[k].start
            < r[k].end
    &&& forall|k: int|
        0 <= k < r.len() - 1 ==> {
            &&& (#[trigger] r[k]).start <= r[k + 1].start
            &&& r[k].end <= r[k + 1].end
            &&& overlap == 0 ==> r[k].end <= r[k + 1].start
        }
}

/// Every chunk is at most `max` bytes, unless it is one unit.
pub open spec fn chunks_fit(r: Seq<Slab>, units: Seq<(usize, usize)>, max: int) -> bool {
    forall|k: int|
        0 <= k < r.len() ==> (#[trigger] r[k]).end - r[k].start <= max || exists|q: int|
            0 <= q < units.len() && units[q].0 == r[k].start && units[q].1 == r[k].end
}

/// No chunk could have taken in the next one: the two together span more
/// than `max` bytes.
pub open spec fn chunks_maximal(r: Seq<Slab>, max: int) -> bool {
    forall|k: int| 0 <= k < r.len() - 1 ==> r[k + 1].end - (#[trigger] r[k]).start > max
}

/// The chunks of `doc` given its syntax tree `nodes`: none for an empty or
/// malformed tree; otherwise the tree is cut into atomic units (see
/// [`node_units`]) and, when those are in order, the chunks are their greedy
/// merge (see [`merge_spans`]), each at most `max` bytes unless it is one
/// unit, and, without overlap, maximal; every byte of every unit lies in some
/// chunk; units out of order give no chunks.
pub open spec fn code_chunks_of(
    r: Seq<Slab>,
    doc: Seq<u8>,
    nodes: Seq<SyntaxNode>,
    max: int,
    overlap: int,
) -> bool {
    &&& !(nodes.len() > 0 && tree_wf(nodes, doc)) ==> r.len() == 0
    &&& nodes.len() > 0 && tree_wf(nodes, doc) ==> {
        let units = node_units(nodes, doc, max, 0);
        &&& !units_ordered(units, doc) ==> r.len() == 0
        &&& units_ordered(units, doc) ==> {
            &&& spans_of(r) == merge_spans(units, max, overlap, 0, 0, 0, 0, seq![])
            &&& chunks_fit(r, units, max)
            &&& overlap == 0 ==> chunks_maximal(r, max)
            &&& units_covered(r, units, units.len() as int)
        }
    }
}

/// Byte `p` lies in some chunk.
pub open spec fn covered(r: Seq<Slab>, p: int) -> bool {
    exists|k: int| 0 <= k < r.len() && (#[trigger] r[k]).start <= p < r[k].end
}

/// Every byte of unit `u` lies in some chunk.
pub open spec fn unit_covered(r: Seq<Slab>, u: (usize, usize)) -> bool {
    forall|p: int| u.0 <= p < u.1 ==> #[trigger] covered(r, p)
}

/// Every byte of the units before position `upto` lies in some chunk.
pub open spec fn units_covered(r: Seq<Slab>, units: Seq<(usize, usize)>, upto: int) -> bool {
    forall|q: int| 0 <= q < upto && q < units.len() ==> unit_covered(r, #[trigger] units[q])
}

/// Units `[first, i)` lying in an empty span have no bytes to cover.
proof fn lemma_zero_width_covered(
    r: Seq<Slab>,
    units: Seq<(usize, usize)>,
    doc: Seq<u8>,
    first: int,
    i: int,
)
    requires
        units_ordered(units, doc),
        0 <= first < i <= units.len(),
        units[first].0 >= units[i - 1].1,
        units_covered(r, units, first),
    ensures
        units_covered(r, units, i),
{
    assert forall|q: int| 0 <= q < i && q < units.len() implies unit_covered(r, #[trigger] units[q]) by {
        if q >= first {
            lemma_units_sorted_or_eq(units, doc, first, q);
            if q < i - 1 {
                lemma_units_sorted(units, doc, q, i - 1);
            }
            assert(is_boundary_span(doc, units[i - 1].0 as int, units[i - 1].1 as int));
            assert(units[q].0 >= units[q].1);
        }
    }
}

proof fn lemma_units_sorted(units: Seq<(usize, usize)>, doc: Seq<u8>, a: int, b: int)
    requires
        units_ordered(units, doc),
        0 <= a < b < units.len(),
    ensures
        units[a].1 <= units[b].0,
    decreases b - a,
{
    if b > a + 1 {
        lemma_units_sorted(units, doc, a, b - 1);
        assert(units[b - 1].0 <= units[b - 1].1);
        assert(units[b - 1].1 <= units[b].0);
    }
}

/// The spans of a list of slabs.
pub open spec fn spans_of(r: Seq<Slab>) -> Seq<(int, int)> {
    r.map_values(|s: Slab| (s.start as int, s.end as int))
}

/// Walking back from unit `j - 1` towards unit `first` (the first unit of
/// the chunk just emitted), having taken units from `taken` on for `size`
/// bytes: a unit is taken while the bytes from its start to the start of the
/// unit after it, added to `size`, stay within `overlap`, and the seeded
/// chunk up to the end `ue` of the unit that comes next stays within `max`.
pub open spec fn seed_walk(
    units: Seq<(usize, usize)>,
    first: int,
    overlap: int,
    max: int,
    ue: int,
    j: int,
    size: int,
    taken: int,
) -> int
    decreases j - first,
{
    if j <= first || j >= units.len() {
        taken
    } else {
        let k = j - 1;
        let add = units[k + 1].0 - units[k].0;
        if units[k + 1].0 < units[k].0 || add > overlap - size || ue < units[k].0 || ue
            - units[k].0 > max {
            taken
        } else {
            seed_walk(units, first, overlap, max, ue, k, size + add, k)
        }
    }
}

/// The first unit of the chunk that follows the chunk of units `[first, i)`
/// when unit `i` does not fit in it: the overlap seed, whole units walking
/// back from unit `i - 1` (always that one, even past the `overlap` budget;
/// see [`seed_walk`] for the others), as long as the seed with unit `i` fits in
/// `max` bytes and is not empty; otherwise unit `i` itself.
pub open spec fn seed_start(units: Seq<(usize, usize)>, first: int, overlap: int, max: int, i: int) -> int {
    if i <= first || i >= units.len() {
        i
    } else {
        let k = i - 1;
        let ue = units[i].1 as int;
        if units[i].0 < units[k].0 || ue < units[k].0 || ue - units[k].0 > max {
            i
        } else {
            let add = units[i].0 - units[k].0;
            let j = if add > overlap { k } else { seed_walk(units, first, overlap, max, ue, k, add, k) };
            if units[j].0 >= units[k].1 { i } else { j }
        }
    }
}

/// The spans of the chunks that the greedy merge makes of `units[i..]`,
/// after the chunks `out`, the current chunk being `[cs, ce)` and starting
/// at unit `first`: a unit joins the current chunk (with the text before
/// it) while the chunk stays within `max` bytes; otherwise the current chunk
/// is emitted and the next one starts at the overlap seed (see
/// [`seed_start`]; without overlap, at the unit itself). An empty current
/// chunk is never emitted: the next unit starts afresh. A unit larger than
/// `max` still makes a chunk of its own.
pub open spec fn merge_spans(
    units: Seq<(usize, usize)>,
    max: int,
    overlap: int,
    i: int,
    cs: int,
    ce: int,
    first: int,
    out: Seq<(int, int)>,
) -> Seq<(int, int)>
    decreases units.len() - i,
{
    if i >= units.len() || i < 0 {
        if units.len() > 0 && ce > cs {
            out.push((cs, ce))
        } else {
            out
        }
    } else {
        let us = units[i].0 as int;
        let ue = units[i].1 as int;
        if i > 0 && ce > cs && (ce - cs > max || ue - ce > max - (ce - cs)) {
            let j = if overlap > 0 {
                seed_start(units, first, overlap, max, i)
            } else {
                i
            };
            merge_spans(units, max, overlap, i + 1, units[j].0 as int, ue, j, out.push((cs, ce)))
        } else if i == 0 || ce <= cs {
            merge_spans(units, max, overlap, i + 1, us, ue, i, out)
        } else {
            merge_spans(units, max, overlap, i + 1, cs, ue, first, out)
        }
    }
}

/// The separators for an oversized leaf: blank line, newline, space, and
/// the empty separator, which splits between characters.
pub open spec fn leaf_seps() -> Seq<Seq<char>> {
    seq!["\n\n"@, "\n"@, " "@, ""@]
}

/// The byte spans of fragments laid end to end from `pos`.
pub open spec fn frag_spans(frags: Seq<Seq<char>>, pos: int) -> Seq<(usize, usize)> {
    Seq::new(
        frags.len(),
        |k: int| ((pos + piece_start(frags, k)) as usize, (pos + piece_start(frags, k + 1)) as usize),
    )
}

/// The gap `[a, b)` as a unit, unless it is empty or blank.
pub open spec fn gap_unit(doc: Seq<u8>, a: int, b: int) -> Seq<(usize, usize)> {
    if a < b && !blank(decode_utf8(doc.subrange(a, b))) {
        seq![(a as usize, b as usize)]
    } else {
        seq![]
    }
}

/// The atomic units of node `i`: the node itself if it fits in `max` bytes;
/// else those of its children with the non-blank gaps around them (see
/// [`child_units`]).
pub open spec fn node_units(nodes: Seq<SyntaxNode>, doc: Seq<u8>, max: int, i: int) -> Seq<(usize, usize)>
    decreases nodes.len() - i, 1int, 0int,
{
    if i < 0 || i >= nodes.len() {
        seq![]
    } else if nodes[i].end - nodes[i].start <= max {
        seq![(nodes[i].start, nodes[i].end)]
    } else {
        child_units(nodes, doc, max, i, i + 1, nodes[i].start as int, false)
    }
}

/// The units of the children of node `i` listed from position `j` on, the
/// previous child having ended at `last_end` (`found` once there was one):
/// each child gives the gap before it and its own units; after the last one
/// comes the gap up to the node's end. A node without children is a leaf:
/// the recursive splitter cuts it with [`leaf_seps`].
pub open spec fn child_units(
    nodes: Seq<SyntaxNode>,
    doc: Seq<u8>,
    max: int,
    i: int,
    j: int,
    last_end: int,
    found: bool,
) -> Seq<(usize, usize)>
    decreases nodes.len() - i, 0int, nodes.len() - j,
{
    if i < 0 || i >= nodes.len() || j <= i {
        seq![]
    } else if j >= nodes.len() {
        if found {
            gap_unit(doc, last_end, nodes[i].end as int)
        } else {
            let s = nodes[i].start as int;
            let e = nodes[i].end as int;
            frag_spans(split_rec(leaf_seps(), max, decode_utf8(doc.subrange(s, e)), 0), s)
        }
    } else if nodes[j].parent == Some(i as usize) {
        gap_unit(doc, last_end, nodes[j].start as int) + node_units(nodes, doc, max, j)
            + child_units(nodes, doc, max, i, j + 1, nodes[j].end as int, true)
    } else {
        child_units(nodes, doc, max, i, j + 1, last_end, found)
    }
}

/// A chunker that respects code structure.
pub struct CodeChunker {
    language: CodeLanguage,
    max_chunk_size: usize,
    chunk_overlap: usize,
}

impl CodeChunker {
    #[verifier::type_invariant]
    closed spec fn inv(self) -> bool {
        self.max_chunk_size > 0
    }

    /// The language.
    pub closed spec fn language_spec(&self) -> CodeLanguage {
        self.language
    }

    /// The size limit in bytes.
    pub closed spec fn max_chunk_size_spec(&self) -> usize {
        self.max_chunk_size
    }

    /// The overlap budget in bytes.
    pub closed spec fn chunk_overlap_spec(&self) -> usize {
        self.chunk_overlap
    }

    /// A code chunker for `language`.
    pub fn new(language: CodeLanguage, max_chunk_size: usize, chunk_overlap: usize) -> (r: Self)
        requires
            max_chunk_size > 0,
        ensures
            r.language_spec() == language,
            r.max_chunk_size_spec() == max_chunk_size,
            r.chunk_overlap_spec() == chunk_overlap,
    {
        CodeChunker { language, max_chunk_size, chunk_overlap }
    }

    /// Whether the node list is a well-formed tree over `text`.
    fn check_tree(nodes: &Vec<SyntaxNode>, text: &str) -> (r: bool)
        ensures
            r == tree_wf(nodes@, text.spec_bytes()),
    {
        let len = byte_len(text);
        let mut j: usize = 0;
        while j < nodes.len()
            invariant
                len == text.spec_bytes().len(),
                j <= nodes@.len(),
                tree_wf(nodes@.subrange(0, j as int), text.spec_bytes()),
            decreases nodes@.len() - j,
        {
            let n = nodes[j];
            let ok_span = n.start <= n.end && n.end <= len && text.is_char_boundary(n.start)
                && text.is_char_boundary(n.end);
            let ok_parent = match n.parent {
                None => true,
                Some(p) => p < j && nodes[p].start <= n.start && n.end <= nodes[p].end,
            };
            if !(ok_span && ok_parent) {
                proof {
                    assert(nodes@.subrange(0, j as int + 1)[j as int] == nodes@[j as int]);
                    assert(!tree_wf(nodes@, text.spec_bytes())) by {
                        assert(nodes@[j as int] == n);
                    }
                }
                return false;
            }
            proof {
                let next = nodes@.subrange(0, j as int + 1);
                assert forall|q: int| 0 <= q < next.len() implies {
                    &&& is_boundary_span(
                        text.spec_bytes(),
                        (#[trigger] next[q]).start as int,
                        next[q].end as int,
                    )
                    &&& match next[q].parent {
                        None => true,
                        Some(p) => p < q && next[p as int].start <= next[q].start && next[q].end
                            <= next[p as int].end,
                    }
                } by {
                    if q < j {
                        assert(next[q] == nodes@.subrange(0, j as int)[q]);
                    }
                }
            }
            j += 1;
        }
        proof {
            assert(nodes@.subrange(0, j as int) =~= nodes@);
        }
        true
    }

    /// Whether the units are in order and do not overlap.
    #[verifier::rlimit(30)]
    fn check_units(units: &Vec<(usize, usize)>, text: &str) -> (r: bool)
        requires
            units_within(units@, text.spec_bytes(), 0, text.spec_bytes().len() as int),
        ensures
            r == units_ordered(units@, text.spec_bytes()),
    {
        let mut k: usize = 1;
        while k < units.len()
            invariant
                1 <= k,
                forall|q: int| 0 <= q < k - 1 && q < units@.len() - 1 ==> (#[trigger] units@[q]).1
                    <= units@[q + 1].0,
            decreases units@.len() - k,
        {
            if units[k - 1].1 > units[k].0 {
                return false;
            }
            k += 1;
        }
        true
    }

    /// Cut node `i` into atomic units, appended to `units` in document
    /// order; see [`node_units`].
    fn collect_leafs(
        &self,
        nodes: &Vec<SyntaxNode>,
        i: usize,
        text: &str,
        units: &mut Vec<(usize, usize)>,
    )
        requires
            tree_wf(nodes@, text.spec_bytes()),
            i < nodes@.len(),
            units_within(old(units)@, text.spec_bytes(), 0, text.spec_bytes().len() as int),
        ensures
            final(units)@.subrange(0, old(units)@.len() as int) == old(units)@,
            old(units)@.len() <= final(units)@.len(),
            final(units)@.subrange(old(units)@.len() as int, final(units)@.len() as int) == node_units(
                nodes@,
                text.spec_bytes(),
                self.max_chunk_size_spec() as int,
                i as int,
            ),
            units_within(
                final(units)@.subrange(old(units)@.len() as int, final(units)@.len() as int),
                text.spec_bytes(),
                nodes@[i as int].start as int,
                nodes@[i as int].end as int,
            ),
            units_within(final(units)@, text.spec_bytes(), 0, text.spec_bytes().len() as int),
        decreases nodes@.len() - i,
    {
        proof {
            use_type_invariant(self);
        }
        let ghost doc = text.spec_bytes();
        let ghost max = self.max_chunk_size as int;
        let ghost base = units@.len();
        let ghost target = node_units(nodes@, doc, max, i as int);
        let start = nodes[i].start;
        let end = nodes[i].end;
        proof {
            assert(is_boundary_span(doc, start as int, end as int));
        }
        if end - start <= self.max_chunk_size {
            units.push((start, end));
            proof {
                assert(units@.subrange(base as int, units@.len() as int) =~= seq![(start, end)]);
                assert(units@.subrange(0, base as int) =~= old(units)@);
            }
            return;
        }
        let count = nodes.len();
        let mut last_end = start;
        let mut has_child = false;
        let mut j = i + 1;
        proof {
            assert(units@.subrange(base as int, units@.len() as int) =~= Seq::<(usize, usize)>::empty());
            assert(target == child_units(nodes@, doc, max, i as int, i + 1, start as int, false));
        }
        while j < count
            invariant
                count == nodes@.len(),
                doc == text.spec_bytes(),
                max == self.max_chunk_size_spec(),
                tree_wf(nodes@, doc),
                i < j <= nodes@.len(),
                start == nodes@[i as int].start,
                end == nodes@[i as int].end,
                end - start > max,
                is_boundary_span(doc, start as int, end as int),
                start <= last_end <= end,
                is_char_boundary(doc, last_end as int),
                base <= units@.len(),
                units@.subrange(0, base as int) == old(units)@,
                units_within(units@.subrange(base as int, units@.len() as int), doc, start as int, end as int),
                units_within(units@, doc, 0, doc.len() as int),
                target == node_units(nodes@, doc, max, i as int),
                units@.subrange(base as int, units@.len() as int) + child_units(
                    nodes@,
                    doc,
                    max,
                    i as int,
                    j as int,
                    last_end as int,
                    has_child,
                ) == target,
            decreases nodes@.len() - j,
        {
            let is_child = match nodes[j].parent {
                Some(p) => p == i,
                None => false,
            };
            let ghost done = units@.subrange(base as int, units@.len() as int);
            let ghost old_last = last_end;
            let ghost old_found = has_child;
            if is_child {
                has_child = true;
                let cs = nodes[j].start;
                proof {
                    assert(is_boundary_span(doc, cs as int, nodes@[j as int].end as int));
                }
                let mut gap_taken = false;
                if cs > last_end {
                    let gap = substr(text, last_end, cs);
                    proof {
                        encode_utf8_decode_utf8(gap@);
                    }
                    if !is_blank(gap) {
                        let ghost before = units@;
                        units.push((last_end, cs));
                        gap_taken = true;
                        proof {
                            lemma_push_within(before, base as int, (last_end, cs), doc, start as int, end as int);
                        }
                    }
                }
                proof {
                    let g = gap_unit(doc, old_last as int, cs as int);
                    if gap_taken {
                        assert(g == seq![(old_last, cs)]);
                        assert(units@.subrange(base as int, units@.len() as int) =~= done + g);
                    } else {
                        assert(g =~= Seq::<(usize, usize)>::empty());
                        assert(units@.subrange(base as int, units@.len() as int) =~= done + g);
                    }
                }
                let ghost mid = units@;
                self.collect_leafs(nodes, j, text, units);
                proof {
                    lemma_extend_within(mid, units@, base as int, doc, start as int, end as int,
                        nodes@[j as int].start as int, nodes@[j as int].end as int);
                    let g = gap_unit(doc, old_last as int, cs as int);
                    let sub = node_units(nodes@, doc, max, j as int);
                    assert(units@.subrange(base as int, units@.len() as int) =~= mid.subrange(
                        base as int,
                        mid.len() as int,
                    ) + units@.subrange(mid.len() as int, units@.len() as int));
                    assert(units@.subrange(base as int, units@.len() as int) == done + g + sub);
                    assert(child_units(nodes@, doc, max, i as int, j as int, old_last as int, old_found)
                        == g + sub + child_units(
                        nodes@,
                        doc,
                        max,
                        i as int,
                        j + 1,
                        nodes@[j as int].end as int,
                        true,
                    ));
                    assert(done + g + sub + child_units(
                        nodes@,
                        doc,
                        max,
                        i as int,
                        j + 1,
                        nodes@[j as int].end as int,
                        true,
                    ) =~= done + (g + sub + child_units(
                        nodes@,
                        doc,
                        max,
                        i as int,
                        j + 1,
                        nodes@[j as int].end as int,
                        true,
                    )));
                }
                last_end = nodes[j].end;
            }
            j += 1;
        }
        let ghost done = units@.subrange(base as int, units@.len() as int);
        if has_child {
            let mut gap_taken = false;
            if last_end < end {
                let gap = substr(text, last_end, end);
                proof {
                    encode_utf8_decode_utf8(gap@);
                }
                if !is_blank(gap) {
                    let ghost before = units@;
                    units.push((last_end, end));
                    gap_taken = true;
                    proof {
                        lemma_push_within(before, base as int, (last_end, end), doc, start as int, end as int);
                    }
                }
            }
            proof {
                let g = gap_unit(doc, last_end as int, end as int);
                if gap_taken {
                    assert(g == seq![(last_end, end)]);
                } else {
                    assert(g =~= Seq::<(usize, usize)>::empty());
                }
                assert(units@.subrange(base as int, units@.len() as int) =~= done + g);
            }
        } else {
            let ghost mid = units@;
            self.leaf_units(text, start, end, units);
            proof {
                assert(units@.subrange(base as int, units@.len() as int) =~= mid.subrange(
                    base as int,
                    mid.len() as int,
                ) + units@.subrange(mid.len() as int, units@.len() as int));
                lemma_extend_within(mid, units@, base as int, doc, start as int, end as int,
                    start as int, end as int);
            }
        }
        proof {
            assert(units@.subrange(0, base as int) =~= old(units)@);
        }
    }

    /// The units of an oversized leaf `[start, end)`: the fragments that the
    /// recursive splitter makes of it, laid end to end.
    fn leaf_units(&self, text: &str, start: usize, end: usize, units: &mut Vec<(usize, usize)>)
        requires
            is_boundary_span(text.spec_bytes(), start as int, end as int),
            end - start > self.max_chunk_size_spec(),
            units_within(old(units)@, text.spec_bytes(), 0, text.spec_bytes().len() as int),
        ensures
            final(units)@.subrange(0, old(units)@.len() as int) == old(units)@,
            old(units)@.len() <= final(units)@.len(),
            final(units)@.subrange(old(units)@.len() as int, final(units)@.len() as int) == frag_spans(
                split_rec(
                    leaf_seps(),
                    self.max_chunk_size_spec() as int,
                    decode_utf8(text.spec_bytes().subrange(start as int, end as int)),
                    0,
                ),
                start as int,
            ),
            units_within(
                final(units)@.subrange(old(units)@.len() as int, final(units)@.len() as int),
                text.spec_bytes(),
                start as int,
                end as int,
            ),
            units_within(final(units)@, text.spec_bytes(), 0, text.spec_bytes().len() as int),
    {
        proof {
            use_type_invariant(self);
        }
        let ghost doc = text.spec_bytes();
        let ghost base = units@.len();
        let leaf = substr(text, start, end);
        let splitter = RecursiveChunker::new(self.max_chunk_size, &["\n\n", "\n", " ", ""]).with_overlap(0);
        proof {
            assert(splitter.separators_spec() =~= leaf_seps());
            encode_utf8_decode_utf8(leaf@);
            assert(leaf@.len() > 0) by {
                if leaf@.len() == 0 {
                    assert(leaf.spec_bytes() =~= Seq::<u8>::empty());
                }
            }
        }
        let subs = splitter.chunk(leaf);
        let ghost leaf_doc = leaf.spec_bytes();
        let ghost frags = split_rec(leaf_seps(), self.max_chunk_size as int, leaf@, 0);
        let ghost spans = frag_spans(frags, start as int);
        proof {
            assert forall|q: int| 0 <= q < subs@.len() implies slab_in_doc(
                #[trigger] subs@[q],
                leaf_doc,
            ) by {}
            assert(units@.subrange(base as int, units@.len() as int) =~= spans.subrange(0, 0));
            lemma_leaf_facts(subs@, leaf_doc, frags, self.max_chunk_size as int);
            lemma_leaf_spans(subs@, frags, subs@.len() as int);
            assert forall|q: int| 0 <= q < subs@.len() implies spans[q] == ((start + (
            #[trigger] subs@[q]).start) as usize, (start + subs@[q].end) as usize) by {}
        }
        let mut k: usize = 0;
        while k < subs.len()
            invariant
                doc == text.spec_bytes(),
                leaf_doc == doc.subrange(start as int, end as int),
                is_boundary_span(doc, start as int, end as int),
                forall|q: int| 0 <= q < subs@.len() ==> slab_in_doc(#[trigger] subs@[q], leaf_doc),
                spans == frag_spans(frags, start as int),
                spans.len() == subs@.len(),
                forall|q: int|
                    0 <= q < subs@.len() ==> spans[q] == ((start + (#[trigger] subs@[q]).start) as usize, (
                    start + subs@[q].end) as usize),
                k <= subs@.len(),
                base <= units@.len(),
                units@.subrange(0, base as int) == old(units)@,
                units@.subrange(base as int, units@.len() as int) == spans.subrange(0, k as int),
                units_within(units@.subrange(base as int, units@.len() as int), doc, start as int, end as int),
                units_within(units@, doc, 0, doc.len() as int),
            decreases subs@.len() - k,
        {
            let s = subs[k].start;
            let e = subs[k].end;
            proof {
                assert(slab_in_doc(subs@[k as int], leaf_doc));
                lemma_sub_unit(doc, start as int, end as int, s as int, e as int);
                assert(spans[k as int] == ((start + s) as usize, (start + e) as usize));
            }
            let ghost before = units@;
            let u = (start + s, start + e);
            units.push(u);
            proof {
                lemma_push_within(before, base as int, u, doc, start as int, end as int);
                assert(units@.subrange(base as int, units@.len() as int) =~= before.subrange(
                    base as int,
                    before.len() as int,
                ).push(u));
                assert(u == spans[k as int]);
                assert(units@.subrange(base as int, units@.len() as int) =~= spans.subrange(0, k + 1));
            }
            k += 1;
        }
        proof {
            assert(spans.subrange(0, k as int) =~= spans);
        }
    }
}

impl CodeChunker {
    /// The first unit of the chunk after units `[first, i)`; see
    /// [`seed_start`].
    fn overlap_start(units: &Vec<(usize, usize)>, first: usize, i: usize, overlap: usize, max: usize) -> (r: usize)
        requires
            first < i < units@.len(),
        ensures
            first <= r <= i,
            r == seed_start(units@, first as int, overlap as int, max as int, i as int),
            r < i ==> units@[i as int].1 - units@[r as int].0 <= max,
    {
        let k = i - 1;
        let ue = units[i].1;
        if units[i].0 < units[k].0 || ue < units[k].0 || ue - units[k].0 > max {
            return i;
        }
        let ghost target = seed_walk(
            units@,
            first as int,
            overlap as int,
            max as int,
            ue as int,
            k as int,
            (units@[i as int].0 - units@[k as int].0),
            k as int,
        );
        let add0 = units[i].0 - units[k].0;
        let mut taken: usize = k;
        if add0 <= overlap {
            let mut size: usize = add0;
            let mut j: usize = k;
            let mut stop = false;
            while j > first && !stop
                invariant
                    first < i < units@.len(),
                    first <= j <= k,
                    k == i - 1,
                    first <= taken <= k,
                    size <= overlap,
                    ue == units@[i as int].1,
                    ue >= units@[taken as int].0,
                    ue - units@[taken as int].0 <= max,
                    !stop ==> seed_walk(units@, first as int, overlap as int, max as int, ue as int, j as int, size as int, taken as int) == target,
                    stop ==> taken == target,
                decreases j,
            {
                let q = j - 1;
                let next_start = units[q + 1].0;
                let own_start = units[q].0;
                if next_start < own_start || next_start - own_start > overlap - size || ue < own_start
                    || ue - own_start > max {
                    stop = true;
                } else {
                    size = size + (next_start - own_start);
                    taken = q;
                }
                j = q;
            }
        }
        if units[taken].0 >= units[k].1 {
            i
        } else {
            taken
        }
    }

    /// Append the chunk `[cs, ce)`, keeping the chunks' order.
    fn emit(
        slabs: &mut Vec<Slab>,
        text: &str,
        cs: usize,
        ce: usize,
        Ghost(units): Ghost<Seq<(usize, usize)>>,
        Ghost(max): Ghost<int>,
        Ghost(overlap): Ghost<int>,
        Ghost(first): Ghost<int>,
        Ghost(i): Ghost<int>,
    )
        requires
            units_ordered(units, text.spec_bytes()),
            0 <= first < i <= units.len(),
            cs == units[first].0,
            ce == units[i - 1].1,
            units_covered(old(slabs)@, units, first),
            is_boundary_span(text.spec_bytes(), cs as int, ce as int),
            cs < ce,
            code_slabs(old(slabs)@, text.spec_bytes(), overlap),
            chunks_fit(old(slabs)@, units, max),
            overlap == 0 ==> chunks_maximal(old(slabs)@, max),
            ce - cs <= max || exists|q: int| 0 <= q < units.len() && units[q].0 == cs && units[q].1 == ce,
            old(slabs)@.len() > 0 ==> old(slabs)@.last().start <= cs && old(slabs)@.last().end <= ce,
            overlap == 0 && old(slabs)@.len() > 0 ==> old(slabs)@.last().end <= cs && ce
                - old(slabs)@.last().start > max,
        ensures
            code_slabs(final(slabs)@, text.spec_bytes(), overlap),
            chunks_fit(final(slabs)@, units, max),
            overlap == 0 ==> chunks_maximal(final(slabs)@, max),
            spans_of(final(slabs)@) == spans_of(old(slabs)@).push((cs as int, ce as int)),
            final(slabs)@.len() == old(slabs)@.len() + 1,
            final(slabs)@.last().start == cs && final(slabs)@.last().end == ce,
            units_covered(final(slabs)@, units, i),
    {
        let ghost old_slabs = slabs@;
        let k = slabs.len();
        slabs.push(Slab::new(substr(text, cs, ce), cs, ce, k));
        proof {
            assert(slabs@.subrange(0, old_slabs.len() as int) =~= old_slabs);
            lemma_push_code_slab(old_slabs, slabs@, text.spec_bytes(), overlap);
            assert(spans_of(slabs@) =~= spans_of(old_slabs).push((cs as int, ce as int)));
            assert forall|q: int| 0 <= q < old_slabs.len() implies slabs@[q] == old_slabs[q] by {}
            let doc = text.spec_bytes();
            let last = slabs@.len() - 1;
            assert forall|q: int| 0 <= q < i && q < units.len() implies unit_covered(
                slabs@,
                #[trigger] units[q],
            ) by {
                assert forall|p: int| units[q].0 <= p < units[q].1 implies #[trigger] covered(
                    slabs@,
                    p,
                ) by {
                    if q < first {
                        assert(unit_covered(old_slabs, units[q]));
                        assert(covered(old_slabs, p));
                        let k = choose|k: int| 0 <= k < old_slabs.len() && (#[trigger] old_slabs[k]).start
                            <= p < old_slabs[k].end;
                        assert(slabs@[k] == old_slabs[k]);
                    } else {
                        lemma_units_sorted_or_eq(units, doc, first, q);
                        if q < i - 1 {
                            lemma_units_sorted(units, doc, q, i - 1);
                        }
                        assert(slabs@[last].start <= p < slabs@[last].end);
                    }
                }
            }
        }
    }

    /// Merge ordered atomic units into maximal chunks: units (with the text
    /// between them) are added while the chunk stays within
    /// `max_chunk_size`; when the next one does not fit, the chunk is
    /// emitted and the next one is seeded with trailing units of the emitted
    /// chunk, whole units only, while their length stays within
    /// `chunk_overlap` (always at least one unit); see [`merge_spans`]. A
    /// single unit larger than the limit still makes a chunk of its own.
    #[verifier::rlimit(100)]
    pub fn merge_units(&self, units: &Vec<(usize, usize)>, text: &str) -> (r: Vec<Slab>)
        requires
            units_ordered(units@, text.spec_bytes()),
        ensures
            code_slabs(r@, text.spec_bytes(), self.chunk_overlap_spec() as int),
            chunks_fit(r@, units@, self.max_chunk_size_spec() as int),
            self.chunk_overlap_spec() == 0 ==> chunks_maximal(r@, self.max_chunk_size_spec() as int),
            units_covered(r@, units@, units@.len() as int),
            spans_of(r@) == merge_spans(
                units@,
                self.max_chunk_size_spec() as int,
                self.chunk_overlap_spec() as int,
                0,
                0,
                0,
                0,
                seq![],
            ),
    {
        let ghost doc = text.spec_bytes();
        let max = self.max_chunk_size;
        let overlap = self.chunk_overlap;
        let ghost full = merge_spans(units@, max as int, overlap as int, 0, 0, 0, 0, seq![]);
        let n = units.len();
        let mut slabs: Vec<Slab> = Vec::new();
        let mut cs: usize = 0;
        let mut ce: usize = 0;
        let mut first: usize = 0;
        let mut i: usize = 0;
        proof {
            assert(spans_of(slabs@) =~= Seq::<(int, int)>::empty());
        }
        while i < n
            invariant
                doc == text.spec_bytes(),
                n == units@.len(),
                units_ordered(units@, doc),
                overlap == self.chunk_overlap_spec(),
                max == self.max_chunk_size_spec(),
                i <= n,
                i > 0 ==> first < i && cs == units@[first as int].0 && ce == units@[i - 1].1,
                i > 0 ==> cs <= ce,
                i > 0 ==> ce - cs <= max || first == i - 1,
                i == 0 ==> slabs@.len() == 0 && cs == 0 && ce == 0 && first == 0,
                slabs@.len() > 0 ==> slabs@.last().start <= cs && slabs@.last().end <= ce,
                overlap == 0 && slabs@.len() > 0 ==> slabs@.last().end <= cs && ce
                    - slabs@.last().start > max,
                code_slabs(slabs@, doc, overlap as int),
                chunks_fit(slabs@, units@, max as int),
                overlap == 0 ==> chunks_maximal(slabs@, max as int),
                units_covered(slabs@, units@, first as int),
                merge_spans(units@, max as int, overlap as int, i as int, cs as int, ce as int, first as int, spans_of(slabs@)) == full,
            decreases n - i,
        {
            let us = units[i].0;
            let ue = units[i].1;
            proof {
                assert(is_boundary_span(doc, us as int, ue as int));
                if i > 0 {
                    lemma_units_sorted(units@, doc, i - 1, i as int);
                }
            }
            if i > 0 && ce > cs && (ce - cs > max || ue - ce > max - (ce - cs)) {
                proof {
                    lemma_units_sorted_or_eq(units@, doc, first as int, i - 1);
                    if ce - cs > max {
                        assert(units@[i - 1].0 == cs && units@[i - 1].1 == ce);
                    }
                }
                Self::emit(
                    &mut slabs,
                    text,
                    cs,
                    ce,
                    Ghost(units@),
                    Ghost(max as int),
                    Ghost(overlap as int),
                    Ghost(first as int),
                    Ghost(i as int),
                );
                let j = if overlap > 0 {
                    Self::overlap_start(units, first, i, overlap, max)
                } else {
                    i
                };
                proof {
                    lemma_units_sorted_or_eq(units@, doc, first as int, j as int);
                    if j < i {
                        lemma_units_sorted_or_eq(units@, doc, j as int, i - 1);
                    }
                }
                cs = units[j].0;
                first = j;
            } else if i == 0 || ce <= cs {
                proof {
                    if i > 0 {
                        lemma_zero_width_covered(slabs@, units@, doc, first as int, i as int);
                    }
                }
                cs = us;
                first = i;
            }
            ce = ue;
            i += 1;
        }
        if n > 0 && ce > cs {
            proof {
                lemma_units_sorted_or_eq(units@, doc, first as int, n - 1);
                if ce - cs > max {
                    assert(units@[n - 1].0 == cs && units@[n - 1].1 == ce);
                }
            }
            Self::emit(
                &mut slabs,
                text,
                cs,
                ce,
                Ghost(units@),
                Ghost(max as int),
                Ghost(overlap as int),
                Ghost(first as int),
                Ghost(n as int),
            );
        } else if n > 0 {
            proof {
                lemma_zero_width_covered(slabs@, units@, doc, first as int, n as int);
            }
        }
        slabs
    }

    /// Chunk `text` given its syntax tree listed in pre-order; see
    /// [`code_chunks_of`].
    pub fn chunk_nodes(&self, text: &str, nodes: &Vec<SyntaxNode>) -> (r: Vec<Slab>)
        ensures
            code_slabs(r@, text.spec_bytes(), self.chunk_overlap_spec() as int),
            code_chunks_of(
                r@,
                text.spec_bytes(),
                nodes@,
                self.max_chunk_size_spec() as int,
                self.chunk_overlap_spec() as int,
            ),
    {
        if nodes.len() == 0 || !Self::check_tree(nodes, text) {
            return Vec::new();
        }
        let mut units: Vec<(usize, usize)> = Vec::new();
        self.collect_leafs(nodes, 0, text, &mut units);
        proof {
            assert(units@.subrange(0, units@.len() as int) =~= units@);
        }
        if !Self::check_units(&units, text) {
            return Vec::new();
        }
        self.merge_units(&units, text)
    }

    /// Split `text` along its syntax tree: no chunks when it cannot be
    /// parsed; otherwise see [`code_chunks_of`].
    pub fn chunk(&self, text: &str) -> (r: Vec<Slab>)
        ensures
            code_slabs(r@, text.spec_bytes(), self.chunk_overlap_spec() as int),
            syntax_tree(self.language_spec(), text@) is None ==> r@.len() == 0,
            syntax_tree(self.language_spec(), text@) matches Some(nodes) ==> code_chunks_of(
                r@,
                text.spec_bytes(),
                nodes,
                self.max_chunk_size_spec() as int,
                self.chunk_overlap_spec() as int,
            ),
    {
        let language = self.language.get_language();
        match parse_syntax(self.language, &language, text) {
            Some(nodes) => self.chunk_nodes(text, &nodes),
            None => Vec::new(),
        }
    }
}

impl Chunker for CodeChunker {
    fn chunk(&self, text: &str) -> Vec<Slab> {
        CodeChunker::chunk(self, text)
    }
}

/// Where two consecutive chunks of the code splitter overlap, the overlap
/// is no longer than the earlier chunk, and the earlier chunk's suffix of
/// that length is the later chunk's prefix.
pub proof fn lemma_code_overlap(r: Seq<Slab>, doc: Seq<u8>, overlap: int, k: int)
    requires
        code_slabs(r, doc, overlap),
        0 <= k < r.len() - 1,
        r[k + 1].start < r[k].end,
    ensures
        ({
            let prev = r[k].bytes();
            let next = r[k + 1].bytes();
            let ov = r[k].end - r[k + 1].start;
            &&& ov <= prev.len()
            &&& ov <= next.len()
            &&& prev.subrange(prev.len() - ov, prev.len() as int) == next.subrange(0, ov)
        }),
{
    let a = r[k];
    let b = r[k + 1];
    assert(slab_in_doc(a, doc));
    assert(slab_in_doc(b, doc));
    let ov = a.end - b.start;
    assert(a.bytes().subrange(a.bytes().len() - ov, a.bytes().len() as int) =~= doc.subrange(
        b.start as int,
        a.end as int,
    ));
    assert(b.bytes().subrange(0, ov) =~= doc.subrange(b.start as int, a.end as int));
}

proof fn lemma_units_sorted_or_eq(units: Seq<(usize, usize)>, doc: Seq<u8>, a: int, b: int)
    requires
        units_ordered(units, doc),
        0 <= a <= b < units.len(),
    ensures
        units[a].0 <= units[b].1,
        units[a].0 <= units[b].0,
{
    assert(is_boundary_span(doc, units[a].0 as int, units[a].1 as int));
    assert(is_boundary_span(doc, units[b].0 as int, units[b].1 as int));
    if a < b {
        lemma_units_sorted(units, doc, a, b);
    }
}

proof fn lemma_push_code_slab(before: Seq<Slab>, after: Seq<Slab>, doc: Seq<u8>, overlap: int)
    requires
        code_slabs(before, doc, overlap),
        after.len() == before.len() + 1,
        after.subrange(0, before.len() as int) == before,
        after.last().index == before.len(),
        slab_in_doc(after.last(), doc),
        after.last().start < after.last().end,
        before.len() > 0 ==> before.last().start <= after.last().start && before.last().end
            <= after.last().end,
        overlap == 0 && before.len() > 0 ==> before.last().end <= after.last().start,
    ensures
        code_slabs(after, doc, overlap),
{
    assert forall|k: int| 0 <= k < before.len() implies after[k] == before[k] by {
        assert(after.subrange(0, before.len() as int)[k] == after[k]);
    }
}

/// Chunk `q` starts where chunk `q - 1` ends.
pub open spec fn follows_previous(r: Seq<Slab>, q: int) -> bool {
    r[q].start == r[q - 1].end
}

/// Chunk `q` is as long as fragment `q`.
pub open spec fn as_long_as(r: Seq<Slab>, frags: Seq<Seq<char>>, q: int) -> bool {
    r[q].end - r[q].start == utf8_bytes(frags[q]).len()
}

/// Without overlap, the chunks of the recursive splitter follow one another
/// from 0, each as long as its fragment.
proof fn lemma_leaf_facts(r: Seq<Slab>, doc: Seq<u8>, frags: Seq<Seq<char>>, max: int)
    requires
        0 <= max,
        recursive_slabs(r, doc, max, 0),
        holds_fragments(r, doc, frags),
    ensures
        r.len() == frags.len(),
        r.len() > 0 ==> r[0].start == 0,
        forall|q: int| 0 < q < r.len() ==> #[trigger] follows_previous(r, q),
        forall|q: int| 0 <= q < r.len() ==> #[trigger] as_long_as(r, frags, q),
{
    assert forall|q: int| 0 < q < r.len() implies #[trigger] follows_previous(r, q) by {
        assert(slab_in_doc(r[q - 1], doc));
        assert(slab_in_doc(r[q], doc));
        assert(is_char_boundary(doc, r[q - 1].end as int));
        assert(raw_start(r, q) == r[q - 1].end);
        lemma_pulled_no_overlap(doc, raw_start(r, q), r[q].end as int, max);
    }
    assert forall|q: int| 0 <= q < r.len() implies #[trigger] as_long_as(r, frags, q) by {
        assert(slab_in_doc(r[q], doc));
        if q > 0 {
            assert(slab_in_doc(r[q - 1], doc));
        }
        lemma_pulled_no_overlap(doc, raw_start(r, q), r[q].end as int, max);
        assert(r[q].start == raw_start(r, q));
        assert(doc.subrange(raw_start(r, q), r[q].end as int) == utf8_bytes(frags[q]));
    }
    if r.len() > 0 {
        assert(slab_in_doc(r[0], doc));
        lemma_pulled_no_overlap(doc, 0, r[0].end as int, max);
    }
}

/// Chunks that follow one another from 0, each as long as its fragment, lie
/// at the positions of their fragments.
proof fn lemma_leaf_spans(r: Seq<Slab>, frags: Seq<Seq<char>>, n: int)
    requires
        r.len() == frags.len(),
        r.len() > 0 ==> r[0].start == 0,
        forall|q: int| 0 < q < r.len() ==> #[trigger] follows_previous(r, q),
        forall|q: int| 0 <= q < r.len() ==> #[trigger] as_long_as(r, frags, q),
        0 <= n <= r.len(),
    ensures
        forall|q: int|
            0 <= q < n ==> r[q].start == piece_start(frags, q) && r[q].end == piece_start(frags, q + 1),
    decreases n,
{
    if n > 0 {
        lemma_leaf_spans(r, frags, n - 1);
        let q = n - 1;
        if q == 0 {
            assert(frags.subrange(0, 0) =~= Seq::<Seq<char>>::empty());
        } else {
            assert(follows_previous(r, q));
        }
        assert(as_long_as(r, frags, q));
        lemma_piece_span(frags, q);
    }
}

proof fn lemma_sub_unit(doc: Seq<u8>, start: int, end: int, s: int, e: int)
    requires
        valid_utf8(doc),
        is_boundary_span(doc, start, end),
        is_boundary_span(doc.subrange(start, end), s, e),
    ensures
        is_boundary_span(doc, start + s, start + e),
{
    if 0 < s < end - start {
        lemma_inner_boundary(doc, start, end, s);
    }
    if 0 < e < end - start {
        lemma_inner_boundary(doc, start, end, e);
    }
}

proof fn lemma_push_within(
    before: Seq<(usize, usize)>,
    base: int,
    u: (usize, usize),
    doc: Seq<u8>,
    lo: int,
    hi: int,
)
    requires
        0 <= base <= before.len(),
        units_within(before.subrange(base, before.len() as int), doc, lo, hi),
        units_within(before, doc, 0, doc.len() as int),
        is_boundary_span(doc, u.0 as int, u.1 as int),
        lo <= u.0,
        u.1 <= hi,
    ensures
        units_within(before.push(u).subrange(base, before.len() + 1 as int), doc, lo, hi),
        units_within(before.push(u), doc, 0, doc.len() as int),
        before.push(u).subrange(0, base) == before.subrange(0, base),
{
    let after = before.push(u);
    assert(after.subrange(0, base) =~= before.subrange(0, base));
    assert forall|k: int| 0 <= k < after.subrange(base, after.len() as int).len() implies {
        &&& is_boundary_span(doc, (#[trigger] after.subrange(base, after.len() as int)[k]).0 as int,
            after.subrange(base, after.len() as int)[k].1 as int)
        &&& lo <= after.subrange(base, after.len() as int)[k].0
        &&& after.subrange(base, after.len() as int)[k].1 <= hi
    } by {
        if base + k < before.len() {
            assert(after.subrange(base, after.len() as int)[k] == before.subrange(base, before.len() as int)[k]);
        }
    }
    assert forall|k: int| 0 <= k < after.len() implies {
        &&& is_boundary_span(doc, (#[trigger] after[k]).0 as int, after[k].1 as int)
        &&& 0 <= after[k].0
        &&& after[k].1 <= doc.len()
    } by {
        if k < before.len() {
            assert(after[k] == before[k]);
        }
    }
}

proof fn lemma_extend_within(
    before: Seq<(usize, usize)>,
    after: Seq<(usize, usize)>,
    base: int,
    doc: Seq<u8>,
    lo: int,
    hi: int,
    clo: int,
    chi: int,
)
    requires
        0 <= base <= before.len() <= after.len(),
        after.subrange(0, before.len() as int) == before,
        units_within(before.subrange(base, before.len() as int), doc, lo, hi),
        units_within(after.subrange(before.len() as int, after.len() as int), doc, clo, chi),
        lo <= clo,
        chi <= hi,
    ensures
        units_within(after.subrange(base, after.len() as int), doc, lo, hi),
        after.subrange(0, base) == before.subrange(0, base),
{
    assert(after.subrange(0, base) =~= before.subrange(0, base));
    let bs = before.subrange(base, before.len() as int);
    let cs = after.subrange(before.len() as int, after.len() as int);
    let all = after.subrange(base, after.len() as int);
    assert forall|k: int| 0 <= k < all.len() implies {
        &&& is_boundary_span(doc, (#[trigger] all[k]).0 as int, all[k].1 as int)
        &&& lo <= all[k].0
        &&& all[k].1 <= hi
    } by {
        if base + k < before.len() {
            assert(all[k] == bs[k]);
        } else {
            assert(all[k] == cs[k - (before.len() - base)]);
        }
    }
}

} // verus!
