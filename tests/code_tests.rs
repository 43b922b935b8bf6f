use slabs::{Chunker, CodeChunker, CodeLanguage};

const TWO_FUNCTIONS: &str = "fn a() {\n    let x = 1;\n}\n\nfn b() {\n    let y = 2;\n}\n";

#[test]
fn code_language_from_extension() {
    assert_eq!(CodeLanguage::from_extension("rs"), Some(CodeLanguage::Rust));
    assert_eq!(CodeLanguage::from_extension("py"), Some(CodeLanguage::Python));
    assert_eq!(CodeLanguage::from_extension("tsx"), Some(CodeLanguage::TypeScript));
    assert_eq!(CodeLanguage::from_extension("jsx"), Some(CodeLanguage::TypeScript));
    assert_eq!(CodeLanguage::from_extension("go"), Some(CodeLanguage::Go));
    assert_eq!(CodeLanguage::from_extension("rb"), None);
    assert_eq!(CodeLanguage::from_extension(""), None);
}

#[test]
fn code_block_nodes_per_language() {
    assert!(CodeLanguage::Rust.is_block_node("function_item"));
    assert!(CodeLanguage::Rust.is_block_node("trait_item"));
    assert!(!CodeLanguage::Rust.is_block_node("function_definition"));
    assert!(CodeLanguage::Python.is_block_node("class_definition"));
    assert!(CodeLanguage::TypeScript.is_block_node("interface_declaration"));
    assert!(CodeLanguage::Go.is_block_node("method_declaration"));
    assert!(!CodeLanguage::Go.is_block_node("identifier"));
}

#[test]
fn code_functions_stay_whole() {
    let slabs = CodeChunker::new(CodeLanguage::Rust, 30, 0).chunk(TWO_FUNCTIONS);
    let spans: Vec<(usize, usize, usize)> = slabs.iter().map(|s| (s.start, s.end, s.index)).collect();
    assert_eq!(spans, vec![(0, 25, 0), (27, 52, 1)]);
    assert_eq!(slabs[0].text, "fn a() {\n    let x = 1;\n}");
    assert_eq!(slabs[1].text, "fn b() {\n    let y = 2;\n}");
}

#[test]
fn code_small_file_is_one_chunk() {
    let slabs = CodeChunker::new(CodeLanguage::Rust, 500, 0).chunk(TWO_FUNCTIONS);
    assert_eq!(slabs.len(), 1);
    assert_eq!(slabs[0].text, TWO_FUNCTIONS);
}

#[test]
fn code_overlap_repeats_whole_units() {
    let slabs = CodeChunker::new(CodeLanguage::Rust, 30, 10).chunk(TWO_FUNCTIONS);
    assert_eq!(slabs.len(), 2);
    for w in slabs.windows(2) {
        let (prev, next) = (&w[0], &w[1]);
        assert!(prev.start <= next.start && prev.end <= next.end);
        if next.start < prev.end {
            let ov = prev.end - next.start;
            assert!(ov <= prev.len());
            assert_eq!(&prev.text[prev.len() - ov..], &next.text[..ov]);
        }
    }
    // the seed (the first function) with the next one would exceed 30 bytes
    assert_eq!(slabs[1].start, 27);
}

#[test]
fn code_spans_match_text_in_python() {
    let code = "def f(x):\n    return x + 1\n\n\nclass C:\n    def g(self):\n        return 'ü' * 40\n";
    let slabs = CodeChunker::new(CodeLanguage::Python, 20, 5).chunk(code);
    assert!(!slabs.is_empty());
    for (i, s) in slabs.iter().enumerate() {
        assert_eq!(&code[s.start..s.end], s.text);
        assert_eq!(s.index, i);
    }
}

#[test]
fn code_empty_source_gives_no_chunks() {
    let slabs = CodeChunker::new(CodeLanguage::Go, 50, 0).chunk("");
    assert!(slabs.is_empty());
}

#[test]
fn code_chunks_are_never_empty_and_fit() {
    let text = "ab";
    // a zero-width unit between two others
    let units = vec![(0, 0), (0, 1), (1, 1), (1, 2)];
    let slabs = CodeChunker::new(CodeLanguage::Rust, 1, 0).merge_units(&units, text);
    let got: Vec<(usize, usize)> = slabs.iter().map(|s| (s.start, s.end)).collect();
    assert_eq!(got, vec![(0, 1), (1, 2)]);
    assert!(slabs.iter().all(|s| !s.text.is_empty()));
}

#[test]
fn code_overlap_seed_must_fit_with_next_unit() {
    let text = "aaaa bbbb cccc";
    let units = vec![(0, 4), (5, 9), (10, 14)];
    let slabs = CodeChunker::new(CodeLanguage::Rust, 9, 6).merge_units(&units, text);
    let got: Vec<(usize, usize)> = slabs.iter().map(|s| (s.start, s.end)).collect();
    assert_eq!(got, vec![(0, 9), (5, 14)]);
    for s in &slabs {
        assert!(s.len() <= 9);
    }
}

use slabs::code::SyntaxNode;

fn node(start: usize, end: usize, parent: Option<usize>) -> SyntaxNode {
    SyntaxNode { start, end, parent }
}

#[test]
fn code_chunk_nodes_with_hand_made_tree() {
    // root [0, 20) with children [0, 6), [8, 14), [15, 20); "  " and " " are blank gaps
    let text = "aaaaaa  bbbbbb ccccc";
    let nodes = vec![node(0, 20, None), node(0, 6, Some(0)), node(8, 14, Some(0)), node(15, 20, Some(0))];
    let chunker = CodeChunker::new(CodeLanguage::Rust, 12, 0);
    let slabs = chunker.chunk_nodes(text, &nodes);
    let got: Vec<(&str, usize, usize)> = slabs.iter().map(|s| (s.text.as_str(), s.start, s.end)).collect();
    assert_eq!(got, vec![("aaaaaa", 0, 6), ("bbbbbb ccccc", 8, 20)]);
}

#[test]
fn code_chunk_nodes_rejects_malformed_trees() {
    let text = "abcdef";
    let chunker = CodeChunker::new(CodeLanguage::Rust, 4, 0);
    assert!(chunker.chunk_nodes(text, &vec![]).is_empty());
    // a child outside its parent
    let bad = vec![node(0, 6, None), node(2, 9, Some(0))];
    assert!(chunker.chunk_nodes(text, &bad).is_empty());
    // a parent after its child
    let backwards = vec![node(0, 6, Some(1)), node(0, 3, None)];
    assert!(chunker.chunk_nodes(text, &backwards).is_empty());
    // an end inside a character
    let split_char = vec![node(0, 1, None)];
    assert!(chunker.chunk_nodes("éa", &split_char).is_empty());
}

#[test]
fn code_oversized_leaf_goes_to_recursive_splitter() {
    let text = "one two three four";
    let nodes = vec![node(0, 18, None)];
    let slabs = CodeChunker::new(CodeLanguage::Rust, 8, 0).chunk_nodes(text, &nodes);
    let got: Vec<&str> = slabs.iter().map(|s| s.text.as_str()).collect();
    assert_eq!(got, vec!["one two ", "three ", "four"]);
}

#[test]
fn code_merge_units_greedy_with_overlap() {
    let text = "aa bb cc dd ee";
    let units = vec![(0, 2), (3, 5), (6, 8), (9, 11), (12, 14)];
    let chunker = CodeChunker::new(CodeLanguage::Go, 5, 3);
    let slabs = chunker.merge_units(&units, text);
    let got: Vec<(usize, usize, usize)> = slabs.iter().map(|s| (s.start, s.end, s.index)).collect();
    assert_eq!(got, vec![(0, 5, 0), (3, 8, 1), (6, 11, 2), (9, 14, 3)]);
    let plain = CodeChunker::new(CodeLanguage::Go, 5, 0).merge_units(&units, text);
    let got: Vec<(usize, usize)> = plain.iter().map(|s| (s.start, s.end)).collect();
    assert_eq!(got, vec![(0, 5), (6, 11), (12, 14)]);
}
