use slabs::{Chunker, RecursiveChunker};

#[test]
fn test_paragraph_split() {
    let chunker = RecursiveChunker::prose(50);
    let text = "Short.\n\nThis is a longer paragraph that might need splitting into smaller pieces.";
    let slabs = chunker.chunk(text);

    assert!(slabs.len() >= 2);
    assert!(slabs[0].text.contains("Short"));
}

#[test]
fn test_respects_max_size() {
    let chunker = RecursiveChunker::prose(20);
    let text = "The quick brown fox jumps over the lazy dog.";
    let slabs = chunker.chunk(text);

    for slab in &slabs {
        assert!(slab.len() <= 20, "Chunk too large: {} bytes", slab.len());
    }
}

#[test]
fn recursive_test_empty_text() {
    let chunker = RecursiveChunker::prose(100);
    let slabs = chunker.chunk("");
    assert!(slabs.is_empty());
}

#[test]
fn test_small_text_single_chunk() {
    let chunker = RecursiveChunker::prose(100);
    let slabs = chunker.chunk("Small text.");
    assert_eq!(slabs.len(), 1);
}

#[test]
fn test_markdown_headers() {
    let chunker = RecursiveChunker::markdown(100);
    let text = "# Title\n\nIntro.\n\n## Section 1\n\nContent 1.\n\n## Section 2\n\nContent 2.";
    let slabs = chunker.chunk(text);

    assert!(slabs.len() >= 1);
}

#[test]
fn recursive_fragments_rebuild_the_text() {
    let text = "alpha beta gamma\n\ndelta epsilon. zeta eta theta iota kappa\nlambda mu";
    let chunker = RecursiveChunker::prose(12);
    let frags = chunker.split_recursive(text, 0);
    assert_eq!(frags.concat(), text);
    for f in &frags {
        assert!(f.len() <= 12 || f.chars().count() == 1, "fragment {:?}", f);
    }
}

#[test]
fn recursive_paragraphs_kept_whole_when_they_fit() {
    let text = "aaaa bbbb\n\ncccc dddd\n\neeee";
    let slabs = RecursiveChunker::new(12, &["\n\n", " "]).chunk(text);
    let texts: Vec<&str> = slabs.iter().map(|s| s.text.as_str()).collect();
    assert_eq!(texts, vec!["aaaa bbbb\n\n", "cccc dddd\n\n", "eeee"]);
    let spans: Vec<(usize, usize, usize)> = slabs.iter().map(|s| (s.start, s.end, s.index)).collect();
    assert_eq!(spans, vec![(0, 11, 0), (11, 22, 1), (22, 26, 2)]);
}

#[test]
fn recursive_force_split_keeps_wide_characters_whole() {
    let text = "日本語";
    let slabs = RecursiveChunker::new(2, &[" "]).chunk(text);
    let texts: Vec<&str> = slabs.iter().map(|s| s.text.as_str()).collect();
    assert_eq!(texts, vec!["日", "本", "語"]);
}

#[test]
fn recursive_overlap_pulls_start_back() {
    let text = "aaaa bbbb cccc";
    let slabs = RecursiveChunker::new(5, &[" "]).with_overlap(2).chunk(text);
    let spans: Vec<(usize, usize)> = slabs.iter().map(|s| (s.start, s.end)).collect();
    // pulling back by the overlap would make the chunks longer than 5
    assert_eq!(spans, vec![(0, 5), (5, 10), (9, 14)]);
    for s in &slabs {
        assert_eq!(&text[s.start..s.end], s.text);
        assert!(s.len() <= 5);
    }
    let wide = RecursiveChunker::new(8, &[" "]).with_overlap(2).chunk(text);
    let spans: Vec<(usize, usize)> = wide.iter().map(|s| (s.start, s.end)).collect();
    assert_eq!(spans, vec![(0, 5), (3, 10), (8, 14)]);
}

#[test]
fn recursive_empty_separator_splits_characters() {
    let text = "abcdef";
    let frags = RecursiveChunker::new(2, &[""]).split_recursive(text, 0);
    assert_eq!(frags.concat(), text);
    assert!(frags.iter().all(|f| f.len() <= 2));
}

#[test]
fn recursive_overlap_never_exceeds_max_size() {
    let text = "xébbb";
    let slabs = RecursiveChunker::new(4, &["é"]).with_overlap(2).chunk(text);
    let spans: Vec<(usize, usize)> = slabs.iter().map(|s| (s.start, s.end)).collect();
    assert_eq!(spans, vec![(0, 3), (3, 6)]);
    let wide = "日日";
    let slabs = RecursiveChunker::new(4, &[" "]).with_overlap(2).chunk(wide);
    for s in &slabs {
        assert!(s.len() <= 4 || s.text.chars().count() == 1);
        assert_eq!(&wide[s.start..s.end], s.text);
    }
}
