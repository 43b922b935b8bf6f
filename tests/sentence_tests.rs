use slabs::{Chunker, SentenceChunker};

#[test]
fn test_basic_sentences() {
    let chunker = SentenceChunker::new(1);
    let text = "Hello world. How are you? I am fine.";
    let slabs = chunker.chunk(text);

    assert_eq!(slabs.len(), 3);
    assert!(slabs[0].text.contains("Hello"));
    assert!(slabs[1].text.contains("How"));
    assert!(slabs[2].text.contains("fine"));
}

#[test]
fn test_grouped_sentences() {
    let chunker = SentenceChunker::new(2);
    let text = "One. Two. Three. Four.";
    let slabs = chunker.chunk(text);

    assert_eq!(slabs.len(), 2);
}

#[test]
fn test_abbreviations() {
    let chunker = SentenceChunker::new(1);
    let text = "Dr. Smith went to Washington D.C. on Tuesday.";
    let slabs = chunker.chunk(text);

    assert!(slabs.len() <= 2, "Too many splits: {:?}", slabs);
}

#[test]
fn sentence_test_empty_text() {
    let chunker = SentenceChunker::new(2);
    let slabs = chunker.chunk("");
    assert!(slabs.is_empty());
}

#[test]
fn test_whitespace_only() {
    let chunker = SentenceChunker::new(2);
    let slabs = chunker.chunk("   \n\t  ");
    assert!(slabs.is_empty());
}

#[test]
fn sentence_abbreviations_with_date() {
    let text = "Dr. Smith went to Washington D.C. on Jan. 15th.";
    let slabs = SentenceChunker::new(1).chunk(text);
    assert!(slabs.len() <= 2, "Too many splits: {:?}", slabs);
    assert!(!slabs.is_empty());
}

#[test]
fn sentence_groups_are_trimmed_spans() {
    let text = "One. Two. Three. Four.";
    let slabs = SentenceChunker::new(2).chunk(text);
    let got: Vec<(&str, usize, usize, usize)> =
        slabs.iter().map(|s| (s.text.as_str(), s.start, s.end, s.index)).collect();
    assert_eq!(got, vec![("One. Two.", 0, 9, 0), ("Three. Four.", 10, 22, 1)]);
}

#[test]
fn sentence_chunk_text_matches_span_across_paragraphs() {
    let text = "  First one.\n\nSecond one.  ";
    let slabs = SentenceChunker::new(2).chunk(text);
    for s in &slabs {
        assert_eq!(&text[s.start..s.end], s.text);
        assert_eq!(s.text.trim(), s.text);
    }
    assert_eq!(slabs[0].text.starts_with("First"), true);
}

#[test]
fn sentence_single_and_estimate() {
    let slabs = SentenceChunker::single().chunk("A. B.");
    assert_eq!(slabs.len(), 2);
    assert_eq!(slabs[1].text, "B.");
    assert_eq!(SentenceChunker::new(3).estimate_chunks(10), 1);
    assert_eq!(SentenceChunker::new(2).estimate_chunks(1000), 5);
}
