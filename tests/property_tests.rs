use slabs::{Chunker, FixedChunker, RecursiveChunker, SentenceChunker};

#[test]
fn empty_input_produces_empty_output() {
    let text = "";

    let fixed = FixedChunker::new(50, 10);
    assert!(fixed.chunk(text).is_empty() || fixed.chunk(text)[0].text.is_empty());

    let sentence = SentenceChunker::new(2);
    assert!(sentence.chunk(text).is_empty() || sentence.chunk(text)[0].text.is_empty());

    let recursive = RecursiveChunker::new(100, &["\n\n", ". ", " "]);
    assert!(recursive.chunk(text).is_empty() || recursive.chunk(text)[0].text.is_empty());
}

#[test]
fn single_word_input() {
    let text = "hello";

    let fixed = FixedChunker::new(50, 10);
    let slabs = fixed.chunk(text);
    assert_eq!(slabs.len(), 1);
    assert_eq!(slabs[0].text, text);

    let sentence = SentenceChunker::new(2);
    let slabs = sentence.chunk(text);
    assert!(!slabs.is_empty());
}

#[test]
fn very_long_word() {
    let text = "a".repeat(1000);

    let fixed = FixedChunker::new(50, 10);
    let slabs = fixed.chunk(&text);
    assert!(!slabs.is_empty());

    let recursive = RecursiveChunker::new(100, &["\n\n", ". ", " ", ""]);
    let slabs = recursive.chunk(&text);
    assert!(!slabs.is_empty());
}

#[test]
fn unicode_handling() {
    let text = "Hello 世界! Привет мир! مرحبا بالعالم";

    let fixed = FixedChunker::new(20, 5);
    let slabs = fixed.chunk(text);

    for slab in &slabs {
        let _ = &text[slab.start..slab.end];
        assert_eq!(&text[slab.start..slab.end], slab.text);
    }
}

#[test]
fn sentence_boundaries() {
    let text = "Dr. Smith went to Washington D.C. He met Mr. Jones.";

    let sentence = SentenceChunker::new(1);
    let slabs = sentence.chunk(text);

    assert!(!slabs.is_empty());
}

#[test]
fn chunking_is_deterministic() {
    let text = "The quick brown fox jumps over the lazy dog. Pack my box.";

    let fixed = FixedChunker::new(30, 5);
    let slabs1 = fixed.chunk(text);
    let slabs2 = fixed.chunk(text);

    assert_eq!(slabs1.len(), slabs2.len());
    for (s1, s2) in slabs1.iter().zip(slabs2.iter()) {
        assert_eq!(s1.text, s2.text);
        assert_eq!(s1.start, s2.start);
        assert_eq!(s1.end, s2.end);
    }
}

#[test]
fn multibyte_spans_match_text_for_every_splitter() {
    let text = "Größe: 日本語のテキスト. Ünïcödé façade. Ёлка!";
    let fixed = FixedChunker::new(7, 2).chunk(text);
    let recursive = RecursiveChunker::prose(9).with_overlap(3).chunk(text);
    let sentence = SentenceChunker::new(1).chunk(text);
    for slabs in [fixed, recursive, sentence] {
        assert!(!slabs.is_empty());
        for (i, s) in slabs.iter().enumerate() {
            assert!(text.is_char_boundary(s.start) && text.is_char_boundary(s.end));
            assert_eq!(&text[s.start..s.end], s.text);
            assert_eq!(s.index, i);
        }
    }
}
