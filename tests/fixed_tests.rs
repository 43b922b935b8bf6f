use slabs::{Chunker, Error, FixedChunker};

#[test]
fn test_basic_chunking() {
    let chunker = FixedChunker::new(10, 2);
    let text = "abcdefghijklmnopqrstuvwxyz";
    let slabs = chunker.chunk(text);

    assert_eq!(slabs[0].text, "abcdefghij");
    assert_eq!(slabs[0].start, 0);
    assert_eq!(slabs[0].end, 10);

    assert_eq!(slabs[1].start, 8);
}

#[test]
fn fixed_test_empty_text() {
    let chunker = FixedChunker::new(10, 2);
    let slabs = chunker.chunk("");
    assert!(slabs.is_empty());
}

#[test]
fn test_text_smaller_than_chunk() {
    let chunker = FixedChunker::new(100, 20);
    let slabs = chunker.chunk("small");
    assert_eq!(slabs.len(), 1);
    assert_eq!(slabs[0].text, "small");
}

#[test]
fn test_unicode_boundaries() {
    let chunker = FixedChunker::new(5, 1);
    let text = "a日本語b";
    let slabs = chunker.chunk(text);

    for slab in &slabs {
        assert!(slab.text.is_char_boundary(0));
    }
}

#[test]
fn fixed_windows_of_the_alphabet() {
    let chunker = FixedChunker::new(10, 2);
    let slabs = chunker.chunk("abcdefghijklmnopqrstuvwxyz");
    let spans: Vec<(usize, usize, usize)> = slabs.iter().map(|s| (s.start, s.end, s.index)).collect();
    assert_eq!(spans, vec![(0, 10, 0), (8, 18, 1), (16, 26, 2), (24, 26, 3)]);
    assert_eq!(slabs[2].text, "qrstuvwxyz");
    assert_eq!(slabs[3].text, "yz");
}

#[test]
fn fixed_multibyte_cut_moves_to_boundaries() {
    // 'a' + three 3-byte characters + 'b': 11 bytes. Window ends move down
    // to a boundary; a window start never passes the previous end.
    let text = "a日本語b";
    let slabs = FixedChunker::new(5, 1).chunk(text);
    let spans: Vec<(usize, usize)> = slabs.iter().map(|s| (s.start, s.end)).collect();
    assert_eq!(spans, vec![(0, 4), (4, 7), (7, 11)]);
    assert_eq!(slabs[0].text, "a日");
    assert_eq!(slabs[1].text, "本");
    assert_eq!(slabs[2].text, "語b");
}

#[test]
fn fixed_try_new_rejects_bad_sizes() {
    assert_eq!(FixedChunker::try_new(0, 0).unwrap_err(), Error::InvalidChunkSize(0));
    assert_eq!(
        FixedChunker::try_new(10, 10).unwrap_err(),
        Error::OverlapExceedsSize { size: 10, overlap: 10 }
    );
    assert!(FixedChunker::try_new(10, 9).is_ok());
}

#[test]
fn fixed_estimate_rounds_up() {
    let chunker = FixedChunker::new(100, 20);
    assert_eq!(chunker.estimate_chunks(0), 0);
    assert_eq!(chunker.estimate_chunks(80), 1);
    assert_eq!(chunker.estimate_chunks(81), 2);
    assert_eq!(chunker.estimate_chunks(250), 4);
}

#[test]
fn fixed_no_overlap_is_contiguous_and_complete() {
    let text = "The quick brown fox jumps over the lazy dog.";
    let slabs = FixedChunker::no_overlap(7).chunk(text);
    assert_eq!(slabs[0].start, 0);
    assert_eq!(slabs.last().unwrap().end, text.len());
    for w in slabs.windows(2) {
        assert_eq!(w[0].end, w[1].start);
    }
    let total: usize = slabs.iter().map(|s| s.len()).sum();
    assert_eq!(total, text.len());
}

#[test]
fn fixed_overlap_covers_without_gaps() {
    let text = "0123456789abcdefghijklmnopqrstuvwxyz";
    let slabs = FixedChunker::new(8, 3).chunk(text);
    assert_eq!(slabs[0].start, 0);
    assert_eq!(slabs.last().unwrap().end, text.len());
    for w in slabs.windows(2) {
        assert!(w[0].start < w[1].start && w[1].start <= w[0].end);
        assert!(w[0].end - w[1].start <= 3);
    }
}

#[test]
fn slab_describes_itself() {
    let slab = slabs::Slab::new("world", 7, 12, 3);
    assert_eq!(slab.to_string(), "Slab { index: 3, span: 7..12, len: 5 }");
    assert_eq!(slab.span(), 7..12);
    assert_eq!(slab.len(), 5);
    assert!(!slab.is_empty());
    let wide = slabs::Slab::new("日本", 1234567890, 1234567896, 0);
    assert_eq!(wide.to_string(), "Slab { index: 0, span: 1234567890..1234567896, len: 6 }");
}

#[test]
fn fixed_multibyte_without_overlap_loses_nothing() {
    let text = "aéb";
    let slabs = FixedChunker::new(2, 0).chunk(text);
    let spans: Vec<(usize, usize)> = slabs.iter().map(|s| (s.start, s.end)).collect();
    assert_eq!(spans, vec![(0, 1), (1, 3), (3, 4)]);
    let total: usize = slabs.iter().map(|s| s.len()).sum();
    assert_eq!(total, text.len());
}

#[test]
fn fixed_window_narrower_than_a_character() {
    let text = "a日b";
    let slabs = FixedChunker::new(1, 0).chunk(text);
    let texts: Vec<&str> = slabs.iter().map(|s| s.text.as_str()).collect();
    assert_eq!(texts, vec!["a", "日", "b"]);
}
