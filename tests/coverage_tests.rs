use slabs::{Chunker, FixedChunker, RecursiveChunker, SentenceChunker, Slab};

fn covers_whole_text(slabs: &[Slab], text: &str) -> bool {
    if slabs.is_empty() {
        return text.is_empty();
    }
    let mut covered = vec![false; text.len()];
    for slab in slabs {
        for c in covered.iter_mut().take(slab.end).skip(slab.start) {
            *c = true;
        }
    }
    covered.iter().all(|&c| c)
}

fn chunk_bounds_valid(slabs: &[Slab], text: &str) -> bool {
    for slab in slabs {
        if slab.start > slab.end || slab.end > text.len() {
            return false;
        }
        if slab.text != text[slab.start..slab.end] {
            return false;
        }
    }
    true
}

#[test]
fn fixed_chunker_full_coverage() {
    let long = "A".repeat(1000);
    let texts = [
        "Hello, world!",
        "The quick brown fox jumps over the lazy dog.",
        long.as_str(),
        "Short",
        " Leading and trailing spaces ",
        "Multiple\n\nParagraphs\n\nHere",
    ];

    for text in &texts {
        let chunker = FixedChunker::new(50, 10);
        let slabs = chunker.chunk(text);

        assert!(
            covers_whole_text(&slabs, text),
            "Fixed chunker failed coverage for: {:?}",
            &text[..text.len().min(50)]
        );
    }
}

#[test]
fn recursive_chunker_valid_chunks() {
    let repeated = "NoSeparatorsAtAll".repeat(10);
    let texts = [
        "Hello, world!",
        "First paragraph.\n\nSecond paragraph.\n\nThird.",
        "Sentence one. Sentence two. Sentence three.",
        "Word by word by word by word.",
        repeated.as_str(),
    ];

    for text in &texts {
        let chunker = RecursiveChunker::new(100, &["\n\n", "\n", ". ", " "]);
        let slabs = chunker.chunk(text);

        for slab in &slabs {
            assert!(slab.start <= slab.end, "Invalid bounds");
            assert!(slab.end <= text.len(), "End exceeds text length");
            assert_eq!(&text[slab.start..slab.end], slab.text, "Text mismatch");
        }
    }
}

#[test]
fn sentence_chunker_valid_chunks() {
    let texts = [
        "Hello. World.",
        "Dr. Smith went home. He was tired.",
        "First! Second? Third.",
        "No sentence ending here",
    ];

    for text in &texts {
        let chunker = SentenceChunker::new(2);
        let slabs = chunker.chunk(text);

        for slab in &slabs {
            assert!(slab.start <= slab.end, "Invalid bounds");
            assert!(slab.end <= text.len(), "End exceeds text length");
            assert_eq!(&text[slab.start..slab.end], slab.text, "Text mismatch");
        }
    }
}

#[test]
fn fixed_chunker_overlap_property() {
    let text = "The quick brown fox jumps over the lazy dog. Pack my box.";

    for overlap in [0, 5, 10, 20] {
        let chunker = FixedChunker::new(30, overlap);
        let slabs = chunker.chunk(text);

        if slabs.len() > 1 {
            for window in slabs.windows(2) {
                let first = &window[0];
                let second = &window[1];
                if second.start < first.end {
                    let actual_overlap = first.end - second.start;
                    assert!(
                        actual_overlap <= overlap,
                        "Overlap {} exceeds requested {} for chunks [{},{}] and [{},{}]",
                        actual_overlap,
                        overlap,
                        first.start,
                        first.end,
                        second.start,
                        second.end
                    );
                }
            }
        }
    }
}

#[test]
fn fixed_chunker_no_overlap_means_contiguous() {
    let text = "ABCDEFGHIJKLMNOPQRSTUVWXYZ";

    let chunker = FixedChunker::new(5, 0);
    let slabs = chunker.chunk(text);

    for window in slabs.windows(2) {
        let gap = window[1].start.saturating_sub(window[0].end);
        assert!(gap == 0, "Gap of {} between chunks with zero overlap", gap);
    }
}

#[test]
fn fixed_chunker_respects_size() {
    let text = "A".repeat(500);

    for size in [20, 50, 100, 200] {
        let chunker = FixedChunker::new(size, 5);
        let slabs = chunker.chunk(&text);

        for (i, slab) in slabs.iter().enumerate() {
            if i < slabs.len() - 1 {
                assert!(
                    slab.text.len() <= size,
                    "Chunk {} has size {} > max {}",
                    i,
                    slab.text.len(),
                    size
                );
            }
        }
    }
}

#[test]
fn recursive_chunker_respects_size() {
    let text = "First paragraph with lots of words. More words here.\n\n\
                Second paragraph also has words. Even more words.\n\n\
                Third paragraph continues. And more sentences.";

    for size in [50, 100, 200] {
        let chunker = RecursiveChunker::new(size, &["\n\n", ". ", " "]);
        let slabs = chunker.chunk(text);

        for (i, slab) in slabs.iter().enumerate() {
            if slab.text.len() > size * 2 {
                panic!(
                    "Chunk {} size {} greatly exceeds target {} for text starting: {:?}",
                    i,
                    slab.text.len(),
                    size,
                    &slab.text[..slab.text.len().min(30)]
                );
            }
        }
    }
}

#[test]
fn chunker_handles_only_whitespace() {
    let text = "   \n\n\t\t  ";

    let fixed = FixedChunker::new(50, 10);
    let slabs = fixed.chunk(text);
    assert!(chunk_bounds_valid(&slabs, text));

    let recursive = RecursiveChunker::new(100, &["\n\n", " "]);
    let slabs = recursive.chunk(text);
    assert!(chunk_bounds_valid(&slabs, text));
}

#[test]
fn chunker_handles_newlines() {
    let text = "Line 1\nLine 2\nLine 3";

    let recursive = RecursiveChunker::new(50, &["\n"]);
    let slabs = recursive.chunk(text);

    assert!(!slabs.is_empty());
    assert!(chunk_bounds_valid(&slabs, text));
}

#[test]
fn chunker_handles_very_small_max_size() {
    let text = "Hello World";

    let chunker = FixedChunker::new(3, 1);
    let slabs = chunker.chunk(text);

    assert!(!slabs.is_empty());
    assert!(chunk_bounds_valid(&slabs, text));
}

#[test]
fn chunker_handles_size_equals_text_length() {
    let text = "Exactly fifty characters in this string, not more.";

    let chunker = FixedChunker::new(text.len(), 0);
    let slabs = chunker.chunk(text);

    assert_eq!(slabs.len(), 1);
    assert_eq!(slabs[0].text, text);
}
