use slabs::semantic::{assemble_chunks, extract_sentences, find_split_points, semantic_chunks};

#[test]
fn semantic_sentences_are_trimmed_spans() {
    let text = "Hello world.  How are you? ";
    let sentences = extract_sentences(text);
    let got: Vec<(&str, usize, usize, usize)> =
        sentences.iter().map(|s| (s.text.as_str(), s.start, s.end, s.index)).collect();
    assert_eq!(got, vec![("Hello world.", 0, 12, 0), ("How are you?", 14, 26, 1)]);
}

#[test]
fn semantic_split_points_respect_min_sentences() {
    let below = vec![true, false, true];
    assert_eq!(find_split_points(&below, 1), vec![1, 3]);
    assert_eq!(find_split_points(&below, 2), vec![3]);
    assert_eq!(find_split_points(&below, 0), vec![1, 3]);
    assert_eq!(find_split_points(&vec![], 1), Vec::<usize>::new());
    assert_eq!(find_split_points(&vec![false, false], 1), Vec::<usize>::new());
}

#[test]
fn semantic_groups_join_with_spaces() {
    let text = "Cats purr. Cats sleep. Rain falls. Rain stops.";
    let sentences = extract_sentences(text);
    assert_eq!(sentences.len(), 4);
    let chunks = assemble_chunks(&sentences, &vec![2]);
    let got: Vec<(&str, usize, usize, usize)> =
        chunks.iter().map(|s| (s.text.as_str(), s.start, s.end, s.index)).collect();
    assert_eq!(
        got,
        vec![("Cats purr. Cats sleep.", 0, 22, 0), ("Rain falls. Rain stops.", 23, 46, 1)]
    );
}

#[test]
fn semantic_chunks_follow_similarity_drops() {
    let text = "Cats purr. Cats sleep. Rain falls. Rain stops.";
    let sentences = extract_sentences(text);
    let chunks = semantic_chunks(text, &sentences, Some(vec![false, true, false]), 2);
    assert_eq!(chunks.len(), 2);
    assert_eq!(chunks[1].text, "Rain falls. Rain stops.");
    let one = semantic_chunks(text, &sentences, Some(vec![false, true, false]), 3);
    assert_eq!(one.len(), 1);
    assert_eq!(one[0].text, "Cats purr. Cats sleep. Rain falls. Rain stops.");
}

#[test]
fn semantic_fallback_is_whole_trimmed_document() {
    let text = "  One idea. Another idea.\n";
    let sentences = extract_sentences(text);
    let chunks = semantic_chunks(text, &sentences, None, 2);
    assert_eq!(chunks.len(), 1);
    assert_eq!(chunks[0].text, "One idea. Another idea.");
    assert_eq!((chunks[0].start, chunks[0].end, chunks[0].index), (0, text.len(), 0));
}

#[test]
fn semantic_empty_text_has_no_chunks() {
    let sentences = extract_sentences("");
    assert!(sentences.is_empty());
    assert!(semantic_chunks("", &sentences, None, 2).is_empty());
    let blank = extract_sentences(" \n\t ");
    assert!(blank.is_empty());
}
