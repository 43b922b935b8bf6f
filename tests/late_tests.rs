use slabs::late::{overlapping_tokens, token_range};
use slabs::{Chunker, LateChunker, LateChunkingPooler, SentenceChunker};

#[test]
fn late_ratio_ranges() {
    assert_eq!(token_range(0, 10, 20, 6), Some((0, 3)));
    assert_eq!(token_range(10, 20, 20, 6), Some((3, 6)));
    assert_eq!(token_range(5, 6, 100, 4), None);
    assert_eq!(token_range(0, 40, 20, 6), Some((0, 6)));
    assert_eq!(token_range(30, 40, 20, 6), None);
}

#[test]
fn late_exact_offsets_select_overlapping_tokens() {
    let offsets = vec![(0, 5), (5, 6), (6, 11), (11, 12), (12, 16)];
    assert_eq!(overlapping_tokens(&offsets, 0, 12), vec![0, 1, 2, 3]);
    assert_eq!(overlapping_tokens(&offsets, 12, 16), vec![4]);
    assert_eq!(overlapping_tokens(&offsets, 5, 7), vec![1, 2]);
    assert_eq!(overlapping_tokens(&offsets, 16, 20), Vec::<usize>::new());
}

#[test]
fn late_chunker_delegates_to_its_base() {
    let late = LateChunker::new(SentenceChunker::new(2), 384);
    let text = "First sentence. Second sentence. Third sentence. Fourth sentence.";
    let chunks = late.chunk(text);
    assert_eq!(chunks, SentenceChunker::new(2).chunk(text));
    assert_eq!(chunks.len(), 2);
    assert_eq!(late.pooler().dim(), 384);
    assert_eq!(LateChunkingPooler::new(4).dim(), 4);
    assert_eq!(late.estimate_chunks(5000), SentenceChunker::new(2).estimate_chunks(5000));
}
