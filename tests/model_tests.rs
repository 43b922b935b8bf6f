use slabs::model::cut_at;
use slabs::{Chunker, ModelChunker, TokenClassifier};

struct FixedPoints(Vec<usize>);

impl TokenClassifier for FixedPoints {
    fn predict_splits(&self, _text: &str) -> Vec<usize> {
        self.0.clone()
    }
}

#[test]
fn model_cut_points_are_filtered() {
    let text = "hello world!!";
    let slabs = ModelChunker::new(FixedPoints(vec![5, 3, 100, 8])).chunk(text);
    let got: Vec<(&str, usize, usize, usize)> =
        slabs.iter().map(|s| (s.text.as_str(), s.start, s.end, s.index)).collect();
    assert_eq!(got, vec![("hello", 0, 5, 0), (" wo", 5, 8, 1), ("rld!!", 8, 13, 2)]);
}

#[test]
fn model_cut_inside_a_character_is_ignored() {
    let text = "aé b";
    // byte 2 is inside 'é'
    let slabs = cut_at(text, &vec![2, 3]);
    let got: Vec<(&str, usize, usize)> = slabs.iter().map(|s| (s.text.as_str(), s.start, s.end)).collect();
    assert_eq!(got, vec![("aé", 0, 3), (" b", 3, 5)]);
}

#[test]
fn model_empty_text_and_no_points() {
    assert!(ModelChunker::new(FixedPoints(vec![1, 2])).chunk("").is_empty());
    let whole = cut_at("abc", &vec![]);
    assert_eq!(whole.len(), 1);
    assert_eq!(whole[0].text, "abc");
    let end_only = cut_at("abc", &vec![3, 0]);
    assert_eq!(end_only.len(), 1);
    assert_eq!((end_only[0].start, end_only[0].end), (0, 3));
}
