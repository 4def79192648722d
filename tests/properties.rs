use vaporetto::dispatch::chunk_ranges;
use vaporetto::model::{DictWeight, Model};
use vaporetto::predictor::Predictor;
use vaporetto::sentence::{BoundaryType, Sentence, SentenceError};

use BoundaryType::{NotWordBoundary as N, Unknown as U, WordBoundary as W};

fn dw(right: i32, inner: i32, left: i32) -> DictWeight {
    DictWeight { right, inner, left }
}

fn strings(ws: &[&str]) -> Vec<String> {
    ws.iter().map(|w| w.to_string()).collect()
}

fn empty_model(bias: i32) -> Model {
    Model {
        char_ngrams: vec![],
        type_ngrams: vec![],
        dict: vec![],
        char_ngram_weights: vec![],
        type_ngram_weights: vec![],
        dict_weights: vec![],
        dict_word_wise: false,
        bias,
        char_window_size: 2,
        type_window_size: 2,
    }
}

/// The first golden model: bias -200, char window 3, type window 2,
/// length-bucketed dictionary.
fn golden_model() -> Model {
    Model {
        char_ngrams: strings(&["我ら", "全世界", "国民", "世界", "界"]),
        type_ngrams: vec![b"H".to_vec(), b"K".to_vec(), b"KH".to_vec(), b"HK".to_vec()],
        dict: strings(&["全世界", "世界", "世"]),
        char_ngram_weights: vec![
            vec![1, 2, 3, 4, 5],
            vec![6, 7, 8, 9],
            vec![10, 11, 12, 13, 14],
            vec![15, 16, 17, 18, 19],
            vec![20, 21, 22, 23, 24, 25],
        ],
        type_ngram_weights: vec![
            vec![26, 27, 28, 29],
            vec![30, 31, 32, 33],
            vec![34, 35, 36],
            vec![37, 38, 39],
        ],
        dict_weights: vec![dw(40, 41, 42), dw(43, 44, 45)],
        dict_word_wise: false,
        bias: -200,
        char_window_size: 3,
        type_window_size: 2,
    }
}

const TEXT: &str = "我らは全世界の国民";

#[test]
fn from_raw_rejects_empty_text() {
    assert!(matches!(Sentence::from_raw(""), Err(SentenceError::Empty)));
}

#[test]
fn from_raw_classifies_and_leaves_boundaries_unknown() {
    let s = Sentence::from_raw("我らは全世界の国民").unwrap();
    assert_eq!(b"KHHKKKHKK", s.char_types());
    assert_eq!(&[U; 8], s.boundaries());
    assert_eq!(None, s.boundary_scores());
    let s = Sentence::from_raw("aZ9０カｶ、").unwrap();
    assert_eq!(b"RRDDTTO", s.char_types());
    assert_eq!(7, s.chars().len());
}

#[test]
fn single_character_has_no_boundary() {
    let p = Predictor::new(golden_model());
    let s = p.predict_with_score(Sentence::from_raw("我").unwrap());
    assert_eq!(0, s.boundaries().len());
    assert_eq!(None, s.boundary_scores());
    let s = p.predict_partial_with_score(s, 0, 0);
    assert_eq!(None, s.boundary_scores());
}

#[test]
fn empty_range_leaves_the_sentence_alone() {
    let p = Predictor::new(golden_model());
    let s = p.predict_partial_with_score(Sentence::from_raw(TEXT).unwrap(), 4, 4);
    assert_eq!(&[U; 8], s.boundaries());
    assert_eq!(None, s.boundary_scores());
}

#[test]
fn golden_raw_scores() {
    let p = Predictor::new(golden_model());
    let s = p.predict_with_score(Sentence::from_raw(TEXT).unwrap());
    assert_eq!(
        &[-77, -5, 45, 132, 133, 144, 50, -32],
        s.boundary_scores().unwrap()
    );
}

#[test]
fn prediction_is_idempotent() {
    let p = Predictor::new(golden_model());
    let once = p.predict_with_score(Sentence::from_raw(TEXT).unwrap());
    let first_b = once.boundaries().to_vec();
    let first_s = once.boundary_scores().unwrap().to_vec();
    let twice = p.predict_with_score(once);
    assert_eq!(first_b.as_slice(), twice.boundaries());
    assert_eq!(first_s.as_slice(), twice.boundary_scores().unwrap());
    let again = p.predict(Sentence::from_raw(TEXT).unwrap());
    assert_eq!(first_b.as_slice(), again.boundaries());
}

#[test]
fn partial_ranges_add_up_to_the_whole() {
    let p = Predictor::new(golden_model());
    let whole = p.predict_with_score(Sentence::from_raw(TEXT).unwrap());
    let s = Sentence::from_raw(TEXT).unwrap();
    let s = p.predict_partial_with_score(s, 3, 6);
    let s = p.predict_partial_with_score(s, 0, 3);
    let s = p.predict_partial_with_score(s, 6, 8);
    assert_eq!(whole.boundaries(), s.boundaries());
    assert_eq!(whole.boundary_scores(), s.boundary_scores());
}

#[test]
fn partial_prediction_masks_the_rest() {
    let p = Predictor::new(golden_model());
    let s = p.predict_partial(Sentence::from_raw(TEXT).unwrap(), 2, 5);
    assert_eq!(&[U, U, W, W, W, U, U, U], s.boundaries());
    assert_eq!(None, s.boundary_scores());
    let s = p.predict_partial_with_score(s, 6, 8);
    assert_eq!(&[U, U, W, W, W, U, W, N], s.boundaries());
    assert_eq!(&[0, 0, 0, 0, 0, 0, 50, -32], s.boundary_scores().unwrap());
    let s = p.predict_partial_with_score(s, 0, 1);
    assert_eq!(&[-77, 0, 0, 0, 0, 0, 50, -32], s.boundary_scores().unwrap());
}

#[test]
fn zero_score_is_a_word_boundary() {
    let p = Predictor::new(empty_model(0));
    let s = p.predict_with_score(Sentence::from_raw("abc").unwrap());
    assert_eq!(&[0, 0], s.boundary_scores().unwrap());
    assert_eq!(&[W, W], s.boundaries());
    let p = Predictor::new(empty_model(-1));
    let s = p.predict(Sentence::from_raw("abc").unwrap());
    assert_eq!(&[N, N], s.boundaries());
}

#[test]
fn scores_wrap_around() {
    let mut m = empty_model(i32::MAX);
    m.char_ngrams = strings(&["a"]);
    m.char_ngram_weights = vec![vec![0, 1]];
    m.char_window_size = 1;
    let p = Predictor::new(m);
    let s = p.predict_with_score(Sentence::from_raw("ab").unwrap());
    assert_eq!(&[i32::MIN], s.boundary_scores().unwrap());
    assert_eq!(&[N], s.boundaries());
}

#[test]
fn chunks_cover_the_boundaries() {
    assert_eq!(vec![(0, 3), (3, 6), (6, 9), (9, 10)], chunk_ranges(10, 3));
    assert_eq!(vec![(0, 4)], chunk_ranges(4, 4));
    assert_eq!(vec![(0, 4)], chunk_ranges(4, 100));
    assert!(chunk_ranges(0, 3).is_empty());
}

#[test]
fn chunks_in_any_order_match_serial_prediction() {
    let p = Predictor::new(golden_model());
    let serial = p.predict_with_score(Sentence::from_raw(TEXT).unwrap());
    for size in 1..10 {
        let mut s = Sentence::from_raw(TEXT).unwrap();
        let chunks = chunk_ranges(s.boundaries_len(), size);
        let mut results: Vec<(usize, Vec<i32>)> = chunks
            .iter()
            .map(|&(a, b)| (a, p.predict_scores(&s, a, b)))
            .collect();
        results.reverse();
        for (a, ys) in &results {
            s.apply_scores(*a, ys, true);
        }
        assert_eq!(serial.boundaries(), s.boundaries());
        assert_eq!(serial.boundary_scores(), s.boundary_scores());
    }
}

#[test]
fn suffix_patterns_are_all_counted() {
    // "b" and "ab" both end after "ab"; the merged table must count both.
    let mut m = empty_model(0);
    m.char_ngrams = strings(&["b", "ab"]);
    m.char_ngram_weights = vec![vec![1, 2], vec![10]];
    m.char_window_size = 1;
    let p = Predictor::new(m);
    let s = p.predict_with_score(Sentence::from_raw("abb").unwrap());
    // Boundary 0: "b" at 2 (1) and "ab" at 2 (10). Boundary 1: "b" at 2
    // (2) and "b" at 3 (1).
    assert_eq!(&[11, 3], s.boundary_scores().unwrap());
}

#[test]
fn folded_words_score_as_dictionary_words() {
    let mut folded = empty_model(0);
    folded.char_ngrams = strings(&["ab"]);
    folded.char_ngram_weights = vec![vec![0, 0, 0]];
    folded.dict = strings(&["ab"]);
    folded.dict_weights = vec![dw(1, 2, 4)];
    let mut kept = empty_model(0);
    kept.dict = strings(&["ab"]);
    kept.dict_weights = vec![dw(1, 2, 4)];
    let text = "xaby";
    let a = Predictor::new(folded).predict_with_score(Sentence::from_raw(text).unwrap());
    let b = Predictor::new(kept).predict_with_score(Sentence::from_raw(text).unwrap());
    assert_eq!(&[1, 2, 4], a.boundary_scores().unwrap());
    assert_eq!(a.boundary_scores(), b.boundary_scores());
}

#[test]
fn word_wise_dictionary_weights() {
    let mut m = empty_model(0);
    m.dict = strings(&["ab", "b"]);
    m.dict_weights = vec![dw(1, 2, 4), dw(8, 16, 32)];
    m.dict_word_wise = true;
    m.char_window_size = 0;
    let p = Predictor::new(m);
    let s = p.predict_with_score(Sentence::from_raw("abc").unwrap());
    // "ab" covers chars 0..2: inner on 0, left on 1. "b" covers 1..2:
    // right on 0, left on 1.
    assert_eq!(&[2 + 8, 4 + 32], s.boundary_scores().unwrap());
}

#[test]
fn dictionary_window_picks_the_length_class() {
    let make = || {
        let mut m = empty_model(0);
        m.dict = strings(&["ab"]);
        m.dict_weights = vec![dw(1, 2, 4), dw(8, 16, 32)];
        m.char_window_size = 1;
        Predictor::new(m)
    };
    let score = |p: &Predictor| {
        let s = p.predict_with_score(Sentence::from_raw("ab").unwrap());
        s.boundary_scores().unwrap()[0]
    };
    assert_eq!(16, score(&make()));
    assert_eq!(2, score(&make().dict_window_size(1)));
    assert_eq!(16, score(&make().dict_window_size(5)));
    assert_eq!(0, score(&make().dict_window_size(0)));
}
