use vaporetto::index::{hash_slice, VocabIndex};
use vaporetto::merge::{merge_dict_weights, merge_weights};
use vaporetto::model::DictWeight;
use vaporetto::text::{char_type, char_types, chars_of, HIRAGANA, KANJI, KATAKANA, OTHER};

fn cs(s: &str) -> Vec<char> {
    s.chars().collect()
}

#[test]
fn merge_adds_every_suffix() {
    let words = vec![cs("b"), cs("ab"), cs("xab")];
    let weights = vec![vec![1, 2, 3], vec![10, 20], vec![100]];
    let merged = merge_weights(&words, &weights);
    assert_eq!(
        vec![vec![1, 2, 3], vec![11, 22, 3], vec![111, 22, 3]],
        merged
    );
}

#[test]
fn merge_keeps_patterns_without_suffixes() {
    let words = vec![b"KH".to_vec(), b"HK".to_vec()];
    let weights = vec![vec![1, 2], vec![3, 4]];
    assert_eq!(weights, merge_weights(&words, &weights));
}

#[test]
fn merge_uses_the_last_of_duplicate_entries() {
    let words = vec![cs("a"), cs("a"), cs("ba")];
    let weights = vec![vec![1, 1], vec![5, 5], vec![7]];
    let merged = merge_weights(&words, &weights);
    assert_eq!(vec![vec![5, 5], vec![5, 5], vec![12, 5]], merged);
}

#[test]
fn folding_moves_short_known_words() {
    let dict = vec![cs("ab"), cs("z"), cs("abcd")];
    let dws = vec![DictWeight {
        right: 1,
        inner: 2,
        left: 4,
    }];
    let words = vec![cs("ab"), cs("abcd")];
    let mut word_weights = vec![vec![0, 0, 0], vec![9]];
    let (kept, kept_weights) = merge_dict_weights(&dict, &dws, &words, &mut word_weights, 2, false);
    assert_eq!(vec![vec![1, 2, 4], vec![9]], word_weights);
    assert_eq!(vec![cs("z"), cs("abcd")], kept);
    assert_eq!(dws, kept_weights);
}

#[test]
fn folding_word_wise_keeps_weights_aligned() {
    let d = |x: i32| DictWeight {
        right: x,
        inner: x,
        left: x,
    };
    let dict = vec![cs("q"), cs("ab"), cs("r")];
    let dws = vec![d(1), d(2), d(3)];
    let words = vec![cs("ab")];
    let mut word_weights = vec![vec![0, 0, 0, 0, 0]];
    let (kept, kept_weights) = merge_dict_weights(&dict, &dws, &words, &mut word_weights, 3, true);
    // Window 3, word length 2: right at slot 1, inner at slot 2, left at slot 3.
    assert_eq!(vec![vec![0, 2, 2, 2, 0]], word_weights);
    assert_eq!(vec![cs("q"), cs("r")], kept);
    assert_eq!(vec![d(1), d(3)], kept_weights);
}

#[test]
fn index_finds_the_last_entry() {
    let pats = vec![cs("ab"), cs("b"), cs("ab"), cs("xyz")];
    let index = VocabIndex::build(&pats);
    let text = cs("zabxyz");
    assert_eq!(Some(2), index.find(&pats, &text, 1, 3));
    assert_eq!(Some(1), index.find(&pats, &text, 2, 3));
    assert_eq!(Some(3), index.find(&pats, &text, 3, 6));
    assert_eq!(None, index.find(&pats, &text, 0, 2));
    assert_eq!(None, index.find(&pats, &text, 0, 0));
}

#[test]
fn hash_depends_on_order() {
    let t = cs("abba");
    assert_eq!(hash_slice(&t, 0, 2), hash_slice(&cs("ab"), 0, 2));
    assert_ne!(hash_slice(&t, 0, 2), hash_slice(&t, 2, 4));
}

#[test]
fn character_classes() {
    assert_eq!(KANJI, char_type('国'));
    assert_eq!(HIRAGANA, char_type('の'));
    assert_eq!(KATAKANA, char_type('ア'));
    assert_eq!(OTHER, char_type(' '));
    assert_eq!(b"DRO".to_vec(), char_types(&cs("7x!")));
    assert_eq!(cs("国民"), chars_of("国民"));
}
