//! The predictor: merged tables, three channel scorers and a bias.
use crate::arith::{lemma_wrap_small, wrap_i32};
use crate::merge::{
    all_nonempty, folded_table, kept_weights, kept_words, lemma_merged_lengths, merge_dict_weights,
    merge_weights, merged_table,
};
use crate::model::{strs_of, Model};
use crate::scorer::{DictScorer, NgramScorer};
use crate::sentence::{applied, Sentence, SentenceView};
use crate::text::chars_of;
use crate::vocab::seqs_of;
use vstd::prelude::*;

verus! {

/// The characters of each string.
fn strings_to_chars(ss: &Vec<String>) -> (r: Vec<Vec<char>>)
    ensures
        seqs_of(r@) == strs_of(ss@),
{
    let mut r: Vec<Vec<char>> = Vec::new();
    let mut i: usize = 0;
    while i < ss.len()
        invariant
            i <= ss.len(),
            r.len() == i,
            seqs_of(r@) == strs_of(ss@).take(i as int),
        decreases ss.len() - i,
    {
        let cs = chars_of(ss[i].as_str());
        assert(cs@ == strs_of(ss@)[i as int]);
        let ghost old_r = r@;
        r.push(cs);
        assert forall|j: int| 0 <= j < i + 1 implies #[trigger] seqs_of(r@)[j] == strs_of(ss@)[j] by {
            if j < i {
                assert(r@[j] == old_r[j]);
                assert(seqs_of(old_r)[j] == strs_of(ss@).take(i as int)[j]);
            }
        }
        i = i + 1;
        assert(seqs_of(r@) =~= strs_of(ss@).take(i as int));
    }
    assert(strs_of(ss@).take(i as int) =~= strs_of(ss@));
    r
}

/// Predicts word boundaries.
pub struct Predictor {
    pub bias: i32,
    pub char_scorer: NgramScorer<char>,
    pub type_scorer: NgramScorer<u8>,
    pub dict_scorer: Option<DictScorer>,
}

impl Predictor {
    /// Every scorer holds its invariants.
    pub open spec fn wf(&self) -> bool {
        &&& self.char_scorer.wf()
        &&& self.type_scorer.wf()
        &&& self.dict_scorer matches Some(d) ==> d.wf()
    }

    /// The exact score of boundary `b`: the bias plus what each channel adds.
    pub open spec fn score(&self, chars: Seq<char>, types: Seq<u8>, b: int) -> int {
        self.bias + self.char_scorer.total(chars, b) + self.type_scorer.total(types, b)
            + match self.dict_scorer {
            Some(d) => d.total(chars, b),
            None => 0,
        }
    }

    /// The `i32` scores of boundaries `start..end` of a sentence.
    pub open spec fn scores_in(&self, sv: SentenceView, start: int, end: int) -> Seq<i32> {
        Seq::new((end - start) as nat, |i: int| wrap_i32(self.score(sv.chars, sv.types, start + i)))
    }

    /// The sentence after predicting boundaries `start..end`.
    pub open spec fn predicted_range(
        &self,
        sv: SentenceView,
        start: int,
        end: int,
        with_scores: bool,
    ) -> SentenceView {
        applied(sv, start, self.scores_in(sv, start, end), with_scores)
    }

    /// The sentence after predicting every boundary.
    pub open spec fn predicted(&self, sv: SentenceView, with_scores: bool) -> SentenceView {
        if sv.boundaries.len() == 0 {
            sv
        } else {
            self.predicted_range(sv, 0, sv.boundaries.len() as int, with_scores)
        }
    }

    /// The tables a model gives: the dictionary folded into the character
    /// n-grams, both n-gram tables merged over suffixes, and the remaining
    /// dictionary scored on its own.
    pub open spec fn built_from(&self, m: Model) -> bool {
        let wc = m.char_window_size as int;
        let ds = m.dict_words();
        let cp = m.char_pats();
        let folded = folded_table(
            ds,
            m.dict_weights@,
            m.dict_word_wise,
            cp,
            seqs_of(m.char_ngram_weights@),
            wc,
        );
        let kept = kept_words(ds, cp, wc, ds.len());
        &&& self.bias == m.bias
        &&& self.char_scorer.pats_view() == cp
        &&& self.char_scorer.weights_view() == merged_table(cp, folded)
        &&& self.char_scorer.window == m.char_window_size
        &&& self.type_scorer.pats_view() == m.type_pats()
        &&& self.type_scorer.weights_view() == merged_table(
            m.type_pats(),
            seqs_of(m.type_ngram_weights@),
        )
        &&& self.type_scorer.window == m.type_window_size
        &&& if kept.len() == 0 {
            self.dict_scorer is None
        } else {
            &&& self.dict_scorer matches Some(d)
            &&& d.words_view() == kept
            &&& d.word_wise == m.dict_word_wise
            &&& d.weights@ == if m.dict_word_wise {
                kept_weights(ds, m.dict_weights@, cp, wc, ds.len())
            } else {
                m.dict_weights@
            }
            &&& d.window == d.weights@.len()
        }
    }

    /// Builds a predictor from a model.
    pub fn new(model: Model) -> (r: Self)
        requires
            model.wf(),
        ensures
            r.wf(),
            r.built_from(model),
    {
        let ghost m = model;
        let char_ngrams = strings_to_chars(&model.char_ngrams);
        let dict = strings_to_chars(&model.dict);
        let mut char_ngram_weights = model.char_ngram_weights;
        assert(dict.len() == seqs_of(dict@).len());
        assert(model.dict.len() == m.dict_words().len());
        let (dict, dict_weights) = merge_dict_weights(
            &dict,
            &model.dict_weights,
            &char_ngrams,
            &mut char_ngram_weights,
            model.char_window_size,
            model.dict_word_wise,
        );
        assert(char_ngram_weights.len() == seqs_of(char_ngram_weights@).len());
        assert(char_ngrams.len() == seqs_of(char_ngrams@).len());
        assert(model.char_ngrams.len() == m.char_pats().len());
        assert(model.char_ngram_weights.len() == seqs_of(model.char_ngram_weights@).len());
        assert(model.type_ngram_weights.len() == seqs_of(model.type_ngram_weights@).len());
        assert(model.type_ngrams.len() == m.type_pats().len());
        let char_weights = merge_weights(&char_ngrams, &char_ngram_weights);
        let type_weights = merge_weights(&model.type_ngrams, &model.type_ngram_weights);
        proof {
            let wc = m.char_window_size as int;
            let wt = m.type_window_size as int;
            let folded = seqs_of(char_ngram_weights@);
            let cws = seqs_of(m.char_ngram_weights@);
            assert forall|k: int| 0 <= k < folded.len() implies (#[trigger] folded[k]).len() <= 2
                * wc + 1 by {
                assert(cws[k].len() + m.char_pats()[k].len() == 2 * wc + 1);
            }
            lemma_merged_lengths(m.char_pats(), folded, 2 * wc + 1);
            let tws = seqs_of(m.type_ngram_weights@);
            assert forall|k: int| 0 <= k < tws.len() implies (#[trigger] tws[k]).len() <= 2 * wt
                + 1 by {
                assert(tws[k].len() + m.type_pats()[k].len() == 2 * wt + 1);
            }
            lemma_merged_lengths(m.type_pats(), tws, 2 * wt + 1);
        }
        assert(char_weights.len() == seqs_of(char_weights@).len());
        assert(type_weights.len() == seqs_of(type_weights@).len());
        let char_scorer = NgramScorer::new(char_ngrams, char_weights, model.char_window_size);
        let type_scorer = NgramScorer::new(model.type_ngrams, type_weights, model.type_window_size);
        let dict_scorer = if dict.len() == 0 {
            None
        } else {
            proof {
                lemma_kept_nonempty(m);
            }
            Some(DictScorer::new(dict, dict_weights, model.dict_word_wise))
        };
        Predictor { bias: model.bias, char_scorer, type_scorer, dict_scorer }
    }
}

impl Predictor {
    /// The scores of boundaries `start..end` of `sentence`: the bias plus
    /// every channel, accumulated with wrapping. Every channel reads the
    /// whole sentence, so patterns across the range's edges count.
    pub fn predict_scores(&self, sentence: &Sentence, start: usize, end: usize) -> (r: Vec<i32>)
        requires
            self.wf(),
            sentence@.wf(),
            start <= end <= sentence@.boundaries.len(),
        ensures
            r@ == self.scores_in(sentence@, start as int, end as int),
    {
        let ghost sv = sentence@;
        let chars = sentence.chars_vec();
        let types = sentence.types_vec();
        let n = end - start;
        let mut ys = vec![self.bias; n];
        let ghost t0 = Seq::new(n as nat, |i: int| self.bias as int);
        proof {
            lemma_wrap_small(self.bias as int);
        }
        self.char_scorer.add_scores(chars, start, &mut ys, Ghost(t0));
        let ghost t1 = Seq::new(n as nat, |i: int| t0[i] + self.char_scorer.total(sv.chars, start + i));
        assert forall|i: int| 0 <= i < t1.len() implies ys@[i] == wrap_i32(#[trigger] t1[i]) by {}
        self.type_scorer.add_scores(types, start, &mut ys, Ghost(t1));
        let ghost t2 = Seq::new(n as nat, |i: int| t1[i] + self.type_scorer.total(sv.types, start + i));
        assert forall|i: int| 0 <= i < t2.len() implies ys@[i] == wrap_i32(#[trigger] t2[i]) by {}
        match &self.dict_scorer {
            Some(d) => {
                d.add_scores(chars, start, &mut ys, Ghost(t2));
            },
            None => {},
        }
        assert(ys@ =~= self.scores_in(sv, start as int, end as int)) by {
            assert forall|i: int| 0 <= i < n implies ys@[i] == self.scores_in(sv, start as int, end as int)[i] by {
                assert(self.score(sv.chars, sv.types, start + i) == match self.dict_scorer {
                    Some(d) => t2[i] + d.total(sv.chars, start + i),
                    None => t2[i],
                });
            }
        }
        ys
    }

    /// Predicts the boundaries `start..end`; every other boundary keeps its state.
    pub fn predict_partial(&self, sentence: Sentence, start: usize, end: usize) -> (r: Sentence)
        requires
            self.wf(),
            sentence@.wf(),
            start <= end <= sentence@.boundaries.len(),
        ensures
            r@ == self.predicted_range(sentence@, start as int, end as int, false),
            r@.wf(),
    {
        let mut sentence = sentence;
        let ys = self.predict_scores(&sentence, start, end);
        sentence.apply_scores(start, &ys, false);
        sentence
    }

    /// Predicts the boundaries `start..end` and writes their scores; every
    /// other boundary and score keeps its value (a missing score array
    /// starts as zeros).
    pub fn predict_partial_with_score(&self, sentence: Sentence, start: usize, end: usize) -> (r:
        Sentence)
        requires
            self.wf(),
            sentence@.wf(),
            start <= end <= sentence@.boundaries.len(),
        ensures
            r@ == self.predicted_range(sentence@, start as int, end as int, true),
            r@.wf(),
    {
        let mut sentence = sentence;
        let ys = self.predict_scores(&sentence, start, end);
        sentence.apply_scores(start, &ys, true);
        sentence
    }

    /// Predicts every boundary.
    pub fn predict(&self, sentence: Sentence) -> (r: Sentence)
        requires
            self.wf(),
            sentence@.wf(),
        ensures
            r@ == self.predicted(sentence@, false),
            r@.wf(),
    {
        let n = sentence.boundaries_len();
        if n == 0 {
            return sentence;
        }
        self.predict_partial(sentence, 0, n)
    }

    /// Predicts every boundary and writes every score.
    pub fn predict_with_score(&self, sentence: Sentence) -> (r: Sentence)
        requires
            self.wf(),
            sentence@.wf(),
        ensures
            r@ == self.predicted(sentence@, true),
            r@.wf(),
    {
        let n = sentence.boundaries_len();
        if n == 0 {
            return sentence;
        }
        self.predict_partial_with_score(sentence, 0, n)
    }
}

impl Predictor {
    /// This predictor with `size` length classes for the dictionary's
    /// length-bucketed weights.
    pub open spec fn with_dict_window(self, size: usize) -> Predictor {
        Predictor {
            dict_scorer: match self.dict_scorer {
                Some(d) => Some(DictScorer { window: size, ..d }),
                None => None,
            },
            ..self
        }
    }

    /// Sets how many word-length classes the dictionary's length-bucketed
    /// weights use: a word of length `l` takes class `min(l, size) - 1`, and a
    /// class the weight table lacks adds nothing. Word-wise weights are not
    /// affected.
    pub fn dict_window_size(self, size: usize) -> (r: Self)
        requires
            self.wf(),
        ensures
            r.wf(),
            r == self.with_dict_window(size),
    {
        let Predictor { bias, char_scorer, type_scorer, dict_scorer } = self;
        let dict_scorer = match dict_scorer {
            Some(d) => Some(DictScorer { window: size, ..d }),
            None => None,
        };
        Predictor { bias, char_scorer, type_scorer, dict_scorer }
    }
}

/// Words kept in the dictionary are dictionary words, hence non-empty.
proof fn lemma_kept_nonempty(m: Model)
    requires
        all_nonempty(m.dict_words()),
    ensures
        all_nonempty(
            kept_words(
                m.dict_words(),
                m.char_pats(),
                m.char_window_size as int,
                m.dict_words().len(),
            ),
        ),
{
    lemma_kept_words_from(m.dict_words(), m.char_pats(), m.char_window_size as int, m.dict_words().len());
}

proof fn lemma_kept_words_from(ds: Seq<Seq<char>>, cp: Seq<Seq<char>>, wc: int, n: nat)
    requires
        all_nonempty(ds),
        n <= ds.len(),
    ensures
        all_nonempty(kept_words(ds, cp, wc, n)),
    decreases n,
{
    if n > 0 {
        lemma_kept_words_from(ds, cp, wc, (n - 1) as nat);
    }
}

} // verus!
