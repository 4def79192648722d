//! A trained model, as it is handed to the predictor.
use crate::merge::all_nonempty;
use crate::vocab::seqs_of;
use vstd::prelude::*;

verus! {

/// Weights that a dictionary word puts on the boundaries it touches.
#[derive(Clone, Copy, Debug, PartialEq, Eq, Structural)]
pub struct DictWeight {
    /// Weight on the boundary just before the word.
    pub right: i32,
    /// Weight on each boundary inside the word.
    pub inner: i32,
    /// Weight on the boundary just after the word.
    pub left: i32,
}

/// Feature tables and hyperparameters of a trained model.
pub struct Model {
    pub char_ngrams: Vec<String>,
    pub type_ngrams: Vec<Vec<u8>>,
    pub dict: Vec<String>,
    pub char_ngram_weights: Vec<Vec<i32>>,
    pub type_ngram_weights: Vec<Vec<i32>>,
    /// One triple per dictionary word when `dict_word_wise`, else one per
    /// word length (the last one for all longer words).
    pub dict_weights: Vec<DictWeight>,
    pub dict_word_wise: bool,
    pub bias: i32,
    pub char_window_size: usize,
    pub type_window_size: usize,
}

/// The contents of each string.
pub open spec fn strs_of(ss: Seq<String>) -> Seq<Seq<char>> {
    ss.map_values(|s: String| s@)
}

/// Each vector has `2 * window - pattern length + 1` slots.
pub open spec fn table_shape<S>(pats: Seq<Seq<S>>, ws: Seq<Seq<i32>>, window: int) -> bool {
    &&& ws.len() == pats.len()
    &&& forall|k: int| 0 <= k < pats.len() ==> #[trigger] ws[k].len() + pats[k].len() == 2 * window + 1
}

/// Dictionary weights fit the weighting mode.
pub open spec fn dict_shape(dict_len: nat, dws_len: nat, word_wise: bool) -> bool {
    &&& word_wise ==> dws_len == dict_len
    &&& !word_wise && dict_len > 0 ==> dws_len > 0
}

impl Model {
    pub open spec fn char_pats(&self) -> Seq<Seq<char>> {
        strs_of(self.char_ngrams@)
    }

    pub open spec fn type_pats(&self) -> Seq<Seq<u8>> {
        seqs_of(self.type_ngrams@)
    }

    pub open spec fn dict_words(&self) -> Seq<Seq<char>> {
        strs_of(self.dict@)
    }

    /// A model the predictor can be built from: non-empty patterns, vectors
    /// of the length their window asks for, and dictionary weights that fit.
    pub open spec fn wf(&self) -> bool {
        &&& all_nonempty(self.char_pats())
        &&& all_nonempty(self.type_pats())
        &&& all_nonempty(self.dict_words())
        &&& table_shape(self.char_pats(), seqs_of(self.char_ngram_weights@), self.char_window_size as int)
        &&& table_shape(self.type_pats(), seqs_of(self.type_ngram_weights@), self.type_window_size as int)
        &&& dict_shape(self.dict@.len(), self.dict_weights@.len(), self.dict_word_wise)
    }
}

} // verus!
