//! A classified sentence: its characters, their type classes, and one
//! boundary slot (with an optional score) between each adjacent pair.
use crate::text::{char_types, chars_of, types_of};
use vstd::prelude::*;

verus! {

/// State of the gap between two adjacent characters.
#[derive(Clone, Copy, Debug, PartialEq, Eq, Structural)]
pub enum BoundaryType {
    /// The gap is a word boundary.
    WordBoundary,
    /// The gap is inside a word.
    NotWordBoundary,
    /// The gap has not been decided.
    Unknown,
}

/// The decision for an accumulated score: zero and above is a boundary.
pub open spec fn decide(y: i32) -> BoundaryType {
    if y >= 0 {
        BoundaryType::WordBoundary
    } else {
        BoundaryType::NotWordBoundary
    }
}

/// Why a sentence could not be built.
#[derive(Clone, Copy, Debug, PartialEq, Eq, Structural)]
pub enum SentenceError {
    /// The input holds no character.
    Empty,
}

/// What a sentence holds.
pub struct SentenceView {
    pub chars: Seq<char>,
    pub types: Seq<u8>,
    pub boundaries: Seq<BoundaryType>,
    pub scores: Option<Seq<i32>>,
}

impl SentenceView {
    /// At least one character, one type per character, one boundary per
    /// adjacent pair, and a score per boundary where there are scores.
    pub open spec fn wf(self) -> bool {
        &&& self.chars.len() > 0
        &&& self.types.len() == self.chars.len()
        &&& self.boundaries.len() + 1 == self.chars.len()
        &&& self.scores matches Some(ys) ==> ys.len() == self.boundaries.len()
    }
}

/// The sentence `sv` after writing the decisions for scores `ys` on the
/// boundaries `start..start + ys.len()`, and those scores too where
/// `with_scores` (into a zeroed score array where there was none). An empty
/// `ys` leaves the sentence as it was.
pub open spec fn applied(sv: SentenceView, start: int, ys: Seq<i32>, with_scores: bool) -> SentenceView {
    if ys.len() == 0 {
        sv
    } else {
        applied_nonempty(sv, start, ys, with_scores)
    }
}

/// `applied` for a non-empty `ys`.
pub open spec fn applied_nonempty(
    sv: SentenceView,
    start: int,
    ys: Seq<i32>,
    with_scores: bool,
) -> SentenceView {
    let n = sv.boundaries.len();
    SentenceView {
        chars: sv.chars,
        types: sv.types,
        boundaries: Seq::new(
            n,
            |b: int|
                if start <= b < start + ys.len() {
                    decide(ys[b - start])
                } else {
                    sv.boundaries[b]
                },
        ),
        scores: if with_scores {
            Some(
                Seq::new(
                    n,
                    |b: int|
                        if start <= b < start + ys.len() {
                            ys[b - start]
                        } else {
                            match sv.scores {
                                Some(old_ys) => old_ys[b],
                                None => 0i32,
                            }
                        },
                ),
            )
        } else {
            sv.scores
        },
    }
}

/// The decision for an accumulated score.
pub fn decide_score(y: i32) -> (r: BoundaryType)
    ensures
        r == decide(y),
{
    if y >= 0 {
        BoundaryType::WordBoundary
    } else {
        BoundaryType::NotWordBoundary
    }
}

/// A sentence to segment.
pub struct Sentence {
    chars: Vec<char>,
    char_types: Vec<u8>,
    boundaries: Vec<BoundaryType>,
    boundary_scores: Option<Vec<i32>>,
}

impl View for Sentence {
    type V = SentenceView;

    closed spec fn view(&self) -> SentenceView {
        SentenceView {
            chars: self.chars@,
            types: self.char_types@,
            boundaries: self.boundaries@,
            scores: match self.boundary_scores {
                Some(v) => Some(v@),
                None => None,
            },
        }
    }
}

impl Sentence {
    /// Builds a sentence from raw text: every character classified, every
    /// boundary `Unknown`, no scores. Fails on empty text.
    pub fn from_raw(raw: &str) -> (r: Result<Sentence, SentenceError>)
        ensures
            raw@.len() == 0 <==> r is Err,
            r matches Err(e) ==> e == SentenceError::Empty,
            r matches Ok(s) ==> {
                &&& s@.chars == raw@
                &&& s@.types == types_of(raw@)
                &&& s@.boundaries == Seq::new((raw@.len() - 1) as nat, |b: int| BoundaryType::Unknown)
                &&& s@.scores is None
                &&& s@.wf()
            },
    {
        let chars = chars_of(raw);
        if chars.len() == 0 {
            return Err(SentenceError::Empty);
        }
        let char_types = char_types(&chars);
        let n = chars.len() - 1;
        let mut boundaries: Vec<BoundaryType> = Vec::new();
        let mut i: usize = 0;
        while i < n
            invariant
                i <= n,
                boundaries@ == Seq::new(i as nat, |b: int| BoundaryType::Unknown),
            decreases n - i,
        {
            boundaries.push(BoundaryType::Unknown);
            i = i + 1;
            assert(boundaries@ =~= Seq::new(i as nat, |b: int| BoundaryType::Unknown));
        }
        Ok(Sentence { chars, char_types, boundaries, boundary_scores: None })
    }

    /// The characters.
    pub fn chars(&self) -> (r: &[char])
        ensures
            r@ == self@.chars,
    {
        self.chars.as_slice()
    }

    /// The type class of each character.
    pub fn char_types(&self) -> (r: &[u8])
        ensures
            r@ == self@.types,
    {
        self.char_types.as_slice()
    }

    /// The boundary slots.
    pub fn boundaries(&self) -> (r: &[BoundaryType])
        ensures
            r@ == self@.boundaries,
    {
        self.boundaries.as_slice()
    }

    /// The accumulated score of each boundary, where scores were written.
    pub fn boundary_scores(&self) -> (r: Option<&[i32]>)
        ensures
            r matches Some(ys) <==> self@.scores is Some,
            r matches Some(ys) ==> self@.scores == Some(ys@),
    {
        match &self.boundary_scores {
            Some(v) => Some(v.as_slice()),
            None => None,
        }
    }

    pub(crate) fn chars_vec(&self) -> (r: &Vec<char>)
        ensures
            r@ == self@.chars,
    {
        &self.chars
    }

    pub(crate) fn types_vec(&self) -> (r: &Vec<u8>)
        ensures
            r@ == self@.types,
    {
        &self.char_types
    }

    /// Writes the decisions for the scores `ys` of boundaries
    /// `start..start + ys.len()`, and the scores themselves where
    /// `with_scores`; every other boundary and score is left as it was.
    pub fn apply_scores(&mut self, start: usize, ys: &Vec<i32>, with_scores: bool)
        requires
            old(self)@.wf(),
            start + ys.len() <= old(self)@.boundaries.len(),
        ensures
            final(self)@ == applied(old(self)@, start as int, ys@, with_scores),
            final(self)@.wf(),
    {
        if ys.len() == 0 {
            return ;
        }
        let ghost sv = self@;
        let n = self.boundaries.len();
        let mut scores: Option<Vec<i32>> = None;
        if with_scores {
            let mut v: Vec<i32> = match self.boundary_scores.take() {
                Some(v) => v,
                None => vec![0i32; n],
            };
            let ghost v0 = v@;
            assert(v0.len() == n);
            assert forall|b: int| 0 <= b < n implies #[trigger] v0[b] == match sv.scores {
                Some(old_ys) => old_ys[b],
                None => 0i32,
            } by {}
            let mut i: usize = 0;
            while i < ys.len()
                invariant
                    sv.wf(),
                    n == sv.boundaries.len(),
                    start + ys.len() <= n,
                    i <= ys.len(),
                    v@.len() == n,
                    v0.len() == n,
                    forall|b: int| 0 <= b < n ==> #[trigger] v0[b] == match sv.scores {
                        Some(old_ys) => old_ys[b],
                        None => 0i32,
                    },
                    forall|b: int|
                        0 <= b < n ==> #[trigger] v@[b] == if start <= b < start + i {
                            ys@[b - start]
                        } else {
                            v0[b]
                        },
                decreases ys.len() - i,
            {
                v.set(start + i, ys[i]);
                i = i + 1;
            }
            scores = Some(v);
        }
        assert(with_scores ==> (scores matches Some(v) && v@ == applied(
            sv,
            start as int,
            ys@,
            with_scores,
        ).scores->0)) by {
            if with_scores {
                assert(scores->0@ =~= applied(sv, start as int, ys@, with_scores).scores->0);
            }
        }
        let mut i: usize = 0;
        while i < ys.len()
            invariant
                sv.wf(),
                n == sv.boundaries.len(),
                start + ys.len() <= n,
                i <= ys.len(),
                self.chars@ == sv.chars,
                self.char_types@ == sv.types,
                !with_scores ==> self@.scores == sv.scores,
                self.boundaries@.len() == n,
                sv.boundaries.len() == n,
                forall|b: int|
                    0 <= b < n ==> #[trigger] self.boundaries@[b] == if start <= b < start + i {
                        decide(ys@[b - start])
                    } else {
                        sv.boundaries[b]
                    },
            decreases ys.len() - i,
        {
            self.boundaries.set(start + i, decide_score(ys[i]));
            i = i + 1;
        }
        if with_scores {
            self.boundary_scores = scores;
        }
        assert(self@.boundaries =~= applied(sv, start as int, ys@, with_scores).boundaries);
    }

    /// Number of boundaries.
    pub fn boundaries_len(&self) -> (r: usize)
        ensures
            r == self@.boundaries.len(),
    {
        self.boundaries.len()
    }
}

} // verus!
