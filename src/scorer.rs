//! Channel scorers: each adds one feature channel's weights into a buffer of
//! boundary scores.
//!
//! Boundary `b` lies between symbols `b` and `b + 1`. A pattern that ends at
//! position `e` (exclusive) under window `w` puts slot `j` of its vector on
//! boundary `e - w - 1 + j`. A dictionary word `t[s..e]` puts `right` on
//! boundary `s - 1`, `inner` on `s..e - 1` and `left` on `e - 1`.
use crate::arith::{add_score, weight_at, wrap_i32};
use crate::merge::{all_nonempty, lengths_at_most, slot_term};
use crate::model::DictWeight;
use crate::index::VocabIndex;
use crate::vocab::{ending_at, lemma_lookup, lookup, seqs_of, Symbol};
use vstd::prelude::*;

verus! {

/// Slot of a vector, for a pattern ending at `e` under window `w`, that
/// falls on boundary `b`.
pub open spec fn slot_of(e: int, w: int, b: int) -> int {
    b - e + w + 1
}

/// Adds `w` on the boundaries that a pattern ending at `e` covers, within the
/// buffer `ys` that holds boundaries `start..start + ys.len()`.
pub(crate) fn add_window(
    ys: &mut Vec<i32>,
    w: &Vec<i32>,
    e: usize,
    window: usize,
    start: usize,
    Ghost(totals): Ghost<Seq<int>>,
)
    requires
        old(ys).len() == totals.len(),
        forall|i: int| 0 <= i < totals.len() ==> old(ys)@[i] == wrap_i32(#[trigger] totals[i]),
    ensures
        final(ys).len() == old(ys).len(),
        forall|i: int|
            0 <= i < totals.len() ==> final(ys)@[i] == wrap_i32(
                #[trigger] totals[i] + weight_at(w@, slot_of(e as int, window as int, start + i)),
            ),
{
    let ghost d = e - window - 1 - start;
    let first: Option<(usize, usize)> = if e > window && e - window - 1 >= start {
        Some((e - window - 1 - start, 0))
    } else if e > window {
        Some((0, start - (e - window - 1)))
    } else {
        match (window - e).checked_add(1) {
            Some(x) => match x.checked_add(start) {
                Some(y) => Some((0, y)),
                None => None,
            },
            None => None,
        }
    };
    if first.is_none() {
        assert(-d > usize::MAX);
        assert(w@.len() == w.len());
        assert forall|t: int| 0 <= t < totals.len() implies ys@[t] == wrap_i32(
            #[trigger] totals[t] + weight_at(w@, slot_of(e as int, window as int, start + t)),
        ) by {
            assert(slot_of(e as int, window as int, start + t) == t - d);
            assert(weight_at(w@, slot_of(e as int, window as int, start + t)) == 0);
        }
        return ;
    }
    let (i, j) = first.unwrap();
    assert forall|t: int| 0 <= t < i && t < totals.len() implies ys@[t] == wrap_i32(
        #[trigger] totals[t] + weight_at(w@, slot_of(e as int, window as int, start + t)),
    ) by {
        assert(slot_of(e as int, window as int, start + t) == t - d);
    }
    let n: usize = if i >= ys.len() || j >= w.len() {
        0
    } else if ys.len() - i < w.len() - j {
        ys.len() - i
    } else {
        w.len() - j
    };
    let mut k: usize = 0;
    while k < n
        invariant
            ys.len() == totals.len(),
            d == e - window - 1 - start,
            i - j == d,
            k <= n,
            n > 0 ==> i + n <= ys.len() && j + n <= w.len(),
            forall|t: int|
                0 <= t < i + k && t < totals.len() ==> ys@[t] == wrap_i32(
                    #[trigger] totals[t] + weight_at(w@, slot_of(e as int, window as int, start + t)),
                ),
            forall|t: int| i + k <= t < totals.len() ==> ys@[t] == wrap_i32(#[trigger] totals[t]),
        decreases n - k,
    {
        let a = i + k;
        let b = j + k;
        let nv = add_score(ys[a], w[b], Ghost(totals[a as int]));
        ys.set(a, nv);
        assert(slot_of(e as int, window as int, start + i + k) == j + k);
        k = k + 1;
    }
    assert(n == 0 ==> i >= ys.len() || j >= w.len());
    assert(n > 0 ==> i + n == ys.len() || j + n == w.len());
    assert forall|t: int| 0 <= t < totals.len() implies ys@[t] == wrap_i32(
        #[trigger] totals[t] + weight_at(w@, slot_of(e as int, window as int, start + t)),
    ) by {
        if t >= i + n {
            assert(w@.len() == w.len());
            assert(slot_of(e as int, window as int, start + t) == t - d);
            assert(weight_at(w@, slot_of(e as int, window as int, start + t)) == 0);
        }
    }
}


/// Length of the longest pattern among lengths `1..=l` that ends at `e`, or 0.
pub open spec fn longest_from<S>(pats: Seq<Seq<S>>, t: Seq<S>, e: int, l: int) -> int
    decreases l,
{
    if l <= 0 {
        0
    } else if lookup(pats, ending_at(t, e, l)) >= 0 {
        l
    } else {
        longest_from(pats, t, e, l - 1)
    }
}

/// Length of the longest pattern of the vocabulary that ends at `e`, or 0.
pub open spec fn longest_at<S>(pats: Seq<Seq<S>>, t: Seq<S>, e: int) -> int {
    longest_from(pats, t, e, e)
}

/// What the longest pattern ending at `e` puts on boundary `b`.
pub open spec fn end_weight<S>(
    pats: Seq<Seq<S>>,
    ws: Seq<Seq<i32>>,
    window: int,
    t: Seq<S>,
    e: int,
    b: int,
) -> int {
    let l = longest_at(pats, t, e);
    if l > 0 {
        weight_at(ws[lookup(pats, ending_at(t, e, l))], slot_of(e, window, b))
    } else {
        0
    }
}

/// Sum of `end_weight` over the end positions `1..=n`.
pub open spec fn channel_sum<S>(
    pats: Seq<Seq<S>>,
    ws: Seq<Seq<i32>>,
    window: int,
    t: Seq<S>,
    b: int,
    n: nat,
) -> int
    decreases n,
{
    if n == 0 {
        0
    } else {
        channel_sum(pats, ws, window, t, b, (n - 1) as nat) + end_weight(
            pats,
            ws,
            window,
            t,
            n as int,
            b,
        )
    }
}

/// End positions too far left of boundary `b` put nothing on it.
proof fn lemma_channel_before<S>(
    pats: Seq<Seq<S>>,
    ws: Seq<Seq<i32>>,
    window: int,
    t: Seq<S>,
    b: int,
    n: nat,
)
    requires
        ws.len() == pats.len(),
        lengths_at_most(ws, 2 * window + 1),
        n + window <= b || n == 0,
    ensures
        channel_sum(pats, ws, window, t, b, n) == 0,
    decreases n,
{
    if n > 0 {
        lemma_channel_before(pats, ws, window, t, b, (n - 1) as nat);
        lemma_longest_from(pats, t, n as int, n as int);
        lemma_lookup(pats, ending_at(t, n as int, longest_at(pats, t, n as int)));
    }
}

/// End positions too far right of boundary `b` put nothing on it.
proof fn lemma_channel_after<S>(
    pats: Seq<Seq<S>>,
    ws: Seq<Seq<i32>>,
    window: int,
    t: Seq<S>,
    b: int,
    n: nat,
    m: nat,
)
    requires
        n <= m,
        n == m || b + window + 1 <= n,
    ensures
        channel_sum(pats, ws, window, t, b, m) == channel_sum(pats, ws, window, t, b, n),
    decreases m,
{
    if m > n {
        lemma_channel_after(pats, ws, window, t, b, n, (m - 1) as nat);
    }
}

/// `cap` is the length of the longest pattern (0 for no pattern).
pub open spec fn is_longest_len<S>(pats: Seq<Seq<S>>, cap: int) -> bool {
    &&& lengths_within(pats, cap)
    &&& pats.len() == 0 ==> cap == 0
    &&& pats.len() > 0 ==> exists|k: int| 0 <= k < pats.len() && (#[trigger] pats[k]).len() == cap
}

/// Every pattern has between 1 and `cap` symbols.
pub open spec fn lengths_within<S>(pats: Seq<Seq<S>>, cap: int) -> bool {
    forall|k: int| 0 <= k < pats.len() ==> 0 < (#[trigger] pats[k]).len() <= cap
}

/// Lengths past the longest pattern never match.
pub proof fn lemma_longest_cap<S>(pats: Seq<Seq<S>>, t: Seq<S>, e: int, l: int, cap: int)
    requires
        lengths_within(pats, cap),
        0 <= cap <= l <= e <= t.len(),
    ensures
        longest_from(pats, t, e, l) == longest_from(pats, t, e, cap),
    decreases l,
{
    if l > cap {
        lemma_lookup(pats, ending_at(t, e, l));
        assert forall|k: int| 0 <= k < pats.len() implies pats[k] != ending_at(t, e, l) by {
            assert(pats[k].len() <= cap);
        }
        lemma_longest_cap(pats, t, e, l - 1, cap);
    }
}

pub proof fn lemma_longest_from<S>(pats: Seq<Seq<S>>, t: Seq<S>, e: int, l: int)
    ensures
        0 <= longest_from(pats, t, e, l) <= if l > 0 { l } else { 0 },
        longest_from(pats, t, e, l) > 0 ==> lookup(pats, ending_at(t, e, longest_from(pats, t, e, l))) >= 0,
    decreases l,
{
    if l > 0 {
        lemma_longest_from(pats, t, e, l - 1);
    }
}

/// The longest of a vocabulary's patterns ending at a position, scored with
/// the vocabulary's (merged) weight vectors under a window.
pub struct NgramScorer<S> {
    pub pats: Vec<Vec<S>>,
    pub weights: Vec<Vec<i32>>,
    pub window: usize,
    pub max_len: usize,
    pub index: VocabIndex,
}

impl<S: Symbol> NgramScorer<S> {
    pub open spec fn pats_view(&self) -> Seq<Seq<S>> {
        seqs_of(self.pats@)
    }

    pub open spec fn weights_view(&self) -> Seq<Seq<i32>> {
        seqs_of(self.weights@)
    }

    pub open spec fn wf(&self) -> bool {
        &&& self.weights.len() == self.pats.len()
        &&& lengths_within(self.pats_view(), self.max_len as int)
        &&& lengths_at_most(self.weights_view(), 2 * self.window + 1)
        &&& self.index.indexes(self.pats_view())
    }

    /// What this channel adds on boundary `b` of text `t`.
    pub open spec fn total(&self, t: Seq<S>, b: int) -> int {
        channel_sum(self.pats_view(), self.weights_view(), self.window as int, t, b, t.len())
    }

    pub fn new(pats: Vec<Vec<S>>, weights: Vec<Vec<i32>>, window: usize) -> (r: Self)
        requires
            weights.len() == pats.len(),
            all_nonempty(seqs_of(pats@)),
            lengths_at_most(seqs_of(weights@), 2 * window + 1),
        ensures
            r.wf(),
            is_longest_len(r.pats_view(), r.max_len as int),
            r.pats == pats,
            r.weights == weights,
            r.window == window,
    {
        let mut max_len: usize = 0;
        let mut k: usize = 0;
        while k < pats.len()
            invariant
                k <= pats.len(),
                all_nonempty(seqs_of(pats@)),
                forall|m: int| 0 <= m < k ==> (#[trigger] pats@[m]).len() <= max_len,
                k == 0 ==> max_len == 0,
                k > 0 ==> exists|m: int| 0 <= m < k && (#[trigger] pats@[m]).len() == max_len,
            decreases pats.len() - k,
        {
            assert(seqs_of(pats@)[k as int].len() > 0);
            if pats[k].len() > max_len {
                max_len = pats[k].len();
            }
            k = k + 1;
        }
        assert(is_longest_len(seqs_of(pats@), max_len as int)) by {
            if pats.len() > 0 {
                let m = choose|m: int| 0 <= m < pats.len() && (#[trigger] pats@[m]).len() == max_len;
                assert(seqs_of(pats@)[m].len() == max_len);
            }
        }
        let index = VocabIndex::build(&pats);
        NgramScorer { pats, weights, window, max_len, index }
    }

    /// The longest pattern that ends at `e`: its length and its entry.
    fn longest(&self, t: &Vec<S>, e: usize) -> (r: Option<(usize, usize)>)
        requires
            self.wf(),
            e <= t.len(),
        ensures
            match r {
                Some((l, k)) => {
                    &&& l == longest_at(self.pats_view(), t@, e as int)
                    &&& l > 0
                    &&& k == lookup(self.pats_view(), ending_at(t@, e as int, l as int))
                },
                None => longest_at(self.pats_view(), t@, e as int) == 0,
            },
    {
        let mut l: usize = if e < self.max_len {
            e
        } else {
            self.max_len
        };
        proof {
            if l < e {
                lemma_longest_cap(self.pats_view(), t@, e as int, e as int, l as int);
            }
        }
        while l > 0
            invariant
                self.wf(),
                l <= e <= t.len(),
                longest_at(self.pats_view(), t@, e as int) == longest_from(
                    self.pats_view(),
                    t@,
                    e as int,
                    l as int,
                ),
            decreases l,
        {
            if let Some(k) = self.index.find(&self.pats, t, e - l, e) {
                return Some((l, k));
            }
            l = l - 1;
        }
        None
    }

    /// Adds this channel's weights into `ys`, which holds boundaries
    /// `start..start + ys.len()` of text `t`.
    pub(crate) fn add_scores(&self, t: &Vec<S>, start: usize, ys: &mut Vec<i32>, Ghost(totals): Ghost<Seq<int>>)
        requires
            self.wf(),
            start + old(ys).len() <= t.len(),
            old(ys).len() == totals.len(),
            forall|i: int| 0 <= i < totals.len() ==> old(ys)@[i] == wrap_i32(#[trigger] totals[i]),
        ensures
            final(ys).len() == old(ys).len(),
            forall|i: int|
                0 <= i < totals.len() ==> final(ys)@[i] == wrap_i32(
                    #[trigger] totals[i] + self.total(t@, start + i),
                ),
    {
        let ghost pv = self.pats_view();
        let ghost wv = self.weights_view();
        let ghost wn = self.window as int;
        // Only patterns ending within a window of the range reach it.
        let last = start + ys.len();
        let hi: usize = if t.len() - last <= self.window {
            t.len()
        } else {
            last + self.window
        };
        let mut e: usize = if start > self.window {
            start - self.window
        } else {
            0
        };
        assert forall|i: int| 0 <= i < totals.len() implies ys@[i] == wrap_i32(
            #[trigger] totals[i] + channel_sum(pv, wv, wn, t@, start + i, e as nat),
        ) by {
            lemma_channel_before(pv, wv, wn, t@, start + i, e as nat);
        }
        while e < hi
            invariant
                self.wf(),
                e <= hi <= t.len(),
                hi == t.len() || hi == start + totals.len() + wn,
                pv == self.pats_view(),
                wv == self.weights_view(),
                wn == self.window as int,
                ys.len() == totals.len(),
                forall|i: int|
                    0 <= i < totals.len() ==> ys@[i] == wrap_i32(
                        #[trigger] totals[i] + channel_sum(pv, wv, wn, t@, start + i, e as nat),
                    ),
            decreases t.len() - e,
        {
            let end = e + 1;
            let hit = self.longest(t, end);
            let ghost cur = Seq::new(
                totals.len(),
                |i: int| totals[i] + channel_sum(pv, wv, wn, t@, start + i, e as nat),
            );
            match hit {
                Some((_, k)) => {
                    proof {
                        lemma_longest_from(pv, t@, end as int, end as int);
                        lemma_lookup(pv, ending_at(t@, end as int, longest_at(pv, t@, end as int)));
                    }
                    add_window(ys, &self.weights[k], end, self.window, start, Ghost(cur));
                },
                None => {},
            }
            assert forall|i: int| 0 <= i < totals.len() implies ys@[i] == wrap_i32(
                #[trigger] totals[i] + channel_sum(pv, wv, wn, t@, start + i, end as nat),
            ) by {
                assert(channel_sum(pv, wv, wn, t@, start + i, end as nat) == channel_sum(
                    pv,
                    wv,
                    wn,
                    t@,
                    start + i,
                    e as nat,
                ) + end_weight(pv, wv, wn, t@, end as int, start + i));
                assert(cur[i] == totals[i] + channel_sum(pv, wv, wn, t@, start + i, e as nat));
            }
            e = end;
        }
        assert forall|i: int| 0 <= i < totals.len() implies ys@[i] == wrap_i32(
            #[trigger] totals[i] + self.total(t@, start + i),
        ) by {
            lemma_channel_after(pv, wv, wn, t@, start + i, hi as nat, t@.len());
        }
    }
}


/// Bucket of a word of length `l` when `window` length classes are in use.
pub open spec fn dict_bucket(l: int, window: int) -> int {
    (if l < window {
        l
    } else {
        window
    }) - 1
}

/// The weights a dictionary hit on entry `k`, of length `l`, carries; none
/// where the table has no such entry.
pub open spec fn hit_weight(
    dws: Seq<DictWeight>,
    word_wise: bool,
    window: int,
    k: int,
    l: int,
) -> Option<DictWeight> {
    let i = if word_wise {
        k
    } else {
        dict_bucket(l, window)
    };
    if 0 <= i < dws.len() {
        Some(dws[i])
    } else {
        None
    }
}

/// What the word `t[e - l..e]`, if in the dictionary, puts on boundary `b`.
pub open spec fn word_weight(
    dict: Seq<Seq<char>>,
    dws: Seq<DictWeight>,
    word_wise: bool,
    window: int,
    t: Seq<char>,
    e: int,
    l: int,
    b: int,
) -> int {
    let k = lookup(dict, ending_at(t, e, l));
    if k >= 0 {
        match hit_weight(dws, word_wise, window, k, l) {
            Some(dw) => slot_term(dw, e - l - 1, e - 1, b),
            None => 0,
        }
    } else {
        0
    }
}

/// Sum of `word_weight` over the lengths `1..=n` at end position `e`.
pub open spec fn words_ending_sum(
    dict: Seq<Seq<char>>,
    dws: Seq<DictWeight>,
    word_wise: bool,
    window: int,
    t: Seq<char>,
    e: int,
    b: int,
    n: nat,
) -> int
    decreases n,
{
    if n == 0 {
        0
    } else {
        words_ending_sum(dict, dws, word_wise, window, t, e, b, (n - 1) as nat) + word_weight(
            dict,
            dws,
            word_wise,
            window,
            t,
            e,
            n as int,
            b,
        )
    }
}

/// Sum over the end positions `1..=n` of every dictionary word ending there.
pub open spec fn dict_sum(
    dict: Seq<Seq<char>>,
    dws: Seq<DictWeight>,
    word_wise: bool,
    window: int,
    t: Seq<char>,
    b: int,
    n: nat,
) -> int
    decreases n,
{
    if n == 0 {
        0
    } else {
        dict_sum(dict, dws, word_wise, window, t, b, (n - 1) as nat) + words_ending_sum(
            dict,
            dws,
            word_wise,
            window,
            t,
            n as int,
            b,
            n,
        )
    }
}

/// Lengths past the longest word add nothing.
pub proof fn lemma_words_cap(
    dict: Seq<Seq<char>>,
    dws: Seq<DictWeight>,
    word_wise: bool,
    window: int,
    t: Seq<char>,
    e: int,
    b: int,
    n: nat,
    cap: nat,
)
    requires
        lengths_within(dict, cap as int),
        cap <= n <= e <= t.len(),
    ensures
        words_ending_sum(dict, dws, word_wise, window, t, e, b, n) == words_ending_sum(
            dict,
            dws,
            word_wise,
            window,
            t,
            e,
            b,
            cap,
        ),
    decreases n,
{
    if n > cap {
        lemma_lookup(dict, ending_at(t, e, n as int));
        assert forall|k: int| 0 <= k < dict.len() implies dict[k] != ending_at(t, e, n as int) by {
            assert(dict[k].len() <= cap);
        }
        lemma_words_cap(dict, dws, word_wise, window, t, e, b, (n - 1) as nat, cap);
    }
}

/// Words ending at `e` put nothing on a boundary at or right of `e`, nor on
/// one left of where the longest word ending at `e` would start.
proof fn lemma_words_far(
    dict: Seq<Seq<char>>,
    dws: Seq<DictWeight>,
    word_wise: bool,
    window: int,
    t: Seq<char>,
    e: int,
    b: int,
    n: nat,
    cap: int,
)
    requires
        lengths_within(dict, cap),
        n <= e <= t.len(),
        b >= e || b + cap + 1 < e,
    ensures
        words_ending_sum(dict, dws, word_wise, window, t, e, b, n) == 0,
    decreases n,
{
    if n > 0 {
        lemma_words_far(dict, dws, word_wise, window, t, e, b, (n - 1) as nat, cap);
        lemma_lookup(dict, ending_at(t, e, n as int));
        if n > cap {
            assert forall|k: int| 0 <= k < dict.len() implies dict[k] != ending_at(t, e, n as int) by {
                assert(dict[k].len() <= cap);
            }
        }
    }
}

/// End positions at or left of boundary `b` put nothing on it.
proof fn lemma_dict_before(
    dict: Seq<Seq<char>>,
    dws: Seq<DictWeight>,
    word_wise: bool,
    window: int,
    t: Seq<char>,
    b: int,
    n: nat,
    cap: int,
)
    requires
        lengths_within(dict, cap),
        n <= b,
        n <= t.len(),
    ensures
        dict_sum(dict, dws, word_wise, window, t, b, n) == 0,
    decreases n,
{
    if n > 0 {
        lemma_dict_before(dict, dws, word_wise, window, t, b, (n - 1) as nat, cap);
        lemma_words_far(dict, dws, word_wise, window, t, n as int, b, n, cap);
    }
}

/// End positions more than a word's length right of boundary `b` put
/// nothing on it.
proof fn lemma_dict_after(
    dict: Seq<Seq<char>>,
    dws: Seq<DictWeight>,
    word_wise: bool,
    window: int,
    t: Seq<char>,
    b: int,
    n: nat,
    m: nat,
    cap: int,
)
    requires
        lengths_within(dict, cap),
        n <= m <= t.len(),
        n == m || b + cap + 1 <= n,
    ensures
        dict_sum(dict, dws, word_wise, window, t, b, m) == dict_sum(dict, dws, word_wise, window, t, b, n),
    decreases m,
{
    if m > n {
        lemma_dict_after(dict, dws, word_wise, window, t, b, n, (m - 1) as nat, cap);
        lemma_words_far(dict, dws, word_wise, window, t, m as int, b, m, cap);
    }
}

/// Adds `dw` for the word `t[s..e]` into `ys`, which holds boundaries
/// `start..start + ys.len()`.
pub(crate) fn add_span(
    ys: &mut Vec<i32>,
    dw: DictWeight,
    s: usize,
    e: usize,
    start: usize,
    Ghost(totals): Ghost<Seq<int>>,
)
    requires
        s < e,
        start + old(ys).len() <= usize::MAX,
        old(ys).len() == totals.len(),
        forall|i: int| 0 <= i < totals.len() ==> old(ys)@[i] == wrap_i32(#[trigger] totals[i]),
    ensures
        final(ys).len() == old(ys).len(),
        forall|i: int|
            0 <= i < totals.len() ==> final(ys)@[i] == wrap_i32(
                #[trigger] totals[i] + slot_term(dw, s - 1, e - 1, start + i),
            ),
{
    let lo: usize = if s > start {
        s - 1 - start
    } else {
        0
    };
    let hi: usize = if e <= start {
        0
    } else if e - start < ys.len() {
        e - start
    } else {
        ys.len()
    };
    let mut i: usize = lo;
    assert forall|t: int| 0 <= t < lo && t < totals.len() implies ys@[t] == wrap_i32(
        #[trigger] totals[t] + slot_term(dw, s - 1, e - 1, start + t),
    ) by {}
    while i < hi
        invariant
            lo <= i,
            s > start ==> lo == s - 1 - start,
            s < e,
            hi <= ys.len(),
            hi > 0 ==> start + hi <= e,
            ys.len() == totals.len(),
            start + ys.len() <= usize::MAX,
            forall|t: int|
                0 <= t < i && t < totals.len() ==> ys@[t] == wrap_i32(
                    #[trigger] totals[t] + slot_term(dw, s - 1, e - 1, start + t),
                ),
            forall|t: int| i <= t < totals.len() ==> ys@[t] == wrap_i32(#[trigger] totals[t]),
        decreases hi - i,
    {
        let b = start + i;
        let w = if b + 1 == s {
            dw.right
        } else if b + 1 < e {
            dw.inner
        } else {
            dw.left
        };
        assert(w as int == slot_term(dw, s - 1, e - 1, start + i));
        let nv = add_score(ys[i], w, Ghost(totals[i as int]));
        ys.set(i, nv);
        i = i + 1;
    }
    assert forall|t: int| 0 <= t < totals.len() implies ys@[t] == wrap_i32(
        #[trigger] totals[t] + slot_term(dw, s - 1, e - 1, start + t),
    ) by {
        if t >= i {
            assert(slot_term(dw, s - 1, e - 1, start + t) == 0);
        }
    }
}

/// Every dictionary word that ends at each position, scored with the
/// dictionary's weights.
pub struct DictScorer {
    pub words: Vec<Vec<char>>,
    pub weights: Vec<DictWeight>,
    pub word_wise: bool,
    /// Number of length classes in use when weights are by length.
    pub window: usize,
    pub max_len: usize,
    pub index: VocabIndex,
}

impl DictScorer {
    pub open spec fn words_view(&self) -> Seq<Seq<char>> {
        seqs_of(self.words@)
    }

    pub open spec fn wf(&self) -> bool {
        &&& lengths_within(self.words_view(), self.max_len as int)
        &&& self.index.indexes(self.words_view())
    }

    /// What the dictionary adds on boundary `b` of text `t`.
    pub open spec fn total(&self, t: Seq<char>, b: int) -> int {
        dict_sum(self.words_view(), self.weights@, self.word_wise, self.window as int, t, b, t.len())
    }

    pub fn new(words: Vec<Vec<char>>, weights: Vec<DictWeight>, word_wise: bool) -> (r: Self)
        requires
            all_nonempty(seqs_of(words@)),
        ensures
            r.wf(),
            is_longest_len(r.words_view(), r.max_len as int),
            r.words == words,
            r.weights == weights,
            r.word_wise == word_wise,
            r.window == weights.len(),
    {
        let mut max_len: usize = 0;
        let mut k: usize = 0;
        while k < words.len()
            invariant
                k <= words.len(),
                all_nonempty(seqs_of(words@)),
                forall|m: int| 0 <= m < k ==> (#[trigger] words@[m]).len() <= max_len,
                k == 0 ==> max_len == 0,
                k > 0 ==> exists|m: int| 0 <= m < k && (#[trigger] words@[m]).len() == max_len,
            decreases words.len() - k,
        {
            assert(seqs_of(words@)[k as int].len() > 0);
            if words[k].len() > max_len {
                max_len = words[k].len();
            }
            k = k + 1;
        }
        assert(is_longest_len(seqs_of(words@), max_len as int)) by {
            if words.len() > 0 {
                let m = choose|m: int| 0 <= m < words.len() && (#[trigger] words@[m]).len() == max_len;
                assert(seqs_of(words@)[m].len() == max_len);
            }
        }
        let window = weights.len();
        let index = VocabIndex::build(&words);
        DictScorer { words, weights, word_wise, window, max_len, index }
    }

    /// Adds the dictionary's weights into `ys`, which holds boundaries
    /// `start..start + ys.len()` of text `t`.
    pub(crate) fn add_scores(
        &self,
        t: &Vec<char>,
        start: usize,
        ys: &mut Vec<i32>,
        Ghost(totals): Ghost<Seq<int>>,
    )
        requires
            self.wf(),
            start + old(ys).len() <= t.len(),
            old(ys).len() == totals.len(),
            forall|i: int| 0 <= i < totals.len() ==> old(ys)@[i] == wrap_i32(#[trigger] totals[i]),
        ensures
            final(ys).len() == old(ys).len(),
            forall|i: int|
                0 <= i < totals.len() ==> final(ys)@[i] == wrap_i32(
                    #[trigger] totals[i] + self.total(t@, start + i),
                ),
    {
        let ghost dv = self.words_view();
        let ghost dws = self.weights@;
        let ghost ww = self.word_wise;
        let ghost wn = self.window as int;
        // Only words ending at most one word's length past the range reach it.
        let last = start + ys.len();
        let hi: usize = if t.len() - last <= self.max_len {
            t.len()
        } else {
            last + self.max_len
        };
        let mut e: usize = start;
        assert forall|i: int| 0 <= i < totals.len() implies ys@[i] == wrap_i32(
            #[trigger] totals[i] + dict_sum(dv, dws, ww, wn, t@, start + i, e as nat),
        ) by {
            lemma_dict_before(dv, dws, ww, wn, t@, start + i, e as nat, self.max_len as int);
        }
        while e < hi
            invariant
                self.wf(),
                start <= e <= hi <= t.len(),
                hi == t.len() || hi == start + totals.len() + self.max_len,
                start + ys.len() <= t.len(),
                dv == self.words_view(),
                dws == self.weights@,
                ww == self.word_wise,
                wn == self.window as int,
                ys.len() == totals.len(),
                forall|i: int|
                    0 <= i < totals.len() ==> ys@[i] == wrap_i32(
                        #[trigger] totals[i] + dict_sum(dv, dws, ww, wn, t@, start + i, e as nat),
                    ),
            decreases t.len() - e,
        {
            let end = e + 1;
            let cap: usize = if end < self.max_len {
                end
            } else {
                self.max_len
            };
            let ghost base = Seq::new(
                totals.len(),
                |i: int| totals[i] + dict_sum(dv, dws, ww, wn, t@, start + i, e as nat),
            );
            let mut l: usize = 0;
            while l < cap
                invariant
                    self.wf(),
                    l <= cap <= end <= t.len(),
                    start + ys.len() <= t.len(),
                    dv == self.words_view(),
                    dws == self.weights@,
                    ww == self.word_wise,
                    wn == self.window as int,
                    ys.len() == totals.len(),
                    base.len() == totals.len(),
                    forall|i: int|
                        0 <= i < totals.len() ==> ys@[i] == wrap_i32(
                            #[trigger] base[i] + words_ending_sum(
                                dv,
                                dws,
                                ww,
                                wn,
                                t@,
                                end as int,
                                start + i,
                                l as nat,
                            ),
                        ),
                decreases cap - l,
            {
                let len = l + 1;
                let ghost cur = Seq::new(
                    totals.len(),
                    |i: int|
                        base[i] + words_ending_sum(
                            dv,
                            dws,
                            ww,
                            wn,
                            t@,
                            end as int,
                            start + i,
                            l as nat,
                        ),
                );
                let hit = self.index.find(&self.words, t, end - len, end);
                if let Some(k) = hit {
                    let i = if self.word_wise {
                        k
                    } else if len < self.window {
                        len - 1
                    } else if self.window > 0 {
                        self.window - 1
                    } else {
                        self.weights.len()
                    };
                    if i < self.weights.len() {
                        let dw = self.weights[i];
                        assert(hit_weight(dws, ww, wn, k as int, len as int) == Some(dw));
                        add_span(ys, dw, end - len, end, start, Ghost(cur));
                    } else {
                        assert(hit_weight(dws, ww, wn, k as int, len as int) is None);
                    }
                }
                assert forall|i: int| 0 <= i < totals.len() implies ys@[i] == wrap_i32(
                    #[trigger] base[i] + words_ending_sum(
                        dv,
                        dws,
                        ww,
                        wn,
                        t@,
                        end as int,
                        start + i,
                        len as nat,
                    ),
                ) by {
                    assert(cur[i] == base[i] + words_ending_sum(
                        dv,
                        dws,
                        ww,
                        wn,
                        t@,
                        end as int,
                        start + i,
                        l as nat,
                    ));
                }
                l = len;
            }
            assert forall|i: int| 0 <= i < totals.len() implies ys@[i] == wrap_i32(
                #[trigger] totals[i] + dict_sum(dv, dws, ww, wn, t@, start + i, end as nat),
            ) by {
                if cap < end {
                    lemma_words_cap(dv, dws, ww, wn, t@, end as int, start + i, end as nat, cap as nat);
                }
                assert(base[i] == totals[i] + dict_sum(dv, dws, ww, wn, t@, start + i, e as nat));
            }
            e = end;
        }
        assert forall|i: int| 0 <= i < totals.len() implies ys@[i] == wrap_i32(
            #[trigger] totals[i] + self.total(t@, start + i),
        ) by {
            lemma_dict_after(dv, dws, ww, wn, t@, start + i, hi as nat, t@.len(), self.max_len as int);
        }
    }
}

} // verus!
