//! Load-time transforms of the weight tables.
//!
//! A single scan reports, at each end position, only the longest pattern of
//! the vocabulary that ends there. `merge_weights` gives each pattern the sum
//! of the weights of all of its suffixes that the vocabulary holds, so that
//! this one report carries every pattern that ends there.
use crate::arith::{add_into, add_score, lemma_wrap_small, weight_at, wrap_i32};
use crate::index::VocabIndex;
use crate::model::{dict_shape, table_shape, DictWeight};
use crate::vocab::{lemma_lookup, lookup, seqs_of, suffix, Symbol};
use vstd::prelude::*;

verus! {

/// Weight that the suffix of length `l` of `p` carries at index `j`
/// (zero where that suffix is not in the vocabulary or its vector is shorter).
pub open spec fn suffix_weight<S>(
    pats: Seq<Seq<S>>,
    ws: Seq<Seq<i32>>,
    p: Seq<S>,
    l: int,
    j: int,
) -> int {
    let k = lookup(pats, suffix(p, l));
    if 0 <= k && 0 <= j < ws[k].len() {
        ws[k][j] as int
    } else {
        0
    }
}

/// Sum of `suffix_weight` over the suffix lengths `1..=n`.
pub open spec fn suffix_weight_sum<S>(
    pats: Seq<Seq<S>>,
    ws: Seq<Seq<i32>>,
    p: Seq<S>,
    n: nat,
    j: int,
) -> int
    decreases n,
{
    if n == 0 {
        0
    } else {
        suffix_weight_sum(pats, ws, p, (n - 1) as nat, j) + suffix_weight(pats, ws, p, n as int, j)
    }
}

/// The smallest length `l' >= l` whose suffix of `p` is in the vocabulary
/// (`p.len() + 1` where there is none).
pub open spec fn shortest_suffix_from<S>(pats: Seq<Seq<S>>, p: Seq<S>, l: int) -> int
    decreases p.len() + 1 - l,
{
    if l > p.len() || l < 1 {
        p.len() + 1int
    } else if lookup(pats, suffix(p, l)) >= 0 {
        l
    } else {
        shortest_suffix_from(pats, p, l + 1)
    }
}

/// Length of the merged vector of `p`: that of its shortest suffix in the vocabulary.
pub open spec fn merged_len<S>(pats: Seq<Seq<S>>, ws: Seq<Seq<i32>>, p: Seq<S>) -> nat {
    ws[lookup(pats, suffix(p, shortest_suffix_from(pats, p, 1)))].len()
}

/// The merged vector of `p`.
pub open spec fn merged_vector<S>(pats: Seq<Seq<S>>, ws: Seq<Seq<i32>>, p: Seq<S>) -> Seq<i32> {
    Seq::new(
        merged_len(pats, ws, p),
        |j: int| wrap_i32(suffix_weight_sum(pats, ws, p, p.len(), j)),
    )
}

/// The merged table: one merged vector per vocabulary entry.
pub open spec fn merged_table<S>(pats: Seq<Seq<S>>, ws: Seq<Seq<i32>>) -> Seq<Seq<i32>> {
    Seq::new(pats.len(), |i: int| merged_vector(pats, ws, pats[i]))
}

/// Every entry of the vocabulary is non-empty.
pub open spec fn all_nonempty<S>(pats: Seq<Seq<S>>) -> bool {
    forall|i: int| 0 <= i < pats.len() ==> pats[i].len() > 0
}

/// No suffix shorter than the shortest one in the vocabulary is in it.
pub proof fn lemma_shortest_suffix<S>(pats: Seq<Seq<S>>, p: Seq<S>, l: int)
    requires
        1 <= l <= p.len(),
        lookup(pats, p) >= 0,
    ensures
        l <= shortest_suffix_from(pats, p, l) <= p.len(),
        lookup(pats, suffix(p, shortest_suffix_from(pats, p, l))) >= 0,
        forall|m: int|
            l <= m < shortest_suffix_from(pats, p, l) ==> lookup(pats, #[trigger] suffix(p, m)) < 0,
    decreases p.len() + 1 - l,
{
    assert(suffix(p, p.len() as int) =~= p);
    if l <= p.len() && lookup(pats, suffix(p, l)) < 0 {
        lemma_shortest_suffix(pats, p, l + 1);
    }
}

/// Every vector has at most `cap` slots.
pub open spec fn lengths_at_most(ws: Seq<Seq<i32>>, cap: int) -> bool {
    forall|k: int| 0 <= k < ws.len() ==> (#[trigger] ws[k]).len() <= cap
}

/// Merging makes no vector longer than the longest one it started from.
pub proof fn lemma_merged_lengths<S>(pats: Seq<Seq<S>>, ws: Seq<Seq<i32>>, cap: int)
    requires
        ws.len() == pats.len(),
        all_nonempty(pats),
        lengths_at_most(ws, cap),
    ensures
        lengths_at_most(merged_table(pats, ws), cap),
{
    assert forall|k: int| 0 <= k < pats.len() implies (#[trigger] merged_table(pats, ws)[k]).len() <= cap by {
        let p = pats[k];
        lemma_lookup(pats, p);
        lemma_shortest_suffix(pats, p, 1);
        lemma_lookup(pats, suffix(p, shortest_suffix_from(pats, p, 1)));
    }
}

/// Replaces each pattern's vector by the sum of the vectors of its suffixes.
///
/// The shortest suffix in the vocabulary gives the length of the result;
/// longer suffixes add into its leading slots.
pub fn merge_weights<S: Symbol>(words: &Vec<Vec<S>>, weights: &Vec<Vec<i32>>) -> (r: Vec<Vec<i32>>)
    requires
        weights.len() == words.len(),
        all_nonempty(seqs_of(words@)),
    ensures
        seqs_of(r@) == merged_table(seqs_of(words@), seqs_of(weights@)),
{
    let ghost pats = seqs_of(words@);
    let ghost ws = seqs_of(weights@);
    let index = VocabIndex::build(words);
    let mut result: Vec<Vec<i32>> = Vec::new();
    let mut i: usize = 0;
    while i < words.len()
        invariant
            i <= words.len(),
            weights.len() == words.len(),
            pats == seqs_of(words@),
            ws == seqs_of(weights@),
            index.indexes(pats),
            all_nonempty(pats),
            result.len() == i,
            forall|m: int| 0 <= m < i ==> #[trigger] result@[m]@ == merged_vector(pats, ws, pats[m]),
        decreases words.len() - i,
    {
        let v = merge_one(words, weights, &index, i);
        result.push(v);
        i = i + 1;
    }
    assert(seqs_of(result@) =~= merged_table(pats, ws));
    result
}

fn merge_one<S: Symbol>(words: &Vec<Vec<S>>, weights: &Vec<Vec<i32>>, index: &VocabIndex, i: usize) -> (r: Vec<i32>)
    requires
        weights.len() == words.len(),
        index.indexes(seqs_of(words@)),
        i < words.len(),
        all_nonempty(seqs_of(words@)),
    ensures
        r@ == merged_vector(seqs_of(words@), seqs_of(weights@), words@[i as int]@),
{
    let ghost pats = seqs_of(words@);
    let ghost ws = seqs_of(weights@);
    let p = &words[i];
    let ghost pv = p@;
    assert(pats[i as int] == pv);
    proof {
        lemma_lookup(pats, pv);
    }
    let mut found = false;
    let mut base: Vec<i32> = Vec::new();
    let mut m: usize = 0;
    while m < p.len()
        invariant
            m <= p.len(),
            pats == seqs_of(words@),
            index.indexes(pats),
            ws == seqs_of(weights@),
            pv == p@,
            weights.len() == words.len(),
            !found ==> shortest_suffix_from(pats, pv, 1) == shortest_suffix_from(pats, pv, m + 1),
            !found ==> forall|j: int| #[trigger] suffix_weight_sum(pats, ws, pv, m as nat, j) == 0,
            found ==> shortest_suffix_from(pats, pv, 1) <= m,
            m == p.len() ==> found,
            lookup(pats, pv) >= 0,
            found ==> base.len() == merged_len(pats, ws, pv),
            found ==> forall|j: int|
                0 <= j < base.len() ==> base@[j] == wrap_i32(
                    #[trigger] suffix_weight_sum(pats, ws, pv, m as nat, j),
                ),
        decreases p.len() - m,
    {
        let l = m + 1;
        let ghost sl = suffix(pv, l as int);
        assert(p@.subrange((p.len() - l) as int, p.len() as int) == sl);
        let hit = index.find(words, p, p.len() - l, p.len());
        proof {
            lemma_lookup(pats, sl);
            if l == p.len() {
                assert(sl =~= pv);
            }
            assert forall|t: int|
                #[trigger] suffix_weight_sum(pats, ws, pv, l as nat, t) == suffix_weight_sum(
                    pats,
                    ws,
                    pv,
                    m as nat,
                    t,
                ) + suffix_weight(pats, ws, pv, l as int, t) by {}
        }
        match hit {
            Some(k) => {
                if !found {
                    base = weights[k].clone();
                    found = true;
                    assert(base@ == ws[k as int]);
                    assert forall|j: int| 0 <= j < base.len() implies base@[j] == wrap_i32(
                        #[trigger] suffix_weight_sum(pats, ws, pv, l as nat, j),
                    ) by {
                        lemma_wrap_small(base@[j] as int);
                    }
                } else {
                    let ghost totals = Seq::new(
                        base.len() as nat,
                        |t: int| suffix_weight_sum(pats, ws, pv, m as nat, t),
                    );
                    add_into(&mut base, &weights[k], Ghost(totals));
                    assert forall|t: int| 0 <= t < base.len() implies base@[t] == wrap_i32(
                        #[trigger] suffix_weight_sum(pats, ws, pv, l as nat, t),
                    ) by {
                        assert(totals[t] + weight_at(ws[k as int], t) == suffix_weight_sum(
                            pats,
                            ws,
                            pv,
                            l as nat,
                            t,
                        ));
                    }
                }
            },
            None => {
                if !found {
                    assert forall|j: int|
                        #[trigger] suffix_weight_sum(pats, ws, pv, l as nat, j) == 0 by {
                        assert(suffix_weight(pats, ws, pv, l as int, j) == 0);
                    }
                } else {
                    assert forall|t: int| 0 <= t < base.len() implies base@[t] == wrap_i32(
                        #[trigger] suffix_weight_sum(pats, ws, pv, l as nat, t),
                    ) by {
                        assert(suffix_weight(pats, ws, pv, l as int, t) == 0);
                    }
                }
            },
        }
        m = l;
    }
    assert(base@ =~= merged_vector(pats, ws, pv));
    base
}

} // verus!

verus! {

/// Bucket of a word of length `l` among `buckets` length classes.
pub open spec fn bucket(l: int, buckets: int) -> int {
    (if l < buckets {
        l
    } else {
        buckets
    }) - 1
}

/// The weights that dictionary entry `i` carries.
pub open spec fn entry_weight(
    dict: Seq<Seq<char>>,
    dws: Seq<DictWeight>,
    word_wise: bool,
    i: int,
) -> DictWeight {
    if word_wise {
        dws[i]
    } else {
        dws[bucket(dict[i].len() as int, dws.len() as int)]
    }
}

/// Whether dictionary entry `i` moves into the character n-gram table: the
/// table holds the word, and the word fits the character window.
pub open spec fn folds(dict: Seq<Seq<char>>, pats: Seq<Seq<char>>, window: int, i: int) -> bool {
    lookup(pats, dict[i]) >= 0 && dict[i].len() <= window
}

/// What a dictionary weight adds at slot `t` of a vector, for a word whose
/// first touched slot is `start` and last touched slot is `end`.
pub open spec fn slot_term(dw: DictWeight, start: int, end: int, t: int) -> int {
    (if t == start {
        dw.right as int
    } else {
        0
    }) + (if start < t < end {
        dw.inner as int
    } else {
        0
    }) + (if t == end {
        dw.left as int
    } else {
        0
    })
}

/// Sum of what the first `n` dictionary entries fold into slot `j` of entry `k`.
pub open spec fn fold_sum(
    dict: Seq<Seq<char>>,
    dws: Seq<DictWeight>,
    word_wise: bool,
    pats: Seq<Seq<char>>,
    window: int,
    k: int,
    j: int,
    n: nat,
) -> int
    decreases n,
{
    if n == 0 {
        0
    } else {
        let i = n - 1;
        fold_sum(dict, dws, word_wise, pats, window, k, j, (n - 1) as nat) + if folds(
            dict,
            pats,
            window,
            i,
        ) && lookup(pats, dict[i]) == k {
            slot_term(
                entry_weight(dict, dws, word_wise, i),
                window - dict[i].len(),
                window,
                j,
            )
        } else {
            0
        }
    }
}

/// The character n-gram table after folding the dictionary into it.
pub open spec fn folded_table(
    dict: Seq<Seq<char>>,
    dws: Seq<DictWeight>,
    word_wise: bool,
    pats: Seq<Seq<char>>,
    ws: Seq<Seq<i32>>,
    window: int,
) -> Seq<Seq<i32>> {
    Seq::new(
        ws.len(),
        |k: int|
            Seq::new(
                ws[k].len(),
                |j: int|
                    wrap_i32(ws[k][j] + fold_sum(dict, dws, word_wise, pats, window, k, j, dict.len())),
            ),
    )
}

/// The first `n` dictionary entries that stay in the dictionary.
pub open spec fn kept_words(
    dict: Seq<Seq<char>>,
    pats: Seq<Seq<char>>,
    window: int,
    n: nat,
) -> Seq<Seq<char>>
    decreases n,
{
    if n == 0 {
        Seq::empty()
    } else {
        let rest = kept_words(dict, pats, window, (n - 1) as nat);
        if folds(dict, pats, window, n - 1) {
            rest
        } else {
            rest.push(dict[n - 1])
        }
    }
}

/// The weights of the first `n` dictionary entries that stay, word by word.
pub open spec fn kept_weights(
    dict: Seq<Seq<char>>,
    dws: Seq<DictWeight>,
    pats: Seq<Seq<char>>,
    window: int,
    n: nat,
) -> Seq<DictWeight>
    decreases n,
{
    if n == 0 {
        Seq::empty()
    } else {
        let rest = kept_weights(dict, dws, pats, window, (n - 1) as nat);
        if folds(dict, pats, window, n - 1) {
            rest
        } else {
            rest.push(dws[n - 1])
        }
    }
}

/// Adds `dw` at slots `start..=end` of `v`: `right` at `start`, `inner`
/// strictly between, `left` at `end`.
fn fold_into(v: &mut Vec<i32>, dw: DictWeight, start: usize, end: usize, Ghost(totals): Ghost<Seq<int>>)
    requires
        start <= end < old(v).len(),
        totals.len() == old(v).len(),
        forall|t: int| 0 <= t < totals.len() ==> old(v)@[t] == wrap_i32(#[trigger] totals[t]),
    ensures
        final(v).len() == old(v).len(),
        forall|t: int|
            0 <= t < totals.len() ==> final(v)@[t] == wrap_i32(
                #[trigger] totals[t] + slot_term(dw, start as int, end as int, t),
            ),
{
    let ghost cur = totals.update(start as int, totals[start as int] + dw.right);
    let nv = add_score(v[start], dw.right, Ghost(totals[start as int]));
    v.set(start, nv);
    let mut i: usize = start + 1;
    while i < end
        invariant
            start < i <= end || (i == start + 1 && start == end),
            end < v.len(),
            v.len() == totals.len(),
            cur.len() == totals.len(),
            forall|t: int| 0 <= t < totals.len() ==> v@[t] == wrap_i32(#[trigger] cur[t]),
            forall|t: int|
                0 <= t < totals.len() ==> #[trigger] cur[t] == totals[t] + (if t == start {
                    dw.right as int
                } else {
                    0
                }) + (if start < t < i {
                    dw.inner as int
                } else {
                    0
                }),
        decreases end - i,
    {
        let nv = add_score(v[i], dw.inner, Ghost(cur[i as int]));
        v.set(i, nv);
        proof {
            cur = cur.update(i as int, cur[i as int] + dw.inner);
        }
        i = i + 1;
    }
    let nv = add_score(v[end], dw.left, Ghost(cur[end as int]));
    v.set(end, nv);
    proof {
        cur = cur.update(end as int, cur[end as int] + dw.left);
    }
    assert forall|t: int| 0 <= t < totals.len() implies v@[t] == wrap_i32(
        #[trigger] totals[t] + slot_term(dw, start as int, end as int, t),
    ) by {
        assert(cur[t] == totals[t] + slot_term(dw, start as int, end as int, t));
    }
}

} // verus!

verus! {

/// Folds short dictionary words into the character n-gram table.
///
/// A word that the table holds and that fits the character window adds its
/// weights into that n-gram's vector and leaves the dictionary; every other
/// word stays, in order (with its own weights where they are word-wise).
pub fn merge_dict_weights(
    dict: &Vec<Vec<char>>,
    dict_weights: &Vec<DictWeight>,
    words: &Vec<Vec<char>>,
    word_weights: &mut Vec<Vec<i32>>,
    char_window_size: usize,
    dict_word_wise: bool,
) -> (r: (Vec<Vec<char>>, Vec<DictWeight>))
    requires
        table_shape(seqs_of(words@), seqs_of(old(word_weights)@), char_window_size as int),
        dict_shape(dict@.len(), dict_weights@.len(), dict_word_wise),
        all_nonempty(seqs_of(dict@)),
    ensures
        seqs_of(final(word_weights)@) == folded_table(
            seqs_of(dict@),
            dict_weights@,
            dict_word_wise,
            seqs_of(words@),
            seqs_of(old(word_weights)@),
            char_window_size as int,
        ),
        seqs_of(r.0@) == kept_words(
            seqs_of(dict@),
            seqs_of(words@),
            char_window_size as int,
            dict@.len(),
        ),
        r.1@ == if dict_word_wise {
            kept_weights(
                seqs_of(dict@),
                dict_weights@,
                seqs_of(words@),
                char_window_size as int,
                dict@.len(),
            )
        } else {
            dict_weights@
        },
{
    let ghost ds = seqs_of(dict@);
    let ghost pats = seqs_of(words@);
    let ghost ws0 = seqs_of(word_weights@);
    let ghost wn = char_window_size as int;
    let index = VocabIndex::build(words);
    let mut new_dict: Vec<Vec<char>> = Vec::new();
    let mut new_weights: Vec<DictWeight> = Vec::new();
    let mut i: usize = 0;
    while i < dict.len()
        invariant
            i <= dict.len(),
            ds == seqs_of(dict@),
            pats == seqs_of(words@),
            index.indexes(pats),
            wn == char_window_size as int,
            table_shape(pats, ws0, wn),
            dict_shape(dict@.len(), dict_weights@.len(), dict_word_wise),
            all_nonempty(ds),
            word_weights.len() == ws0.len(),
            forall|k: int|
                0 <= k < ws0.len() ==> (#[trigger] word_weights@[k]@).len() == ws0[k].len(),
            forall|k: int, j: int|
                0 <= k < ws0.len() && 0 <= j < ws0[k].len() ==> #[trigger] word_weights@[k]@[j]
                    == wrap_i32(
                    ws0[k][j] + fold_sum(
                        ds,
                        dict_weights@,
                        dict_word_wise,
                        pats,
                        wn,
                        k,
                        j,
                        i as nat,
                    ),
                ),
            seqs_of(new_dict@) == kept_words(ds, pats, wn, i as nat),
            dict_word_wise ==> new_weights@ == kept_weights(ds, dict_weights@, pats, wn, i as nat),
        decreases dict.len() - i,
    {
        let word = &dict[i];
        let ghost wv = word@;
        assert(ds[i as int] == wv);
        let hit = index.find(words, word, 0, word.len());
        assert(word@.subrange(0, word.len() as int) =~= wv);
        proof {
            lemma_lookup(pats, wv);
        }
        let ghost prev = fold_sum(ds, dict_weights@, dict_word_wise, pats, wn, 0, 0, i as nat);
        match hit {
            Some(idx) if word.len() <= char_window_size => {
                let dw = if dict_word_wise {
                    dict_weights[i]
                } else {
                    let b = if word.len() < dict_weights.len() {
                        word.len()
                    } else {
                        dict_weights.len()
                    };
                    dict_weights[b - 1]
                };
                assert(dw == entry_weight(ds, dict_weights@, dict_word_wise, i as int));
                let start = char_window_size - word.len();
                let end = char_window_size;
                let mut v = word_weights[idx].clone();
                assert(ws0[idx as int].len() + pats[idx as int].len() == 2 * wn + 1);
                let ghost totals = Seq::new(
                    v.len() as nat,
                    |j: int|
                        ws0[idx as int][j] + fold_sum(
                            ds,
                            dict_weights@,
                            dict_word_wise,
                            pats,
                            wn,
                            idx as int,
                            j,
                            i as nat,
                        ),
                );
                fold_into(&mut v, dw, start, end, Ghost(totals));
                word_weights.set(idx, v);
                assert forall|k: int, j: int|
                    0 <= k < ws0.len() && 0 <= j < ws0[k].len() implies #[trigger] word_weights@[k]@[j]
                    == wrap_i32(
                    ws0[k][j] + fold_sum(
                        ds,
                        dict_weights@,
                        dict_word_wise,
                        pats,
                        wn,
                        k,
                        j,
                        (i + 1) as nat,
                    ),
                ) by {
                    if k == idx {
                        assert(totals[j] + slot_term(dw, start as int, end as int, j) == ws0[k][j]
                            + fold_sum(
                            ds,
                            dict_weights@,
                            dict_word_wise,
                            pats,
                            wn,
                            k,
                            j,
                            (i + 1) as nat,
                        ));
                    }
                }
                assert(kept_words(ds, pats, wn, (i + 1) as nat) == kept_words(ds, pats, wn, i as nat));
                assert(kept_weights(ds, dict_weights@, pats, wn, (i + 1) as nat) == kept_weights(
                    ds,
                    dict_weights@,
                    pats,
                    wn,
                    i as nat,
                ));
            },
            _ => {
                new_dict.push(word.clone());
                if dict_word_wise {
                    new_weights.push(dict_weights[i]);
                }
                assert(seqs_of(new_dict@) =~= kept_words(ds, pats, wn, (i + 1) as nat));
                assert forall|k: int, j: int|
                    0 <= k < ws0.len() && 0 <= j < ws0[k].len() implies fold_sum(
                    ds,
                    dict_weights@,
                    dict_word_wise,
                    pats,
                    wn,
                    k,
                    j,
                    (i + 1) as nat,
                ) == fold_sum(ds, dict_weights@, dict_word_wise, pats, wn, k, j, i as nat) by {}
            },
        }
        i = i + 1;
    }
    assert forall|k: int| 0 <= k < ws0.len() implies #[trigger] seqs_of(word_weights@)[k] =~= folded_table(
        ds,
        dict_weights@,
        dict_word_wise,
        pats,
        ws0,
        wn,
    )[k] by {}
    assert(seqs_of(word_weights@) =~= folded_table(
        ds,
        dict_weights@,
        dict_word_wise,
        pats,
        ws0,
        wn,
    ));
    if dict_word_wise {
        (new_dict, new_weights)
    } else {
        (new_dict, dict_weights.clone())
    }
}

} // verus!
