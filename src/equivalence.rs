//! The merged single-pass tables score exactly as the model they come from,
//! with every pattern that ends at a position scored on its own and every
//! dictionary word scored by the dictionary.
use crate::arith::{
    lemma_wrap_add_congruent, lemma_wrap_idempotent, lemma_wrap_small, weight_at, wrap_i32,
};
use crate::merge::{
    all_nonempty, entry_weight, fold_sum, folded_table, folds, kept_weights, kept_words,
    lemma_shortest_suffix, merged_len, merged_table, merged_vector, shortest_suffix_from, slot_term,
    suffix_weight_sum,
};
use crate::model::{dict_shape, table_shape, DictWeight, Model};
use crate::predictor::Predictor;
use crate::scorer::{
    channel_sum, dict_sum, end_weight, hit_weight, longest_at, longest_from, slot_of, word_weight,
    words_ending_sum,
};
use crate::vocab::{
    ending_at, lemma_lookup, lemma_lookup_upto, lookup, lookup_upto, seqs_of, suffix,
};
use vstd::prelude::*;

verus! {

/// What the pattern `t[e - l..e]`, if in the vocabulary, puts on boundary `b`.
pub open spec fn pattern_weight<S>(
    pats: Seq<Seq<S>>,
    ws: Seq<Seq<i32>>,
    window: int,
    t: Seq<S>,
    e: int,
    l: int,
    b: int,
) -> int {
    let k = lookup(pats, ending_at(t, e, l));
    if k >= 0 {
        weight_at(ws[k], slot_of(e, window, b))
    } else {
        0
    }
}

/// What every pattern of length `1..=n` ending at `e` puts on boundary `b`.
pub open spec fn patterns_ending_sum<S>(
    pats: Seq<Seq<S>>,
    ws: Seq<Seq<i32>>,
    window: int,
    t: Seq<S>,
    e: int,
    b: int,
    n: nat,
) -> int
    decreases n,
{
    if n == 0 {
        0
    } else {
        patterns_ending_sum(pats, ws, window, t, e, b, (n - 1) as nat) + pattern_weight(
            pats,
            ws,
            window,
            t,
            e,
            n as int,
            b,
        )
    }
}

/// What every occurrence of every pattern ending at `1..=n` puts on boundary
/// `b`, each pattern scored on its own.
pub open spec fn unmerged_sum<S>(
    pats: Seq<Seq<S>>,
    ws: Seq<Seq<i32>>,
    window: int,
    t: Seq<S>,
    b: int,
    n: nat,
) -> int
    decreases n,
{
    if n == 0 {
        0
    } else {
        unmerged_sum(pats, ws, window, t, b, (n - 1) as nat) + patterns_ending_sum(
            pats,
            ws,
            window,
            t,
            n as int,
            b,
            n,
        )
    }
}

/// No length between the longest match and `l` matches.
proof fn lemma_longest_none_above<S>(pats: Seq<Seq<S>>, t: Seq<S>, e: int, l: int, m: int)
    requires
        longest_from(pats, t, e, l) < m <= l,
    ensures
        lookup(pats, ending_at(t, e, m)) < 0,
    decreases l,
{
    if l > m {
        if lookup(pats, ending_at(t, e, l)) < 0 {
            lemma_longest_none_above(pats, t, e, l - 1, m);
        }
    }
}

/// Past the longest match, the unmerged sum gains nothing.
proof fn lemma_ending_sum_upto_longest<S>(
    pats: Seq<Seq<S>>,
    ws: Seq<Seq<i32>>,
    window: int,
    t: Seq<S>,
    e: int,
    b: int,
    n: nat,
)
    requires
        longest_at(pats, t, e) <= n <= e,
    ensures
        patterns_ending_sum(pats, ws, window, t, e, b, n) == patterns_ending_sum(
            pats,
            ws,
            window,
            t,
            e,
            b,
            longest_at(pats, t, e) as nat,
        ),
    decreases n,
{
    crate::scorer::lemma_longest_from(pats, t, e, e);
    if n > longest_at(pats, t, e) {
        lemma_longest_none_above(pats, t, e, e, n as int);
        lemma_ending_sum_upto_longest(pats, ws, window, t, e, b, (n - 1) as nat);
    }
}

/// Up to the longest match, the patterns ending at `e` are the suffixes of it.
proof fn lemma_ending_sum_is_suffix_sum<S>(
    pats: Seq<Seq<S>>,
    ws: Seq<Seq<i32>>,
    window: int,
    t: Seq<S>,
    e: int,
    b: int,
    p: Seq<S>,
    n: nat,
)
    requires
        p == ending_at(t, e, p.len() as int),
        p.len() <= e <= t.len(),
        n <= p.len(),
    ensures
        patterns_ending_sum(pats, ws, window, t, e, b, n) == suffix_weight_sum(
            pats,
            ws,
            p,
            n,
            slot_of(e, window, b),
        ),
    decreases n,
{
    if n > 0 {
        lemma_ending_sum_is_suffix_sum(pats, ws, window, t, e, b, p, (n - 1) as nat);
        assert(ending_at(t, e, n as int) =~= suffix(p, n as int));
    }
}

/// Slots past the merged vector's end get nothing from any suffix.
proof fn lemma_suffix_sum_past_end<S>(
    pats: Seq<Seq<S>>,
    ws: Seq<Seq<i32>>,
    window: int,
    p: Seq<S>,
    j: int,
    n: nat,
)
    requires
        table_shape(pats, ws, window),
        lookup(pats, p) >= 0,
        n <= p.len(),
        j < 0 || j >= merged_len(pats, ws, p),
    ensures
        suffix_weight_sum(pats, ws, p, n, j) == 0,
    decreases n,
{
    if n > 0 {
        lemma_suffix_sum_past_end(pats, ws, window, p, j, (n - 1) as nat);
        let ls = shortest_suffix_from(pats, p, 1);
        lemma_shortest_suffix(pats, p, 1);
        let k = lookup(pats, suffix(p, n as int));
        lemma_lookup(pats, suffix(p, n as int));
        if k >= 0 && j >= 0 {
            let ks = lookup(pats, suffix(p, ls));
            lemma_lookup(pats, suffix(p, ls));
            assert(n >= ls);
            assert(ws[k].len() + pats[k].len() == 2 * window + 1);
            assert(ws[ks].len() + pats[ks].len() == 2 * window + 1);
        }
    }
}

/// At each end position, the longest match with its merged vector puts on
/// a boundary what all matches with their own vectors put there.
pub proof fn lemma_end_weight_merged<S>(
    pats: Seq<Seq<S>>,
    ws: Seq<Seq<i32>>,
    window: int,
    t: Seq<S>,
    e: int,
    b: int,
)
    requires
        table_shape(pats, ws, window),
        all_nonempty(pats),
        0 <= e <= t.len(),
    ensures
        wrap_i32(end_weight(pats, merged_table(pats, ws), window, t, e, b)) == wrap_i32(
            patterns_ending_sum(pats, ws, window, t, e, b, e as nat),
        ),
{
    let l = longest_at(pats, t, e);
    crate::scorer::lemma_longest_from(pats, t, e, e);
    lemma_ending_sum_upto_longest(pats, ws, window, t, e, b, e as nat);
    let j = slot_of(e, window, b);
    if l > 0 {
        let p = ending_at(t, e, l);
        let k = lookup(pats, p);
        lemma_lookup(pats, p);
        assert(p.len() == l);
        lemma_ending_sum_is_suffix_sum(pats, ws, window, t, e, b, p, l as nat);
        let mv = merged_table(pats, ws)[k];
        assert(mv == merged_vector(pats, ws, p));
        if 0 <= j < merged_len(pats, ws, p) {
            lemma_wrap_idempotent(suffix_weight_sum(pats, ws, p, p.len(), j));
        } else {
            lemma_suffix_sum_past_end(pats, ws, window, p, j, l as nat);
        }
    }
}

/// Scoring with the merged tables, one match per end position, gives what
/// scoring every pattern on its own gives.
pub proof fn lemma_channel_merged<S>(
    pats: Seq<Seq<S>>,
    ws: Seq<Seq<i32>>,
    window: int,
    t: Seq<S>,
    b: int,
    n: nat,
)
    requires
        table_shape(pats, ws, window),
        all_nonempty(pats),
        n <= t.len(),
    ensures
        wrap_i32(channel_sum(pats, merged_table(pats, ws), window, t, b, n)) == wrap_i32(
            unmerged_sum(pats, ws, window, t, b, n),
        ),
    decreases n,
{
    if n > 0 {
        lemma_channel_merged(pats, ws, window, t, b, (n - 1) as nat);
        lemma_end_weight_merged(pats, ws, window, t, n as int, b);
        lemma_wrap_add_congruent(
            channel_sum(pats, merged_table(pats, ws), window, t, b, (n - 1) as nat),
            unmerged_sum(pats, ws, window, t, b, (n - 1) as nat),
            end_weight(pats, merged_table(pats, ws), window, t, n as int, b),
            patterns_ending_sum(pats, ws, window, t, n as int, b, n),
        );
    }
}


/// No entry occurs twice.
pub open spec fn all_distinct<S>(pats: Seq<Seq<S>>) -> bool {
    forall|i: int, j: int| 0 <= i < j < pats.len() ==> #[trigger] pats[i] != #[trigger] pats[j]
}

proof fn lemma_lookup_upto_prefix<S>(s: Seq<Seq<S>>, x: Seq<S>, q: Seq<S>, m: nat)
    requires
        m <= s.len(),
    ensures
        lookup_upto(s.push(x), q, m) == lookup_upto(s, q, m),
    decreases m,
{
    if m > 0 {
        assert(s.push(x)[m - 1] == s[m - 1]);
        lemma_lookup_upto_prefix(s, x, q, (m - 1) as nat);
    }
}

/// Looking up in a sequence with one more entry.
proof fn lemma_lookup_push<S>(s: Seq<Seq<S>>, x: Seq<S>, q: Seq<S>)
    ensures
        lookup(s.push(x), q) == if x == q {
            s.len() as int
        } else {
            lookup(s, q)
        },
{
    lemma_lookup_upto_prefix(s, x, q, s.len());
}

/// Which words the folding keeps, and with which weights.
proof fn lemma_kept(
    ds: Seq<Seq<char>>,
    dws: Seq<DictWeight>,
    pats: Seq<Seq<char>>,
    window: int,
    q: Seq<char>,
    n: nat,
)
    requires
        all_distinct(ds),
        n <= ds.len(),
    ensures
        kept_words(ds, pats, window, n).len() == kept_weights(ds, dws, pats, window, n).len(),
        ({
            let i = lookup_upto(ds, q, n);
            let kq = lookup(kept_words(ds, pats, window, n), q);
            &&& kq >= 0 <==> (i >= 0 && !folds(ds, pats, window, i))
            &&& kq >= 0 ==> kept_weights(ds, dws, pats, window, n)[kq] == dws[i]
            &&& kq < kept_words(ds, pats, window, n).len()
        }),
    decreases n,
{
    if n > 0 {
        lemma_kept(ds, dws, pats, window, q, (n - 1) as nat);
        let prev = kept_words(ds, pats, window, (n - 1) as nat);
        lemma_lookup(prev, q);
        lemma_lookup_push(prev, ds[n - 1], q);
        lemma_lookup_upto(ds, q, (n - 1) as nat);
        if ds[n - 1] == q {
            assert forall|k: int| 0 <= k < n - 1 implies ds[k] != q by {
                assert(ds[k] != ds[n - 1]);
            }
        }
        lemma_lookup(kept_words(ds, pats, window, n), q);
    }
}

/// With distinct words, what the dictionary folds into the entry of `q` is
/// the weight of `q` itself, where `q` folds.
proof fn lemma_fold_sum_single(
    ds: Seq<Seq<char>>,
    dws: Seq<DictWeight>,
    word_wise: bool,
    pats: Seq<Seq<char>>,
    window: int,
    q: Seq<char>,
    j: int,
    n: nat,
)
    requires
        all_distinct(ds),
        n <= ds.len(),
        lookup(pats, q) >= 0,
    ensures
        ({
            let i = lookup_upto(ds, q, n);
            fold_sum(ds, dws, word_wise, pats, window, lookup(pats, q), j, n) == if i >= 0 && folds(
                ds,
                pats,
                window,
                i,
            ) {
                slot_term(entry_weight(ds, dws, word_wise, i), window - ds[i].len(), window, j)
            } else {
                0
            }
        }),
    decreases n,
{
    if n > 0 {
        lemma_fold_sum_single(ds, dws, word_wise, pats, window, q, j, (n - 1) as nat);
        lemma_lookup(pats, q);
        lemma_lookup(pats, ds[n - 1]);
        lemma_lookup_upto(ds, q, (n - 1) as nat);
        if ds[n - 1] == q {
            assert forall|k: int| 0 <= k < n - 1 implies ds[k] != q by {
                assert(ds[k] != ds[n - 1]);
            }
        }
    }
}

/// What the dictionary puts on the boundaries, for each occurrence of
/// each word: moved into the character table or kept, it is the same.
proof fn lemma_fold_term(
    ds: Seq<Seq<char>>,
    dws: Seq<DictWeight>,
    word_wise: bool,
    pats: Seq<Seq<char>>,
    ws: Seq<Seq<i32>>,
    window: int,
    t: Seq<char>,
    e: int,
    l: int,
    b: int,
)
    requires
        table_shape(pats, ws, window),
        all_distinct(ds),
        dict_shape(ds.len(), dws.len(), word_wise),
        1 <= l <= e <= t.len(),
        window >= 0,
    ensures
        ({
            let f = folded_table(ds, dws, word_wise, pats, ws, window);
            let kept = kept_words(ds, pats, window, ds.len());
            let kw = if word_wise {
                kept_weights(ds, dws, pats, window, ds.len())
            } else {
                dws
            };
            wrap_i32(
                pattern_weight(pats, f, window, t, e, l, b) + word_weight(
                    kept,
                    kw,
                    word_wise,
                    kw.len() as int,
                    t,
                    e,
                    l,
                    b,
                ),
            ) == wrap_i32(
                pattern_weight(pats, ws, window, t, e, l, b) + word_weight(
                    ds,
                    dws,
                    word_wise,
                    dws.len() as int,
                    t,
                    e,
                    l,
                    b,
                ),
            )
        }),
{
    let f = folded_table(ds, dws, word_wise, pats, ws, window);
    let kept = kept_words(ds, pats, window, ds.len());
    let kw = if word_wise {
        kept_weights(ds, dws, pats, window, ds.len())
    } else {
        dws
    };
    let q = ending_at(t, e, l);
    assert(q.len() == l);
    let k = lookup(pats, q);
    let i = lookup(ds, q);
    let j = slot_of(e, window, b);
    lemma_lookup(pats, q);
    lemma_lookup(ds, q);
    lemma_kept(ds, dws, pats, window, q, ds.len());
    lemma_lookup(kept, q);
    let kq = lookup(kept, q);
    let lhs_p = pattern_weight(pats, f, window, t, e, l, b);
    let rhs_p = pattern_weight(pats, ws, window, t, e, l, b);
    let lhs_d = word_weight(kept, kw, word_wise, kw.len() as int, t, e, l, b);
    let rhs_d = word_weight(ds, dws, word_wise, dws.len() as int, t, e, l, b);
    if k >= 0 {
        lemma_fold_sum_single(ds, dws, word_wise, pats, window, q, j, ds.len());
        assert(ws[k].len() + pats[k].len() == 2 * window + 1);
    }
    if i >= 0 && folds(ds, pats, window, i) {
        // The word moved into the character table.
        assert(ds[i] == q);
        assert(lhs_d == 0);
        let dw = entry_weight(ds, dws, word_wise, i);
        assert(hit_weight(dws, word_wise, dws.len() as int, i, l) == Some(dw));
        assert(rhs_d == slot_term(dw, e - l - 1, e - 1, b));
        assert(slot_term(dw, window - l, window, j) == slot_term(dw, e - l - 1, e - 1, b));
        if 0 <= j < ws[k].len() {
            assert(f[k][j] == wrap_i32(ws[k][j] + slot_term(dw, window - l, window, j)));
            lemma_wrap_idempotent(ws[k][j] + slot_term(dw, window - l, window, j));
            lemma_wrap_small(lhs_d);
            assert(lhs_p + lhs_d == f[k][j] as int);
        } else {
            assert(slot_term(dw, window - l, window, j) == 0);
        }
    } else {
        // The word, if in the dictionary, stayed there.
        if k >= 0 && 0 <= j < ws[k].len() {
            assert(f[k][j] == wrap_i32(ws[k][j] as int));
            lemma_wrap_small(ws[k][j] as int);
        }
        assert(lhs_p == rhs_p);
        if i >= 0 {
            assert(kq >= 0);
            assert(hit_weight(kw, word_wise, kw.len() as int, kq, l) == hit_weight(
                dws,
                word_wise,
                dws.len() as int,
                i,
                l,
            ));
        } else {
            assert(kq < 0);
        }
        assert(lhs_d == rhs_d);
    }
}


/// Folding preserves, at each end position, the sum over word lengths.
proof fn lemma_fold_ending_sum(
    ds: Seq<Seq<char>>,
    dws: Seq<DictWeight>,
    word_wise: bool,
    pats: Seq<Seq<char>>,
    ws: Seq<Seq<i32>>,
    window: int,
    t: Seq<char>,
    e: int,
    b: int,
    n: nat,
)
    requires
        table_shape(pats, ws, window),
        all_distinct(ds),
        dict_shape(ds.len(), dws.len(), word_wise),
        n <= e <= t.len(),
        window >= 0,
    ensures
        ({
            let f = folded_table(ds, dws, word_wise, pats, ws, window);
            let kept = kept_words(ds, pats, window, ds.len());
            let kw = if word_wise {
                kept_weights(ds, dws, pats, window, ds.len())
            } else {
                dws
            };
            wrap_i32(
                patterns_ending_sum(pats, f, window, t, e, b, n) + words_ending_sum(
                    kept,
                    kw,
                    word_wise,
                    kw.len() as int,
                    t,
                    e,
                    b,
                    n,
                ),
            ) == wrap_i32(
                patterns_ending_sum(pats, ws, window, t, e, b, n) + words_ending_sum(
                    ds,
                    dws,
                    word_wise,
                    dws.len() as int,
                    t,
                    e,
                    b,
                    n,
                ),
            )
        }),
    decreases n,
{
    if n > 0 {
        let f = folded_table(ds, dws, word_wise, pats, ws, window);
        let kept = kept_words(ds, pats, window, ds.len());
        let kw = if word_wise {
            kept_weights(ds, dws, pats, window, ds.len())
        } else {
            dws
        };
        let m = (n - 1) as nat;
        lemma_fold_ending_sum(ds, dws, word_wise, pats, ws, window, t, e, b, m);
        lemma_fold_term(ds, dws, word_wise, pats, ws, window, t, e, n as int, b);
        lemma_wrap_add_congruent(
            patterns_ending_sum(pats, f, window, t, e, b, m) + words_ending_sum(
                kept,
                kw,
                word_wise,
                kw.len() as int,
                t,
                e,
                b,
                m,
            ),
            patterns_ending_sum(pats, ws, window, t, e, b, m) + words_ending_sum(
                ds,
                dws,
                word_wise,
                dws.len() as int,
                t,
                e,
                b,
                m,
            ),
            pattern_weight(pats, f, window, t, e, n as int, b) + word_weight(
                kept,
                kw,
                word_wise,
                kw.len() as int,
                t,
                e,
                n as int,
                b,
            ),
            pattern_weight(pats, ws, window, t, e, n as int, b) + word_weight(
                ds,
                dws,
                word_wise,
                dws.len() as int,
                t,
                e,
                n as int,
                b,
            ),
        );
    }
}

/// Folding the dictionary into the character n-gram table is no change of
/// meaning: on every text and boundary, the character n-grams scored with
/// the folded table (each occurrence on its own) plus the words left in the
/// dictionary add up to the character n-grams with their own vectors plus
/// the whole dictionary. These are the tables `merge_dict_weights` returns.
/// (The dictionary's words must be distinct: a word listed twice is folded
/// twice but found once by the dictionary.)
pub proof fn lemma_folding_preserves_scores(
    ds: Seq<Seq<char>>,
    dws: Seq<DictWeight>,
    word_wise: bool,
    pats: Seq<Seq<char>>,
    ws: Seq<Seq<i32>>,
    window: int,
    t: Seq<char>,
    b: int,
    n: nat,
)
    requires
        table_shape(pats, ws, window),
        all_distinct(ds),
        dict_shape(ds.len(), dws.len(), word_wise),
        n <= t.len(),
        window >= 0,
    ensures
        ({
            let f = folded_table(ds, dws, word_wise, pats, ws, window);
            let kept = kept_words(ds, pats, window, ds.len());
            let kw = if word_wise {
                kept_weights(ds, dws, pats, window, ds.len())
            } else {
                dws
            };
            wrap_i32(
                unmerged_sum(pats, f, window, t, b, n) + dict_sum(
                    kept,
                    kw,
                    word_wise,
                    kw.len() as int,
                    t,
                    b,
                    n,
                ),
            ) == wrap_i32(
                unmerged_sum(pats, ws, window, t, b, n) + dict_sum(
                    ds,
                    dws,
                    word_wise,
                    dws.len() as int,
                    t,
                    b,
                    n,
                ),
            )
        }),
    decreases n,
{
    if n > 0 {
        let f = folded_table(ds, dws, word_wise, pats, ws, window);
        let kept = kept_words(ds, pats, window, ds.len());
        let kw = if word_wise {
            kept_weights(ds, dws, pats, window, ds.len())
        } else {
            dws
        };
        let m = (n - 1) as nat;
        lemma_folding_preserves_scores(ds, dws, word_wise, pats, ws, window, t, b, m);
        lemma_fold_ending_sum(ds, dws, word_wise, pats, ws, window, t, n as int, b, n);
        lemma_wrap_add_congruent(
            unmerged_sum(pats, f, window, t, b, m) + dict_sum(
                kept,
                kw,
                word_wise,
                kw.len() as int,
                t,
                b,
                m,
            ),
            unmerged_sum(pats, ws, window, t, b, m) + dict_sum(
                ds,
                dws,
                word_wise,
                dws.len() as int,
                t,
                b,
                m,
            ),
            patterns_ending_sum(pats, f, window, t, n as int, b, n) + words_ending_sum(
                kept,
                kw,
                word_wise,
                kw.len() as int,
                t,
                n as int,
                b,
                n,
            ),
            patterns_ending_sum(pats, ws, window, t, n as int, b, n) + words_ending_sum(
                ds,
                dws,
                word_wise,
                dws.len() as int,
                t,
                n as int,
                b,
                n,
            ),
        );
    }
}

/// An empty dictionary adds nothing.
proof fn lemma_empty_dict_sum(
    dws: Seq<DictWeight>,
    word_wise: bool,
    window: int,
    t: Seq<char>,
    b: int,
    n: nat,
)
    ensures
        dict_sum(Seq::empty(), dws, word_wise, window, t, b, n) == 0,
    decreases n,
{
    if n > 0 {
        lemma_empty_dict_sum(dws, word_wise, window, t, b, (n - 1) as nat);
        lemma_empty_words_sum(dws, word_wise, window, t, n as int, b, n);
    }
}

proof fn lemma_empty_words_sum(
    dws: Seq<DictWeight>,
    word_wise: bool,
    window: int,
    t: Seq<char>,
    e: int,
    b: int,
    n: nat,
)
    ensures
        words_ending_sum(Seq::empty(), dws, word_wise, window, t, e, b, n) == 0,
    decreases n,
{
    if n > 0 {
        lemma_empty_words_sum(dws, word_wise, window, t, e, b, (n - 1) as nat);
    }
}

/// The score of a boundary under a model as trained: the bias, every
/// character n-gram and type n-gram occurrence scored on its own with its
/// own vector, and every dictionary word occurrence scored by the dictionary.
pub open spec fn reference_score(m: Model, chars: Seq<char>, types: Seq<u8>, b: int) -> int {
    m.bias + unmerged_sum(
        m.char_pats(),
        seqs_of(m.char_ngram_weights@),
        m.char_window_size as int,
        chars,
        b,
        chars.len(),
    ) + unmerged_sum(
        m.type_pats(),
        seqs_of(m.type_ngram_weights@),
        m.type_window_size as int,
        types,
        b,
        types.len(),
    ) + dict_sum(
        m.dict_words(),
        m.dict_weights@,
        m.dict_word_wise,
        m.dict_weights@.len() as int,
        chars,
        b,
        chars.len(),
    )
}

/// Merging the weight tables is no change of meaning: a predictor built
/// from a model scores every boundary of every text as the model does when
/// each pattern and each dictionary word is scored on its own. (The
/// dictionary's words must be distinct: a word listed twice is scored once
/// by the dictionary but folded twice into the character table.)
pub proof fn lemma_merge_preserves_scores(
    p: Predictor,
    m: Model,
    chars: Seq<char>,
    types: Seq<u8>,
    b: int,
)
    requires
        m.wf(),
        all_distinct(m.dict_words()),
        p.built_from(m),
    ensures
        wrap_i32(p.score(chars, types, b)) == wrap_i32(reference_score(m, chars, types, b)),
{
    let ds = m.dict_words();
    let dws = m.dict_weights@;
    let ww = m.dict_word_wise;
    let cp = m.char_pats();
    let cws = seqs_of(m.char_ngram_weights@);
    let wc = m.char_window_size as int;
    let tp = m.type_pats();
    let tws = seqs_of(m.type_ngram_weights@);
    let wt = m.type_window_size as int;
    let f = folded_table(ds, dws, ww, cp, cws, wc);
    let kept = kept_words(ds, cp, wc, ds.len());
    let kw = if ww {
        kept_weights(ds, dws, cp, wc, ds.len())
    } else {
        dws
    };
    assert(table_shape(cp, f, wc));
    lemma_channel_merged(cp, f, wc, chars, b, chars.len());
    lemma_channel_merged(tp, tws, wt, types, b, types.len());
    lemma_folding_preserves_scores(ds, dws, ww, cp, cws, wc, chars, b, chars.len());
    let x_c = channel_sum(cp, merged_table(cp, f), wc, chars, b, chars.len());
    let x_t = channel_sum(tp, merged_table(tp, tws), wt, types, b, types.len());
    let u_f = unmerged_sum(cp, f, wc, chars, b, chars.len());
    let u_c = unmerged_sum(cp, cws, wc, chars, b, chars.len());
    let u_t = unmerged_sum(tp, tws, wt, types, b, types.len());
    let d_k = dict_sum(kept, kw, ww, kw.len() as int, chars, b, chars.len());
    let d_0 = dict_sum(ds, dws, ww, dws.len() as int, chars, b, chars.len());
    match p.dict_scorer {
        Some(d) => {
            lemma_kept(ds, dws, cp, wc, Seq::empty(), ds.len());
            assert(d.total(chars, b) == d_k);
        },
        None => {
            assert(kept =~= Seq::<Seq<char>>::empty());
            lemma_empty_dict_sum(kw, ww, kw.len() as int, chars, b, chars.len());
        },
    }
    assert(p.score(chars, types, b) == m.bias + x_c + x_t + d_k);
    // bias + x_c + x_t + d_k wraps as bias + x_t + (u_f + d_k), which wraps
    // as bias + x_t + (u_c + d_0), which wraps as the reference.
    lemma_wrap_add_congruent(x_c, u_f, m.bias + x_t + d_k, m.bias + x_t + d_k);
    lemma_wrap_add_congruent(u_f + d_k, u_c + d_0, m.bias + x_t, m.bias + x_t);
    lemma_wrap_add_congruent(x_t, u_t, m.bias + u_c + d_0, m.bias + u_c + d_0);
}

} // verus!
