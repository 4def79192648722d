//! Properties of prediction that hold for every sentence.
use crate::arith::wrap_i32;
use crate::predictor::Predictor;
use crate::sentence::{BoundaryType, SentenceView};
use vstd::prelude::*;

verus! {

/// Whether boundary `b` lies in one of the ranges.
pub open spec fn covered(ranges: Seq<(int, int)>, b: int) -> bool {
    exists|r: int| 0 <= r < ranges.len() && (#[trigger] ranges[r]).0 <= b < ranges[r].1
}

/// Some range holds at least one boundary.
pub open spec fn any_nonempty(ranges: Seq<(int, int)>) -> bool {
    exists|r: int| 0 <= r < ranges.len() && (#[trigger] ranges[r]).0 < ranges[r].1
}

/// Every range lies within the `n` boundaries.
pub open spec fn ranges_within(ranges: Seq<(int, int)>, n: int) -> bool {
    forall|r: int| 0 <= r < ranges.len() ==> 0 <= (#[trigger] ranges[r]).0 <= ranges[r].1 <= n
}

/// The sentence after predicting each range in turn.
pub open spec fn predicted_ranges(
    p: Predictor,
    sv: SentenceView,
    ranges: Seq<(int, int)>,
    with_scores: bool,
) -> SentenceView
    decreases ranges.len(),
{
    if ranges.len() == 0 {
        sv
    } else {
        let r = ranges.last();
        p.predicted_range(predicted_ranges(p, sv, ranges.drop_last(), with_scores), r.0, r.1, with_scores)
    }
}

/// What predicting some ranges in turn leaves: covered boundaries decided by
/// their score, the rest untouched.
pub proof fn lemma_predicted_ranges(p: Predictor, sv: SentenceView, ranges: Seq<(int, int)>, with_scores: bool)
    requires
        sv.wf(),
        ranges_within(ranges, sv.boundaries.len() as int),
    ensures
        ({
            let out = predicted_ranges(p, sv, ranges, with_scores);
            &&& out.wf()
            &&& out.chars == sv.chars
            &&& out.types == sv.types
            &&& out.boundaries.len() == sv.boundaries.len()
            &&& forall|b: int|
                0 <= b < sv.boundaries.len() ==> #[trigger] out.boundaries[b] == if covered(ranges, b) {
                    crate::sentence::decide(wrap_i32(p.score(sv.chars, sv.types, b)))
                } else {
                    sv.boundaries[b]
                }
            &&& (!with_scores || !any_nonempty(ranges)) ==> out.scores == sv.scores
            &&& (with_scores && any_nonempty(ranges)) ==> {
                &&& out.scores is Some
                &&& out.scores->0.len() == sv.boundaries.len()
                &&& forall|b: int|
                    0 <= b < sv.boundaries.len() ==> #[trigger] out.scores->0[b] == if covered(ranges, b) {
                        wrap_i32(p.score(sv.chars, sv.types, b))
                    } else {
                        match sv.scores {
                            Some(ys) => ys[b],
                            None => 0i32,
                        }
                    }
            }
        }),
    decreases ranges.len(),
{
    if ranges.len() > 0 {
        let rest = ranges.drop_last();
        let r = ranges.last();
        assert forall|q: int| 0 <= q < rest.len() implies 0 <= (#[trigger] rest[q]).0 <= rest[q].1
            <= sv.boundaries.len() by {
            assert(rest[q] == ranges[q]);
        }
        lemma_predicted_ranges(p, sv, rest, with_scores);
        let mid = predicted_ranges(p, sv, rest, with_scores);
        let out = predicted_ranges(p, sv, ranges, with_scores);
        assert(ranges[ranges.len() - 1] == r);
        assert forall|b: int| 0 <= b < sv.boundaries.len() implies covered(ranges, b) == (covered(rest, b) || r.0 <= b < r.1) by {
            if covered(rest, b) {
                let q = choose|q: int| 0 <= q < rest.len() && (#[trigger] rest[q]).0 <= b < rest[q].1;
                assert(ranges[q] == rest[q]);
            }
            if covered(ranges, b) && !(r.0 <= b < r.1) {
                let q = choose|q: int| 0 <= q < ranges.len() && (#[trigger] ranges[q]).0 <= b < ranges[q].1;
                assert(q < rest.len());
                assert(rest[q] == ranges[q]);
            }
            if r.0 <= b < r.1 {
                assert(ranges[ranges.len() - 1].0 <= b < ranges[ranges.len() - 1].1);
            }
        }
        assert(any_nonempty(ranges) == (any_nonempty(rest) || r.0 < r.1)) by {
            if any_nonempty(rest) {
                let q = choose|q: int| 0 <= q < rest.len() && (#[trigger] rest[q]).0 < rest[q].1;
                assert(ranges[q] == rest[q]);
            }
            if any_nonempty(ranges) && !(r.0 < r.1) {
                let q = choose|q: int| 0 <= q < ranges.len() && (#[trigger] ranges[q]).0 < ranges[q].1;
                assert(q < rest.len());
                assert(rest[q] == ranges[q]);
            }
            if r.0 < r.1 {
                assert(ranges[ranges.len() - 1].0 < ranges[ranges.len() - 1].1);
            }
        }
        if r.0 == r.1 {
            assert(out == mid);
            assert forall|b: int| 0 <= b < sv.boundaries.len() implies covered(ranges, b) == covered(rest, b) by {}
        } else {
            assert(out.boundaries.len() == sv.boundaries.len());
            if with_scores {
                assert(out.scores->0.len() == sv.boundaries.len());
            }
        }
    }
}

/// Predicting twice gives what predicting once gives: no score depends on
/// the state a boundary had.
pub proof fn lemma_predict_idempotent(p: Predictor, sv: SentenceView, with_scores: bool)
    requires
        sv.wf(),
    ensures
        p.predicted(p.predicted(sv, with_scores), with_scores) == p.predicted(sv, with_scores),
{
    let once = p.predicted(sv, with_scores);
    let twice = p.predicted(once, with_scores);
    if sv.boundaries.len() > 0 {
        let n = sv.boundaries.len() as int;
        let all = seq![(0int, n)];
        let both = seq![(0int, n), (0int, n)];
        assert(both.drop_last() =~= all);
        assert(all.drop_last() =~= Seq::<(int, int)>::empty());
        assert(ranges_within(both, n));
        lemma_predicted_ranges(p, sv, all, with_scores);
        lemma_predicted_ranges(p, sv, both, with_scores);
        assert forall|b: int| 0 <= b < n implies covered(both, b) && covered(all, b) by {
            assert(both[0].0 <= b < both[0].1);
            assert(all[0].0 <= b < all[0].1);
        }
        reveal_with_fuel(predicted_ranges, 3);
        assert(all.last() == (0int, n));
        assert(both.last() == (0int, n));
        assert(predicted_ranges(p, sv, all, with_scores) == once);
        assert(predicted_ranges(p, sv, both, with_scores) == p.predicted_range(once, 0, n, with_scores));
        assert(twice.boundaries =~= once.boundaries);
        if with_scores {
            assert(twice.scores->0 =~= once.scores->0);
        }
    }
}

/// Predicting a range, then the ranges before and after it, gives what
/// predicting the whole sentence gives.
pub proof fn lemma_range_consistency(
    p: Predictor,
    sv: SentenceView,
    start: int,
    end: int,
    with_scores: bool,
)
    requires
        sv.wf(),
        0 <= start <= end <= sv.boundaries.len(),
    ensures
        p.predicted_range(
            p.predicted_range(p.predicted_range(sv, start, end, with_scores), 0, start, with_scores),
            end,
            sv.boundaries.len() as int,
            with_scores,
        ) == p.predicted(sv, with_scores),
{
    let n = sv.boundaries.len() as int;
    let rs = seq![(start, end), (0int, start), (end, n)];
    assert(rs.drop_last() =~= seq![(start, end), (0int, start)]);
    assert(rs.drop_last().drop_last() =~= seq![(start, end)]);
    assert(rs.drop_last().drop_last().drop_last() =~= Seq::<(int, int)>::empty());
    reveal_with_fuel(predicted_ranges, 4);
    assert(predicted_ranges(p, sv, rs, with_scores) == p.predicted_range(
        p.predicted_range(p.predicted_range(sv, start, end, with_scores), 0, start, with_scores),
        end,
        n,
        with_scores,
    ));
    assert forall|b: int| 0 <= b < n implies covered(rs, b) by {
        if b < start {
            assert(rs[1].0 <= b < rs[1].1);
        } else if b < end {
            assert(rs[0].0 <= b < rs[0].1);
        } else {
            assert(rs[2].0 <= b < rs[2].1);
        }
    }
    lemma_ranges_cover_all(p, sv, rs, with_scores);
}

/// Predicting ranges that together cover every boundary, in any order,
/// gives what predicting the whole sentence gives.
pub proof fn lemma_ranges_cover_all(p: Predictor, sv: SentenceView, ranges: Seq<(int, int)>, with_scores: bool)
    requires
        sv.wf(),
        ranges_within(ranges, sv.boundaries.len() as int),
        forall|b: int| 0 <= b < sv.boundaries.len() ==> covered(ranges, b),
    ensures
        predicted_ranges(p, sv, ranges, with_scores) == p.predicted(sv, with_scores),
{
    let n = sv.boundaries.len() as int;
    let out = predicted_ranges(p, sv, ranges, with_scores);
    lemma_predicted_ranges(p, sv, ranges, with_scores);
    if n == 0 {
        assert(!any_nonempty(ranges)) by {
            if any_nonempty(ranges) {
                let q = choose|q: int| 0 <= q < ranges.len() && (#[trigger] ranges[q]).0 < ranges[q].1;
            }
        }
        assert(out.boundaries =~= sv.boundaries);
        assert(out == sv);
    } else {
        assert(covered(ranges, 0));
        let q0 = choose|q: int| 0 <= q < ranges.len() && (#[trigger] ranges[q]).0 <= 0 < ranges[q].1;
        assert(any_nonempty(ranges));
        let whole = seq![(0int, n)];
        assert(whole.drop_last() =~= Seq::<(int, int)>::empty());
        assert(whole.last() == (0int, n));
        reveal_with_fuel(predicted_ranges, 2);
        assert(ranges_within(whole, n));
        lemma_predicted_ranges(p, sv, whole, with_scores);
        assert(predicted_ranges(p, sv, whole, with_scores) == p.predicted(sv, with_scores));
        assert forall|b: int| 0 <= b < n implies covered(whole, b) by {
            assert(whole[0].0 <= b < whole[0].1);
        }
        assert(out.boundaries =~= p.predicted(sv, with_scores).boundaries);
        if with_scores {
            assert(out.scores->0 =~= p.predicted(sv, with_scores).scores->0);
        }
    }
}

/// A boundary whose accumulated score is exactly zero is a word boundary.
pub proof fn lemma_zero_score_is_boundary(p: Predictor, sv: SentenceView, b: int, with_scores: bool)
    requires
        sv.wf(),
        0 <= b < sv.boundaries.len(),
        wrap_i32(p.score(sv.chars, sv.types, b)) == 0,
    ensures
        p.predicted(sv, with_scores).boundaries[b] == BoundaryType::WordBoundary,
{
}

/// Range prediction leaves every boundary outside the range, and its score,
/// as it was.
pub proof fn lemma_partial_masks(
    p: Predictor,
    sv: SentenceView,
    start: int,
    end: int,
    b: int,
    with_scores: bool,
)
    requires
        sv.wf(),
        0 <= start <= end <= sv.boundaries.len(),
        0 <= b < sv.boundaries.len(),
        !(start <= b < end),
    ensures
        p.predicted_range(sv, start, end, with_scores).boundaries[b] == sv.boundaries[b],
        sv.scores matches Some(ys) ==> p.predicted_range(sv, start, end, with_scores).scores->0[b]
            == ys[b],
{
}

} // verus!
