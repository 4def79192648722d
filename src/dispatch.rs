//! Splitting a sentence's boundaries into chunks that can be predicted
//! separately, and putting the results back together.
use crate::laws::{covered, lemma_ranges_cover_all, predicted_ranges, ranges_within};
use crate::predictor::Predictor;
use crate::sentence::SentenceView;
use vstd::prelude::*;

verus! {

/// `rs` splits boundaries `0..n` into consecutive chunks of `size`, the
/// last one cut at `n`.
#[verifier::opaque]
pub open spec fn is_chunking(rs: Seq<(int, int)>, n: int, size: int) -> bool {
    &&& n == 0 ==> rs.len() == 0
    &&& n > 0 ==> rs.len() > 0 && rs[0].0 == 0 && rs.last().1 == n
    &&& forall|i: int| 0 <= i < rs.len() - 1 ==> (#[trigger] rs[i]).1 == rs[i + 1].0
    &&& forall|i: int|
        0 <= i < rs.len() ==> (#[trigger] rs[i]).0 < rs[i].1 && rs[i].1 == if rs[i].0 + size < n {
            rs[i].0 + size
        } else {
            n
        }
}

pub open spec fn ranges_of(rs: Seq<(usize, usize)>) -> Seq<(int, int)> {
    rs.map_values(|r: (usize, usize)| (r.0 as int, r.1 as int))
}

/// The chunks of `size` boundaries that cover boundaries `0..n`.
pub fn chunk_ranges(n: usize, size: usize) -> (r: Vec<(usize, usize)>)
    requires
        size > 0,
    ensures
        is_chunking(ranges_of(r@), n as int, size as int),
{
    let mut r: Vec<(usize, usize)> = Vec::new();
    let mut s: usize = 0;
    while s < n
        invariant
            s <= n,
            size > 0,
            r.len() == 0 ==> s == 0,
            r.len() > 0 ==> r@[0].0 == 0 && r@.last().1 == s,
            forall|i: int| 0 <= i < r.len() - 1 ==> (#[trigger] r@[i]).1 == r@[i + 1].0,
            forall|i: int|
                0 <= i < r.len() ==> (#[trigger] r@[i]).0 < r@[i].1 && r@[i].1 == if r@[i].0 + size < n {
                    r@[i].0 + size
                } else {
                    n as int
                },
        decreases n - s,
    {
        let e = if n - s > size {
            s + size
        } else {
            n
        };
        r.push((s, e));
        s = e;
    }
    let ghost v = ranges_of(r@);
    assert forall|i: int| 0 <= i < r.len() implies #[trigger] v[i] == (r@[i].0 as int, r@[i].1 as int) by {}
    proof {
        reveal(is_chunking);
    }
    r
}

/// Chunks cover every boundary and stay within the sentence.
pub proof fn lemma_chunking_covers(rs: Seq<(int, int)>, n: int, size: int)
    requires
        is_chunking(rs, n, size),
        n >= 0,
    ensures
        ranges_within(rs, n),
        forall|b: int| 0 <= b < n ==> covered(rs, b),
{
    lemma_chunk_prefix(rs, n, size, rs.len() as int);
    reveal(is_chunking);
    if n > 0 {
        assert(rs[rs.len() - 1].1 == n);
    }
}

proof fn lemma_chunk_prefix(rs: Seq<(int, int)>, n: int, size: int, k: int)
    requires
        is_chunking(rs, n, size),
        n >= 0,
        0 <= k <= rs.len(),
    ensures
        forall|i: int| 0 <= i < k ==> 0 <= (#[trigger] rs[i]).0 && rs[i].1 <= n,
        k > 0 ==> forall|b: int| 0 <= b < rs[k - 1].1 ==> covered(rs, b),
        k == rs.len() ==> ranges_within(rs, n),
    decreases k,
{
    reveal(is_chunking);
    if k > 0 {
        lemma_chunk_prefix(rs, n, size, k - 1);
        if k > 1 {
            assert(rs[k - 2].1 == rs[k - 1].0);
        }
        assert forall|b: int| 0 <= b < rs[k - 1].1 implies covered(rs, b) by {
            if b >= rs[k - 1].0 {
                assert(rs[k - 1].0 <= b < rs[k - 1].1);
            }
        }
    }
}

/// `i` appears in `order`.
pub open spec fn listed(order: Seq<int>, i: int) -> bool {
    exists|j: int| 0 <= j < order.len() && #[trigger] order[j] == i
}

/// Predicting the chunks separately and putting each result back, in
/// whatever order they come back, gives what predicting the whole sentence
/// gives. `order` lists the chunks as they come back, each at least once.
pub proof fn lemma_chunks_in_any_order(
    p: Predictor,
    sv: SentenceView,
    chunks: Seq<(int, int)>,
    size: int,
    order: Seq<int>,
    with_scores: bool,
)
    requires
        sv.wf(),
        is_chunking(chunks, sv.boundaries.len() as int, size),
        forall|j: int| 0 <= j < order.len() ==> 0 <= #[trigger] order[j] < chunks.len(),
        forall|i: int| 0 <= i < chunks.len() ==> #[trigger] listed(order, i),
    ensures
        predicted_ranges(p, sv, Seq::new(order.len(), |j: int| chunks[order[j]]), with_scores) == p.predicted(
            sv,
            with_scores,
        ),
{
    let n = sv.boundaries.len() as int;
    let rs = Seq::new(order.len(), |j: int| chunks[order[j]]);
    lemma_chunking_covers(chunks, n, size);
    assert forall|q: int| 0 <= q < rs.len() implies 0 <= (#[trigger] rs[q]).0 <= rs[q].1 <= n by {
        assert(rs[q] == chunks[order[q]]);
    }
    assert forall|b: int| 0 <= b < n implies covered(rs, b) by {
        assert(covered(chunks, b));
        let i = choose|i: int| 0 <= i < chunks.len() && (#[trigger] chunks[i]).0 <= b < chunks[i].1;
        assert(listed(order, i));
        let j = choose|j: int| 0 <= j < order.len() && #[trigger] order[j] == i;
        assert(rs[j] == chunks[i]);
    }
    lemma_ranges_cover_all(p, sv, rs, with_scores);
}

} // verus!
