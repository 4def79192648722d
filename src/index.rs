//! A hash index over a vocabulary: finds the entry that holds a pattern
//! without scanning the whole vocabulary.
use crate::vocab::{lemma_lookup, lemma_lookup_last, lookup, seqs_of, slice_equals, Symbol};
use std::collections::HashMap;
use vstd::prelude::*;

verus! {

/// Starting value of the pattern hash.
pub const HASH_SEED: u64 = 0xcbf2_9ce4_8422_2325;

/// Multiplier of the pattern hash.
pub const HASH_FACTOR: u64 = 0x0000_0100_0000_01b3;

/// Hash of a pattern: multiply and add each symbol's code, with wrapping.
pub open spec fn hash_of<S: Symbol>(p: Seq<S>) -> u64
    decreases p.len(),
{
    if p.len() == 0 {
        HASH_SEED
    } else {
        vstd::wrapping::u64_specs::wrapping_add(
            vstd::wrapping::u64_specs::wrapping_mul(hash_of(p.drop_last()), HASH_FACTOR),
            p.last().code(),
        )
    }
}

/// Hash of `t[from..to]`.
pub fn hash_slice<S: Symbol>(t: &Vec<S>, from: usize, to: usize) -> (r: u64)
    requires
        from <= to <= t.len(),
    ensures
        r == hash_of(t@.subrange(from as int, to as int)),
{
    let mut h: u64 = HASH_SEED;
    let mut i: usize = from;
    assert(t@.subrange(from as int, from as int) =~= Seq::<S>::empty());
    while i < to
        invariant
            from <= i <= to <= t.len(),
            h == hash_of(t@.subrange(from as int, i as int)),
        decreases to - i,
    {
        let c = t[i].code_of();
        assert(t@.subrange(from as int, i + 1).drop_last() =~= t@.subrange(from as int, i as int));
        h = h.wrapping_mul(HASH_FACTOR).wrapping_add(c);
        i = i + 1;
    }
    h
}

/// Entries of a bucket: increasing indices of the first `n` entries, all with hash `h`.
pub open spec fn bucket_ok<S: Symbol>(b: Seq<usize>, pats: Seq<Seq<S>>, h: u64, n: int) -> bool {
    &&& forall|i: int, j: int| 0 <= i < j < b.len() ==> #[trigger] b[i] < #[trigger] b[j]
    &&& forall|i: int| 0 <= i < b.len() ==> #[trigger] b[i] < n && hash_of(pats[b[i] as int]) == h
}

/// `m` indexes the first `n` entries of `pats` by hash.
pub open spec fn indexes_upto<S: Symbol>(m: Map<u64, Vec<usize>>, pats: Seq<Seq<S>>, n: int) -> bool {
    &&& forall|h: u64| #[trigger] m.contains_key(h) ==> bucket_ok(m[h]@, pats, h, n)
    &&& forall|k: int|
        0 <= k < n ==> m.contains_key(#[trigger] hash_of(pats[k])) && m[hash_of(pats[k])]@.contains(
            k as usize,
        )
}

/// The entries of a vocabulary, grouped by the hash of their pattern.
pub struct VocabIndex {
    buckets: HashMap<u64, Vec<usize>>,
}

impl VocabIndex {
    /// This index lists every entry of `pats` under its hash.
    pub closed spec fn indexes<S: Symbol>(&self, pats: Seq<Seq<S>>) -> bool {
        indexes_upto(self.buckets@, pats, pats.len() as int)
    }

    /// Indexes every entry of `pats`.
    pub fn build<S: Symbol>(pats: &Vec<Vec<S>>) -> (r: VocabIndex)
        ensures
            r.indexes(seqs_of(pats@)),
    {
        let ghost pv = seqs_of(pats@);
        let mut buckets: HashMap<u64, Vec<usize>> = HashMap::new();
        let mut k: usize = 0;
        while k < pats.len()
            invariant
                k <= pats.len(),
                pv == seqs_of(pats@),
                indexes_upto(buckets@, pv, k as int),
            decreases pats.len() - k,
        {
            let h = hash_slice(&pats[k], 0, pats[k].len());
            assert(pats@[k as int]@.subrange(0, pats[k as int].len() as int) =~= pv[k as int]);
            let mut b: Vec<usize> = match buckets.get(&h) {
                Some(v) => v.clone(),
                None => Vec::new(),
            };
            let ghost old_m = buckets@;
            let ghost old_b = b@;
            assert(old_m.contains_key(h) ==> old_b == old_m[h]@);
            assert(!old_m.contains_key(h) ==> old_b.len() == 0);
            b.push(k);
            buckets.insert(h, b);
            assert forall|g: u64| #[trigger] buckets@.contains_key(g) implies bucket_ok(
                buckets@[g]@,
                pv,
                g,
                k + 1,
            ) by {
                if g == h {
                    let nb = old_b.push(k);
                    assert(buckets@[g]@ == nb);
                    assert forall|i: int| 0 <= i < old_b.len() implies #[trigger] old_b[i] < k
                        && hash_of(pv[old_b[i] as int]) == h by {
                        assert(old_m.contains_key(h));
                    }
                    assert forall|i: int, j: int| 0 <= i < j < nb.len() implies #[trigger] nb[i]
                        < #[trigger] nb[j] by {
                        assert(old_m.contains_key(h));
                        if j == old_b.len() {
                            assert(nb[i] == old_b[i]);
                        } else {
                            assert(nb[i] == old_b[i] && nb[j] == old_b[j]);
                        }
                    }
                    assert forall|i: int| 0 <= i < nb.len() implies #[trigger] nb[i] < k + 1
                        && hash_of(pv[nb[i] as int]) == h by {
                        if i < old_b.len() {
                            assert(nb[i] == old_b[i]);
                        }
                    }
                } else {
                    assert(old_m.contains_key(g));
                }
            }
            assert forall|q: int| 0 <= q < k + 1 implies buckets@.contains_key(
                #[trigger] hash_of(pv[q]),
            ) && buckets@[hash_of(pv[q])]@.contains(q as usize) by {
                if q == k {
                    assert(buckets@[h]@[old_b.len() as int] == k);
                } else if hash_of(pv[q]) == h {
                    let j = choose|j: int| 0 <= j < old_m[h]@.len() && old_m[h]@[j] == q as usize;
                    assert(buckets@[h]@[j] == q as usize);
                }
            }
            k = k + 1;
        }
        VocabIndex { buckets }
    }

    /// Finds the entry of `pats` that stands for `t[from..to]`.
    pub fn find<S: Symbol>(&self, pats: &Vec<Vec<S>>, t: &Vec<S>, from: usize, to: usize) -> (r:
        Option<usize>)
        requires
            self.indexes(seqs_of(pats@)),
            from <= to <= t.len(),
        ensures
            match r {
                Some(k) => k == lookup(seqs_of(pats@), t@.subrange(from as int, to as int)),
                None => lookup(seqs_of(pats@), t@.subrange(from as int, to as int)) < 0,
            },
    {
        let ghost pv = seqs_of(pats@);
        let ghost q = t@.subrange(from as int, to as int);
        let h = hash_slice(t, from, to);
        proof {
            lemma_lookup(pv, q);
        }
        let ghost last = lookup(pv, q);
        match self.buckets.get(&h) {
            None => {
                proof {
                    if last >= 0 {
                        assert(self.buckets@.contains_key(hash_of(pv[last])));
                    }
                }
                None
            },
            Some(b) => {
                proof {
                    assert(bucket_ok(b@, pv, h, pv.len() as int));
                    if last >= 0 {
                        assert(self.buckets@.contains_key(hash_of(pv[last])));
                        assert(b@.contains(last as usize));
                    }
                }
                scan_bucket(b, pats, t, from, to)
            },
        }
    }
}

/// Finds, among the entries a bucket lists, the last that holds `t[from..to]`.
fn scan_bucket<S: Symbol>(b: &Vec<usize>, pats: &Vec<Vec<S>>, t: &Vec<S>, from: usize, to: usize) -> (r:
    Option<usize>)
    requires
        from <= to <= t.len(),
        forall|i: int, j: int| 0 <= i < j < b.len() ==> #[trigger] b@[i] < #[trigger] b@[j],
        forall|i: int| 0 <= i < b.len() ==> #[trigger] b@[i] < pats.len(),
        lookup(seqs_of(pats@), t@.subrange(from as int, to as int)) >= 0 ==> b@.contains(
            lookup(seqs_of(pats@), t@.subrange(from as int, to as int)) as usize,
        ),
    ensures
        match r {
            Some(k) => k == lookup(seqs_of(pats@), t@.subrange(from as int, to as int)),
            None => lookup(seqs_of(pats@), t@.subrange(from as int, to as int)) < 0,
        },
{
    let ghost pv = seqs_of(pats@);
    let ghost q = t@.subrange(from as int, to as int);
    let ghost bs = b@;
    let ghost last = lookup(pv, q);
    proof {
        lemma_lookup(pv, q);
        assert(pv.len() == pats.len());
    }
    let ghost pos: int = if last >= 0 {
        choose|i: int| 0 <= i < bs.len() && bs[i] == last as usize
    } else {
        -1
    };
    assert(last >= 0 ==> 0 <= pos < bs.len() && bs[pos] as int == last);
    let mut j: usize = b.len();
    while j > 0
        invariant
            j <= b.len(),
            bs == b@,
            pv == seqs_of(pats@),
            pv.len() == pats.len(),
            q == t@.subrange(from as int, to as int),
            from <= to <= t.len(),
            last == lookup(pv, q),
            last >= 0 ==> pv[last] == q,
            last >= 0 ==> 0 <= pos < bs.len() && bs[pos] as int == last,
            forall|i: int, i2: int| 0 <= i < i2 < bs.len() ==> #[trigger] bs[i] < #[trigger] bs[i2],
            forall|i: int| 0 <= i < bs.len() ==> #[trigger] bs[i] < pats.len(),
            forall|i: int| j <= i < bs.len() ==> pv[#[trigger] bs[i] as int] != q,
        decreases j,
    {
        let k = b[j - 1];
        if slice_equals(t, from, to, &pats[k]) {
            proof {
                assert(pv[k as int] == q);
                lemma_lookup_last(pv, q, k as int);
                if last > k {
                    if pos < j - 1 {
                        assert(bs[pos] < bs[j - 1]);
                    } else if pos >= j {
                        assert(pv[bs[pos] as int] != q);
                    }
                }
            }
            return Some(k);
        }
        j = j - 1;
    }
    proof {
        if last >= 0 {
            assert(pv[bs[pos] as int] != q);
        }
    }
    None
}

} // verus!
