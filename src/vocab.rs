//! Vocabularies of patterns and exact lookup in them.
use vstd::prelude::*;

verus! {

/// A symbol that patterns are made of: a character, or a character-type tag.
pub trait Symbol: Copy + Sized {
    /// A number for the symbol, which hashing reads.
    spec fn code(&self) -> u64;

    fn code_of(&self) -> (r: u64)
        ensures
            r == self.code(),
    ;

    fn same(&self, other: &Self) -> (r: bool)
        ensures
            r == (*self == *other),
    ;
}

impl Symbol for char {
    open spec fn code(&self) -> u64 {
        (*self as u32) as u64
    }

    fn code_of(&self) -> (r: u64) {
        (*self as u32) as u64
    }

    fn same(&self, other: &char) -> (r: bool) {
        *self == *other
    }
}

impl Symbol for u8 {
    open spec fn code(&self) -> u64 {
        *self as u64
    }

    fn code_of(&self) -> (r: u64) {
        *self as u64
    }

    fn same(&self, other: &u8) -> (r: bool) {
        *self == *other
    }
}

/// The contents of each vector.
pub open spec fn seqs_of<T>(vs: Seq<Vec<T>>) -> Seq<Seq<T>> {
    vs.map_values(|v: Vec<T>| v@)
}

/// Index of the last of the first `n` entries equal to `q`, or -1.
///
/// Where a vocabulary holds a pattern twice, the later entry is the one used.
pub open spec fn lookup_upto<S>(pats: Seq<Seq<S>>, q: Seq<S>, n: nat) -> int
    decreases n,
{
    if n == 0 {
        -1
    } else if pats[n - 1] == q {
        n - 1
    } else {
        lookup_upto(pats, q, (n - 1) as nat)
    }
}

/// Index of the entry that stands for pattern `q`, or -1 when there is none.
pub open spec fn lookup<S>(pats: Seq<Seq<S>>, q: Seq<S>) -> int {
    lookup_upto(pats, q, pats.len())
}

/// The last `l` symbols of `p`.
pub open spec fn suffix<S>(p: Seq<S>, l: int) -> Seq<S> {
    p.subrange(p.len() - l, p.len() as int)
}

/// The `l` symbols of `t` that end at position `e`.
pub open spec fn ending_at<S>(t: Seq<S>, e: int, l: int) -> Seq<S> {
    t.subrange(e - l, e)
}

pub proof fn lemma_lookup_upto<S>(pats: Seq<Seq<S>>, q: Seq<S>, n: nat)
    requires
        n <= pats.len(),
    ensures
        -1 <= lookup_upto(pats, q, n) < n,
        lookup_upto(pats, q, n) >= 0 ==> pats[lookup_upto(pats, q, n)] == q,
        lookup_upto(pats, q, n) < 0 ==> forall|k: int| 0 <= k < n ==> pats[k] != q,
    decreases n,
{
    if n > 0 {
        lemma_lookup_upto(pats, q, (n - 1) as nat);
    }
}

/// `lookup` finds the last entry that holds `q`.
pub proof fn lemma_lookup_last<S>(pats: Seq<Seq<S>>, q: Seq<S>, k: int)
    requires
        0 <= k < pats.len(),
        pats[k] == q,
    ensures
        lookup(pats, q) >= k,
{
    lemma_lookup_upto_last(pats, q, k, pats.len());
}

proof fn lemma_lookup_upto_last<S>(pats: Seq<Seq<S>>, q: Seq<S>, k: int, n: nat)
    requires
        0 <= k < n <= pats.len(),
        pats[k] == q,
    ensures
        lookup_upto(pats, q, n) >= k,
    decreases n,
{
    if n - 1 > k {
        lemma_lookup_upto_last(pats, q, k, (n - 1) as nat);
    }
}

/// What `lookup` returns: an index holding `q`, or -1 when no entry holds it.
pub proof fn lemma_lookup<S>(pats: Seq<Seq<S>>, q: Seq<S>)
    ensures
        -1 <= lookup(pats, q) < pats.len(),
        lookup(pats, q) >= 0 ==> pats[lookup(pats, q)] == q,
        lookup(pats, q) < 0 <==> forall|k: int| 0 <= k < pats.len() ==> pats[k] != q,
{
    lemma_lookup_upto(pats, q, pats.len());
}

/// Whether `t[from..to]` equals `p`.
pub fn slice_equals<S: Symbol>(t: &Vec<S>, from: usize, to: usize, p: &Vec<S>) -> (r: bool)
    requires
        from <= to <= t.len(),
    ensures
        r == (t@.subrange(from as int, to as int) == p@),
{
    if to - from != p.len() {
        return false;
    }
    let mut i: usize = 0;
    while i < p.len()
        invariant
            from <= to <= t.len(),
            to - from == p.len(),
            i <= p.len(),
            forall|k: int| 0 <= k < i ==> t@[from + k] == p@[k],
        decreases p.len() - i,
    {
        if !t[from + i].same(&p[i]) {
            assert(t@.subrange(from as int, to as int)[i as int] != p@[i as int]);
            return false;
        }
        i = i + 1;
    }
    assert(t@.subrange(from as int, to as int) =~= p@);
    true
}

} // verus!
