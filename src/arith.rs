//! Two's-complement score accumulation.
//!
//! Scores are added with wrapping `i32` arithmetic, so every accumulation is
//! total. Contracts speak of the mathematical sum and of its image in `i32`.
use vstd::arithmetic::div_mod::*;
use vstd::prelude::*;

verus! {

/// Number of distinct `i32` values.
pub open spec fn modulus() -> int {
    0x1_0000_0000
}

/// The `i32` that an exact integer sum lands on under wrapping arithmetic.
pub open spec fn wrap_i32(x: int) -> i32 {
    (((x + 0x8000_0000) % modulus()) - 0x8000_0000) as i32
}

/// `wrap_i32` is the identity on values that fit.
pub proof fn lemma_wrap_small(x: int)
    requires
        i32::MIN <= x <= i32::MAX,
    ensures
        wrap_i32(x) == x,
{
    lemma_small_mod((x + 0x8000_0000) as nat, modulus() as nat);
}

/// Integers that differ by a multiple of the modulus wrap to the same value.
pub proof fn lemma_wrap_congruent(x: int, y: int, k: int)
    requires
        x == y + k * modulus(),
    ensures
        wrap_i32(x) == wrap_i32(y),
{
    lemma_mod_multiples_vanish(k, y + 0x8000_0000, modulus());
    assert(x + 0x8000_0000 == modulus() * k + (y + 0x8000_0000)) by (nonlinear_arith)
        requires
            x == y + k * modulus(),
    ;
}

/// The wrapped value differs from its argument by a multiple of the modulus.
pub proof fn lemma_wrap_offset(x: int) -> (k: int)
    ensures
        wrap_i32(x) == x + k * modulus(),
        i32::MIN <= x + k * modulus() <= i32::MAX,
{
    let m = modulus();
    let t = x + 0x8000_0000;
    lemma_fundamental_div_mod(t, m);
    lemma_mod_bound(t, m);
    let k = -(t / m);
    assert(t == m * (t / m) + t % m);
    assert(t % m - 0x8000_0000 == x + k * m) by (nonlinear_arith)
        requires
            t == m * (t / m) + t % m,
            t == x + 0x8000_0000,
            k == -(t / m),
    ;
    k
}

/// Wrapping once more after adding changes nothing.
pub proof fn lemma_wrap_absorb(x: int, y: int)
    ensures
        wrap_i32(wrap_i32(x) + y) == wrap_i32(x + y),
{
    let k = lemma_wrap_offset(x);
    lemma_wrap_congruent(wrap_i32(x) + y, x + y, k);
}

/// `i32::wrapping_add` computes `wrap_i32` of the exact sum.
pub proof fn lemma_wrapping_add(a: i32, b: i32)
    ensures
        a.wrapping_add(b) == wrap_i32(a + b),
{
    let s = a + b;
    if s > i32::MAX {
        lemma_wrap_congruent(s, s - modulus(), 1);
        lemma_wrap_small(s - modulus());
    } else if s < i32::MIN {
        lemma_wrap_congruent(s, s + modulus(), -1);
        lemma_wrap_small(s + modulus());
    } else {
        lemma_wrap_small(s);
    }
}

/// Adds `w` to an accumulator that holds `wrap_i32(total)`.
pub(crate) fn add_score(acc: i32, w: i32, Ghost(total): Ghost<int>) -> (r: i32)
    requires
        acc == wrap_i32(total),
    ensures
        r == wrap_i32(total + w),
{
    proof {
        lemma_wrapping_add(acc, w);
        lemma_wrap_absorb(total, w as int);
    }
    acc.wrapping_add(w)
}

} // verus!

verus! {

/// Weight that `w` puts on slot `t` (zero past its end).
pub open spec fn weight_at(w: Seq<i32>, t: int) -> int {
    if 0 <= t < w.len() {
        w[t] as int
    } else {
        0
    }
}

/// Adds `w` slot by slot into the leading slots of `acc`, which holds the
/// wrapped images of `totals`.
pub(crate) fn add_into(acc: &mut Vec<i32>, w: &Vec<i32>, Ghost(totals): Ghost<Seq<int>>)
    requires
        old(acc).len() == totals.len(),
        forall|t: int| 0 <= t < totals.len() ==> old(acc)@[t] == wrap_i32(#[trigger] totals[t]),
    ensures
        final(acc).len() == old(acc).len(),
        forall|t: int|
            0 <= t < totals.len() ==> final(acc)@[t] == wrap_i32(
                #[trigger] totals[t] + weight_at(w@, t),
            ),
{
    let n = if acc.len() < w.len() {
        acc.len()
    } else {
        w.len()
    };
    let mut j: usize = 0;
    while j < n
        invariant
            j <= n,
            n <= acc.len(),
            n <= w.len(),
            acc.len() == totals.len(),
            forall|t: int| 0 <= t < j ==> acc@[t] == wrap_i32(#[trigger] totals[t] + weight_at(w@, t)),
            forall|t: int| j <= t < totals.len() ==> acc@[t] == wrap_i32(#[trigger] totals[t]),
        decreases n - j,
    {
        let nv = add_score(acc[j], w[j], Ghost(totals[j as int]));
        acc.set(j, nv);
        j = j + 1;
    }
    assert forall|t: int| 0 <= t < totals.len() implies acc@[t] == wrap_i32(
        #[trigger] totals[t] + weight_at(w@, t),
    ) by {
        if t >= n {
            assert(weight_at(w@, t) == 0);
        }
    }
}

} // verus!

verus! {

/// Wrapping respects addition: sums of parts that wrap alike wrap alike.
pub proof fn lemma_wrap_add_congruent(a: int, a2: int, c: int, c2: int)
    requires
        wrap_i32(a) == wrap_i32(a2),
        wrap_i32(c) == wrap_i32(c2),
    ensures
        wrap_i32(a + c) == wrap_i32(a2 + c2),
{
    lemma_wrap_absorb(a, c);
    lemma_wrap_absorb(a2, c);
    lemma_wrap_absorb(c, a2);
    lemma_wrap_absorb(c2, a2);
    assert(a2 + c == c + a2);
    assert(c2 + a2 == a2 + c2);
}

/// Wrapping twice is wrapping once.
pub proof fn lemma_wrap_idempotent(x: int)
    ensures
        wrap_i32(wrap_i32(x) as int) == wrap_i32(x),
{
    lemma_wrap_small(wrap_i32(x) as int);
}

} // verus!
