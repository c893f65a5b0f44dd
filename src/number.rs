//! Primality, the ordered lists of values that a sieve keeps, and the
//! arithmetic facts that the sieves rest on.

use vstd::prelude::*;
use vstd::arithmetic::div_mod::{lemma_fundamental_div_mod, lemma_mod_multiples_basic};

verus! {

/// `n` is prime: at least 2, and divisible by no integer strictly between 1 and `n`.
pub open spec fn is_prime(n: int) -> bool {
    n >= 2 && forall|d: int| 1 < d < n ==> #[trigger] (n % d) != 0
}

/// The values of `[lo, hi]` that satisfy `keep`, in increasing order.
pub open spec fn kept_in(lo: int, hi: int, keep: spec_fn(int) -> bool) -> Seq<u64>
    decreases hi - lo + 1,
{
    if hi < lo {
        Seq::empty()
    } else if keep(hi) {
        kept_in(lo, hi - 1, keep).push(hi as u64)
    } else {
        kept_in(lo, hi - 1, keep)
    }
}

/// The primes of `[lo, hi]`, in increasing order.
pub open spec fn primes_in(lo: int, hi: int) -> Seq<u64> {
    kept_in(lo, hi, |n: int| is_prime(n))
}

/// Two filters that agree on `[lo, hi]` keep the same values there.
pub proof fn lemma_kept_in_agree(lo: int, hi: int, a: spec_fn(int) -> bool, b: spec_fn(int) -> bool)
    requires
        forall|n: int| lo <= n <= hi ==> #[trigger] a(n) == b(n),
    ensures
        kept_in(lo, hi, a) == kept_in(lo, hi, b),
    decreases hi - lo + 1,
{
    if hi >= lo {
        lemma_kept_in_agree(lo, hi - 1, a, b);
    }
}

/// Keeping over `[lo, hi]` is keeping over `[lo, mid]` followed by `[mid + 1, hi]`.
pub proof fn lemma_kept_in_split(lo: int, mid: int, hi: int, keep: spec_fn(int) -> bool)
    requires
        lo - 1 <= mid <= hi,
    ensures
        kept_in(lo, hi, keep) == kept_in(lo, mid, keep) + kept_in(mid + 1, hi, keep),
    decreases hi - mid,
{
    if hi == mid {
        assert(kept_in(mid + 1, hi, keep) == Seq::<u64>::empty());
        assert(kept_in(lo, mid, keep) + Seq::<u64>::empty() == kept_in(lo, mid, keep));
    } else {
        lemma_kept_in_split(lo, mid, hi - 1, keep);
        let left = kept_in(lo, mid, keep);
        let right = kept_in(mid + 1, hi - 1, keep);
        if keep(hi) {
            assert((left + right).push(hi as u64) == left + right.push(hi as u64));
        }
    }
}

/// Every value of `kept_in(lo, hi, keep)` lies in `[lo, hi]` and satisfies `keep`, and the
/// values strictly increase.
pub proof fn lemma_kept_in_shape(lo: int, hi: int, keep: spec_fn(int) -> bool)
    requires
        0 <= lo,
        hi <= u64::MAX,
    ensures
        forall|i: int|
            0 <= i < kept_in(lo, hi, keep).len() ==> {
                let v = #[trigger] kept_in(lo, hi, keep)[i] as int;
                lo <= v <= hi && keep(v)
            },
        forall|i: int, j: int|
            0 <= i < j < kept_in(lo, hi, keep).len() ==> #[trigger] kept_in(lo, hi, keep)[i]
                < #[trigger] kept_in(lo, hi, keep)[j],
        kept_in(lo, hi, keep).len() <= if hi < lo { 0 } else { hi - lo + 1 },
    decreases hi - lo + 1,
{
    if hi >= lo {
        lemma_kept_in_shape(lo, hi - 1, keep);
        let prev = kept_in(lo, hi - 1, keep);
        if keep(hi) {
            assert(kept_in(lo, hi, keep) == prev.push(hi as u64));
            assert forall|i: int| 0 <= i < prev.len() + 1 implies {
                let v = #[trigger] prev.push(hi as u64)[i] as int;
                lo <= v <= hi && keep(v)
            } by {
                if i < prev.len() {
                    assert(prev.push(hi as u64)[i] == prev[i]);
                }
            }
        }
    }
}

/// A value of `[lo, hi]` that satisfies `keep` is among those kept.
pub proof fn lemma_kept_in_contains(lo: int, hi: int, keep: spec_fn(int) -> bool, v: int)
    requires
        lo <= v <= hi,
        keep(v),
    ensures
        kept_in(lo, hi, keep).contains(v as u64),
    decreases hi - lo + 1,
{
    if v < hi {
        lemma_kept_in_contains(lo, hi - 1, keep, v);
        let prev = kept_in(lo, hi - 1, keep);
        let j = choose|j: int| 0 <= j < prev.len() && prev[j] == v as u64;
        if keep(hi) {
            assert(kept_in(lo, hi, keep)[j] == v as u64);
        }
    } else {
        let prev = kept_in(lo, hi - 1, keep);
        assert(kept_in(lo, hi, keep)[prev.len() as int] == v as u64);
    }
}

/// `m + p <= i` for two multiples `m < i` of `p`.
pub proof fn lemma_next_multiple(m: int, i: int, p: int)
    requires
        p > 0,
        m % p == 0,
        i % p == 0,
        m < i,
    ensures
        m + p <= i,
{
    lemma_fundamental_div_mod(m, p);
    lemma_fundamental_div_mod(i, p);
    let a = m / p;
    let b = i / p;
    assert(m + p <= i) by (nonlinear_arith)
        requires
            m == p * a,
            i == p * b,
            m < i,
            p > 0,
    ;
}

/// The least multiple of `p` that is at least `low`, for `low` not itself a multiple.
pub proof fn lemma_round_up(low: int, p: int)
    requires
        p > 0,
        low >= 0,
        low % p != 0,
    ensures
        (low + (p - low % p)) % p == 0,
        forall|v: int| #[trigger] (v % p) == 0 && v >= low ==> v >= low + (p - low % p),
{
    lemma_fundamental_div_mod(low, p);
    let q = low / p;
    let base = low - low % p;
    assert(base == q * p) by (nonlinear_arith)
        requires
            low == p * q + low % p,
            base == low - low % p,
    ;
    lemma_mod_multiples_basic(q, p);
    lemma_mod_multiples_basic(q + 1, p);
    assert((q + 1) * p == base + p) by (nonlinear_arith)
        requires
            base == q * p,
    ;
    assert forall|v: int| #[trigger] (v % p) == 0 && v >= low implies v >= low + (p - low % p) by {
        lemma_next_multiple(base, v, p);
    }
}

/// Divisibility is transitive.
pub proof fn lemma_divides_trans(n: int, d: int, e: int)
    requires
        d > 0,
        e > 0,
        n % d == 0,
        d % e == 0,
    ensures
        n % e == 0,
{
    lemma_fundamental_div_mod(n, d);
    lemma_fundamental_div_mod(d, e);
    let a = n / d;
    let b = d / e;
    assert(n == (b * a) * e) by (nonlinear_arith)
        requires
            n == d * a,
            d == e * b,
    ;
    lemma_mod_multiples_basic(b * a, e);
}

/// A number with a divisor strictly between 1 and itself has one whose square does
/// not exceed it.
pub proof fn lemma_small_factor(n: int, d: int) -> (e: int)
    requires
        1 < d < n,
        n % d == 0,
    ensures
        2 <= e,
        e * e <= n,
        n % e == 0,
{
    if d * d <= n {
        d
    } else {
        lemma_fundamental_div_mod(n, d);
        let f = n / d;
        assert(2 <= f && f * f <= n && n == f * d) by (nonlinear_arith)
            requires
                n == d * f + 0,
                1 < d < n,
                d * d > n,
        ;
        lemma_mod_multiples_basic(d, f);
        f
    }
}

/// Every integer of at least 2 has a prime divisor no larger than any given divisor of it.
pub proof fn lemma_prime_factor(n: int, d: int) -> (p: int)
    requires
        n >= 1,
        2 <= d,
        n % d == 0,
    ensures
        is_prime(p),
        2 <= p <= d,
        n % p == 0,
    decreases d,
{
    if is_prime(d) {
        d
    } else {
        let e = choose|e: int| 1 < e < d && #[trigger] (d % e) == 0;
        lemma_divides_trans(n, d, e);
        lemma_prime_factor(n, e)
    }
}

/// A prime has no divisor `d >= 2` with `d * d <= n`.
pub proof fn lemma_prime_no_small_factor(n: int, d: int)
    requires
        is_prime(n),
        2 <= d,
        d * d <= n,
    ensures
        n % d != 0,
{
    assert(d < n) by (nonlinear_arith)
        requires
            2 <= d,
            d * d <= n,
    ;
}

} // verus!
