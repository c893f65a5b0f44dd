//! The plain Sieve of Eratosthenes, which yields the base primes, and the
//! segment sieve, which finds the primes of one range from the base primes.

use vstd::prelude::*;
use vstd::arithmetic::div_mod::{
    lemma_fundamental_div_mod, lemma_mod_add_multiples_vanish, lemma_mod_multiples_basic,
};
use crate::number::{
    is_prime, kept_in, lemma_divides_trans, lemma_kept_in_agree, lemma_next_multiple,
    lemma_prime_factor, lemma_prime_no_small_factor, lemma_round_up, lemma_small_factor, primes_in,
};

verus! {

/// No `d` with `2 <= d < k` and `d * d <= i` divides `i`: what the plain sieve knows of `i`
/// once every `d` below `k` has been handled.
pub open spec fn no_factor_below(i: int, k: int) -> bool {
    forall|d: int| 2 <= d < k && d * d <= i ==> #[trigger] (i % d) != 0
}

proof fn lemma_no_factor_step(i: int, k: int)
    requires
        k >= 2,
    ensures
        no_factor_below(i, k + 1) == (no_factor_below(i, k) && !(i % k == 0 && k * k <= i)),
{
    if no_factor_below(i, k) && !(i % k == 0 && k * k <= i) {
        assert forall|d: int| 2 <= d < k + 1 && d * d <= i implies #[trigger] (i % d) != 0 by {
            if d < k {
                assert(no_factor_below(i, k));
            }
        }
    }
    if no_factor_below(i, k + 1) {
        assert forall|d: int| 2 <= d < k && d * d <= i implies #[trigger] (i % d) != 0 by {
            assert(2 <= d < k + 1);
        }
    }
}

/// Once `k * k` exceeds `i`, `i >= 2` with no factor below `k` is exactly a prime.
proof fn lemma_no_factor_prime(i: int, k: int)
    requires
        2 <= i,
        i < k * k,
        k >= 2,
    ensures
        no_factor_below(i, k) == is_prime(i),
{
    if no_factor_below(i, k) && !is_prime(i) {
        let d = choose|d: int| 1 < d < i && #[trigger] (i % d) == 0;
        let e = lemma_small_factor(i, d);
        assert(e < k) by (nonlinear_arith)
            requires
                e * e <= i,
                i < k * k,
                e >= 2,
                k >= 2,
        ;
        assert(i % e != 0);
    }
    if is_prime(i) {
        assert forall|d: int| 2 <= d < k && d * d <= i implies #[trigger] (i % d) != 0 by {
            lemma_prime_no_small_factor(i, d);
        }
    }
}

/// `n <= lim / n` says that `n * n <= lim`.
proof fn lemma_square_fits(n: int, lim: int)
    requires
        n > 0,
        lim >= 0,
    ensures
        (n <= lim / n) == (n * n <= lim),
{
    lemma_fundamental_div_mod(lim, n);
    let q = lim / n;
    let r = lim % n;
    assert((n <= q) == (n * n <= lim)) by (nonlinear_arith)
        requires
            lim == n * q + r,
            0 <= r < n,
            n > 0,
    ;
}

/// A vector of `n` copies of `value`.
fn filled(n: usize, value: bool) -> (v: Vec<bool>)
    ensures
        v@ == Seq::new(n as nat, |i: int| value),
{
    let mut v: Vec<bool> = Vec::with_capacity(n);
    while v.len() < n
        invariant
            v.len() <= n,
            forall|i: int| 0 <= i < v.len() ==> #[trigger] v@[i] == value,
        decreases n - v.len(),
    {
        v.push(value);
    }
    assert(v@ =~= Seq::new(n as nat, |i: int| value));
    v
}

/// All primes up to and including `limit`, in increasing order; none when `limit < 2`.
///
/// Each composite is struck out from the square of its least prime factor on; only
/// numbers whose square stays within `limit` are used to strike.
pub fn simple_sieve(limit: u64) -> (primes: Vec<u64>)
    requires
        limit < usize::MAX,
    ensures
        primes@ == primes_in(0, limit as int),
{
    if limit < 2 {
        proof {
            reveal_with_fuel(kept_in, 3);
        }
        return Vec::new();
    }
    let mut flags = filled((limit + 1) as usize, true);
    flags.set(0, false);
    flags.set(1, false);
    let mut num: u64 = 2;
    proof {
        lemma_square_fits(num as int, limit as int);
    }
    while num <= limit / num
        invariant
            2 <= num <= limit,
            limit < usize::MAX,
            flags@.len() == limit + 1,
            forall|i: int|
                0 <= i <= limit ==> #[trigger] flags@[i] == (i >= 2 && no_factor_below(
                    i,
                    num as int,
                )),
        decreases limit - num,
    {
        proof {
            lemma_square_fits(num as int, limit as int);
            assert(num + 1 <= num * num) by (nonlinear_arith)
                requires
                    num >= 2,
            ;
        }
        let square = num * num;
        if flags[num as usize] {
            proof {
                lemma_mod_multiples_basic(num as int, num as int);
            }
            strike_multiples(&mut flags, 0, limit, square, num);
            proof {
                assert forall|i: int| 0 <= i <= limit implies #[trigger] flags@[i] == (i >= 2
                    && no_factor_below(i, num + 1)) by {
                    lemma_no_factor_step(i, num as int);
                }
            }
        } else {
            proof {
                let n = num as int;
                assert(!no_factor_below(n, n));
                let d = choose|d: int| 2 <= d < n && d * d <= n && #[trigger] (n % d) == 0;
                assert forall|i: int| 0 <= i <= limit implies #[trigger] flags@[i] == (i >= 2
                    && no_factor_below(i, num + 1)) by {
                    lemma_no_factor_step(i, n);
                    if i % n == 0 && n * n <= i {
                        lemma_divides_trans(i, n, d);
                        assert(d * d <= i) by (nonlinear_arith)
                            requires
                                d * d <= n,
                                n * n <= i,
                                n >= 2,
                        ;
                    }
                }
            }
        }
        num = num + 1;
    }
    proof {
        lemma_square_fits(num as int, limit as int);
        assert forall|i: int| 0 <= i <= limit implies #[trigger] flags@[i] == is_prime(i) by {
            if i >= 2 {
                lemma_no_factor_prime(i, num as int);
            }
        }
    }
    let mut primes: Vec<u64> = Vec::new();
    let mut i: u64 = 0;
    while i <= limit
        invariant
            i <= limit + 1,
            limit < usize::MAX,
            flags@.len() == limit + 1,
            forall|k: int| 0 <= k <= limit ==> #[trigger] flags@[k] == is_prime(k),
            primes@ == primes_in(0, i - 1),
        decreases limit + 1 - i,
    {
        if flags[i as usize] {
            primes.push(i);
        }
        i = i + 1;
    }
    primes
}

/// All primes up to and including `limit`, in increasing order, by the plain sieve.
pub fn sieve_of_eratosthenes(limit: u64) -> (primes: Vec<u64>)
    requires
        limit < usize::MAX,
    ensures
        primes@ == primes_in(0, limit as int),
{
    simple_sieve(limit)
}

/// All primes up to and including `limit`, in increasing order, by the plain sieve.
pub fn calculate_primes(limit: u64) -> (primes: Vec<u64>)
    requires
        limit < usize::MAX,
    ensures
        primes@ == primes_in(0, limit as int),
{
    simple_sieve(limit)
}

/// `v` passes the first `n` entries of `base`: it is at least 2, and none of those entries
/// whose square does not exceed `v` divides it.
pub open spec fn passes_first(v: int, base: Seq<u64>, n: int) -> bool {
    v >= 2 && forall|j: int|
        0 <= j < n && base[j] * base[j] <= v ==> #[trigger] (v % (base[j] as int)) != 0
}

/// `v` survives sieving by every entry of `base`.
pub open spec fn survives(v: int, base: Seq<u64>) -> bool {
    passes_first(v, base, base.len() as int)
}

/// What the segment sieve keeps of `[low, high]` when it strikes with `base`.
pub open spec fn segment_survivors(low: int, high: int, base: Seq<u64>) -> Seq<u64> {
    kept_in(low, high, |v: int| survives(v, base))
}

/// Every entry of `base` is at least 2.
pub open spec fn strikers(base: Seq<u64>) -> bool {
    forall|j: int| 0 <= j < base.len() ==> #[trigger] base[j] >= 2
}

/// `base` holds every prime whose square does not exceed `high`, and nothing below 2.
pub open spec fn base_primes_for(base: Seq<u64>, high: int) -> bool {
    &&& strikers(base)
    &&& forall|p: int| #![trigger is_prime(p)] is_prime(p) && p * p <= high ==> base.contains(p as u64)
}

/// With base primes for `high`, surviving the segment sieve at `v <= high` is being prime.
pub proof fn lemma_survives_iff_prime(v: int, base: Seq<u64>, high: int)
    requires
        base_primes_for(base, high),
        v <= high <= u64::MAX,
    ensures
        survives(v, base) == is_prime(v),
{
    if survives(v, base) && !is_prime(v) {
        let d = choose|d: int| 1 < d < v && #[trigger] (v % d) == 0;
        let e = lemma_small_factor(v, d);
        let p = lemma_prime_factor(v, e);
        assert(p * p <= v && p <= v) by (nonlinear_arith)
            requires
                2 <= p <= e,
                e * e <= v,
        ;
        assert(is_prime(p) && p <= v);
        assert(base.contains(p as u64));
        let j = choose|j: int| 0 <= j < base.len() && base[j] == p as u64;
        assert(base[j] as int == p);
        assert(v % (base[j] as int) != 0);
    }
    if is_prime(v) {
        assert forall|j: int| 0 <= j < base.len() && base[j] * base[j] <= v implies #[trigger] (v
            % (base[j] as int)) != 0 by {
            lemma_prime_no_small_factor(v, base[j] as int);
        }
    }
}

/// With base primes for `high`, the segment sieve keeps exactly the primes of `[low, high]`.
pub proof fn lemma_segment_survivors_are_primes(low: int, high: int, base: Seq<u64>)
    requires
        base_primes_for(base, high),
        high <= u64::MAX,
    ensures
        segment_survivors(low, high, base) == primes_in(low, high),
{
    assert forall|v: int| low <= v <= high implies #[trigger] survives(v, base) == is_prime(v) by {
        lemma_survives_iff_prime(v, base, high);
    }
    lemma_kept_in_agree(low, high, |v: int| survives(v, base), |n: int| is_prime(n));
}

/// Clears, in a segment whose first slot stands for `low`, the slot of every multiple of `p`
/// from `start` through `high`.
fn strike_multiples(flags: &mut Vec<bool>, low: u64, high: u64, start: u64, p: u64)
    requires
        low <= start <= high,
        p > 0,
        start % p == 0,
        high - low < usize::MAX,
        old(flags)@.len() == high - low + 1,
    ensures
        final(flags)@.len() == high - low + 1,
        forall|k: int|
            0 <= k <= high - low ==> #[trigger] final(flags)@[k] == (old(flags)@[k] && !((low + k)
                % (p as int) == 0 && start <= low + k)),
{
    let ghost before = flags@;
    let mut m: u64 = start;
    loop
        invariant_except_break
            start <= m <= high,
            m % p == 0,
            forall|k: int|
                0 <= k <= high - low ==> #[trigger] flags@[k] == (before[k] && !((low + k) % (
                p as int) == 0 && start <= low + k < m)),
        invariant
            low <= start <= high,
            p > 0,
            high - low < usize::MAX,
            flags@.len() == high - low + 1,
            before.len() == high - low + 1,
        ensures
            forall|k: int|
                0 <= k <= high - low ==> #[trigger] flags@[k] == (before[k] && !((low + k) % (
                p as int) == 0 && start <= low + k)),
        decreases high - m,
    {
        flags.set((m - low) as usize, false);
        if high - m < p {
            proof {
                assert forall|k: int| 0 <= k <= high - low implies #[trigger] flags@[k] == (
                before[k] && !((low + k) % (p as int) == 0 && start <= low + k)) by {
                    if (low + k) % (p as int) == 0 && low + k > m {
                        lemma_next_multiple(m as int, low + k, p as int);
                    }
                }
            }
            break;
        }
        proof {
            lemma_mod_add_multiples_vanish(m as int, p as int);
            assert forall|k: int| 0 <= k <= high - low implies #[trigger] flags@[k] == (before[k]
                && !((low + k) % (p as int) == 0 && start <= low + k < m + p)) by {
                if (low + k) % (p as int) == 0 && low + k > m {
                    lemma_next_multiple(m as int, low + k, p as int);
                }
            }
        }
        m = m + p;
    }
}

/// The primes of `[low, high]` (empty when `low > high`), found by striking out the multiples
/// of each base prime.
///
/// The result is exactly what survives striking with `base_primes`; when `base_primes` holds
/// every prime whose square does not exceed `high`, that is exactly the primes of the range.
pub fn sieve_segment(low: u64, high: u64, base_primes: &[u64]) -> (primes: Vec<u64>)
    requires
        strikers(base_primes@),
        low > high || high - low < usize::MAX,
    ensures
        primes@ == segment_survivors(low as int, high as int, base_primes@),
        base_primes_for(base_primes@, high as int) ==> primes@ == primes_in(low as int, high as int),
{
    proof {
        if base_primes_for(base_primes@, high as int) {
            lemma_segment_survivors_are_primes(low as int, high as int, base_primes@);
        }
    }
    if low > high {
        return Vec::new();
    }
    let size: usize = (high - low + 1) as usize;
    let mut flags = filled(size, true);
    if low == 0 {
        flags.set(0, false);
    }
    if low <= 1 && high >= 1 {
        flags.set((1 - low) as usize, false);
    }
    let ghost base = base_primes@;
    let mut j: usize = 0;
    while j < base_primes.len()
        invariant
            low <= high,
            high - low < usize::MAX,
            size == high - low + 1,
            base == base_primes@,
            strikers(base),
            j <= base.len(),
            flags@.len() == size,
            forall|k: int|
                0 <= k < size ==> #[trigger] flags@[k] == passes_first(low + k, base, j as int),
        decreases base.len() - j,
    {
        let p = base_primes[j];
        assert(p >= 2);
        proof {
            lemma_square_fits(p as int, high as int);
        }
        let ghost prev = flags@;
        if p <= high / p {
            let square = p * p;
            proof {
                lemma_mod_multiples_basic(p as int, p as int);
            }
            if low <= square {
                strike_multiples(&mut flags, low, high, square, p);
            } else {
                let rem = low % p;
                if rem == 0 {
                    strike_multiples(&mut flags, low, high, low, p);
                } else {
                    proof {
                        lemma_round_up(low as int, p as int);
                    }
                    let gap = p - rem;
                    if gap <= high - low {
                        strike_multiples(&mut flags, low, high, low + gap, p);
                    }
                }
            }
        }
        proof {
            assert forall|k: int| 0 <= k < size implies #[trigger] flags@[k] == passes_first(
                low + k,
                base,
                j + 1,
            ) by {
                let v = low + k;
                assert(prev[k] == passes_first(v, base, j as int));
                if passes_first(v, base, j as int) && !(v % (p as int) == 0 && p * p <= v) {
                    assert forall|i: int|
                        0 <= i < j + 1 && base[i] * base[i] <= v implies #[trigger] (v % (
                    base[i] as int)) != 0 by {
                        if i < j {
                            assert(passes_first(v, base, j as int));
                        }
                    }
                }
                if passes_first(v, base, j + 1) {
                    assert forall|i: int|
                        0 <= i < j && base[i] * base[i] <= v implies #[trigger] (v % (
                    base[i] as int)) != 0 by {
                        assert(0 <= i < j + 1);
                    }
                    if v % (p as int) == 0 && p * p <= v {
                        assert(base[j as int] == p);
                    }
                }
            }
        }
        j = j + 1;
    }
    let mut primes: Vec<u64> = Vec::new();
    let mut k: usize = 0;
    while k < size
        invariant
            low <= high,
            size == high - low + 1,
            base == base_primes@,
            j == base.len(),
            flags@.len() == size,
            forall|i: int| 0 <= i < size ==> #[trigger] flags@[i] == survives(low + i, base),
            primes@ == segment_survivors(low as int, low + k - 1, base),
            k <= size,
        decreases size - k,
    {
        if flags[k] {
            primes.push(low + k as u64);
        }
        k = k + 1;
    }
    primes
}

/// Sieving again with the same inputs gives the same primes: each sieve's result is fixed
/// by its inputs alone.
pub proof fn lemma_sieves_repeatable(
    limit: int,
    low: int,
    high: int,
    base: Seq<u64>,
    first: Seq<u64>,
    second: Seq<u64>,
    first_segment: Seq<u64>,
    second_segment: Seq<u64>,
)
    requires
        first == primes_in(0, limit),
        second == primes_in(0, limit),
        first_segment == segment_survivors(low, high, base),
        second_segment == segment_survivors(low, high, base),
    ensures
        first == second,
        first_segment == second_segment,
{
}

/// No primes lie below 2, the primes up to 2 are just 2, and a range whose start lies past
/// its end yields nothing, whatever the base primes.
pub proof fn lemma_boundaries(limit: int, low: int, high: int, base: Seq<u64>)
    ensures
        limit < 2 ==> primes_in(0, limit) == Seq::<u64>::empty(),
        primes_in(0, 2) == seq![2u64],
        low > high ==> segment_survivors(low, high, base) == Seq::<u64>::empty(),
{
    reveal_with_fuel(kept_in, 4);
    assert(is_prime(2));
    assert(primes_in(0, 2) =~= seq![2u64]);
}

} // verus!
