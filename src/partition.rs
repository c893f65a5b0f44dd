//! Splitting the range above the base primes into one contiguous range per worker.

use vstd::prelude::*;
use vstd::arithmetic::div_mod::lemma_fundamental_div_mod;

verus! {

/// An inclusive range `[low, high]` of candidates; empty when `low > high`.
#[derive(Clone, Copy, Debug, PartialEq, Eq, Structural)]
pub struct Range {
    pub low: u64,
    pub high: u64,
}

impl Range {
    /// `v` lies in the range.
    pub open spec fn holds(self, v: int) -> bool {
        self.low <= v <= self.high
    }
}

/// `r` is the least number whose square is at least `n`.
pub open spec fn is_ceil_sqrt(r: int, n: int) -> bool {
    r * r >= n && (r == 0 || (r - 1) * (r - 1) < n)
}

/// The least number whose square is at least `n`.
pub fn ceil_sqrt(n: u64) -> (r: u64)
    ensures
        is_ceil_sqrt(r as int, n as int),
{
    let mut lo: u64 = 0;
    let mut hi: u64 = 0x1_0000_0000;
    while lo < hi
        invariant
            lo <= hi <= 0x1_0000_0000,
            hi * hi >= n,
            lo == 0 || (lo - 1) * (lo - 1) < n,
        decreases hi - lo,
    {
        let mid = lo + (hi - lo) / 2;
        assert(mid * mid < 0x1_0000_0000_0000_0000) by (nonlinear_arith)
            requires
                mid < 0x1_0000_0000,
        ;
        if mid * mid >= n {
            hi = mid;
        } else {
            lo = mid + 1;
        }
    }
    lo
}

/// `a / b` rounded up.
pub open spec fn ceil_div(a: int, b: int) -> int {
    a / b + if a % b == 0 { 0int } else { 1int }
}

/// The number of candidates each worker is given: the candidates above `base_prime_limit`
/// shared out among `worker_count` workers, rounded up.
pub open spec fn share_size(limit: int, base_prime_limit: int, worker_count: int) -> int {
    ceil_div(limit - base_prime_limit, worker_count)
}

/// Where the range of worker `i` starts: `base_prime_limit + 1 + i * size`.
pub open spec fn share_start(limit: int, base_prime_limit: int, worker_count: int, i: int) -> int {
    base_prime_limit + 1 + i * share_size(limit, base_prime_limit, worker_count)
}

/// The range of worker `i`: `[start + i * size, min(start + (i + 1) * size - 1, limit)]`
/// with `start = base_prime_limit + 1`; it is empty when it starts past `limit`.
pub open spec fn share(limit: int, base_prime_limit: int, worker_count: int, i: int) -> Range {
    let next = share_start(limit, base_prime_limit, worker_count, i + 1);
    Range {
        low: share_start(limit, base_prime_limit, worker_count, i) as u64,
        high: (if next - 1 <= limit { next - 1 } else { limit }) as u64,
    }
}

/// The inputs that the partitioner accepts: at least one worker, and base primes that stop
/// at or below `limit`, with room above `limit` for the starts of the workers' ranges.
pub open spec fn partition_inputs(limit: int, base_prime_limit: int, worker_count: int) -> bool {
    &&& worker_count >= 1
    &&& 0 <= base_prime_limit <= limit
    &&& limit + worker_count <= u64::MAX
}

/// The ranges of `worker_count` workers that share `[base_prime_limit + 1, limit]`, in worker
/// order: each worker's range starts where the one before it ended, and workers whose range
/// would start past `limit` receive an empty range.
pub fn partition(limit: u64, base_prime_limit: u64, worker_count: usize) -> (ranges: Vec<Range>)
    requires
        partition_inputs(limit as int, base_prime_limit as int, worker_count as int),
    ensures
        ranges@.len() == worker_count,
        forall|i: int|
            0 <= i < worker_count ==> #[trigger] ranges@[i] == share(
                limit as int,
                base_prime_limit as int,
                worker_count as int,
                i,
            ),
{
    let total = limit - base_prime_limit;
    let count = worker_count as u64;
    let size: u64 = if total % count == 0 {
        total / count
    } else {
        total / count + 1
    };
    let ghost spec_size = share_size(limit as int, base_prime_limit as int, worker_count as int);
    assert(size == spec_size);
    let mut ranges: Vec<Range> = Vec::new();
    let mut low: u64 = base_prime_limit + 1;
    let mut i: usize = 0;
    assert(0 * spec_size == 0);
    while i < worker_count
        invariant
            partition_inputs(limit as int, base_prime_limit as int, worker_count as int),
            size == spec_size,
            spec_size == share_size(limit as int, base_prime_limit as int, worker_count as int),
            i <= worker_count,
            low == share_start(limit as int, base_prime_limit as int, worker_count as int, i as int),
            ranges@.len() == i,
            forall|k: int|
                0 <= k < i ==> #[trigger] ranges@[k] == share(
                    limit as int,
                    base_prime_limit as int,
                    worker_count as int,
                    k,
                ),
        decreases worker_count - i,
    {
        proof {
            let ii = i as int;
            assert(base_prime_limit + 1 + (ii + 1) * spec_size == low + spec_size)
                by (nonlinear_arith)
                requires
                    low == base_prime_limit + 1 + ii * spec_size,
            ;
            lemma_share_start_monotone(
                limit as int,
                base_prime_limit as int,
                worker_count as int,
                ii + 1,
                worker_count as int,
            );
        }
        let next: u64 = low + size;
        let high: u64 = if next - 1 <= limit {
            next - 1
        } else {
            limit
        };
        ranges.push(Range { low, high });
        low = next;
        i = i + 1;
    }
    ranges
}

/// Some worker's range holds `v`.
pub open spec fn covered(limit: int, base_prime_limit: int, worker_count: int, v: int) -> bool {
    exists|i: int|
        0 <= i < worker_count && #[trigger] share(limit, base_prime_limit, worker_count, i).holds(v)
}

/// Range starts never decrease from one worker to the next, start above the base primes,
/// and stay within `limit + worker_count`.
pub proof fn lemma_share_start_monotone(limit: int, base_prime_limit: int, worker_count: int, i: int, j: int)
    requires
        partition_inputs(limit, base_prime_limit, worker_count),
        0 <= i <= j <= worker_count,
    ensures
        share_start(limit, base_prime_limit, worker_count, i) <= share_start(
            limit,
            base_prime_limit,
            worker_count,
            j,
        ),
        base_prime_limit + 1 <= share_start(limit, base_prime_limit, worker_count, i),
        share_start(limit, base_prime_limit, worker_count, j) <= limit + worker_count,
{
    let size = share_size(limit, base_prime_limit, worker_count);
    lemma_share_ends(limit, base_prime_limit, worker_count);
    assert(0 <= i * size <= j * size <= worker_count * size) by (nonlinear_arith)
        requires
            0 <= i <= j <= worker_count,
            size >= 0,
    ;
}

/// The first worker's range starts right above the base primes, and the shares of all
/// `worker_count` workers reach past `limit`, by fewer than `worker_count`.
pub proof fn lemma_share_ends(limit: int, base_prime_limit: int, worker_count: int)
    requires
        partition_inputs(limit, base_prime_limit, worker_count),
    ensures
        share_size(limit, base_prime_limit, worker_count) >= 0,
        share_start(limit, base_prime_limit, worker_count, 0) == base_prime_limit + 1,
        limit + 1 <= share_start(limit, base_prime_limit, worker_count, worker_count) <= limit
            + worker_count,
{
    let total = limit - base_prime_limit;
    let size = share_size(limit, base_prime_limit, worker_count);
    lemma_fundamental_div_mod(total, worker_count);
    let q = total / worker_count;
    let r = total % worker_count;
    assert(total <= worker_count * size <= total + worker_count - 1 && size >= 0)
        by (nonlinear_arith)
        requires
            total == worker_count * q + r,
            0 <= r < worker_count,
            total >= 0,
            size == q + if r == 0 { 0int } else { 1int },
    ;
    assert(0 * size == 0);
}

/// Some worker's range holds `v` when `v` lies between the start of the first of `n` ranges
/// and the end of the last.
proof fn lemma_share_found(limit: int, base_prime_limit: int, worker_count: int, n: int, v: int) -> (i: int)
    requires
        partition_inputs(limit, base_prime_limit, worker_count),
        0 <= n,
        share_start(limit, base_prime_limit, worker_count, 0) <= v < share_start(
            limit,
            base_prime_limit,
            worker_count,
            n,
        ),
    ensures
        0 <= i < n,
        share_start(limit, base_prime_limit, worker_count, i) <= v < share_start(
            limit,
            base_prime_limit,
            worker_count,
            i + 1,
        ),
    decreases n,
{
    if n > 0 && v < share_start(limit, base_prime_limit, worker_count, n - 1) {
        lemma_share_found(limit, base_prime_limit, worker_count, n - 1, v)
    } else {
        n - 1
    }
}

/// The ranges of a partition are pairwise disjoint, and together they hold exactly the
/// values of `[base_prime_limit + 1, limit]`.
pub proof fn lemma_partition_exact(limit: int, base_prime_limit: int, worker_count: int)
    requires
        partition_inputs(limit, base_prime_limit, worker_count),
    ensures
        forall|i: int, j: int, v: int|
            0 <= i < j < worker_count ==> !(#[trigger] share(
                limit,
                base_prime_limit,
                worker_count,
                i,
            ).holds(v) && #[trigger] share(limit, base_prime_limit, worker_count, j).holds(v)),
        forall|v: int|
            #[trigger] covered(limit, base_prime_limit, worker_count, v) == (base_prime_limit + 1
                <= v <= limit),
{
    let ss = |i: int| share_start(limit, base_prime_limit, worker_count, i);
    lemma_share_ends(limit, base_prime_limit, worker_count);
    assert forall|i: int, v: int|
        0 <= i < worker_count implies #[trigger] share(
            limit,
            base_prime_limit,
            worker_count,
            i,
        ).holds(v) == (ss(i) <= v < ss(i + 1) && v <= limit) by {
        lemma_share_start_monotone(limit, base_prime_limit, worker_count, i, i + 1);
    }
    assert forall|i: int, j: int, v: int|
        0 <= i < j < worker_count implies !(#[trigger] share(
            limit,
            base_prime_limit,
            worker_count,
            i,
        ).holds(v) && #[trigger] share(limit, base_prime_limit, worker_count, j).holds(v)) by {
        lemma_share_start_monotone(limit, base_prime_limit, worker_count, i + 1, j);
    }
    assert forall|v: int|
        #[trigger] covered(limit, base_prime_limit, worker_count, v) == (base_prime_limit + 1 <= v
            <= limit) by {
        if base_prime_limit + 1 <= v <= limit {
            let i = lemma_share_found(limit, base_prime_limit, worker_count, worker_count, v);
            assert(share(limit, base_prime_limit, worker_count, i).holds(v));
        }
        if covered(limit, base_prime_limit, worker_count, v) {
            let i = choose|i: int|
                0 <= i < worker_count && #[trigger] share(
                    limit,
                    base_prime_limit,
                    worker_count,
                    i,
                ).holds(v);
            lemma_share_start_monotone(limit, base_prime_limit, worker_count, i, i + 1);
        }
    }
}

} // verus!
