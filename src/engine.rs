//! One run of the segmented sieve: the plan that every worker shares, the work of
//! one worker, and the merge of what the workers found.

use vstd::prelude::*;
use crate::number::{
    is_prime, lemma_kept_in_contains, lemma_kept_in_shape, lemma_kept_in_split, primes_in,
};
use crate::partition::{
    ceil_sqrt, is_ceil_sqrt, lemma_share_ends, lemma_share_start_monotone, partition,
    partition_inputs, share, share_start, Range,
};
use crate::sieve::{
    base_primes_for, lemma_segment_survivors_are_primes, segment_survivors, sieve_segment,
    simple_sieve,
};

verus! {

/// The primes up to `b` serve as base primes for any range that ends at or below `limit`,
/// once `(b + 1) * (b + 1) > limit`: `b` may be the floor or the ceiling of the square root.
pub proof fn lemma_base_primes_suffice(b: int, limit: int, high: int)
    requires
        0 <= b <= u64::MAX,
        (b + 1) * (b + 1) > limit,
        high <= limit,
    ensures
        base_primes_for(primes_in(0, b), high),
{
    lemma_kept_in_shape(0, b, |n: int| is_prime(n));
    assert forall|p: int| #![trigger is_prime(p)] is_prime(p) && p * p <= high implies primes_in(
        0,
        b,
    ).contains(p as u64) by {
        assert(p <= b) by (nonlinear_arith)
            requires
                p * p <= high,
                high <= limit,
                limit < (b + 1) * (b + 1),
                p >= 2,
                b >= 0,
        ;
        lemma_kept_in_contains(0, b, |n: int| is_prime(n), p);
    }
}

/// The least number whose square reaches `limit` is a base bound for it.
pub proof fn lemma_ceil_sqrt_is_base_bound(b: int, limit: int)
    requires
        b >= 0,
        b * b >= limit,
    ensures
        (b + 1) * (b + 1) > limit,
{
    assert((b + 1) * (b + 1) > b * b) by (nonlinear_arith)
        requires
            b >= 0,
    ;
}

/// What the segment sieve yields on the first `n` ranges of a partition, one after
/// another, when it strikes with the primes up to `b`.
pub open spec fn sieved_shares(limit: int, b: int, worker_count: int, n: int) -> Seq<u64>
    decreases n,
{
    if n <= 0 {
        Seq::empty()
    } else {
        let r = share(limit, b, worker_count, n - 1);
        sieved_shares(limit, b, worker_count, n - 1) + segment_survivors(
            r.low as int,
            r.high as int,
            primes_in(0, b),
        )
    }
}

/// Where the first `n` ranges of a partition end, cut off at `limit`.
spec fn covered_up_to(limit: int, b: int, worker_count: int, n: int) -> int {
    let e = share_start(limit, b, worker_count, n) - 1;
    if e <= limit { e } else { limit }
}

proof fn lemma_shares_prefix(limit: int, b: int, worker_count: int, n: int)
    requires
        partition_inputs(limit, b, worker_count),
        (b + 1) * (b + 1) > limit,
        0 <= n <= worker_count,
    ensures
        primes_in(0, b) + sieved_shares(limit, b, worker_count, n) == primes_in(
            0,
            covered_up_to(limit, b, worker_count, n),
        ),
    decreases n,
{
    lemma_share_ends(limit, b, worker_count);
    if n == 0 {
        assert(primes_in(0, b) + Seq::<u64>::empty() == primes_in(0, b));
    } else {
        lemma_shares_prefix(limit, b, worker_count, n - 1);
        lemma_share_start_monotone(limit, b, worker_count, n - 1, n);
        let lo = share_start(limit, b, worker_count, n - 1);
        let mid = covered_up_to(limit, b, worker_count, n - 1);
        let hi = covered_up_to(limit, b, worker_count, n);
        let r = share(limit, b, worker_count, n - 1);
        assert(r.low as int == lo && r.high as int == hi);
        lemma_base_primes_suffice(b, limit, hi);
        lemma_segment_survivors_are_primes(lo, hi, primes_in(0, b));
        lemma_kept_in_split(0, mid, hi, |n: int| is_prime(n));
        if lo > hi {
            assert(primes_in(lo, hi) == Seq::<u64>::empty());
            assert(primes_in(mid + 1, hi) == Seq::<u64>::empty());
        } else {
            assert(mid + 1 == lo);
        }
        let a = primes_in(0, b);
        let s = sieved_shares(limit, b, worker_count, n - 1);
        let c = primes_in(lo, hi);
        assert(a + (s + c) == (a + s) + c);
    }
}

/// Sieving every range of a partition of `[b + 1, limit]` with the primes up to `b`, and
/// putting those primes in front, gives exactly the primes up to `limit`, in order.
pub proof fn lemma_shares_rebuild_sieve(limit: int, b: int, worker_count: int)
    requires
        partition_inputs(limit, b, worker_count),
        (b + 1) * (b + 1) > limit,
    ensures
        primes_in(0, b) + sieved_shares(limit, b, worker_count, worker_count) == primes_in(0, limit),
{
    lemma_share_ends(limit, b, worker_count);
    lemma_shares_prefix(limit, b, worker_count, worker_count);
}

/// However many workers share the range, the merged primes are the same.
pub proof fn lemma_worker_count_irrelevant(limit: int, b: int, w1: int, w2: int)
    requires
        partition_inputs(limit, b, w1),
        partition_inputs(limit, b, w2),
        (b + 1) * (b + 1) > limit,
    ensures
        primes_in(0, b) + sieved_shares(limit, b, w1, w1) == primes_in(0, b) + sieved_shares(
            limit,
            b,
            w2,
            w2,
        ),
{
    lemma_shares_rebuild_sieve(limit, b, w1);
    lemma_shares_rebuild_sieve(limit, b, w2);
}

/// The first `n` segments, one after another.
pub open spec fn joined(segments: Seq<Vec<u64>>, n: int) -> Seq<u64>
    decreases n,
{
    if n <= 0 {
        Seq::empty()
    } else {
        joined(segments, n - 1) + segments[n - 1]@
    }
}

/// Appends every value of `xs` to `out`.
fn append_all(out: &mut Vec<u64>, xs: &Vec<u64>)
    ensures
        final(out)@ == old(out)@ + xs@,
{
    let ghost start = out@;
    let mut i: usize = 0;
    while i < xs.len()
        invariant
            i <= xs@.len(),
            out@ == start + xs@.subrange(0, i as int),
        decreases xs@.len() - i,
    {
        out.push(xs[i]);
        i = i + 1;
        assert(out@ =~= start + xs@.subrange(0, i as int));
    }
    assert(xs@.subrange(0, xs@.len() as int) =~= xs@);
}

/// One run's shared work: the base primes up to `base_prime_limit`, the least number whose
/// square reaches `limit`, and the range of `[base_prime_limit + 1, limit]` given to each
/// worker, in worker order.
pub struct SievePlan {
    pub limit: u64,
    pub base_prime_limit: u64,
    pub base_primes: Vec<u64>,
    pub ranges: Vec<Range>,
}

impl SievePlan {
    /// The number of workers the plan shares the range among.
    pub open spec fn workers(&self) -> int {
        self.ranges@.len() as int
    }

    /// The plan is the one `new` makes for its limit and worker count.
    pub open spec fn wf(&self) -> bool {
        &&& self.limit < usize::MAX
        &&& is_ceil_sqrt(self.base_prime_limit as int, self.limit as int)
        &&& self.base_prime_limit <= self.limit
        &&& partition_inputs(self.limit as int, self.base_prime_limit as int, self.workers())
        &&& self.base_primes@ == primes_in(0, self.base_prime_limit as int)
        &&& forall|i: int|
            0 <= i < self.workers() ==> #[trigger] self.ranges@[i] == share(
                self.limit as int,
                self.base_prime_limit as int,
                self.workers(),
                i,
            )
    }

    /// Plans a run up to `limit` among `worker_count` workers: computes the base primes once
    /// and partitions what lies above them.
    pub fn new(limit: u64, worker_count: usize) -> (plan: SievePlan)
        requires
            worker_count >= 1,
            limit < usize::MAX,
            limit + worker_count <= u64::MAX,
        ensures
            plan.wf(),
            plan.limit == limit,
            plan.workers() == worker_count,
    {
        let b = ceil_sqrt(limit);
        assert(b <= limit) by (nonlinear_arith)
            requires
                b * b >= limit,
                b == 0 || (b - 1) * (b - 1) < limit,
                b >= 0,
        ;
        let base_primes = simple_sieve(b);
        let ranges = partition(limit, b, worker_count);
        SievePlan { limit, base_prime_limit: b, base_primes, ranges }
    }

    /// The primes in the range of worker `worker_id`, found by the segment sieve with the
    /// plan's base primes.
    pub fn sieve_worker(&self, worker_id: usize) -> (primes: Vec<u64>)
        requires
            self.wf(),
            worker_id < self.workers(),
        ensures
            primes@ == segment_survivors(
                self.ranges@[worker_id as int].low as int,
                self.ranges@[worker_id as int].high as int,
                self.base_primes@,
            ),
            primes@ == primes_in(
                self.ranges@[worker_id as int].low as int,
                self.ranges@[worker_id as int].high as int,
            ),
    {
        let r = self.ranges[worker_id];
        proof {
            let (limit, b, w) = (self.limit as int, self.base_prime_limit as int, self.workers());
            lemma_share_start_monotone(limit, b, w, worker_id as int, worker_id + 1);
            lemma_ceil_sqrt_is_base_bound(b, limit);
            lemma_base_primes_suffice(b, limit, r.high as int);
            lemma_segment_survivors_are_primes(r.low as int, r.high as int, self.base_primes@);
        }
        sieve_segment(r.low, r.high, self.base_primes.as_slice())
    }

    /// The base primes followed by every worker's segment, in worker order.
    ///
    /// When each segment is what `sieve_worker` gives for that worker, this is exactly the
    /// primes up to `limit`.
    pub fn merge_segments(&self, segments: &Vec<Vec<u64>>) -> (primes: Vec<u64>)
        requires
            self.wf(),
            segments@.len() == self.workers(),
        ensures
            primes@ == self.base_primes@ + joined(segments@, segments@.len() as int),
            (forall|i: int|
                0 <= i < self.workers() ==> #[trigger] segments@[i]@ == segment_survivors(
                    self.ranges@[i].low as int,
                    self.ranges@[i].high as int,
                    self.base_primes@,
                )) ==> primes@ == primes_in(0, self.limit as int),
    {
        let mut primes: Vec<u64> = Vec::new();
        append_all(&mut primes, &self.base_primes);
        assert(primes@ =~= self.base_primes@ + joined(segments@, 0));
        let mut i: usize = 0;
        while i < segments.len()
            invariant
                i <= segments@.len(),
                primes@ == self.base_primes@ + joined(segments@, i as int),
            decreases segments@.len() - i,
        {
            append_all(&mut primes, &segments[i]);
            proof {
                let a = self.base_primes@;
                let j = joined(segments@, i as int);
                assert(a + j + segments@[i as int]@ == a + (j + segments@[i as int]@));
            }
            i = i + 1;
        }
        proof {
            let (limit, b, w) = (self.limit as int, self.base_prime_limit as int, self.workers());
            if forall|i: int|
                0 <= i < w ==> #[trigger] segments@[i]@ == segment_survivors(
                    self.ranges@[i].low as int,
                    self.ranges@[i].high as int,
                    self.base_primes@,
                ) {
                self.lemma_joined_shares(segments@, w);
                lemma_ceil_sqrt_is_base_bound(b, limit);
                lemma_shares_rebuild_sieve(limit, b, w);
            }
        }
        primes
    }

    proof fn lemma_joined_shares(&self, segments: Seq<Vec<u64>>, n: int)
        requires
            self.wf(),
            0 <= n <= self.workers(),
            segments.len() == self.workers(),
            forall|i: int|
                0 <= i < self.workers() ==> #[trigger] segments[i]@ == segment_survivors(
                    self.ranges@[i].low as int,
                    self.ranges@[i].high as int,
                    self.base_primes@,
                ),
        ensures
            joined(segments, n) == sieved_shares(
                self.limit as int,
                self.base_prime_limit as int,
                self.workers(),
                n,
            ),
        decreases n,
    {
        if n > 0 {
            self.lemma_joined_shares(segments, n - 1);
            assert(segments[n - 1]@ == segment_survivors(
                self.ranges@[n - 1].low as int,
                self.ranges@[n - 1].high as int,
                self.base_primes@,
            ));
        }
    }
}

/// All primes up to `limit`, found by sharing the range above the base primes among
/// `worker_count` workers that run one after another in this thread.
pub fn segmented_sieve(limit: u64, worker_count: usize) -> (primes: Vec<u64>)
    requires
        worker_count >= 1,
        limit < usize::MAX,
        limit + worker_count <= u64::MAX,
    ensures
        primes@ == primes_in(0, limit as int),
{
    let plan = SievePlan::new(limit, worker_count);
    let mut segments: Vec<Vec<u64>> = Vec::new();
    let mut i: usize = 0;
    while i < worker_count
        invariant
            plan.wf(),
            plan.workers() == worker_count,
            i <= worker_count,
            segments@.len() == i,
            forall|k: int|
                0 <= k < i ==> #[trigger] segments@[k]@ == segment_survivors(
                    plan.ranges@[k].low as int,
                    plan.ranges@[k].high as int,
                    plan.base_primes@,
                ),
        decreases worker_count - i,
    {
        let found = plan.sieve_worker(i);
        segments.push(found);
        i = i + 1;
    }
    plan.merge_segments(&segments)
}

/// The sum of the first `n` counts.
pub open spec fn sum_counts(counts: Seq<usize>, n: int) -> int
    decreases n,
{
    if n <= 0 {
        0
    } else {
        sum_counts(counts, n - 1) + counts[n - 1]
    }
}

proof fn lemma_sum_counts_grows(counts: Seq<usize>, k: int, n: int)
    requires
        0 <= k <= n,
    ensures
        sum_counts(counts, k) <= sum_counts(counts, n),
    decreases n - k,
{
    if k < n {
        lemma_sum_counts_grows(counts, k, n - 1);
    }
}

/// The outcome of a run: how many primes there are up to the limit, how many execution
/// units took part, and what each of them counted, in worker order.
pub struct AggregateResult {
    pub total_primes: usize,
    pub node_count: usize,
    pub per_node_counts: Vec<usize>,
    pub base_prime_count: usize,
}

/// Adds the base primes, counted once, to the count of every worker.
///
/// Returns `None` exactly when the total does not fit in a `usize`.
pub fn aggregate(base_prime_count: usize, counts: Vec<usize>) -> (result: Option<
    AggregateResult,
>)
    ensures
        result is Some <==> base_prime_count + sum_counts(counts@, counts@.len() as int)
            <= usize::MAX,
        result matches Some(r) ==> {
            &&& r.total_primes == base_prime_count + sum_counts(counts@, counts@.len() as int)
            &&& r.node_count == counts@.len()
            &&& r.per_node_counts@ == counts@
            &&& r.base_prime_count == base_prime_count
        },
{
    let mut total: usize = base_prime_count;
    let mut i: usize = 0;
    while i < counts.len()
        invariant
            i <= counts@.len(),
            total == base_prime_count + sum_counts(counts@, i as int),
        decreases counts@.len() - i,
    {
        if total > usize::MAX - counts[i] {
            proof {
                lemma_sum_counts_grows(counts@, i + 1, counts@.len() as int);
            }
            return None;
        }
        total = total + counts[i];
        i = i + 1;
    }
    let node_count = counts.len();
    Some(AggregateResult { total_primes: total, node_count, per_node_counts: counts, base_prime_count })
}

/// With each worker's count the length of what it sieved, the base primes and the counts
/// add up to the number of primes up to `limit`.
pub proof fn lemma_counts_add_up(limit: int, b: int, worker_count: int, counts: Seq<usize>)
    requires
        partition_inputs(limit, b, worker_count),
        (b + 1) * (b + 1) > limit,
        counts.len() == worker_count,
        forall|i: int|
            0 <= i < worker_count ==> #[trigger] counts[i] == segment_survivors(
                share(limit, b, worker_count, i).low as int,
                share(limit, b, worker_count, i).high as int,
                primes_in(0, b),
            ).len(),
    ensures
        primes_in(0, b).len() + sum_counts(counts, worker_count) == primes_in(0, limit).len(),
{
    lemma_counts_prefix(limit, b, worker_count, counts, worker_count);
    lemma_shares_rebuild_sieve(limit, b, worker_count);
}

proof fn lemma_counts_prefix(limit: int, b: int, worker_count: int, counts: Seq<usize>, n: int)
    requires
        0 <= n <= counts.len(),
        forall|i: int|
            0 <= i < counts.len() ==> #[trigger] counts[i] == segment_survivors(
                share(limit, b, worker_count, i).low as int,
                share(limit, b, worker_count, i).high as int,
                primes_in(0, b),
            ).len(),
    ensures
        sum_counts(counts, n) == sieved_shares(limit, b, worker_count, n).len(),
    decreases n,
{
    if n > 0 {
        lemma_counts_prefix(limit, b, worker_count, counts, n - 1);
        assert(counts[n - 1] == segment_survivors(
            share(limit, b, worker_count, n - 1).low as int,
            share(limit, b, worker_count, n - 1).high as int,
            primes_in(0, b),
        ).len());
    }
}

/// The run on one node alone: one plain sieve over the whole of `[0, limit]`, with no
/// base primes set apart.
pub fn run_single_node(limit: u64) -> (result: AggregateResult)
    requires
        limit < usize::MAX,
    ensures
        result.total_primes == primes_in(0, limit as int).len(),
        result.node_count == 1,
        result.per_node_counts@ == seq![result.total_primes],
        result.base_prime_count == 0,
{
    let primes = simple_sieve(limit);
    let count = primes.len();
    let mut per_node_counts: Vec<usize> = Vec::new();
    per_node_counts.push(count);
    AggregateResult { total_primes: count, node_count: 1, per_node_counts, base_prime_count: 0 }
}

/// How a run's work reaches its workers.
#[derive(Clone, Copy, Debug, PartialEq, Eq, Structural)]
pub enum Strategy {
    /// A group of peer processes that each derive their own range and meet in one reduce.
    Collective,
    /// A coordinator that sends work to connected worker processes over sockets.
    Socket,
    /// One plain sieve over the whole range, in this process.
    SingleNode,
}

/// The strategy a run tries first: the collective one when it is enabled, else sockets
/// when they were asked for, else a single node.
pub fn first_strategy(try_collective: bool, socket_requested: bool) -> (s: Strategy)
    ensures
        s == (if try_collective {
            Strategy::Collective
        } else if socket_requested {
            Strategy::Socket
        } else {
            Strategy::SingleNode
        }),
{
    if try_collective {
        Strategy::Collective
    } else if socket_requested {
        Strategy::Socket
    } else {
        Strategy::SingleNode
    }
}

/// The strategy to fall back on when `failed` could not be set up: sockets after the
/// collective runtime when sockets were asked for, and otherwise a single node, which
/// is always available.
pub fn fallback_after(failed: Strategy, socket_requested: bool) -> (s: Strategy)
    ensures
        s == (if failed == Strategy::Collective && socket_requested {
            Strategy::Socket
        } else {
            Strategy::SingleNode
        }),
{
    match failed {
        Strategy::Collective => if socket_requested {
            Strategy::Socket
        } else {
            Strategy::SingleNode
        },
        _ => Strategy::SingleNode,
    }
}

} // verus!
