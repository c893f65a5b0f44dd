use primes::engine::{
    aggregate, fallback_after, first_strategy, run_single_node, segmented_sieve, SievePlan,
    Strategy,
};
use primes::sieve::simple_sieve;

#[test]
fn test_single_node() {
    let result = run_single_node(1000);
    assert_eq!(result.total_primes, 168);
}

#[test]
fn test_parallel_sieve_matches_sequential() {
    let limit = 10_000;
    let sequential = simple_sieve(limit);
    let parallel = segmented_sieve(limit, 4);
    assert_eq!(sequential, parallel);
}

#[test]
fn test_different_thread_counts() {
    let limit = 10_000;
    let expected = simple_sieve(limit);
    for threads in [1, 2, 4, 8] {
        let result = segmented_sieve(limit, threads);
        assert_eq!(result, expected, "Mismatch with {} threads", threads);
    }
}

#[test]
fn segmented_counts_match_known_values() {
    assert_eq!(segmented_sieve(100, 3).len(), 25);
    assert_eq!(segmented_sieve(1000, 5).len(), 168);
    assert_eq!(segmented_sieve(0, 2), Vec::<u64>::new());
    assert_eq!(segmented_sieve(1, 2), Vec::<u64>::new());
    assert_eq!(segmented_sieve(2, 2), vec![2]);
}

#[test]
fn plan_splits_above_base_primes() {
    let plan = SievePlan::new(10000, 4);
    assert_eq!(plan.base_prime_limit, 100);
    assert_eq!(plan.base_primes.len(), 25);
    assert_eq!(plan.ranges.len(), 4);
    assert_eq!(plan.ranges[0].low, 101);
    assert_eq!(plan.ranges[3].high, 10000);
}

#[test]
fn workers_and_merge_rebuild_the_sieve() {
    let plan = SievePlan::new(2000, 3);
    let segments: Vec<Vec<u64>> = (0..3).map(|i| plan.sieve_worker(i)).collect();
    assert_eq!(plan.merge_segments(&segments), simple_sieve(2000));
}

#[test]
fn aggregate_counts_base_primes_once() {
    let plan = SievePlan::new(10000, 4);
    let counts: Vec<usize> = (0..4).map(|i| plan.sieve_worker(i).len()).collect();
    let result = aggregate(plan.base_primes.len(), counts.clone()).unwrap();
    assert_eq!(result.total_primes, 1229);
    assert_eq!(result.node_count, 4);
    assert_eq!(result.per_node_counts, counts);
    assert_eq!(result.base_prime_count, 25);
}

#[test]
fn aggregate_reports_overflow() {
    assert!(aggregate(usize::MAX, vec![0, 1]).is_none());
    assert!(aggregate(1, vec![usize::MAX]).is_none());
    assert_eq!(aggregate(usize::MAX - 1, vec![1]).unwrap().total_primes, usize::MAX);
}

#[test]
fn single_node_result_shape() {
    let result = run_single_node(100);
    assert_eq!(result.total_primes, 25);
    assert_eq!(result.node_count, 1);
    assert_eq!(result.per_node_counts, vec![25]);
    assert_eq!(result.base_prime_count, 0);
}

#[test]
fn strategy_order() {
    assert_eq!(first_strategy(true, true), Strategy::Collective);
    assert_eq!(first_strategy(false, true), Strategy::Socket);
    assert_eq!(first_strategy(false, false), Strategy::SingleNode);
    assert_eq!(fallback_after(Strategy::Collective, true), Strategy::Socket);
    assert_eq!(fallback_after(Strategy::Collective, false), Strategy::SingleNode);
    assert_eq!(fallback_after(Strategy::Socket, true), Strategy::SingleNode);
    assert_eq!(fallback_after(Strategy::SingleNode, false), Strategy::SingleNode);
}
