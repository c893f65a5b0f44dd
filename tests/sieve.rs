use primes::sieve::{calculate_primes, sieve_of_eratosthenes, sieve_segment, simple_sieve};

#[test]
fn test_small_primes() {
    let primes = sieve_of_eratosthenes(30);
    assert_eq!(primes, vec![2, 3, 5, 7, 11, 13, 17, 19, 23, 29]);
}

#[test]
fn test_prime_count_100() {
    let primes = sieve_of_eratosthenes(100);
    assert_eq!(primes.len(), 25);
}

#[test]
fn test_prime_count_1000() {
    let primes = sieve_of_eratosthenes(1000);
    assert_eq!(primes.len(), 168);
}

#[test]
fn test_edge_cases() {
    assert_eq!(sieve_of_eratosthenes(0), Vec::<u64>::new());
    assert_eq!(sieve_of_eratosthenes(1), Vec::<u64>::new());
    assert_eq!(sieve_of_eratosthenes(2), vec![2]);
}

#[test]
fn test_simple_sieve() {
    let primes = simple_sieve(30);
    assert_eq!(primes, vec![2, 3, 5, 7, 11, 13, 17, 19, 23, 29]);
}

#[test]
fn main_test_simple_sieve() {
    let primes = simple_sieve(100);
    assert_eq!(primes.len(), 25);
}

#[test]
fn test_segment_sieve() {
    let base_primes = vec![2, 3, 5, 7];
    let segment = sieve_segment(10, 20, &base_primes);
    assert_eq!(segment, vec![11, 13, 17, 19]);
}

#[test]
fn main_test_segment_sieve() {
    let base_primes = simple_sieve(10);
    let segment = sieve_segment(10, 30, &base_primes);
    assert_eq!(segment, vec![11, 13, 17, 19, 23, 29]);
}

#[test]
fn test_calculate_primes() {
    let primes = calculate_primes(100);
    assert_eq!(primes.len(), 25);
}

#[test]
fn segment_with_explicit_base_primes() {
    let segment = sieve_segment(10, 30, &[2, 3, 5, 7]);
    assert_eq!(segment, vec![11, 13, 17, 19, 23, 29]);
}

#[test]
fn sieve_up_to_three_and_four() {
    assert_eq!(simple_sieve(3), vec![2, 3]);
    assert_eq!(simple_sieve(4), vec![2, 3]);
    assert_eq!(simple_sieve(49), vec![2, 3, 5, 7, 11, 13, 17, 19, 23, 29, 31, 37, 41, 43, 47]);
}

#[test]
fn sieve_is_repeatable() {
    assert_eq!(simple_sieve(5000), simple_sieve(5000));
    let base = simple_sieve(100);
    assert_eq!(sieve_segment(5000, 9000, &base), sieve_segment(5000, 9000, &base));
}

#[test]
fn empty_segment_when_low_exceeds_high() {
    assert_eq!(sieve_segment(31, 30, &[2, 3, 5]), Vec::<u64>::new());
}

#[test]
fn segment_covering_zero_and_one() {
    assert_eq!(sieve_segment(0, 30, &[2, 3, 5]), vec![2, 3, 5, 7, 11, 13, 17, 19, 23, 29]);
    assert_eq!(sieve_segment(1, 1, &[2]), Vec::<u64>::new());
    assert_eq!(sieve_segment(0, 0, &[]), Vec::<u64>::new());
}

#[test]
fn segment_starting_on_a_multiple() {
    assert_eq!(sieve_segment(100, 130, &[2, 3, 5, 7, 11]), vec![101, 103, 107, 109, 113, 127]);
}

#[test]
fn segment_with_no_striking_prime_past_its_square() {
    // 9 is the square of 3 itself, and is struck
    assert_eq!(sieve_segment(8, 10, &[2, 3]), Vec::<u64>::new());
    assert_eq!(sieve_segment(23, 23, &[2, 3]), vec![23]);
}

#[test]
fn segment_near_the_top_of_u64() {
    let high = u64::MAX;
    let low = high - 20;
    let primes = sieve_segment(low, high, &[2, 3, 5, 7]);
    for p in &primes {
        assert!(*p >= low);
        assert!(p % 2 != 0 && p % 3 != 0 && p % 5 != 0 && p % 7 != 0);
    }
    // u64::MAX - 1 is even, u64::MAX = 3 * 5 * 17 * 257 * 641 * 65537 * 6700417
    assert!(!primes.contains(&high));
    assert!(!primes.contains(&(high - 1)));
}
