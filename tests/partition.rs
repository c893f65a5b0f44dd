use primes::partition::{ceil_sqrt, partition, Range};

#[test]
fn four_workers_over_ten_thousand() {
    let ranges = partition(10000, 100, 4);
    assert_eq!(ranges.len(), 4);
    assert_eq!(ranges[0], Range { low: 101, high: 2575 });
    assert_eq!(ranges[1], Range { low: 2576, high: 5050 });
    assert_eq!(ranges[2], Range { low: 5051, high: 7525 });
    assert_eq!(ranges[3], Range { low: 7526, high: 10000 });
    for r in &ranges {
        assert_eq!(r.high - r.low + 1, 2475);
    }
}

#[test]
fn ranges_are_contiguous_and_disjoint() {
    for workers in 1..=9usize {
        let ranges = partition(1000, 32, workers);
        assert_eq!(ranges.len(), workers);
        let mut next = 33u64;
        for r in &ranges {
            if r.low <= r.high {
                assert_eq!(r.low, next);
                next = r.high + 1;
            }
        }
        assert_eq!(next, 1001);
    }
}

#[test]
fn last_range_may_be_shorter() {
    let ranges = partition(100, 10, 4);
    assert_eq!(ranges, vec![
        Range { low: 11, high: 33 },
        Range { low: 34, high: 56 },
        Range { low: 57, high: 79 },
        Range { low: 80, high: 100 },
    ]);
}

#[test]
fn more_workers_than_values() {
    let ranges = partition(5, 3, 4);
    assert_eq!(ranges, vec![
        Range { low: 4, high: 4 },
        Range { low: 5, high: 5 },
        Range { low: 6, high: 5 },
        Range { low: 7, high: 5 },
    ]);
}

#[test]
fn nothing_above_the_base_primes() {
    let ranges = partition(4, 4, 3);
    assert_eq!(ranges.len(), 3);
    assert_eq!(ranges, vec![Range { low: 5, high: 4 }; 3]);
}

#[test]
fn empty_shares_start_where_the_formula_says() {
    let ranges = partition(20, 5, 8);
    // 15 candidates among 8 workers: 2 each, from 6 on
    assert_eq!(ranges[6], Range { low: 18, high: 19 });
    assert_eq!(ranges[7], Range { low: 20, high: 20 });
    let ranges = partition(10, 4, 4);
    assert_eq!(ranges[3], Range { low: 11, high: 10 });
}

#[test]
fn ceil_sqrt_values() {
    assert_eq!(ceil_sqrt(0), 0);
    assert_eq!(ceil_sqrt(1), 1);
    assert_eq!(ceil_sqrt(2), 2);
    assert_eq!(ceil_sqrt(10), 4);
    assert_eq!(ceil_sqrt(10000), 100);
    assert_eq!(ceil_sqrt(10001), 101);
    assert_eq!(ceil_sqrt(u64::MAX), 4294967296);
}
