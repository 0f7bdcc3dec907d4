use classic_algos::sieve::{plan_segments, sieve_single, sieve_threaded};

#[test]
fn single_limit_zero_is_empty() {
    assert_eq!(sieve_single(0), Vec::<usize>::new());
}

#[test]
fn single_limit_one_is_empty() {
    assert_eq!(sieve_single(1), Vec::<usize>::new());
}

#[test]
fn single_limit_two() {
    assert_eq!(sieve_single(2), vec![2]);
}

#[test]
fn single_limit_thirty() {
    assert_eq!(sieve_single(30), vec![2, 3, 5, 7, 11, 13, 17, 19, 23, 29]);
}

#[test]
fn single_limit_hundred() {
    let primes = sieve_single(100);
    assert_eq!(primes.len(), 25);
    assert_eq!(*primes.last().unwrap(), 97);
}

#[test]
fn threaded_limit_below_two_is_empty_for_any_worker_count() {
    for workers in [0, 1, 2, 5, 64] {
        assert_eq!(sieve_threaded(0, workers), Vec::<usize>::new());
        assert_eq!(sieve_threaded(1, workers), Vec::<usize>::new());
    }
}

#[test]
fn threaded_limit_two() {
    assert_eq!(sieve_threaded(2, 4), vec![2]);
}

#[test]
fn threaded_limit_thirty_one_worker() {
    assert_eq!(
        sieve_threaded(30, 1),
        vec![2, 3, 5, 7, 11, 13, 17, 19, 23, 29]
    );
}

#[test]
fn threaded_limit_thirty_four_workers() {
    assert_eq!(
        sieve_threaded(30, 4),
        vec![2, 3, 5, 7, 11, 13, 17, 19, 23, 29]
    );
}

#[test]
fn threaded_limit_hundred_eight_workers() {
    let primes = sieve_threaded(100, 8);
    assert_eq!(primes.len(), 25);
    assert_eq!(*primes.last().unwrap(), 97);
}

#[test]
fn threaded_matches_single_for_many_worker_counts() {
    for limit in [2, 3, 10, 31, 97, 1000] {
        let reference = sieve_single(limit);
        for workers in [1, 2, 3, 7, limit + 2] {
            assert_eq!(sieve_threaded(limit, workers), reference);
        }
    }
}

#[test]
fn threaded_is_deterministic() {
    let first = sieve_threaded(500, 3);
    let second = sieve_threaded(500, 3);
    assert_eq!(first, second);
}

#[test]
fn stress_million_all_worker_counts() {
    let reference = sieve_single(1_000_000);
    assert_eq!(reference.len(), 78_498);
    for workers in 1..=16 {
        assert_eq!(sieve_threaded(1_000_000, workers), reference);
    }
}

#[test]
fn planner_exact_segments() {
    // span 11, 4 workers: chunk = ceil(11 / 4) = 3.
    let segs = plan_segments(10, 4);
    assert_eq!(segs, vec![(0, 3), (3, 6), (6, 9), (9, 11)]);
}

#[test]
fn planner_trailing_segments_may_be_empty() {
    // span 3, 5 workers: chunk = 1, last two segments are empty.
    let segs = plan_segments(2, 5);
    assert_eq!(segs, vec![(0, 1), (1, 2), (2, 3), (3, 3), (3, 3)]);
}

#[test]
fn planner_zero_workers_clamped_to_one() {
    let segs = plan_segments(9, 0);
    assert_eq!(segs, vec![(0, 10)]);
}

#[test]
fn planner_segments_partition_the_domain() {
    for (limit, workers) in [(0, 1), (1, 3), (10, 4), (100, 7), (99, 100)] {
        let segs = plan_segments(limit, workers);
        let mut seen = vec![0u32; limit + 1];
        for (start, end) in segs {
            for v in start..end {
                seen[v] += 1;
            }
        }
        // Pairwise disjoint and covering: each value owned exactly once.
        assert!(seen.iter().all(|&c| c == 1));
    }
}
