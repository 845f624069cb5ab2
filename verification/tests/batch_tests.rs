use rust_prime::atomic_steps::{FrontStep, dispatch_due, front_step, publish_due, search_done};
use rust_prime::range_batches::{RangeBatches, next_range};
use rust_prime::sieve::{next_test_limit, primes_below, primes_in_range};
use rust_prime::task_ring::TaskRing;
use rust_prime::workers::trial_result;

#[test]
fn range_batches_publish_in_start_order() {
    let mut b = RangeBatches::new();
    assert!(b.is_empty());
    b.insert(10, None);
    b.insert(20, None);
    b.insert(30, None);
    assert_eq!(b.len(), 3);
    b.insert(20, Some(vec![23, 29]));
    assert!(!b.front_done());
    let mut primes = vec![2, 3, 5, 7];
    assert_eq!(b.take_done(&mut primes), 0);
    b.insert(10, Some(vec![11, 13, 17, 19]));
    assert!(b.front_done());
    assert_eq!(b.take_done(&mut primes), 2);
    assert_eq!(primes, vec![2, 3, 5, 7, 11, 13, 17, 19, 23, 29]);
    assert_eq!(b.len(), 1);
    b.insert(30, Some(vec![31, 37]));
    assert_eq!(b.take_done(&mut primes), 1);
    assert!(b.is_empty());
}

#[test]
fn range_batches_insert_keeps_starts_sorted() {
    let mut b = RangeBatches::new();
    b.insert(30, Some(vec![31]));
    b.insert(10, Some(vec![11]));
    b.insert(20, Some(vec![]));
    let mut primes = vec![];
    assert_eq!(b.take_done(&mut primes), 3);
    assert_eq!(primes, vec![11, 31]);
}

#[test]
fn next_range_is_cut_at_the_limit() {
    assert_eq!(next_range(3, 4), 3..4);
    assert_eq!(next_range(9, 100_000), 9..10_009);
    assert_eq!(next_range(9, 49), 9..49);
}

#[test]
fn range_decisions_find_the_primes_below_the_halt() {
    for halt in [4, 10, 1000, 50_000] {
        let mut primes = vec![2usize];
        let mut b = RangeBatches::new();
        let mut test = 3;
        let mut test_limit = 4;
        let mut outstanding = vec![];
        while b.search_continues(test, halt) {
            while b.dispatch_due(test, test_limit, 1000) {
                let range = next_range(test, test_limit);
                let end = range.end;
                b.insert(test, None);
                outstanding.push(range);
                test = end;
            }
            // Answer the newest range first.
            if let Some(range) = outstanding.pop() {
                let start = range.start;
                b.insert(start, Some(primes_in_range(&primes, range)));
            }
            if b.front_done() {
                b.take_done(&mut primes);
                test_limit = next_test_limit(&primes, halt);
            }
        }
        assert_eq!(primes, primes_below(halt));
    }
}

#[test]
fn task_ring_reserves_settles_and_drains() {
    let mut ring = TaskRing::<4>::new();
    assert!(ring.can_pump(3, 100, 9));
    assert!(!ring.can_pump(9, 100, 9));
    assert!(!ring.can_pump(3, 3, 9));
    assert_eq!(ring.reserve(), 0);
    assert_eq!(ring.reserve(), 1);
    assert_eq!(ring.reserve(), 2);
    assert!(!ring.can_pump(3, 100, 9));
    assert!(!ring.all_settled());
    ring.settle(0, 3);
    ring.settle(1, 0);
    assert!(!ring.all_settled());
    ring.settle(2, 7);
    assert!(ring.all_settled());
    let mut primes = vec![2u64];
    ring.drain_settled(&mut primes);
    assert_eq!(primes, vec![2, 3, 7]);
    assert!(ring.all_settled());
    assert_eq!(ring.reserve(), 3);
    assert_eq!(ring.reserve(), 0);
}

#[test]
fn task_ring_decisions_find_the_primes_below_the_halt() {
    let halt = 20_000u64;
    let mut primes = vec![2u64];
    let mut test = 3u64;
    let mut limit = 4u64;
    let mut ring = TaskRing::<64>::new();
    loop {
        let mut handed = vec![];
        while ring.can_pump(test, halt, limit) {
            handed.push((ring.reserve(), test));
            test += 2;
        }
        for (cell, candidate) in handed {
            let mut max = 0u64;
            while (max + 1) * (max + 1) <= candidate {
                max += 1;
            }
            ring.settle(cell, trial_result(candidate, max, &primes));
        }
        assert!(ring.all_settled());
        ring.drain_settled(&mut primes);
        let last = *primes.last().unwrap();
        limit = last * last;
        if test >= halt {
            break;
        }
    }
    let expected: Vec<u64> = primes_below(halt as usize).into_iter().map(|p| p as u64).collect();
    assert_eq!(primes, expected);
}

#[test]
fn front_step_reads_the_answer() {
    assert_eq!(front_step(0, true), FrontStep::Stop);
    assert_eq!(front_step(0, false), FrontStep::Wait);
    assert_eq!(front_step(1, false), FrontStep::Skip);
    assert_eq!(front_step(7, true), FrontStep::Take(7));
}

#[test]
fn atomic_search_conditions() {
    assert!(dispatch_due(9, 9, 100, 0));
    assert!(!dispatch_due(11, 9, 100, 0));
    assert!(!dispatch_due(9, 9, 7, 0));
    assert!(!dispatch_due(3, 9, 100, 200_000));
    assert!(publish_due(9, 9, 100, 1));
    assert!(publish_due(7, 9, 7, 1));
    assert!(!publish_due(9, 9, 100, 0));
    assert!(!publish_due(7, 9, 100, 3));
    assert!(search_done(101, 100, 0));
    assert!(!search_done(101, 100, 1));
    assert!(!search_done(99, 100, 0));
}
