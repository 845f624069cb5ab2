use rust_prime::coordinator::{Coordinator, drain_ready};
use rust_prime::sieve::primes_below;
use rust_prime::workers::{cell_result, covers_square_root};
use rust_prime::Queue;

#[test]
fn drain_ready_takes_results_up_to_the_first_pending_cell() {
    let mut q = Queue::<8>::new();
    q.push(3);
    q.push(1);
    q.push(5);
    let pending = q.push(0);
    q.push(7);
    let mut out = vec![2];
    drain_ready(&mut q, &mut out);
    assert_eq!(out, vec![2, 3, 5]);
    assert!(!q.is_empty());
    q.update(pending, 1);
    drain_ready(&mut q, &mut out);
    assert_eq!(out, vec![2, 3, 5, 7]);
    assert!(q.is_empty());
}

#[test]
fn dispatch_through_limit_stops_at_the_limit() {
    let mut c = Coordinator::<16>::new(100);
    // The first round stops at 2 * 2: only 3 is handed out.
    assert_eq!(c.dispatch_through_limit(), vec![(0, 3)]);
    assert_eq!(c.dispatch_through_limit(), vec![]);
    c.record(0, 3);
    assert_eq!(c.collect(), vec![3]);
    assert!(c.publish_due());
    let mut primes = vec![2];
    c.publish_squared(&mut primes);
    assert_eq!(primes, vec![2, 3]);
    // Now the limit is 9: 5, 7 and 9 go out.
    assert_eq!(c.dispatch_through_limit(), vec![(1, 5), (2, 7), (3, 9)]);
}

#[test]
fn dispatch_through_limit_stops_when_the_buffer_is_full() {
    let mut c = Coordinator::<3>::new(1000);
    let mut primes = vec![2];
    c.dispatch_through_limit();
    c.record(0, 3);
    c.collect();
    c.publish_squared(&mut primes);
    // Three cells hold at most two live entries.
    assert_eq!(c.dispatch_through_limit(), vec![(1, 5), (2, 7)]);
    assert_eq!(c.dispatch_through_limit(), vec![]);
}

#[test]
fn dispatch_if_idle_hands_out_one_at_a_time() {
    let mut c = Coordinator::<4>::new(100);
    assert_eq!(c.dispatch_if_idle(), Some((0, 3)));
    assert_eq!(c.dispatch_if_idle(), None);
    c.record(0, 3);
    assert_eq!(c.collect(), vec![3]);
    // 5 is not below the limit 4 yet.
    assert_eq!(c.dispatch_if_idle(), None);
    assert!(c.batch_publish_due());
    let mut primes = vec![2];
    c.publish_capped(&mut primes);
    assert_eq!(primes, vec![2, 3]);
    assert_eq!(c.dispatch_if_idle(), Some((1, 5)));
}

#[test]
fn last_pending_is_the_newest_waiting_prime() {
    let mut c = Coordinator::<8>::new(100);
    assert_eq!(c.last_pending(), None);
    c.dispatch_through_limit();
    c.record(0, 3);
    c.collect();
    assert_eq!(c.last_pending(), Some(3));
}

fn run_single_channel(halt: usize) -> Vec<usize> {
    let mut primes = vec![2usize];
    let mut printed = vec![];
    let mut c = Coordinator::<64>::new(halt);
    loop {
        for (cell, test) in c.dispatch_through_limit() {
            c.record(cell, cell_result(test, &primes));
        }
        printed.extend(c.collect());
        if c.publish_due() {
            c.publish_squared(&mut primes);
        }
        if c.finished() {
            break;
        }
    }
    assert_eq!(primes[1..], printed[..]);
    primes
}

#[test]
fn single_channel_decisions_find_the_primes_up_to_the_halt() {
    for halt in [3, 4, 10, 30, 31, 1000, 20_000] {
        assert_eq!(run_single_channel(halt), primes_below(halt + 1));
    }
}

fn run_per_thread_channels(halt: usize) -> Vec<usize> {
    let mut primes = vec![2usize];
    let mut c = Coordinator::<64>::new(halt);
    loop {
        if let Some((cell, test)) = c.dispatch_if_idle() {
            c.record(cell, cell_result(test, &primes));
        }
        c.collect();
        if c.batch_publish_due() {
            c.publish_capped(&mut primes);
        }
        if c.finished_and_published() {
            break;
        }
    }
    primes
}

#[test]
fn per_thread_channel_decisions_find_the_primes_below_the_halt() {
    for halt in [4, 10, 30, 31, 1000, 20_000] {
        assert_eq!(run_per_thread_channels(halt), primes_below(halt));
    }
    // The first candidate goes out before the halt caps the limit.
    assert_eq!(run_per_thread_channels(3), vec![2, 3]);
}

fn run_copy_on_write(halt: usize) -> Vec<usize> {
    let mut primes = vec![2usize];
    let mut c = Coordinator::<64>::new(halt);
    loop {
        for (cell, test) in c.dispatch_below_limit() {
            assert!(covers_square_root(test, &primes));
            c.record(cell, cell_result(test, &primes));
        }
        c.collect_into(&mut primes);
        if c.limit_reached() {
            c.refresh_limit(&primes);
        }
        if c.finished() {
            break;
        }
    }
    primes
}

#[test]
fn copy_on_write_decisions_find_the_primes_below_the_halt() {
    for halt in [4, 10, 30, 31, 1000, 20_000] {
        assert_eq!(run_copy_on_write(halt), primes_below(halt));
    }
}
