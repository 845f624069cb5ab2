use rust_prime::buffered::primes_below_buffered;
use rust_prime::sieve::{next_test_limit, primes_below, primes_in_range, vl0};

const PRIMES_BELOW_100: [usize; 25] = [
    2, 3, 5, 7, 11, 13, 17, 19, 23, 29, 31, 37, 41, 43, 47, 53, 59, 61, 67, 71, 73, 79, 83, 89, 97,
];

#[test]
fn primes_below_lists_every_prime_below_the_halt() {
    assert_eq!(primes_below(100), PRIMES_BELOW_100.to_vec());
    assert_eq!(primes_below(30), vec![2, 3, 5, 7, 11, 13, 17, 19, 23, 29]);
    assert_eq!(primes_below(29), vec![2, 3, 5, 7, 11, 13, 17, 19, 23]);
}

#[test]
fn primes_below_small_halts() {
    assert_eq!(primes_below(0), vec![2]);
    assert_eq!(primes_below(2), vec![2]);
    assert_eq!(primes_below(3), vec![2]);
    assert_eq!(primes_below(4), vec![2, 3]);
    assert_eq!(primes_below(6), vec![2, 3, 5]);
}

#[test]
fn primes_below_counts_the_primes_below_a_million() {
    assert_eq!(primes_below(1_000_000).len(), 78_498);
}

#[test]
fn buffered_search_agrees_with_the_plain_one() {
    assert_eq!(primes_below_buffered::<2>(100), PRIMES_BELOW_100.to_vec());
    assert_eq!(primes_below_buffered::<3>(100), PRIMES_BELOW_100.to_vec());
    assert_eq!(primes_below_buffered::<200_000>(100), PRIMES_BELOW_100.to_vec());
    for halt in 0..400 {
        assert_eq!(primes_below_buffered::<5>(halt), primes_below(halt));
    }
    assert_eq!(primes_below_buffered::<200_000>(200_000), primes_below(200_000));
}

#[test]
fn primes_in_range_filters_in_order() {
    assert_eq!(primes_in_range(&[2, 3, 5, 7], 50..60), vec![53, 59]);
    assert_eq!(primes_in_range(&[2, 3, 5, 7], 3..50), PRIMES_BELOW_100[1..15].to_vec());
    assert_eq!(primes_in_range(&[2, 3], 60..50), Vec::<usize>::new());
    assert_eq!(primes_in_range(&[2], 3..4), vec![3]);
}

#[test]
fn next_test_limit_is_the_square_or_the_halt() {
    assert_eq!(next_test_limit(&[2, 3], 100), 9);
    assert_eq!(next_test_limit(&[2, 3, 5, 7], 20), 20);
    assert_eq!(next_test_limit(&[2], 4), 4);
}

#[test]
fn vl0_squares_the_last_entry() {
    assert_eq!(vl0(&vec![]), 0);
    assert_eq!(vl0(&vec![2]), 4);
    assert_eq!(vl0(&vec![3, 7]), 49);
}

#[test]
fn buffered_search_with_a_tiny_buffer_and_no_candidates() {
    assert_eq!(primes_below_buffered::<1>(3), vec![2]);
    assert_eq!(primes_below_buffered::<0>(2), vec![2]);
}
