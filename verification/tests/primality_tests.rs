use rust_prime::check_primality;
use rust_prime::primality::isqrt;

#[test]
fn isqrt_rounds_down() {
    assert_eq!(isqrt(0), 0);
    assert_eq!(isqrt(1), 1);
    assert_eq!(isqrt(15), 3);
    assert_eq!(isqrt(16), 4);
    assert_eq!(isqrt(17), 4);
    assert_eq!(isqrt(1_000_000), 1000);
    assert_eq!(isqrt(99), 9);
}

#[test]
fn isqrt_matches_std() {
    for n in 0..10_000usize {
        assert_eq!(isqrt(n), n.isqrt());
    }
    assert_eq!(isqrt(usize::MAX), usize::MAX.isqrt());
}

#[test]
fn composite_is_caught_by_a_small_prime() {
    assert!(!check_primality(9, &[2, 3]));
    assert!(!check_primality(49, &[2, 3, 5, 7]));
    assert!(!check_primality(4, &[2]));
}

#[test]
fn prime_survives_trial_division() {
    assert!(check_primality(7, &[2]));
    assert!(check_primality(11, &[2, 3, 5, 7]));
    assert!(check_primality(97, &[2, 3, 5, 7]));
}

#[test]
fn only_primes_up_to_the_square_root_are_tried() {
    // 7 divides 49 but 7 is above isqrt(48) = 6, so it is never reached for 48's sake;
    // 35 = 5 * 7: isqrt(35) = 5, so 5 is reached.
    assert!(!check_primality(35, &[2, 3, 5, 7]));
    // With a list missing 5, 25 slips through: trial division only knows the list it gets.
    assert!(check_primality(25, &[2, 3, 7]));
    // The walk stops at the first entry above the square root, even if smaller ones follow.
    assert!(check_primality(15, &[2, 7, 3]));
}

#[test]
fn zero_entries_follow_is_multiple_of() {
    assert!(check_primality(4, &[0]));
    assert!(!check_primality(0, &[0]));
    assert!(check_primality(0, &[]));
    assert!(check_primality(1, &[2]));
}
