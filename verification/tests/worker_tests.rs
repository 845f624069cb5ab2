use rust_prime::workers::{
    cell_result, covers_square_root, halves, odd_candidate_survives, trial_reaches_zero, trial_result,
};

#[test]
fn cell_result_marks_composites_with_one() {
    assert_eq!(cell_result(9, &[2, 3]), 1);
    assert_eq!(cell_result(7, &[2, 3]), 7);
    assert_eq!(cell_result(97, &[2, 3, 5, 7]), 97);
}

#[test]
fn trial_result_marks_composites_with_zero() {
    assert_eq!(trial_result(9, 3, &[2, 3]), 0);
    assert_eq!(trial_result(11, 3, &[2, 3]), 11);
    // Entries above the bound are not tried, even when they divide.
    assert_eq!(trial_result(21, 2, &[2, 3, 7]), 21);
    // A zero after a divisor is never reached.
    assert_eq!(trial_result(4, 5, &[2, 0]), 0);
}

#[test]
fn odd_candidate_filter_skips_even_numbers_and_the_two() {
    assert!(!odd_candidate_survives(4, 2, &[2, 3]));
    assert!(!odd_candidate_survives(9, 3, &[2, 3]));
    assert!(odd_candidate_survives(11, 3, &[2, 3, 5]));
    assert!(odd_candidate_survives(3, 1, &[2]));
    assert!(odd_candidate_survives(3, 1, &[]));
}

#[test]
fn covers_square_root_compares_with_the_last_prime() {
    assert!(covers_square_root(50, &[2, 3, 5, 7]));
    assert!(covers_square_root(63, &[2, 3, 5, 7]));
    assert!(!covers_square_root(64, &[2, 3, 5, 7]));
}

#[test]
fn halves_split_long_ranges_at_the_midpoint() {
    assert_eq!(halves(0..5), None);
    assert_eq!(halves(7..3), None);
    assert_eq!(halves(0..9_999), None);
    assert_eq!(halves(0..10_000), Some((0..5_000, 5_000..10_000)));
    assert_eq!(halves(3..20_004), Some((3..10_003, 10_003..20_004)));
}

#[test]
fn trial_reaches_zero_only_before_a_divisor() {
    assert!(trial_reaches_zero(9, 3, &[2, 0, 3]));
    assert!(!trial_reaches_zero(4, 3, &[2, 0]));
    assert!(!trial_reaches_zero(9, 1, &[2, 0]));
    assert!(!trial_reaches_zero(9, 3, &[2, 3]));
    assert!(trial_reaches_zero(0, 0, &[0]));
    assert!(!trial_reaches_zero(5, 3, &[]));
}
