use chili::Scope;
use rust_prime::chili_tree::{PrimeChiliTree, find_primes_in_range};
use rust_prime::rounds::{chili_round, orx_round, par_iter_round};
use rust_prime::sieve::primes_below;

fn rounds_until(halt: usize, mut round: impl FnMut(&mut Vec<usize>, usize) -> usize) -> Vec<usize> {
    let mut primes = vec![2usize];
    let mut test = 3;
    while test < halt {
        test = round(&mut primes, test);
    }
    primes
}

#[test]
fn orx_round_extends_to_the_limit() {
    let mut primes = vec![2usize, 3];
    let limit = orx_round(&mut primes, 4, 100);
    assert_eq!(limit, 9);
    assert_eq!(primes, vec![2, 3, 5, 7]);
    let limit = orx_round(&mut primes, 9, 30);
    assert_eq!(limit, 30);
    assert_eq!(primes, vec![2, 3, 5, 7, 11, 13, 17, 19, 23, 29]);
}

#[test]
fn orx_rounds_find_the_same_primes() {
    for halt in [4, 10, 100, 1000, 50_000] {
        assert_eq!(rounds_until(halt, |p, t| orx_round(p, t, halt)), primes_below(halt));
    }
}

#[test]
fn par_iter_round_extends_to_the_limit() {
    let mut primes = vec![2usize, 3, 5, 7];
    let limit = par_iter_round(&mut primes, 9, 100);
    assert_eq!(limit, 49);
    assert_eq!(primes, vec![2, 3, 5, 7, 11, 13, 17, 19, 23, 29, 31, 37, 41, 43, 47]);
}

#[test]
fn par_iter_rounds_find_the_same_primes() {
    for halt in [4, 10, 100, 1000, 50_000] {
        assert_eq!(rounds_until(halt, |p, t| par_iter_round(p, t, halt)), primes_below(halt));
    }
}

#[test]
fn chili_rounds_find_the_same_primes() {
    let mut scope = Scope::global();
    for halt in [4, 10, 100, 1000, 100_000] {
        assert_eq!(rounds_until(halt, |p, t| chili_round(&mut scope, p, t, halt)), primes_below(halt));
    }
}

#[test]
fn chili_search_splits_long_ranges_and_keeps_order() {
    let mut scope = Scope::global();
    let known = primes_below(200);
    let mut tree = find_primes_in_range(&mut scope, &known, 200..40_000);
    let mut found = Vec::new();
    let mut batches = 0;
    while let Some(batch) = tree.next() {
        found.extend(batch);
        batches += 1;
    }
    assert!(batches > 1);
    let expected: Vec<usize> = primes_below(40_000).into_iter().filter(|&p| p >= 200).collect();
    assert_eq!(found, expected);
}

#[test]
fn chili_tree_hands_out_batches_in_order() {
    let a = PrimeChiliTree::base(vec![3, 5]);
    let b = PrimeChiliTree::base(vec![]);
    let c = PrimeChiliTree::base(vec![7]);
    let mut tree = PrimeChiliTree::recurse(PrimeChiliTree::recurse(a, b), c);
    assert_eq!(tree.next(), Some(vec![3, 5]));
    assert_eq!(tree.next(), Some(vec![]));
    assert_eq!(tree.next(), Some(vec![7]));
    assert_eq!(tree.next(), None);
    assert_eq!(tree.next(), None);
}
