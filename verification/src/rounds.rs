//! One round of the search: the candidates from `test` up to the next limit are checked
//! against the primes known when the round starts (through chili, orx-parallel or
//! par-iter) and the new primes are appended in ascending order.
use vstd::prelude::*;
use chili::Scope;
use core::ops::Range;
use orx_parallel::{IntoParIter, Par};
use par_iter::iter::{IntoParallelIterator, ParallelExtend, ParallelIterator};
use crate::chili_tree::find_primes_in_range;
use crate::primality::check_primality;
use crate::sieve::{next_test_limit, survivors_in_range};

verus! {

/// The survivors of `range` computed by orx-parallel:
/// `range.into_par().filter(..).collect()`. With the default iteration order, orx-parallel's
/// `collect` returns exactly what the sequential filter and collect return; the filter
/// only calls `check_primality`. Taken on trust: that ordered collect of orx-parallel.
#[verifier::external_body]
fn orx_survivors(primes: &[usize], range: Range<usize>) -> (found: Vec<usize>)
    ensures
        found@ == survivors_in_range(primes@, range.start as nat, range.end as nat),
{
    range.into_par().filter(|&test| check_primality(test, primes)).collect()
}

/// Appends the survivors of `range` to `primes` through par-iter's `ParallelExtend` for
/// `Vec`, which keeps the order of the (filtered) range; the filter only calls
/// `check_primality` against `known`. Taken on trust: that `par_extend` appends exactly
/// the filtered items, in range order.
#[verifier::external_body]
fn par_extend_survivors(primes: &mut Vec<usize>, known: &[usize], range: Range<usize>)
    ensures
        final(primes)@ == old(primes)@ + survivors_in_range(
            known@,
            range.start as nat,
            range.end as nat,
        ),
{
    primes.par_extend(range.into_par_iter().filter(|&test| check_primality(test, known)))
}

/// One round with orx-parallel: finds the survivors of `[test, limit)` against `primes`,
/// where `limit` is `next_test_limit(primes, test_halt)`, appends them, and returns `limit`.
pub fn orx_round(primes: &mut Vec<usize>, test: usize, test_halt: usize) -> (test_limit: usize)
    requires
        old(primes).len() > 0,
        old(primes)@.last() * old(primes)@.last() <= usize::MAX,
    ensures
        test_limit == if old(primes)@.last() * old(primes)@.last() <= test_halt {
            old(primes)@.last() * old(primes)@.last()
        } else {
            test_halt as int
        },
        final(primes)@ == old(primes)@ + survivors_in_range(
            old(primes)@,
            test as nat,
            test_limit as nat,
        ),
{
    let test_limit = next_test_limit(primes.as_slice(), test_halt);
    let new_primes = orx_survivors(primes.as_slice(), test..test_limit);
    let mut new_primes = new_primes;
    primes.append(&mut new_primes);
    test_limit
}

/// One round with par-iter: copies the known primes, then extends the list in parallel
/// with the survivors of `[test, limit)` against the copy, and returns `limit`.
pub fn par_iter_round(primes: &mut Vec<usize>, test: usize, test_halt: usize) -> (test_limit:
    usize)
    requires
        old(primes).len() > 0,
        old(primes)@.last() * old(primes)@.last() <= usize::MAX,
    ensures
        test_limit == if old(primes)@.last() * old(primes)@.last() <= test_halt {
            old(primes)@.last() * old(primes)@.last()
        } else {
            test_halt as int
        },
        final(primes)@ == old(primes)@ + survivors_in_range(
            old(primes)@,
            test as nat,
            test_limit as nat,
        ),
{
    let test_limit = next_test_limit(primes.as_slice(), test_halt);
    let primes_copy = primes.clone();
    assert(primes_copy@ =~= primes@);
    par_extend_survivors(primes, primes_copy.as_slice(), test..test_limit);
    test_limit
}

/// One round with chili: searches `[test, limit)` with `find_primes_in_range` and appends
/// its batches in order, then returns `limit`.
pub fn chili_round(scope: &mut Scope<'_>, primes: &mut Vec<usize>, test: usize, test_halt: usize) -> (test_limit: usize)
    requires
        old(primes).len() > 0,
        old(primes)@.last() * old(primes)@.last() <= usize::MAX,
    ensures
        test_limit == if old(primes)@.last() * old(primes)@.last() <= test_halt {
            old(primes)@.last() * old(primes)@.last()
        } else {
            test_halt as int
        },
        final(primes)@ == old(primes)@ + survivors_in_range(
            old(primes)@,
            test as nat,
            test_limit as nat,
        ),
{
    let test_limit = next_test_limit(primes.as_slice(), test_halt);
    let mut tree = find_primes_in_range(scope, primes.as_slice(), test..test_limit);
    let ghost start = primes@;
    let ghost all = tree.batches();
    let ghost mut taken: nat = 0;
    loop
        invariant
            taken <= all.len(),
            tree.batches() == all.subrange(taken as int, all.len() as int),
            primes@ == start + all.subrange(0, taken as int).flatten(),
        ensures
            primes@ == start + all.flatten(),
        decreases all.len() - taken,
    {
        match tree.next() {
            Some(batch) => {
                let mut batch = batch;
                proof {
                    let done = all.subrange(0, taken as int);
                    assert(all.subrange(0, taken + 1int) =~= done.push(batch@));
                    done.lemma_flatten_push(batch@);
                    assert(all.subrange(taken + 1int, all.len() as int) =~= all.subrange(
                        taken as int,
                        all.len() as int,
                    ).drop_first());
                    taken = taken + 1;
                }
                primes.append(&mut batch);
                assert(primes@ =~= start + all.subrange(0, taken as int).flatten());
            },
            None => {
                assert(all.subrange(0, taken as int) =~= all);
                break ;
            },
        }
    }
    test_limit
}

} // verus!
