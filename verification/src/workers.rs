//! What a worker thread computes for one candidate, apart from the channels and locks
//! that bring it the candidate and take its answer away.
use vstd::prelude::*;
use core::ops::Range;
use crate::THREAD_WORK_LIMIT;
use crate::primality::is_prime;
use crate::sieve::{lemma_trial_division_decides, lists_primes_below};
use crate::task_ring::as_usize;
use crate::primality::{
    check_primality, floor_sqrt, isqrt, is_multiple_of, reached, survives_trial_division,
};

verus! {

/// The value a worker stores in a candidate's result cell: the candidate itself when it
/// survives trial division by `primes`, `1` (composite) otherwise.
pub fn cell_result(test: usize, primes: &[usize]) -> (cell: usize)
    ensures
        cell == if survives_trial_division(test as nat, primes@) {
            test
        } else {
            1
        },
{
    if check_primality(test, primes) {
        test
    } else {
        1
    }
}

/// Whether the largest known prime reaches the square root of `test`, so that the known
/// primes suffice to check it.
pub fn covers_square_root(test: usize, primes: &[usize]) -> (covered: bool)
    requires
        primes.len() > 0,
    ensures
        covered == (primes@.last() >= floor_sqrt(test as nat)),
{
    let max = isqrt(test);
    let last = primes[primes.len() - 1];
    !(last < max)
}

/// The two halves that a range of candidates is split into before they are searched in
/// parallel: `None` when the range holds fewer than `THREAD_WORK_LIMIT` candidates,
/// otherwise the halves below and from its midpoint.
pub fn halves(range: Range<usize>) -> (split: Option<(Range<usize>, Range<usize>)>)
    ensures
        split is None <==> (range.start >= range.end || range.end - range.start
            < THREAD_WORK_LIMIT),
        split matches Some((a, b)) ==> {
            &&& a.start == range.start
            &&& a.end == b.start
            &&& b.end == range.end
            &&& a.end == (range.start + range.end) / 2
            &&& range.start < a.end < range.end
        },
{
    let start = range.start;
    let end = range.end;
    if start >= end || end - start < THREAD_WORK_LIMIT {
        return None;
    }
    let mid = start + (end - start) / 2;
    Some((start..mid, mid..end))
}

/// Every entry of `s` up to and including index `j` is at most `max`.
pub open spec fn reached_u64(s: Seq<u64>, j: int, max: nat) -> bool {
    forall|k: int| 0 <= k <= j ==> s[k] <= max
}

/// No entry of `s` that a walk stopping at the first entry above `max` reaches divides
/// `test`.
pub open spec fn no_divisor_up_to(test: nat, s: Seq<u64>, max: nat) -> bool {
    forall|j: int|
        0 <= j < s.len() && #[trigger] reached_u64(s, j, max) ==> !is_multiple_of(
            test as int,
            s[j] as int,
        )
}

/// That walk, dividing by each entry in turn, would reach a `0` before any divisor: the
/// remainder by zero that the walk cannot take.
pub open spec fn hits_zero(test: nat, s: Seq<u64>, max: nat) -> bool {
    exists|j: int|
        0 <= j < s.len() && #[trigger] reached_u64(s, j, max) && s[j] == 0 && forall|k: int|
            0 <= k < j ==> s[k] != 0 && test % (s[k] as nat) != 0
}

/// `primes` without its first entry (empty stays empty).
pub open spec fn after_first(s: Seq<u64>) -> Seq<u64> {
    if s.len() == 0 {
        s
    } else {
        s.drop_first()
    }
}

/// Walks `primes` from index `from` while the entries are at most `max`, and reports
/// whether none of them divides `test`.
fn no_divisor_from(test: u64, max: u64, primes: &[u64], from: usize) -> (none: bool)
    requires
        from <= primes.len(),
        !hits_zero(test as nat, primes@.subrange(from as int, primes.len() as int), max as nat),
    ensures
        none == no_divisor_up_to(
            test as nat,
            primes@.subrange(from as int, primes.len() as int),
            max as nat,
        ),
{
    let ghost s = primes@.subrange(from as int, primes.len() as int);
    let mut i = from;
    while i < primes.len()
        invariant
            from <= i <= primes.len(),
            s == primes@.subrange(from as int, primes.len() as int),
            !hits_zero(test as nat, s, max as nat),
            forall|k: int|
                0 <= k < i - from ==> s[k] <= max && s[k] != 0 && (test as nat) % (s[k] as nat) != 0,
        decreases primes.len() - i,
    {
        let p = primes[i];
        assert(p == s[i - from]);
        if p > max {
            proof {
                assert forall|j: int|
                    0 <= j < s.len() && #[trigger] reached_u64(s, j, max as nat) implies !is_multiple_of(
                    test as int,
                    s[j] as int,
                ) by {
                    if j >= i - from {
                        assert(s[i - from] <= max);
                    }
                }
            }
            return true;
        }
        proof {
            assert(reached_u64(s, i - from, max as nat));
        }
        if p == 0 {
            assert(false);
        }
        if test % p == 0 {
            return false;
        }
        i += 1;
    }
    proof {
        assert forall|j: int|
            0 <= j < s.len() && #[trigger] reached_u64(s, j, max as nat) implies !is_multiple_of(
            test as int,
            s[j] as int,
        ) by {}
    }
    true
}

/// Whether the walk along `primes` up to `max` would divide `test` by a zero entry before
/// it meets a divisor or an entry above `max`.
pub fn trial_reaches_zero(test: u64, max: u64, primes: &[u64]) -> (zero: bool)
    ensures
        zero == hits_zero(test as nat, primes@, max as nat),
{
    let ghost s = primes@;
    let mut i: usize = 0;
    while i < primes.len()
        invariant
            s == primes@,
            i <= primes.len(),
            forall|k: int| 0 <= k < i ==> s[k] <= max && s[k] != 0 && (test as nat) % (s[k] as nat) != 0,
        decreases primes.len() - i,
    {
        let p = primes[i];
        if p > max {
            proof {
                assert forall|j: int| 0 <= j < s.len() && #[trigger] reached_u64(s, j, max as nat)
                    && s[j] == 0 implies !(forall|k: int| 0 <= k < j ==> s[k] != 0 && (test as nat)
                    % (s[k] as nat) != 0) by {
                    if j >= i {
                        assert(s[i as int] <= max);
                    }
                }
            }
            return false;
        }
        if p == 0 {
            proof {
                assert(reached_u64(s, i as int, max as nat));
            }
            return true;
        }
        if test % p == 0 {
            proof {
                assert forall|j: int| 0 <= j < s.len() && #[trigger] reached_u64(s, j, max as nat)
                    && s[j] == 0 implies !(forall|k: int| 0 <= k < j ==> s[k] != 0 && (test as nat)
                    % (s[k] as nat) != 0) by {
                    if j > i {
                        assert(!(s[i as int] != 0 && (test as nat) % (s[i as int] as nat) != 0));
                    }
                }
            }
            return false;
        }
        i += 1;
    }
    false
}

/// The value a worker of the per-thread-channel search sends back for `test`, given the
/// square root bound `max` computed by the caller: `test` when no entry of `primes` up to
/// `max` divides it, `0` otherwise.
pub fn trial_result(test: u64, max: u64, primes: &[u64]) -> (cell: u64)
    requires
        !hits_zero(test as nat, primes@, max as nat),
    ensures
        cell == if no_divisor_up_to(test as nat, primes@, max as nat) {
            test
        } else {
            0
        },
{
    assert(primes@.subrange(0, primes.len() as int) =~= primes@);
    if no_divisor_from(test, max, primes, 0) {
        test
    } else {
        0
    }
}

/// The per-thread-channel worker answers as `check_primality` does: given the bound
/// `floor_sqrt(test)` and a list without zeros, no division by zero is reached, and no entry
/// up to the bound divides `test` exactly when `test` survives trial division by the same
/// list.
pub proof fn lemma_trial_result_agrees(test: nat, p64: Seq<u64>, p: Seq<usize>)
    requires
        p64.len() == p.len(),
        forall|i: int| 0 <= i < p.len() ==> p64[i] as int == p[i] as int,
        forall|i: int| 0 <= i < p64.len() ==> p64[i] != 0,
    ensures
        !hits_zero(test, p64, floor_sqrt(test)),
        no_divisor_up_to(test, p64, floor_sqrt(test)) == survives_trial_division(test, p),
{
    let m = floor_sqrt(test);
    assert forall|j: int| 0 <= j < p.len() implies reached_u64(p64, j, m) == reached(p, j, m) by {
        if reached_u64(p64, j, m) {
            assert forall|k: int| 0 <= k <= j implies p[k] <= m by {
                assert(p64[k] <= m);
            }
        }
        if reached(p, j, m) {
            assert forall|k: int| 0 <= k <= j implies p64[k] <= m by {
                assert(p[k] <= m);
            }
        }
    }
    if no_divisor_up_to(test, p64, m) {
        assert forall|j: int| 0 <= j < p.len() && #[trigger] reached(p, j, m) implies !is_multiple_of(
            test as int,
            p[j] as int,
        ) by {
            assert(reached_u64(p64, j, m));
        }
    }
    if survives_trial_division(test, p) {
        assert forall|j: int| 0 <= j < p64.len() && #[trigger] reached_u64(p64, j, m) implies !is_multiple_of(
            test as int,
            p64[j] as int,
        ) by {
            assert(reached(p, j, m));
        }
    }
}

/// The parallel-iterator filter decides primality: for an odd candidate from 3 on, a list
/// that holds every prime up to its last entry (so it starts with 2) and reaches the
/// candidate's square root, and the bound `floor_sqrt(test)`, the filter passes exactly the
/// primes. Skipping the first entry (the 2) loses nothing for an odd candidate.
pub proof fn lemma_odd_filter_decides(test: nat, max: nat, primes: Seq<u64>)
    requires
        test >= 3,
        test % 2 == 1,
        primes.len() > 0,
        forall|i: int| 0 <= i < primes.len() ==> #[trigger] primes[i] <= usize::MAX,
        lists_primes_below(as_usize(primes), (primes.last() + 1) as nat),
        test <= primes.last() * primes.last(),
        max == floor_sqrt(test),
    ensures
        after_first(primes) == primes.drop_first(),
        !hits_zero(test, after_first(primes), max),
        (test % 2 == 1 && no_divisor_up_to(test, after_first(primes), max)) <==> is_prime(test),
{
    let q = as_usize(primes);
    let last = primes.last() as nat;
    let rest = primes.drop_first();
    assert forall|k: int| 0 <= k < q.len() implies primes[k] as int == q[k] as int by {}
    assert forall|k: int| 0 <= k < primes.len() implies primes[k] != 0 by {
        assert(is_prime(q[k] as nat));
    }
    assert(q.last() == last);
    assert(is_prime(last));
    // The list starts with 2.
    assert(is_prime(2)) by {
        assert forall|d: nat| 2 <= d < 2 implies #[trigger] (2nat % d) != 0 by {}
    }
    let i2 = choose|i: int| 0 <= i < q.len() && #[trigger] q[i] == 2;
    if i2 > 0 {
        assert(q[0] < q[i2]);
        assert(is_prime(q[0] as nat));
    }
    assert(primes[0] == 2);
    // Walks along the list and along the rest line up, shifted by one.
    assert forall|j: int| 0 <= j < rest.len() implies #[trigger] reached_u64(rest, j, max)
        == reached_u64(primes, j + 1, max) by {
        assert(q[0] < q[1]);
        if reached_u64(rest, j, max) {
            assert forall|k: int| 0 <= k <= j + 1 implies primes[k] <= max by {
                if k == 0 {
                    assert(rest[0] <= max);
                } else {
                    assert(primes[k] == rest[k - 1]);
                }
            }
        }
        if reached_u64(primes, j + 1, max) {
            assert forall|k: int| 0 <= k <= j implies rest[k] <= max by {
                assert(rest[k] == primes[k + 1]);
            }
        }
    }
    assert(no_divisor_up_to(test, rest, max) == no_divisor_up_to(test, primes, max)) by {
        if no_divisor_up_to(test, rest, max) {
            assert forall|j: int| 0 <= j < primes.len() && #[trigger] reached_u64(primes, j, max)
                implies !is_multiple_of(test as int, primes[j] as int) by {
                if j == 0 {
                    assert(test % 2 != 0);
                } else {
                    assert(reached_u64(rest, j - 1, max));
                    assert(rest[j - 1] == primes[j]);
                }
            }
        }
        if no_divisor_up_to(test, primes, max) {
            assert forall|j: int| 0 <= j < rest.len() && #[trigger] reached_u64(rest, j, max)
                implies !is_multiple_of(test as int, rest[j] as int) by {
                assert(reached_u64(primes, j + 1, max));
                assert(rest[j] == primes[j + 1]);
            }
        }
    }
    assert(!hits_zero(test, rest, max)) by {
        if hits_zero(test, rest, max) {
            let j = choose|j: int|
                0 <= j < rest.len() && #[trigger] reached_u64(rest, j, max) && rest[j] == 0
                    && forall|k: int| 0 <= k < j ==> rest[k] != 0 && test % (rest[k] as nat) != 0;
            assert(rest[j] == primes[j + 1]);
        }
    }
    lemma_trial_result_agrees(test, primes, q);
    assert(test < (last + 1) * (last + 1)) by (nonlinear_arith)
        requires
            test <= last * last,
    ;
    lemma_trial_division_decides(test, q, last + 1);
}

/// Whether the candidate `test` passes the parallel-iterator filter: it is odd and no
/// entry of `primes` after the first (the 2), up to `max`, divides it.
pub fn odd_candidate_survives(test: u64, max: u64, primes: &[u64]) -> (passes: bool)
    requires
        test % 2 == 1 ==> !hits_zero(test as nat, after_first(primes@), max as nat),
    ensures
        passes == (test % 2 == 1 && no_divisor_up_to(
            test as nat,
            after_first(primes@),
            max as nat,
        )),
        primes.len() > 0 ==> passes == (test % 2 == 1 && no_divisor_up_to(
            test as nat,
            primes@.drop_first(),
            max as nat,
        )),
        primes.len() == 0 ==> passes == (test % 2 == 1),
{
    assert((test & 1 == 0) == (test % 2 == 0)) by (bit_vector);
    if (test & 1) == 0 {
        return false;
    }
    if primes.len() == 0 {
        assert(primes@.subrange(0, 0) =~= after_first(primes@));
        return no_divisor_from(test, max, primes, 0);
    }
    assert(primes@.subrange(1, primes.len() as int) =~= after_first(primes@));
    no_divisor_from(test, max, primes, 1)
}

} // verus!
