//! Trial division against a list of known primes.
use vstd::prelude::*;

verus! {

/// `n` is a multiple of `d`, with the convention of `usize::is_multiple_of`:
/// the only multiple of zero is zero itself.
pub open spec fn is_multiple_of(n: int, d: int) -> bool {
    if d == 0 {
        n == 0
    } else {
        n % d == 0
    }
}

/// `n` is a prime number.
pub open spec fn is_prime(n: nat) -> bool {
    &&& n >= 2
    &&& forall|d: nat| 2 <= d < n ==> #[trigger] (n % d) != 0
}

/// The integer square root of `n`, rounded down.
pub open spec fn floor_sqrt(n: nat) -> nat
    decreases n,
{
    if n == 0 {
        0
    } else {
        let r = floor_sqrt((n - 1) as nat);
        if (r + 1) * (r + 1) <= n {
            r + 1
        } else {
            r
        }
    }
}

/// `floor_sqrt(n)` is the largest number whose square is at most `n`.
pub proof fn lemma_floor_sqrt_bounds(n: nat)
    ensures
        floor_sqrt(n) * floor_sqrt(n) <= n,
        n < (floor_sqrt(n) + 1) * (floor_sqrt(n) + 1),
    decreases n,
{
    if n == 0 {
        assert(floor_sqrt(0) == 0);
        let s = floor_sqrt(n);
        assert(n < (s + 1) * (s + 1)) by (nonlinear_arith)
            requires
                n == 0,
                s == 0,
        ;
    } else {
        let m = (n - 1) as nat;
        lemma_floor_sqrt_bounds(m);
        let r = floor_sqrt(m);
        if (r + 1) * (r + 1) <= n {
            assert(floor_sqrt(n) == r + 1);
            assert(n == (r + 1) * (r + 1));
            assert(n < (r + 1 + 1) * (r + 1 + 1)) by (nonlinear_arith)
                requires
                    n == (r + 1) * (r + 1),
            ;
        } else {
            assert(floor_sqrt(n) == r);
        }
    }
}

/// Any `r` with `r * r <= n < (r + 1) * (r + 1)` is `floor_sqrt(n)`.
pub proof fn lemma_floor_sqrt_unique(r: nat, n: nat)
    requires
        r * r <= n,
        n < (r + 1) * (r + 1),
    ensures
        r == floor_sqrt(n),
{
    lemma_floor_sqrt_bounds(n);
    let s = floor_sqrt(n);
    if r < s {
        assert((r + 1) * (r + 1) <= s * s) by (nonlinear_arith)
            requires
                r + 1 <= s,
        ;
    } else if s < r {
        assert((s + 1) * (s + 1) <= r * r) by (nonlinear_arith)
            requires
                s + 1 <= r,
        ;
    }
}

/// A number whose square is at most `n` is at most `floor_sqrt(n)`.
pub proof fn lemma_floor_sqrt_upper(p: nat, n: nat)
    requires
        p * p <= n,
    ensures
        p <= floor_sqrt(n),
{
    lemma_floor_sqrt_bounds(n);
    let s = floor_sqrt(n);
    if p > s {
        assert((s + 1) * (s + 1) <= p * p) by (nonlinear_arith)
            requires
                s + 1 <= p,
        ;
    }
}

/// The square root of a number from 2 on lies below the number.
pub proof fn lemma_floor_sqrt_below(n: nat)
    requires
        n >= 2,
    ensures
        floor_sqrt(n) < n,
{
    lemma_floor_sqrt_bounds(n);
    let s = floor_sqrt(n);
    if s >= n {
        assert(s * s >= 2 * s) by (nonlinear_arith)
            requires
                s >= 2,
        ;
    }
}

/// Integer square root, rounded down (the value of `usize::isqrt`).
pub fn isqrt(n: usize) -> (r: usize)
    ensures
        r as nat == floor_sqrt(n as nat),
{
    let mut lo: u128 = 0;
    let mut hi: u128 = n as u128 + 1;
    assert(n < hi * hi) by (nonlinear_arith)
        requires
            hi == n + 1,
    ;
    while hi - lo > 1
        invariant
            lo < hi,
            hi <= n as u128 + 1,
            lo * lo <= n,
            n < hi * hi,
        decreases hi - lo,
    {
        let mid = lo + (hi - lo) / 2;
        assert(mid * mid <= 0xffff_ffff_ffff_ffffu128 * 0xffff_ffff_ffff_ffffu128) by (nonlinear_arith)
            requires
                mid <= 0xffff_ffff_ffff_ffffu128,
        ;
        if mid * mid <= n as u128 {
            lo = mid;
        } else {
            hi = mid;
        }
    }
    proof {
        lemma_floor_sqrt_unique(lo as nat, n as nat);
    }
    lo as usize
}

/// Every element of `s` up to and including index `j` is at most `max`:
/// the elements that a walk along `s` which stops at the first one above `max` reaches.
pub open spec fn reached(s: Seq<usize>, j: int, max: nat) -> bool {
    forall|k: int| 0 <= k <= j ==> s[k] <= max
}

/// No element of `primes` that trial division reaches (the leading elements that are at
/// most the square root of `test`) divides `test`.
pub open spec fn survives_trial_division(test: nat, primes: Seq<usize>) -> bool {
    forall|j: int|
        0 <= j < primes.len() && #[trigger] reached(primes, j, floor_sqrt(test)) ==> !is_multiple_of(
            test as int,
            primes[j] as int,
        )
}

/// Walks `primes` while its elements are at most the integer square root of `test`, and
/// reports whether none of them divides `test`.
pub fn check_primality(test: usize, primes: &[usize]) -> (is_prime: bool)
    ensures
        is_prime == survives_trial_division(test as nat, primes@),
{
    let max = isqrt(test);
    let mut i: usize = 0;
    while i < primes.len()
        invariant
            i <= primes.len(),
            max as nat == floor_sqrt(test as nat),
            forall|k: int| 0 <= k < i ==> primes@[k] <= max,
            forall|j: int|
                0 <= j < i ==> !is_multiple_of(test as int, #[trigger] primes@[j] as int),
        decreases primes.len() - i,
    {
        let p = primes[i];
        if p > max {
            proof {
                assert forall|j: int|
                    0 <= j < primes@.len() && #[trigger] reached(
                        primes@,
                        j,
                        floor_sqrt(test as nat),
                    ) implies !is_multiple_of(test as int, primes@[j] as int) by {
                    if j >= i {
                        assert(primes@[i as int] <= max);
                    }
                }
            }
            return true;
        }
        if test.is_multiple_of(p) {
            proof {
                assert(reached(primes@, i as int, floor_sqrt(test as nat)));
            }
            return false;
        }
        i += 1;
    }
    proof {
        assert forall|j: int|
            0 <= j < primes@.len() && #[trigger] reached(
                primes@,
                j,
                floor_sqrt(test as nat),
            ) implies !is_multiple_of(test as int, primes@[j] as int) by {}
    }
    true
}

} // verus!
