//! Growing the list of primes by trial division against the primes found so far.
use vstd::prelude::*;
use crate::primality::{
    check_primality, floor_sqrt, is_multiple_of, is_prime, lemma_floor_sqrt_below,
    lemma_floor_sqrt_bounds, lemma_floor_sqrt_upper, reached, survives_trial_division,
};

verus! {

/// `s` is the ascending list of every prime below `bound`.
pub open spec fn lists_primes_below(s: Seq<usize>, bound: nat) -> bool {
    &&& forall|i: int, j: int| 0 <= i < j < s.len() ==> s[i] < s[j]
    &&& forall|i: int| 0 <= i < s.len() ==> is_prime(#[trigger] s[i] as nat) && s[i] < bound
    &&& forall|p: nat|
        is_prime(p) && p < bound ==> exists|i: int| 0 <= i < s.len() && #[trigger] s[i] == p
}

/// If `d` divides `m` and `m` divides `n`, then `d` divides `n`.
proof fn lemma_divides_trans(d: nat, m: nat, n: nat)
    requires
        d > 0,
        m > 0,
        m % d == 0,
        n % m == 0,
    ensures
        n % d == 0,
{
    vstd::arithmetic::div_mod::lemma_fundamental_div_mod(m as int, d as int);
    vstd::arithmetic::div_mod::lemma_fundamental_div_mod(n as int, m as int);
    let a = m / d;
    let b = n / m;
    assert(n == (a * b) * d) by (nonlinear_arith)
        requires
            m == d * a,
            n == m * b,
    ;
    vstd::arithmetic::div_mod::lemma_mod_multiples_basic((a * b) as int, d as int);
}

/// The least divisor of `n` from 2 on that is at most `d`, given that `d` divides `n`.
proof fn lemma_least_divisor(n: nat, d: nat) -> (m: nat)
    requires
        2 <= d,
        n % d == 0,
    ensures
        2 <= m <= d,
        n % m == 0,
        forall|e: nat| 2 <= e < m ==> #[trigger] (n % e) != 0,
    decreases d,
{
    if exists|e: nat| 2 <= e < d && #[trigger] (n % e) == 0 {
        let e = choose|e: nat| 2 <= e < d && #[trigger] (n % e) == 0;
        lemma_least_divisor(n, e)
    } else {
        d
    }
}

/// A number from 2 on that is not prime has a prime factor whose square is at most it.
pub proof fn lemma_small_prime_factor(n: nat) -> (p: nat)
    requires
        n >= 2,
        !is_prime(n),
    ensures
        is_prime(p),
        n % p == 0,
        p * p <= n,
{
    let d = choose|d: nat| 2 <= d < n && #[trigger] (n % d) == 0;
    let m = lemma_least_divisor(n, d);
    assert forall|e: nat| 2 <= e < m implies #[trigger] (m % e) != 0 by {
        if m % e == 0 {
            lemma_divides_trans(e, m, n);
        }
    }
    vstd::arithmetic::div_mod::lemma_fundamental_div_mod(n as int, m as int);
    let q = n / m;
    assert(n == m * q);
    assert(q >= 2) by (nonlinear_arith)
        requires
            n == m * q,
            m < n,
            m >= 2,
    ;
    assert(q < n) by (nonlinear_arith)
        requires
            n == m * q,
            m >= 2,
            q >= 2,
    ;
    assert(n % q == 0) by {
        vstd::arithmetic::div_mod::lemma_mod_multiples_basic(m as int, q as int);
        assert(m * q == q * m) by (nonlinear_arith);
    }
    if q < m {
        assert(n % q != 0);
    }
    assert(m * m <= n) by (nonlinear_arith)
        requires
            n == m * q,
            m <= q,
    ;
    m
}

/// Trial division by a list that holds every prime below `bound` decides primality of
/// every number from 2 up to (but not including) `bound * bound`.
pub proof fn lemma_trial_division_decides(test: nat, primes: Seq<usize>, bound: nat)
    requires
        lists_primes_below(primes, bound),
        2 <= test,
        test < bound * bound,
    ensures
        survives_trial_division(test, primes) <==> is_prime(test),
{
    let max = floor_sqrt(test);
    lemma_floor_sqrt_below(test);
    lemma_floor_sqrt_bounds(test);
    if is_prime(test) {
        assert forall|j: int|
            0 <= j < primes.len() && #[trigger] reached(primes, j, max) implies !is_multiple_of(
            test as int,
            primes[j] as int,
        ) by {
            let p = primes[j] as nat;
            assert(is_prime(p));
            assert(p <= max);
            assert(test % p != 0);
        }
    } else {
        let p = lemma_small_prime_factor(test);
        lemma_floor_sqrt_upper(p, test);
        if max >= bound {
            assert(bound * bound <= max * max) by (nonlinear_arith)
                requires
                    max >= bound,
            ;
        }
        assert(p < bound);
        let j = choose|i: int| 0 <= i < primes.len() && #[trigger] primes[i] == p;
        assert(reached(primes, j, max)) by {
            assert forall|k: int| 0 <= k <= j implies primes[k] <= max by {
                if k < j {
                    assert(primes[k] < primes[j]);
                }
            }
        }
        assert(is_multiple_of(test as int, primes[j] as int));
    }
}

/// Adding a prime at the bound extends the list by one.
pub proof fn lemma_lists_extend_prime(s: Seq<usize>, bound: nat)
    requires
        lists_primes_below(s, bound),
        is_prime(bound),
        bound <= usize::MAX,
    ensures
        lists_primes_below(s.push(bound as usize), bound + 1),
{
    let t = s.push(bound as usize);
    assert forall|p: nat| is_prime(p) && p < bound + 1 implies exists|i: int|
        0 <= i < t.len() && #[trigger] t[i] == p by {
        if p == bound {
            assert(t[s.len() as int] == p);
        } else {
            let i = choose|i: int| 0 <= i < s.len() && #[trigger] s[i] == p;
            assert(t[i] == p);
        }
    }
}

/// A number at the bound that is not prime leaves the list as it is.
pub proof fn lemma_lists_extend_composite(s: Seq<usize>, bound: nat)
    requires
        lists_primes_below(s, bound),
        !is_prime(bound),
    ensures
        lists_primes_below(s, bound + 1),
{
}

/// An even number above 2 is not prime.
pub proof fn lemma_even_not_prime(n: nat)
    requires
        n >= 4,
        n % 2 == 0,
    ensures
        !is_prime(n),
{
    assert(n % 2nat == 0);
}

/// The ascending list of the primes below `test_halt` (below 3 when `test_halt` is smaller):
/// 2, then every odd candidate from 3 on that survives trial division by the primes
/// found before it.
pub fn primes_below(test_halt: usize) -> (primes: Vec<usize>)
    ensures
        lists_primes_below(primes@, if test_halt < 3 { 3 } else { test_halt as nat }),
{
    let mut primes: Vec<usize> = Vec::new();
    primes.push(2);
    let mut test: usize = 3;
    proof {
        assert(is_prime(2)) by {
            assert forall|d: nat| 2 <= d < 2 implies #[trigger] (2nat % d) != 0 by {}
        }
        assert(!is_prime(0));
        assert(!is_prime(1));
        assert(lists_primes_below(primes@, 3)) by {
            assert forall|p: nat| is_prime(p) && p < 3 implies exists|i: int|
                0 <= i < primes@.len() && #[trigger] primes@[i] == p by {
                assert(primes@[0] == p);
            }
        }
    }
    while test < test_halt
        invariant
            3 <= test,
            test % 2 == 1,
            test_halt >= 3 ==> test <= test_halt + 1,
            test_halt < 3 ==> test == 3,
            lists_primes_below(primes@, test as nat),
        decreases test_halt + 1 - test,
    {
        let is_prime = check_primality(test, primes.as_slice());
        proof {
            assert((test as nat) < (test as nat) * (test as nat)) by (nonlinear_arith)
                requires
                    test >= 3,
            ;
            lemma_trial_division_decides(test as nat, primes@, test as nat);
        }
        if is_prime {
            proof {
                lemma_lists_extend_prime(primes@, test as nat);
            }
            primes.push(test);
        } else {
            proof {
                lemma_lists_extend_composite(primes@, test as nat);
            }
        }
        proof {
            lemma_even_not_prime((test + 1) as nat);
            lemma_lists_extend_composite(primes@, (test + 1) as nat);
        }
        test += 2;
    }
    proof {
        if test_halt >= 3 && test == test_halt + 1 {
            assert(!is_prime(test_halt as nat)) by {
                lemma_even_not_prime(test_halt as nat);
            }
            assert forall|p: nat| is_prime(p) && p < test_halt implies exists|i: int|
                0 <= i < primes@.len() && #[trigger] primes@[i] == p by {}
        }
    }
    primes
}

/// When the bound itself is prime, it is the last entry of the list, and the rest lists the
/// primes below it.
proof fn lemma_lists_last_prime(s: Seq<usize>, bound: nat)
    requires
        lists_primes_below(s, bound + 1),
        is_prime(bound),
    ensures
        s.len() > 0,
        s.last() == bound,
        lists_primes_below(s.drop_last(), bound),
{
    let i = choose|i: int| 0 <= i < s.len() && #[trigger] s[i] == bound;
    if i < s.len() - 1 {
        assert(s[i] < s[s.len() - 1]);
    }
    let d = s.drop_last();
    assert forall|p: nat| is_prime(p) && p < bound implies exists|k: int|
        0 <= k < d.len() && #[trigger] d[k] == p by {
        let k = choose|k: int| 0 <= k < s.len() && #[trigger] s[k] == p;
        assert(d[k] == p);
    }
    assert forall|k: int| 0 <= k < d.len() implies is_prime(#[trigger] d[k] as nat) && d[k]
        < bound by {
        assert(s[k] < s[s.len() - 1]);
    }
}

/// There is only one ascending list of the primes below a bound: any two such lists are
/// equal, however they were computed.
pub proof fn lemma_lists_unique(s: Seq<usize>, t: Seq<usize>, bound: nat)
    requires
        lists_primes_below(s, bound),
        lists_primes_below(t, bound),
    ensures
        s == t,
    decreases bound,
{
    if bound == 0 {
        if s.len() > 0 {
            assert(s[0] < 0);
        }
        if t.len() > 0 {
            assert(t[0] < 0);
        }
        assert(s =~= t);
    } else {
        let c = (bound - 1) as nat;
        if is_prime(c) {
            lemma_lists_last_prime(s, c);
            lemma_lists_last_prime(t, c);
            lemma_lists_unique(s.drop_last(), t.drop_last(), c);
            assert(s =~= s.drop_last().push(c as usize));
            assert(t =~= t.drop_last().push(c as usize));
        } else {
            assert(lists_primes_below(s, c)) by {
                assert forall|k: int| 0 <= k < s.len() implies is_prime(#[trigger] s[k] as nat)
                    && s[k] < c by {
                    assert(is_prime(s[k] as nat));
                }
            }
            assert(lists_primes_below(t, c)) by {
                assert forall|k: int| 0 <= k < t.len() implies is_prime(#[trigger] t[k] as nat)
                    && t[k] < c by {
                    assert(is_prime(t[k] as nat));
                }
            }
            lemma_lists_unique(s, t, c);
        }
    }
}

/// The candidates in `[start, end)` that survive trial division by `primes`, ascending.
pub open spec fn survivors_in_range(primes: Seq<usize>, start: nat, end: nat) -> Seq<usize>
    decreases end,
{
    if end <= start {
        Seq::empty()
    } else {
        let rest = survivors_in_range(primes, start, (end - 1) as nat);
        if survives_trial_division((end - 1) as nat, primes) {
            rest.push((end - 1) as usize)
        } else {
            rest
        }
    }
}

/// Splitting a range splits its survivors: those of `[a, b)` come first, then those of
/// `[b, c)`.
pub proof fn lemma_survivors_split(primes: Seq<usize>, a: nat, b: nat, c: nat)
    requires
        a <= b <= c,
    ensures
        survivors_in_range(primes, a, c) =~= survivors_in_range(primes, a, b)
            + survivors_in_range(primes, b, c),
    decreases c,
{
    if c > b {
        lemma_survivors_split(primes, a, b, (c - 1) as nat);
    }
}

/// The candidates of `range` that survive trial division by `primes`, ascending
/// (`range.filter(|&test| check_primality(test, primes)).collect()`).
pub fn primes_in_range(primes: &[usize], range: core::ops::Range<usize>) -> (found: Vec<usize>)
    ensures
        found@ == survivors_in_range(primes@, range.start as nat, range.end as nat),
{
    let start = range.start;
    let end = range.end;
    let mut found: Vec<usize> = Vec::new();
    let mut test = start;
    while test < end
        invariant
            start <= test,
            test <= end || test == start,
            found@ == survivors_in_range(primes@, start as nat, test as nat),
        decreases end - test,
    {
        if check_primality(test, primes) {
            found.push(test);
        }
        test += 1;
    }
    found
}

/// Where the next round of candidates stops: the square of the largest prime found so far,
/// or `test_halt` if that comes first.
pub fn next_test_limit(primes: &[usize], test_halt: usize) -> (limit: usize)
    requires
        primes.len() > 0,
        primes@.last() * primes@.last() <= usize::MAX,
    ensures
        limit == if primes@.last() * primes@.last() <= test_halt {
            primes@.last() * primes@.last()
        } else {
            test_halt as int
        },
{
    let last = primes[primes.len() - 1];
    let square = last * last;
    if square <= test_halt {
        square
    } else {
        test_halt
    }
}

/// The square of the last entry of `v`, or 0 when `v` is empty.
pub fn vl0(v: &Vec<u64>) -> (square: u64)
    requires
        v.len() > 0 ==> v@.last() * v@.last() <= u64::MAX,
    ensures
        square == if v.len() == 0 {
            0
        } else {
            v@.last() * v@.last()
        },
{
    if v.len() == 0 {
        0
    } else {
        let last = v[v.len() - 1];
        last * last
    }
}

/// One round of the search: when `primes` lists every prime below `test`, the survivors
/// of `[test, limit)` for a `limit` up to the square of the largest known prime are
/// exactly the primes of that range, so appending them lists every prime below `limit`.
/// The largest prime then still squares to at least `limit`, so the next round can start.
pub proof fn lemma_round_extends(primes: Seq<usize>, test: nat, limit: nat)
    requires
        lists_primes_below(primes, test),
        primes.len() > 0,
        test <= limit,
        limit <= primes.last() * primes.last(),
        limit <= usize::MAX,
    ensures
        lists_primes_below(primes + survivors_in_range(primes, test, limit), limit),
        (primes + survivors_in_range(primes, test, limit)).last() * (primes
            + survivors_in_range(primes, test, limit)).last() >= limit,
    decreases limit,
{
    let found = survivors_in_range(primes, test, limit);
    let all = primes + found;
    if limit == test {
        assert(found =~= Seq::<usize>::empty());
        assert(all =~= primes);
    } else {
        let t = (limit - 1) as nat;
        lemma_round_extends(primes, test, t);
        let before = primes + survivors_in_range(primes, test, t);
        let last = primes.last() as nat;
        assert(is_prime(last));
        assert(last < test);
        assert(t < test * test) by (nonlinear_arith)
            requires
                t < last * last,
                last < test,
        ;
        assert(2 <= t) by {
            assert(is_prime(last));
        }
        lemma_trial_division_decides(t, primes, test);
        assert(lists_primes_below(before, t));
        if survives_trial_division(t, primes) {
            lemma_lists_extend_prime(before, t);
            assert(all =~= before.push(t as usize));
            assert(all.last() == t);
            assert(t * t >= limit) by (nonlinear_arith)
                requires
                    t + 1 == limit,
                    t >= 2,
            ;
        } else {
            lemma_lists_extend_composite(before, t);
            assert(all =~= before);
            assert(before.last() >= last) by {
                if before.len() > primes.len() {
                    assert(before[primes.len() - 1] == last);
                    assert(before[primes.len() - 1] <= before.last());
                }
            }
            assert(before.last() * before.last() >= last * last) by (nonlinear_arith)
                requires
                    before.last() >= last,
            ;
        }
    }
}

} // verus!
