//! The search with newly found primes parked in a ring buffer, and moved onto the list
//! only when the next candidate needs them (or the buffer fills up, or the search ends).
use vstd::prelude::*;
use crate::primality::{check_primality, is_prime};
use crate::queue::{Queue, leading_ones, lemma_leading_ones_is};
use crate::sieve::{
    lemma_even_not_prime, lemma_lists_extend_composite, lemma_lists_extend_prime,
    lemma_trial_division_decides, lists_primes_below,
};

verus! {

/// Moves every buffered prime, oldest first, onto the end of `primes`.
fn drain_into<const N: usize>(check_buffer: &mut Queue<N>, primes: &mut Vec<usize>)
    requires
        old(check_buffer).wf(),
        forall|i: int| 0 <= i < old(check_buffer)@.live().len() ==> old(check_buffer)@.live()[i] > 1,
    ensures
        final(check_buffer).wf(),
        final(check_buffer)@.live().len() == 0,
        final(primes)@ == old(primes)@ + old(check_buffer)@.live(),
{
    let ghost whole = primes@ + check_buffer@.live();
    loop
        invariant
            check_buffer.wf(),
            primes@ + check_buffer@.live() == whole,
            forall|i: int| 0 <= i < check_buffer@.live().len() ==> check_buffer@.live()[i] > 1,
            whole == old(primes)@ + old(check_buffer)@.live(),
        ensures
            check_buffer.wf(),
            check_buffer@.live().len() == 0,
            primes@ == whole,
        decreases check_buffer@.live().len(),
    {
        let ghost live = check_buffer@.live();
        proof {
            if live.len() > 0 {
                lemma_leading_ones_is(live, 0);
            } else {
                assert(leading_ones(live) == 0);
                assert(primes@ + live =~= primes@);
            }
        }
        match check_buffer.try_shift_prime() {
            Some(prime) => {
                assert(prime == live[0]);
                primes.push(prime);
                assert(primes@ + check_buffer@.live() =~= whole);
            },
            None => {
                break ;
            },
        }
    }
}

/// The ascending list of the primes below `test_halt` (below 3 when `test_halt` is smaller),
/// found with a buffer of `N` cells between the candidates and the list.
pub fn primes_below_buffered<const N: usize>(test_halt: usize) -> (primes: Vec<usize>)
    requires
        N >= 2 || test_halt <= 3,
        forall|p: nat| is_prime(p) && p < test_halt ==> p * p <= usize::MAX,
    ensures
        lists_primes_below(primes@, if test_halt < 3 { 3 } else { test_halt as nat }),
{
    let mut primes: Vec<usize> = Vec::new();
    primes.push(2);
    let mut test: usize = 3;
    let mut test_limit: usize = 2 * 2;
    let mut check_buffer = Queue::<N>::new();
    proof {
        assert(is_prime(2)) by {
            assert forall|d: nat| 2 <= d < 2 implies #[trigger] (2nat % d) != 0 by {}
        }
        assert(!is_prime(0));
        assert(!is_prime(1));
        assert(primes@ + check_buffer@.live() =~= primes@);
        if N >= 2 {
            lemma_full_after_drain(check_buffer@);
        }
        assert(lists_primes_below(primes@, 3)) by {
            assert forall|p: nat| is_prime(p) && p < 3 implies exists|i: int|
                0 <= i < primes@.len() && #[trigger] primes@[i] == p by {
                assert(primes@[0] == p);
            }
        }
    }
    while test < test_halt
        invariant
            N >= 2 || test_halt <= 3,
            forall|p: nat| is_prime(p) && p < test_halt ==> p * p <= usize::MAX,
            3 <= test,
            test % 2 == 1,
            test_halt >= 3 ==> test <= test_halt + 1,
            test_halt < 3 ==> test == 3,
            check_buffer.wf(),
            N >= 2 ==> !check_buffer@.is_full(),
            primes@.len() > 0,
            primes@.last() < test,
            test_limit == primes@.last() * primes@.last(),
            lists_primes_below(primes@ + check_buffer@.live(), test as nat),
            check_buffer@.live().len() > 0 ==> test < test_limit,
            test >= test_halt ==> check_buffer@.live().len() == 0,
        decreases test_halt + 1 - test,
    {
        let ghost whole = primes@ + check_buffer@.live();
        let ghost last = primes@.last();
        proof {
            // Every buffered prime lies above the last listed one, so the list itself holds
            // every prime up to and including its last entry.
            assert forall|i: int| 0 <= i < primes@.len() implies #[trigger] whole[i]
                == primes@[i] by {}
            assert(lists_primes_below(primes@, (last + 1) as nat)) by {
                assert forall|i: int, j: int| 0 <= i < j < primes@.len() implies primes@[i]
                    < primes@[j] by {
                    assert(whole[i] < whole[j]);
                }
                assert forall|i: int| 0 <= i < primes@.len() implies is_prime(
                    #[trigger] primes@[i] as nat,
                ) && primes@[i] < last + 1 by {
                    assert(is_prime(whole[i] as nat));
                    if i < primes@.len() - 1 {
                        assert(whole[i] < whole[primes@.len() - 1]);
                    }
                }
                assert forall|p: nat| is_prime(p) && p < last + 1 implies exists|i: int|
                    0 <= i < primes@.len() && #[trigger] primes@[i] == p by {
                    let i = choose|i: int| 0 <= i < whole.len() && #[trigger] whole[i] == p;
                    if i >= primes@.len() {
                        assert(whole[primes@.len() - 1] < whole[i]);
                    }
                    assert(primes@[i] == p);
                }
            }
            if check_buffer@.live().len() > 0 {
                assert((test as nat) < (last + 1) * (last + 1)) by (nonlinear_arith)
                    requires
                        test < last * last,
                ;
                lemma_trial_division_decides(test as nat, primes@, (last + 1) as nat);
            } else {
                assert(whole =~= primes@);
                assert((test as nat) < (test as nat) * (test as nat)) by (nonlinear_arith)
                    requires
                        test >= 3,
                ;
                lemma_trial_division_decides(test as nat, primes@, test as nat);
            }
        }
        if check_primality(test, primes.as_slice()) {
            proof {
                lemma_lists_extend_prime(whole, test as nat);
            }
            check_buffer.push(test);
            assert(primes@ + check_buffer@.live() =~= whole.push(test));
        } else {
            proof {
                lemma_lists_extend_composite(whole, test as nat);
            }
        }
        proof {
            let w = primes@ + check_buffer@.live();
            lemma_even_not_prime((test + 1) as nat);
            lemma_lists_extend_composite(w, (test + 1) as nat);
        }
        test += 2;
        if check_buffer.is_full() || test >= test_limit && !check_buffer.is_empty() || test
            >= test_halt {
            let ghost w = primes@ + check_buffer@.live();
            proof {
                assert forall|i: int| 0 <= i < check_buffer@.live().len() implies check_buffer@.live()[i]
                    > 1 by {
                    assert(check_buffer@.live()[i] == w[primes@.len() + i]);
                    assert(is_prime(w[primes@.len() + i] as nat));
                }
            }
            drain_into(&mut check_buffer, &mut primes);
            assert(primes@ == w);
            assert(check_buffer@.live() =~= Seq::<usize>::empty());
            assert(primes@ + check_buffer@.live() =~= primes@);
            let new_last = primes[primes.len() - 1];
            proof {
                assert(is_prime(new_last as nat));
                if test_halt >= 3 && test >= test_halt && (new_last as nat) >= (test_halt as nat) {
                    assert(test == test_halt + 1);
                    lemma_even_not_prime(test_halt as nat);
                }
                assert(new_last * new_last <= usize::MAX);
            }
            test_limit = new_last * new_last;
            proof {
                lemma_full_after_drain(check_buffer@);
            }
        }
    }
    proof {
        let w = primes@ + check_buffer@.live();
        assert(w =~= primes@);
        if test_halt >= 3 && test == test_halt + 1 {
            lemma_even_not_prime(test_halt as nat);
            assert forall|p: nat| is_prime(p) && p < test_halt implies exists|i: int|
                0 <= i < primes@.len() && #[trigger] primes@[i] == p by {}
        }
    }
    primes
}

/// An empty buffer of at least two cells is not full.
proof fn lemma_full_after_drain(v: crate::queue::QueueView<usize>)
    requires
        v.well_formed(),
        v.capacity() >= 2,
        v.live().len() == 0,
    ensures
        !v.is_full(),
{
    crate::queue::lemma_full_iff_at_capacity(v);
}

} // verus!
