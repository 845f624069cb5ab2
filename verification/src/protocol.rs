//! The law of the coordinated searches: with workers that answer `cell_result` against the
//! published primes, the published primes together with those waiting to be published are
//! always the ascending list of every prime below the first outstanding candidate. Each
//! step of `Coordinator` keeps that; once nothing is outstanding, the list reaches up to
//! the next candidate.
use vstd::prelude::*;
use crate::coordinator::CoordinatorView;
use crate::primality::{is_prime, survives_trial_division};
use crate::queue::{QueueView, lemma_advance, ready_count, ready_primes};
use crate::sieve::{
    lemma_even_not_prime, lemma_lists_extend_composite, lemma_lists_extend_prime,
    lemma_trial_division_decides, lists_primes_below,
};

verus! {

/// The right answer for candidate `t`: the candidate when it is prime, `1` otherwise.
pub open spec fn answer(t: nat) -> usize {
    if is_prime(t) {
        t as usize
    } else {
        1
    }
}

/// The candidate whose answer belongs in live entry `i`: the live entries hold consecutive
/// odd candidates, the last of them just below the next candidate `c.test`.
pub open spec fn outstanding(c: CoordinatorView, i: int) -> int {
    c.test - 2 * (c.buffer.live().len() - i)
}

/// The published primes and those waiting are every prime below the first outstanding
/// candidate; each live cell is pending or holds the right answer; every outstanding
/// candidate, and the round's limit, lie within the square of the last published prime.
pub open spec fn protocol_inv(c: CoordinatorView, published: Seq<usize>) -> bool {
    &&& c.buffer.well_formed()
    &&& c.test <= usize::MAX
    &&& c.test % 2 == 1
    &&& outstanding(c, 0) >= 3
    &&& forall|i: int|
        0 <= i < c.buffer.live().len() ==> #[trigger] c.buffer.live()[i] == 0
            || c.buffer.live()[i] == answer(outstanding(c, i) as nat)
    &&& forall|i: int|
        0 <= i < c.buffer.live().len() ==> #[trigger] outstanding(c, i) <= published.last()
            * published.last()
    &&& published.len() > 0
    &&& lists_primes_below(published, (published.last() + 1) as nat)
    &&& lists_primes_below(published + c.pending, outstanding(c, 0) as nat)
    &&& c.test_limit <= published.last() * published.last()
}

/// A list of every prime below a bound lists every prime up to its own last entry.
proof fn lemma_lists_up_to_last(s: Seq<usize>, bound: nat)
    requires
        lists_primes_below(s, bound),
        s.len() > 0,
    ensures
        lists_primes_below(s, (s.last() + 1) as nat),
{
    assert forall|i: int| 0 <= i < s.len() implies is_prime(#[trigger] s[i] as nat) && s[i]
        < s.last() + 1 by {
        if i < s.len() - 1 {
            assert(s[i] < s[s.len() - 1]);
        }
    }
}

/// The drain consumes at most the live entries.
proof fn lemma_ready_count_bound(s: Seq<usize>)
    ensures
        ready_count(s) <= s.len(),
    decreases s.len(),
{
    if s.len() > 0 && s[0] != 0 {
        lemma_ready_count_bound(s.drop_first());
    }
}

/// Draining cells that hold right answers for consecutive odd candidates from `first` on
/// extends a list of the primes below `first` by exactly the primes among the consumed
/// candidates.
proof fn lemma_drain_extends(s: Seq<usize>, live: Seq<usize>, first: nat)
    requires
        lists_primes_below(s, first),
        first >= 3,
        first % 2 == 1,
        first + 2 * live.len() <= usize::MAX + 2,
        forall|i: int|
            0 <= i < live.len() ==> #[trigger] live[i] == 0 || live[i] == answer(
                (first + 2 * i) as nat,
            ),
    ensures
        lists_primes_below(s + ready_primes(live), first + 2 * ready_count(live)),
    decreases live.len(),
{
    if live.len() == 0 || live[0] == 0 {
        assert(s + ready_primes(live) =~= s);
    } else {
        let rest = live.drop_first();
        assert(live[0] == answer(first));
        assert forall|i: int| 0 <= i < rest.len() implies #[trigger] rest[i] == 0 || rest[i]
            == answer(((first + 2) + 2 * i) as nat) by {
            assert(rest[i] == live[i + 1]);
        }
        if is_prime(first) {
            lemma_lists_extend_prime(s, first);
            lemma_even_not_prime(first + 1);
            lemma_lists_extend_composite(s.push(first as usize), first + 1);
            lemma_drain_extends(s.push(first as usize), rest, first + 2);
            assert(ready_primes(live) == seq![first as usize] + ready_primes(rest));
            assert(s + ready_primes(live) =~= s.push(first as usize) + ready_primes(rest));
        } else {
            lemma_lists_extend_composite(s, first);
            lemma_even_not_prime(first + 1);
            lemma_lists_extend_composite(s, first + 1);
            lemma_drain_extends(s, rest, first + 2);
        }
    }
}

/// The state of a fresh coordinator, with 2 the only published prime, meets the law.
pub proof fn lemma_protocol_start(c: CoordinatorView)
    requires
        c.buffer.well_formed(),
        c.buffer.live().len() == 0,
        c.pending.len() == 0,
        c.test == 3,
        c.test_limit == 4,
    ensures
        protocol_inv(c, seq![2usize]),
{
    let p = seq![2usize];
    assert(is_prime(2)) by {
        assert forall|d: nat| 2 <= d < 2 implies #[trigger] (2nat % d) != 0 by {}
    }
    assert(!is_prime(0));
    assert(!is_prime(1));
    assert(p + c.pending =~= p);
    assert forall|q: nat| is_prime(q) && q < 3 implies exists|i: int|
        0 <= i < p.len() && #[trigger] p[i] == q by {
        assert(p[0] == q);
    }
    assert(p.last() == 2);
    assert(lists_primes_below(p, 3));
    assert(lists_primes_below(p + c.pending, 3));
    assert(outstanding(c, 0) == 3);
    assert(p.last() * p.last() == 4);
}

/// Handing out `k` candidates from `c.test` on, the last at most the round's limit, into new
/// pending cells keeps the law.
pub proof fn lemma_protocol_dispatch(
    c: CoordinatorView,
    c2: CoordinatorView,
    published: Seq<usize>,
    k: nat,
)
    requires
        protocol_inv(c, published),
        c2.buffer.well_formed(),
        c2.test == c.test + 2 * k,
        c2.test <= usize::MAX,
        c2.buffer.live() == c.buffer.live() + Seq::new(k, |i: int| 0usize),
        c2.pending == c.pending,
        c2.test_limit == c.test_limit,
        k > 0 ==> c.test + 2 * (k - 1) <= c.test_limit,
    ensures
        protocol_inv(c2, published),
{
    let n = c.buffer.live().len();
    assert(outstanding(c2, 0) == outstanding(c, 0));
    assert forall|i: int| 0 <= i < c2.buffer.live().len() implies #[trigger] c2.buffer.live()[i]
        == 0 || c2.buffer.live()[i] == answer(outstanding(c2, i) as nat) by {
        if i < n {
            assert(c2.buffer.live()[i] == c.buffer.live()[i]);
            assert(outstanding(c2, i) == outstanding(c, i));
        }
    }
    assert forall|i: int| 0 <= i < c2.buffer.live().len() implies #[trigger] outstanding(c2, i)
        <= published.last() * published.last() by {
        if i < n {
            assert(outstanding(c2, i) == outstanding(c, i));
        } else {
            assert(outstanding(c2, i) == c.test + 2 * (i - n));
        }
    }
}

/// Storing a worker's answer for live entry `i`, computed against the published primes as
/// `cell_result` does, keeps the law: the answer is the right one.
pub proof fn lemma_protocol_record(
    c: CoordinatorView,
    c2: CoordinatorView,
    published: Seq<usize>,
    i: int,
    value: usize,
)
    requires
        protocol_inv(c, published),
        0 <= i < c.buffer.live().len(),
        c2 == (CoordinatorView {
            buffer: c.buffer.updated(c.buffer.wrap((c.buffer.read + i) as nat), value),
            ..c
        }),
        value == if survives_trial_division(outstanding(c, i) as nat, published) {
            outstanding(c, i) as usize
        } else {
            1
        },
    ensures
        protocol_inv(c2, published),
{
    let v = c.buffer;
    let w = c2.buffer;
    let t = outstanding(c, i) as nat;
    assert(outstanding(c, i) >= outstanding(c, 0));
    assert(t <= published.last() * published.last());
    let last = published.last() as nat;
    assert(t < (last + 1) * (last + 1)) by (nonlinear_arith)
        requires
            t <= last * last,
    ;
    lemma_trial_division_decides(t, published, last + 1);
    assert(value == answer(t));
    assert(w.len() == v.len());
    assert forall|j: int| 0 <= j < v.len() implies w.live()[j] == if j == i {
        value
    } else {
        v.live()[j]
    } by {
        if j != i {
            assert(v.wrap((v.read + j) as nat) != v.wrap((v.read + i) as nat));
        }
    }
    assert forall|j: int| 0 <= j < w.live().len() implies #[trigger] w.live()[j] == 0
        || w.live()[j] == answer(outstanding(c2, j) as nat) by {
        assert(outstanding(c2, j) == outstanding(c, j));
        if j != i {
            assert(w.live()[j] == v.live()[j]);
        }
    }
    assert forall|j: int| 0 <= j < w.live().len() implies #[trigger] outstanding(c2, j)
        <= published.last() * published.last() by {
        assert(outstanding(c2, j) == outstanding(c, j));
    }
    assert(outstanding(c2, 0) == outstanding(c, 0));
}

/// The list part of a drain: the consumed candidates' primes join the list, and the first
/// outstanding candidate moves past them.
proof fn lemma_protocol_drain(c: CoordinatorView, s: Seq<usize>)
    requires
        c.buffer.well_formed(),
        c.test <= usize::MAX,
        c.test % 2 == 1,
        outstanding(c, 0) >= 3,
        forall|i: int|
            0 <= i < c.buffer.live().len() ==> #[trigger] c.buffer.live()[i] == 0
                || c.buffer.live()[i] == answer(outstanding(c, i) as nat),
        lists_primes_below(s, outstanding(c, 0) as nat),
    ensures
        lists_primes_below(
            s + ready_primes(c.buffer.live()),
            (outstanding(c, 0) + 2 * ready_count(c.buffer.live())) as nat,
        ),
{
    let live = c.buffer.live();
    let first = outstanding(c, 0) as nat;
    assert forall|i: int| 0 <= i < live.len() implies #[trigger] live[i] == 0 || live[i]
        == answer((first + 2 * i) as nat) by {
        assert(outstanding(c, i) == first + 2 * i);
    }
    lemma_drain_extends(s, live, first);
}

/// What a drain leaves: the remaining live cells and candidates line up again, and the
/// bounds carry over to a published list whose last prime is no smaller.
proof fn lemma_protocol_drain_rest(
    c: CoordinatorView,
    c2: CoordinatorView,
    published_before: Seq<usize>,
    published: Seq<usize>,
)
    requires
        protocol_inv(c, published_before),
        c2.buffer == c.buffer.advanced(ready_count(c.buffer.live())),
        c2.test == c.test,
        c2.test_limit == c.test_limit,
        published.len() > 0,
        published.last() >= published_before.last(),
        lists_primes_below(published, (published.last() + 1) as nat),
        lists_primes_below(
            published + c2.pending,
            (outstanding(c, 0) + 2 * ready_count(c.buffer.live())) as nat,
        ),
    ensures
        protocol_inv(c2, published),
{
    let v = c.buffer;
    let rc = ready_count(v.live());
    lemma_ready_count_bound(v.live());
    lemma_advance(v, rc);
    assert(published.last() * published.last() >= published_before.last()
        * published_before.last()) by (nonlinear_arith)
        requires
            published.last() >= published_before.last(),
    ;
    assert forall|i: int| 0 <= i < c2.buffer.live().len() implies outstanding(c2, i)
        == outstanding(c, i + rc) && c2.buffer.live()[i] == c.buffer.live()[i + rc] by {}
    assert forall|i: int| 0 <= i < c2.buffer.live().len() implies #[trigger] c2.buffer.live()[i]
        == 0 || c2.buffer.live()[i] == answer(outstanding(c2, i) as nat) by {
        assert(c.buffer.live()[i + rc] == 0 || c.buffer.live()[i + rc] == answer(
            outstanding(c, i + rc) as nat,
        ));
    }
    assert forall|i: int| 0 <= i < c2.buffer.live().len() implies #[trigger] outstanding(c2, i)
        <= published.last() * published.last() by {
        assert(outstanding(c, i + rc) <= published_before.last() * published_before.last());
    }
    assert(outstanding(c2, 0) == outstanding(c, 0) + 2 * rc);
}

/// Draining the ready front into the primes waiting to be published (`collect`) keeps
/// the law.
pub proof fn lemma_protocol_collect(c: CoordinatorView, c2: CoordinatorView, published: Seq<usize>)
    requires
        protocol_inv(c, published),
        c2 == (CoordinatorView {
            buffer: c.buffer.advanced(ready_count(c.buffer.live())),
            pending: c.pending + ready_primes(c.buffer.live()),
            ..c
        }),
    ensures
        protocol_inv(c2, published),
{
    lemma_protocol_drain(c, published + c.pending);
    assert(published + c2.pending =~= (published + c.pending) + ready_primes(c.buffer.live()));
    lemma_protocol_drain_rest(c, c2, published, published);
}

/// Draining the ready front straight into the published primes (`collect_into`, with
/// nothing waiting) keeps the law.
pub proof fn lemma_protocol_collect_into(
    c: CoordinatorView,
    c2: CoordinatorView,
    published: Seq<usize>,
    published2: Seq<usize>,
)
    requires
        protocol_inv(c, published),
        c.pending.len() == 0,
        published2 == published + ready_primes(c.buffer.live()),
        c2 == (CoordinatorView {
            buffer: c.buffer.advanced(ready_count(c.buffer.live())),
            ..c
        }),
    ensures
        protocol_inv(c2, published2),
{
    assert(published + c.pending =~= published);
    lemma_protocol_drain(c, published);
    assert(published2 + c2.pending =~= published2);
    let rc = ready_count(c.buffer.live());
    lemma_lists_up_to_last(published2, (outstanding(c, 0) + 2 * rc) as nat);
    assert(published2.last() >= published.last()) by {
        if published2.len() > published.len() {
            assert(published2[published.len() - 1] == published.last());
            assert(published2[published.len() - 1] < published2[published2.len() - 1]);
        }
    }
    lemma_protocol_drain_rest(c, c2, published, published2);
}

/// Publishing the waiting primes (`publish_squared`, `publish_capped`) and starting the
/// next round at a limit within the square of the new last prime keeps the law.
pub proof fn lemma_protocol_publish(
    c: CoordinatorView,
    c2: CoordinatorView,
    published: Seq<usize>,
    published2: Seq<usize>,
)
    requires
        protocol_inv(c, published),
        published2 == published + c.pending,
        c2.buffer == c.buffer,
        c2.test == c.test,
        c2.pending.len() == 0,
        c2.test_limit <= published2.last() * published2.last(),
    ensures
        protocol_inv(c2, published2),
{
    assert(published2 + c2.pending =~= published2);
    lemma_lists_up_to_last(published2, outstanding(c, 0) as nat);
    assert(published2.last() >= published.last()) by {
        if published2.len() > published.len() {
            assert(published2[published.len() - 1] == published.last());
            assert(published2[published.len() - 1] < published2[published2.len() - 1]);
        }
    }
    assert(published2.last() * published2.last() >= published.last() * published.last())
        by (nonlinear_arith)
        requires
            published2.last() >= published.last(),
    ;
    assert forall|i: int| 0 <= i < c2.buffer.live().len() implies #[trigger] outstanding(c2, i)
        <= published2.last() * published2.last() by {
        assert(outstanding(c2, i) == outstanding(c, i));
    }
    assert forall|i: int| 0 <= i < c2.buffer.live().len() implies #[trigger] c2.buffer.live()[i]
        == 0 || c2.buffer.live()[i] == answer(outstanding(c2, i) as nat) by {
        assert(outstanding(c2, i) == outstanding(c, i));
    }
    assert(outstanding(c2, 0) == outstanding(c, 0));
}

/// Moving the round's limit (`refresh_limit`) within the square of the last published
/// prime keeps the law.
pub proof fn lemma_protocol_new_limit(c: CoordinatorView, c2: CoordinatorView, published: Seq<usize>)
    requires
        protocol_inv(c, published),
        c2 == (CoordinatorView { test_limit: c2.test_limit, ..c }),
        c2.test_limit <= published.last() * published.last(),
    ensures
        protocol_inv(c2, published),
{
    assert forall|i: int| 0 <= i < c2.buffer.live().len() implies #[trigger] outstanding(c2, i)
        == outstanding(c, i) by {}
}

/// Once nothing is outstanding, the published and waiting primes are every prime below
/// the next candidate.
pub proof fn lemma_protocol_done(c: CoordinatorView, published: Seq<usize>)
    requires
        protocol_inv(c, published),
        c.buffer.live().len() == 0,
    ensures
        lists_primes_below(published + c.pending, c.test),
{
}

} // verus!
