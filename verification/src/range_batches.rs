//! Batches of candidates handed out as ranges, kept by the start of their range so that
//! the primes found in them are published in ascending order, whatever order the
//! workers finish in.
use vstd::prelude::*;
use core::ops::Range;
use crate::THREAD_WORK_LIMIT;
use crate::primality::is_prime;
use crate::sieve::{
    lemma_lists_extend_composite, lemma_lists_extend_prime, lemma_trial_division_decides,
    lists_primes_below, survivors_in_range,
};

verus! {

/// A batch by the start of its range, with its primes once the batch is done.
pub open spec fn view_entry(e: (usize, Option<Vec<usize>>)) -> (usize, Option<Seq<usize>>) {
    (
        e.0,
        match e.1 {
            Some(v) => Some(v@),
            None => None,
        },
    )
}

/// The starts strictly increase along `s`.
pub open spec fn sorted_starts(s: Seq<(usize, Option<Seq<usize>>)>) -> bool {
    forall|i: int, j: int| 0 <= i < j < s.len() ==> s[i].0 < s[j].0
}

/// The position of the first entry whose start is at least `start` (or the length).
pub open spec fn lower_bound(s: Seq<(usize, Option<Seq<usize>>)>, start: usize) -> nat
    decreases s.len(),
{
    if s.len() == 0 || s[0].0 >= start {
        0
    } else {
        1 + lower_bound(s.drop_first(), start)
    }
}

/// `lower_bound(s, start)` is `k` when the first `k` starts are below `start` and the next
/// one (if any) is not.
proof fn lemma_lower_bound_is(s: Seq<(usize, Option<Seq<usize>>)>, start: usize, k: nat)
    requires
        k <= s.len(),
        forall|i: int| 0 <= i < k ==> s[i].0 < start,
        k < s.len() ==> s[k as int].0 >= start,
    ensures
        lower_bound(s, start) == k,
    decreases k,
{
    if k > 0 {
        assert forall|i: int| 0 <= i < k - 1 implies s.drop_first()[i].0 < start by {
            assert(s.drop_first()[i] == s[i + 1]);
        }
        lemma_lower_bound_is(s.drop_first(), start, (k - 1) as nat);
    }
}

/// Number of leading entries whose batch is done.
pub open spec fn done_count(s: Seq<(usize, Option<Seq<usize>>)>) -> nat
    decreases s.len(),
{
    if s.len() > 0 && s[0].1 is Some {
        1 + done_count(s.drop_first())
    } else {
        0
    }
}

/// `done_count(s)` is `k` when the first `k` batches are done and the next one (if any) is
/// not.
proof fn lemma_done_count_is(s: Seq<(usize, Option<Seq<usize>>)>, k: nat)
    requires
        k <= s.len(),
        forall|i: int| 0 <= i < k ==> s[i].1 is Some,
        k < s.len() ==> s[k as int].1 is None,
    ensures
        done_count(s) == k,
    decreases k,
{
    if k > 0 {
        assert forall|i: int| 0 <= i < k - 1 implies s.drop_first()[i].1 is Some by {
            assert(s.drop_first()[i] == s[i + 1]);
        }
        lemma_done_count_is(s.drop_first(), (k - 1) as nat);
    }
}

/// The primes of the first `k` entries, in order.
pub open spec fn primes_of(s: Seq<(usize, Option<Seq<usize>>)>, k: nat) -> Seq<usize> {
    Seq::new(k, |i: int| s[i].1.unwrap()).flatten()
}

/// The batches handed out and not yet published, ordered by the start of their range.
pub struct RangeBatches {
    entries: Vec<(usize, Option<Vec<usize>>)>,
}

impl View for RangeBatches {
    type V = Seq<(usize, Option<Seq<usize>>)>;

    closed spec fn view(&self) -> Seq<(usize, Option<Seq<usize>>)> {
        self.entries@.map_values(|e: (usize, Option<Vec<usize>>)| view_entry(e))
    }
}

impl RangeBatches {
    /// The starts strictly increase.
    pub open spec fn wf(&self) -> bool {
        sorted_starts(self@)
    }

    /// No batches.
    pub fn new() -> (b: Self)
        ensures
            b.wf(),
            b@.len() == 0,
    {
        let b = RangeBatches { entries: Vec::new() };
        assert(b@ =~= Seq::empty());
        b
    }

    /// Number of batches held.
    pub fn len(&self) -> (n: usize)
        ensures
            n == self@.len(),
    {
        self.entries.len()
    }

    /// Whether no batch is held.
    pub fn is_empty(&self) -> (empty: bool)
        ensures
            empty == (self@.len() == 0),
    {
        self.entries.len() == 0
    }

    /// Whether another range may be handed out: fewer than `batch_limit` batches are held
    /// and the candidates have not reached the round's limit.
    pub fn dispatch_due(&self, test: usize, test_limit: usize, batch_limit: usize) -> (due: bool)
        ensures
            due == (self@.len() < batch_limit && test < test_limit),
    {
        self.entries.len() < batch_limit && test < test_limit
    }

    /// Whether the search goes on: candidates below the halt are left, or batches are
    /// still held.
    pub fn search_continues(&self, test: usize, test_halt: usize) -> (more: bool)
        ensures
            more == (test < test_halt || self@.len() > 0),
    {
        test < test_halt || self.entries.len() > 0
    }

    /// Whether the batch with the smallest start is done.
    pub fn front_done(&self) -> (done: bool)
        ensures
            done == (self@.len() > 0 && self@[0].1 is Some),
    {
        self.entries.len() > 0 && self.entries[0].1.is_some()
    }

    /// Records `batch` under `start` (`None` for a batch just handed out, its primes once
    /// it is done): replaces the entry with that start if there is one, otherwise adds one
    /// where it keeps the starts in order.
    pub fn insert(&mut self, start: usize, batch: Option<Vec<usize>>)
        requires
            old(self).wf(),
        ensures
            final(self).wf(),
            ({
                let pos = lower_bound(old(self)@, start);
                if pos < old(self)@.len() && old(self)@[pos as int].0 == start {
                    final(self)@ == old(self)@.update(pos as int, view_entry((start, batch)))
                } else {
                    final(self)@ == old(self)@.insert(pos as int, view_entry((start, batch)))
                }
            }),
    {
        let ghost s = self@;
        let mut i: usize = 0;
        while i < self.entries.len() && self.entries[i].0 < start
            invariant
                s == self@,
                i <= self.entries.len(),
                forall|k: int| 0 <= k < i ==> s[k].0 < start,
                self.entries@.len() == s.len(),
            decreases self.entries.len() - i,
        {
            assert(s[i as int] == view_entry(self.entries@[i as int]));
            i += 1;
        }
        proof {
            if i < s.len() {
                assert(s[i as int] == view_entry(self.entries@[i as int]));
            }
            lemma_lower_bound_is(s, start, i as nat);
        }
        if i < self.entries.len() && self.entries[i].0 == start {
            proof {
                assert(s[i as int] == view_entry(self.entries@[i as int]));
            }
            self.entries.set(i, (start, batch));
            assert(self@ =~= s.update(i as int, view_entry((start, batch))));
        } else {
            proof {
                if i < s.len() {
                    assert(s[i as int] == view_entry(self.entries@[i as int]));
                }
            }
            self.entries.insert(i, (start, batch));
            assert(self@ =~= s.insert(i as int, view_entry((start, batch))));
        }
    }

    /// Publishes the done batches at the front, in order of their starts: appends their
    /// primes to `primes`, drops them, and returns how many there were. Stops at the first
    /// batch that is not done yet.
    pub fn take_done(&mut self, primes: &mut Vec<usize>) -> (taken: usize)
        requires
            old(self).wf(),
        ensures
            final(self).wf(),
            taken == done_count(old(self)@),
            final(primes)@ == old(primes)@ + primes_of(old(self)@, taken as nat),
            final(self)@ == old(self)@.subrange(taken as int, old(self)@.len() as int),
    {
        let ghost s = self@;
        let ghost e0 = self.entries@;
        let ghost p0 = primes@;
        let n = self.entries.len();
        let mut taken: usize = 0;
        proof {
            assert(Seq::new(0, |i: int| s[i].1.unwrap()) =~= Seq::<Seq<usize>>::empty());
            assert(e0.subrange(0, n as int) =~= e0);
        }
        while self.entries.len() > 0 && self.entries[0].1.is_some()
            invariant
                s == old(self)@,
                e0 == old(self).entries@,
                s == e0.map_values(|e: (usize, Option<Vec<usize>>)| view_entry(e)),
                p0 == old(primes)@,
                n == e0.len(),
                taken <= n,
                self.entries@ == e0.subrange(taken as int, n as int),
                forall|i: int| 0 <= i < taken ==> s[i].1 is Some,
                primes@ == p0 + primes_of(s, taken as nat),
            decreases self.entries.len(),
        {
            assert(self.entries@[0] == e0[taken as int]);
            assert(s[taken as int] == view_entry(e0[taken as int]));
            let (_, batch) = self.entries.remove(0);
            let batch = batch.unwrap();
            proof {
                let done = Seq::new(taken as nat, |i: int| s[i].1.unwrap());
                let next = Seq::new((taken + 1) as nat, |i: int| s[i].1.unwrap());
                assert(next =~= done.push(batch@));
                done.lemma_flatten_push(batch@);
            }
            primes.extend_from_slice(batch.as_slice());
            taken += 1;
            assert(self.entries@ =~= e0.subrange(taken as int, n as int));
            assert(primes@ =~= p0 + primes_of(s, taken as nat));
        }
        proof {
            if taken < n {
                assert(self.entries@[0] == e0[taken as int]);
                assert(s[taken as int] == view_entry(e0[taken as int]));
            }
            lemma_done_count_is(s, taken as nat);
            assert(self@ =~= s.subrange(taken as int, s.len() as int));
        }
        taken
    }
}

/// The primes in `[a, b)`, ascending.
pub open spec fn primes_between(a: nat, b: nat) -> Seq<usize>
    decreases b,
{
    if b <= a {
        Seq::empty()
    } else {
        let rest = primes_between(a, (b - 1) as nat);
        if is_prime((b - 1) as nat) {
            rest.push((b - 1) as usize)
        } else {
            rest
        }
    }
}

/// Against a list of every prime up to its last entry, the survivors of a range from 3 on
/// that ends within the square of that entry are the primes of the range.
pub proof fn lemma_survivors_are_primes(published: Seq<usize>, a: nat, b: nat)
    requires
        published.len() > 0,
        lists_primes_below(published, (published.last() + 1) as nat),
        3 <= a,
        b <= published.last() * published.last(),
    ensures
        survivors_in_range(published, a, b) == primes_between(a, b),
    decreases b,
{
    if b > a {
        lemma_survivors_are_primes(published, a, (b - 1) as nat);
        let t = (b - 1) as nat;
        let last = published.last() as nat;
        assert(t < (last + 1) * (last + 1)) by (nonlinear_arith)
            requires
                t < last * last,
        ;
        lemma_trial_division_decides(t, published, last + 1);
    }
}

/// Appending the primes of `[a, b)` to a list of the primes below `a` lists the primes
/// below `b`.
pub proof fn lemma_extend_between(s: Seq<usize>, a: nat, b: nat)
    requires
        lists_primes_below(s, a),
        a <= b,
        b <= usize::MAX + 1,
    ensures
        lists_primes_below(s + primes_between(a, b), b),
    decreases b,
{
    if b == a {
        assert(s + primes_between(a, b) =~= s);
    } else {
        let t = (b - 1) as nat;
        lemma_extend_between(s, a, t);
        let before = s + primes_between(a, t);
        if is_prime(t) {
            lemma_lists_extend_prime(before, t);
            assert(s + primes_between(a, b) =~= before.push(t as usize));
        } else {
            lemma_lists_extend_composite(before, t);
        }
    }
}

/// Where the range of batch `i` ends: at the next batch's start, or at the next
/// candidate `test` for the newest batch.
pub open spec fn range_end(s: Seq<(usize, Option<Seq<usize>>)>, test: nat, i: int) -> nat {
    if i + 1 < s.len() {
        s[i + 1].0 as nat
    } else {
        test
    }
}

/// The start of the oldest batch held, or `test` when none is held.
pub open spec fn first_open(s: Seq<(usize, Option<Seq<usize>>)>, test: nat) -> nat {
    if s.len() > 0 {
        s[0].0 as nat
    } else {
        test
    }
}

/// The law of the range search: the published primes are every prime below the start of
/// the oldest batch held; the batches cover consecutive non-empty ranges up to `test`; a
/// done batch holds exactly the primes of its range; every range, and the round's limit,
/// lie within the square of the last published prime.
pub open spec fn range_inv(
    s: Seq<(usize, Option<Seq<usize>>)>,
    test: nat,
    test_limit: nat,
    published: Seq<usize>,
) -> bool {
    &&& sorted_starts(s)
    &&& test <= usize::MAX
    &&& first_open(s, test) >= 3
    &&& forall|i: int| 0 <= i < s.len() ==> (s[i].0 as nat) < #[trigger] range_end(s, test, i)
    &&& forall|i: int|
        0 <= i < s.len() ==> #[trigger] range_end(s, test, i) <= published.last()
            * published.last()
    &&& forall|i: int|
        0 <= i < s.len() && (#[trigger] s[i]).1 is Some ==> s[i].1 == Some(
            primes_between(s[i].0 as nat, range_end(s, test, i)),
        )
    &&& published.len() > 0
    &&& lists_primes_below(published, (published.last() + 1) as nat)
    &&& lists_primes_below(published, first_open(s, test))
    &&& test_limit <= published.last() * published.last()
}

/// The start of the search, with 2 the only published prime and the first round ending at
/// 2 * 2, meets the law.
pub proof fn lemma_range_start(s: Seq<(usize, Option<Seq<usize>>)>)
    requires
        s.len() == 0,
    ensures
        range_inv(s, 3, 4, seq![2usize]),
{
    let p = seq![2usize];
    assert(is_prime(2)) by {
        assert forall|d: nat| 2 <= d < 2 implies #[trigger] (2nat % d) != 0 by {}
    }
    assert(!is_prime(0));
    assert(!is_prime(1));
    assert forall|q: nat| is_prime(q) && q < 3 implies exists|i: int|
        0 <= i < p.len() && #[trigger] p[i] == q by {
        assert(p[0] == q);
    }
    assert(p.last() == 2);
    assert(lists_primes_below(p, 3));
}

/// Handing out the range `[test, end)` (`next_range` below the round's limit) as a new
/// batch that `insert` places after all others keeps the law.
pub proof fn lemma_range_dispatch(
    s: Seq<(usize, Option<Seq<usize>>)>,
    s2: Seq<(usize, Option<Seq<usize>>)>,
    test: nat,
    end: nat,
    test_limit: nat,
    published: Seq<usize>,
)
    requires
        range_inv(s, test, test_limit, published),
        test < end <= test_limit,
        end <= usize::MAX,
        s2 == s.insert(lower_bound(s, test as usize) as int, (test as usize, None::<Seq<usize>>)),
    ensures
        lower_bound(s, test as usize) == s.len(),
        s2 == s.push((test as usize, None::<Seq<usize>>)),
        range_inv(s2, end, test_limit, published),
{
    assert forall|i: int| 0 <= i < s.len() implies s[i].0 < test by {
        assert((s[i].0 as nat) < range_end(s, test, i));
        if i + 1 < s.len() {
            assert(s[i].0 < s[s.len() - 1].0);
            assert((s[s.len() - 1].0 as nat) < range_end(s, test, s.len() - 1));
        }
    }
    lemma_lower_bound_is(s, test as usize, s.len());
    assert(s2 =~= s.push((test as usize, None::<Seq<usize>>)));
    assert forall|i: int| 0 <= i < s2.len() implies #[trigger] range_end(s2, end, i) == if i
        < s.len() {
        range_end(s, test, i)
    } else {
        end
    } by {}
    assert forall|i: int| 0 <= i < s2.len() implies (s2[i].0 as nat) < #[trigger] range_end(
        s2,
        end,
        i,
    ) by {
        if i < s.len() {
            assert((s[i].0 as nat) < range_end(s, test, i));
        }
    }
    assert forall|i: int| 0 <= i < s2.len() implies #[trigger] range_end(s2, end, i)
        <= published.last() * published.last() by {
        if i < s.len() {
            assert(range_end(s, test, i) <= published.last() * published.last());
        }
    }
    assert forall|i: int|
        0 <= i < s2.len() && (#[trigger] s2[i]).1 is Some implies s2[i].1 == Some(
            primes_between(s2[i].0 as nat, range_end(s2, end, i)),
        ) by {
        assert(s2[i] == s[i]);
    }
    assert(first_open(s2, end) == first_open(s, test));
}

/// Storing a worker's batch for the range of entry `i`, computed against the published
/// primes as `primes_in_range` does, keeps the law: the batch is the range's primes.
pub proof fn lemma_range_record(
    s: Seq<(usize, Option<Seq<usize>>)>,
    s2: Seq<(usize, Option<Seq<usize>>)>,
    test: nat,
    test_limit: nat,
    published: Seq<usize>,
    i: int,
    batch: Seq<usize>,
)
    requires
        range_inv(s, test, test_limit, published),
        0 <= i < s.len(),
        batch == survivors_in_range(published, s[i].0 as nat, range_end(s, test, i)),
        s2 == s.update(lower_bound(s, s[i].0) as int, (s[i].0, Some(batch))),
    ensures
        lower_bound(s, s[i].0) == i,
        range_inv(s2, test, test_limit, published),
{
    assert forall|k: int| 0 <= k < i implies s[k].0 < s[i].0 by {}
    lemma_lower_bound_is(s, s[i].0, i as nat);
    assert(s[i].0 >= first_open(s, test)) by {
        if i > 0 {
            assert(s[0].0 < s[i].0);
        }
    }
    assert(range_end(s, test, i) <= published.last() * published.last());
    lemma_survivors_are_primes(published, s[i].0 as nat, range_end(s, test, i));
    assert forall|k: int| 0 <= k < s2.len() implies #[trigger] range_end(s2, test, k)
        == range_end(s, test, k) by {}
    assert forall|k: int| 0 <= k < s2.len() implies (s2[k].0 as nat) < #[trigger] range_end(
        s2,
        test,
        k,
    ) by {
        assert((s[k].0 as nat) < range_end(s, test, k));
    }
    assert forall|k: int| 0 <= k < s2.len() implies #[trigger] range_end(s2, test, k)
        <= published.last() * published.last() by {
        assert(range_end(s, test, k) <= published.last() * published.last());
    }
    assert forall|k: int|
        0 <= k < s2.len() && (#[trigger] s2[k]).1 is Some implies s2[k].1 == Some(
            primes_between(s2[k].0 as nat, range_end(s2, test, k)),
        ) by {
        if k != i {
            assert(s2[k] == s[k]);
        }
    }
    assert(first_open(s2, test) == first_open(s, test));
}

/// The primes of the first `k` batches, when they are done, carry a list of the primes
/// below the first batch's start on to the start of batch `k` (or to `test`).
proof fn lemma_done_prefix_extends(
    s: Seq<(usize, Option<Seq<usize>>)>,
    test: nat,
    test_limit: nat,
    published: Seq<usize>,
    k: nat,
)
    requires
        range_inv(s, test, test_limit, published),
        k <= s.len(),
        forall|i: int| 0 <= i < k ==> s[i].1 is Some,
    ensures
        lists_primes_below(
            published + primes_of(s, k),
            if k < s.len() {
                s[k as int].0 as nat
            } else {
                test
            },
        ),
    decreases k,
{
    if k == 0 {
        assert(Seq::new(0, |i: int| s[i].1.unwrap()) =~= Seq::<Seq<usize>>::empty());
        assert(published + primes_of(s, 0) =~= published);
    } else {
        let j = (k - 1) as int;
        lemma_done_prefix_extends(s, test, test_limit, published, (k - 1) as nat);
        let done = Seq::new((k - 1) as nat, |i: int| s[i].1.unwrap());
        let next = Seq::new(k, |i: int| s[i].1.unwrap());
        assert(next =~= done.push(s[j].1.unwrap()));
        done.lemma_flatten_push(s[j].1.unwrap());
        assert(s[j].1 == Some(primes_between(s[j].0 as nat, range_end(s, test, j))));
        assert((s[j].0 as nat) < range_end(s, test, j));
        lemma_extend_between(
            published + primes_of(s, (k - 1) as nat),
            s[j].0 as nat,
            range_end(s, test, j),
        );
        assert(published + primes_of(s, k) =~= (published + primes_of(s, (k - 1) as nat))
            + primes_between(s[j].0 as nat, range_end(s, test, j)));
    }
}

/// Publishing the done batches at the front (`take_done`) keeps the law.
pub proof fn lemma_range_take_done(
    s: Seq<(usize, Option<Seq<usize>>)>,
    test: nat,
    test_limit: nat,
    published: Seq<usize>,
    published2: Seq<usize>,
)
    requires
        range_inv(s, test, test_limit, published),
        published2 == published + primes_of(s, done_count(s)),
    ensures
        range_inv(s.subrange(done_count(s) as int, s.len() as int), test, test_limit, published2),
{
    let k = done_count(s);
    lemma_done_count_bound(s);
    lemma_done_count_is_prefix(s);
    lemma_done_prefix_extends(s, test, test_limit, published, k);
    let s2 = s.subrange(k as int, s.len() as int);
    let bound = first_open(s2, test);
    assert(bound == if k < s.len() {
        s[k as int].0 as nat
    } else {
        test
    });
    assert(published2.len() > 0);
    assert(published2.last() >= published.last()) by {
        if published2.len() > published.len() {
            assert(published2[published.len() - 1] == published.last());
            assert(published2[published.len() - 1] < published2[published2.len() - 1]);
        }
    }
    assert forall|i: int| 0 <= i < published2.len() implies is_prime(
        #[trigger] published2[i] as nat,
    ) && published2[i] < published2.last() + 1 by {
        if i < published2.len() - 1 {
            assert(published2[i] < published2[published2.len() - 1]);
        }
    }
    assert(published2.last() * published2.last() >= published.last() * published.last())
        by (nonlinear_arith)
        requires
            published2.last() >= published.last(),
    ;
    assert forall|i: int| 0 <= i < s2.len() implies #[trigger] range_end(s2, test, i)
        == range_end(s, test, i + k) && s2[i] == s[i + k] by {}
    assert forall|i: int| 0 <= i < s2.len() implies (s2[i].0 as nat) < #[trigger] range_end(
        s2,
        test,
        i,
    ) by {
        assert((s[i + k].0 as nat) < range_end(s, test, i + k));
    }
    assert forall|i: int| 0 <= i < s2.len() implies #[trigger] range_end(s2, test, i)
        <= published2.last() * published2.last() by {
        assert(range_end(s, test, i + k) <= published.last() * published.last());
    }
    assert forall|i: int|
        0 <= i < s2.len() && (#[trigger] s2[i]).1 is Some implies s2[i].1 == Some(
            primes_between(s2[i].0 as nat, range_end(s2, test, i)),
        ) by {
        assert(s[i + k].1 is Some);
    }
    assert(first_open(s2, test) >= first_open(s, test)) by {
        if s.len() > 0 {
            let n = s.len() - 1;
            assert((s[n].0 as nat) < range_end(s, test, n));
            if n > 0 {
                assert(s[0].0 < s[n].0);
            }
            if s2.len() > 0 && k > 0 {
                assert(s[0].0 < s[k as int].0);
            }
        }
    }
}

/// The drain consumes at most the batches held.
proof fn lemma_done_count_bound(s: Seq<(usize, Option<Seq<usize>>)>)
    ensures
        done_count(s) <= s.len(),
    decreases s.len(),
{
    if s.len() > 0 && s[0].1 is Some {
        lemma_done_count_bound(s.drop_first());
    }
}

/// The first `done_count(s)` batches are done.
proof fn lemma_done_count_is_prefix(s: Seq<(usize, Option<Seq<usize>>)>)
    ensures
        forall|i: int| 0 <= i < done_count(s) ==> s[i].1 is Some,
    decreases s.len(),
{
    lemma_done_count_bound(s);
    if s.len() > 0 && s[0].1 is Some {
        lemma_done_count_is_prefix(s.drop_first());
        assert forall|i: int| 0 <= i < done_count(s) implies s[i].1 is Some by {
            if i > 0 {
                assert(s[i] == s.drop_first()[i - 1]);
            }
        }
    }
}

/// Moving the round's limit within the square of the last published prime keeps the law.
pub proof fn lemma_range_new_limit(
    s: Seq<(usize, Option<Seq<usize>>)>,
    test: nat,
    test_limit: nat,
    test_limit2: nat,
    published: Seq<usize>,
)
    requires
        range_inv(s, test, test_limit, published),
        test_limit2 <= published.last() * published.last(),
    ensures
        range_inv(s, test, test_limit2, published),
{
}

/// Once no batch is held, the published primes are every prime below the next candidate.
pub proof fn lemma_range_done(
    s: Seq<(usize, Option<Seq<usize>>)>,
    test: nat,
    test_limit: nat,
    published: Seq<usize>,
)
    requires
        range_inv(s, test, test_limit, published),
        s.len() == 0,
    ensures
        lists_primes_below(published, test),
{
}


/// The next range of candidates to hand out: from `test`, `THREAD_WORK_LIMIT` long, cut
/// off at the round's limit.
pub fn next_range(test: usize, test_limit: usize) -> (range: Range<usize>)
    requires
        test + THREAD_WORK_LIMIT <= usize::MAX,
    ensures
        range.start == test,
        range.end == if test_limit < test + THREAD_WORK_LIMIT {
            test_limit as int
        } else {
            test + THREAD_WORK_LIMIT
        },
{
    let end = test + THREAD_WORK_LIMIT;
    let end = if test_limit < end {
        test_limit
    } else {
        end
    };
    test..end
}

} // verus!
