//! The ring of cells of the search that gives every worker its own channel and waits for
//! all outstanding answers before it publishes: a cell holds `1` while its candidate is
//! with a worker, `0` when the candidate turned out composite, and the candidate itself
//! when it is prime.
use vstd::prelude::*;
use crate::queue::{QueueView, lemma_advance, lemma_full_iff_at_capacity, lemma_next_position, lemma_push_appends};
use crate::primality::{floor_sqrt, is_prime};
use crate::sieve::{
    lemma_even_not_prime, lemma_lists_extend_composite, lemma_lists_extend_prime,
    lemma_trial_division_decides, lists_primes_below,
};
use crate::workers::{lemma_trial_result_agrees, no_divisor_up_to};

verus! {

/// The non-zero entries of `s`, in order.
pub open spec fn nonzero(s: Seq<u64>) -> Seq<u64>
    decreases s.len(),
{
    if s.len() == 0 {
        Seq::empty()
    } else if s.last() != 0 {
        nonzero(s.drop_last()).push(s.last())
    } else {
        nonzero(s.drop_last())
    }
}

/// The entries of `s` as `usize` values.
pub open spec fn as_usize(s: Seq<u64>) -> Seq<usize> {
    s.map_values(|x: u64| x as usize)
}

/// The right answer for candidate `t` in this ring: the candidate when it is prime, `0`
/// otherwise.
pub open spec fn ring_answer(t: nat) -> u64 {
    if is_prime(t) {
        t as u64
    } else {
        0
    }
}

/// The candidate whose answer belongs in live cell `i`: the live cells hold consecutive odd
/// candidates, the last of them just below the next candidate `test`.
pub open spec fn ring_candidate(v: QueueView<u64>, test: nat, i: int) -> int {
    test - 2 * (v.live().len() - i)
}

/// The law of the per-thread-channel search: the published primes are every prime below
/// the first outstanding candidate; each live cell is busy (`1`) or holds the right answer;
/// every outstanding candidate, and the round's limit, lie within the square of the last
/// published prime. Values are taken as `usize` (all of them fit).
pub open spec fn ring_inv(v: QueueView<u64>, test: nat, test_limit: nat, published: Seq<u64>) -> bool {
    &&& v.well_formed()
    &&& test <= usize::MAX
    &&& test % 2 == 1
    &&& ring_candidate(v, test, 0) >= 3
    &&& forall|i: int|
        0 <= i < v.live().len() ==> #[trigger] v.live()[i] == 1 || v.live()[i] == ring_answer(
            ring_candidate(v, test, i) as nat,
        )
    &&& forall|i: int|
        0 <= i < v.live().len() ==> #[trigger] ring_candidate(v, test, i) <= published.last()
            * published.last()
    &&& published.len() > 0
    &&& forall|i: int| 0 <= i < published.len() ==> #[trigger] published[i] <= usize::MAX
    &&& lists_primes_below(as_usize(published), (published.last() + 1) as nat)
    &&& lists_primes_below(as_usize(published), ring_candidate(v, test, 0) as nat)
    &&& test_limit <= published.last() * published.last()
}

/// The start: an empty ring, 2 the only published prime, the first candidate 3 and the
/// first round ending at 2 * 2.
pub proof fn lemma_ring_start(v: QueueView<u64>)
    requires
        v.well_formed(),
        v.live().len() == 0,
    ensures
        ring_inv(v, 3, 4, seq![2u64]),
{
    let p = seq![2u64];
    let q = as_usize(p);
    assert(q =~= seq![2usize]);
    assert(is_prime(2)) by {
        assert forall|d: nat| 2 <= d < 2 implies #[trigger] (2nat % d) != 0 by {}
    }
    assert(!is_prime(0));
    assert(!is_prime(1));
    assert forall|r: nat| is_prime(r) && r < 3 implies exists|i: int|
        0 <= i < q.len() && #[trigger] q[i] == r by {
        assert(q[0] == r);
    }
    assert(p.last() == 2);
    assert(ring_candidate(v, 3, 0) == 3);
}

/// Handing out candidate `test`, below the round's limit, into a newly reserved busy cell
/// keeps the law.
pub proof fn lemma_ring_pump(
    v: QueueView<u64>,
    v2: QueueView<u64>,
    test: nat,
    test_limit: nat,
    published: Seq<u64>,
)
    requires
        ring_inv(v, test, test_limit, published),
        test < test_limit,
        test + 2 <= usize::MAX,
        v2.well_formed(),
        v2.live() == v.live().push(1),
    ensures
        ring_inv(v2, test + 2, test_limit, published),
{
    let n = v.live().len();
    assert(ring_candidate(v2, test + 2, 0) == ring_candidate(v, test, 0));
    assert forall|i: int| 0 <= i < v2.live().len() implies #[trigger] v2.live()[i] == 1
        || v2.live()[i] == ring_answer(ring_candidate(v2, test + 2, i) as nat) by {
        if i < n {
            assert(v2.live()[i] == v.live()[i]);
            assert(ring_candidate(v2, test + 2, i) == ring_candidate(v, test, i));
        }
    }
    assert forall|i: int| 0 <= i < v2.live().len() implies #[trigger] ring_candidate(
        v2,
        test + 2,
        i,
    ) <= published.last() * published.last() by {
        if i < n {
            assert(ring_candidate(v2, test + 2, i) == ring_candidate(v, test, i));
        }
    }
}

/// Storing a worker's answer for live cell `i` (what `trial_result` returns with the bound
/// `floor_sqrt` of the candidate, against the published primes) keeps the law: the answer
/// is the right one.
pub proof fn lemma_ring_settle(
    v: QueueView<u64>,
    v2: QueueView<u64>,
    test: nat,
    test_limit: nat,
    published: Seq<u64>,
    i: int,
    value: u64,
)
    requires
        ring_inv(v, test, test_limit, published),
        0 <= i < v.live().len(),
        v2 == v.updated(v.wrap((v.read + i) as nat), value),
        value == if no_divisor_up_to(
            ring_candidate(v, test, i) as nat,
            published,
            floor_sqrt(ring_candidate(v, test, i) as nat),
        ) {
            ring_candidate(v, test, i) as u64
        } else {
            0
        },
    ensures
        ring_inv(v2, test, test_limit, published),
{
    let t = ring_candidate(v, test, i) as nat;
    let q = as_usize(published);
    assert(ring_candidate(v, test, i) >= ring_candidate(v, test, 0));
    assert forall|k: int| 0 <= k < q.len() implies published[k] as int == q[k] as int by {}
    assert forall|k: int| 0 <= k < published.len() implies published[k] != 0 by {
        assert(is_prime(q[k] as nat));
    }
    lemma_trial_result_agrees(t, published, q);
    let last = published.last() as nat;
    assert(q.last() == last);
    assert(t < (last + 1) * (last + 1)) by (nonlinear_arith)
        requires
            t <= last * last,
    ;
    lemma_trial_division_decides(t, q, last + 1);
    assert(value == ring_answer(t));
    assert forall|j: int| 0 <= j < v.len() implies v2.live()[j] == if j == i {
        value
    } else {
        v.live()[j]
    } by {
        if j != i {
            assert(v.wrap((v.read + j) as nat) != v.wrap((v.read + i) as nat));
        }
    }
    assert forall|j: int| 0 <= j < v2.live().len() implies #[trigger] v2.live()[j] == 1
        || v2.live()[j] == ring_answer(ring_candidate(v2, test, j) as nat) by {
        assert(ring_candidate(v2, test, j) == ring_candidate(v, test, j));
        if j != i {
            assert(v2.live()[j] == v.live()[j]);
        }
    }
    assert forall|j: int| 0 <= j < v2.live().len() implies #[trigger] ring_candidate(v2, test, j)
        <= published.last() * published.last() by {
        assert(ring_candidate(v2, test, j) == ring_candidate(v, test, j));
    }
}

/// Answers for consecutive odd candidates from `first` on, with no cell busy: their
/// non-zero entries are the primes among them, so appending them extends a list of the
/// primes below `first` to the primes below the candidate after them.
proof fn lemma_nonzero_extends(s: Seq<usize>, live: Seq<u64>, first: nat)
    requires
        lists_primes_below(s, first),
        first >= 3,
        first % 2 == 1,
        first + 2 * live.len() <= usize::MAX + 2,
        forall|i: int| 0 <= i < live.len() ==> #[trigger] live[i] == ring_answer(
            (first + 2 * i) as nat,
        ),
    ensures
        lists_primes_below(s + as_usize(nonzero(live)), first + 2 * live.len()),
    decreases live.len(),
{
    if live.len() == 0 {
        assert(as_usize(nonzero(live)) =~= Seq::<usize>::empty());
        assert(s + as_usize(nonzero(live)) =~= s);
    } else {
        let init = live.drop_last();
        let t = (first + 2 * (live.len() - 1)) as nat;
        assert forall|i: int| 0 <= i < init.len() implies #[trigger] init[i] == ring_answer(
            (first + 2 * i) as nat,
        ) by {
            assert(init[i] == live[i]);
        }
        lemma_nonzero_extends(s, init, first);
        let before = s + as_usize(nonzero(init));
        assert(live.last() == ring_answer(t));
        if is_prime(t) {
            lemma_lists_extend_prime(before, t);
            assert(as_usize(nonzero(live)) =~= as_usize(nonzero(init)).push(t as usize));
            assert(s + as_usize(nonzero(live)) =~= before.push(t as usize));
            lemma_even_not_prime(t + 1);
            lemma_lists_extend_composite(before.push(t as usize), t + 1);
        } else {
            lemma_lists_extend_composite(before, t);
            assert(s + as_usize(nonzero(live)) =~= before);
            lemma_even_not_prime(t + 1);
            lemma_lists_extend_composite(before, t + 1);
        }
    }
}

/// The non-zero entries of `s` keep any bound that all entries of `s` keep.
proof fn lemma_nonzero_bounded(s: Seq<u64>, b: int)
    requires
        forall|i: int| 0 <= i < s.len() ==> s[i] <= b,
    ensures
        forall|k: int| 0 <= k < nonzero(s).len() ==> nonzero(s)[k] <= b,
    decreases s.len(),
{
    if s.len() > 0 {
        let init = s.drop_last();
        assert forall|i: int| 0 <= i < init.len() implies init[i] <= b by {
            assert(init[i] == s[i]);
        }
        lemma_nonzero_bounded(init, b);
        assert(s.last() <= b);
        let r = nonzero(init);
        if s.last() != 0 {
            assert forall|k: int| 0 <= k < nonzero(s).len() implies nonzero(s)[k] <= b by {
                assert(nonzero(s) == r.push(s.last()));
                if k < r.len() {
                    assert(nonzero(s)[k] == r[k]);
                }
            }
        } else {
            assert(nonzero(s) == r);
        }
    }
}

/// Publishing every answered cell (`drain_settled`, with no cell busy) keeps the law, and
/// the published primes are then every prime below the next candidate.
pub proof fn lemma_ring_drain(
    v: QueueView<u64>,
    v2: QueueView<u64>,
    test: nat,
    test_limit: nat,
    published: Seq<u64>,
    published2: Seq<u64>,
)
    requires
        ring_inv(v, test, test_limit, published),
        forall|i: int| 0 <= i < v.live().len() ==> v.live()[i] != 1,
        published2 == published + nonzero(v.live()),
        v2 == v.advanced(v.len()),
    ensures
        ring_inv(v2, test, test_limit, published2),
        lists_primes_below(as_usize(published2), test),
{
    let first = ring_candidate(v, test, 0) as nat;
    let live = v.live();
    assert forall|i: int| 0 <= i < live.len() implies #[trigger] live[i] == ring_answer(
        (first + 2 * i) as nat,
    ) by {
        assert(ring_candidate(v, test, i) == first + 2 * i);
    }
    lemma_nonzero_extends(as_usize(published), live, first);
    assert(as_usize(published2) =~= as_usize(published) + as_usize(nonzero(live)));
    lemma_advance(v, v.len());
    let q2 = as_usize(published2);
    assert(q2.len() == published2.len());
    assert forall|i: int| 0 <= i < live.len() implies live[i] <= usize::MAX by {
        assert(ring_candidate(v, test, i) < test);
    }
    lemma_nonzero_bounded(live, usize::MAX as int);
    assert forall|i: int| 0 <= i < published2.len() implies #[trigger] published2[i]
        <= usize::MAX by {
        if i >= published.len() {
            assert(published2[i] == nonzero(live)[i - published.len()]);
        }
    }
    assert forall|i: int| 0 <= i < q2.len() implies q2[i] as int == published2[i] as int by {}
    assert(q2.last() == published2.last());
    assert forall|i: int| 0 <= i < q2.len() implies is_prime(#[trigger] q2[i] as nat) && q2[i]
        < q2.last() + 1 by {
        if i < q2.len() - 1 {
            assert(q2[i] < q2[q2.len() - 1]);
        }
    }
    let q = as_usize(published);
    assert(q2.len() >= q.len());
    assert(published2.last() >= published.last()) by {
        assert(q.last() == published.last());
        if q2.len() > q.len() {
            assert(q2[q.len() - 1] == q.last());
            assert(q2[q.len() - 1] < q2[q2.len() - 1]);
        }
    }
    assert(published2.last() * published2.last() >= published.last() * published.last())
        by (nonlinear_arith)
        requires
            published2.last() >= published.last(),
    ;
}

/// Moving the round's limit within the square of the last published prime (`vl0`) keeps
/// the law.
pub proof fn lemma_ring_new_limit(
    v: QueueView<u64>,
    test: nat,
    test_limit: nat,
    test_limit2: nat,
    published: Seq<u64>,
)
    requires
        ring_inv(v, test, test_limit, published),
        test_limit2 <= published.last() * published.last(),
    ensures
        ring_inv(v, test, test_limit2, published),
{
}


/// A ring of `N` cells, all busy (`1`) at the start.
pub struct TaskRing<const N: usize> {
    data: Vec<u64>,
    read: usize,
    write: usize,
}

impl<const N: usize> View for TaskRing<N> {
    type V = QueueView<u64>;

    closed spec fn view(&self) -> QueueView<u64> {
        QueueView { slots: self.data@, read: self.read as nat, write: self.write as nat }
    }
}

impl<const N: usize> TaskRing<N> {
    /// The ring has `N` cells and both positions lie among them.
    pub open spec fn wf(&self) -> bool {
        &&& self@.well_formed()
        &&& self@.capacity() == N
    }

    /// A ring of `N` busy cells with no live entries.
    pub fn new() -> (ring: Self)
        ensures
            ring.wf(),
            ring@.slots == Seq::new(N as nat, |i: int| 1u64),
            ring@.read == 0,
            ring@.write == 0,
    {
        let mut data: Vec<u64> = Vec::new();
        let mut i: usize = 0;
        while i < N
            invariant
                i <= N,
                data@ =~= Seq::new(i as nat, |j: int| 1u64),
            decreases N - i,
        {
            data.push(1);
            i += 1;
        }
        TaskRing { data, read: 0, write: 0 }
    }

    /// Whether another candidate may be handed out: it is below both the halt and the
    /// round's limit, and the cell after the write position is not the read position.
    pub fn can_pump(&self, test: u64, test_halt: u64, test_limit: u64) -> (more: bool)
        requires
            self.wf(),
            N > 0,
        ensures
            more == !(test >= test_halt || test >= test_limit || self@.is_full()),
            !self@.is_full() <==> self@.live().len() < N - 1,
    {
        proof {
            lemma_full_iff_at_capacity(self@);
        }
        !(test >= test_halt || test >= test_limit || (self.write + 1) % N == self.read)
    }

    /// Marks the cell at the write position busy, moves the position on, and returns the
    /// cell.
    pub fn reserve(&mut self) -> (cell: usize)
        requires
            old(self).wf(),
            N > 0,
            !old(self)@.is_full(),
        ensures
            final(self).wf(),
            cell == old(self)@.write,
            final(self)@ == old(self)@.pushed(1),
            final(self)@.live() == old(self)@.live().push(1),
    {
        proof {
            lemma_push_appends(self@, 1u64);
            lemma_next_position(self@, self@.write);
        }
        let cell = self.write;
        self.data.set(cell, 1);
        self.write = (self.write + 1) % N;
        cell
    }

    /// Stores a worker's answer in its cell.
    pub fn settle(&mut self, cell: usize, value: u64)
        requires
            old(self).wf(),
            cell < N,
        ensures
            final(self).wf(),
            final(self)@ == old(self)@.updated(cell as nat, value),
    {
        self.data.set(cell, value);
    }

    /// Whether every live cell has been answered (none is busy).
    pub fn all_settled(&self) -> (settled: bool)
        requires
            self.wf(),
        ensures
            settled == forall|i: int| 0 <= i < self@.live().len() ==> self@.live()[i] != 1,
    {
        let ghost v = self@;
        let mut k: usize = 0;
        let mut pos = self.read;
        proof {
            lemma_advance(v, 0);
        }
        while pos != self.write
            invariant
                self.wf(),
                v == self@,
                k <= v.len(),
                pos == v.wrap((v.read + k) as nat),
                pos == v.advanced(k as nat).read,
                v.advanced(k as nat).len() == v.len() - k,
                forall|i: int| 0 <= i < k ==> v.live()[i] != 1,
            decreases v.len() - k,
        {
            proof {
                lemma_advance(v, k as nat);
            }
            if self.data[pos] == 1 {
                assert(v.live()[k as int] == 1);
                return false;
            }
            proof {
                lemma_next_position(v, pos as nat);
                lemma_advance(v, (k + 1) as nat);
            }
            pos = (pos + 1) % N;
            k += 1;
        }
        proof {
            lemma_advance(v, k as nat);
        }
        true
    }

    /// With every live cell answered, appends the primes among them to `primes` in order
    /// and empties the ring.
    pub fn drain_settled(&mut self, primes: &mut Vec<u64>)
        requires
            old(self).wf(),
            N > 0,
            forall|i: int| 0 <= i < old(self)@.live().len() ==> old(self)@.live()[i] != 1,
        ensures
            final(self).wf(),
            final(primes)@ == old(primes)@ + nonzero(old(self)@.live()),
            final(self)@ == old(self)@.advanced(old(self)@.len()),
            final(self)@.live().len() == 0,
    {
        let ghost start = self@;
        let ghost p0 = primes@;
        let ghost mut k: nat = 0;
        proof {
            lemma_advance(start, 0);
            assert(start.live().take(0) =~= Seq::<u64>::empty());
        }
        while self.read != self.write
            invariant
                N > 0,
                start == old(self)@,
                p0 == old(primes)@,
                start.well_formed(),
                start.capacity() == N,
                k <= start.len(),
                self.wf(),
                self@ == start.advanced(k),
                self@.live() == start.live().subrange(k as int, start.len() as int),
                self@.len() == start.len() - k,
                primes@ == p0 + nonzero(start.live().take(k as int)),
            decreases start.len() - k,
        {
            let value = self.data[self.read];
            assert(value == start.live()[k as int]);
            if value != 0 {
                primes.push(value);
            }
            proof {
                assert(start.live().take(k + 1int).drop_last() =~= start.live().take(k as int));
                lemma_next_position(self@, self@.read);
                lemma_advance(start, k + 1);
                k = k + 1;
            }
            self.read = (self.read + 1) % N;
            assert(primes@ =~= p0 + nonzero(start.live().take(k as int)));
        }
        proof {
            assert(start.live().take(k as int) =~= start.live());
        }
    }
}

} // verus!
