//! The decisions of a search whose candidates are checked by worker threads: which
//! candidates to hand out and into which result cells, which finished results to take from
//! the front of the buffer, when to publish new primes to the workers, and when to stop.
//! The threads, channels and locks stay with the caller, which hands each decision's
//! outcome to them.
use vstd::prelude::*;
use crate::queue::{
    Queue, QueueView, lemma_advance, lemma_advance_twice, lemma_full_iff_at_capacity,
    lemma_push_appends, lemma_shift_drops_front, lemma_shift_is_drain_step, ready_count,
    ready_primes,
};
use crate::primality::{is_prime, survives_trial_division};
use crate::sieve::{lemma_trial_division_decides, lists_primes_below, next_test_limit};

verus! {

/// The workers' answers are right: a candidate handed out while the published primes list
/// every prime up to the last of them, and no greater than that prime's square (the
/// round's limit after `publish_squared`), is decided by trial division against them.
pub proof fn lemma_dispatched_candidate_decided(primes: Seq<usize>, test: nat)
    requires
        primes.len() > 0,
        lists_primes_below(primes, (primes.last() + 1) as nat),
        2 <= test <= primes.last() * primes.last(),
    ensures
        survives_trial_division(test, primes) <==> is_prime(test),
{
    let last = primes.last() as nat;
    assert(test < (last + 1) * (last + 1)) by (nonlinear_arith)
        requires
            test <= last * last,
    ;
    lemma_trial_division_decides(test, primes, last + 1);
}

/// Takes finished results from the front of the buffer for as long as they are ready,
/// appending the primes among them to `out`.
pub fn drain_ready<const N: usize>(check_buffer: &mut Queue<N>, out: &mut Vec<usize>)
    requires
        old(check_buffer).wf(),
    ensures
        final(check_buffer).wf(),
        final(out)@ == old(out)@ + ready_primes(old(check_buffer)@.live()),
        final(check_buffer)@ == old(check_buffer)@.advanced(
            ready_count(old(check_buffer)@.live()),
        ),
{
    let ghost start = check_buffer@;
    let ghost out0 = out@;
    let ghost mut done: nat = 0;
    proof {
        lemma_advance(start, 0);
        assert(start.advanced(0) == start);
    }
    loop
        invariant_except_break
            check_buffer@ == start.advanced(done),
            done + ready_count(check_buffer@.live()) == ready_count(start.live()),
        invariant
            check_buffer.wf(),
            start == old(check_buffer)@,
            out0 == old(out)@,
            start.well_formed(),
            done <= start.len(),
            out@ + ready_primes(check_buffer@.live()) == out0 + ready_primes(start.live()),
        ensures
            check_buffer.wf(),
            out@ == out0 + ready_primes(start.live()),
            check_buffer@ == start.advanced(ready_count(start.live())),
        decreases check_buffer@.len(),
    {
        let ghost before = check_buffer@;
        proof {
            lemma_advance(start, done);
            lemma_shift_is_drain_step(before);
            lemma_shift_drops_front(before);
            lemma_advance_twice(start, done, before.shift_count());
        }
        match check_buffer.try_shift_prime() {
            Some(prime) => {
                proof {
                    done = done + before.shift_count();
                }
                out.push(prime);
                assert(out@ + ready_primes(check_buffer@.live()) =~= out0 + ready_primes(
                    start.live(),
                ));
            },
            None => {
                assert(out@ + ready_primes(check_buffer@.live()) =~= out@);
                break ;
            },
        }
    }
}

/// The state of the coordinating thread: the result buffer, the primes taken from it but
/// not yet published, the next candidate, the limit of the current round and the halt.
pub struct CoordinatorView {
    pub buffer: QueueView<usize>,
    pub pending: Seq<usize>,
    pub test: nat,
    pub test_limit: nat,
    pub test_halt: nat,
}

/// The coordinating thread's state, with a result buffer of `N` cells.
pub struct Coordinator<const N: usize> {
    check_buffer: Queue<N>,
    insert_buffer: Vec<usize>,
    test: usize,
    test_limit: usize,
    test_halt: usize,
}

impl<const N: usize> View for Coordinator<N> {
    type V = CoordinatorView;

    closed spec fn view(&self) -> CoordinatorView {
        CoordinatorView {
            buffer: self.check_buffer@,
            pending: self.insert_buffer@,
            test: self.test as nat,
            test_limit: self.test_limit as nat,
            test_halt: self.test_halt as nat,
        }
    }
}

impl<const N: usize> Coordinator<N> {
    /// The buffer has `N` cells and both of its positions lie among them.
    pub open spec fn wf(&self) -> bool {
        &&& self@.buffer.well_formed()
        &&& self@.buffer.capacity() == N
    }

    /// The state at the start of a search up to `test_halt`, with 2 the only known prime:
    /// the first candidate is 3 and the first round stops at 2 * 2.
    pub fn new(test_halt: usize) -> (c: Self)
        ensures
            c.wf(),
            c@.buffer.live().len() == 0,
            c@.buffer.read == 0,
            c@.buffer.write == 0,
            c@.pending.len() == 0,
            c@.test == 3,
            c@.test_limit == 4,
            c@.test_halt == test_halt,
    {
        Coordinator {
            check_buffer: Queue::new(),
            insert_buffer: Vec::new(),
            test: 3,
            test_limit: 2 * 2,
            test_halt,
        }
    }

    /// Hands out the next odd candidates for as long as they are at most both the round's
    /// limit and the halt and the buffer has room, reserving a pending cell for each.
    /// Returns the (cell, candidate) pairs to send, in order.
    pub fn dispatch_through_limit(&mut self) -> (cells: Vec<(usize, usize)>)
        requires
            old(self).wf(),
            N > 0,
            old(self)@.test_halt + 2 <= usize::MAX,
        ensures
            final(self).wf(),
            final(self)@.test == old(self)@.test + 2 * cells.len(),
            forall|i: int|
                0 <= i < cells.len() ==> {
                    &&& #[trigger] cells@[i].0 == old(self)@.buffer.wrap(
                        (old(self)@.buffer.write + i) as nat,
                    )
                    &&& cells@[i].1 == old(self)@.test + 2 * i
                    &&& old(self)@.test + 2 * i <= old(self)@.test_limit
                    &&& old(self)@.test + 2 * i <= old(self)@.test_halt
                    &&& old(self)@.buffer.live().len() + i < N - 1
                },
            !(final(self)@.test <= final(self)@.test_limit && final(self)@.test
                <= final(self)@.test_halt && !final(self)@.buffer.is_full()),
            final(self)@.buffer.live() == old(self)@.buffer.live() + Seq::new(
                cells.len() as nat,
                |i: int| 0usize,
            ),
            final(self)@.buffer.read == old(self)@.buffer.read,
            final(self)@.pending == old(self)@.pending,
            final(self)@.test_limit == old(self)@.test_limit,
            final(self)@.test_halt == old(self)@.test_halt,
    {
        let ghost start = self@;
        let mut cells: Vec<(usize, usize)> = Vec::new();
        proof {
            assert(start.buffer.live() + Seq::new(0, |i: int| 0usize) =~= start.buffer.live());
            lemma_full_iff_at_capacity(start.buffer);
        }
        while self.test <= self.test_limit && self.test <= self.test_halt
            && !self.check_buffer.is_full()
            invariant
                N > 0,
                self.wf(),
                start == old(self)@,
                start.buffer.well_formed(),
                start.buffer.capacity() == N,
                self.check_buffer.wf(),
                self@.buffer.read == start.buffer.read,
                self@.buffer.write == start.buffer.wrap((start.buffer.write + cells.len()) as nat),
                self@.buffer.live() == start.buffer.live() + Seq::new(
                    cells.len() as nat,
                    |i: int| 0usize,
                ),
                start.buffer.live().len() + cells.len() <= N - 1,
                self@.test == start.test + 2 * cells.len(),
                self@.test_limit == start.test_limit,
                self@.test_halt == start.test_halt,
                self@.test_halt + 2 <= usize::MAX,
                self@.pending == start.pending,
                forall|i: int|
                    0 <= i < cells.len() ==> {
                        &&& #[trigger] cells@[i].0 == start.buffer.wrap(
                            (start.buffer.write + i) as nat,
                        )
                        &&& cells@[i].1 == start.test + 2 * i
                        &&& start.test + 2 * i <= start.test_limit
                        &&& start.test + 2 * i <= start.test_halt
                        &&& start.buffer.live().len() + i < N - 1
                    },
            decreases N - 1 - (start.buffer.live().len() + cells.len()),
        {
            proof {
                lemma_full_iff_at_capacity(self@.buffer);
                lemma_push_appends(self@.buffer, 0);
            }
            let cell = self.check_buffer.push(0);
            cells.push((cell, self.test));
            self.test = self.test + 2;
            assert(self@.buffer.live() =~= start.buffer.live() + Seq::new(
                cells.len() as nat,
                |i: int| 0usize,
            ));
        }
        cells
    }

    /// Hands out one candidate when it is below the round's limit and every earlier result
    /// has been taken from the buffer; returns its cell and the candidate.
    pub fn dispatch_if_idle(&mut self) -> (sent: Option<(usize, usize)>)
        requires
            old(self).wf(),
            old(self)@.test < old(self)@.test_limit && old(self)@.buffer.live().len() == 0 ==> N
                >= 2 && old(self)@.test + 2 <= usize::MAX,
        ensures
            final(self).wf(),
            if old(self)@.test < old(self)@.test_limit && old(self)@.buffer.live().len() == 0 {
                &&& sent == Some((old(self)@.buffer.write as usize, old(self)@.test as usize))
                &&& final(self)@ == (CoordinatorView {
                    buffer: old(self)@.buffer.pushed(0),
                    test: old(self)@.test + 2,
                    ..old(self)@
                })
                &&& final(self)@.buffer.live() == seq![0usize]
            } else {
                sent is None && final(self)@ == old(self)@
            },
    {
        if self.test >= self.test_limit || !self.check_buffer.is_empty() {
            return None;
        }
        proof {
            lemma_full_iff_at_capacity(self@.buffer);
            lemma_push_appends(self@.buffer, 0);
        }
        let cell = self.check_buffer.push(0);
        let test = self.test;
        self.test = self.test + 2;
        assert(self@.buffer.live() =~= seq![0usize]);
        Some((cell, test))
    }

    /// Hands out the next odd candidates for as long as they are below the round's limit
    /// and the buffer has room, reserving a pending cell for each. Returns the
    /// (cell, candidate) pairs to send, in order.
    pub fn dispatch_below_limit(&mut self) -> (cells: Vec<(usize, usize)>)
        requires
            old(self).wf(),
            N > 0,
            old(self)@.test_limit + 1 <= usize::MAX,
        ensures
            final(self).wf(),
            final(self)@.test == old(self)@.test + 2 * cells.len(),
            forall|i: int|
                0 <= i < cells.len() ==> {
                    &&& #[trigger] cells@[i].0 == old(self)@.buffer.wrap(
                        (old(self)@.buffer.write + i) as nat,
                    )
                    &&& cells@[i].1 == old(self)@.test + 2 * i
                    &&& old(self)@.test + 2 * i < old(self)@.test_limit
                    &&& old(self)@.buffer.live().len() + i < N - 1
                },
            !(final(self)@.test < final(self)@.test_limit && !final(self)@.buffer.is_full()),
            final(self)@.buffer.live() == old(self)@.buffer.live() + Seq::new(
                cells.len() as nat,
                |i: int| 0usize,
            ),
            final(self)@.buffer.read == old(self)@.buffer.read,
            final(self)@.pending == old(self)@.pending,
            final(self)@.test_limit == old(self)@.test_limit,
            final(self)@.test_halt == old(self)@.test_halt,
    {
        let ghost start = self@;
        let mut cells: Vec<(usize, usize)> = Vec::new();
        proof {
            assert(start.buffer.live() + Seq::new(0, |i: int| 0usize) =~= start.buffer.live());
            lemma_full_iff_at_capacity(start.buffer);
        }
        while self.test < self.test_limit && !self.check_buffer.is_full()
            invariant
                N > 0,
                self.wf(),
                start == old(self)@,
                start.buffer.well_formed(),
                start.buffer.capacity() == N,
                self.check_buffer.wf(),
                self@.buffer.read == start.buffer.read,
                self@.buffer.write == start.buffer.wrap((start.buffer.write + cells.len()) as nat),
                self@.buffer.live() == start.buffer.live() + Seq::new(
                    cells.len() as nat,
                    |i: int| 0usize,
                ),
                start.buffer.live().len() + cells.len() <= N - 1,
                self@.test == start.test + 2 * cells.len(),
                self@.test_limit == start.test_limit,
                self@.test_limit + 1 <= usize::MAX,
                self@.test_halt == start.test_halt,
                self@.pending == start.pending,
                forall|i: int|
                    0 <= i < cells.len() ==> {
                        &&& #[trigger] cells@[i].0 == start.buffer.wrap(
                            (start.buffer.write + i) as nat,
                        )
                        &&& cells@[i].1 == start.test + 2 * i
                        &&& start.test + 2 * i < start.test_limit
                        &&& start.buffer.live().len() + i < N - 1
                    },
            decreases N - 1 - (start.buffer.live().len() + cells.len()),
        {
            proof {
                lemma_full_iff_at_capacity(self@.buffer);
                lemma_push_appends(self@.buffer, 0);
            }
            let cell = self.check_buffer.push(0);
            cells.push((cell, self.test));
            self.test = self.test + 2;
            assert(self@.buffer.live() =~= start.buffer.live() + Seq::new(
                cells.len() as nat,
                |i: int| 0usize,
            ));
        }
        cells
    }

    /// Stores a worker's result in its cell.
    pub fn record(&mut self, cell: usize, result: usize)
        requires
            old(self).wf(),
            cell < N,
        ensures
            final(self).wf(),
            final(self)@ == (CoordinatorView {
                buffer: old(self)@.buffer.updated(cell as nat, result),
                ..old(self)@
            }),
    {
        self.check_buffer.update(cell, result);
    }

    /// Takes the finished results from the front of the buffer and keeps the primes among
    /// them for publishing; returns those primes.
    pub fn collect(&mut self) -> (ready: Vec<usize>)
        requires
            old(self).wf(),
        ensures
            final(self).wf(),
            ready@ == ready_primes(old(self)@.buffer.live()),
            final(self)@ == (CoordinatorView {
                buffer: old(self)@.buffer.advanced(ready_count(old(self)@.buffer.live())),
                pending: old(self)@.pending + ready@,
                ..old(self)@
            }),
    {
        let mut ready: Vec<usize> = Vec::new();
        drain_ready(&mut self.check_buffer, &mut ready);
        assert(ready@ =~= ready_primes(old(self)@.buffer.live()));
        let mut kept = ready.clone();
        assert(kept@ =~= ready@);
        self.insert_buffer.append(&mut kept);
        ready
    }

    /// Takes the finished results from the front of the buffer and appends the primes
    /// among them straight to `primes`.
    pub fn collect_into(&mut self, primes: &mut Vec<usize>)
        requires
            old(self).wf(),
        ensures
            final(self).wf(),
            final(primes)@ == old(primes)@ + ready_primes(old(self)@.buffer.live()),
            final(self)@ == (CoordinatorView {
                buffer: old(self)@.buffer.advanced(ready_count(old(self)@.buffer.live())),
                ..old(self)@
            }),
    {
        drain_ready(&mut self.check_buffer, primes);
    }

    /// The most recently collected prime that is still waiting to be published.
    pub fn last_pending(&self) -> (last: Option<usize>)
        ensures
            last == if self@.pending.len() > 0 {
                Some(self@.pending.last())
            } else {
                None::<usize>
            },
    {
        if self.insert_buffer.len() > 0 {
            Some(self.insert_buffer[self.insert_buffer.len() - 1])
        } else {
            None
        }
    }

    /// Whether the candidates have reached the round's limit (or the halt, if that comes
    /// first) and there are primes waiting to be published.
    pub fn publish_due(&self) -> (due: bool)
        ensures
            due == ((self@.test >= self@.test_limit || self@.test >= self@.test_halt)
                && self@.pending.len() > 0),
    {
        let bound = if self.test_limit < self.test_halt {
            self.test_limit
        } else {
            self.test_halt
        };
        self.test >= bound && self.insert_buffer.len() > 0
    }

    /// Whether the candidates have reached the round's limit or at least 100 primes are
    /// waiting to be published.
    pub fn batch_publish_due(&self) -> (due: bool)
        ensures
            due == (self@.test >= self@.test_limit || self@.pending.len() >= 100),
    {
        self.test >= self.test_limit || self.insert_buffer.len() >= 100
    }

    /// Whether the candidates have reached the round's limit.
    pub fn limit_reached(&self) -> (reached: bool)
        ensures
            reached == (self@.test >= self@.test_limit),
    {
        self.test >= self.test_limit
    }

    /// Publishes the waiting primes to `primes` and starts the next round at the square of
    /// the largest one.
    pub fn publish_squared(&mut self, primes: &mut Vec<usize>)
        requires
            old(self).wf(),
            (old(primes)@ + old(self)@.pending).len() > 0,
            (old(primes)@ + old(self)@.pending).last() * (old(primes)@
                + old(self)@.pending).last() <= usize::MAX,
        ensures
            final(self).wf(),
            final(primes)@ == old(primes)@ + old(self)@.pending,
            final(self)@ == (CoordinatorView {
                pending: Seq::empty(),
                test_limit: (final(primes)@.last() * final(primes)@.last()) as nat,
                ..old(self)@
            }),
    {
        primes.append(&mut self.insert_buffer);
        let last = primes[primes.len() - 1];
        self.test_limit = last * last;
        assert(self@.pending =~= Seq::<usize>::empty());
    }

    /// Publishes the waiting primes to `primes` and starts the next round at the square of
    /// the largest known prime or at the halt, whichever comes first.
    pub fn publish_capped(&mut self, primes: &mut Vec<usize>)
        requires
            old(self).wf(),
            (old(primes)@ + old(self)@.pending).len() > 0,
            (old(primes)@ + old(self)@.pending).last() * (old(primes)@
                + old(self)@.pending).last() <= usize::MAX,
        ensures
            final(self).wf(),
            final(primes)@ == old(primes)@ + old(self)@.pending,
            final(self)@ == (CoordinatorView {
                pending: Seq::empty(),
                test_limit: if final(primes)@.last() * final(primes)@.last()
                    <= old(self)@.test_halt {
                    (final(primes)@.last() * final(primes)@.last()) as nat
                } else {
                    old(self)@.test_halt
                },
                ..old(self)@
            }),
    {
        primes.append(&mut self.insert_buffer);
        self.test_limit = next_test_limit(primes.as_slice(), self.test_halt);
        assert(self@.pending =~= Seq::<usize>::empty());
    }

    /// Starts the next round at the square of the largest known prime or at the halt,
    /// whichever comes first.
    pub fn refresh_limit(&mut self, primes: &[usize])
        requires
            old(self).wf(),
            primes.len() > 0,
            primes@.last() * primes@.last() <= usize::MAX,
        ensures
            final(self).wf(),
            final(self)@ == (CoordinatorView {
                test_limit: if primes@.last() * primes@.last() <= old(self)@.test_halt {
                    (primes@.last() * primes@.last()) as nat
                } else {
                    old(self)@.test_halt
                },
                ..old(self)@
            }),
    {
        self.test_limit = next_test_limit(primes, self.test_halt);
    }

    /// Whether every candidate below the halt has been handed out and every result has
    /// been taken from the buffer.
    pub fn finished(&self) -> (done: bool)
        requires
            self.wf(),
        ensures
            done == (self@.test >= self@.test_halt && self@.buffer.live().len() == 0),
    {
        self.test >= self.test_halt && self.check_buffer.is_empty()
    }

    /// Whether, in addition, no prime is waiting to be published.
    pub fn finished_and_published(&self) -> (done: bool)
        requires
            self.wf(),
        ensures
            done == (self@.test >= self@.test_halt && self@.buffer.live().len() == 0
                && self@.pending.len() == 0),
    {
        self.test >= self.test_halt && self.check_buffer.is_empty()
            && self.insert_buffer.len() == 0
    }
}

} // verus!
