//! A fixed-size ring buffer of result cells.
//!
//! Each cell holds `0` while its candidate is still being checked, `1` when the candidate
//! turned out composite, and the candidate itself when it is prime. Cells are reserved in
//! the order candidates are handed out, filled in any order, and drained from the front
//! only as far as results are ready, so primes leave the buffer in ascending order.
use vstd::prelude::*;

verus! {

/// Number of leading entries of `s` that are `1` (cells whose candidate was composite).
pub open spec fn leading_ones(s: Seq<usize>) -> nat
    decreases s.len(),
{
    if s.len() > 0 && s[0] == 1 {
        1 + leading_ones(s.drop_first())
    } else {
        0
    }
}

/// `leading_ones(s)` is the index of the first entry that is not `1`, or the length.
pub proof fn lemma_leading_ones(s: Seq<usize>)
    ensures
        leading_ones(s) <= s.len(),
        forall|k: int| 0 <= k < leading_ones(s) ==> s[k] == 1,
        leading_ones(s) < s.len() ==> s[leading_ones(s) as int] != 1,
    decreases s.len(),
{
    if s.len() > 0 && s[0] == 1 {
        lemma_leading_ones(s.drop_first());
        assert forall|k: int| 0 <= k < leading_ones(s) implies s[k] == 1 by {
            if k > 0 {
                assert(s[k] == s.drop_first()[k - 1]);
            }
        }
    }
}

/// If the first `k` entries are `1` and the next one is not (or there is none),
/// `leading_ones(s)` is `k`.
pub proof fn lemma_leading_ones_is(s: Seq<usize>, k: nat)
    requires
        k <= s.len(),
        forall|i: int| 0 <= i < k ==> s[i] == 1,
        k < s.len() ==> s[k as int] != 1,
    ensures
        leading_ones(s) == k,
{
    lemma_leading_ones(s);
    let j = leading_ones(s);
    if j < k {
        assert(s[j as int] == 1);
    } else if j > k {
        assert(s[k as int] == 1);
    }
}

/// The mathematical state of a ring buffer: its slots and its read and write positions.
/// The live entries run from `read` up to, not including, `write`, wrapping around.
pub struct QueueView<T> {
    pub slots: Seq<T>,
    pub read: nat,
    pub write: nat,
}

impl<T> QueueView<T> {
    /// Number of slots.
    pub open spec fn capacity(self) -> nat {
        self.slots.len()
    }

    /// Both positions lie within the slots (and are `0` when there are none).
    pub open spec fn well_formed(self) -> bool {
        if self.capacity() == 0 {
            self.read == 0 && self.write == 0
        } else {
            self.read < self.capacity() && self.write < self.capacity()
        }
    }

    /// A position one lap further on, brought back into range.
    pub open spec fn wrap(self, x: nat) -> nat {
        if x < self.capacity() {
            x
        } else {
            (x - self.capacity()) as nat
        }
    }

    /// Number of live entries.
    pub open spec fn len(self) -> nat {
        if self.read <= self.write {
            (self.write - self.read) as nat
        } else {
            (self.capacity() - self.read + self.write) as nat
        }
    }

    /// The live entries, oldest first.
    pub open spec fn live(self) -> Seq<T> {
        Seq::new(self.len(), |k: int| self.slots[self.wrap((self.read + k) as nat) as int])
    }

    /// The write position is the slot just before the read position.
    pub open spec fn is_full(self) -> bool {
        (self.write + 1) % self.capacity() == self.read
    }

    /// Nothing lies between the read and the write position.
    pub open spec fn is_empty(self) -> bool {
        self.read == self.write
    }

    /// The state after `value` is stored at the write position and the position moves on.
    pub open spec fn pushed(self, value: T) -> QueueView<T> {
        QueueView {
            slots: self.slots.update(self.write as int, value),
            read: self.read,
            write: self.wrap(self.write + 1),
        }
    }

    /// The state after slot `index` is overwritten with `value`.
    pub open spec fn updated(self, index: nat, value: T) -> QueueView<T> {
        QueueView { slots: self.slots.update(index as int, value), read: self.read, write: self.write }
    }

    /// The state after the read position moves `k` entries on.
    pub open spec fn advanced(self, k: nat) -> QueueView<T> {
        QueueView { slots: self.slots, read: self.wrap(self.read + k), write: self.write }
    }

}

impl QueueView<usize> {
    /// What draining the front yields: the first live entry that is not `1`, if it is a
    /// finished result (not `0`); nothing when the front is empty or still pending.
    pub open spec fn shift_result(self) -> Option<usize> {
        let j = leading_ones(self.live());
        if j < self.len() && self.live()[j as int] != 0 {
            Some(self.live()[j as int])
        } else {
            None
        }
    }

    /// How many live entries draining the front consumes: the composites it skips, and the
    /// prime it returns, if any.
    pub open spec fn shift_count(self) -> nat {
        if self.shift_result() is Some {
            leading_ones(self.live()) + 1
        } else {
            leading_ones(self.live())
        }
    }

    /// The state after draining the front.
    pub open spec fn shifted(self) -> QueueView<usize> {
        self.advanced(self.shift_count())
    }
}

/// `(x + 1) % cap` is one step along the ring.
pub proof fn lemma_next_position<T>(v: QueueView<T>, x: nat)
    requires
        x < v.capacity(),
    ensures
        (x + 1) % v.capacity() == v.wrap(x + 1),
{
    if x + 1 < v.capacity() {
        vstd::arithmetic::div_mod::lemma_small_mod(x + 1, v.capacity());
    } else {
        vstd::arithmetic::div_mod::lemma_mod_self_0(v.capacity() as int);
    }
}

/// A ring of `cap` slots holds at most `cap - 1` live entries, and it is full exactly when
/// it holds that many.
pub proof fn lemma_full_iff_at_capacity<T>(v: QueueView<T>)
    requires
        v.well_formed(),
        v.capacity() > 0,
    ensures
        v.len() < v.capacity(),
        v.is_full() <==> v.len() == v.capacity() - 1,
        v.is_empty() <==> v.live().len() == 0,
{
    lemma_next_position(v, v.write);
}

/// Moving the read position `k` entries on drops the first `k` live entries.
pub proof fn lemma_advance<T>(v: QueueView<T>, k: nat)
    requires
        v.well_formed(),
        k <= v.len(),
    ensures
        v.advanced(k).well_formed(),
        v.advanced(k).capacity() == v.capacity(),
        v.advanced(k).len() == v.len() - k,
        v.advanced(k).live() =~= v.live().subrange(k as int, v.len() as int),
{
    let w = v.advanced(k);
    assert(w.len() == v.len() - k);
    assert forall|i: int| 0 <= i < w.len() implies w.live()[i] == v.live()[k + i] by {
        assert(w.wrap((w.read + i) as nat) == v.wrap((v.read + k + i) as nat));
    }
}

/// Pushing onto a ring that is not full appends the value to the live entries.
pub proof fn lemma_push_appends<T>(v: QueueView<T>, value: T)
    requires
        v.well_formed(),
        v.capacity() > 0,
        !v.is_full(),
    ensures
        v.pushed(value).well_formed(),
        v.pushed(value).capacity() == v.capacity(),
        v.pushed(value).live() =~= v.live().push(value),
{
    lemma_next_position(v, v.write);
    let w = v.pushed(value);
    assert(w.len() == v.len() + 1);
    assert forall|i: int| 0 <= i < v.len() implies w.live()[i] == v.live()[i] by {
        assert(v.wrap((v.read + i) as nat) != v.write);
    }
    assert(v.wrap((v.read + v.len()) as nat) == v.write);
}

/// A cell reserved by a push and later filled by an update holds the filled-in value at
/// the back of the live entries; the entries before it are untouched.
pub proof fn lemma_fill_reserved_cell<T>(v: QueueView<T>, placeholder: T, value: T)
    requires
        v.well_formed(),
        v.capacity() > 0,
        !v.is_full(),
    ensures
        v.pushed(placeholder).updated(v.write, value).live() =~= v.live().push(value),
{
    lemma_push_appends(v, placeholder);
    lemma_push_appends(v, value);
}

/// Draining the front consumes composites (`1`) up to the first other entry, returns that
/// entry if it is a finished prime, and leaves the remaining live entries in their order.
pub proof fn lemma_shift_drops_front(v: QueueView<usize>)
    requires
        v.well_formed(),
    ensures
        v.shift_count() <= v.len(),
        v.shifted().well_formed(),
        v.shifted().capacity() == v.capacity(),
        v.shifted().live() =~= v.live().subrange(v.shift_count() as int, v.len() as int),
        forall|k: int| 0 <= k < leading_ones(v.live()) ==> v.live()[k] == 1,
        v.shift_result() matches Some(p) ==> p > 1,
{
    lemma_leading_ones(v.live());
    lemma_advance(v, v.shift_count());
}

/// The primes that draining the front until it is empty or pending yields, oldest first:
/// composites (`1`) are skipped, and a pending cell (`0`) stops the drain.
pub open spec fn ready_primes(s: Seq<usize>) -> Seq<usize>
    decreases s.len(),
{
    if s.len() == 0 || s[0] == 0 {
        Seq::empty()
    } else if s[0] == 1 {
        ready_primes(s.drop_first())
    } else {
        seq![s[0]] + ready_primes(s.drop_first())
    }
}

/// How many live entries that drain consumes: everything before the first pending cell.
pub open spec fn ready_count(s: Seq<usize>) -> nat
    decreases s.len(),
{
    if s.len() == 0 || s[0] == 0 {
        0
    } else {
        1 + ready_count(s.drop_first())
    }
}

/// Skipping `k` leading composites changes neither what the drain yields nor where it stops.
proof fn lemma_ready_skip_ones(s: Seq<usize>, k: nat)
    requires
        k <= s.len(),
        forall|i: int| 0 <= i < k ==> s[i] == 1,
    ensures
        ready_primes(s) == ready_primes(s.subrange(k as int, s.len() as int)),
        ready_count(s) == k + ready_count(s.subrange(k as int, s.len() as int)),
    decreases k,
{
    if k > 0 {
        let t = s.drop_first();
        lemma_ready_skip_ones(t, (k - 1) as nat);
        assert(t.subrange(k - 1, t.len() as int) =~= s.subrange(k as int, s.len() as int));
    } else {
        assert(s.subrange(0, s.len() as int) =~= s);
    }
}

/// One call of the front drain in terms of the whole drain: a returned prime comes first
/// and the drain carries on after it; no prime means the drain is over.
pub proof fn lemma_shift_is_drain_step(v: QueueView<usize>)
    requires
        v.well_formed(),
    ensures
        v.shift_result() matches Some(p) ==> ready_primes(v.live()) == seq![p] + ready_primes(
            v.shifted().live(),
        ) && ready_count(v.live()) == v.shift_count() + ready_count(v.shifted().live()),
        v.shift_result() is None ==> ready_primes(v.live()).len() == 0 && ready_count(v.live())
            == v.shift_count(),
{
    let s = v.live();
    lemma_leading_ones(s);
    lemma_shift_drops_front(v);
    let j = leading_ones(s);
    lemma_ready_skip_ones(s, j);
    let t = s.subrange(j as int, s.len() as int);
    if v.shift_result() is Some {
        assert(t.drop_first() =~= s.subrange(j + 1int, s.len() as int));
    }
}

/// Moving on `a` entries and then `b` more is moving on `a + b`.
pub proof fn lemma_advance_twice<T>(v: QueueView<T>, a: nat, b: nat)
    requires
        v.well_formed(),
        a + b <= v.len(),
    ensures
        v.advanced(a).advanced(b) == v.advanced(a + b),
{
}

/// A ring buffer of `N` result cells. It holds at most `N - 1` live entries.
#[derive(Debug)]
pub struct Queue<const N: usize> {
    data: Vec<usize>,
    read: usize,
    write: usize,
}

impl<const N: usize> View for Queue<N> {
    type V = QueueView<usize>;

    closed spec fn view(&self) -> QueueView<usize> {
        QueueView { slots: self.data@, read: self.read as nat, write: self.write as nat }
    }
}

impl<const N: usize> Queue<N> {
    /// The buffer has `N` slots and both positions lie among them.
    pub open spec fn wf(&self) -> bool {
        &&& self@.well_formed()
        &&& self@.capacity() == N
    }

    /// An empty buffer of `N` cells, all `0`.
    pub fn new() -> (q: Self)
        ensures
            q@.slots == Seq::new(N as nat, |i: int| 0usize),
            q@.read == 0,
            q@.write == 0,
            q.wf(),
            q@.live().len() == 0,
    {
        let mut data: Vec<usize> = Vec::new();
        let mut i: usize = 0;
        while i < N
            invariant
                i <= N,
                data@ =~= Seq::new(i as nat, |j: int| 0usize),
            decreases N - i,
        {
            data.push(0);
            i += 1;
        }
        Queue { data, read: 0, write: 0 }
    }

    /// Whether one more push would make the write position catch up with the read position.
    pub fn is_full(&self) -> (full: bool)
        requires
            self.wf(),
            N > 0,
        ensures
            full == self@.is_full(),
            full <==> self@.live().len() == N - 1,
    {
        proof {
            lemma_full_iff_at_capacity(self@);
        }
        (self.write + 1) % N == self.read
    }

    /// Whether there are no live entries.
    pub fn is_empty(&self) -> (empty: bool)
        requires
            self.wf(),
        ensures
            empty == self@.is_empty(),
            empty <==> self@.live().len() == 0,
    {
        self.read == self.write
    }

    /// Number of pushes left before the buffer is full. Computed only while the read
    /// position lies before the write position.
    pub fn remaining(&self) -> (free: usize)
        requires
            self.wf(),
            self@.read < self@.write,
        ensures
            free == N - self@.write + self@.read - 1,
            free + self@.live().len() == N - 1,
    {
        N - self.write + self.read - 1
    }

    /// Stores `value` at the write position, moves that position on, and returns the cell
    /// where `value` now lies.
    pub fn push(&mut self, value: usize) -> (index: usize)
        requires
            old(self).wf(),
            N > 0,
            !old(self)@.is_full(),
        ensures
            index == old(self)@.write,
            final(self)@ == old(self)@.pushed(value),
            final(self)@.live() == old(self)@.live().push(value),
            final(self).wf(),
    {
        proof {
            lemma_push_appends(self@, value);
            lemma_next_position(self@, self@.write);
        }
        let index = self.write;
        self.data.set(index, value);
        self.write = (self.write + 1) % N;
        index
    }

    /// Overwrites the cell at `index`.
    pub fn update(&mut self, index: usize, value: usize)
        requires
            old(self).wf(),
            index < N,
        ensures
            final(self)@ == old(self)@.updated(index as nat, value),
            final(self).wf(),
    {
        self.data.set(index, value);
    }

    /// Pops a completed result from the front of the buffer if it's ready: skips cells
    /// marked composite, stops at a cell that is still pending, and returns the first prime.
    pub fn try_shift_prime(&mut self) -> (prime: Option<usize>)
        requires
            old(self).wf(),
        ensures
            prime == old(self)@.shift_result(),
            final(self)@ == old(self)@.shifted(),
            final(self)@.live() == old(self)@.live().subrange(
                old(self)@.shift_count() as int,
                old(self)@.live().len() as int,
            ),
            prime matches Some(p) ==> p > 1,
            final(self).wf(),
    {
        proof {
            lemma_shift_drops_front(self@);
            lemma_leading_ones(self@.live());
        }
        let ghost start = self@;
        let ghost mut k: nat = 0;
        loop
            invariant
                start == old(self)@,
                start.well_formed(),
                start.capacity() == N,
                k <= start.len(),
                forall|i: int| 0 <= i < k ==> start.live()[i] == 1,
                self@ == start.advanced(k),
                self@.live() == start.live().subrange(k as int, start.len() as int),
                self@.len() == start.len() - k,
                self@.well_formed(),
                self.data@.len() == N,
            decreases start.len() - k,
        {
            if self.read == self.write {
                proof {
                    lemma_leading_ones_is(start.live(), k);
                }
                return None;
            }
            let value = self.data[self.read];
            assert(value == start.live()[k as int]);
            if value == 0 {
                proof {
                    lemma_leading_ones_is(start.live(), k);
                }
                return None;
            }
            proof {
                lemma_next_position(self@, self@.read);
                lemma_advance(start, k + 1);
            }
            self.read = (self.read + 1) % N;
            proof {
                k = k + 1;
            }
            if value == 1 {
                continue;
            }
            proof {
                lemma_leading_ones_is(start.live(), (k - 1) as nat);
            }
            return Some(value);
        }
    }
}

impl<const N: usize> Default for Queue<N> {
    /// The same as `Queue::new()`.
    fn default() -> (q: Self)
        ensures
            q@.slots == Seq::new(N as nat, |i: int| 0usize),
            q@.read == 0,
            q@.write == 0,
            q.wf(),
    {
        Self::new()
    }
}

} // verus!
