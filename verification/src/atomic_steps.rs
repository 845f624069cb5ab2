//! The decisions of the search whose workers answer through one atomic cell per candidate,
//! kept in a queue in the order the candidates were handed out.
use vstd::prelude::*;
use crate::TOTAL_WORK_LIMIT;
use crate::primality::{is_prime, survives_trial_division};
use crate::protocol::answer;
use crate::sieve::{
    lemma_even_not_prime, lemma_lists_extend_composite, lemma_lists_extend_prime,
    lemma_trial_division_decides, lists_primes_below,
};

verus! {

/// What to do with the answer read from the oldest outstanding cell.
#[derive(PartialEq, Eq, Debug, Structural)]
pub enum FrontStep {
    /// Not answered yet, and something was taken this pass: stop reading for now.
    Stop,
    /// Not answered yet and nothing taken this pass: yield and read the cell again.
    Wait,
    /// Composite: drop the cell.
    Skip,
    /// Prime: keep it for publishing and drop the cell.
    Take(usize),
}

/// The step for an answer: `0` is pending, `1` composite, anything else the prime itself.
pub fn front_step(result: usize, ran: bool) -> (step: FrontStep)
    ensures
        result == 0 && ran ==> step == FrontStep::Stop,
        result == 0 && !ran ==> step == FrontStep::Wait,
        result == 1 ==> step == FrontStep::Skip,
        result > 1 ==> step == FrontStep::Take(result),
{
    if result == 0 {
        if ran {
            FrontStep::Stop
        } else {
            FrontStep::Wait
        }
    } else if result > 1 {
        FrontStep::Take(result)
    } else {
        FrontStep::Skip
    }
}

/// Whether another candidate may be handed out: it is at most both the round's limit and
/// the halt, and fewer than `TOTAL_WORK_LIMIT` cells are outstanding.
pub fn dispatch_due(test: usize, test_limit: usize, test_halt: usize, outstanding: usize) -> (due:
    bool)
    ensures
        due == (test <= test_limit && test <= test_halt && outstanding < TOTAL_WORK_LIMIT),
{
    let bound = if test_limit < test_halt {
        test_limit
    } else {
        test_halt
    };
    test <= bound && outstanding < TOTAL_WORK_LIMIT
}

/// Whether the candidates have reached the round's limit (or the halt) and primes are
/// waiting to be published.
pub fn publish_due(test: usize, test_limit: usize, test_halt: usize, waiting: usize) -> (due: bool)
    ensures
        due == ((test >= test_limit || test >= test_halt) && waiting > 0),
{
    let bound = if test_limit < test_halt {
        test_limit
    } else {
        test_halt
    };
    test >= bound && waiting > 0
}

/// Whether the search is over: every candidate below the halt was handed out and no cell
/// is outstanding.
pub fn search_done(test: usize, test_halt: usize, outstanding: usize) -> (done: bool)
    ensures
        done == (test >= test_halt && outstanding == 0),
{
    test >= test_halt && outstanding == 0
}


/// The candidate whose answer belongs in cell `i` of the queue: the cells hold consecutive
/// odd candidates, the last of them just below the next candidate `test`.
pub open spec fn cell_candidate(cells: Seq<usize>, test: nat, i: int) -> int {
    test - 2 * (cells.len() - i)
}

/// The law of the atomic-cell search, over the values the queued cells hold: the published
/// primes and those waiting are every prime below the first outstanding candidate; each
/// cell is pending (`0`) or holds the right answer; every outstanding candidate, and the
/// round's limit, lie within the square of the last published prime.
pub open spec fn atomic_inv(
    cells: Seq<usize>,
    test: nat,
    test_limit: nat,
    published: Seq<usize>,
    waiting: Seq<usize>,
) -> bool {
    &&& test <= usize::MAX
    &&& test % 2 == 1
    &&& cell_candidate(cells, test, 0) >= 3
    &&& forall|i: int|
        0 <= i < cells.len() ==> #[trigger] cells[i] == 0 || cells[i] == answer(
            cell_candidate(cells, test, i) as nat,
        )
    &&& forall|i: int|
        0 <= i < cells.len() ==> #[trigger] cell_candidate(cells, test, i) <= published.last()
            * published.last()
    &&& published.len() > 0
    &&& lists_primes_below(published, (published.last() + 1) as nat)
    &&& lists_primes_below(published + waiting, cell_candidate(cells, test, 0) as nat)
    &&& test_limit <= published.last() * published.last()
}

/// The start: no cells, 2 the only published prime, the first candidate 3 and the first
/// round ending at 2 * 2.
pub proof fn lemma_atomic_start()
    ensures
        atomic_inv(Seq::empty(), 3, 4, seq![2usize], Seq::empty()),
{
    let p = seq![2usize];
    assert(is_prime(2)) by {
        assert forall|d: nat| 2 <= d < 2 implies #[trigger] (2nat % d) != 0 by {}
    }
    assert(!is_prime(0));
    assert(!is_prime(1));
    assert(p + Seq::<usize>::empty() =~= p);
    assert forall|q: nat| is_prime(q) && q < 3 implies exists|i: int|
        0 <= i < p.len() && #[trigger] p[i] == q by {
        assert(p[0] == q);
    }
    assert(p.last() == 2);
}

/// Handing out candidate `test` (when `dispatch_due` holds) in a new pending cell keeps
/// the law.
pub proof fn lemma_atomic_dispatch(
    cells: Seq<usize>,
    test: nat,
    test_limit: nat,
    test_halt: nat,
    published: Seq<usize>,
    waiting: Seq<usize>,
)
    requires
        atomic_inv(cells, test, test_limit, published, waiting),
        test <= test_limit && test <= test_halt && cells.len() < TOTAL_WORK_LIMIT,
        test + 2 <= usize::MAX,
    ensures
        atomic_inv(cells.push(0), test + 2, test_limit, published, waiting),
{
    let c2 = cells.push(0);
    assert(cell_candidate(c2, test + 2, 0) == cell_candidate(cells, test, 0));
    assert forall|i: int| 0 <= i < c2.len() implies #[trigger] c2[i] == 0 || c2[i] == answer(
        cell_candidate(c2, test + 2, i) as nat,
    ) by {
        if i < cells.len() {
            assert(c2[i] == cells[i]);
            assert(cell_candidate(c2, test + 2, i) == cell_candidate(cells, test, i));
        }
    }
    assert forall|i: int| 0 <= i < c2.len() implies #[trigger] cell_candidate(c2, test + 2, i)
        <= published.last() * published.last() by {
        if i < cells.len() {
            assert(cell_candidate(c2, test + 2, i) == cell_candidate(cells, test, i));
        }
    }
}

/// A worker storing its answer for cell `i` (`cell_result` against the published primes)
/// keeps the law: the answer is the right one.
pub proof fn lemma_atomic_answer(
    cells: Seq<usize>,
    test: nat,
    test_limit: nat,
    published: Seq<usize>,
    waiting: Seq<usize>,
    i: int,
    value: usize,
)
    requires
        atomic_inv(cells, test, test_limit, published, waiting),
        0 <= i < cells.len(),
        value == if survives_trial_division(cell_candidate(cells, test, i) as nat, published) {
            cell_candidate(cells, test, i) as usize
        } else {
            1
        },
    ensures
        atomic_inv(cells.update(i, value), test, test_limit, published, waiting),
{
    let t = cell_candidate(cells, test, i) as nat;
    assert(cell_candidate(cells, test, i) >= cell_candidate(cells, test, 0));
    let last = published.last() as nat;
    assert(t < (last + 1) * (last + 1)) by (nonlinear_arith)
        requires
            t <= last * last,
    ;
    lemma_trial_division_decides(t, published, last + 1);
    let c2 = cells.update(i, value);
    assert forall|j: int| 0 <= j < c2.len() implies #[trigger] c2[j] == 0 || c2[j] == answer(
        cell_candidate(c2, test, j) as nat,
    ) by {
        assert(cell_candidate(c2, test, j) == cell_candidate(cells, test, j));
    }
    assert forall|j: int| 0 <= j < c2.len() implies #[trigger] cell_candidate(c2, test, j)
        <= published.last() * published.last() by {
        assert(cell_candidate(c2, test, j) == cell_candidate(cells, test, j));
    }
}

/// Acting on the oldest cell as `front_step` says keeps the law: `Take(p)` drops the cell
/// and keeps `p` waiting, `Skip` drops the cell, and the waiting states change nothing.
pub proof fn lemma_atomic_front(
    cells: Seq<usize>,
    test: nat,
    test_limit: nat,
    published: Seq<usize>,
    waiting: Seq<usize>,
)
    requires
        atomic_inv(cells, test, test_limit, published, waiting),
        cells.len() > 0,
        cells[0] != 0,
    ensures
        cells[0] > 1 ==> atomic_inv(
            cells.drop_first(),
            test,
            test_limit,
            published,
            waiting.push(cells[0]),
        ),
        cells[0] == 1 ==> atomic_inv(cells.drop_first(), test, test_limit, published, waiting),
{
    let first = cell_candidate(cells, test, 0) as nat;
    let rest = cells.drop_first();
    assert(cells[0] == answer(first));
    assert(cell_candidate(rest, test, 0) == first + 2);
    assert forall|i: int| 0 <= i < rest.len() implies #[trigger] cell_candidate(rest, test, i)
        == cell_candidate(cells, test, i + 1) && rest[i] == cells[i + 1] by {}
    assert forall|i: int| 0 <= i < rest.len() implies #[trigger] rest[i] == 0 || rest[i]
        == answer(cell_candidate(rest, test, i) as nat) by {
        assert(cells[i + 1] == 0 || cells[i + 1] == answer(
            cell_candidate(cells, test, i + 1) as nat,
        ));
    }
    assert forall|i: int| 0 <= i < rest.len() implies #[trigger] cell_candidate(rest, test, i)
        <= published.last() * published.last() by {
        assert(cell_candidate(cells, test, i + 1) <= published.last() * published.last());
    }
    let s = published + waiting;
    lemma_even_not_prime(first + 1);
    if is_prime(first) {
        lemma_lists_extend_prime(s, first);
        lemma_lists_extend_composite(s.push(first as usize), first + 1);
        assert(published + waiting.push(cells[0]) =~= s.push(first as usize));
    } else {
        lemma_lists_extend_composite(s, first);
        lemma_lists_extend_composite(s, first + 1);
    }
}

/// Publishing the waiting primes (`publish_due`), with the next round's limit at the square
/// of the new last prime, keeps the law.
pub proof fn lemma_atomic_publish(
    cells: Seq<usize>,
    test: nat,
    test_limit: nat,
    published: Seq<usize>,
    waiting: Seq<usize>,
)
    requires
        atomic_inv(cells, test, test_limit, published, waiting),
    ensures
        atomic_inv(
            cells,
            test,
            ((published + waiting).last() * (published + waiting).last()) as nat,
            published + waiting,
            Seq::empty(),
        ),
{
    let p2 = published + waiting;
    assert(p2 + Seq::<usize>::empty() =~= p2);
    assert forall|i: int| 0 <= i < p2.len() implies is_prime(#[trigger] p2[i] as nat) && p2[i]
        < p2.last() + 1 by {
        if i < p2.len() - 1 {
            assert(p2[i] < p2[p2.len() - 1]);
        }
    }
    assert(p2.last() >= published.last()) by {
        if p2.len() > published.len() {
            assert(p2[published.len() - 1] == published.last());
            assert(p2[published.len() - 1] < p2[p2.len() - 1]);
        }
    }
    assert(p2.last() * p2.last() >= published.last() * published.last()) by (nonlinear_arith)
        requires
            p2.last() >= published.last(),
    ;
}

/// When the search is done (`search_done`: no cell left), the published and waiting
/// primes are every prime below the next candidate.
pub proof fn lemma_atomic_done(
    cells: Seq<usize>,
    test: nat,
    test_limit: nat,
    published: Seq<usize>,
    waiting: Seq<usize>,
)
    requires
        atomic_inv(cells, test, test_limit, published, waiting),
        cells.len() == 0,
    ensures
        lists_primes_below(published + waiting, test),
{
}

} // verus!
