//! Splitting a range of candidates in halves that chili may run on separate threads, and
//! collecting the primes of each half in a tree of batches that keeps range order.
use vstd::prelude::*;
use chili::Scope;
use core::ops::Range;
use crate::sieve::{lemma_survivors_split, primes_in_range, survivors_in_range};
use crate::workers::halves;
use crate::THREAD_WORK_LIMIT;

verus! {

/// chili's work-stealing scope, carried through unchanged.
#[verifier::external_type_specification]
#[verifier::external_body]
pub struct ExScope<'s>(Scope<'s>);

/// Batches of primes, each batch ascending and the batches in range order.
pub enum PrimeChiliTree {
    /// One batch, until it has been handed out.
    Base(Option<Vec<usize>>),
    /// The batches of the first subtree, then those of the second.
    Recurse(Box<PrimeChiliTree>, Box<PrimeChiliTree>),
}

impl PrimeChiliTree {
    /// The batches not yet handed out, in order.
    pub open spec fn batches(self) -> Seq<Seq<usize>>
        decreases self,
    {
        match self {
            PrimeChiliTree::Base(items) => match items {
                Some(v) => seq![v@],
                None => Seq::empty(),
            },
            PrimeChiliTree::Recurse(a, b) => a.batches() + b.batches(),
        }
    }

    /// A tree holding the single batch `a`.
    pub fn base(a: Vec<usize>) -> (tree: Self)
        ensures
            tree == PrimeChiliTree::Base(Some(a)),
            tree.batches() == seq![a@],
    {
        PrimeChiliTree::Base(Some(a))
    }

    /// A tree that hands out the batches of `a`, then those of `b`.
    pub fn recurse(a: Self, b: Self) -> (tree: Self)
        ensures
            tree == PrimeChiliTree::Recurse(Box::new(a), Box::new(b)),
            tree.batches() == a.batches() + b.batches(),
    {
        PrimeChiliTree::Recurse(Box::new(a), Box::new(b))
    }

    /// Hands out the next batch, if any is left.
    pub fn next(&mut self) -> (batch: Option<Vec<usize>>)
        ensures
            old(self).batches().len() == 0 ==> batch is None && final(self).batches()
                == old(self).batches(),
            old(self).batches().len() > 0 ==> (batch matches Some(v) && v@ == old(
                self,
            ).batches()[0] && final(self).batches() == old(self).batches().drop_first()),
        decreases *old(self),
    {
        match self {
            PrimeChiliTree::Base(items) => items.take(),
            PrimeChiliTree::Recurse(a, b) => {
                let ghost old_a = (**a).batches();
                let ghost old_b = (**b).batches();
                match (&mut **a).next() {
                    Some(batch) => {
                        assert((old_a + old_b).drop_first() =~= old_a.drop_first() + old_b);
                        Some(batch)
                    },
                    None => {
                        assert(old_a + old_b =~= old_b);
                        let batch = (&mut **b).next();
                        batch
                    },
                }
            },
        }
    }
}

/// Runs the search on both halves through `chili::Scope::join`, which runs the two closures,
/// potentially in parallel on separate threads, and returns their results in argument order.
/// Each closure only calls `find_primes_in_range`, so its result carries that function's
/// contract. Taken on trust: that `join` returns both closures' results unchanged and in
/// that order. Left unsaid: what the scope holds after the call.
#[verifier::external_body]
fn join_halves(
    s: &mut Scope<'_>,
    primes: &[usize],
    range_a: Range<usize>,
    range_b: Range<usize>,
) -> (trees: (PrimeChiliTree, PrimeChiliTree))
    ensures
        trees.0.batches().flatten() == survivors_in_range(
            primes@,
            range_a.start as nat,
            range_a.end as nat,
        ),
        trees.1.batches().flatten() == survivors_in_range(
            primes@,
            range_b.start as nat,
            range_b.end as nat,
        ),
{
    s.join(
        |s| find_primes_in_range(s, primes, range_a),
        |s| find_primes_in_range(s, primes, range_b),
    )
}

/// The candidates of `range` that survive trial division by `primes`, as a tree of batches:
/// a range shorter than `THREAD_WORK_LIMIT` is one batch; a longer one is split at its
/// midpoint and the halves are searched through chili.
///
/// Verus does not check that this terminates: the recursive calls go through the trusted
/// `join_halves`, where termination is not checked. Each call works on a strictly shorter
/// range than its caller (`halves` ensures both halves are shorter and non-empty), and a
/// range shorter than `THREAD_WORK_LIMIT` is not split, so the recursion ends.
pub fn find_primes_in_range(s: &mut Scope<'_>, primes: &[usize], range: Range<usize>) -> (tree:
    PrimeChiliTree)
    ensures
        tree.batches().flatten() == survivors_in_range(
            primes@,
            range.start as nat,
            range.end as nat,
        ),
        range.start >= range.end || range.end - range.start < THREAD_WORK_LIMIT ==> tree.batches()
            == seq![survivors_in_range(primes@, range.start as nat, range.end as nat)],
        !(range.start >= range.end || range.end - range.start < THREAD_WORK_LIMIT) ==> (
        tree matches PrimeChiliTree::Recurse(a, b) && a.batches().flatten() == survivors_in_range(
            primes@,
            range.start as nat,
            ((range.start + range.end) / 2) as nat,
        ) && b.batches().flatten() == survivors_in_range(
            primes@,
            ((range.start + range.end) / 2) as nat,
            range.end as nat,
        )),
{
    let start = range.start;
    let end = range.end;
    match halves(start..end) {
        None => {
            let new_primes = primes_in_range(primes, range);
            let tree = PrimeChiliTree::base(new_primes);
            proof {
                tree.batches().lemma_flatten_one_element();
            }
            tree
        },
        Some((range_a, range_b)) => {
            let ghost mid = range_a.end;
            let (branch_a, branch_b) = join_halves(s, primes, range_a, range_b);
            proof {
                lemma_survivors_split(primes@, start as nat, mid as nat, end as nat);
                vstd::seq_lib::lemma_flatten_concat(branch_a.batches(), branch_b.batches());
            }
            PrimeChiliTree::recurse(branch_a, branch_b)
        },
    }
}

} // verus!
