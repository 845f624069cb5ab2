//! Prime generation by trial division against the primes found so far, with a ring
//! buffer that keeps results in order when candidates are checked out of order.
use vstd::prelude::*;

pub mod primality;
pub mod queue;
pub mod sieve;
pub mod buffered;
pub mod chili_tree;
pub mod rounds;
pub mod workers;
pub mod coordinator;
pub mod protocol;
pub mod range_batches;
pub mod task_ring;
pub mod atomic_steps;

pub use primality::check_primality;
pub use queue::Queue;

verus! {

/// The number of cells of the result buffer that the multi-threaded searches use.
pub const TOTAL_WORK_LIMIT: usize = 200_000;

/// The number of candidates a worker takes on at a time, and the size below which a range
/// of candidates is searched without splitting it further.
pub const THREAD_WORK_LIMIT: usize = 10_000;

} // verus!
