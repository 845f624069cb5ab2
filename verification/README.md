# rust_prime

Prime generation by trial division against the primes found so far, in a sequential
form and in several multi-threaded forms, with the results kept in ascending order.

## Library (`src/`)

- `primality`: integer square root and `check_primality`; the proof that trial division
  by every prime below `b` decides primality below `b * b`.
- `sieve`: the list of all primes below a bound (`primes_below`), the candidates of a range
  that survive trial division (`primes_in_range`), round limits, and the proofs that a
  round extends the list correctly and that the list is unique.
- `queue`: the ring buffer of result cells and its laws.
- `buffered`: the search with new primes parked in the ring buffer.
- `chili_tree`, `rounds`: one round of the search through chili, orx-parallel or par-iter.
- `coordinator`, `range_batches`, `task_ring`, `atomic_steps`, `workers`: the decisions of
  the multi-threaded searches and what their workers compute.

## Program (`app/`)

`app <search> <limit>` runs one search (`prime`, `prime_buffer`, `prime_buffer_mt_sc`,
`prime_mt_chili_enum`, ...) and prints the primes it finds below `limit`.
