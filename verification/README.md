# tokenizer_utils

Building blocks for fast batch tokenization, verified with Verus.

- `src/batch.rs`: windows of work for threads, inputs that are taken once, and
  results that are written in any order.
- `src/entry_map.rs`, `src/cache.rs`: a map from strings to values on top of
  `ahash`, and a bounded, sharded cache made of such maps.
- `src/pre_tokenized.rs`, `src/fixed_length.rs`: text that keeps track of where
  it came from, and its cutting into pieces of a fixed number of characters.
- `src/barrier.rs`, `src/pool.rs`: the spin barrier and the protocol of a thread
  pool, with proofs over every order of the steps of all threads.
- `src/topology.rs`: how many cores a machine has and how many threads to run.
- `src/pcre2_backend.rs`: what to ask of PCRE2, and what to make of its answers.
- `src/arith.rs`, `src/decimal.rs`, `src/utf8.rs`: arithmetic, decimal numbers
  and byte positions of characters.

The public proof functions whose names start with `law_` state what holds of the
library as a whole.

Proofs do not see what an atomic holds. For the work queue and the barrier they
cover what follows from every value that a thread may find in a shared counter,
and, over a model, every order of the steps of all threads. That the code takes
the steps of the model (that a claim moves the counter on by the window size, that
the last thread at a barrier resets the count and publishes a generation) is known
by reading and from the tests.

`app/` holds what needs threads, locks, files, the environment or foreign code:
the thread pool, the shared cache, the binding to PCRE2 and the configuration
that is read and written with serde.
