# preflop_solver

The combinatorial and bookkeeping core of a heads-up no-limit hold'em
preflop solver, written in Verus: every function in `src/` carries a
contract that Verus proves.

What the library covers:

- cards, private combos and their class labels; suit-canonical flops and
  their orbits; exact class tables and the exact checkdown kernel;
- deals: exact river enumeration, sampling without replacement, hidden-hand
  and causal scenario trees, stratified deal cycles;
- deterministic keys and seeds (SHA-256 over framed byte strings);
- board-texture features, information keys, response plans, bounded
  attribution reservoirs;
- the checks and merges of caches, the checks of policy artifacts, network
  bundles, checkpoints and endpoint files, the compact binary policy
  format, and the planning of cache builds across shards and workers.

Laws that relate several functions are public proof functions named
`law_*`.

Layout:

- `src/` the verified library, one module per topic;
- `tests/` tests of the library on concrete values;
- `app/` file, JSON and floating-point plumbing around the library.
