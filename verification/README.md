# labinius

A lattice polynomial commitment scheme over `GF(2^162)`, verified with Verus: executable Rust whose
behaviour is stated in `requires` and `ensures` clauses and proved.

A witness of `2^w` field elements is read as columns of `R = Z[X]/(X^648 - X^324 + 1)` with binary
coefficients and committed column by column modulo a few NTT primes. An evaluation claim is opened by
folding the columns with short challenges; the verifier checks the fold against the folded
commitment, its norm against a cap, and its value at the point against the folded row evaluation.

## Layout

- `src/` is the library.
  - `fields`, `ring`, `modular`, `params`, `ntt`, `scalar`, `simd`: the binary fields, the ring, its
    primes, the transforms and the bounds of their lanes.
  - `ajtai`, `key`, `fold`, `bd`, `parity`, `eval`: the commitment key, folding, the dropping of low
    bits and what is left behind, evaluation of multilinear extensions.
  - `challenge`, `hash`, `rng`: the transcript and short challenges, over BLAKE3.
  - `scheme`: parameters, prover, verifier, messages, and the laws of a round.
  - `switch`: the sumcheck that turns a claim over `B128` into one over `F162`.
  - `wire`: the byte formats of commitments and folded witnesses.
  - `recursion`, `labrador`: the statement of a recursive opening and its checks.
- `tests/` runs the library on concrete values.
- `app/` is ordinary Rust around it: floating point, arguments, `std` errors, the proof backend.

The functions of `src/hash.rs` and `share` in `src/scheme/public.rs` are trusted: their contracts say
what is taken from BLAKE3 and from `Arc`. Everything else in `src/` is proved.
