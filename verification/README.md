# merkle_spine

A verified library of canonical n-ary Merkle structures: one tree topology
shared by many hash algorithms, with an append-only log, a mutable tree, and
the proofs that go with them. Every executable function in `src/` carries a
contract that Verus proves.

## Layout

- `topology`: the frontier of perfect `k`-ary subtrees of a log of `n` cells,
  the carry after an append, and the arithmetic behind them.
- `hasher`, `sha`: the hash seam (`Hasher`) and SHA-256 hashers over it.
- `mr`, `model`: the canonical node digest (promotion of a lone child,
  collapse of children that share one value) and the mathematical model of a
  log: perfect subtrees, peaks, the frontier fold, the member root.
- `proofs`, `consistency`, `acceptance`, `soundness`: inclusion and
  consistency proofs, their verifiers, and the laws about them (honest proofs
  are accepted; under a collision-free hash, along paths that collapse no
  step, an accepted inclusion path is the honest one and an accepted
  consistency path binds the old root to the member root of the old prefix;
  a step with no sibling is rejected; a bag path verifies its peak and
  commits it).
- `mountain`: the append-only log's bagged root, its skeletons and verifiers;
  `soundness` also holds its laws (the log's mountain consistency proof is
  accepted, an accepted one binds the old bag of peaks, and the mountain
  inclusion path is pinned by its skeleton and commits its cell).
- `shape`: the rebalanced shape of a dense tree and its skeletons.
- `engine`, `reads`, `rebuild`: one algorithm's view, its reads from the
  store, and subtree roots recomputed from the store.
- `storage`: the storage trait with its model (leaves, nodes, metadata) and an
  in-memory store.
- `log`: the multi-algorithm log (`NaryMerkleLog`): appends, algorithm
  lifecycle, roots, proofs, reloading from a store, and the divergence check.
- `cmt`, `filling`, `presets`: the mutable tree, filling a tree from a
  snapshot's run extents (whose root over the canonical frontier is the
  member root built from scratch), and the binary presets.

`tests/` runs the library on concrete values; `app/` holds the error types
with `Display` and `std::error::Error`, which verified code cannot implement.

## Trusted items

Proofs rest on these items, whose contracts are believed, not proved:

- `sha::sha256`, with the name `sha::sha256_spec` for its result: calls
  `sha2::Sha256::digest` and claims a deterministic 32-byte result.
- `engine::join_numbers`: `format!` of two strings and two `u64`s, claimed to
  give the strings' characters and the numbers' decimal digits
  (`engine::decimal`). The standard library's `String` has no specification
  for appending in verified code, so the formatting stays behind this item.

## Not included

The binding root, snapshots and sealing, coupling proofs, audit payloads and
epoch-evolution checks rest on the combinator layer of the project (its
committed-timeline validation, combined-root preimage and sealed types),
which is not part of this library's sources; they are left out rather than
reinvented.
