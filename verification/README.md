# bitset

A set of small `usize` values kept as bits of machine words, with its behaviour
proved by Verus.

- `src/word.rs`: `WordBitSet`, one word used as a set of bit positions, with ranks
  (`index`) and an iterator (`Biterator`) over its elements.
- `src/dense.rs`: `BitSet`, four inline words followed by a vector that grows to
  the largest cluster used.
- `src/incomplete.rs`: `IncompleteBitSet`, four inline words followed by words for
  the used clusters only, found through a directory word; it holds values below
  `SET_SIZE * (SET_SIZE + 4)`.
- `src/bits.rs`: the bit-level definitions and lemmas the proofs rest on.
- `src/bench.rs`: the benchmark workloads, whose checks are proved.
- `app/main.rs`: the criterion benchmarks.
