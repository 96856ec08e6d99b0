# lib

The verified core of a voxel-world engine, written in Verus.

- `mixing`, `seed`, `random`: SplitMix64 mixers (with proofs that they are
  bijective), shareable seeds and their text codes, and a xoshiro256**
  generator whose draws are specified exactly, including the bounded draws.
- `bit_permuter`: a seeded full-cycle permutation of `0..2^bits`, with its
  inverse, its byte encoding, and laws over runs of successive calls.
- `lattice`: the keys that the noise fields hash lattice positions by.
- `linear`, `hypercomplex`: small vectors, complex, dual and quaternion
  numbers over any component type, specified through the component's own
  operators.
- `structures`: sets, ordered sets, maps, multimaps, groupings, tallies,
  sparse sequences and a property index, each with a view that its
  contracts speak of, plus the shared traits they implement.

Everything under `src/` is verified with Verus; the tests under `tests/`
run the library on concrete values.

## What is not here

- Everything that computes in floating point: the noise fields themselves
  (cellular, value and gradient noise sample at `f64` positions and compare
  `f64` distances), the generator's float draws and the distributions built
  on them (normal, exponential, binomial, categorical weights), vector
  lengths and normalisation, and the conversions between float and integer
  components. Their results are defined by floating-point rounding, which
  the specifications here do not model, so they are left out rather than
  left unproved.
- The seed derivations that hash text, bytes or paths into a seed
  (`from_text`, `from_bytes`, `parse`, `child`, `path`, `index`, `at`,
  `at_depth`, `combine`, `mix_in`). They are defined in terms of mixing
  functions (`absorb128`, `expand_u64`, `hash_bytes`) whose definitions are
  not part of the engine's sources, so what they compute is unknown.
- The compound assignment operators of the vectors and numbers (`+=` and
  the like): the plain operators are here, with their specifications.
- Reordering by a comparison that keeps state between calls: sorting takes
  a comparison that only reads (`Fn`), and notifying subscribers takes a
  callback that only reads.
