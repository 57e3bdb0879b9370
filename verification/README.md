# blake3 (verified)

The BLAKE3 hash function — `hash`, `keyed_hash`, `derive_key`, the incremental
`Hasher` with extendable output (`OutputReader`), the hazmat and guts APIs for
hashing subtrees separately, the portable compression kernels behind every
`Platform`, and the host side of GPU hashing — written in Verus and proved
against a mathematical model of the BLAKE3 tree.

Layout:

- `src/model.rs`, `src/tree.rs`, `src/stack.rs`: the model (the chaining value
  and root output of any subtree of the input) and the facts about it that the
  proofs use: how layers of parent nodes combine, and what the chaining-value
  stack of the incremental hasher holds.
- `src/portable.rs`, `src/platform.rs`: the compression function and the
  many-input kernels, with their byte/word conversions.
- `src/lib.rs`, `src/hasher.rs`: one-shot hashing, the incremental hasher and
  the output reader. Each function's contract states its result over the model.
- `src/laws.rs`: properties that relate several functions (incremental hashing
  equals one-shot hashing, the XOF stream can be read in pieces or after a
  seek, subtrees merge into the whole, GPU shader levels).
- `src/hazmat.rs`, `src/guts.rs`, `src/blake3_guts.rs`: the lower-level APIs.
- `src/gpu.rs`: the control uniform for a shader, the CPU simulation of the
  shaders, and `GpuHasher`, which takes in shader output.
- `src/reference_impl.rs`: the simplified reference implementation, with its
  own parameters (2048-byte chunks, byte offsets, its own message schedule),
  proved against its own model of the tree.
- `src/outside.rs`, `src/join.rs`: the trusted declarations of the outside
  crates used (`arrayvec`, `constant_time_eq`, `rayon`) and of std I/O types.
- `app/`: the `b3sum` command line tool around the library.
