# merkle_caps

Merkle trees over leaves of field elements, topped by a cap: the layer at a chosen height below
the root, in place of the root alone. Leaves can be changed one by one or in ranges, and a proof
of a leaf is checked against the cap. The library is written in Verus: each function states what
it returns or changes, and Verus proves it.

- `src/config.rs`: the traits that users implement, for field elements, digests and hashers.
- `src/layout.rs`: how digests are laid out, and what it means that they are hashes of leaves.
  `src/levels.rs` puts digests that come level by level into that order.
- `src/merkle_tree.rs`: caps and trees; `src/fill.rs` hashes them.
- `src/update.rs`, `src/range_update.rs`: changing leaves.
- `src/merkle_proofs.rs`: proofs of leaves.
- `src/device.rs`: what is decided and computed around hashing on GPUs.
- `src/laws.rs`: what holds across functions, such as that a changed tree is the tree built over
  the changed leaves.
- `app/`: serialisation of caps, the calls to GPUs, timing.

Three functions are taken on trust: `ascending` in `src/util.rs`, which calls `num`, `par_map` in
`src/par.rs`, which calls `rayon`, and `native_bytes` in `src/device.rs`, which calls
`u64::to_ne_bytes`. So are the implementations of the traits: each method is to be a function of
its arguments.
