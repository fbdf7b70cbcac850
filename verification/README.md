# Etch

A minimal Scrypt proof-of-work timestamping chain: blocks carry up to 1024
payloads of exactly 256 bytes, are hashed with SHA-256 and mined with Scrypt
(N = 32768, r = 8, p = 1), and the chain with the most cumulative work wins.
Difficulty moves once per adjustment period by a majority vote of the last
1000 blocks.

## Layout

- `src/` — the library, verified with Verus:
  - `types.rs`: payloads, headers, blocks, targets, configuration; block
    hashing, proof-of-work hashing, the Merkle root.
  - `storage.rs`: the block store (hash → height and block, the tip), pruning,
    the tip record, block-file record and index formats, restoring a store
    from them, and their laws.
  - `consensus.rs`: validation, the difficulty vote and target scaling,
    cumulative work, ancestry, fork choice, the supply bound. The walks
    over parent links are specified with a step bound (one more than the
    number of stored blocks), past which a walk can only be going round in
    a circle; the functions that walk ask that the walk end.
  - `chain.rs`: the chain state: genesis, block processing (under a given
    clock reading) with orphan adoption and fork choice by cumulative work,
    block building, the reorganisation plan.
  - `crypto.rs`: Ed25519 keys and block signatures.
  - `miner.rs`: the nonce search.
  - `input.rs`: hex payloads and miner secret keys given by users.
  - `outside.rs`: the calls into `sha2`, `postcard`, `scrypt`,
    `ed25519-dalek`/`rand`, `hex` and the system clock, with the contracts
    believed of them.
- `app/` — the program around it: command line, files on disk, libp2p gossip,
  the async mining loop, and serde copies of the block types.
- `tests/` — tests of the library.
