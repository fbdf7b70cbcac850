//! Etch: a minimal Scrypt proof-of-work timestamping chain.
//!
//! The library holds the chain's data model, its hashing and Merkle rules,
//! the consensus rules (validation, difficulty votes, cumulative work, fork
//! choice), the in-memory block store with its byte formats, and the chain
//! state machine that processes blocks.
//!
//! | Module | Purpose |
//! |--------|---------|
//! | `types` | Blocks, headers, payloads, difficulty targets, configuration, hashing |
//! | `crypto` | Ed25519 keys, block signing and verification |
//! | `storage` | The block store and its byte formats |
//! | `consensus` | Validation, difficulty, work, fork choice |
//! | `chain` | The chain state and block processing |
//! | `miner` | The proof-of-work nonce search |
//! | `input` | Hex payloads and secret keys handed in by users |
//! | `outside` | The calls into outside crates |

pub use types::{
    Block, BlockHeader, ChainConfig, Difficulty, Address, Payload, MAX_PAYLOADS_PER_BLOCK,
    TARGET_BLOCK_TIME_SECS, BLOCKS_PER_YEAR, DIFFICULTY_ADJUSTMENT_PERIOD, DIFFICULTY_VOTE_WINDOW,
    BLOCK_REWARD, REWARD_DECIMALS, MAX_SUPPLY, SCRYPT_N, SCRYPT_R, SCRYPT_P, SCRYPT_LEN,
};
pub use chain::Blockchain;
pub use storage::BlockStorage;
pub use consensus::Consensus;

pub mod outside;
pub mod types;
pub mod storage;
pub mod consensus;
pub mod chain;
pub mod crypto;
pub mod miner;
pub mod input;
