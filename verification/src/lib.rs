//! A single-process prototype blockchain: an account ledger with pending
//! reservations, a positional transaction commitment, hash-linked blocks and a
//! proof-of-work nonce search, each with a machine-checked contract.

pub mod sha128;
pub mod error;
pub mod accounts;
pub mod blockchain;
pub mod miner;
pub mod node;
