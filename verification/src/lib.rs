//! Tamper-evident receipts for forensic records.
//!
//! A record is serialised to canonical bytes, hashed to a 32-byte leaf digest and
//! appended to a Merkle Mountain Range: an append-only forest of perfect binary
//! hash trees whose peaks are folded into one root digest. For any appended leaf
//! the ledger hands out an inclusion proof that can be checked offline against a
//! published root.

pub mod api;
pub mod config;
pub mod digest;
pub mod engine;
pub mod error;
pub mod evidence;
pub mod fingerprint;
pub mod hex_text;
pub mod inclusion;
pub mod laws;
pub mod mmr_store;
pub mod node_store;
pub mod shape;
pub mod signer;
pub mod walk;
