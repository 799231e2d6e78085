//! A minimal on-ledger record store.
//!
//! One operation is supported: upsert of a structured agent record into a
//! caller-supplied storage account, gated by an ownership check on the target
//! account and a signer check on the funding account. The instruction codec
//! and the persisted layout use the same deterministic binary format: a
//! one-byte variant tag (instructions only) followed by six length-prefixed
//! UTF-8 text fields in declared order.
//!
//! A successful upsert overwrites the front of the target account's buffer
//! with the new record's encoding and deliberately leaves the bytes beyond
//! it untouched: stale trailing bytes from an earlier, longer record remain,
//! and readers must rely on the length prefixes, not on zero padding.

pub mod account;
pub mod agent;
pub mod codec;
pub mod error;
pub mod handler;

