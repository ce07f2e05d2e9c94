//! Ownership-bound, content-addressed credential records.
//!
//! Records are identified by a Blake2b-256 digest of their payload, bound
//! permanently to the account that created them, and kept in two storage
//! structures that never diverge: a primary map from record id to
//! `(owner, payload)` and a per-owner index of record ids.

pub mod bytes;
pub mod errors;
pub mod hashing;
pub mod index;
pub mod limits;
pub mod service;
pub mod store;
