//! Arithmetization of a Merkle-tree membership claim: a bit encoder for
//! 32-byte digests, an execution-trace builder that folds a leaf digest
//! through an inclusion path, and the constraint set that a proving backend
//! checks on that trace.
pub mod bits;
pub mod hashing;
pub mod field;
pub mod trace;
pub mod air;
