//! Cache-coherency engine for caching a Cargo home directory between CI runs.
//!
//! The crate splits the Cargo home into independently cached segments,
//! fingerprints each segment's directory tree, carries a small sidecar record
//! from the restore phase to the save phase, and decides per segment whether
//! the cache must be written again.
pub mod cache;
pub mod error;
pub mod fingerprint;
pub mod segment;
pub mod sidecar;
pub mod toolchain;
