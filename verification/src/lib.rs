//! Verified core of a package-registry snapshot pipeline.
//!
//! The library computes a reproducible point-in-time snapshot of a package
//! registry's artifact set: discovering package names, parsing per-package
//! artifact listings, normalizing artifact URLs, applying a per-package
//! version-retention policy, coordinating bounded-concurrency scanning, and
//! assembling the final snapshot.  A pure resolver maps a snapshot entry
//! back to its absolute download URL.  Network I/O and client wiring live
//! outside this crate; every function here is pure and verified.

#![verifier::loop_isolation(false)]

pub mod coordinator;
pub mod discovery;
pub mod filename;
pub mod listing;
pub mod retention;
pub mod snapshot;
pub mod urls;
pub mod version;
