//! Incremental content checksums for a directory tree.

pub mod hex;
pub mod record;
pub mod split;
pub mod snapshot;
pub mod digest;
pub mod reconcile;
pub mod check;
pub mod display;
pub mod laws;
