//! Deduplication of fixed-length DNA-like sequences by an exact fingerprint.
//!
//! Each sequence is reduced to a 2×2 matrix of natural numbers by a scan of
//! its symbols against the alphabet; two lines are duplicates when the
//! matrices of their leading windows are equal. The first line of each
//! fingerprint, over all the files of a run, is kept.
pub mod args;
pub mod bignat;
pub mod dedup;
pub mod fingerprint;
pub mod laws;
pub mod registry;
