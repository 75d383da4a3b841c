//! dupe-killer: a duplicate file finder built on a four-layer progressive check
//! (size, hash of the first 8 KiB, full hash, byte-by-byte comparison).
//!
//! This crate holds the decisions of that pipeline; reading files and walking
//! directories is left to the caller, which hands the results back as plain values.
pub mod cli;
pub mod duplicates;
pub mod grouping;
pub mod hasher;
pub mod report;
pub mod scanner;
pub mod search;
pub mod text;
pub mod types;
