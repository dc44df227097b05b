//! A record-oriented duplicate-file detection and grouping pipeline.
//!
//! The library works on `Record` values (a path, a byte size, and a
//! hex-encoded content digest).  Its stages are: a content hasher with
//! adaptive truncation, a duplicate grouper with a collision check, a
//! predicate-based filter engine with two-pass shared-key selection, and a
//! set-difference joiner that keeps one representative per duplicate group.
//! The surrounding program does all file and console I/O and hands the
//! stages plain values.

pub mod common;
pub mod copy_files;
pub mod detect_dups;
pub mod filter_paths;
pub mod gather_paths;
pub mod hash_paths;
pub mod internals;
pub mod seq_facts;
pub mod single_hash;
pub mod text;
pub mod unique_paths;
