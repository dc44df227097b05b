//! The hashing stage's settings.  The hashing core itself — byte budget,
//! digest, length verification, record enrichment — lives in `internals`.

use crate::common::HashAlgorithm;
use vstd::prelude::*;

verus! {

/// Which records to hash, where the enriched list goes, how many bytes to
/// read per file, and with which digest.
#[derive(Debug, Clone)]
pub struct HashPathsConfig {
    pub source_file: String,
    pub target_file: String,
    pub bytes: u64,
    pub algorithm: HashAlgorithm,
    pub show_progression: bool,
    pub debug: crate::common::Debug,
    pub error_log: Option<String>,
}

} // verus!
