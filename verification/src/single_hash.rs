//! The one-file hashing tool's settings.  It shares the hashing core in
//! `internals`.

use crate::common::HashAlgorithm;
use vstd::prelude::*;

verus! {

/// The file to hash, the byte budget, and the digest to use.
#[derive(Debug, Clone)]
pub struct SingleHashConfig {
    pub source_file: String,
    pub bytes: u64,
    pub algorithm: HashAlgorithm,
    pub debug: crate::common::Debug,
    pub error_log: Option<String>,
}

} // verus!
