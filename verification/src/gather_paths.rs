//! The gathering stage's settings and its record construction.  The
//! directory walk itself is an external collaborator: it hands this
//! library plain (path, size) pairs.

use crate::common::TraverseMode;
use crate::internals::Record;
use vstd::prelude::*;
use vstd::string::StringExecFns;

verus! {

/// Where the walker starts, where the record list goes, and how the walk
/// behaves.
#[derive(Debug, Clone)]
pub struct GatherPathsConfig {
    pub source_paths: Vec<String>,
    pub target_file: String,
    pub traverse_mode: TraverseMode,
    pub unsorted: bool,
    pub debug: crate::common::Debug,
    pub error_log: Option<String>,
}

/// A freshly gathered record: path and size from the walker, the hash
/// still the `"NULL"` sentinel.
pub fn make_record(path: String, size: u64) -> (r: Record)
    ensures
        r@.path == path@,
        r@.size == size,
        r@.hash == "NULL"@,
{
    Record { path, size, hash: String::from_str("NULL") }
}

} // verus!
