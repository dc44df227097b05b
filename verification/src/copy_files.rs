//! The copy tool's settings.  The copy itself — walking the record list
//! and duplicating files on disk — is plain I/O and stays outside the
//! library.

use vstd::prelude::*;

verus! {

/// Which record list to copy from, where the copies go, and whether the
/// tree is flattened into one directory.
#[derive(Debug, Clone, Default)]
pub struct CopyFilesConfig {
    pub source_file: String,
    pub target_folder: String,
    pub debug: crate::common::Debug,
    pub flatten_output: bool,
    pub error_log: Option<String>,
}

} // verus!
