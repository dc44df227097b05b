//! Configuration toggles shared by the pipeline stages.

use crate::text::str_eq;
use vstd::prelude::*;
use vstd::string::StringExecFns;

verus! {

/// Whether the directory walker descends into child directories.
#[derive(Copy, Clone, Debug)]
pub enum TraverseMode {
    Recursive,
    NonRecursive,
}

/// Whether the stages print what they do as they go.
#[derive(Copy, Clone, Debug)]
pub enum Debug {
    On,
    Off,
}

impl Default for Debug {
    fn default() -> (r: Self)
        ensures
            r is Off,
    {
        Self::Off
    }
}

/// Whether file dates are written beside each path.
#[derive(Copy, Clone, Debug)]
pub enum DateMode {
    Yes,
    No,
}

/// Whether file sizes are written beside each path.
#[derive(Copy, Clone, Debug)]
pub enum Sizes {
    Yes,
    No,
}

/// Whether a content digest is computed for each path.
#[derive(Copy, Clone, Debug)]
pub enum Hashing {
    Yes,
    No,
}

/// The digest function the content hasher runs.
#[derive(Copy, Clone, Debug)]
pub enum HashAlgorithm {
    Md5,
    Sha1,
    Sha256,
    Sha512,
}

impl core::str::FromStr for HashAlgorithm {
    type Err = String;

    fn from_str(s: &str) -> Result<Self, String> {
        if str_eq(s, "md5") {
            Ok(Self::Md5)
        } else if str_eq(s, "sha1") {
            Ok(Self::Sha1)
        } else if str_eq(s, "sha256") {
            Ok(Self::Sha256)
        } else if str_eq(s, "sha512") {
            Ok(Self::Sha512)
        } else {
            let mut msg = String::new();
            msg.append("No algorithm named '");
            msg.append(s);
            msg.append("', try these instead: md5, sha1, sha256, sha512.");
            Err(msg)
        }
    }
}

} // verus!
