//! Command-line surface of the scanner: one required entry-file path.
//! Argument parsing itself happens outside the library; a run receives the
//! entry path as a plain value.

use vstd::prelude::*;

verus! {

/// The arguments of one run.
#[derive(Debug)]
pub struct Args {
    /// Path of the entry file that traversal starts from.
    pub entry: String,
}

} // verus!
