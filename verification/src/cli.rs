//! The options the command line offers.
use vstd::prelude::*;

verus! {

/// The options of one run.
#[derive(Debug)]
pub struct Cli {
    /// Path of the lockfile to analyse.
    pub lockfile: String,
    /// Whether auto-fix mode was asked for.
    pub fix: bool,
}

} // verus!
