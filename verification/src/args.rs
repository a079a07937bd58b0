//! Command line arguments.
use vstd::prelude::*;

verus! {

/// TUI Editor
pub struct Args {
    /// File or path to open
    pub path: Option<String>,
}

} // verus!
