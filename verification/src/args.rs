//! The broker process's configuration. Command-line parsing lives
//! outside; this is the parsed shape the core reads.

use vstd::prelude::*;

verus! {

/// Configuration of the broker process.
#[derive(Clone, Copy, Debug, PartialEq, Eq, Structural)]
pub struct XTablesArgs {
    /// Whether logging is enabled.
    pub log: bool,
}

impl Default for XTablesArgs {
    /// Logging is off unless asked for.
    fn default() -> (r: Self)
        ensures
            r == (XTablesArgs { log: false }),
    {
        XTablesArgs { log: false }
    }
}

} // verus!
