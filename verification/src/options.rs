//! The command-line surface of the tool, as plain data: the binary under
//! analysis, the system root searched for its dependencies, and the choice
//! between plain and interactive rendering.

use vstd::prelude::*;

verus! {

/// Invocation options.
#[derive(Debug)]
pub struct Options {
    /// The file to examine.
    pub input: String,
    /// The system root to use to search for dependencies.
    pub sysroot: String,
    /// Whether to render interactively rather than as plain text.
    pub interactive: bool,
}

} // verus!
