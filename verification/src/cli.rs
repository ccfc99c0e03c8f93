//! Command-line options.
use vstd::prelude::*;

verus! {

/// Command-line options of the viewer.
pub struct Cli {
    /// Path to the build directory containing `-ftime-trace` JSON files.
    pub build_dir: String,
    /// Enable verbose output for debugging the parser.
    pub verbose: bool,
}

} // verus!
