//! The command line as plain values; parsing the real arguments is the
//! caller's business.

use vstd::prelude::*;

verus! {

/// What the command line can say.
pub struct Cli {
    /// Enable more verbose logging.
    pub verbose: bool,
    /// Path to the configuration file, when one was named.
    pub config: Option<String>,
}

impl Default for Cli {
    /// Quiet, with the configuration file looked up at its usual place.
    fn default() -> (r: Cli)
        ensures
            !r.verbose,
            r.config is None,
    {
        Cli { verbose: false, config: None }
    }
}

} // verus!
