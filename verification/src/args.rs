use vstd::prelude::*;

verus! {

/// Command-line options: an optional configuration file and a verbosity
/// level counted from repeated flags.
#[derive(Debug, Clone)]
pub struct Args {
    pub config: Option<String>,
    pub verbose: u8,
}

} // verus!
