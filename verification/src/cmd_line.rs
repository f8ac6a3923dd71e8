//! The command-line arguments a run starts from. The surrounding program
//! gathers them from the process environment and hands them over as plain
//! values.

use vstd::prelude::*;

verus! {

/// The arguments of a run: the configuration file to read, and whether to
/// skip the interactive confirmation prompt.
#[derive(Debug, Clone)]
pub struct Args {
    pub config_file: String,
    pub no_confirm: bool,
}

impl Args {
    /// Arguments assembled from plain values.
    pub fn new(config_file: String, no_confirm: bool) -> (r: Args)
        ensures
            r.config_file == config_file,
            r.no_confirm == no_confirm,
    {
        Args { config_file, no_confirm }
    }
}

} // verus!
