//! The command-line surface as plain data: the chosen subcommand with its
//! argument, and the optional path of the store file. Parsing the actual
//! command line is the caller's business; these types are what the
//! library is asked to do.

use vstd::prelude::*;

verus! {

/// One invocation's request.
pub enum Arguments {
    /// Append a new alert with the given interval in hours.
    SetInterval { time: u8 },
    /// Disable the alert at the given index.
    Disable { id: usize },
    /// Show the status of all the alerts.
    Status,
}

/// A parsed command line: the request, and the store file's path if one
/// was given (otherwise the caller falls back to its default location).
pub struct CommandLineArgs {
    pub arguments: Arguments,
    pub config_file: Option<String>,
}

} // verus!
