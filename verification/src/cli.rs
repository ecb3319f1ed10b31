//! The command line: which subcommand to run, and on which manifest.

use vstd::prelude::*;

verus! {

/// The parsed command line.
pub struct Cli {
    pub command: Commands,
}

/// The subcommands.
pub enum Commands {
    /// Build the project (compile and link).
    Build { manifest: String, target: Option<String> },
    /// Build the project, then run a target.
    Run { manifest: String, target: Option<String> },
    /// Write `compile_commands.json` for language servers.
    Compdb { manifest: String },
    /// Write a starter `Crub.toml`.
    Toml { name: String },
}

} // verus!
