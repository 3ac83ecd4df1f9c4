//! The command line: the subcommands and their arguments.

use vstd::prelude::*;

verus! {

/// The parsed command line.
#[derive(Debug, PartialEq, Eq)]
pub struct Cli {
    pub command: Command,
}

/// A subcommand with its arguments.
#[derive(Debug, PartialEq, Eq)]
#[allow(inconsistent_fields)]
pub enum Command {
    /// List the sidecars configured for this repo
    List {
        /// List every configured sidecar across all repos
        global: bool,
    },
    /// Clone any configured sidecars that are not present, and reconcile
    /// each one's layout with the config
    Sync {
        /// Sync only this sidecar
        name: Option<String>,
        /// Mark the sidecar standalone and move its git dir inside it
        standalone: bool,
        /// Clear the standalone marking and move its git dir out again
        unify: bool,
    },
    /// Clone a repo and register it as a sidecar of this repo
    Clone {
        /// Remote URL of the repository to clone
        repo: String,
        /// Directory to clone into, relative to the current directory
        /// (defaults to the repository name)
        directory: Option<String>,
        /// Nickname for the sidecar (defaults to the repository name)
        name: Option<String>,
        /// Keep the git directory inside the mapping directory
        standalone: bool,
    },
    /// Remove a sidecar from the config and exclude file
    Remove {
        /// Nickname of the sidecar to remove
        name: String,
        /// Also delete the sidecar's directory
        delete: bool,
    },
    /// Any other first argument is a sidecar nickname: the remaining
    /// arguments are run as a git command inside that sidecar's directory
    Passthrough(Vec<String>),
}

} // verus!
