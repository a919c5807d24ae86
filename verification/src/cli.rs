//! The commands of the tool, as plain values.

use vstd::prelude::*;

verus! {

/// A parsed command line.
#[derive(Debug)]
pub struct Cli {
    pub command: Command,
}

/// What the tool is asked to do, and on which project directory.
#[derive(Debug)]
pub enum Command {
    /// Take the first snapshot of comment/code for a project.
    Init {
        path: String,
        /// Re-do the snapshot from scratch even if a snapshot already exists.
        force: bool,
    },
    /// Scan for code that changed without its comment being updated.
    Check {
        path: String,
        /// Print candidates as JSON instead of prompting interactively.
        json: bool,
    },
    /// Apply verdicts for candidates, read as JSON from stdin.
    Confirm { path: String },
    /// List comments confirmed stale but not yet fixed.
    Status { path: String, json: bool },
    /// Manually clear a known-issue entry by id
    Resolve { path: String, id: String },
}

} // verus!
