//! The command line of the `hyprmonitor` program.
use vstd::prelude::*;

verus! {

/// Parsed command line.
#[derive(Debug, Clone, Copy, PartialEq, Eq, Structural)]
pub struct Cli {
    /// Debug logging.
    pub verbose: bool,
    pub command: Command,
}

/// The subcommands.
#[derive(Debug, Clone, Copy, PartialEq, Eq, Structural)]
pub enum Command {
    /// Run as a daemon, reconfiguring on monitor hotplug events.
    Daemon,
    /// Detect monitors, apply the plan, exit; with `dry_run`, print the
    /// `hyprctl` commands instead.
    Apply { dry_run: bool },
    /// Print the detected monitors and the plan without applying it.
    List,
}

} // verus!
