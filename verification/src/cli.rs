//! The command line of the program.
//!
//! ```text
//! neomake [--config <FILE>] [--concurrency N] run [TASK]...
//! neomake [--config <FILE>]                       list
//! neomake                                         cache clean
//! neomake                                         cache status
//! ```

use vstd::prelude::*;

use crate::executor::RunOptions;

verus! {

/// Top-level arguments.
#[derive(Debug)]
pub struct Cli {
    /// Path to the configuration file. If omitted, `neomake.toml` then
    /// `neomake.tomlx` are tried in the current directory.
    pub config: Option<String>,
    /// Maximum number of tasks that may run shell commands concurrently.
    pub concurrency: Option<usize>,
    /// Disable all cache lookups for this invocation.
    pub no_cache: bool,
    /// Quiet mode: suppress per-task stdout/stderr forwarding.
    pub quiet: bool,
    /// Subcommand.
    pub command: Command,
}

/// Top-level subcommands.
#[derive(Debug)]
pub enum Command {
    /// Run one or more tasks (and their dependencies). If no task name is
    /// given, every task is run.
    Run {
        /// Names of tasks to build.
        tasks: Vec<String>,
    },
    /// List every task in topological order with its dependencies.
    List,
    /// Cache management subcommands.
    Cache(CacheCommand),
}

/// `cache` subcommands.
#[derive(Debug)]
pub enum CacheCommand {
    /// Remove every entry from the cache directory.
    Clean,
    /// Print a one-line summary of the cache contents.
    Status,
}

impl Cli {
    /// The options of a run below a project root, on a machine with so many
    /// processors.
    pub fn run_options(&self, project_root: String, cpus: usize) -> (o: RunOptions)
        ensures
            o.project_root == project_root,
            o.concurrency == match self.concurrency {
                Some(n) => n,
                None => cpus,
            },
            o.use_cache == !self.no_cache,
    {
        let concurrency: usize = match self.concurrency {
            Some(n) => n,
            None => cpus,
        };
        RunOptions { concurrency, project_root, use_cache: !self.no_cache }
    }
}

} // verus!
