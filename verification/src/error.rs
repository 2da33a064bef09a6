//! Error types.
//!
//! All user-facing variants carry enough context (source file path, optional
//! line number, and a descriptive message) to produce actionable diagnostics.

use vstd::prelude::*;
use vstd::std_specs::convert::FromSpecImpl;

use crate::order::texts;
use crate::text::{decimal, decimal_text, join, joined, signed_decimal, signed_decimal_text};

verus! {

/// Top-level error.
#[derive(Debug)]
pub enum CoreError {
    /// Failure while reading or validating a configuration file.
    Config(ConfigError),
    /// Failure while constructing or traversing the task graph.
    Dag(DagError),
    /// Failure while executing a task.
    Exec(ExecError),
    /// Failure while reading from or writing to the cache.
    Cache(CacheError),
}

/// A configuration-file error with file/line context.
#[derive(Debug)]
pub struct ConfigError {
    /// Path to the offending configuration file.
    pub path: String,
    /// 1-indexed line number, when known.
    pub line: Option<usize>,
    /// Human-readable message describing the problem.
    pub message: String,
}

/// Errors produced while building or validating the task graph.
#[derive(Debug)]
pub enum DagError {
    /// Detected a dependency cycle. `path` is the concrete cycle, e.g.
    /// `["a", "b", "c", "a"]`.
    Cycle {
        /// Task names forming the cycle, with the first task repeated at the end.
        path: Vec<String>,
    },
    /// A task refers to a dependency that does not exist.
    UnknownDependency {
        /// The task that declared the bad dependency.
        task: String,
        /// The missing dependency name.
        missing: String,
    },
    /// A name is declared more than once.
    DuplicateTask {
        /// The repeated name.
        task: String,
    },
}

/// The kinds of I/O failure that are told apart.
#[derive(Debug, Clone, Copy, PartialEq, Eq, Structural)]
pub enum IoErrorKind {
    /// Something named does not exist.
    NotFound,
    /// The data at hand are not valid.
    InvalidData,
    /// Any other failure.
    Other,
}

/// An I/O failure.
#[derive(Debug)]
pub struct IoError {
    /// What kind of failure it is.
    pub kind: IoErrorKind,
    /// What went wrong, in words.
    pub message: String,
}

/// Errors produced while executing tasks.
#[derive(Debug)]
pub enum ExecError {
    /// The task's command exited with a non-zero status.
    TaskFailed {
        /// Name of the failing task.
        task: String,
        /// Exit code returned by the command (or -1 if terminated by signal).
        code: i32,
    },
    /// Task was skipped because an upstream dependency failed.
    UpstreamFailed {
        /// Name of the skipped task.
        task: String,
        /// Name of the upstream task whose failure caused the skip.
        upstream: String,
    },
    /// Transient I/O error encountered while launching a task.
    Io {
        /// Name of the task being launched.
        task: String,
        /// Underlying I/O error.
        source: IoError,
    },
}

/// Errors produced by the cache subsystem.
#[derive(Debug)]
pub enum CacheError {
    /// I/O error while accessing the cache directory.
    Io {
        /// Path of the file or directory involved.
        path: String,
        /// Underlying I/O error.
        source: IoError,
    },
    /// A cache entry file was malformed.
    Corrupt {
        /// Path to the malformed entry.
        path: String,
        /// Description of the corruption.
        message: String,
    },
}

/// The line number as it follows a path, if there is one.
pub open spec fn line_suffix_text(line: Option<usize>) -> Seq<char> {
    match line {
        Some(n) => ":"@ + decimal(n as nat),
        None => Seq::empty(),
    }
}

/// The text that follows a path to name a line in it.
pub fn line_suffix(line: Option<usize>) -> (r: String)
    ensures
        r@ == line_suffix_text(line),
{
    match line {
        Some(n) => {
            let mut s = ":".to_owned();
            s.append(decimal_text(n as u64).as_str());
            s
        },
        None => String::new(),
    }
}

/// A cycle as it is shown: its names, joined by arrows.
pub fn format_cycle(path: &[String]) -> (r: String)
    ensures
        r@ == joined(texts(path@), " -> "@),
{
    join(path, " -> ")
}

impl ConfigError {
    /// Constructs an error from its parts.
    pub fn new(path: String, line: Option<usize>, message: String) -> (e: Self)
        ensures
            e.path == path,
            e.line == line,
            e.message == message,
    {
        ConfigError { path, line, message }
    }

    /// What the error says.
    pub open spec fn says(&self) -> Seq<char> {
        self.path@ + line_suffix_text(self.line) + ": "@ + self.message@
    }

    /// The error as one line of text.
    pub fn display(&self) -> (r: String)
        ensures
            r@ == self.says(),
    {
        let mut s = self.path.clone();
        s.append(line_suffix(self.line).as_str());
        s.append(": ");
        s.append(self.message.as_str());
        s
    }
}

impl DagError {
    /// What the error says.
    pub open spec fn says(&self) -> Seq<char> {
        match self {
            DagError::Cycle { path } => "dependency cycle detected: "@ + joined(texts(path@), " -> "@),
            DagError::UnknownDependency { task, missing } => "task `"@ + task@ + "` depends on unknown task `"@
                + missing@ + "`"@,
            DagError::DuplicateTask { task } => "duplicate task definition: `"@ + task@ + "`"@,
        }
    }

    /// The error as one line of text.
    pub fn display(&self) -> (r: String)
        ensures
            r@ == self.says(),
    {
        match self {
            DagError::Cycle { path } => {
                let mut s = "dependency cycle detected: ".to_owned();
                s.append(format_cycle(path.as_slice()).as_str());
                s
            },
            DagError::UnknownDependency { task, missing } => {
                let mut s = "task `".to_owned();
                s.append(task.as_str());
                s.append("` depends on unknown task `");
                s.append(missing.as_str());
                s.append("`");
                s
            },
            DagError::DuplicateTask { task } => {
                let mut s = "duplicate task definition: `".to_owned();
                s.append(task.as_str());
                s.append("`");
                s
            },
        }
    }
}

impl ExecError {
    /// What the error says.
    pub open spec fn says(&self) -> Seq<char> {
        match self {
            ExecError::TaskFailed { task, code } => "task `"@ + task@ + "` failed with exit code "@ + signed_decimal(
                *code as int,
            ),
            ExecError::UpstreamFailed { task, upstream } => "task `"@ + task@
                + "` skipped because upstream dependency `"@ + upstream@ + "` failed"@,
            ExecError::Io { task, source } => "task `"@ + task@ + "`: i/o error: "@ + source.message@,
        }
    }

    /// The error as one line of text.
    pub fn display(&self) -> (r: String)
        ensures
            r@ == self.says(),
    {
        match self {
            ExecError::TaskFailed { task, code } => {
                let mut s = "task `".to_owned();
                s.append(task.as_str());
                s.append("` failed with exit code ");
                s.append(signed_decimal_text(*code).as_str());
                s
            },
            ExecError::UpstreamFailed { task, upstream } => {
                let mut s = "task `".to_owned();
                s.append(task.as_str());
                s.append("` skipped because upstream dependency `");
                s.append(upstream.as_str());
                s.append("` failed");
                s
            },
            ExecError::Io { task, source } => {
                let mut s = "task `".to_owned();
                s.append(task.as_str());
                s.append("`: i/o error: ");
                s.append(source.message.as_str());
                s
            },
        }
    }
}

impl CacheError {
    /// What the error says.
    pub open spec fn says(&self) -> Seq<char> {
        match self {
            CacheError::Io { path, source } => "cache i/o error at "@ + path@ + ": "@ + source.message@,
            CacheError::Corrupt { path, message } => "corrupt cache entry at "@ + path@ + ": "@ + message@,
        }
    }

    /// The error as one line of text.
    pub fn display(&self) -> (r: String)
        ensures
            r@ == self.says(),
    {
        match self {
            CacheError::Io { path, source } => {
                let mut s = "cache i/o error at ".to_owned();
                s.append(path.as_str());
                s.append(": ");
                s.append(source.message.as_str());
                s
            },
            CacheError::Corrupt { path, message } => {
                let mut s = "corrupt cache entry at ".to_owned();
                s.append(path.as_str());
                s.append(": ");
                s.append(message.as_str());
                s
            },
        }
    }
}

impl CoreError {
    /// What the error says.
    pub open spec fn says(&self) -> Seq<char> {
        match self {
            CoreError::Config(e) => e.says(),
            CoreError::Dag(e) => e.says(),
            CoreError::Exec(e) => e.says(),
            CoreError::Cache(e) => e.says(),
        }
    }

    /// The error as one line of text.
    pub fn display(&self) -> (r: String)
        ensures
            r@ == self.says(),
    {
        match self {
            CoreError::Config(e) => e.display(),
            CoreError::Dag(e) => e.display(),
            CoreError::Exec(e) => e.display(),
            CoreError::Cache(e) => e.display(),
        }
    }
}

impl From<ConfigError> for CoreError {
    fn from(e: ConfigError) -> (r: Self) {
        CoreError::Config(e)
    }
}

impl FromSpecImpl<ConfigError> for CoreError {
    open spec fn obeys_from_spec() -> bool {
        true
    }

    open spec fn from_spec(e: ConfigError) -> Self {
        CoreError::Config(e)
    }
}

impl From<DagError> for CoreError {
    fn from(e: DagError) -> (r: Self) {
        CoreError::Dag(e)
    }
}

impl FromSpecImpl<DagError> for CoreError {
    open spec fn obeys_from_spec() -> bool {
        true
    }

    open spec fn from_spec(e: DagError) -> Self {
        CoreError::Dag(e)
    }
}

impl From<ExecError> for CoreError {
    fn from(e: ExecError) -> (r: Self) {
        CoreError::Exec(e)
    }
}

impl FromSpecImpl<ExecError> for CoreError {
    open spec fn obeys_from_spec() -> bool {
        true
    }

    open spec fn from_spec(e: ExecError) -> Self {
        CoreError::Exec(e)
    }
}

impl From<CacheError> for CoreError {
    fn from(e: CacheError) -> (r: Self) {
        CoreError::Cache(e)
    }
}

impl FromSpecImpl<CacheError> for CoreError {
    open spec fn obeys_from_spec() -> bool {
        true
    }

    open spec fn from_spec(e: CacheError) -> Self {
        CoreError::Cache(e)
    }
}

} // verus!
