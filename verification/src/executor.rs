//! What an executor run works with and reports.

use std::time::Duration;

use vstd::prelude::*;

use crate::order::same_text;
use crate::time::nanoseconds;

verus! {

/// Status of a single task after the run completes.
#[derive(Debug, Clone, Copy, PartialEq, Eq, Structural)]
pub enum TaskStatus {
    /// Task produced a fresh, successful result.
    Success,
    /// Task was skipped because the cache already held a valid result.
    Cached,
    /// Task's shell command returned a non-zero exit status or failed to spawn.
    Failed,
    /// Task did not run because an upstream dependency failed.
    Skipped,
}

impl TaskStatus {
    /// The status blocks dependents from running.
    pub open spec fn blocks(self) -> bool {
        self == TaskStatus::Failed || self == TaskStatus::Skipped
    }

    /// Returns `true` if the status blocks dependents from running.
    pub fn is_blocking_failure(&self) -> (r: bool)
        ensures
            r == self.blocks(),
    {
        match self {
            TaskStatus::Failed => true,
            TaskStatus::Skipped => true,
            TaskStatus::Success => false,
            TaskStatus::Cached => false,
        }
    }
}

/// The outcome of a single task after the executor finishes it.
#[derive(Debug)]
pub struct TaskOutcome {
    /// Task name.
    pub name: String,
    /// Terminal status.
    pub status: TaskStatus,
    /// Cache key derived for the task.
    pub cache_key: Option<String>,
    /// Shell exit code, when the task actually ran.
    pub exit_code: Option<i32>,
    /// Wall-clock time between "queued" and "resolved": the wait for the
    /// dependencies is not counted. For cache hits this is dominated by input
    /// hashing; for skipped tasks it is zero.
    pub duration: Duration,
    /// Human-readable error message, if any.
    pub error: Option<String>,
}

/// What a [`TaskOutcome`] holds.
#[verifier::ext_equal]
pub struct OutcomeView {
    pub name: Seq<char>,
    pub status: TaskStatus,
    pub cache_key: Option<Seq<char>>,
    pub exit_code: Option<i32>,
    /// In nanoseconds.
    pub duration: nat,
    pub error: Option<Seq<char>>,
}

/// What an optional string holds.
pub open spec fn maybe_text(s: Option<String>) -> Option<Seq<char>> {
    match s {
        Some(x) => Some(x@),
        None => None,
    }
}

impl View for TaskOutcome {
    type V = OutcomeView;

    open spec fn view(&self) -> OutcomeView {
        OutcomeView {
            name: self.name@,
            status: self.status,
            cache_key: maybe_text(self.cache_key),
            exit_code: self.exit_code,
            duration: nanoseconds(self.duration),
            error: maybe_text(self.error),
        }
    }
}

fn copy_maybe(s: &Option<String>) -> (r: Option<String>)
    ensures
        r == *s,
{
    match s {
        Some(x) => Some(x.clone()),
        None => None,
    }
}

impl Clone for TaskOutcome {
    fn clone(&self) -> (o: Self)
        ensures
            o@ == self@,
    {
        TaskOutcome {
            name: self.name.clone(),
            status: self.status,
            cache_key: copy_maybe(&self.cache_key),
            exit_code: self.exit_code,
            duration: self.duration,
            error: copy_maybe(&self.error),
        }
    }
}

/// What a sequence of outcomes holds.
pub open spec fn outcomes_view(outcomes: Seq<TaskOutcome>) -> Seq<OutcomeView> {
    outcomes.map_values(|o: TaskOutcome| o@)
}

/// Aggregate report returned at the end of an executor run.
#[derive(Debug)]
pub struct RunReport {
    /// Per-task outcomes in dependency order.
    pub outcomes: Vec<TaskOutcome>,
}

impl View for RunReport {
    type V = Seq<OutcomeView>;

    open spec fn view(&self) -> Seq<OutcomeView> {
        outcomes_view(self.outcomes@)
    }
}

impl Clone for RunReport {
    fn clone(&self) -> (r: Self)
        ensures
            r@ == self@,
    {
        let mut outcomes: Vec<TaskOutcome> = Vec::with_capacity(self.outcomes.len());
        let mut i: usize = 0;
        while i < self.outcomes.len()
            invariant
                i <= self.outcomes@.len(),
                outcomes@.len() == i,
                forall|j: int| 0 <= j < i ==> (#[trigger] outcomes@[j])@ == self.outcomes@[j]@,
            decreases self.outcomes@.len() - i,
        {
            outcomes.push(self.outcomes[i].clone());
            i = i + 1;
        }
        proof {
            assert(outcomes_view(outcomes@) =~= self@);
        }
        RunReport { outcomes }
    }
}

impl RunReport {
    /// `true` if any task finished with a blocking failure.
    pub fn had_failure(&self) -> (r: bool)
        ensures
            r == exists|i: int| 0 <= i < self@.len() && (#[trigger] self@[i]).status.blocks(),
    {
        let mut i: usize = 0;
        while i < self.outcomes.len()
            invariant
                i <= self.outcomes@.len(),
                forall|j: int| 0 <= j < i ==> !(#[trigger] self@[j]).status.blocks(),
            decreases self.outcomes@.len() - i,
        {
            proof {
                assert(self@[i as int] == self.outcomes@[i as int]@);
            }
            if self.outcomes[i].status.is_blocking_failure() {
                return true;
            }
            i = i + 1;
        }
        false
    }

    /// Look up the outcome for a specific task: the first under that name.
    pub fn get(&self, name: &str) -> (r: Option<&TaskOutcome>)
        ensures
            match r {
                Some(o) => exists|i: int|
                    {
                        &&& 0 <= i < self@.len()
                        &&& #[trigger] self@[i] == o@
                        &&& o@.name == name@
                        &&& forall|j: int| 0 <= j < i ==> (#[trigger] self@[j]).name != name@
                    },
                None => forall|j: int| 0 <= j < self@.len() ==> (#[trigger] self@[j]).name != name@,
            },
    {
        let mut i: usize = 0;
        while i < self.outcomes.len()
            invariant
                i <= self.outcomes@.len(),
                forall|j: int| 0 <= j < i ==> (#[trigger] self@[j]).name != name@,
            decreases self.outcomes@.len() - i,
        {
            proof {
                assert(self@[i as int] == self.outcomes@[i as int]@);
            }
            if same_text(self.outcomes[i].name.as_str(), name) {
                return Some(&self.outcomes[i]);
            }
            i = i + 1;
        }
        None
    }
}

/// Events emitted by the executor while a run is in progress.
#[derive(Debug)]
pub enum ExecutionEvent {
    /// Task started evaluating (dependencies done, acquiring cache/semaphore).
    Started {
        /// Task name.
        task: String,
    },
    /// Task resulted in a cache hit and will not run its command.
    Cached {
        /// Task name.
        task: String,
        /// Cache key (hex).
        key: String,
    },
    /// Task finished successfully.
    Finished {
        /// Task name.
        task: String,
        /// Elapsed wall-clock time.
        duration: Duration,
    },
    /// Task failed to run (non-zero exit or spawn failure).
    Failed {
        /// Task name.
        task: String,
        /// Exit code when one was produced.
        exit_code: Option<i32>,
        /// Human-readable error message.
        message: String,
    },
    /// Task was skipped because an upstream dep failed.
    Skipped {
        /// Task name.
        task: String,
        /// Upstream that caused the skip.
        upstream: String,
    },
    /// A single line of the task's stdout.
    Stdout {
        /// Task name.
        task: String,
        /// Captured line (without the trailing newline).
        line: String,
    },
    /// A single line of the task's stderr.
    Stderr {
        /// Task name.
        task: String,
        /// Captured line (without the trailing newline).
        line: String,
    },
}

/// What an [`ExecutionEvent`] holds.
pub enum EventView {
    Started { task: Seq<char> },
    Cached { task: Seq<char>, key: Seq<char> },
    Finished { task: Seq<char>, duration: nat },
    Failed { task: Seq<char>, exit_code: Option<i32>, message: Seq<char> },
    Skipped { task: Seq<char>, upstream: Seq<char> },
    Stdout { task: Seq<char>, line: Seq<char> },
    Stderr { task: Seq<char>, line: Seq<char> },
}

impl View for ExecutionEvent {
    type V = EventView;

    open spec fn view(&self) -> EventView {
        match self {
            ExecutionEvent::Started { task } => EventView::Started { task: task@ },
            ExecutionEvent::Cached { task, key } => EventView::Cached { task: task@, key: key@ },
            ExecutionEvent::Finished { task, duration } => EventView::Finished {
                task: task@,
                duration: nanoseconds(*duration),
            },
            ExecutionEvent::Failed { task, exit_code, message } => EventView::Failed {
                task: task@,
                exit_code: *exit_code,
                message: message@,
            },
            ExecutionEvent::Skipped { task, upstream } => EventView::Skipped { task: task@, upstream: upstream@ },
            ExecutionEvent::Stdout { task, line } => EventView::Stdout { task: task@, line: line@ },
            ExecutionEvent::Stderr { task, line } => EventView::Stderr { task: task@, line: line@ },
        }
    }
}

impl Clone for ExecutionEvent {
    fn clone(&self) -> (e: Self)
        ensures
            e@ == self@,
    {
        match self {
            ExecutionEvent::Started { task } => ExecutionEvent::Started { task: task.clone() },
            ExecutionEvent::Cached { task, key } => ExecutionEvent::Cached { task: task.clone(), key: key.clone() },
            ExecutionEvent::Finished { task, duration } => ExecutionEvent::Finished {
                task: task.clone(),
                duration: *duration,
            },
            ExecutionEvent::Failed { task, exit_code, message } => ExecutionEvent::Failed {
                task: task.clone(),
                exit_code: *exit_code,
                message: message.clone(),
            },
            ExecutionEvent::Skipped { task, upstream } => ExecutionEvent::Skipped {
                task: task.clone(),
                upstream: upstream.clone(),
            },
            ExecutionEvent::Stdout { task, line } => ExecutionEvent::Stdout { task: task.clone(), line: line.clone() },
            ExecutionEvent::Stderr { task, line } => ExecutionEvent::Stderr { task: task.clone(), line: line.clone() },
        }
    }
}

/// Configuration knobs for a run.
#[derive(Debug)]
pub struct RunOptions {
    /// Maximum number of tasks that may run their shell command concurrently.
    pub concurrency: usize,
    /// Project root: commands are invoked with this as their working directory.
    pub project_root: String,
    /// When `false`, every task is treated as a cache miss.
    pub use_cache: bool,
}

impl Clone for RunOptions {
    fn clone(&self) -> (o: Self)
        ensures
            o == *self,
    {
        RunOptions {
            concurrency: self.concurrency,
            project_root: self.project_root.clone(),
            use_cache: self.use_cache,
        }
    }
}

/// The number of commands that may run at a time: what is asked for, but at
/// least one.
pub open spec fn permitted(concurrency: usize) -> usize {
    if concurrency == 0 {
        1
    } else {
        concurrency
    }
}

/// The number of commands that may run at a time.
pub fn permits(concurrency: usize) -> (r: usize)
    ensures
        r == permitted(concurrency),
        concurrency >= 1 ==> r == concurrency,
        concurrency == 0 ==> r == 1,
{
    if concurrency == 0 {
        1
    } else {
        concurrency
    }
}

impl RunOptions {
    /// Constructs sensible defaults from a project root and concurrency.
    pub fn new(project_root: String, concurrency: usize) -> (o: Self)
        ensures
            o.project_root == project_root,
            o.concurrency == permitted(concurrency),
            concurrency >= 1 ==> o.concurrency == concurrency,
            concurrency == 0 ==> o.concurrency == 1,
            o.use_cache,
    {
        RunOptions { project_root, concurrency: permits(concurrency), use_cache: true }
    }
}

} // verus!
