//! Running one task: the decisions between the outside steps.
//!
//! A task waits for its dependencies, has its cache key derived, is looked up
//! in the cache, waits for a slot, runs its command and has its result stored.
//! Each of these happens outside; here it is decided, from what came of one
//! step, what the next step is, which event is reported and what the outcome
//! of the task is.

use std::time::Duration;

use vstd::prelude::*;

use crate::executor::{maybe_text, EventView, ExecutionEvent, OutcomeView, TaskOutcome, TaskStatus};
use crate::order::texts;
use crate::text::{quoted, signed_decimal, signed_decimal_text};
use crate::time::{duration_of, elapsed_since, nanoseconds, time_between};

verus! {

/// How far the run of a task has come.
#[derive(Debug)]
enum Phase {
    Waiting(usize),
    DerivingKey,
    LookingUp(String),
    Queued(String),
    Running(String),
    Storing(String),
    Done(TaskOutcome),
}

/// How far the run of a task has come.
pub enum PhaseView {
    /// It waits for the dependency at this position.
    Waiting(int),
    /// Its cache key is being derived.
    DerivingKey,
    /// The cache is being asked for the key.
    LookingUp(Seq<char>),
    /// It waits for a slot to run its command.
    Queued(Seq<char>),
    /// Its command is running.
    Running(Seq<char>),
    /// The result of its command is being stored.
    Storing(Seq<char>),
    /// It has an outcome.
    Done(OutcomeView),
}

/// The run of one task.
#[derive(Debug)]
pub struct TaskRun {
    name: String,
    deps: usize,
    use_cache: bool,
    dep_keys: Vec<String>,
    ready: Duration,
    phase: Phase,
}

/// What a [`TaskRun`] holds.
pub struct RunView {
    /// The name of the task.
    pub name: Seq<char>,
    /// How many dependencies it waits for.
    pub deps: int,
    /// Whether the cache is used.
    pub use_cache: bool,
    /// The cache keys of the dependencies that have come in, in order.
    pub dep_keys: Seq<Seq<char>>,
    /// When the last of them came in, in nanoseconds since the run began.
    pub ready: nat,
    /// How far it has come.
    pub phase: PhaseView,
}

impl View for Phase {
    type V = PhaseView;

    closed spec fn view(&self) -> PhaseView {
        match self {
            Phase::Waiting(next) => PhaseView::Waiting(*next as int),
            Phase::DerivingKey => PhaseView::DerivingKey,
            Phase::LookingUp(key) => PhaseView::LookingUp(key@),
            Phase::Queued(key) => PhaseView::Queued(key@),
            Phase::Running(key) => PhaseView::Running(key@),
            Phase::Storing(key) => PhaseView::Storing(key@),
            Phase::Done(outcome) => PhaseView::Done(outcome@),
        }
    }
}

impl View for TaskRun {
    type V = RunView;

    closed spec fn view(&self) -> RunView {
        RunView {
            name: self.name@,
            deps: self.deps as int,
            use_cache: self.use_cache,
            dep_keys: texts(self.dep_keys@),
            ready: nanoseconds(self.ready),
            phase: self.phase@,
        }
    }
}

/// What has come of an outside step.
#[derive(Debug)]
pub enum Signal {
    /// The dependency waited for will never have an outcome.
    DependencyLost,
    /// The dependency waited for has an outcome.
    DependencyDone(TaskOutcome),
    /// The cache key.
    KeyDerived(String),
    /// Why there is no cache key.
    KeyFailed(String),
    /// The cache holds a valid result.
    CacheHit,
    /// The cache holds no valid result, or could not be asked.
    CacheMiss,
    /// There is a slot to run the command.
    SlotGranted,
    /// There will be no slot.
    SlotRefused,
    /// The command has exited with a code.
    CommandExited(i32),
    /// Why the command could not be run.
    CommandFailed(String),
    /// The cache has been given the result (or could not take it).
    ResultStored,
}

/// What a [`Signal`] holds.
pub enum SignalView {
    DependencyLost,
    DependencyDone(OutcomeView),
    KeyDerived(Seq<char>),
    KeyFailed(Seq<char>),
    CacheHit,
    CacheMiss,
    SlotGranted,
    SlotRefused,
    CommandExited(i32),
    CommandFailed(Seq<char>),
    ResultStored,
}

impl View for Signal {
    type V = SignalView;

    open spec fn view(&self) -> SignalView {
        match self {
            Signal::DependencyLost => SignalView::DependencyLost,
            Signal::DependencyDone(o) => SignalView::DependencyDone(o@),
            Signal::KeyDerived(k) => SignalView::KeyDerived(k@),
            Signal::KeyFailed(e) => SignalView::KeyFailed(e@),
            Signal::CacheHit => SignalView::CacheHit,
            Signal::CacheMiss => SignalView::CacheMiss,
            Signal::SlotGranted => SignalView::SlotGranted,
            Signal::SlotRefused => SignalView::SlotRefused,
            Signal::CommandExited(c) => SignalView::CommandExited(*c),
            Signal::CommandFailed(e) => SignalView::CommandFailed(e@),
            Signal::ResultStored => SignalView::ResultStored,
        }
    }
}

/// What is said of a task whose dependency will never have an outcome.
pub open spec fn lost_text() -> Seq<char> {
    "upstream dep channel closed"@
}

/// What is said of a task whose dependency failed.
pub open spec fn upstream_text(upstream: Seq<char>) -> Seq<char> {
    "upstream `"@ + upstream + "` failed"@
}

/// What is said of a task whose cache key could not be derived.
pub open spec fn key_text(why: Seq<char>) -> Seq<char> {
    "cache key derivation failed: "@ + why
}

/// What is said of a task that gets no slot.
pub open spec fn slot_text() -> Seq<char> {
    "semaphore closed"@
}

/// What is said of a command that exits with a code other than zero.
pub open spec fn exit_text(code: int) -> Seq<char> {
    "exit code "@ + signed_decimal(code)
}

impl RunView {
    /// The same run in another phase.
    pub open spec fn at(self, phase: PhaseView) -> RunView {
        RunView { phase, ..self }
    }

    /// The same run, over.
    pub open spec fn over(
        self,
        status: TaskStatus,
        cache_key: Option<Seq<char>>,
        exit_code: Option<i32>,
        duration: nat,
        error: Option<Seq<char>>,
    ) -> RunView {
        self.at(PhaseView::Done(OutcomeView { name: self.name, status, cache_key, exit_code, duration, error }))
    }

    /// The time since the last dependency came in.
    pub open spec fn taken(self, elapsed: nat) -> nat {
        time_between(self.ready, elapsed)
    }

    /// The event that tells that the task failed.
    pub open spec fn failure(self, exit_code: Option<i32>, message: Seq<char>) -> Option<EventView> {
        Some(EventView::Failed { task: self.name, exit_code, message })
    }
}

/// The run after one more dependency, with the given cache key, has come in.
pub open spec fn with_dependency(s: RunView, next: int, cache_key: Option<Seq<char>>, elapsed: nat) -> RunView {
    RunView {
        dep_keys: match cache_key {
            Some(k) => s.dep_keys.push(k),
            None => s.dep_keys,
        },
        ready: elapsed,
        phase: if next + 1 < s.deps {
            PhaseView::Waiting(next + 1)
        } else {
            PhaseView::DerivingKey
        },
        ..s
    }
}

/// The next state of a run and the event reported, if any, when a signal comes
/// in, so many nanoseconds since the run began. A signal that does not belong to
/// the phase changes nothing.
pub open spec fn advanced(s: RunView, signal: SignalView, elapsed: nat) -> (RunView, Option<EventView>) {
    match (s.phase, signal) {
        (PhaseView::Waiting(next), SignalView::DependencyLost) => (
            s.over(TaskStatus::Skipped, None, None, 0, Some(lost_text())),
            None,
        ),
        (PhaseView::Waiting(next), SignalView::DependencyDone(o)) => if o.status.blocks() {
            (
                s.over(TaskStatus::Skipped, None, None, 0, Some(upstream_text(o.name))),
                Some(EventView::Skipped { task: s.name, upstream: o.name }),
            )
        } else {
            (with_dependency(s, next, o.cache_key, elapsed), None)
        },
        (PhaseView::DerivingKey, SignalView::KeyFailed(why)) => (
            s.over(TaskStatus::Failed, None, None, s.taken(elapsed), Some(key_text(why))),
            s.failure(None, key_text(why)),
        ),
        (PhaseView::DerivingKey, SignalView::KeyDerived(key)) => if s.use_cache {
            (s.at(PhaseView::LookingUp(key)), None)
        } else {
            (s.at(PhaseView::Queued(key)), Some(EventView::Started { task: s.name }))
        },
        (PhaseView::LookingUp(key), SignalView::CacheHit) => (
            s.over(TaskStatus::Cached, Some(key), None, s.taken(elapsed), None),
            Some(EventView::Cached { task: s.name, key }),
        ),
        (PhaseView::LookingUp(key), SignalView::CacheMiss) => (
            s.at(PhaseView::Queued(key)),
            Some(EventView::Started { task: s.name }),
        ),
        (PhaseView::Queued(key), SignalView::SlotRefused) => (
            s.over(TaskStatus::Failed, Some(key), None, s.taken(elapsed), Some(slot_text())),
            s.failure(None, slot_text()),
        ),
        (PhaseView::Queued(key), SignalView::SlotGranted) => (s.at(PhaseView::Running(key)), None),
        (PhaseView::Running(key), SignalView::CommandExited(code)) => if code != 0 {
            (
                s.over(TaskStatus::Failed, Some(key), Some(code), s.taken(elapsed), Some(exit_text(code as int))),
                s.failure(Some(code), exit_text(code as int)),
            )
        } else if s.use_cache {
            (s.at(PhaseView::Storing(key)), None)
        } else {
            (
                s.over(TaskStatus::Success, Some(key), Some(0), s.taken(elapsed), None),
                Some(EventView::Finished { task: s.name, duration: s.taken(elapsed) }),
            )
        },
        (PhaseView::Running(key), SignalView::CommandFailed(why)) => (
            s.over(TaskStatus::Failed, Some(key), None, s.taken(elapsed), Some(why)),
            s.failure(None, why),
        ),
        (PhaseView::Storing(key), SignalView::ResultStored) => (
            s.over(TaskStatus::Success, Some(key), Some(0), s.taken(elapsed), None),
            Some(EventView::Finished { task: s.name, duration: s.taken(elapsed) }),
        ),
        _ => (s, None),
    }
}

/// The outside step that a run needs next.
#[derive(Debug)]
pub enum Action {
    /// Wait for the outcome of the dependency at this position.
    AwaitDependency(usize),
    /// Derive the cache key, from the task and the keys of its dependencies.
    DeriveKey,
    /// Ask the cache for this key.
    LookUp(String),
    /// Wait for a slot to run the command.
    AwaitSlot,
    /// Run the command.
    RunCommand,
    /// Give the result to the cache, under this key.
    Store(String),
    /// None: the task has its outcome.
    Finish(TaskOutcome),
}

/// What an [`Action`] holds.
pub enum ActionView {
    AwaitDependency(int),
    DeriveKey,
    LookUp(Seq<char>),
    AwaitSlot,
    RunCommand,
    Store(Seq<char>),
    Finish(OutcomeView),
}

impl View for Action {
    type V = ActionView;

    open spec fn view(&self) -> ActionView {
        match self {
            Action::AwaitDependency(i) => ActionView::AwaitDependency(*i as int),
            Action::DeriveKey => ActionView::DeriveKey,
            Action::LookUp(k) => ActionView::LookUp(k@),
            Action::AwaitSlot => ActionView::AwaitSlot,
            Action::RunCommand => ActionView::RunCommand,
            Action::Store(k) => ActionView::Store(k@),
            Action::Finish(o) => ActionView::Finish(o@),
        }
    }
}

/// The step that each phase asks for.
pub open spec fn action_in(phase: PhaseView) -> ActionView {
    match phase {
        PhaseView::Waiting(i) => ActionView::AwaitDependency(i),
        PhaseView::DerivingKey => ActionView::DeriveKey,
        PhaseView::LookingUp(k) => ActionView::LookUp(k),
        PhaseView::Queued(_) => ActionView::AwaitSlot,
        PhaseView::Running(_) => ActionView::RunCommand,
        PhaseView::Storing(k) => ActionView::Store(k),
        PhaseView::Done(o) => ActionView::Finish(o),
    }
}

/// A run at its beginning.
pub open spec fn begun(name: Seq<char>, deps: int, use_cache: bool) -> RunView {
    RunView {
        name,
        deps,
        use_cache,
        dep_keys: Seq::empty(),
        ready: 0,
        phase: if deps > 0 {
            PhaseView::Waiting(0)
        } else {
            PhaseView::DerivingKey
        },
    }
}

impl TaskRun {
    #[verifier::type_invariant]
    spec fn in_range(self) -> bool {
        self.phase matches Phase::Waiting(next) ==> next < self.deps
    }

    /// The run of a task with so many dependencies.
    pub fn begin(name: String, deps: usize, use_cache: bool) -> (r: Self)
        ensures
            r@ == begun(name@, deps as int, use_cache),
    {
        let dep_keys: Vec<String> = Vec::new();
        proof {
            assert(texts(dep_keys@) =~= Seq::<Seq<char>>::empty());
        }
        let ready = duration_of(0);
        if deps > 0 {
            TaskRun { name, deps, use_cache, dep_keys, ready, phase: Phase::Waiting(0) }
        } else {
            TaskRun { name, deps, use_cache, dep_keys, ready, phase: Phase::DerivingKey }
        }
    }

    /// The outside step that is needed next.
    pub fn action(&self) -> (a: Action)
        ensures
            a@ == action_in(self@.phase),
    {
        match &self.phase {
            Phase::Waiting(next) => Action::AwaitDependency(*next),
            Phase::DerivingKey => Action::DeriveKey,
            Phase::LookingUp(key) => Action::LookUp(key.clone()),
            Phase::Queued(_) => Action::AwaitSlot,
            Phase::Running(_) => Action::RunCommand,
            Phase::Storing(key) => Action::Store(key.clone()),
            Phase::Done(outcome) => Action::Finish(outcome.clone()),
        }
    }

    /// The cache keys of the dependencies that have come in, in order.
    pub fn dep_keys(&self) -> (r: &[String])
        ensures
            texts(r@) == self@.dep_keys,
    {
        self.dep_keys.as_slice()
    }

    fn enter(self, phase: Phase) -> (r: Self)
        requires
            phase matches Phase::Waiting(next) ==> next < self@.deps,
        ensures
            r@ == self@.at(phase@),
    {
        let TaskRun { name, deps, use_cache, dep_keys, ready, phase: _ } = self;
        TaskRun { name, deps, use_cache, dep_keys, ready, phase }
    }

    fn end(
        self,
        status: TaskStatus,
        cache_key: Option<String>,
        exit_code: Option<i32>,
        duration: Duration,
        error: Option<String>,
    ) -> (r: Self)
        ensures
            r@ == self@.over(
                status,
                maybe_text(cache_key),
                exit_code,
                nanoseconds(duration),
                maybe_text(error),
            ),
    {
        let outcome = TaskOutcome { name: self.name.clone(), status, cache_key, exit_code, duration, error };
        self.enter(Phase::Done(outcome))
    }

    fn take_dependency(self, next: usize, cache_key: Option<String>, elapsed: Duration) -> (r: Self)
        requires
            next < self@.deps,
        ensures
            r@ == with_dependency(self@, next as int, maybe_text(cache_key), nanoseconds(elapsed)),
    {
        let TaskRun { name, deps, use_cache, mut dep_keys, ready: _, phase: _ } = self;
        let ghost keys0 = dep_keys@;
        if let Some(k) = cache_key {
            let ghost kv = k@;
            dep_keys.push(k);
            proof {
                assert(texts(dep_keys@) =~= texts(keys0).push(kv));
            }
        }
        let phase = if next + 1 < deps {
            Phase::Waiting(next + 1)
        } else {
            Phase::DerivingKey
        };
        TaskRun { name, deps, use_cache, dep_keys, ready: elapsed, phase }
    }

    fn failed(&self, exit_code: Option<i32>, message: String) -> (e: Option<ExecutionEvent>)
        ensures
            e matches Some(x) && Some(x@) == self@.failure(exit_code, message@),
    {
        Some(ExecutionEvent::Failed { task: self.name.clone(), exit_code, message })
    }

    /// Takes in what has come of the step that was asked for, with the time
    /// since the run began; returns the event to report, if any.
    pub fn step(self, signal: Signal, elapsed: Duration) -> (r: (Self, Option<ExecutionEvent>))
        ensures
            r.0@ == advanced(self@, signal@, nanoseconds(elapsed)).0,
            match r.1 {
                Some(e) => advanced(self@, signal@, nanoseconds(elapsed)).1 == Some(e@),
                None => advanced(self@, signal@, nanoseconds(elapsed)).1 is None,
            },
    {
        proof {
            use_type_invariant(&self);
        }
        let TaskRun { name, deps, use_cache, dep_keys, ready, phase } = self;
        // The run without its phase.
        let run = TaskRun { name, deps, use_cache, dep_keys, ready, phase: Phase::DerivingKey };
        let taken = elapsed_since(ready, elapsed);
        match (phase, signal) {
            (Phase::Waiting(_), Signal::DependencyLost) => {
                let error = "upstream dep channel closed".to_owned();
                (run.end(TaskStatus::Skipped, None, None, duration_of(0), Some(error)), None)
            },
            (Phase::Waiting(next), Signal::DependencyDone(o)) => {
                if o.status.is_blocking_failure() {
                    let error = quoted("upstream `", o.name.as_str(), "` failed");
                    let event = ExecutionEvent::Skipped { task: run.name.clone(), upstream: o.name };
                    (run.end(TaskStatus::Skipped, None, None, duration_of(0), Some(error)), Some(event))
                } else {
                    (run.take_dependency(next, o.cache_key, elapsed), None)
                }
            },
            (Phase::DerivingKey, Signal::KeyFailed(why)) => {
                let mut message = "cache key derivation failed: ".to_owned();
                message.append(why.as_str());
                let event = run.failed(None, message.clone());
                (run.end(TaskStatus::Failed, None, None, taken, Some(message)), event)
            },
            (Phase::DerivingKey, Signal::KeyDerived(key)) => {
                if run.use_cache {
                    (run.enter(Phase::LookingUp(key)), None)
                } else {
                    let event = ExecutionEvent::Started { task: run.name.clone() };
                    (run.enter(Phase::Queued(key)), Some(event))
                }
            },
            (Phase::LookingUp(key), Signal::CacheHit) => {
                let event = ExecutionEvent::Cached { task: run.name.clone(), key: key.clone() };
                (run.end(TaskStatus::Cached, Some(key), None, taken, None), Some(event))
            },
            (Phase::LookingUp(key), Signal::CacheMiss) => {
                let event = ExecutionEvent::Started { task: run.name.clone() };
                (run.enter(Phase::Queued(key)), Some(event))
            },
            (Phase::Queued(key), Signal::SlotRefused) => {
                let message = "semaphore closed".to_owned();
                let event = run.failed(None, message.clone());
                (run.end(TaskStatus::Failed, Some(key), None, taken, Some(message)), event)
            },
            (Phase::Queued(key), Signal::SlotGranted) => (run.enter(Phase::Running(key)), None),
            (Phase::Running(key), Signal::CommandExited(code)) => {
                if code != 0 {
                    let mut message = "exit code ".to_owned();
                    message.append(signed_decimal_text(code).as_str());
                    let event = run.failed(Some(code), message.clone());
                    (run.end(TaskStatus::Failed, Some(key), Some(code), taken, Some(message)), event)
                } else if run.use_cache {
                    (run.enter(Phase::Storing(key)), None)
                } else {
                    let event = ExecutionEvent::Finished { task: run.name.clone(), duration: taken };
                    (run.end(TaskStatus::Success, Some(key), Some(0), taken, None), Some(event))
                }
            },
            (Phase::Running(key), Signal::CommandFailed(why)) => {
                let event = run.failed(None, why.clone());
                (run.end(TaskStatus::Failed, Some(key), None, taken, Some(why)), event)
            },
            (Phase::Storing(key), Signal::ResultStored) => {
                let event = ExecutionEvent::Finished { task: run.name.clone(), duration: taken };
                (run.end(TaskStatus::Success, Some(key), Some(0), taken, None), Some(event))
            },
            (phase, _) => (run.enter(phase), None),
        }
    }
}

} // verus!
