//! What the views of the types show: every field, as it is.

use vstd::prelude::*;

use crate::command::listed_names;
use crate::cycle::lists;
use crate::executor::{
    maybe_text, outcomes_view, EventView, ExecutionEvent, RunReport, TaskOutcome, TaskStatus,
};
use crate::run::{Action, ActionView, Signal, SignalView};
use crate::shell::{maybe_invocation, maybe_slice, slices, ShellInvocation};
use crate::task::{tasks_view, Task};
use crate::task_set::{RawConfig, RawTask};
use crate::time::nanoseconds;

verus! {

/// A task shows its name, its command, every dependency and every pattern in
/// order, and every variable with its value.
pub proof fn task_shows_its_fields(t: Task)
    ensures
        t@.name == t.name@,
        t@.command == t.command@,
        t@.deps.len() == t.deps@.len(),
        forall|k: int| 0 <= k < t.deps@.len() ==> #[trigger] t@.deps[k] == t.deps@[k]@,
        t@.inputs.len() == t.inputs@.len(),
        forall|k: int| 0 <= k < t.inputs@.len() ==> #[trigger] t@.inputs[k] == t.inputs@[k]@,
        t@.outputs.len() == t.outputs@.len(),
        forall|k: int| 0 <= k < t.outputs@.len() ==> #[trigger] t@.outputs[k] == t.outputs@[k]@,
        forall|k: Seq<char>| #[trigger] t@.env.contains_key(k) <==> t.env@.contains_key(k),
        forall|k: Seq<char>| t.env@.contains_key(k) ==> #[trigger] t@.env[k] == t.env@[k]@,
{
}

/// A list of tasks shows each of them, in order.
pub proof fn tasks_show_each(ts: Seq<Task>)
    ensures
        tasks_view(ts).len() == ts.len(),
        forall|i: int| 0 <= i < ts.len() ==> #[trigger] tasks_view(ts)[i] == ts[i]@,
{
}

/// A configuration shows each of its entries, in order: its name, its command,
/// every dependency and every pattern in order, and every variable with its
/// value.
pub proof fn configuration_shows_its_entries(raw: RawConfig, i: int)
    requires
        0 <= i < raw.tasks@.len(),
    ensures
        raw@.len() == raw.tasks@.len(),
        ({
            let shown = raw@[i];
            let (name, t): (String, RawTask) = raw.tasks@[i];
            &&& shown.name == name@
            &&& shown.command == t.command@
            &&& shown.deps.len() == t.deps@.len()
            &&& forall|k: int| 0 <= k < t.deps@.len() ==> #[trigger] shown.deps[k] == t.deps@[k]@
            &&& shown.inputs.len() == t.inputs@.len()
            &&& forall|k: int| 0 <= k < t.inputs@.len() ==> #[trigger] shown.inputs[k] == t.inputs@[k]@
            &&& shown.outputs.len() == t.outputs@.len()
            &&& forall|k: int| 0 <= k < t.outputs@.len() ==> #[trigger] shown.outputs[k] == t.outputs@[k]@
            &&& forall|k: Seq<char>| #[trigger] shown.env.contains_key(k) <==> t.env@.contains_key(k)
            &&& forall|k: Seq<char>| t.env@.contains_key(k) ==> #[trigger] shown.env[k] == t.env@[k]@
        }),
{
}

/// An optional text is there exactly where the string is, and is what it holds.
pub proof fn optional_text_is_shown(s: Option<String>)
    ensures
        maybe_text(s) is Some <==> s is Some,
        s is Some ==> maybe_text(s)->0 == s->0@,
{
}

/// An outcome shows all its fields.
pub proof fn outcome_shows_its_fields(o: TaskOutcome)
    ensures
        o@.name == o.name@,
        o@.status == o.status,
        o@.exit_code == o.exit_code,
        o@.duration == nanoseconds(o.duration),
        o@.cache_key is Some <==> o.cache_key is Some,
        o.cache_key is Some ==> o@.cache_key->0 == o.cache_key->0@,
        o@.error is Some <==> o.error is Some,
        o.error is Some ==> o@.error->0 == o.error->0@,
{
}

/// A report shows each of its outcomes, in order.
pub proof fn report_shows_each(r: RunReport)
    ensures
        r@.len() == r.outcomes@.len(),
        forall|i: int| 0 <= i < r.outcomes@.len() ==> #[trigger] r@[i] == r.outcomes@[i]@,
        outcomes_view(r.outcomes@) == r@,
{
}

/// A status blocks dependents exactly where it is that of a failed or skipped
/// task.
pub proof fn failed_and_skipped_block(s: TaskStatus)
    ensures
        s is Failed || s is Skipped ==> s.blocks(),
        s is Success || s is Cached ==> !s.blocks(),
{
}

/// An event shows its kind and all its fields.
pub proof fn event_shows_its_fields(e: ExecutionEvent)
    ensures
        match e {
            ExecutionEvent::Started { task } => e@ matches EventView::Started { task: t } && t == task@,
            ExecutionEvent::Cached { task, key } => e@ matches EventView::Cached { task: t, key: k } && t == task@ && k
                == key@,
            ExecutionEvent::Finished { task, duration } => e@ matches EventView::Finished { task: t, duration: d } && t
                == task@ && d == nanoseconds(duration),
            ExecutionEvent::Failed { task, exit_code, message } => e@ matches EventView::Failed {
                task: t,
                exit_code: c,
                message: m,
            } && t == task@ && c == exit_code && m == message@,
            ExecutionEvent::Skipped { task, upstream } => e@ matches EventView::Skipped { task: t, upstream: u } && t
                == task@ && u == upstream@,
            ExecutionEvent::Stdout { task, line } => e@ matches EventView::Stdout { task: t, line: l } && t == task@
                && l == line@,
            ExecutionEvent::Stderr { task, line } => e@ matches EventView::Stderr { task: t, line: l } && t == task@
                && l == line@,
        },
{
}

/// A signal shows its kind and what it carries.
pub proof fn signal_shows_what_it_carries(s: Signal)
    ensures
        match s {
            Signal::DependencyLost => s@ is DependencyLost,
            Signal::DependencyDone(o) => s@ matches SignalView::DependencyDone(v) && v == o@,
            Signal::KeyDerived(k) => s@ matches SignalView::KeyDerived(v) && v == k@,
            Signal::KeyFailed(e) => s@ matches SignalView::KeyFailed(v) && v == e@,
            Signal::CacheHit => s@ is CacheHit,
            Signal::CacheMiss => s@ is CacheMiss,
            Signal::SlotGranted => s@ is SlotGranted,
            Signal::SlotRefused => s@ is SlotRefused,
            Signal::CommandExited(c) => s@ matches SignalView::CommandExited(v) && v == c,
            Signal::CommandFailed(e) => s@ matches SignalView::CommandFailed(v) && v == e@,
            Signal::ResultStored => s@ is ResultStored,
        },
{
}

/// An action shows its kind and what it carries.
pub proof fn action_shows_what_it_carries(a: Action)
    ensures
        match a {
            Action::AwaitDependency(i) => a@ matches ActionView::AwaitDependency(v) && v == i,
            Action::DeriveKey => a@ is DeriveKey,
            Action::LookUp(k) => a@ matches ActionView::LookUp(v) && v == k@,
            Action::AwaitSlot => a@ is AwaitSlot,
            Action::RunCommand => a@ is RunCommand,
            Action::Store(k) => a@ matches ActionView::Store(v) && v == k@,
            Action::Finish(o) => a@ matches ActionView::Finish(v) && v == o@,
        },
{
}

/// A shell invocation shows its program and every argument, in order.
pub proof fn invocation_shows_its_parts(i: ShellInvocation)
    ensures
        i@.program == i.program@,
        i@.args.len() == i.args@.len(),
        forall|k: int| 0 <= k < i.args@.len() ==> #[trigger] i@.args[k] == i.args@[k]@,
        maybe_invocation(Some(i)) == Some(i@),
        maybe_invocation(None) is None,
{
}

/// String slices show what each of them holds, in order.
pub proof fn slices_show_each(args: Seq<&str>, raw: Option<&str>)
    ensures
        slices(args).len() == args.len(),
        forall|k: int| 0 <= k < args.len() ==> #[trigger] slices(args)[k] == args[k]@,
        maybe_slice(raw) is Some <==> raw is Some,
        raw is Some ==> maybe_slice(raw)->0 == raw->0@,
{
}

/// Lists of names show every name of each, in order.
pub proof fn lists_show_each(m: Map<Seq<char>, Vec<String>>, k: Seq<char>)
    requires
        m.contains_key(k),
    ensures
        lists(m).dom() == m.dom(),
        lists(m)[k].len() == m[k]@.len(),
        forall|i: int| 0 <= i < m[k]@.len() ==> #[trigger] lists(m)[k][i] == m[k]@[i]@,
{
    assert(lists(m).dom() =~= m.dom());
}

/// Listed variables show their names, in order.
pub proof fn listed_names_show_each(env: Seq<(String, String)>)
    ensures
        listed_names(env).len() == env.len(),
        forall|i: int| 0 <= i < env.len() ==> #[trigger] listed_names(env)[i] == env[i].0@,
{
}

} // verus!
