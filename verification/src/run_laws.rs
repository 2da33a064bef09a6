//! What holds of the run of a task, and of a run of many.

use vstd::prelude::*;

use crate::dag::is_dag;
use crate::executor::{EventView, OutcomeView, TaskStatus};
use crate::graph::{build_order, declared, depends_on};
use crate::graph_laws::{build_order_is_topological, full_order_lists_all, orderable_iff_acyclic};
use crate::run::{
    action_in, advanced, begun, exit_text, key_text, lost_text, slot_text, upstream_text, ActionView, PhaseView, RunView,
    SignalView,
};
use crate::select::{dependency_declared, leads_to};
use crate::task::TaskView;

verus! {

/// What the steps outside come to, should they be taken.
pub struct Facts {
    /// The outcomes of the dependencies; none where one is lost.
    pub deps: Seq<Option<OutcomeView>>,
    /// The cache key, or why there is none, given the keys of the dependencies.
    pub key: spec_fn(Seq<Seq<char>>) -> Result<Seq<char>, Seq<char>>,
    /// Whether the cache holds a valid result.
    pub hit: bool,
    /// Whether there is a slot to run the command.
    pub slot: bool,
    /// The exit code of the command, or why it cannot be run.
    pub exit: Result<i32, Seq<char>>,
}

/// What comes of a step that the run `s` asks for.
pub open spec fn answer(f: Facts, s: RunView) -> SignalView {
    match action_in(s.phase) {
        ActionView::AwaitDependency(i) => match f.deps[i] {
            Some(o) => SignalView::DependencyDone(o),
            None => SignalView::DependencyLost,
        },
        ActionView::DeriveKey => match (f.key)(s.dep_keys) {
            Ok(k) => SignalView::KeyDerived(k),
            Err(why) => SignalView::KeyFailed(why),
        },
        ActionView::LookUp(_) => if f.hit {
            SignalView::CacheHit
        } else {
            SignalView::CacheMiss
        },
        ActionView::AwaitSlot => if f.slot {
            SignalView::SlotGranted
        } else {
            SignalView::SlotRefused
        },
        ActionView::RunCommand => match f.exit {
            Ok(code) => SignalView::CommandExited(code),
            Err(why) => SignalView::CommandFailed(why),
        },
        ActionView::Store(_) => SignalView::ResultStored,
        ActionView::Finish(_) => SignalView::ResultStored,
    }
}

/// How many steps a run may still ask for.
pub open spec fn remaining(s: RunView) -> int {
    match s.phase {
        PhaseView::Waiting(i) => if i < s.deps {
            5 + s.deps - i
        } else {
            6
        },
        PhaseView::DerivingKey => 5,
        PhaseView::LookingUp(_) => 4,
        PhaseView::Queued(_) => 3,
        PhaseView::Running(_) => 2,
        PhaseView::Storing(_) => 1,
        PhaseView::Done(_) => 0,
    }
}

/// The outcome in which a run ends and the events that it reports on the way,
/// where each step comes to what the facts say. `clock` tells the nanoseconds
/// elapsed when so many steps are left.
pub open spec fn course(s: RunView, f: Facts, clock: spec_fn(int) -> nat) -> (OutcomeView, Seq<EventView>)
    decreases remaining(s),
{
    match s.phase {
        PhaseView::Done(o) => (o, Seq::empty()),
        _ => {
            let (next, event) = advanced(s, answer(f, s), clock(remaining(s)));
            let (outcome, events) = course(next, f, clock);
            match event {
                Some(e) => (outcome, seq![e] + events),
                None => (outcome, events),
            }
        },
    }
}

/// A dependency keeps its dependents from running: it is lost or has failed.
pub open spec fn stops(dep: Option<OutcomeView>) -> bool {
    match dep {
        Some(o) => o.status.blocks(),
        None => true,
    }
}

/// The first position from `i` on at which a dependency stops the task; the
/// number of dependencies, if none does.
pub open spec fn first_stop(deps: Seq<Option<OutcomeView>>, i: int) -> int
    decreases deps.len() - i,
{
    if i >= deps.len() || stops(deps[i]) {
        i
    } else {
        first_stop(deps, i + 1)
    }
}

/// The cache keys among the first `n` dependencies, in order.
pub open spec fn keys_of(deps: Seq<Option<OutcomeView>>, n: int) -> Seq<Seq<char>>
    decreases n,
{
    if n <= 0 {
        Seq::empty()
    } else {
        match deps[n - 1] {
            Some(o) => match o.cache_key {
                Some(k) => keys_of(deps, n - 1).push(k),
                None => keys_of(deps, n - 1),
            },
            None => keys_of(deps, n - 1),
        }
    }
}

/// The outcome of a task that is skipped.
pub open spec fn skipped(name: Seq<char>, why: Seq<char>) -> OutcomeView {
    OutcomeView {
        name,
        status: TaskStatus::Skipped,
        cache_key: None,
        exit_code: None,
        duration: 0,
        error: Some(why),
    }
}

/// The outcome of a task, given the time that it took if it is not skipped: the first dependency
/// that stops it has it skipped; else the cache, the command or what keeps it
/// from being run decides.
pub open spec fn verdict(name: Seq<char>, use_cache: bool, f: Facts, duration: nat) -> OutcomeView {
    let made = |status: TaskStatus, cache_key: Option<Seq<char>>, exit_code: Option<i32>, error: Option<Seq<char>>|
        OutcomeView { name, status, cache_key, exit_code, duration, error };
    let n = first_stop(f.deps, 0);
    if n < f.deps.len() {
        match f.deps[n] {
            Some(o) => skipped(name, upstream_text(o.name)),
            None => skipped(name, lost_text()),
        }
    } else {
        match (f.key)(keys_of(f.deps, f.deps.len() as int)) {
            Err(why) => made(TaskStatus::Failed, None, None, Some(key_text(why))),
            Ok(key) => if use_cache && f.hit {
                made(TaskStatus::Cached, Some(key), None, None)
            } else if !f.slot {
                made(TaskStatus::Failed, Some(key), None, Some(slot_text()))
            } else {
                match f.exit {
                    Ok(0) => made(TaskStatus::Success, Some(key), Some(0), None),
                    Ok(code) => made(TaskStatus::Failed, Some(key), Some(code), Some(exit_text(code as int))),
                    Err(why) => made(TaskStatus::Failed, Some(key), None, Some(why)),
                }
            },
        }
    }
}

/// The events that go with an outcome.
pub open spec fn announced(f: Facts, o: OutcomeView) -> Seq<EventView> {
    let started = EventView::Started { task: o.name };
    match o.status {
        TaskStatus::Skipped => match f.deps[first_stop(f.deps, 0)] {
            Some(u) => seq![EventView::Skipped { task: o.name, upstream: u.name }],
            None => Seq::empty(),
        },
        TaskStatus::Cached => seq![EventView::Cached { task: o.name, key: o.cache_key->0 }],
        TaskStatus::Success => seq![started, EventView::Finished { task: o.name, duration: o.duration }],
        TaskStatus::Failed => {
            let failed = EventView::Failed { task: o.name, exit_code: o.exit_code, message: o.error->0 };
            if o.cache_key is None {
                seq![failed]
            } else {
                seq![started, failed]
            }
        },
    }
}

/// Where the first dependency stands that stops a task.
pub proof fn first_stop_in(deps: Seq<Option<OutcomeView>>, i: int)
    requires
        0 <= i <= deps.len(),
    ensures
        i <= first_stop(deps, i) <= deps.len(),
        first_stop(deps, i) < deps.len() ==> stops(deps[first_stop(deps, i)]),
        forall|j: int| i <= j < first_stop(deps, i) ==> !stops(#[trigger] deps[j]),
    decreases deps.len() - i,
{
    if i < deps.len() && !stops(deps[i]) {
        first_stop_in(deps, i + 1);
    }
}

/// The first dependency that stops a task is at most at `n`, if that one does.
proof fn first_stop_before(deps: Seq<Option<OutcomeView>>, n: int)
    requires
        0 <= n < deps.len(),
        stops(deps[n]),
    ensures
        first_stop(deps, 0) <= n,
{
    first_stop_in(deps, 0);
}

/// A run that has its key ends as the facts have it.
proof fn course_from_key(s: RunView, f: Facts, clock: spec_fn(int) -> nat)
    requires
        s.phase is DerivingKey,
        s.deps == f.deps.len(),
        s.dep_keys == keys_of(f.deps, f.deps.len() as int),
        first_stop(f.deps, 0) == f.deps.len(),
    ensures
        ({
            let (o, events) = course(s, f, clock);
            &&& o == verdict(s.name, s.use_cache, f, o.duration)
            &&& events == announced(f, o)
        }),
{
    reveal_with_fuel(course, 6);
    let (o, events) = course(s, f, clock);
    assert(events =~= announced(f, o));
}

proof fn course_from_waiting(s: RunView, f: Facts, clock: spec_fn(int) -> nat, i: int)
    requires
        s.phase == PhaseView::Waiting(i),
        0 <= i < s.deps,
        s.deps == f.deps.len(),
        s.dep_keys == keys_of(f.deps, i),
        first_stop(f.deps, 0) >= i,
    ensures
        ({
            let (o, events) = course(s, f, clock);
            &&& o == verdict(s.name, s.use_cache, f, o.duration)
            &&& events == announced(f, o)
        }),
    decreases f.deps.len() - i,
{
    first_stop_in(f.deps, 0);
    let (next, event) = advanced(s, answer(f, s), clock(remaining(s)));
    if stops(f.deps[i]) {
        first_stop_before(f.deps, i);
        reveal_with_fuel(course, 2);
        let (o, events) = course(s, f, clock);
        assert(events =~= announced(f, o));
    } else {
        assert(first_stop(f.deps, 0) != i);
        assert(next.dep_keys =~= keys_of(f.deps, i + 1));
        if i + 1 < s.deps {
            course_from_waiting(next, f, clock, i + 1);
        } else {
            course_from_key(next, f, clock);
        }
    }
}

/// A run that is fed with what its steps come to ends with the outcome that
/// these decide, and reports the events that go with it.
pub proof fn run_ends_in_verdict(name: Seq<char>, use_cache: bool, f: Facts, clock: spec_fn(int) -> nat)
    ensures
        ({
            let (o, events) = course(begun(name, f.deps.len() as int, use_cache), f, clock);
            &&& o == verdict(name, use_cache, f, o.duration)
            &&& events == announced(f, o)
        }),
{
    let s = begun(name, f.deps.len() as int, use_cache);
    first_stop_in(f.deps, 0);
    if f.deps.len() > 0 {
        course_from_waiting(s, f, clock, 0);
    } else {
        course_from_key(s, f, clock);
    }
}

/// A task is started only where all that it depends on has succeeded.
pub proof fn starts_only_after_success(name: Seq<char>, use_cache: bool, f: Facts, clock: spec_fn(int) -> nat)
    requires
        course(begun(name, f.deps.len() as int, use_cache), f, clock).1.contains(EventView::Started { task: name }),
    ensures
        forall|i: int| 0 <= i < f.deps.len() ==> !stops(#[trigger] f.deps[i]),
{
    run_ends_in_verdict(name, use_cache, f, clock);
    first_stop_in(f.deps, 0);
}

/// Where the cache holds a valid result, neither a slot nor the command has any
/// part in the outcome, and the task is not started.
pub proof fn hit_spares_slot_and_command(
    name: Seq<char>,
    f: Facts,
    slot: bool,
    exit: Result<i32, Seq<char>>,
    clock: spec_fn(int) -> nat,
)
    requires
        f.hit,
        (f.key)(keys_of(f.deps, f.deps.len() as int)) is Ok,
    ensures
        ({
            let s = begun(name, f.deps.len() as int, true);
            let (o, events) = course(s, f, clock);
            &&& verdict(name, true, f, o.duration) == verdict(name, true, (Facts { slot, exit, ..f }), o.duration)
            &&& !events.contains(EventView::Started { task: name })
        }),
{
    run_ends_in_verdict(name, true, f, clock);
    first_stop_in(f.deps, 0);
}

/// The time that a task takes is counted from when its last dependency came in:
/// where everything from then on happens so much later, the outcome and the
/// events are the same.
pub proof fn waiting_is_not_counted(
    name: Seq<char>,
    use_cache: bool,
    f: Facts,
    clock: spec_fn(int) -> nat,
    late: spec_fn(int) -> nat,
    delay: nat,
)
    requires
        f.deps.len() > 0,
        forall|k: int| 0 <= k <= 6 ==> #[trigger] late(k) == clock(k) + delay,
    ensures
        ({
            let s = begun(name, f.deps.len() as int, use_cache);
            course(s, f, late) == course(s, f, clock)
        }),
{
    let s = begun(name, f.deps.len() as int, use_cache);
    waiting_uncounted(s, s, f, clock, late, delay, 0);
}

proof fn waiting_uncounted(
    s: RunView,
    t: RunView,
    f: Facts,
    clock: spec_fn(int) -> nat,
    late: spec_fn(int) -> nat,
    delay: nat,
    i: int,
)
    requires
        s.phase == PhaseView::Waiting(i),
        0 <= i < s.deps,
        s.deps == f.deps.len(),
        t == (RunView { ready: t.ready, ..s }),
        forall|k: int| 0 <= k <= 6 ==> #[trigger] late(k) == clock(k) + delay,
    ensures
        course(t, f, late) == course(s, f, clock),
    decreases f.deps.len() - i,
{
    if stops(f.deps[i]) {
        reveal_with_fuel(course, 2);
    } else {
        let s1 = advanced(s, answer(f, s), clock(remaining(s))).0;
        let t1 = advanced(t, answer(f, t), late(remaining(t))).0;
        if i + 1 < s.deps {
            waiting_uncounted(s1, t1, f, clock, late, delay, i + 1);
        } else {
            shifted_from_key(s1, t1, f, clock, late, delay);
        }
    }
}

proof fn shifted_from_key(
    s: RunView,
    t: RunView,
    f: Facts,
    clock: spec_fn(int) -> nat,
    late: spec_fn(int) -> nat,
    delay: nat,
)
    requires
        s.phase is DerivingKey,
        t == (RunView { ready: s.ready + delay, ..s }),
        forall|k: int| 0 <= k <= 6 ==> #[trigger] late(k) == clock(k) + delay,
    ensures
        course(t, f, late) == course(s, f, clock),
{
    reveal_with_fuel(course, 6);
    assert(late(5) == clock(5) + delay && late(4) == clock(4) + delay && late(3) == clock(3) + delay);
    assert(late(2) == clock(2) + delay && late(1) == clock(1) + delay);
}

/// A command is run only once there is a slot for it, and only where no valid
/// result was found.
pub proof fn runs_only_with_slot(s: RunView, signal: SignalView, elapsed: nat)
    requires
        advanced(s, signal, elapsed).0.phase is Running,
        !(s.phase is Running),
    ensures
        s.phase is Queued,
        signal is SlotGranted,
{
}

/// Without the cache, no run ever asks it, stores in it or ends with a cached
/// result.
pub proof fn cache_unused(s: RunView, signal: SignalView, elapsed: nat)
    requires
        !s.use_cache,
        !(s.phase is LookingUp) && !(s.phase is Storing),
        s.phase matches PhaseView::Done(o) ==> o.status != TaskStatus::Cached,
    ensures
        ({
            let next = advanced(s, signal, elapsed).0;
            &&& !next.use_cache
            &&& !(next.phase is LookingUp) && !(next.phase is Storing)
            &&& next.phase matches PhaseView::Done(o) ==> o.status != TaskStatus::Cached
        }),
{
}

/// What comes to a task from its dependencies.
pub open spec fn awaited(t: TaskView, outcomes: Map<Seq<char>, OutcomeView>) -> Seq<Option<OutcomeView>> {
    t.deps.map_values(|d: Seq<char>| if outcomes.contains_key(d) {
        Some(outcomes[d])
    } else {
        None
    })
}

/// The task `t` has run its course, its dependencies having the outcomes given.
pub open spec fn has_run(t: TaskView, use_cache: bool, outcomes: Map<Seq<char>, OutcomeView>, f: Facts) -> bool {
    &&& f.deps == awaited(t, outcomes)
    &&& outcomes.contains_key(t.name)
    &&& exists|clock: spec_fn(int) -> nat|
        outcomes[t.name] == (#[trigger] course(begun(t.name, t.deps.len() as int, use_cache), f, clock)).0
}

/// All tasks have run their course; the facts are those of the tasks in turn.
pub open spec fn all_ran(
    ts: Seq<TaskView>,
    use_cache: bool,
    outcomes: Map<Seq<char>, OutcomeView>,
    facts: Seq<Facts>,
) -> bool {
    &&& facts.len() == ts.len()
    &&& forall|i: int| 0 <= i < ts.len() ==> has_run(#[trigger] ts[i], use_cache, outcomes, facts[i])
}

/// The outcome of a task is the verdict on its facts.
pub proof fn outcome_is_verdict(t: TaskView, use_cache: bool, outcomes: Map<Seq<char>, OutcomeView>, f: Facts)
    requires
        has_run(t, use_cache, outcomes, f),
    ensures
        outcomes[t.name] == verdict(t.name, use_cache, f, outcomes[t.name].duration),
{
    let clock = choose|clock: spec_fn(int) -> nat|
        outcomes[t.name] == (#[trigger] course(begun(t.name, t.deps.len() as int, use_cache), f, clock)).0;
    run_ends_in_verdict(t.name, use_cache, f, clock);
}

proof fn declared_at(ts: Seq<TaskView>, x: Seq<char>) -> (i: int)
    requires
        declared(ts).contains(x),
    ensures
        0 <= i < ts.len(),
        ts[i].name == x,
{
    let i = choose|i: int| 0 <= i < declared(ts).len() && declared(ts)[i] == x;
    i
}

/// A task that depends on one that failed or was skipped is skipped.
pub proof fn failure_skips_dependents(
    ts: Seq<TaskView>,
    use_cache: bool,
    outcomes: Map<Seq<char>, OutcomeView>,
    facts: Seq<Facts>,
    x: Seq<char>,
    y: Seq<char>,
)
    requires
        is_dag(ts),
        all_ran(ts, use_cache, outcomes, facts),
        depends_on(ts, x, y),
        outcomes[y].status.blocks(),
    ensures
        outcomes[x].status == TaskStatus::Skipped,
{
    let i = choose|i: int| 0 <= i < ts.len() && (#[trigger] ts[i]).name == x && ts[i].deps.contains(y);
    let f = facts[i];
    assert(has_run(ts[i], use_cache, outcomes, f));
    dependency_declared(ts, x, y);
    let j = declared_at(ts, y);
    assert(has_run(ts[j], use_cache, outcomes, facts[j]));
    let k = choose|k: int| 0 <= k < ts[i].deps.len() && ts[i].deps[k] == y;
    assert(f.deps[k] == Some(outcomes[y]));
    first_stop_before(f.deps, k);
    outcome_is_verdict(ts[i], use_cache, outcomes, f);
}

/// A failure reaches every task that depends on it, directly or indirectly:
/// all of them are skipped.
pub proof fn failure_spreads(
    ts: Seq<TaskView>,
    use_cache: bool,
    outcomes: Map<Seq<char>, OutcomeView>,
    facts: Seq<Facts>,
    path: Seq<Seq<char>>,
)
    requires
        is_dag(ts),
        all_ran(ts, use_cache, outcomes, facts),
        path.len() >= 2,
        leads_to(ts, seq![path.first()], path, path.last()),
        outcomes[path.last()].status.blocks(),
    ensures
        forall|i: int| 0 <= i < path.len() - 1 ==> outcomes[#[trigger] path[i]].status == TaskStatus::Skipped,
{
    assert forall|i: int| 0 <= i < path.len() - 1 implies outcomes[#[trigger] path[i]].status == TaskStatus::Skipped by {
        failure_spreads_to(ts, use_cache, outcomes, facts, path, i);
    }
}

proof fn failure_spreads_to(
    ts: Seq<TaskView>,
    use_cache: bool,
    outcomes: Map<Seq<char>, OutcomeView>,
    facts: Seq<Facts>,
    path: Seq<Seq<char>>,
    i: int,
)
    requires
        is_dag(ts),
        all_ran(ts, use_cache, outcomes, facts),
        leads_to(ts, seq![path.first()], path, path.last()),
        outcomes[path.last()].status.blocks(),
        0 <= i < path.len() - 1,
    ensures
        outcomes[path[i]].status == TaskStatus::Skipped,
    decreases path.len() - i,
{
    if i + 1 < path.len() - 1 {
        failure_spreads_to(ts, use_cache, outcomes, facts, path, i + 1);
    }
    assert(depends_on(ts, path[i], path[i + 1]));
    failure_skips_dependents(ts, use_cache, outcomes, facts, path[i], path[i + 1]);
}

/// A task whose dependencies have all succeeded is not skipped; each of them
/// has a cache key, and these keys, in the order of the dependencies, go into
/// the key of the task.
pub proof fn success_lets_dependents_run(
    ts: Seq<TaskView>,
    use_cache: bool,
    outcomes: Map<Seq<char>, OutcomeView>,
    facts: Seq<Facts>,
    i: int,
)
    requires
        is_dag(ts),
        all_ran(ts, use_cache, outcomes, facts),
        0 <= i < ts.len(),
        forall|k: int| 0 <= k < ts[i].deps.len() ==> !outcomes[#[trigger] ts[i].deps[k]].status.blocks(),
    ensures
        outcomes[ts[i].name].status != TaskStatus::Skipped,
        forall|k: int| 0 <= k < ts[i].deps.len() ==> outcomes[#[trigger] ts[i].deps[k]].cache_key is Some,
        outcomes[ts[i].name].cache_key == match (facts[i].key)(
            ts[i].deps.map_values(|d: Seq<char>| outcomes[d].cache_key->0),
        ) {
            Ok(key) => Some(key),
            Err(_) => None,
        },
{
    let t = ts[i];
    let f = facts[i];
    assert(has_run(t, use_cache, outcomes, f));
    assert forall|k: int| 0 <= k < t.deps.len() implies #[trigger] f.deps[k] == Some(outcomes[t.deps[k]]) && outcomes[
        t.deps[k]].cache_key is Some by {
        let y = t.deps[k];
        assert(t.deps.contains(y));
        assert(depends_on(ts, t.name, y));
        dependency_declared(ts, t.name, y);
        let j = declared_at(ts, y);
        assert(has_run(ts[j], use_cache, outcomes, facts[j]));
        outcome_is_verdict(ts[j], use_cache, outcomes, facts[j]);
    }
    first_stop_in(f.deps, 0);
    assert forall|k: int| 0 <= k < t.deps.len() implies outcomes[#[trigger] t.deps[k]].cache_key is Some by {
        assert(f.deps[k] == Some(outcomes[t.deps[k]]));
    }
    keys_are(f.deps, t.deps, outcomes, t.deps.len() as int);
    assert(t.deps.take(t.deps.len() as int) =~= t.deps);
    outcome_is_verdict(t, use_cache, outcomes, f);
}

proof fn keys_are(
    deps: Seq<Option<OutcomeView>>,
    names: Seq<Seq<char>>,
    outcomes: Map<Seq<char>, OutcomeView>,
    n: int,
)
    requires
        deps.len() == names.len(),
        forall|k: int|
            0 <= k < names.len() ==> #[trigger] deps[k] == Some(outcomes[names[k]]) && outcomes[names[k]].cache_key is Some,
        0 <= n <= names.len(),
    ensures
        keys_of(deps, n) == names.take(n).map_values(|d: Seq<char>| outcomes[d].cache_key->0),
    decreases n,
{
    let pick = |d: Seq<char>| outcomes[d].cache_key->0;
    if n > 0 {
        keys_are(deps, names, outcomes, n - 1);
        assert(deps[n - 1] == Some(outcomes[names[n - 1]]));
        assert(names.take(n) =~= names.take(n - 1).push(names[n - 1]));
        assert(names.take(n).map_values(pick) =~= names.take(n - 1).map_values(pick).push(pick(names[n - 1])));
    } else {
        assert(keys_of(deps, n) =~= names.take(n).map_values(pick));
    }
}

/// A skipped task depends, directly or indirectly, on one that failed.
pub proof fn skipped_for_a_failure(
    ts: Seq<TaskView>,
    use_cache: bool,
    outcomes: Map<Seq<char>, OutcomeView>,
    facts: Seq<Facts>,
    x: Seq<char>,
)
    requires
        is_dag(ts),
        all_ran(ts, use_cache, outcomes, facts),
        declared(ts).contains(x),
        outcomes[x].status == TaskStatus::Skipped,
    ensures
        exists|path: Seq<Seq<char>>|
            {
                &&& #[trigger] leads_to(ts, seq![x], path, path.last())
                &&& path.len() >= 2
                &&& outcomes[path.last()].status == TaskStatus::Failed
            },
{
    orderable_iff_acyclic(ts);
    full_order_lists_all(ts);
    assert(build_order(ts).contains(x));
    let n = choose|n: int| 0 <= n < build_order(ts).len() && build_order(ts)[n] == x;
    skipped_at(ts, use_cache, outcomes, facts, n);
}

proof fn skipped_at(
    ts: Seq<TaskView>,
    use_cache: bool,
    outcomes: Map<Seq<char>, OutcomeView>,
    facts: Seq<Facts>,
    n: int,
)
    requires
        is_dag(ts),
        all_ran(ts, use_cache, outcomes, facts),
        0 <= n < build_order(ts).len(),
        outcomes[build_order(ts)[n]].status == TaskStatus::Skipped,
    ensures
        exists|path: Seq<Seq<char>>|
            {
                &&& #[trigger] leads_to(ts, seq![build_order(ts)[n]], path, path.last())
                &&& path.len() >= 2
                &&& outcomes[path.last()].status == TaskStatus::Failed
            },
    decreases n,
{
    let order = build_order(ts);
    let x = order[n];
    build_order_is_topological(ts);
    assert(declared(ts).contains(order[n]));
    let i = declared_at(ts, x);
    let f = facts[i];
    assert(has_run(ts[i], use_cache, outcomes, f));
    outcome_is_verdict(ts[i], use_cache, outcomes, f);
    first_stop_in(f.deps, 0);
    let k = first_stop(f.deps, 0);
    let y = ts[i].deps[k];
    assert(ts[i].deps.contains(y));
    assert(depends_on(ts, x, y));
    dependency_declared(ts, x, y);
    let j = declared_at(ts, y);
    assert(has_run(ts[j], use_cache, outcomes, facts[j]));
    assert(f.deps[k] == Some(outcomes[y]));
    assert(depends_on(ts, order[n], y));
    assert(order.take(n).contains(y));
    let m = choose|m: int| 0 <= m < order.take(n).len() && order.take(n)[m] == y;
    assert(order[m] == y);
    if outcomes[y].status == TaskStatus::Failed {
        let path = seq![x, y];
        assert(seq![x][0] == x);
        assert(leads_to(ts, seq![x], path, path.last()));
    } else {
        skipped_at(ts, use_cache, outcomes, facts, m);
        let rest = choose|path: Seq<Seq<char>>|
            {
                &&& #[trigger] leads_to(ts, seq![y], path, path.last())
                &&& path.len() >= 2
                &&& outcomes[path.last()].status == TaskStatus::Failed
            };
        let path = seq![x] + rest;
        assert(seq![x][0] == x);
        assert(rest.first() == y);
        assert(path.last() == rest.last());
        assert forall|p: int| 0 <= p < path.len() - 1 implies depends_on(ts, #[trigger] path[p], path[p + 1]) by {
            if p == 0 {
                assert(path[1] == rest[0]);
            } else {
                assert(path[p] == rest[p - 1]);
                assert(path[p + 1] == rest[p - 1 + 1]);
            }
        }
        assert(leads_to(ts, seq![x], path, path.last()));
    }
}

/// A run has a task that failed or was skipped exactly where it has one that
/// failed.
pub proof fn trouble_means_failure(
    ts: Seq<TaskView>,
    use_cache: bool,
    outcomes: Map<Seq<char>, OutcomeView>,
    facts: Seq<Facts>,
)
    requires
        is_dag(ts),
        all_ran(ts, use_cache, outcomes, facts),
    ensures
        (exists|x: Seq<char>| #[trigger] declared(ts).contains(x) && outcomes[x].status.blocks()) <==> (exists|
            x: Seq<char>,
        | #[trigger] declared(ts).contains(x) && outcomes[x].status == TaskStatus::Failed),
{
    if exists|x: Seq<char>| #[trigger] declared(ts).contains(x) && outcomes[x].status.blocks() {
        let x = choose|x: Seq<char>| #[trigger] declared(ts).contains(x) && outcomes[x].status.blocks();
        if outcomes[x].status == TaskStatus::Skipped {
            skipped_for_a_failure(ts, use_cache, outcomes, facts, x);
            let path = choose|path: Seq<Seq<char>>|
                {
                    &&& #[trigger] leads_to(ts, seq![x], path, path.last())
                    &&& path.len() >= 2
                    &&& outcomes[path.last()].status == TaskStatus::Failed
                };
            let n = path.len() - 2;
            assert(depends_on(ts, path[n], path[n + 1]));
            dependency_declared(ts, path[n], path[n + 1]);
            assert(declared(ts).contains(path.last()));
        }
    }
}

/// The outcomes differ in the time that they took at most.
pub open spec fn same_but_time(a: OutcomeView, b: OutcomeView) -> bool {
    a == OutcomeView { duration: a.duration, ..b }
}

/// Both come to the same, whatever the dependencies.
pub open spec fn same_world(f: Facts, g: Facts) -> bool {
    f.key == g.key && f.hit == g.hit && f.slot == g.slot && f.exit == g.exit
}

spec fn same_deps(a: Seq<Option<OutcomeView>>, b: Seq<Option<OutcomeView>>) -> bool {
    &&& a.len() == b.len()
    &&& forall|i: int| 0 <= i < a.len() ==> (#[trigger] a[i]) is Some && b[i] is Some && same_but_time(a[i]->0, b[i]->0)
}

proof fn same_first_stop(a: Seq<Option<OutcomeView>>, b: Seq<Option<OutcomeView>>, i: int)
    requires
        same_deps(a, b),
        0 <= i <= a.len(),
    ensures
        first_stop(a, i) == first_stop(b, i),
    decreases a.len() - i,
{
    if i < a.len() {
        assert(a[i] is Some);
        same_first_stop(a, b, i + 1);
    }
}

proof fn same_keys(a: Seq<Option<OutcomeView>>, b: Seq<Option<OutcomeView>>, n: int)
    requires
        same_deps(a, b),
        0 <= n <= a.len(),
    ensures
        keys_of(a, n) == keys_of(b, n),
    decreases n,
{
    if n > 0 {
        assert(a[n - 1] is Some);
        same_keys(a, b, n - 1);
    }
}

/// What comes of the tasks does not depend on the order in which they happen to
/// finish, nor on the time that they take: two runs for which the steps outside
/// come to the same have the same outcomes, but for the durations.
pub proof fn outcomes_independent_of_schedule(
    ts: Seq<TaskView>,
    use_cache: bool,
    outcomes: Map<Seq<char>, OutcomeView>,
    facts: Seq<Facts>,
    others: Map<Seq<char>, OutcomeView>,
    other_facts: Seq<Facts>,
)
    requires
        is_dag(ts),
        all_ran(ts, use_cache, outcomes, facts),
        all_ran(ts, use_cache, others, other_facts),
        forall|i: int| 0 <= i < ts.len() ==> same_world(#[trigger] facts[i], other_facts[i]),
    ensures
        forall|x: Seq<char>| #[trigger] declared(ts).contains(x) ==> same_but_time(outcomes[x], others[x]),
{
    orderable_iff_acyclic(ts);
    full_order_lists_all(ts);
    assert forall|x: Seq<char>| #[trigger] declared(ts).contains(x) implies same_but_time(outcomes[x], others[x]) by {
        assert(build_order(ts).contains(x));
        let n = choose|n: int| 0 <= n < build_order(ts).len() && build_order(ts)[n] == x;
        same_outcome_at(ts, use_cache, outcomes, facts, others, other_facts, n);
    }
}

proof fn same_outcome_at(
    ts: Seq<TaskView>,
    use_cache: bool,
    outcomes: Map<Seq<char>, OutcomeView>,
    facts: Seq<Facts>,
    others: Map<Seq<char>, OutcomeView>,
    other_facts: Seq<Facts>,
    n: int,
)
    requires
        is_dag(ts),
        all_ran(ts, use_cache, outcomes, facts),
        all_ran(ts, use_cache, others, other_facts),
        forall|i: int| 0 <= i < ts.len() ==> same_world(#[trigger] facts[i], other_facts[i]),
        0 <= n < build_order(ts).len(),
    ensures
        same_but_time(outcomes[build_order(ts)[n]], others[build_order(ts)[n]]),
    decreases n,
{
    let order = build_order(ts);
    let x = order[n];
    build_order_is_topological(ts);
    assert(declared(ts).contains(order[n]));
    let i = declared_at(ts, x);
    let (f, g) = (facts[i], other_facts[i]);
    assert(same_world(f, g));
    assert(has_run(ts[i], use_cache, outcomes, f));
    assert(has_run(ts[i], use_cache, others, g));
    outcome_is_verdict(ts[i], use_cache, outcomes, f);
    outcome_is_verdict(ts[i], use_cache, others, g);
    assert forall|k: int| 0 <= k < f.deps.len() implies (#[trigger] f.deps[k]) is Some && g.deps[k] is Some
        && same_but_time(f.deps[k]->0, g.deps[k]->0) by {
        let y = ts[i].deps[k];
        assert(ts[i].deps.contains(y));
        assert(depends_on(ts, order[n], y));
        assert(order.take(n).contains(y));
        let m = choose|m: int| 0 <= m < order.take(n).len() && order.take(n)[m] == y;
        assert(order[m] == y);
        same_outcome_at(ts, use_cache, outcomes, facts, others, other_facts, m);
        dependency_declared(ts, x, y);
        let j = declared_at(ts, y);
        assert(has_run(ts[j], use_cache, outcomes, facts[j]));
        assert(has_run(ts[j], use_cache, others, other_facts[j]));
    }
    same_first_stop(f.deps, g.deps, 0);
    same_keys(f.deps, g.deps, f.deps.len() as int);
    first_stop_in(f.deps, 0);
}

/// The facts of a task in the world `w` when its dependencies have the outcomes
/// given.
pub open spec fn facts_in(w: Facts, t: TaskView, outcomes: Map<Seq<char>, OutcomeView>) -> Facts {
    Facts { deps: awaited(t, outcomes), ..w }
}

/// The facts of all tasks, in turn.
pub open spec fn all_facts_in(
    worlds: Seq<Facts>,
    ts: Seq<TaskView>,
    outcomes: Map<Seq<char>, OutcomeView>,
) -> Seq<Facts> {
    Seq::new(ts.len(), |i: int| facts_in(worlds[i], ts[i], outcomes))
}

/// The outcomes of the first `n` tasks of the build order, one after another.
spec fn run_through(
    ts: Seq<TaskView>,
    use_cache: bool,
    worlds: Seq<Facts>,
    clock: spec_fn(int) -> nat,
    n: int,
) -> Map<Seq<char>, OutcomeView>
    decreases n,
{
    if n <= 0 {
        Map::empty()
    } else {
        let before = run_through(ts, use_cache, worlds, clock, n - 1);
        let x = build_order(ts)[n - 1];
        let i = declared(ts).index_of(x);
        let f = facts_in(worlds[i], ts[i], before);
        before.insert(x, course(begun(x, ts[i].deps.len() as int, use_cache), f, clock).0)
    }
}

proof fn run_through_keeps(
    ts: Seq<TaskView>,
    use_cache: bool,
    worlds: Seq<Facts>,
    clock: spec_fn(int) -> nat,
    m: int,
    n: int,
)
    requires
        build_order(ts).no_duplicates(),
        0 <= m <= n <= build_order(ts).len(),
    ensures
        forall|k: int|
            0 <= k < m ==> {
                &&& run_through(ts, use_cache, worlds, clock, m).contains_key(#[trigger] build_order(ts)[k])
                &&& run_through(ts, use_cache, worlds, clock, n).contains_key(build_order(ts)[k])
                &&& run_through(ts, use_cache, worlds, clock, n)[build_order(ts)[k]] == run_through(
                    ts,
                    use_cache,
                    worlds,
                    clock,
                    m,
                )[build_order(ts)[k]]
            },
    decreases m, n,
{
    if n > m {
        run_through_keeps(ts, use_cache, worlds, clock, m, n - 1);
    } else if m > 0 {
        run_through_keeps(ts, use_cache, worlds, clock, m - 1, m);
    }
}

/// Every graph can be run to its end: whatever the steps outside come to, there
/// are outcomes for all tasks with which every task has run its course.
pub proof fn every_graph_runs(ts: Seq<TaskView>, use_cache: bool, worlds: Seq<Facts>, clock: spec_fn(int) -> nat)
    requires
        is_dag(ts),
        worlds.len() == ts.len(),
    ensures
        exists|outcomes: Map<Seq<char>, OutcomeView>|
            #[trigger] all_ran(ts, use_cache, outcomes, all_facts_in(worlds, ts, outcomes)),
{
    let order = build_order(ts);
    orderable_iff_acyclic(ts);
    full_order_lists_all(ts);
    build_order_is_topological(ts);
    let last = order.len() as int;
    let outcomes = run_through(ts, use_cache, worlds, clock, last);
    let facts = all_facts_in(worlds, ts, outcomes);
    assert forall|i: int| 0 <= i < ts.len() implies has_run(#[trigger] ts[i], use_cache, outcomes, facts[i]) by {
        let t = ts[i];
        assert(declared(ts)[i] == t.name);
        assert(declared(ts).contains(t.name));
        assert(order.contains(t.name));
        let n = choose|n: int| 0 <= n < order.len() && order[n] == t.name;
        let before = run_through(ts, use_cache, worlds, clock, n);
        run_through_keeps(ts, use_cache, worlds, clock, n, last);
        run_through_keeps(ts, use_cache, worlds, clock, n + 1, last);
        assert(awaited(t, before) =~= awaited(t, outcomes)) by {
            assert forall|k: int| 0 <= k < t.deps.len() implies awaited(t, before)[k] == awaited(t, outcomes)[k] by {
                let y = t.deps[k];
                assert(t.deps.contains(y));
                assert(depends_on(ts, order[n], y));
                assert(order.take(n).contains(y));
                let m = choose|m: int| 0 <= m < order.take(n).len() && order.take(n)[m] == y;
                assert(order[m] == y);
                assert(before.contains_key(order[m]));
            }
        }
        assert(declared(ts).index_of(t.name) == i);
        assert(outcomes[order[n]] == course(begun(t.name, t.deps.len() as int, use_cache), facts[i], clock).0);
    }
    assert(all_ran(ts, use_cache, outcomes, facts));
}

/// The keys under which a run gives a result to the cache, in turn.
pub open spec fn stored(s: RunView, f: Facts, clock: spec_fn(int) -> nat) -> Seq<Seq<char>>
    decreases remaining(s),
{
    match action_in(s.phase) {
        ActionView::Finish(_) => Seq::empty(),
        action => {
            let next = advanced(s, answer(f, s), clock(remaining(s))).0;
            match action {
                ActionView::Store(key) => seq![key] + stored(next, f, clock),
                _ => stored(next, f, clock),
            }
        },
    }
}

proof fn stored_from_key(s: RunView, f: Facts, clock: spec_fn(int) -> nat)
    requires
        s.phase is DerivingKey,
    ensures
        ({
            let o = course(s, f, clock).0;
            stored(s, f, clock) == if s.use_cache && o.status == TaskStatus::Success {
                seq![o.cache_key->0]
            } else {
                Seq::empty()
            }
        }),
{
    reveal_with_fuel(course, 6);
    reveal_with_fuel(stored, 6);
    let o = course(s, f, clock).0;
    if s.use_cache && o.status == TaskStatus::Success {
        assert(stored(s, f, clock) =~= seq![o.cache_key->0]);
    }
}

proof fn stored_from_waiting(s: RunView, f: Facts, clock: spec_fn(int) -> nat, i: int)
    requires
        s.phase == PhaseView::Waiting(i),
        0 <= i < s.deps,
        s.deps == f.deps.len(),
    ensures
        ({
            let o = course(s, f, clock).0;
            stored(s, f, clock) == if s.use_cache && o.status == TaskStatus::Success {
                seq![o.cache_key->0]
            } else {
                Seq::empty()
            }
        }),
    decreases f.deps.len() - i,
{
    let next = advanced(s, answer(f, s), clock(remaining(s))).0;
    if stops(f.deps[i]) {
        reveal_with_fuel(course, 2);
        reveal_with_fuel(stored, 2);
    } else if i + 1 < s.deps {
        stored_from_waiting(next, f, clock, i + 1);
    } else {
        stored_from_key(next, f, clock);
    }
}

/// Where the cache is used, a run that succeeds gives its result to it once,
/// under the key of its outcome; no other run gives it anything.
pub proof fn success_is_stored(name: Seq<char>, use_cache: bool, f: Facts, clock: spec_fn(int) -> nat)
    ensures
        ({
            let s = begun(name, f.deps.len() as int, use_cache);
            let o = course(s, f, clock).0;
            stored(s, f, clock) == if use_cache && o.status == TaskStatus::Success {
                seq![o.cache_key->0]
            } else {
                Seq::empty()
            }
        }),
{
    let s = begun(name, f.deps.len() as int, use_cache);
    if f.deps.len() > 0 {
        stored_from_waiting(s, f, clock, 0);
    } else {
        stored_from_key(s, f, clock);
    }
}

/// A repeated run is cached: where the first run had no failure, the keys are
/// derived as before and the cache holds those of the first run, every task of
/// the second ends as cached, under the key that it had, and is reported so.
pub proof fn repeated_run_is_cached(
    ts: Seq<TaskView>,
    first_cached: bool,
    outcomes: Map<Seq<char>, OutcomeView>,
    facts: Seq<Facts>,
    again: Map<Seq<char>, OutcomeView>,
    again_facts: Seq<Facts>,
    cache: Set<Seq<char>>,
    i: int,
)
    requires
        is_dag(ts),
        all_ran(ts, first_cached, outcomes, facts),
        all_ran(ts, true, again, again_facts),
        forall|x: Seq<char>| #[trigger] declared(ts).contains(x) ==> !outcomes[x].status.blocks(),
        forall|x: Seq<char>|
            #[trigger] declared(ts).contains(x) && outcomes[x].cache_key is Some ==> cache.contains(
                outcomes[x].cache_key->0,
            ),
        forall|k: int| 0 <= k < ts.len() ==> (#[trigger] again_facts[k]).key == facts[k].key,
        forall|k: int|
            0 <= k < ts.len() ==> {
                let f = #[trigger] again_facts[k];
                (f.key)(keys_of(f.deps, f.deps.len() as int)) matches Ok(key) && cache.contains(key) ==> f.hit
            },
        0 <= i < ts.len(),
    ensures
        ({
            let x = ts[i].name;
            &&& again[x].status == TaskStatus::Cached
            &&& again[x].cache_key is Some
            &&& again[x].cache_key == outcomes[x].cache_key
            &&& announced(again_facts[i], again[x]) == seq![EventView::Cached { task: x, key: again[x].cache_key->0 }]
        }),
{
    orderable_iff_acyclic(ts);
    full_order_lists_all(ts);
    let x = ts[i].name;
    assert(declared(ts)[i] == x);
    assert(declared(ts).contains(x));
    assert(build_order(ts).contains(x));
    let n = choose|n: int| 0 <= n < build_order(ts).len() && build_order(ts)[n] == x;
    cached_at(ts, first_cached, outcomes, facts, again, again_facts, cache, n);
    assert(has_run(ts[i], true, again, again_facts[i]));
    outcome_is_verdict(ts[i], true, again, again_facts[i]);
}

proof fn cached_at(
    ts: Seq<TaskView>,
    first_cached: bool,
    outcomes: Map<Seq<char>, OutcomeView>,
    facts: Seq<Facts>,
    again: Map<Seq<char>, OutcomeView>,
    again_facts: Seq<Facts>,
    cache: Set<Seq<char>>,
    n: int,
)
    requires
        is_dag(ts),
        all_ran(ts, first_cached, outcomes, facts),
        all_ran(ts, true, again, again_facts),
        forall|x: Seq<char>| #[trigger] declared(ts).contains(x) ==> !outcomes[x].status.blocks(),
        forall|x: Seq<char>|
            #[trigger] declared(ts).contains(x) && outcomes[x].cache_key is Some ==> cache.contains(
                outcomes[x].cache_key->0,
            ),
        forall|k: int| 0 <= k < ts.len() ==> (#[trigger] again_facts[k]).key == facts[k].key,
        forall|k: int|
            0 <= k < ts.len() ==> {
                let f = #[trigger] again_facts[k];
                (f.key)(keys_of(f.deps, f.deps.len() as int)) matches Ok(key) && cache.contains(key) ==> f.hit
            },
        0 <= n < build_order(ts).len(),
    ensures
        ({
            let x = build_order(ts)[n];
            &&& again[x].status == TaskStatus::Cached
            &&& again[x].cache_key is Some
            &&& again[x].cache_key == outcomes[x].cache_key
        }),
    decreases n,
{
    let order = build_order(ts);
    let x = order[n];
    build_order_is_topological(ts);
    assert(declared(ts).contains(order[n]));
    let i = declared_at(ts, x);
    let t = ts[i];
    let (f, g) = (facts[i], again_facts[i]);
    assert(g.key == f.key);
    assert(has_run(t, first_cached, outcomes, f));
    assert(has_run(t, true, again, g));
    outcome_is_verdict(t, first_cached, outcomes, f);
    outcome_is_verdict(t, true, again, g);
    assert forall|k: int| 0 <= k < t.deps.len() implies {
        &&& #[trigger] f.deps[k] == Some(outcomes[t.deps[k]])
        &&& g.deps[k] == Some(again[t.deps[k]])
        &&& again[t.deps[k]].status == TaskStatus::Cached
        &&& again[t.deps[k]].cache_key is Some
        &&& again[t.deps[k]].cache_key == outcomes[t.deps[k]].cache_key
    } by {
        let y = t.deps[k];
        assert(t.deps.contains(y));
        assert(depends_on(ts, order[n], y));
        assert(order.take(n).contains(y));
        let m = choose|m: int| 0 <= m < order.take(n).len() && order.take(n)[m] == y;
        assert(order[m] == y);
        cached_at(ts, first_cached, outcomes, facts, again, again_facts, cache, m);
        dependency_declared(ts, x, y);
        let j = declared_at(ts, y);
        assert(has_run(ts[j], first_cached, outcomes, facts[j]));
        assert(has_run(ts[j], true, again, again_facts[j]));
    }
    first_stop_in(g.deps, 0);
    if first_stop(g.deps, 0) < g.deps.len() {
        assert(f.deps[first_stop(g.deps, 0)] is Some);
    }
    keys_are(f.deps, t.deps, outcomes, t.deps.len() as int);
    assert forall|k: int| 0 <= k < t.deps.len() implies #[trigger] g.deps[k] == Some(again[t.deps[k]])
        && again[t.deps[k]].cache_key is Some by {
        assert(f.deps[k] == Some(outcomes[t.deps[k]]));
    }
    keys_are(g.deps, t.deps, again, t.deps.len() as int);
    let last = t.deps.len() as int;
    assert(keys_of(f.deps, last) =~= keys_of(g.deps, last)) by {
        assert(t.deps.take(last) =~= t.deps);
        assert forall|k: int| 0 <= k < last implies keys_of(f.deps, last)[k] == keys_of(g.deps, last)[k] by {
            assert(f.deps[k] == Some(outcomes[t.deps[k]]));
        }
    }
}

} // verus!
