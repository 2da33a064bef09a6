//! What the steps of a run come to, case by case.

use vstd::prelude::*;

use crate::executor::{EventView, OutcomeView};
use crate::run::{action_in, advanced, begun, ActionView, PhaseView, RunView, SignalView};
use crate::run_laws::{
    answer, course, first_stop, first_stop_in, keys_of, remaining, run_ends_in_verdict, stops, Facts,
};
use crate::text::signed_decimal;

verus! {

/// A step that is asked for comes to what the facts say.
pub proof fn answers_are_the_facts(f: Facts, s: RunView)
    ensures
        s.phase matches PhaseView::Waiting(i) ==> match f.deps[i] {
            Some(o) => answer(f, s) matches SignalView::DependencyDone(x) && x == o,
            None => answer(f, s) is DependencyLost,
        },
        s.phase is DerivingKey ==> match (f.key)(s.dep_keys) {
            Ok(k) => answer(f, s) matches SignalView::KeyDerived(x) && x == k,
            Err(e) => answer(f, s) matches SignalView::KeyFailed(x) && x == e,
        },
        s.phase is LookingUp ==> if f.hit {
            answer(f, s) is CacheHit
        } else {
            answer(f, s) is CacheMiss
        },
        s.phase is Queued ==> if f.slot {
            answer(f, s) is SlotGranted
        } else {
            answer(f, s) is SlotRefused
        },
        s.phase is Running ==> match f.exit {
            Ok(c) => answer(f, s) matches SignalView::CommandExited(x) && x == c,
            Err(e) => answer(f, s) matches SignalView::CommandFailed(x) && x == e,
        },
        s.phase is Storing ==> answer(f, s) is ResultStored,
{
}

/// Each phase asks for its own step: the dependency that it waits for, the
/// lookup or the storing of the key that was derived, the outcome once there is
/// one.
pub proof fn each_phase_asks_for_its_step(phase: PhaseView)
    ensures
        phase matches PhaseView::Waiting(i) ==> action_in(phase) == ActionView::AwaitDependency(i),
        phase is DerivingKey <==> action_in(phase) is DeriveKey,
        phase matches PhaseView::LookingUp(k) ==> action_in(phase) == ActionView::LookUp(k),
        phase is Queued <==> action_in(phase) is AwaitSlot,
        phase is Running <==> action_in(phase) is RunCommand,
        phase matches PhaseView::Storing(k) ==> action_in(phase) == ActionView::Store(k),
        phase matches PhaseView::Done(o) ==> action_in(phase) == ActionView::Finish(o),
{
}

/// A run begins with its first dependency, or with its key where it has none;
/// nothing has come in yet.
pub proof fn a_run_begins_with_its_dependencies(name: Seq<char>, deps: int, use_cache: bool)
    ensures
        ({
            let s = begun(name, deps, use_cache);
            &&& s.name == name && s.deps == deps && s.use_cache == use_cache
            &&& s.dep_keys.len() == 0 && s.ready == 0
            &&& deps > 0 ==> s.phase == PhaseView::Waiting(0)
            &&& deps <= 0 ==> s.phase is DerivingKey
        }),
{
}

/// A signal that the run did not ask for changes nothing and is not reported.
pub proof fn out_of_turn_changes_nothing(s: RunView, signal: SignalView, elapsed: nat)
    requires
        s.phase is Waiting ==> !(signal is DependencyLost || signal is DependencyDone),
        s.phase is DerivingKey ==> !(signal is KeyDerived || signal is KeyFailed),
        s.phase is LookingUp ==> !(signal is CacheHit || signal is CacheMiss),
        s.phase is Queued ==> !(signal is SlotGranted || signal is SlotRefused),
        s.phase is Running ==> !(signal is CommandExited || signal is CommandFailed),
        s.phase is Storing ==> !(signal is ResultStored),
    ensures
        advanced(s, signal, elapsed).0 == s,
        advanced(s, signal, elapsed).1 is None,
{
}

/// A dependency that succeeded or was cached hands its key on, if it has one;
/// the run goes on to the next, or to its own key after the last, and nothing is
/// reported.
pub proof fn a_dependency_hands_its_key_on(s: RunView, i: int, o: OutcomeView, elapsed: nat)
    requires
        s.phase == PhaseView::Waiting(i),
        o.status is Success || o.status is Cached,
    ensures
        ({
            let (next, event) = advanced(s, SignalView::DependencyDone(o), elapsed);
            &&& event is None
            &&& next.name == s.name && next.deps == s.deps && next.use_cache == s.use_cache
            &&& next.ready == elapsed
            &&& o.cache_key matches Some(k) ==> next.dep_keys == s.dep_keys.push(k)
            &&& o.cache_key is None ==> next.dep_keys == s.dep_keys
            &&& i + 1 < s.deps ==> next.phase == PhaseView::Waiting(i + 1)
            &&& i + 1 >= s.deps ==> next.phase is DerivingKey
        }),
{
}

/// A step that does not end a run changes neither its name nor what it is set
/// to do.
pub proof fn a_run_keeps_its_settings(s: RunView, signal: SignalView, elapsed: nat)
    ensures
        ({
            let next = advanced(s, signal, elapsed).0;
            &&& next.name == s.name && next.deps == s.deps && next.use_cache == s.use_cache
            &&& !(s.phase is Waiting) ==> next.dep_keys == s.dep_keys && next.ready == s.ready
            &&& s.phase is Done ==> next == s
            &&& next.phase is Done && !(s.phase is Done) ==> (next.phase matches PhaseView::Done(o) && o.name == s.name)
        }),
{
}

proof fn first_stop_is(deps: Seq<Option<OutcomeView>>, i: int)
    requires
        0 <= i <= deps.len(),
        i < deps.len() ==> stops(deps[i]),
        forall|j: int| 0 <= j < i ==> !stops(#[trigger] deps[j]),
    ensures
        first_stop(deps, 0) == i,
{
    first_stop_in(deps, 0);
}

/// The first dependency that failed or was skipped has the task skipped: it
/// says which it was, takes no time, runs nothing and has no key.
pub proof fn skipped_for_the_first_failure(
    name: Seq<char>,
    use_cache: bool,
    f: Facts,
    clock: spec_fn(int) -> nat,
    i: int,
    upstream: OutcomeView,
)
    requires
        0 <= i < f.deps.len(),
        f.deps[i] == Some(upstream),
        upstream.status is Failed || upstream.status is Skipped,
        forall|j: int|
            0 <= j < i ==> ((#[trigger] f.deps[j]) matches Some(o) && (o.status is Success || o.status is Cached)),
    ensures
        ({
            let (o, events) = course(begun(name, f.deps.len() as int, use_cache), f, clock);
            &&& o.name == name
            &&& o.status is Skipped
            &&& o.cache_key is None && o.exit_code is None && o.duration == 0
            &&& o.error == Some("upstream `"@ + upstream.name + "` failed"@)
            &&& events == seq![EventView::Skipped { task: name, upstream: upstream.name }]
        }),
{
    first_stop_is(f.deps, i);
    run_ends_in_verdict(name, use_cache, f, clock);
}

/// A dependency that is lost has the task skipped in silence, where none before
/// it failed.
pub proof fn skipped_for_a_lost_dependency(
    name: Seq<char>,
    use_cache: bool,
    f: Facts,
    clock: spec_fn(int) -> nat,
    i: int,
)
    requires
        0 <= i < f.deps.len(),
        f.deps[i] is None,
        forall|j: int|
            0 <= j < i ==> ((#[trigger] f.deps[j]) matches Some(o) && (o.status is Success || o.status is Cached)),
    ensures
        ({
            let (o, events) = course(begun(name, f.deps.len() as int, use_cache), f, clock);
            &&& o.name == name
            &&& o.status is Skipped
            &&& o.cache_key is None && o.exit_code is None && o.duration == 0
            &&& o.error == Some("upstream dep channel closed"@)
            &&& events.len() == 0
        }),
{
    first_stop_is(f.deps, i);
    run_ends_in_verdict(name, use_cache, f, clock);
}

proof fn keys_in_turn(deps: Seq<Option<OutcomeView>>, n: int)
    requires
        0 <= n <= deps.len(),
        forall|j: int| 0 <= j < n ==> (#[trigger] deps[j]) is Some,
    ensures
        keys_of(deps, n) == deps.take(n).filter(|d: Option<OutcomeView>| d->0.cache_key is Some).map_values(
            |d: Option<OutcomeView>| d->0.cache_key->0,
        ),
    decreases n,
{
    let keyed = |d: Option<OutcomeView>| d->0.cache_key is Some;
    let key = |d: Option<OutcomeView>| d->0.cache_key->0;
    reveal(Seq::filter);
    if n > 0 {
        keys_in_turn(deps, n - 1);
        assert(deps[n - 1] is Some);
        let front = deps.take(n - 1).filter(keyed);
        assert(deps.take(n).drop_last() =~= deps.take(n - 1));
        assert(deps.take(n).last() == deps[n - 1]);
        if keyed(deps[n - 1]) {
            assert(front.push(deps[n - 1]).map_values(key) =~= front.map_values(key).push(key(deps[n - 1])));
        }
    } else {
        assert(keys_of(deps, n) =~= deps.take(n).filter(keyed).map_values(key));
    }
}

/// The step, counted by those left, at which a run ends that has its
/// dependencies.
spec fn last_step(use_cache: bool, f: Facts, key: Result<Seq<char>, Seq<char>>) -> int {
    if key is Err {
        5
    } else if use_cache && f.hit {
        4
    } else if !f.slot {
        3
    } else if use_cache && f.exit == Ok::<i32, Seq<char>>(0i32) {
        1
    } else {
        2
    }
}

proof fn time_from_key(s: RunView, f: Facts, clock: spec_fn(int) -> nat)
    requires
        s.phase is DerivingKey,
    ensures
        ({
            let end = clock(last_step(s.use_cache, f, (f.key)(s.dep_keys)));
            course(s, f, clock).0.duration == if s.ready <= end {
                end - s.ready
            } else {
                0
            }
        }),
{
    reveal_with_fuel(course, 6);
}

proof fn time_from_waiting(s: RunView, f: Facts, clock: spec_fn(int) -> nat, i: int)
    requires
        s.phase == PhaseView::Waiting(i),
        0 <= i < s.deps,
        s.deps == f.deps.len(),
        s.dep_keys == keys_of(f.deps, i),
        forall|j: int| 0 <= j < f.deps.len() ==> !stops(#[trigger] f.deps[j]),
    ensures
        ({
            let end = clock(last_step(s.use_cache, f, (f.key)(keys_of(f.deps, f.deps.len() as int))));
            course(s, f, clock).0.duration == if clock(6) <= end {
                end - clock(6)
            } else {
                0
            }
        }),
    decreases f.deps.len() - i,
{
    assert(!stops(f.deps[i]));
    let next = advanced(s, answer(f, s), clock(remaining(s))).0;
    assert(next.dep_keys =~= keys_of(f.deps, i + 1));
    if i + 1 < s.deps {
        time_from_waiting(next, f, clock, i + 1);
    } else {
        time_from_key(next, f, clock);
    }
}

/// Where all dependencies succeeded or were cached, the keys that they have, in
/// their order, decide on the key of the task. Without a key it fails.
/// A cached result ends it; else it is started, and fails without a slot, with
/// any exit code but zero and with a command that cannot be run. The time that
/// it takes is counted from when the last dependency came in (when six steps
/// were left), or from the beginning.
pub proof fn outcome_of_a_task_that_may_run(
    name: Seq<char>,
    use_cache: bool,
    f: Facts,
    clock: spec_fn(int) -> nat,
    key: Seq<char>,
    why: Seq<char>,
    code: i32,
)
    requires
        forall|j: int|
            0 <= j < f.deps.len() ==> ((#[trigger] f.deps[j]) matches Some(o) && (o.status is Success || o.status
                is Cached)),
    ensures
        ({
            let (o, events) = course(begun(name, f.deps.len() as int, use_cache), f, clock);
            let derived = (f.key)(
                f.deps.filter(|d: Option<OutcomeView>| d->0.cache_key is Some).map_values(
                    |d: Option<OutcomeView>| d->0.cache_key->0,
                ),
            );
            let from = if f.deps.len() == 0 {
                0
            } else {
                clock(6)
            };
            let took = |step: int|
                if from <= clock(step) {
                    clock(step) - from
                } else {
                    0
                };
            let started = EventView::Started { task: name };
            let run = derived == Ok::<Seq<char>, Seq<char>>(key) && !(use_cache && f.hit);
            &&& o.name == name
            &&& derived == Err::<Seq<char>, Seq<char>>(why) ==> {
                &&& o.status is Failed && o.cache_key is None && o.exit_code is None && o.duration == took(5)
                &&& o.error == Some("cache key derivation failed: "@ + why)
                &&& events == seq![EventView::Failed { task: name, exit_code: None, message: o.error->0 }]
            }
            &&& derived == Ok::<Seq<char>, Seq<char>>(key) && use_cache && f.hit ==> {
                &&& o.status is Cached && o.cache_key == Some(key) && o.exit_code is None && o.duration == took(4)
                &&& o.error is None
                &&& events == seq![EventView::Cached { task: name, key }]
            }
            &&& run && !f.slot ==> {
                &&& o.status is Failed && o.cache_key == Some(key) && o.exit_code is None && o.duration == took(3)
                &&& o.error == Some("semaphore closed"@)
                &&& events == seq![started, EventView::Failed { task: name, exit_code: None, message: o.error->0 }]
            }
            &&& run && f.slot && f.exit == Ok::<i32, Seq<char>>(0i32) ==> {
                &&& o.status is Success && o.cache_key == Some(key) && o.exit_code == Some(0i32)
                &&& o.duration == took(
                    if use_cache {
                        1
                    } else {
                        2
                    },
                )
                &&& o.error is None
                &&& events == seq![started, EventView::Finished { task: name, duration: o.duration }]
            }
            &&& run && f.slot && code != 0 && f.exit == Ok::<i32, Seq<char>>(code) ==> {
                &&& o.status is Failed && o.cache_key == Some(key) && o.exit_code == Some(code) && o.duration == took(2)
                &&& o.error == Some("exit code "@ + signed_decimal(code as int))
                &&& events == seq![
                    started,
                    EventView::Failed { task: name, exit_code: Some(code), message: o.error->0 },
                ]
            }
            &&& run && f.slot && f.exit == Err::<i32, Seq<char>>(why) ==> {
                &&& o.status is Failed && o.cache_key == Some(key) && o.exit_code is None && o.duration == took(2)
                &&& o.error == Some(why)
                &&& events == seq![started, EventView::Failed { task: name, exit_code: None, message: why }]
            }
        }),
{
    let n = f.deps.len() as int;
    let s = begun(name, n, use_cache);
    assert forall|j: int| 0 <= j < n implies !stops(#[trigger] f.deps[j]) by {
        assert(f.deps[j] is Some);
    }
    first_stop_is(f.deps, n);
    keys_in_turn(f.deps, n);
    assert(f.deps.take(n) =~= f.deps);
    run_ends_in_verdict(name, use_cache, f, clock);
    if n > 0 {
        time_from_waiting(s, f, clock, 0);
    } else {
        assert(s.dep_keys =~= keys_of(f.deps, 0));
        time_from_key(s, f, clock);
    }
}

} // verus!
