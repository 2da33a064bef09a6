//! How many commands run at a time.
//!
//! The runs of all tasks move on by and by, each when a signal comes in for it.
//! A run that is granted a slot holds it until it ends; slots are granted only
//! as long as fewer are held than commands may run.

use vstd::prelude::*;

use crate::dag::is_dag;
use crate::executor::{permitted, TaskStatus};
use crate::graph::{build_order, declared, depends_on};
use crate::graph_laws::{build_order_is_topological, full_order_lists_all, orderable_iff_acyclic};
use crate::run::{advanced, begun, PhaseView, RunView, SignalView};
use crate::run_laws::{answer, remaining, Facts};
use crate::select::dependency_declared;
use crate::task::TaskView;

verus! {

/// A signal that comes in for one of the runs, so many nanoseconds after these
/// began.
pub struct Move {
    pub run: int,
    pub signal: SignalView,
    pub elapsed: nat,
}

/// The runs after one more move.
pub open spec fn moved(runs: Seq<RunView>, m: Move) -> Seq<RunView> {
    if 0 <= m.run < runs.len() {
        runs.update(m.run, advanced(runs[m.run], m.signal, m.elapsed).0)
    } else {
        runs
    }
}

/// The runs after the first `n` moves.
pub open spec fn after(runs: Seq<RunView>, moves: Seq<Move>, n: int) -> Seq<RunView>
    decreases n,
{
    if n <= 0 {
        runs
    } else {
        moved(after(runs, moves, n - 1), moves[n - 1])
    }
}

/// The run has been granted a slot and has not ended.
pub open spec fn holds_slot(s: RunView) -> bool {
    s.phase is Running || s.phase is Storing
}

/// The command of the run is running.
pub open spec fn runs_command(s: RunView) -> bool {
    s.phase is Running
}

/// How many of the runs are as said.
pub open spec fn count_of(runs: Seq<RunView>, pred: spec_fn(RunView) -> bool) -> nat
    decreases runs.len(),
{
    if runs.len() == 0 {
        0
    } else {
        count_of(runs.drop_last(), pred) + if pred(runs.last()) {
            1nat
        } else {
            0
        }
    }
}

/// How many slots are held.
pub open spec fn slots_held(runs: Seq<RunView>) -> nat {
    count_of(runs, |s: RunView| holds_slot(s))
}

/// How many commands are running.
pub open spec fn commands_running(runs: Seq<RunView>) -> nat {
    count_of(runs, |s: RunView| runs_command(s))
}

/// All runs are at their beginning.
pub open spec fn all_begun(runs: Seq<RunView>) -> bool {
    forall|i: int|
        0 <= i < runs.len() ==> #[trigger] runs[i] == begun(runs[i].name, runs[i].deps, runs[i].use_cache) && runs[i].deps
            >= 0
}

/// A slot is granted only while fewer are held than commands may run.
pub open spec fn grants_within(runs: Seq<RunView>, moves: Seq<Move>, concurrency: usize) -> bool {
    forall|n: int|
        0 <= n < moves.len() && (#[trigger] moves[n]).signal is SlotGranted ==> slots_held(after(runs, moves, n))
            < permitted(concurrency)
}

/// A run comes to hold a slot only by a grant, and gives it back only by ending:
/// from its command it goes on to store the result, or ends; from there it ends.
pub proof fn slot_held_to_the_end(s: RunView, signal: SignalView, elapsed: nat)
    ensures
        ({
            let next = advanced(s, signal, elapsed).0;
            &&& !holds_slot(s) && holds_slot(next) ==> s.phase is Queued && signal is SlotGranted && runs_command(next)
            &&& runs_command(s) ==> runs_command(next) || next.phase is Storing || next.phase is Done
            &&& s.phase is Storing ==> next.phase is Storing || next.phase is Done
            &&& !runs_command(s) && runs_command(next) ==> s.phase is Queued && signal is SlotGranted
        }),
{
}

proof fn count_updated(runs: Seq<RunView>, pred: spec_fn(RunView) -> bool, i: int, s: RunView)
    requires
        0 <= i < runs.len(),
    ensures
        count_of(runs.update(i, s), pred) == count_of(runs, pred) - (if pred(runs[i]) {
            1int
        } else {
            0
        }) + (if pred(s) {
            1int
        } else {
            0
        }),
    decreases runs.len(),
{
    let all = runs.update(i, s);
    if i < runs.len() - 1 {
        count_updated(runs.drop_last(), pred, i, s);
        assert(all.drop_last() =~= runs.drop_last().update(i, s));
    } else {
        assert(all.drop_last() =~= runs.drop_last());
    }
}

proof fn count_within(runs: Seq<RunView>, few: spec_fn(RunView) -> bool, many: spec_fn(RunView) -> bool)
    requires
        forall|s: RunView| #[trigger] few(s) ==> many(s),
    ensures
        count_of(runs, few) <= count_of(runs, many),
    decreases runs.len(),
{
    if runs.len() > 0 {
        count_within(runs.drop_last(), few, many);
    }
}

proof fn none_held(runs: Seq<RunView>)
    requires
        all_begun(runs),
    ensures
        slots_held(runs) == 0,
    decreases runs.len(),
{
    if runs.len() > 0 {
        let init = runs.drop_last();
        assert(runs[runs.len() - 1] == begun(runs.last().name, runs.last().deps, runs.last().use_cache));
        assert forall|i: int| 0 <= i < init.len() implies #[trigger] init[i] == begun(
            init[i].name,
            init[i].deps,
            init[i].use_cache,
        ) && init[i].deps >= 0 by {
            assert(init[i] == runs[i]);
        }
        none_held(init);
    }
}

proof fn slots_bounded(runs: Seq<RunView>, moves: Seq<Move>, concurrency: usize, n: int)
    requires
        all_begun(runs),
        grants_within(runs, moves, concurrency),
        0 <= n <= moves.len(),
    ensures
        slots_held(after(runs, moves, n)) <= permitted(concurrency),
    decreases n,
{
    if n == 0 {
        none_held(runs);
    } else {
        slots_bounded(runs, moves, concurrency, n - 1);
        let now = after(runs, moves, n - 1);
        let m = moves[n - 1];
        if 0 <= m.run < now.len() {
            let s = now[m.run];
            slot_held_to_the_end(s, m.signal, m.elapsed);
            count_updated(now, |s: RunView| holds_slot(s), m.run, advanced(s, m.signal, m.elapsed).0);
        }
    }
}

/// As many commands may run as are asked for; where none is, one may.
pub proof fn permitted_is_what_is_asked(concurrency: usize)
    ensures
        concurrency >= 1 ==> permitted(concurrency) == concurrency,
        permitted(0) == 1,
{
}

proof fn counted_as_filtered(runs: Seq<RunView>, pred: spec_fn(RunView) -> bool)
    ensures
        count_of(runs, pred) == runs.filter(pred).len(),
    decreases runs.len(),
{
    reveal(Seq::filter);
    if runs.len() > 0 {
        counted_as_filtered(runs.drop_last(), pred);
    }
}

proof fn same_filter(runs: Seq<RunView>, p: spec_fn(RunView) -> bool, q: spec_fn(RunView) -> bool)
    requires
        forall|s: RunView| #[trigger] p(s) <==> q(s),
    ensures
        runs.filter(p) == runs.filter(q),
    decreases runs.len(),
{
    reveal(Seq::filter);
    if runs.len() > 0 {
        same_filter(runs.drop_last(), p, q);
    }
}

/// The commands that run are those of the runs that have come to them; the slots
/// held are those and the ones of runs that store their result.
pub proof fn running_are_counted(runs: Seq<RunView>)
    ensures
        commands_running(runs) == runs.filter(|s: RunView| s.phase is Running).len(),
        slots_held(runs) == runs.filter(|s: RunView| s.phase is Running || s.phase is Storing).len(),
{
    let running = |s: RunView| runs_command(s);
    let holding = |s: RunView| holds_slot(s);
    counted_as_filtered(runs, running);
    counted_as_filtered(runs, holding);
    same_filter(runs, running, |s: RunView| s.phase is Running);
    same_filter(runs, holding, |s: RunView| s.phase is Running || s.phase is Storing);
}

/// A move moves one run, by the signal that comes in, and no other.
pub proof fn a_move_moves_one_run(runs: Seq<RunView>, moves: Seq<Move>, n: int, i: int)
    requires
        0 <= n < moves.len(),
        0 <= i < after(runs, moves, n).len(),
    ensures
        after(runs, moves, 0) == runs,
        after(runs, moves, n + 1).len() == after(runs, moves, n).len(),
        after(runs, moves, n + 1)[i] == if moves[n].run == i {
            advanced(after(runs, moves, n)[i], moves[n].signal, moves[n].elapsed).0
        } else {
            after(runs, moves, n)[i]
        },
{
}

/// At no moment do more commands run than may: what is asked for, but at least
/// one.
pub proof fn concurrency_is_capped(runs: Seq<RunView>, moves: Seq<Move>, concurrency: usize, n: int)
    requires
        all_begun(runs),
        grants_within(runs, moves, concurrency),
        0 <= n <= moves.len(),
    ensures
        commands_running(after(runs, moves, n)) <= if concurrency >= 1 {
            concurrency
        } else {
            1
        },
        after(runs, moves, n).filter(|s: RunView| s.phase is Running).len() <= if concurrency >= 1 {
            concurrency
        } else {
            1
        },
        slots_held(after(runs, moves, n)) <= permitted(concurrency),
{
    let now = after(runs, moves, n);
    slots_bounded(runs, moves, concurrency, n);
    count_within(now, |s: RunView| runs_command(s), |s: RunView| holds_slot(s));
    running_are_counted(now);
    permitted_is_what_is_asked(concurrency);
}

/// How many dependencies have come in, of a run that has not ended.
spec fn came_in(s: RunView) -> int {
    match s.phase {
        PhaseView::Waiting(i) => i,
        _ => s.deps,
    }
}

/// Before the `n`-th move, the `k`-th dependency of the run `i` came in, and it
/// had succeeded or was cached.
pub open spec fn succeeded_before(runs: Seq<RunView>, moves: Seq<Move>, n: int, i: int, k: int) -> bool {
    exists|m: int|
        {
            &&& 0 <= m < n
            &&& (#[trigger] moves[m]).run == i
            &&& after(runs, moves, m)[i].phase == PhaseView::Waiting(k)
            &&& moves[m].signal matches SignalView::DependencyDone(o)
            &&& o.status == TaskStatus::Success || o.status == TaskStatus::Cached
        }
}

proof fn dependencies_came_in(runs: Seq<RunView>, moves: Seq<Move>, n: int, i: int)
    requires
        all_begun(runs),
        0 <= n <= moves.len(),
        0 <= i < runs.len(),
    ensures
        after(runs, moves, n).len() == runs.len(),
        after(runs, moves, n)[i].deps == runs[i].deps,
        !(after(runs, moves, n)[i].phase is Done) ==> {
            &&& 0 <= came_in(after(runs, moves, n)[i]) <= runs[i].deps
            &&& after(runs, moves, n)[i].phase is Waiting ==> came_in(after(runs, moves, n)[i]) < runs[i].deps
            &&& forall|k: int|
                0 <= k < came_in(after(runs, moves, n)[i]) ==> #[trigger] succeeded_before(runs, moves, n, i, k)
        },
    decreases n,
{
    assert(runs[i] == begun(runs[i].name, runs[i].deps, runs[i].use_cache));
    if n > 0 {
        dependencies_came_in(runs, moves, n - 1, i);
        let now = after(runs, moves, n - 1);
        let m = moves[n - 1];
        let s = now[i];
        let next = after(runs, moves, n)[i];
        if !(next.phase is Done) {
            assert(!(s.phase is Done));
            assert forall|k: int| 0 <= k < came_in(next) implies #[trigger] succeeded_before(runs, moves, n, i, k) by {
                if k < came_in(s) {
                    assert(succeeded_before(runs, moves, n - 1, i, k));
                    let w = choose|w: int|
                        {
                            &&& 0 <= w < n - 1
                            &&& (#[trigger] moves[w]).run == i
                            &&& after(runs, moves, w)[i].phase == PhaseView::Waiting(k)
                            &&& moves[w].signal matches SignalView::DependencyDone(o)
                            &&& o.status == TaskStatus::Success || o.status == TaskStatus::Cached
                        };
                    assert(0 <= w < n && moves[w].run == i);
                } else {
                    assert(s.phase == PhaseView::Waiting(k));
                    assert(moves[n - 1].run == i);
                }
            }
        }
    }
}

/// The command of a task runs only after each of its dependencies has come in,
/// in turn, and succeeded or was cached.
pub proof fn command_follows_dependencies(runs: Seq<RunView>, moves: Seq<Move>, n: int, i: int, k: int)
    requires
        all_begun(runs),
        0 <= n <= moves.len(),
        0 <= i < runs.len(),
        runs_command(after(runs, moves, n)[i]),
        0 <= k < runs[i].deps,
    ensures
        succeeded_before(runs, moves, n, i, k),
{
    dependencies_came_in(runs, moves, n, i);
}

/// The slots that are free after the first `n` moves, where `permitted` of them
/// are free at first, a grant takes one and a run gives its back when it ends.
pub open spec fn free_after(runs: Seq<RunView>, moves: Seq<Move>, concurrency: usize, n: int) -> int
    decreases n,
{
    if n <= 0 {
        permitted(concurrency) as int
    } else {
        let was = after(runs, moves, n - 1);
        let is = after(runs, moves, n);
        let run = moves[n - 1].run;
        free_after(runs, moves, concurrency, n - 1) + if 0 <= run < runs.len() {
            if !holds_slot(was[run]) && holds_slot(is[run]) {
                -1int
            } else if holds_slot(was[run]) && !holds_slot(is[run]) {
                1
            } else {
                0
            }
        } else {
            0
        }
    }
}

proof fn slots_add_up(runs: Seq<RunView>, moves: Seq<Move>, concurrency: usize, n: int)
    requires
        all_begun(runs),
        0 <= n <= moves.len(),
    ensures
        after(runs, moves, n).len() == runs.len(),
        free_after(runs, moves, concurrency, n) + slots_held(after(runs, moves, n)) == permitted(concurrency),
    decreases n,
{
    if n == 0 {
        none_held(runs);
    } else {
        slots_add_up(runs, moves, concurrency, n - 1);
        let was = after(runs, moves, n - 1);
        let m = moves[n - 1];
        if 0 <= m.run < was.len() {
            count_updated(
                was,
                |s: RunView| holds_slot(s),
                m.run,
                advanced(was[m.run], m.signal, m.elapsed).0,
            );
        }
    }
}

/// A semaphore that starts with as many permits as commands may run, and grants
/// a slot only while one is free, keeps the cap.
pub proof fn semaphore_keeps_the_cap(runs: Seq<RunView>, moves: Seq<Move>, concurrency: usize, n: int)
    requires
        all_begun(runs),
        forall|k: int|
            0 <= k < moves.len() && (#[trigger] moves[k]).signal is SlotGranted ==> free_after(
                runs,
                moves,
                concurrency,
                k,
            ) > 0,
        0 <= n <= moves.len(),
    ensures
        grants_within(runs, moves, concurrency),
        commands_running(after(runs, moves, n)) <= if concurrency >= 1 {
            concurrency
        } else {
            1
        },
{
    assert forall|k: int| 0 <= k < moves.len() && (#[trigger] moves[k]).signal is SlotGranted implies slots_held(
        after(runs, moves, k),
    ) < permitted(concurrency) by {
        slots_add_up(runs, moves, concurrency, k);
    }
    concurrency_is_capped(runs, moves, concurrency, n);
}

/// The run at position `i` can move on: it is not over, the dependency that it
/// waits for is, and if it waits for a slot one is free.
pub open spec fn can_move(ts: Seq<TaskView>, runs: Seq<RunView>, concurrency: usize, i: int) -> bool {
    &&& 0 <= i < runs.len()
    &&& match runs[i].phase {
        PhaseView::Done(_) => false,
        PhaseView::Waiting(k) => exists|j: int|
            0 <= j < runs.len() && (#[trigger] ts[j]).name == ts[i].deps[k] && runs[j].phase is Done,
        PhaseView::Queued(_) => slots_held(runs) < permitted(concurrency),
        _ => true,
    }
}

/// The runs are those of the tasks `ts`.
pub open spec fn runs_of(ts: Seq<TaskView>, runs: Seq<RunView>) -> bool {
    &&& runs.len() == ts.len()
    &&& forall|i: int|
        0 <= i < ts.len() ==> ((#[trigger] runs[i]).phase matches PhaseView::Waiting(k) ==> 0 <= k < ts[i].deps.len())
}

proof fn some_holder(runs: Seq<RunView>) -> (i: int)
    requires
        slots_held(runs) > 0,
    ensures
        0 <= i < runs.len(),
        holds_slot(runs[i]),
    decreases runs.len(),
{
    if holds_slot(runs.last()) {
        runs.len() - 1
    } else {
        some_holder(runs.drop_last())
    }
}

/// A run of many tasks never gets stuck, whatever concurrency was asked for: as
/// long as one of them is not over, one of them can move on.
pub proof fn never_stuck(ts: Seq<TaskView>, runs: Seq<RunView>, concurrency: usize)
    requires
        is_dag(ts),
        runs_of(ts, runs),
        exists|i: int| 0 <= i < runs.len() && !((#[trigger] runs[i]).phase is Done),
    ensures
        exists|i: int| can_move(ts, runs, concurrency, i),
{
    if slots_held(runs) > 0 {
        let i = some_holder(runs);
        assert(can_move(ts, runs, concurrency, i));
    } else {
        let order = build_order(ts);
        orderable_iff_acyclic(ts);
        full_order_lists_all(ts);
        let i = choose|i: int| 0 <= i < runs.len() && !((#[trigger] runs[i]).phase is Done);
        assert(declared(ts)[i] == ts[i].name);
        assert(declared(ts).contains(ts[i].name));
        assert(order.contains(ts[i].name));
        let n = choose|n: int| 0 <= n < order.len() && order[n] == ts[i].name;
        first_unfinished_moves(ts, runs, concurrency, i, n);
    }
}

proof fn first_unfinished_moves(ts: Seq<TaskView>, runs: Seq<RunView>, concurrency: usize, i: int, n: int)
    requires
        is_dag(ts),
        runs_of(ts, runs),
        slots_held(runs) == 0,
        0 <= i < ts.len(),
        0 <= n < build_order(ts).len(),
        build_order(ts)[n] == ts[i].name,
        !(runs[i].phase is Done),
    ensures
        exists|i: int| can_move(ts, runs, concurrency, i),
    decreases n,
{
    let order = build_order(ts);
    if let PhaseView::Waiting(k) = runs[i].phase {
        let y = ts[i].deps[k];
        build_order_is_topological(ts);
        assert(ts[i].deps.contains(y));
        assert(depends_on(ts, order[n], y));
        dependency_declared(ts, order[n], y);
        assert(order.take(n).contains(y));
        let m = choose|m: int| 0 <= m < order.take(n).len() && order.take(n)[m] == y;
        assert(order[m] == y);
        let j = choose|j: int| 0 <= j < declared(ts).len() && declared(ts)[j] == y;
        assert(ts[j].name == y);
        if runs[j].phase is Done {
            assert(can_move(ts, runs, concurrency, i));
        } else {
            first_unfinished_moves(ts, runs, concurrency, j, m);
        }
    } else {
        assert(can_move(ts, runs, concurrency, i));
    }
}

/// Every step that is answered brings a run nearer to its end, so a run of many
/// tasks that is never stuck comes to its end.
pub proof fn every_answer_counts(s: RunView, f: Facts, elapsed: nat)
    requires
        !(s.phase is Done),
        s.phase matches PhaseView::Waiting(k) ==> 0 <= k < s.deps,
    ensures
        0 <= remaining(advanced(s, answer(f, s), elapsed).0) < remaining(s),
{
}

} // verus!
