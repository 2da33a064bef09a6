//! What holds of a selection of tasks and of the report of a run, told of the
//! tasks, targets and outcomes themselves.

use vstd::prelude::*;

use crate::executor::OutcomeView;
use crate::graph::depends_on;
use crate::plan::{in_build_order, latest};
use crate::select::{dependency_needed, leads_to, needed, no_such_task, selection};
use crate::task::TaskView;

verus! {

proof fn filtered_are<A>(s: Seq<A>, pred: spec_fn(A) -> bool)
    ensures
        forall|x: A| #[trigger] s.filter(pred).contains(x) <==> s.contains(x) && pred(x),
    decreases s.len(),
{
    reveal(Seq::filter);
    let f = s.filter(pred);
    if s.len() > 0 {
        let init = s.drop_last();
        let g = init.filter(pred);
        filtered_are(init, pred);
        assert forall|x: A| #[trigger] f.contains(x) <==> s.contains(x) && pred(x) by {
            if s.contains(x) && pred(x) {
                let i = choose|i: int| 0 <= i < s.len() && s[i] == x;
                if i < init.len() {
                    assert(init[i] == x);
                    assert(g.contains(x));
                    let j = choose|j: int| 0 <= j < g.len() && g[j] == x;
                    assert(f[j] == x);
                } else {
                    assert(f[f.len() - 1] == x);
                }
            }
            if f.contains(x) {
                let j = choose|j: int| 0 <= j < f.len() && f[j] == x;
                if j < g.len() {
                    assert(g.contains(g[j]));
                    assert(init.contains(x));
                    let i = choose|i: int| 0 <= i < init.len() && init[i] == x;
                    assert(s[i] == x);
                } else {
                    assert(s[s.len() - 1] == x);
                }
            }
        }
    }
}

proof fn filtered_alike<A>(s: Seq<A>, p: spec_fn(A) -> bool, q: spec_fn(A) -> bool)
    requires
        forall|i: int| 0 <= i < s.len() ==> p(#[trigger] s[i]) == q(s[i]),
    ensures
        s.filter(p) == s.filter(q),
    decreases s.len(),
{
    reveal(Seq::filter);
    if s.len() > 0 {
        let init = s.drop_last();
        assert forall|i: int| 0 <= i < init.len() implies p(#[trigger] init[i]) == q(init[i]) by {
            assert(init[i] == s[i]);
        }
        filtered_alike(init, p, q);
        assert(p(s[s.len() - 1]) == q(s[s.len() - 1]));
    }
}

proof fn selected_are(ts: Seq<TaskView>, targets: Seq<Seq<char>>)
    requires
        targets.len() > 0,
    ensures
        forall|t: TaskView|
            #[trigger] selection(ts, targets).contains(t) <==> ts.contains(t) && needed(ts, targets, t.name),
{
    filtered_are(ts, |t: TaskView| needed(ts, targets, t.name));
}

/// Without targets every task is selected.
pub proof fn no_target_selects_all(ts: Seq<TaskView>)
    ensures
        selection(ts, Seq::empty()) == ts,
{
}

/// The selected tasks are tasks of the graph, whole and in their order.
pub proof fn selection_keeps_tasks_and_order(ts: Seq<TaskView>, targets: Seq<Seq<char>>)
    ensures
        ({
            let sel = selection(ts, targets);
            &&& forall|i: int| 0 <= i < sel.len() ==> ts.contains(#[trigger] sel[i])
            &&& sel == ts.filter(|t: TaskView| sel.contains(t))
        }),
{
    let sel = selection(ts, targets);
    let pred = |t: TaskView| sel.contains(t);
    if targets.len() > 0 {
        selected_are(ts, targets);
        let need = |t: TaskView| needed(ts, targets, t.name);
        assert forall|i: int| 0 <= i < ts.len() implies need(#[trigger] ts[i]) == pred(ts[i]) by {
            assert(ts.contains(ts[i]));
        }
        filtered_alike(ts, need, pred);
        assert forall|i: int| 0 <= i < sel.len() implies ts.contains(#[trigger] sel[i]) by {
            assert(sel.contains(sel[i]));
        }
    } else {
        let all = |t: TaskView| true;
        assert forall|i: int| 0 <= i < ts.len() implies all(#[trigger] ts[i]) == pred(ts[i]) by {
            assert(ts.contains(ts[i]));
        }
        filtered_alike(ts, all, pred);
        all_filtered(ts);
    }
}

proof fn all_filtered(ts: Seq<TaskView>)
    ensures
        ts.filter(|t: TaskView| true) == ts,
    decreases ts.len(),
{
    reveal(Seq::filter);
    if ts.len() > 0 {
        all_filtered(ts.drop_last());
        assert(ts.drop_last().push(ts.last()) =~= ts);
    } else {
        assert(ts.filter(|t: TaskView| true) =~= ts);
    }
}

/// A task that is a target is selected.
pub proof fn targets_are_selected(ts: Seq<TaskView>, targets: Seq<Seq<char>>, i: int)
    requires
        0 <= i < ts.len(),
        targets.contains(ts[i].name),
    ensures
        selection(ts, targets).contains(ts[i]),
{
    selected_are(ts, targets);
    assert(leads_to(ts, targets, seq![ts[i].name], ts[i].name));
    assert(ts.contains(ts[i]));
}

/// With a task the tasks that it lists are selected.
pub proof fn dependencies_are_selected(ts: Seq<TaskView>, targets: Seq<Seq<char>>, i: int, k: int, m: int)
    requires
        0 <= i < ts.len(),
        0 <= k < ts[i].deps.len(),
        0 <= m < ts.len(),
        ts[m].name == ts[i].deps[k],
        selection(ts, targets).contains(ts[i]),
    ensures
        selection(ts, targets).contains(ts[m]),
{
    assert(ts.contains(ts[m]));
    if targets.len() > 0 {
        selected_are(ts, targets);
        assert(ts[i].deps.contains(ts[i].deps[k]));
        assert(depends_on(ts, ts[i].name, ts[m].name));
        dependency_needed(ts, targets, ts[i].name, ts[m].name);
    }
}

/// Nothing is selected that is not wanted: whatever holds of the targets, and
/// with a task of all that it lists, holds of every selected task.
pub proof fn only_needed_tasks_are_selected(
    ts: Seq<TaskView>,
    targets: Seq<Seq<char>>,
    wanted: spec_fn(Seq<char>) -> bool,
    n: int,
)
    requires
        targets.len() > 0,
        forall|i: int| 0 <= i < targets.len() ==> wanted(#[trigger] targets[i]),
        forall|i: int, k: int|
            0 <= i < ts.len() && 0 <= k < ts[i].deps.len() && wanted(ts[i].name) ==> wanted(#[trigger] ts[i].deps[k]),
        0 <= n < selection(ts, targets).len(),
    ensures
        wanted(selection(ts, targets)[n].name),
{
    let sel = selection(ts, targets);
    selected_are(ts, targets);
    assert(sel.contains(sel[n]));
    let path = choose|path: Seq<Seq<char>>| leads_to(ts, targets, path, sel[n].name);
    wanted_along(ts, targets, wanted, path, path.len() - 1);
}

proof fn wanted_along(
    ts: Seq<TaskView>,
    targets: Seq<Seq<char>>,
    wanted: spec_fn(Seq<char>) -> bool,
    path: Seq<Seq<char>>,
    n: int,
)
    requires
        forall|i: int| 0 <= i < targets.len() ==> wanted(#[trigger] targets[i]),
        forall|i: int, k: int|
            0 <= i < ts.len() && 0 <= k < ts[i].deps.len() && wanted(ts[i].name) ==> wanted(#[trigger] ts[i].deps[k]),
        leads_to(ts, targets, path, path.last()),
        0 <= n < path.len(),
    ensures
        wanted(path[n]),
    decreases n,
{
    if n == 0 {
        let k = choose|k: int| 0 <= k < targets.len() && targets[k] == path[0];
        assert(wanted(targets[k]));
    } else {
        let m = n - 1;
        wanted_along(ts, targets, wanted, path, m);
        assert(depends_on(ts, path[m], path[m + 1]));
        let i = choose|i: int|
            0 <= i < ts.len() && (#[trigger] ts[i]).name == path[m] && ts[i].deps.contains(path[m + 1]);
        let k = choose|k: int| 0 <= k < ts[i].deps.len() && ts[i].deps[k] == path[m + 1];
        assert(wanted(ts[i].deps[k]));
    }
}

/// A target that does not exist is named between backquotes.
pub proof fn missing_target_is_named(name: Seq<char>)
    ensures
        no_such_task(name) == "no such task `"@ + name + seq!['`'],
{
    reveal_strlit("`");
    assert(no_such_task(name) =~= "no such task `"@ + name + seq!['`']);
}

/// The outcome that counts under a name is the last with that name.
pub proof fn last_outcome_counts(outcomes: Seq<OutcomeView>, i: int, name: Seq<char>)
    requires
        0 <= i < outcomes.len(),
        outcomes[i].name == name,
        forall|j: int| i < j < outcomes.len() ==> (#[trigger] outcomes[j]).name != name,
    ensures
        latest(outcomes, name) == Some(outcomes[i]),
    decreases outcomes.len(),
{
    let init = outcomes.drop_last();
    if i < init.len() {
        assert(outcomes[outcomes.len() - 1].name != name);
        assert forall|j: int| i < j < init.len() implies (#[trigger] init[j]).name != name by {
            assert(init[j] == outcomes[j]);
        }
        last_outcome_counts(init, i, name);
    }
}

/// Where no outcome has a name, none counts under it.
pub proof fn no_outcome_counts(outcomes: Seq<OutcomeView>, name: Seq<char>)
    requires
        forall|j: int| 0 <= j < outcomes.len() ==> (#[trigger] outcomes[j]).name != name,
    ensures
        latest(outcomes, name) is None,
    decreases outcomes.len(),
{
    let init = outcomes.drop_last();
    if outcomes.len() > 0 {
        assert(outcomes[outcomes.len() - 1].name != name);
        assert forall|j: int| 0 <= j < init.len() implies (#[trigger] init[j]).name != name by {
            assert(init[j] == outcomes[j]);
        }
        no_outcome_counts(init, name);
    }
}

/// The report of the names `order` and one name more ends in the last outcome
/// under that name, if there is one.
pub proof fn report_grows_by_the_last_outcome(
    order: Seq<Seq<char>>,
    outcomes: Seq<OutcomeView>,
    name: Seq<char>,
    i: int,
)
    ensures
        in_build_order(Seq::empty(), outcomes).len() == 0,
        (forall|j: int| 0 <= j < outcomes.len() ==> (#[trigger] outcomes[j]).name != name) ==> in_build_order(
            order.push(name),
            outcomes,
        ) == in_build_order(order, outcomes),
        0 <= i < outcomes.len() && outcomes[i].name == name && (forall|j: int|
            i < j < outcomes.len() ==> (#[trigger] outcomes[j]).name != name) ==> in_build_order(
            order.push(name),
            outcomes,
        ) == in_build_order(order, outcomes).push(outcomes[i]),
{
    assert(order.push(name).drop_last() =~= order);
    if forall|j: int| 0 <= j < outcomes.len() ==> (#[trigger] outcomes[j]).name != name {
        no_outcome_counts(outcomes, name);
    }
    if 0 <= i < outcomes.len() && outcomes[i].name == name && (forall|j: int|
        i < j < outcomes.len() ==> (#[trigger] outcomes[j]).name != name) {
        last_outcome_counts(outcomes, i, name);
    }
}

/// Outcomes that stand in the order of the names, one for each, are the report
/// as they stand.
pub proof fn ordered_outcomes_are_the_report(outcomes: Seq<OutcomeView>)
    requires
        forall|i: int, j: int|
            0 <= i < j < outcomes.len() ==> (#[trigger] outcomes[i]).name != (#[trigger] outcomes[j]).name,
    ensures
        in_build_order(outcomes.map_values(|o: OutcomeView| o.name), outcomes) == outcomes,
{
    let names = outcomes.map_values(|o: OutcomeView| o.name);
    ordered_outcomes_up_to(outcomes, outcomes.len() as int);
    assert(names.take(outcomes.len() as int) =~= names);
    assert(outcomes.take(outcomes.len() as int) =~= outcomes);
}

proof fn ordered_outcomes_up_to(outcomes: Seq<OutcomeView>, n: int)
    requires
        forall|i: int, j: int|
            0 <= i < j < outcomes.len() ==> (#[trigger] outcomes[i]).name != (#[trigger] outcomes[j]).name,
        0 <= n <= outcomes.len(),
    ensures
        in_build_order(outcomes.map_values(|o: OutcomeView| o.name).take(n), outcomes) == outcomes.take(n),
    decreases n,
{
    let names = outcomes.map_values(|o: OutcomeView| o.name);
    if n == 0 {
        assert(in_build_order(names.take(0), outcomes) =~= outcomes.take(0));
    } else {
        let m = n - 1;
        ordered_outcomes_up_to(outcomes, m);
        assert(names.take(n) =~= names.take(m).push(outcomes[m].name));
        report_grows_by_the_last_outcome(names.take(m), outcomes, outcomes[m].name, m);
        assert(outcomes.take(n) =~= outcomes.take(m).push(outcomes[m]));
    }
}

} // verus!
