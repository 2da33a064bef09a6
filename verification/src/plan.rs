//! Planning a run, and gathering what came of it.

use vstd::prelude::*;

use crate::dag::{is_dag, order_respects_dependencies, refused, Dag};
use crate::error::{DagError, ExecError, IoError, IoErrorKind};
use crate::executor::{outcomes_view, OutcomeView, RunReport, TaskOutcome};
use crate::graph::{build_order, declared, depends_on, unknown_at};
use crate::name_map::NameMap;
use crate::order::{same_text, texts};
use crate::task::{tasks_view, Task, TaskView};

verus! {

/// The graph of the tasks of a run.
///
/// Tasks that form no graph are invalid data; the error tells why, as said of
/// `<plan>`.
pub fn plan(tasks: &[Task]) -> (r: Result<Dag, ExecError>)
    ensures
        match r {
            Ok(dag) => {
                &&& dag@ == tasks_view(tasks@)
                &&& is_dag(tasks_view(tasks@))
            },
            Err(ExecError::Io { task, source }) => {
                &&& task@ == "<plan>"@
                &&& source.kind == IoErrorKind::InvalidData
                &&& exists|e: DagError| #[trigger] refused(tasks_view(tasks@), e) && source.message@ == e.says()
            },
            Err(_) => false,
        },
        r is Ok <==> is_dag(tasks_view(tasks@)),
{
    match Dag::build(tasks) {
        Ok(dag) => Ok(dag),
        Err(e) => Err(
            ExecError::Io {
                task: "<plan>".to_owned(),
                source: IoError { kind: IoErrorKind::InvalidData, message: e.display() },
            },
        ),
    }
}

/// The error of a run whose own machinery failed.
pub fn runtime_failure(message: String) -> (e: ExecError)
    ensures
        e matches ExecError::Io { task, source } && task@ == "<runtime>"@ && source.kind == IoErrorKind::Other
            && source.message == message,
{
    ExecError::Io { task: "<runtime>".to_owned(), source: IoError { kind: IoErrorKind::Other, message } }
}

/// `at` lists the positions in `ts` of the given names.
pub open spec fn positions_of(ts: Seq<TaskView>, names: Seq<Seq<char>>, at: Seq<usize>) -> bool {
    &&& at.len() == names.len()
    &&& forall|k: int| 0 <= k < names.len() ==> (#[trigger] at[k]) < ts.len() && ts[at[k] as int].name == names[k]
}

/// The position of every task, under its name.
fn index_tasks(dag: &Dag) -> (m: NameMap<usize>)
    ensures
        forall|i: int|
            0 <= i < dag@.len() ==> m@.contains_key((#[trigger] dag@[i]).name) && m@[dag@[i].name] == i,
{
    let tasks = dag.tasks();
    let ghost ts = dag@;
    let mut m: NameMap<usize> = NameMap::new();
    let mut i: usize = 0;
    while i < tasks.len()
        invariant
            i <= tasks@.len(),
            ts == tasks_view(tasks@),
            is_dag(ts),
            forall|j: int| 0 <= j < i ==> m@.contains_key((#[trigger] ts[j]).name) && m@[ts[j].name] == j,
        decreases tasks@.len() - i,
    {
        proof {
            assert(ts[i as int] == tasks@[i as int]@);
        }
        m.insert(tasks[i].name.clone(), i);
        proof {
            assert forall|j: int| 0 <= j < i + 1 implies m@.contains_key((#[trigger] ts[j]).name) && m@[ts[j].name]
                == j by {
                if j < i {
                    assert(declared(ts)[j] != declared(ts)[i as int]);
                }
            }
        }
        i = i + 1;
    }
    m
}

/// Whom every task waits for: the positions among the tasks of the graph of its
/// dependencies, in order.
pub fn wiring(dag: &Dag) -> (w: Vec<Vec<usize>>)
    ensures
        w@.len() == dag@.len(),
        forall|i: int| 0 <= i < dag@.len() ==> positions_of(dag@, (#[trigger] dag@[i]).deps, w@[i]@),
        forall|i: int| 0 <= i < dag@.len() ==> (#[trigger] w@[i])@.len() == dag@[i].deps.len(),
        forall|i: int, k: int|
            0 <= i < dag@.len() && 0 <= k < dag@[i].deps.len() ==> (#[trigger] w@[i]@[k]) < dag@.len()
                && dag@[w@[i]@[k] as int].name == dag@[i].deps[k],
{
    let tasks = dag.tasks();
    let index = index_tasks(dag);
    let ghost ts = dag@;
    let mut w: Vec<Vec<usize>> = Vec::new();
    let mut i: usize = 0;
    while i < tasks.len()
        invariant
            i <= tasks@.len(),
            ts == tasks_view(tasks@),
            is_dag(ts),
            forall|j: int|
                0 <= j < ts.len() ==> index@.contains_key((#[trigger] ts[j]).name) && index@[ts[j].name] == j,
            w@.len() == i,
            forall|j: int| 0 <= j < i ==> positions_of(ts, (#[trigger] ts[j]).deps, w@[j]@),
        decreases tasks@.len() - i,
    {
        let deps = &tasks[i].deps;
        let ghost names = ts[i as int].deps;
        let mut at: Vec<usize> = Vec::new();
        let mut k: usize = 0;
        while k < deps.len()
            invariant
                i < ts.len(),
                k <= deps@.len(),
                names == ts[i as int].deps,
                names == texts(deps@),
                is_dag(ts),
                forall|j: int|
                    0 <= j < ts.len() ==> index@.contains_key((#[trigger] ts[j]).name) && index@[ts[j].name] == j,
                positions_of(ts, names.take(k as int), at@),
            decreases deps@.len() - k,
        {
            proof {
                assert(names[k as int] == deps@[k as int]@);
                assert(!unknown_at(ts, i as int, k as int));
                let j = choose|j: int| 0 <= j < declared(ts).len() && declared(ts)[j] == names[k as int];
                assert(ts[j].name == names[k as int]);
            }
            if let Some(j) = index.get(deps[k].as_str()) {
                let ghost at0 = at@;
                at.push(*j);
                proof {
                    let more = names.take(k as int + 1);
                    assert forall|n: int| 0 <= n < more.len() implies (#[trigger] at@[n]) < ts.len()
                        && ts[at@[n] as int].name == more[n] by {
                        if n < k {
                            assert(at@[n] == at0[n]);
                            assert(more[n] == names.take(k as int)[n]);
                        }
                    }
                }
            }
            k = k + 1;
        }
        let ghost w0 = w@;
        proof {
            assert(names.take(names.len() as int) =~= names);
        }
        w.push(at);
        proof {
            assert forall|j: int| 0 <= j < i + 1 implies positions_of(ts, (#[trigger] ts[j]).deps, w@[j]@) by {
                if j < i {
                    assert(w@[j] == w0[j]);
                }
            }
        }
        i = i + 1;
    }
    w
}

/// The last outcome under a name.
pub open spec fn latest(outcomes: Seq<OutcomeView>, name: Seq<char>) -> Option<OutcomeView>
    decreases outcomes.len(),
{
    if outcomes.len() == 0 {
        None
    } else if outcomes.last().name == name {
        Some(outcomes.last())
    } else {
        latest(outcomes.drop_last(), name)
    }
}

/// The outcomes in the order of the names; a name without outcome is left out.
pub open spec fn in_build_order(order: Seq<Seq<char>>, outcomes: Seq<OutcomeView>) -> Seq<OutcomeView>
    decreases order.len(),
{
    if order.len() == 0 {
        Seq::empty()
    } else {
        let rest = in_build_order(order.drop_last(), outcomes);
        match latest(outcomes, order.last()) {
            Some(o) => rest.push(o),
            None => rest,
        }
    }
}

/// The position of the last outcome under a name.
fn find_latest(outcomes: &[TaskOutcome], name: &str) -> (r: Option<usize>)
    ensures
        match r {
            Some(i) => i < outcomes@.len() && latest(outcomes_view(outcomes@), name@) == Some(outcomes@[i as int]@),
            None => latest(outcomes_view(outcomes@), name@) is None,
        },
{
    let ghost os = outcomes_view(outcomes@);
    let mut n: usize = outcomes.len();
    proof {
        assert(os.take(n as int) =~= os);
    }
    while n > 0
        invariant
            n <= outcomes@.len(),
            os == outcomes_view(outcomes@),
            latest(os, name@) == latest(os.take(n as int), name@),
        decreases n,
    {
        proof {
            assert(os.take(n as int).last() == outcomes@[n - 1]@);
            assert(os.take(n as int).drop_last() =~= os.take(n - 1));
        }
        if same_text(outcomes[n - 1].name.as_str(), name) {
            return Some(n - 1);
        }
        n = n - 1;
    }
    None
}

/// The report of a run: what came of the tasks of the graph, in build order.
/// Of several outcomes under one name the last counts.
pub fn order_outcomes(dag: &Dag, outcomes: &[TaskOutcome]) -> (r: RunReport)
    ensures
        r@ == in_build_order(build_order(dag@), outcomes_view(outcomes@)),
{
    let order = dag.topo_order();
    let ghost names = texts(order@);
    let ghost os = outcomes_view(outcomes@);
    let mut out: Vec<TaskOutcome> = Vec::new();
    let mut i: usize = 0;
    while i < order.len()
        invariant
            i <= order@.len(),
            names == texts(order@),
            os == outcomes_view(outcomes@),
            outcomes_view(out@) == in_build_order(names.take(i as int), os),
        decreases order@.len() - i,
    {
        proof {
            let more = names.take(i as int + 1);
            assert(more.drop_last() =~= names.take(i as int));
            assert(more.last() == order@[i as int]@);
        }
        if let Some(k) = find_latest(outcomes, order[i].as_str()) {
            let ghost out0 = out@;
            out.push(outcomes[k].clone());
            proof {
                assert(outcomes_view(out@) =~= outcomes_view(out0).push(outcomes@[k as int]@));
            }
        }
        i = i + 1;
    }
    proof {
        assert(names.take(names.len() as int) =~= names);
    }
    RunReport { outcomes: out }
}

proof fn latest_has_name(outcomes: Seq<OutcomeView>, name: Seq<char>)
    ensures
        latest(outcomes, name) matches Some(o) ==> o.name == name && outcomes.contains(o),
        latest(outcomes, name) is None ==> forall|i: int| 0 <= i < outcomes.len() ==> (#[trigger] outcomes[i]).name != name,
    decreases outcomes.len(),
{
    if outcomes.len() > 0 {
        let init = outcomes.drop_last();
        latest_has_name(init, name);
        assert(outcomes[outcomes.len() - 1] == outcomes.last());
        if let Some(o) = latest(init, name) {
            let i = choose|i: int| 0 <= i < init.len() && init[i] == o;
            assert(outcomes[i] == o);
        }
        assert forall|i: int| 0 <= i < init.len() implies init[i] == #[trigger] outcomes[i] by {}
    }
}

proof fn ordered_names(order: Seq<Seq<char>>, outcomes: Seq<OutcomeView>)
    requires
        forall|i: int| 0 <= i < order.len() ==> latest(outcomes, #[trigger] order[i]) is Some,
    ensures
        ({
            let report = in_build_order(order, outcomes);
            &&& report.len() == order.len()
            &&& forall|i: int|
                0 <= i < order.len() ==> (#[trigger] report[i]).name == order[i] && Some(report[i]) == latest(
                    outcomes,
                    order[i],
                )
        }),
    decreases order.len(),
{
    if order.len() > 0 {
        let init = order.drop_last();
        assert forall|i: int| 0 <= i < init.len() implies latest(outcomes, #[trigger] init[i]) is Some by {
            assert(init[i] == order[i]);
        }
        ordered_names(init, outcomes);
        latest_has_name(outcomes, order.last());
        assert(latest(outcomes, order[order.len() - 1]) is Some);
        let report = in_build_order(order, outcomes);
        assert forall|i: int| 0 <= i < order.len() implies (#[trigger] report[i]).name == order[i] && Some(report[i])
            == latest(outcomes, order[i]) by {
            if i < init.len() {
                assert(report[i] == in_build_order(init, outcomes)[i]);
                assert(init[i] == order[i]);
            }
        }
    }
}

/// Where every task has an outcome, the report lists each task exactly once,
/// and every task after those that it depends on.
pub proof fn report_follows_dependencies(ts: Seq<TaskView>, outcomes: Seq<OutcomeView>)
    requires
        is_dag(ts),
        forall|x: Seq<char>|
            #[trigger] declared(ts).contains(x) ==> exists|i: int| 0 <= i < outcomes.len() && (#[trigger] outcomes[i]).name == x,
    ensures
        ({
            let report = in_build_order(build_order(ts), outcomes);
            &&& report.len() == ts.len()
            &&& forall|x: Seq<char>|
                #[trigger] declared(ts).contains(x) ==> exists|i: int| 0 <= i < report.len() && (#[trigger] report[i]).name == x
            &&& forall|i: int, j: int|
                0 <= i < report.len() && 0 <= j < report.len() && i != j ==> (#[trigger] report[i]).name != (
                #[trigger] report[j]).name
            &&& forall|i: int, j: int|
                0 <= i < report.len() && 0 <= j < report.len() && depends_on(
                    ts,
                    (#[trigger] report[i]).name,
                    (#[trigger] report[j]).name,
                ) ==> j < i
        }),
{
    let order = build_order(ts);
    let report = in_build_order(order, outcomes);
    order_respects_dependencies(ts);
    assert forall|i: int| 0 <= i < order.len() implies latest(outcomes, #[trigger] order[i]) is Some by {
        assert(order.contains(order[i]));
        assert(declared(ts).contains(order[i]));
        latest_has_name(outcomes, order[i]);
    }
    ordered_names(order, outcomes);
    assert forall|x: Seq<char>| #[trigger] declared(ts).contains(x) implies exists|i: int|
        0 <= i < report.len() && (#[trigger] report[i]).name == x by {
        assert(order.contains(x));
        let i = choose|i: int| 0 <= i < order.len() && order[i] == x;
        assert(report[i].name == x);
    }
    assert forall|i: int, j: int|
        0 <= i < report.len() && 0 <= j < report.len() && depends_on(
            ts,
            (#[trigger] report[i]).name,
            (#[trigger] report[j]).name,
        ) implies j < i by {
        assert(depends_on(ts, order[i], order[j]));
    }
}

} // verus!
