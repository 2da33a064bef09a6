//! Selecting the tasks that given targets need.

use vstd::prelude::*;

use crate::dag::{is_dag, Dag};
use crate::error::{ExecError, IoError, IoErrorKind};
use crate::graph::{
    all_deps, all_in, all_known, cyclic, declared, depends_on, distinct, is_dependency_cycle, unknown_at,
    with_name,
};
use crate::graph_laws::all_deps_are;
use crate::kahn::{contains_push, filter_keeps, filter_step, no_longer_than, with_name_adds, with_name_at};
use crate::name_map::ascending_no_duplicates;
use crate::order::{append_strings, ascending, copy_strings, find, same_text, texts};
use crate::task::{copy_tasks, tasks_view, Task, TaskView};

verus! {

/// `path` leads from a target to `x`, each name a dependency of the one before.
pub open spec fn leads_to(ts: Seq<TaskView>, targets: Seq<Seq<char>>, path: Seq<Seq<char>>, x: Seq<char>) -> bool {
    &&& path.len() > 0
    &&& targets.contains(path.first())
    &&& path.last() == x
    &&& forall|i: int| 0 <= i < path.len() - 1 ==> depends_on(ts, #[trigger] path[i], path[i + 1])
}

/// `x` is a target, or a direct or indirect dependency of one.
pub open spec fn needed(ts: Seq<TaskView>, targets: Seq<Seq<char>>, x: Seq<char>) -> bool {
    exists|path: Seq<Seq<char>>| leads_to(ts, targets, path, x)
}

/// The tasks that the targets need, in declaration order; without targets, all
/// of them.
pub open spec fn selection(ts: Seq<TaskView>, targets: Seq<Seq<char>>) -> Seq<TaskView> {
    if targets.len() == 0 {
        ts
    } else {
        ts.filter(|t: TaskView| needed(ts, targets, t.name))
    }
}

/// A target is needed.
proof fn target_needed(ts: Seq<TaskView>, targets: Seq<Seq<char>>, x: Seq<char>)
    requires
        targets.contains(x),
    ensures
        needed(ts, targets, x),
{
    assert(leads_to(ts, targets, seq![x], x));
}

/// What a needed task depends on is needed.
pub proof fn dependency_needed(ts: Seq<TaskView>, targets: Seq<Seq<char>>, x: Seq<char>, y: Seq<char>)
    requires
        needed(ts, targets, x),
        depends_on(ts, x, y),
    ensures
        needed(ts, targets, y),
{
    let path = choose|path: Seq<Seq<char>>| leads_to(ts, targets, path, x);
    let p = path.push(y);
    assert(leads_to(ts, targets, p, y)) by {
        assert(p.first() == path.first());
        assert forall|i: int| 0 <= i < p.len() - 1 implies depends_on(ts, #[trigger] p[i], p[i + 1]) by {
            assert(p[i] == path[i]);
            if i + 1 < path.len() {
                assert(p[i + 1] == path[i + 1]);
            }
        }
    }
}

/// A set of names that holds the targets and all dependencies of its members
/// holds all that is needed.
proof fn closed_holds_needed(ts: Seq<TaskView>, targets: Seq<Seq<char>>, sel: Seq<Seq<char>>, x: Seq<char>)
    requires
        all_in(targets, sel),
        forall|a: Seq<char>, b: Seq<char>| sel.contains(a) && #[trigger] depends_on(ts, a, b) ==> sel.contains(b),
        needed(ts, targets, x),
    ensures
        sel.contains(x),
{
    let path = choose|path: Seq<Seq<char>>| leads_to(ts, targets, path, x);
    closed_holds_path(ts, targets, sel, path, path.len() - 1);
}

proof fn closed_holds_path(
    ts: Seq<TaskView>,
    targets: Seq<Seq<char>>,
    sel: Seq<Seq<char>>,
    path: Seq<Seq<char>>,
    i: int,
)
    requires
        all_in(targets, sel),
        forall|a: Seq<char>, b: Seq<char>| sel.contains(a) && #[trigger] depends_on(ts, a, b) ==> sel.contains(b),
        leads_to(ts, targets, path, path.last()),
        0 <= i < path.len(),
    ensures
        sel.contains(path[i]),
    decreases i,
{
    if i == 0 {
        let k = choose|k: int| 0 <= k < targets.len() && targets[k] == path[0];
        assert(sel.contains(targets[k]));
    } else {
        closed_holds_path(ts, targets, sel, path, i - 1);
        assert(depends_on(ts, path[i - 1], path[i - 1 + 1]));
    }
}

/// What the closure loop keeps true: everything selected or stacked is needed
/// and declared, the targets are among them, and so are the dependencies of
/// what is selected.
spec fn closing_in(
    ts: Seq<TaskView>,
    targets: Seq<Seq<char>>,
    sel: Seq<Seq<char>>,
    stack: Seq<Seq<char>>,
) -> bool {
    &&& ascending(sel)
    &&& forall|x: Seq<char>| #[trigger] sel.contains(x) ==> needed(ts, targets, x) && declared(ts).contains(x)
    &&& forall|x: Seq<char>| #[trigger] stack.contains(x) ==> needed(ts, targets, x) && declared(ts).contains(x)
    &&& forall|x: Seq<char>| #[trigger] targets.contains(x) ==> sel.contains(x) || stack.contains(x)
    &&& forall|a: Seq<char>, b: Seq<char>|
        sel.contains(a) && #[trigger] depends_on(ts, a, b) ==> sel.contains(b) || stack.contains(b)
}

/// The names that the targets need, in ascending order.
#[verifier::rlimit(40)]
fn closure(dag: &Dag, targets: &[String]) -> (selected: Vec<String>)
    requires
        is_dag(dag@),
        all_in(texts(targets@), declared(dag@)),
    ensures
        ascending(texts(selected@)),
        forall|x: Seq<char>| #[trigger] texts(selected@).contains(x) <==> needed(dag@, texts(targets@), x),
{
    let ghost ts = dag@;
    let ghost goals = texts(targets@);
    let mut selected: Vec<String> = Vec::new();
    let mut stack: Vec<String> = copy_strings(targets);
    proof {
        assert forall|x: Seq<char>| #[trigger] texts(stack@).contains(x) implies needed(ts, goals, x) && declared(
            ts,
        ).contains(x) by {
            let k = choose|k: int| 0 <= k < goals.len() && goals[k] == x;
            assert(declared(ts).contains(goals[k]));
            target_needed(ts, goals, x);
        }
        assert(texts(selected@) =~= Seq::<Seq<char>>::empty());
    }
    while stack.len() > 0
        invariant
            ts == dag@,
            is_dag(ts),
            goals == texts(targets@),
            closing_in(ts, goals, texts(selected@), texts(stack@)),
        decreases ts.len() - selected@.len(), stack@.len(),
    {
        let ghost sel0 = texts(selected@);
        let ghost stack0 = texts(stack@);
        proof {
            ascending_no_duplicates(sel0);
            assert forall|i: int| 0 <= i < sel0.len() implies declared(ts).contains(#[trigger] sel0[i]) by {
                assert(sel0.contains(sel0[i]));
            }
            no_longer_than(sel0, declared(ts));
        }
        let top = stack.pop();
        if let Some(n) = top {
            proof {
                assert(texts(stack@) =~= stack0.drop_last());
                assert(n@ == stack0.last());
                assert(stack0.contains(stack0[stack0.len() - 1]));
            }
            match find(selected.as_slice(), n.as_str()) {
                Ok(k) => {
                    proof {
                        assert(sel0[k as int] == n@);
                        popped_known(ts, goals, sel0, stack0);
                    }
                },
                Err(k) => {
                    let deps = dag.deps_of(n.as_str());
                    let ghost added = texts(deps@);
                    let ghost x = n@;
                    append_strings(&mut stack, deps);
                    selected.insert(k, n);
                    proof {
                        assert(texts(selected@) =~= sel0.insert(k as int, x));
                        with_name_at(sel0, x, k as int);
                        with_name_adds(sel0, x);
                        popped_new(ts, goals, sel0, stack0, added);
                        ascending_no_duplicates(texts(selected@));
                        assert forall|i: int| 0 <= i < texts(selected@).len() implies declared(ts).contains(
                            #[trigger] texts(selected@)[i],
                        ) by {
                            assert(texts(selected@).contains(texts(selected@)[i]));
                        }
                        no_longer_than(texts(selected@), declared(ts));
                    }
                },
            }
        }
    }
    proof {
        let sel = texts(selected@);
        assert(texts(stack@) =~= Seq::<Seq<char>>::empty());
        assert forall|i: int| 0 <= i < goals.len() implies sel.contains(#[trigger] goals[i]) by {
            assert(goals.contains(goals[i]));
        }
        assert forall|x: Seq<char>| #[trigger] sel.contains(x) <==> needed(ts, goals, x) by {
            if needed(ts, goals, x) {
                closed_holds_needed(ts, goals, sel, x);
            }
        }
    }
    selected
}

proof fn popped_known(ts: Seq<TaskView>, targets: Seq<Seq<char>>, sel: Seq<Seq<char>>, stack: Seq<Seq<char>>)
    requires
        closing_in(ts, targets, sel, stack),
        stack.len() > 0,
        sel.contains(stack.last()),
    ensures
        closing_in(ts, targets, sel, stack.drop_last()),
{
    let rest = stack.drop_last();
    assert(rest.push(stack.last()) =~= stack);
    assert forall|x: Seq<char>| stack.contains(x) <==> rest.contains(x) || x == stack.last() by {
        contains_push(rest, stack.last(), x);
    }
}

#[verifier::rlimit(40)]
proof fn popped_new(
    ts: Seq<TaskView>,
    targets: Seq<Seq<char>>,
    sel: Seq<Seq<char>>,
    stack: Seq<Seq<char>>,
    added: Seq<Seq<char>>,
)
    requires
        is_dag(ts),
        closing_in(ts, targets, sel, stack),
        stack.len() > 0,
        added == all_deps(ts, stack.last()),
    ensures
        closing_in(ts, targets, with_name(sel, stack.last()), stack.drop_last() + added),
{
    let x = stack.last();
    let rest = stack.drop_last();
    let sel1 = with_name(sel, x);
    let stack1 = rest + added;
    assert(rest.push(x) =~= stack);
    assert(stack.contains(x)) by {
        assert(stack[stack.len() - 1] == x);
    }
    with_name_adds(sel, x);
    assert forall|y: Seq<char>| #[trigger] stack.contains(y) <==> rest.contains(y) || y == x by {
        contains_push(rest, x, y);
    }
    assert forall|y: Seq<char>| #[trigger] stack1.contains(y) <==> rest.contains(y) || depends_on(ts, x, y) by {
        all_deps_are(ts, x, y);
        contains_concat(rest, added, y);
    }
    assert forall|y: Seq<char>| #[trigger] sel1.contains(y) implies needed(ts, targets, y) && declared(ts).contains(
        y,
    ) by {
        assert(sel.contains(y) || stack.contains(y));
    }
    assert forall|y: Seq<char>| #[trigger] stack1.contains(y) implies needed(ts, targets, y) && declared(
        ts,
    ).contains(y) by {
        if depends_on(ts, x, y) {
            dependency_needed(ts, targets, x, y);
            dependency_declared(ts, x, y);
        } else {
            assert(stack.contains(y));
        }
    }
    assert forall|y: Seq<char>| #[trigger] targets.contains(y) implies sel1.contains(y) || stack1.contains(y) by {
        assert(sel.contains(y) || stack.contains(y));
    }
    assert forall|a: Seq<char>, b: Seq<char>| sel1.contains(a) && #[trigger] depends_on(ts, a, b) implies sel1.contains(
        b,
    ) || stack1.contains(b) by {
        if a != x {
            assert(sel.contains(a));
            assert(sel.contains(b) || stack.contains(b));
        }
    }
}

proof fn contains_concat(a: Seq<Seq<char>>, b: Seq<Seq<char>>, x: Seq<char>)
    ensures
        (a + b).contains(x) <==> a.contains(x) || b.contains(x),
{
    let c = a + b;
    if a.contains(x) {
        let k = choose|k: int| 0 <= k < a.len() && a[k] == x;
        assert(c[k] == x);
    }
    if b.contains(x) {
        let k = choose|k: int| 0 <= k < b.len() && b[k] == x;
        assert(c[a.len() + k] == x);
    }
    if c.contains(x) {
        let k = choose|k: int| 0 <= k < c.len() && c[k] == x;
        if k < a.len() {
            assert(a[k] == x);
        } else {
            assert(b[k - a.len()] == x);
        }
    }
}

/// Where all dependencies are declared, what a task depends on is declared.
pub proof fn dependency_declared(ts: Seq<TaskView>, x: Seq<char>, y: Seq<char>)
    requires
        all_known(ts),
        depends_on(ts, x, y),
    ensures
        declared(ts).contains(y),
{
    let i = choose|i: int| 0 <= i < ts.len() && (#[trigger] ts[i]).name == x && ts[i].deps.contains(y);
    let j = choose|j: int| 0 <= j < ts[i].deps.len() && ts[i].deps[j] == y;
    assert(!unknown_at(ts, i, j));
}

/// Whether some task has a name.
fn is_declared(tasks: &[Task], name: &str) -> (r: bool)
    ensures
        r == declared(tasks_view(tasks@)).contains(name@),
{
    let ghost all = declared(tasks_view(tasks@));
    let mut i: usize = 0;
    while i < tasks.len()
        invariant
            i <= tasks@.len(),
            all == declared(tasks_view(tasks@)),
            forall|j: int| 0 <= j < i ==> #[trigger] all[j] != name@,
        decreases tasks@.len() - i,
    {
        proof {
            assert(all[i as int] == tasks@[i as int].name@);
        }
        if same_text(tasks[i].name.as_str(), name) {
            return true;
        }
        i = i + 1;
    }
    false
}

/// What is said of a target that does not exist.
pub open spec fn no_such_task(name: Seq<char>) -> Seq<char> {
    "no such task `"@ + name + "`"@
}

/// Computes the tasks that `targets` need within `dag`: the targets and all
/// their direct and indirect dependencies, in declaration order.
///
/// If `targets` is empty, returns every task. The first target that is not a
/// task is an error.
pub fn select_tasks(dag: &Dag, targets: &[String]) -> (r: Result<Vec<Task>, ExecError>)
    ensures
        match r {
            Ok(sel) => {
                &&& all_in(texts(targets@), declared(dag@))
                &&& tasks_view(sel@) == selection(dag@, texts(targets@))
            },
            Err(ExecError::Io { task, source }) => {
                &&& source.kind == IoErrorKind::NotFound
                &&& source.message@ == no_such_task(task@)
                &&& exists|i: int|
                    {
                        &&& 0 <= i < targets@.len()
                        &&& task@ == #[trigger] texts(targets@)[i]
                        &&& !declared(dag@).contains(task@)
                        &&& all_in(texts(targets@).take(i), declared(dag@))
                    }
            },
            Err(_) => false,
        },
        r is Ok <==> forall|i: int| 0 <= i < targets@.len() ==> declared(dag@).contains((#[trigger] targets@[i])@),
        r matches Err(ExecError::Io { task, .. }) ==> exists|i: int|
            {
                &&& 0 <= i < targets@.len()
                &&& task@ == (#[trigger] targets@[i])@
                &&& !declared(dag@).contains(task@)
                &&& forall|j: int| 0 <= j < i ==> declared(dag@).contains((#[trigger] targets@[j])@)
            },
{
    let ghost ts = dag@;
    let ghost goals = texts(targets@);
    if targets.len() == 0 {
        return Ok(copy_tasks(dag.tasks()));
    }
    let tasks = dag.tasks();
    let mut i: usize = 0;
    while i < targets.len()
        invariant
            i <= targets@.len(),
            ts == dag@,
            tasks_view(tasks@) == ts,
            goals == texts(targets@),
            all_in(goals.take(i as int), declared(ts)),
        decreases targets@.len() - i,
    {
        proof {
            assert(goals[i as int] == targets@[i as int]@);
        }
        if !is_declared(tasks, targets[i].as_str()) {
            let mut message = "no such task `".to_owned();
            message.append(targets[i].as_str());
            message.append("`");
            proof {
                assert forall|j: int| 0 <= j < i implies declared(ts).contains((#[trigger] targets@[j])@) by {
                    assert(goals.take(i as int)[j] == targets@[j]@);
                }
            }
            return Err(
                ExecError::Io { task: targets[i].clone(), source: IoError { kind: IoErrorKind::NotFound, message } },
            );
        }
        proof {
            let more = goals.take(i as int + 1);
            assert forall|k: int| 0 <= k < more.len() implies declared(ts).contains(#[trigger] more[k]) by {
                if k < i {
                    assert(more[k] == goals.take(i as int)[k]);
                }
            }
        }
        i = i + 1;
    }
    proof {
        assert(goals.take(goals.len() as int) =~= goals);
        assert forall|j: int| 0 <= j < targets@.len() implies declared(ts).contains((#[trigger] targets@[j])@) by {
            assert(goals[j] == targets@[j]@);
        }
    }
    let selected = closure(dag, targets);
    let mut out: Vec<Task> = Vec::new();
    let mut j: usize = 0;
    while j < tasks.len()
        invariant
            j <= tasks@.len(),
            ts == tasks_view(tasks@),
            ascending(texts(selected@)),
            forall|x: Seq<char>| #[trigger] texts(selected@).contains(x) <==> needed(ts, goals, x),
            tasks_view(out@) == ts.take(j as int).filter(|t: TaskView| needed(ts, goals, t.name)),
        decreases tasks@.len() - j,
    {
        let ghost pred = |t: TaskView| needed(ts, goals, t.name);
        proof {
            filter_step(ts, pred, j as int);
            assert(ts[j as int] == tasks@[j as int]@);
        }
        if let Ok(k) = find(selected.as_slice(), tasks[j].name.as_str()) {
            let ghost out0 = out@;
            proof {
                assert(texts(selected@)[k as int] == tasks@[j as int].name@);
                assert(texts(selected@).contains(tasks@[j as int].name@));
            }
            out.push(tasks[j].clone());
            proof {
                assert(tasks_view(out@) =~= tasks_view(out0).push(ts[j as int]));
            }
        }
        j = j + 1;
    }
    proof {
        assert(ts.take(ts.len() as int) =~= ts);
    }
    Ok(out)
}

/// What targets need of a graph is a graph again: its names are distinct, its
/// dependencies are among it, and it has no cycle.
pub proof fn selection_is_dag(ts: Seq<TaskView>, targets: Seq<Seq<char>>)
    requires
        is_dag(ts),
    ensures
        is_dag(selection(ts, targets)),
{
    if targets.len() > 0 {
        let pred = |t: TaskView| needed(ts, targets, t.name);
        let sel = selection(ts, targets);
        distinct_tasks(ts);
        filter_keeps(ts, pred);
        assert forall|i: int, j: int| 0 <= i < sel.len() && 0 <= j < sel.len() && i != j implies declared(sel)[i]
            != declared(sel)[j] by {
            assert(sel[i] != sel[j]);
            assert(ts.contains(sel[i]) && ts.contains(sel[j]));
            let a = choose|a: int| 0 <= a < ts.len() && ts[a] == sel[i];
            let b = choose|b: int| 0 <= b < ts.len() && ts[b] == sel[j];
            assert(declared(ts)[a] != declared(ts)[b]);
        }
        assert forall|i: int, j: int| !unknown_at(sel, i, j) by {
            if 0 <= i < sel.len() && 0 <= j < sel[i].deps.len() {
                let y = sel[i].deps[j];
                assert(sel.contains(sel[i]));
                assert(ts.contains(sel[i]) && pred(sel[i]));
                let a = choose|a: int| 0 <= a < ts.len() && ts[a] == sel[i];
                assert(ts[a].deps.contains(y));
                assert(depends_on(ts, sel[i].name, y));
                dependency_needed(ts, targets, sel[i].name, y);
                dependency_declared(ts, sel[i].name, y);
                let b = choose|b: int| 0 <= b < declared(ts).len() && declared(ts)[b] == y;
                assert(ts.contains(ts[b]) && pred(ts[b]));
                assert(sel.contains(ts[b]));
                let c = choose|c: int| 0 <= c < sel.len() && sel[c] == ts[b];
                assert(declared(sel)[c] == y);
            }
        }
        if cyclic(sel) {
            let c = choose|c: Seq<Seq<char>>| is_dependency_cycle(sel, c);
            assert forall|i: int| 0 <= i < c.len() - 1 implies depends_on(ts, #[trigger] c[i], c[i + 1]) by {
                let k = choose|k: int|
                    0 <= k < sel.len() && (#[trigger] sel[k]).name == c[i] && sel[k].deps.contains(c[i + 1]);
                assert(ts.contains(sel[k]));
                let a = choose|a: int| 0 <= a < ts.len() && ts[a] == sel[k];
                assert(ts[a].name == c[i]);
            }
            assert(is_dependency_cycle(ts, c));
        }
    }
}

proof fn distinct_tasks(ts: Seq<TaskView>)
    requires
        distinct(ts),
    ensures
        ts.no_duplicates(),
{
    assert forall|i: int, j: int| 0 <= i < ts.len() && 0 <= j < ts.len() && i != j implies ts[i] != ts[j] by {
        assert(declared(ts)[i] != declared(ts)[j]);
    }
}

} // verus!
