//! The validated task graph.

use vstd::prelude::*;

use crate::cycle::{find_cycle, lists};
use crate::error::DagError;
use crate::graph::{
    all_deps, all_known, blocked, build_order, cyclic, declared, dependencies, dependents_of, depends_on, distinct,
    first_repeat_at, first_unknown_at, in_order,
    is_dependency_cycle, occurrences, reported_cycle, unknown_at,
};
use crate::graph_laws::{
    all_deps_are, blocked_ascending, build_order_is_topological, cycle_reported_iff_cyclic, dependencies_are,
    dependents_are, full_order_lists_all, only_declaration, orderable_iff_acyclic, reported_cycle_is_one,
    undeclared_has_no_dependents,
};
use crate::kahn::{
    filter_step, in_order_sorts, schedule, with_name_at, with_name_present,
};
use crate::name_map::{ascending_no_duplicates, NameMap};
use crate::order::{append_strings, ascending, copy_strings, find, texts};
use crate::repeat::first_repeat;
use crate::task::{copy_tasks, tasks_view, Task, TaskView};

verus! {

/// A validated, acyclic task dependency graph.
#[derive(Debug)]
pub struct Dag {
    tasks: Vec<Task>,
    topo: Vec<String>,
    dependents: NameMap<Vec<String>>,
    deps: NameMap<Vec<String>>,
}

impl View for Dag {
    type V = Seq<TaskView>;

    /// The tasks of the graph, in declaration order.
    closed spec fn view(&self) -> Seq<TaskView> {
        tasks_view(self.tasks@)
    }
}

/// The tasks have distinct names, depend only on each other and not on
/// themselves, directly or indirectly.
pub open spec fn is_dag(ts: Seq<TaskView>) -> bool {
    &&& all_known(ts)
    &&& distinct(ts)
    &&& !cyclic(ts)
}

/// `e` tells why tasks form no graph: the first dependency that is not
/// declared; where all are, a cycle; where there is none, the first name that
/// is declared again.
pub open spec fn refused(ts: Seq<TaskView>, e: DagError) -> bool {
    match e {
        DagError::UnknownDependency { task, missing } => exists|i: int, j: int|
            {
                &&& #[trigger] first_unknown_at(ts, i, j)
                &&& task@ == ts[i].name
                &&& missing@ == ts[i].deps[j]
            },
        DagError::Cycle { path } => {
            &&& all_known(ts)
            &&& reported_cycle(ts) == Some(texts(path@))
            &&& is_dependency_cycle(ts, texts(path@))
            &&& texts(path@).drop_last().no_duplicates()
        },
        DagError::DuplicateTask { task } => {
            &&& all_known(ts)
            &&& !cyclic(ts)
            &&& exists|i: int| #[trigger] first_repeat_at(ts, i) && task@ == ts[i].name
        },
    }
}

impl Dag {
    #[verifier::type_invariant]
    spec fn well_formed(self) -> bool {
        &&& is_dag(self@)
        &&& texts(self.topo@) == build_order(self@)
        &&& lists(self.deps@) == dependencies(self@)
        &&& forall|n: Seq<char>| #[trigger] self.dependents@.contains_key(n) <==> declared(self@).contains(n)
        &&& forall|n: Seq<char>|
            #[trigger] self.dependents@.contains_key(n) ==> texts(self.dependents@[n]@) == dependents_of(self@, n)
    }
}

/// The declared names, in ascending order.
fn collect_names(tasks: &[Task]) -> (names: Vec<String>)
    ensures
        texts(names@) == in_order(declared(tasks_view(tasks@))),
{
    let ghost ts = tasks_view(tasks@);
    let ghost all = declared(ts);
    let mut names: Vec<String> = Vec::new();
    let mut i: usize = 0;
    proof {
        assert(texts(names@) =~= in_order(all.take(0)));
    }
    while i < tasks.len()
        invariant
            i <= tasks@.len(),
            ts == tasks_view(tasks@),
            all == declared(ts),
            texts(names@) == in_order(all.take(i as int)),
        decreases tasks@.len() - i,
    {
        let ghost n0 = texts(names@);
        proof {
            in_order_sorts(all.take(i as int));
            assert(all.take(i as int + 1).drop_last() =~= all.take(i as int));
            assert(all.take(i as int + 1).last() == tasks@[i as int].name@);
        }
        match find(names.as_slice(), tasks[i].name.as_str()) {
            Ok(k) => {
                proof {
                    assert(n0[k as int] == tasks@[i as int].name@);
                    with_name_present(n0, tasks@[i as int].name@);
                }
            },
            Err(k) => {
                names.insert(k, tasks[i].name.clone());
                proof {
                    let x = tasks@[i as int].name@;
                    assert(texts(names@) =~= n0.insert(k as int, x));
                    with_name_at(n0, x, k as int);
                }
            },
        }
        i = i + 1;
    }
    proof {
        assert(all.take(all.len() as int) =~= all);
    }
    names
}

/// The position of the first dependency that is not declared.
fn first_unknown(tasks: &[Task], names: &Vec<String>) -> (r: Option<(usize, usize)>)
    requires
        texts(names@) == in_order(declared(tasks_view(tasks@))),
    ensures
        match r {
            Some((i, j)) => first_unknown_at(tasks_view(tasks@), i as int, j as int),
            None => all_known(tasks_view(tasks@)),
        },
{
    let ghost ts = tasks_view(tasks@);
    proof {
        in_order_sorts(declared(ts));
    }
    let mut i: usize = 0;
    while i < tasks.len()
        invariant
            i <= tasks@.len(),
            ts == tasks_view(tasks@),
            texts(names@) == in_order(declared(ts)),
            ascending(texts(names@)),
            forall|x: Seq<char>| #[trigger] in_order(declared(ts)).contains(x) <==> declared(ts).contains(x),
            forall|a: int, b: int| #[trigger] unknown_at(ts, a, b) ==> i <= a,
        decreases tasks@.len() - i,
    {
        let deps: &Vec<String> = &tasks[i].deps;
        proof {
            assert(ts[i as int] == tasks@[i as int]@);
            assert(ts[i as int].deps == texts(deps@));
        }
        let mut j: usize = 0;
        while j < deps.len()
            invariant
                i < tasks@.len(),
                j <= deps@.len(),
                ts == tasks_view(tasks@),
                ts[i as int].deps == texts(deps@),
                texts(names@) == in_order(declared(ts)),
                ascending(texts(names@)),
                forall|x: Seq<char>| #[trigger] in_order(declared(ts)).contains(x) <==> declared(ts).contains(x),
                forall|a: int, b: int| #[trigger] unknown_at(ts, a, b) ==> i < a || (i == a && j <= b),
            decreases deps@.len() - j,
        {
            proof {
                assert(ts[i as int].deps[j as int] == deps@[j as int]@);
            }
            match find(names.as_slice(), deps[j].as_str()) {
                Ok(k) => {
                    proof {
                        assert(texts(names@)[k as int] == deps@[j as int]@);
                        assert(in_order(declared(ts)).contains(deps@[j as int]@));
                        assert(!unknown_at(ts, i as int, j as int));
                    }
                },
                Err(_) => {
                    return Some((i, j));
                },
            }
            j = j + 1;
        }
        i = i + 1;
    }
    None
}

/// The edges of the graph, name by name.
struct Links {
    dependents: Vec<Vec<String>>,
    deps: Vec<Vec<String>>,
    in_degree: Vec<u128>,
}

/// The edges that the tasks `ts` declare are those linked.
spec fn linked(ts: Seq<TaskView>, names: Seq<String>, links: Links) -> bool {
    &&& links.dependents@.len() == names.len()
    &&& links.deps@.len() == names.len()
    &&& links.in_degree@.len() == names.len()
    &&& forall|k: int|
        0 <= k < names.len() ==> texts((#[trigger] links.dependents@[k])@) == dependents_of(ts, names[k]@)
    &&& forall|k: int|
        0 <= k < names.len() ==> texts((#[trigger] links.deps@[k])@) == all_deps(ts, names[k]@)
    &&& forall|k: int| 0 <= k < names.len() ==> #[trigger] links.in_degree@[k] == all_deps(ts, names[k]@).len()
}

proof fn few_deps(ts: Seq<TaskView>, name: Seq<char>)
    requires
        forall|i: int| 0 <= i < ts.len() ==> (#[trigger] ts[i]).deps.len() <= usize::MAX,
    ensures
        all_deps(ts, name).len() <= ts.len() * usize::MAX,
    decreases ts.len(),
{
    if ts.len() > 0 {
        let init = ts.drop_last();
        assert forall|i: int| 0 <= i < init.len() implies (#[trigger] init[i]).deps.len() <= usize::MAX by {
            assert(init[i] == ts[i]);
        }
        few_deps(init, name);
        assert(ts[ts.len() - 1].deps.len() <= usize::MAX);
        assert(ts.len() * usize::MAX == init.len() * usize::MAX + usize::MAX) by (nonlinear_arith)
            requires
                ts.len() == init.len() + 1,
        ;
    }
}

fn no_links(names: &Vec<String>) -> (links: Links)
    ensures
        linked(Seq::empty(), names@, links),
{
    let mut dependents: Vec<Vec<String>> = Vec::new();
    let mut deps: Vec<Vec<String>> = Vec::new();
    let mut in_degree: Vec<u128> = Vec::new();
    let mut k: usize = 0;
    while k < names.len()
        invariant
            k <= names@.len(),
            dependents@.len() == k,
            deps@.len() == k,
            in_degree@.len() == k,
            forall|m: int| 0 <= m < k ==> (#[trigger] dependents@[m])@.len() == 0,
            forall|m: int| 0 <= m < k ==> (#[trigger] deps@[m])@.len() == 0,
            forall|m: int| 0 <= m < k ==> #[trigger] in_degree@[m] == 0,
        decreases names@.len() - k,
    {
        dependents.push(Vec::new());
        deps.push(Vec::new());
        in_degree.push(0);
        k = k + 1;
    }
    let links = Links { dependents, deps, in_degree };
    proof {
        let ts = Seq::<TaskView>::empty();
        assert forall|k: int| 0 <= k < names@.len() implies texts((#[trigger] links.dependents@[k])@) == dependents_of(
            ts,
            names@[k]@,
        ) by {
            assert(texts(links.dependents@[k]@) =~= dependents_of(ts, names@[k]@));
        }
        assert forall|k: int| 0 <= k < names@.len() implies texts((#[trigger] links.deps@[k])@) == all_deps(
            ts,
            names@[k]@,
        ) by {
            assert(texts(links.deps@[k]@) =~= all_deps(ts, names@[k]@));
        }
    }
    links
}

/// Links one more task, the `i`-th.
fn link_task(tasks: &[Task], i: usize, names: &Vec<String>, links: Links) -> (r: Links)
    requires
        i < tasks@.len(),
        texts(names@) == in_order(declared(tasks_view(tasks@))),
        all_known(tasks_view(tasks@)),
        linked(tasks_view(tasks@).take(i as int), names@, links),
    ensures
        linked(tasks_view(tasks@).take(i as int + 1), names@, r),
{
    let ghost ts = tasks_view(tasks@);
    let ghost p = ts.take(i as int);
    let ghost t = ts[i as int];
    let ghost keys = texts(names@);
    let Links { mut dependents, mut deps, mut in_degree } = links;
    proof {
        in_order_sorts(declared(ts));
        ascending_no_duplicates(keys);
        assert(ts.take(i as int + 1).drop_last() =~= p);
        assert(ts.take(i as int + 1).last() == t);
        assert(t == tasks@[i as int]@);
        assert(declared(ts)[i as int] == t.name);
        assert(keys.contains(t.name));
        assert forall|k: int| 0 <= k < p.len() implies (#[trigger] p[k]).deps.len() <= usize::MAX by {
            assert(p[k] == tasks@[k]@);
            assert(tasks@[k]@.deps.len() == tasks@[k].deps.len());
        }
        few_deps(p, t.name);
    }
    let at: usize = match find(names.as_slice(), tasks[i].name.as_str()) {
        Ok(at) => at,
        Err(_) => 0,
    };
    let list: &Vec<String> = &tasks[i].deps;
    let ghost before_links = (dependents@, in_degree@);
    proof {
        assert(keys[at as int] == t.name);
        assert(t.deps == texts(list@));
        assert forall|k: int| 0 <= k < names@.len() implies texts((#[trigger] dependents@[k])@) == dependents_of(
            p,
            names@[k]@,
        ) + occurrences(t.deps.take(0), names@[k]@, t.name) by {
            assert(t.deps.take(0) =~= Seq::<Seq<char>>::empty());
            assert(dependents_of(p, names@[k]@) + Seq::<Seq<char>>::empty() =~= dependents_of(p, names@[k]@));
        }
        assert(i * usize::MAX + usize::MAX <= u128::MAX) by (nonlinear_arith)
            requires
                i <= usize::MAX,
                usize::MAX <= 0xffff_ffff_ffff_ffff,
        ;
    }
    let mut j: usize = 0;
    while j < list.len()
        invariant
            i < tasks@.len(),
            at < names@.len(),
            j <= list@.len(),
            ts == tasks_view(tasks@),
            p == ts.take(i as int),
            t == ts[i as int],
            keys == texts(names@),
            ascending(keys),
            keys == in_order(declared(ts)),
            keys.no_duplicates(),
            keys[at as int] == t.name,
            forall|x: Seq<char>| #[trigger] in_order(declared(ts)).contains(x) <==> declared(ts).contains(x),
            all_known(ts),
            t.deps == texts(list@),
            tasks@[i as int].name@ == t.name,
            dependents@.len() == names@.len(),
            in_degree@.len() == names@.len(),
            all_deps(p, t.name).len() <= i * usize::MAX,
            i * usize::MAX + usize::MAX <= u128::MAX,
            forall|k: int|
                0 <= k < names@.len() ==> texts((#[trigger] dependents@[k])@) == dependents_of(p, names@[k]@)
                    + occurrences(t.deps.take(j as int), names@[k]@, t.name),
            forall|k: int|
                0 <= k < names@.len() ==> #[trigger] in_degree@[k] == all_deps(p, names@[k]@).len() + (if k == at {
                    j as int
                } else {
                    0
                }),
        decreases list@.len() - j,
    {
        proof {
            assert(!unknown_at(ts, i as int, j as int));
            assert(t.deps[j as int] == list@[j as int]@);
            assert(keys.contains(list@[j as int]@));
        }
        let d: usize = match find(names.as_slice(), list[j].as_str()) {
            Ok(d) => d,
            Err(_) => 0,
        };
        let ghost dep0 = dependents@;
        proof {
            assert(keys[d as int] == t.deps[j as int]);
            assert(in_degree@[at as int] == all_deps(p, names@[at as int]@).len() + j);
            assert(names@[at as int]@ == keys[at as int]);
        }
        dependents[d].push(tasks[i].name.clone());
        let more: u128 = in_degree[at] + 1;
        in_degree.set(at, more);
        proof {
            let ds = t.deps.take(j as int + 1);
            assert(ds.drop_last() =~= t.deps.take(j as int));
            assert(ds.last() == t.deps[j as int]);
            assert forall|k: int| 0 <= k < names@.len() implies texts((#[trigger] dependents@[k])@) == dependents_of(
                p,
                names@[k]@,
            ) + occurrences(ds, names@[k]@, t.name) by {
                assert(texts(dep0[k]@) == dependents_of(p, names@[k]@) + occurrences(
                    t.deps.take(j as int),
                    names@[k]@,
                    t.name,
                ));
                assert(keys[k] == names@[k]@);
                if k == d {
                    assert(texts(dependents@[k]@) =~= texts(dep0[k]@).push(t.name));
                    assert(occurrences(ds, names@[k]@, t.name) == occurrences(
                        t.deps.take(j as int),
                        names@[k]@,
                        t.name,
                    ).push(t.name));
                    assert(texts(dependents@[k]@) =~= dependents_of(p, names@[k]@) + occurrences(
                        ds,
                        names@[k]@,
                        t.name,
                    ));
                } else {
                    assert(keys[k] != keys[d as int]);
                    assert(dependents@[k] == dep0[k]);
                }
            }
        }
        j = j + 1;
    }
    let ghost deps0 = deps@;
    append_strings(&mut deps[at], list.as_slice());
    let r = Links { dependents, deps, in_degree };
    proof {
        assert(t.deps.take(t.deps.len() as int) =~= t.deps);
        let q = ts.take(i as int + 1);
        assert forall|k: int| 0 <= k < names@.len() implies texts((#[trigger] r.deps@[k])@) == all_deps(
            q,
            names@[k]@,
        ) by {
            assert(keys[k] == names@[k]@);
            assert(texts(deps0[k]@) == all_deps(p, names@[k]@));
            if k != at {
                assert(keys[k] != keys[at as int]);
                assert(r.deps@[k] == deps0[k]);
            }
        }
        assert forall|k: int| 0 <= k < names@.len() implies #[trigger] r.in_degree@[k] == all_deps(
            q,
            names@[k]@,
        ).len() by {
            assert(keys[k] == names@[k]@);
            if k != at {
                assert(keys[k] != keys[at as int]);
            }
        }
    }
    r
}

/// The names that still miss a dependency.
fn blocked_names(Ghost(ts): Ghost<Seq<TaskView>>, names: &Vec<String>, remaining: &Vec<u128>) -> (r: Vec<String>)
    requires
        texts(names@) == in_order(declared(ts)),
        remaining@.len() == names@.len(),
        forall|k: int|
            0 <= k < names@.len() ==> (build_order(ts).contains(#[trigger] names@[k]@) <==> remaining@[k] == 0),
    ensures
        texts(r@) == blocked(ts),
{
    let ghost keys = texts(names@);
    let mut out: Vec<String> = Vec::new();
    let mut k: usize = 0;
    while k < names.len()
        invariant
            k <= names@.len(),
            keys == texts(names@),
            remaining@.len() == names@.len(),
            forall|k: int|
                0 <= k < names@.len() ==> (build_order(ts).contains(#[trigger] names@[k]@) <==> remaining@[k] == 0),
            texts(out@) == keys.take(k as int).filter(|n: Seq<char>| !build_order(ts).contains(n)),
        decreases names@.len() - k,
    {
        let ghost pred = |n: Seq<char>| !build_order(ts).contains(n);
        proof {
            filter_step(keys, pred, k as int);
            assert(keys[k as int] == names@[k as int]@);
        }
        if remaining[k] > 0 {
            let ghost out0 = out@;
            out.push(names[k].clone());
            proof {
                assert(texts(out@) =~= texts(out0).push(names@[k as int]@));
            }
        }
        k = k + 1;
    }
    proof {
        assert(keys.take(keys.len() as int) =~= keys);
    }
    out
}

proof fn links_on_record(
    ts: Seq<TaskView>,
    names: Seq<String>,
    links: Links,
    deps: Map<Seq<char>, Vec<String>>,
)
    requires
        texts(names) == in_order(declared(ts)),
        linked(ts, names, links),
        forall|k: Seq<char>| #[trigger] deps.contains_key(k) <==> texts(names).contains(k),
        forall|i: int| 0 <= i < names.len() ==> deps[(#[trigger] names[i])@] == links.deps@[i],
    ensures
        lists(deps) == dependencies(ts),
{
    let keys = texts(names);
    in_order_sorts(declared(ts));
    assert forall|k: Seq<char>| lists(deps).contains_key(k) <==> #[trigger] dependencies(ts).contains_key(k) by {
        assert(keys.contains(k) <==> declared(ts).contains(k));
        assert(deps.contains_key(k) <==> keys.contains(k));
    }
    assert forall|k: Seq<char>| #[trigger] dependencies(ts).contains_key(k) implies lists(deps)[k] == dependencies(
        ts,
    )[k] by {
        assert(lists(deps).contains_key(k));
        assert(deps.contains_key(k));
        let i = choose|i: int| 0 <= i < keys.len() && keys[i] == k;
        assert(names[i]@ == k);
        assert(deps[names[i]@] == links.deps@[i]);
        assert(texts(links.deps@[i]@) == all_deps(ts, names[i]@));
    }
    assert(lists(deps) =~= dependencies(ts));
}

impl Dag {
    /// Builds the graph of a list of tasks.
    ///
    /// Returns [`DagError::UnknownDependency`] if a task refers to a dependency
    /// that is not declared, or [`DagError::Cycle`] if the graph is cyclic. If it
    /// is not, but a name is declared more than once, which leaves no order of
    /// the declarations, it returns [`DagError::DuplicateTask`].
    pub fn build(tasks: &[Task]) -> (r: Result<Self, DagError>)
        ensures
            match r {
                Ok(dag) => {
                    &&& dag@ == tasks_view(tasks@)
                    &&& is_dag(tasks_view(tasks@))
                },
                Err(e) => refused(tasks_view(tasks@), e),
            },
            r is Ok <==> is_dag(tasks_view(tasks@)),
    {
        let ghost ts = tasks_view(tasks@);
        let names = collect_names(tasks);
        if let Some((i, j)) = first_unknown(tasks, &names) {
            let task = tasks[i].name.clone();
            let missing = tasks[i].deps[j].clone();
            proof {
                assert(ts[i as int] == tasks@[i as int]@);
                assert(first_unknown_at(ts, i as int, j as int));
                assert(unknown_at(ts, i as int, j as int));
            }
            return Err(DagError::UnknownDependency { task, missing });
        }
        let mut links = no_links(&names);
        let mut i: usize = 0;
        proof {
            assert(ts.take(0) =~= Seq::<TaskView>::empty());
        }
        while i < tasks.len()
            invariant
                i <= tasks@.len(),
                ts == tasks_view(tasks@),
                texts(names@) == in_order(declared(ts)),
                all_known(ts),
                linked(ts.take(i as int), names@, links),
            decreases tasks@.len() - i,
        {
            links = link_task(tasks, i, &names, links);
            i = i + 1;
        }
        proof {
            assert(ts.take(ts.len() as int) =~= ts);
            in_order_sorts(declared(ts));
            orderable_iff_acyclic(ts);
        }
        let ghost all_links = links;
        let Links { dependents, deps, in_degree } = links;
        let (topo, remaining) = schedule(Ghost(ts), &names, &dependents, in_degree);
        let keys = copy_strings(names.as_slice());
        let ghost copied = keys@;
        proof {
            assert(copied.len() == texts(copied).len());
        }
        let deps_map = NameMap::from_sorted(keys, deps);
        proof {
            assert(topo@.len() == texts(topo@).len());
            assert forall|i: int| 0 <= i < names@.len() implies deps_map@[(#[trigger] names@[i])@]
                == all_links.deps@[i] by {
                assert(texts(copied)[i] == texts(names@)[i]);
                assert(deps_map@[copied[i]@] == all_links.deps@[i]);
            }
            links_on_record(ts, names@, all_links, deps_map@);
        }
        if topo.len() != tasks.len() {
            let live = blocked_names(Ghost(ts), &names, &remaining);
            proof {
                blocked_ascending(ts);
                cycle_reported_iff_cyclic(ts);
                if cyclic(ts) {
                    reported_cycle_is_one(ts);
                }
            }
            if let Some(path) = find_cycle(live.as_slice(), &deps_map) {
                return Err(DagError::Cycle { path });
            }
            if let Some(i) = first_repeat(tasks) {
                proof {
                    assert(ts[i as int] == tasks@[i as int]@);
                    repeat_is_no_dag(ts, i as int);
                }
                return Err(DagError::DuplicateTask { task: tasks[i].name.clone() });
            }
            // Not reached: what cannot be ordered has a cycle or a repeated name.
        }
        let dependents_map = NameMap::from_sorted(names, dependents);
        let dag = Dag { tasks: copy_tasks(tasks), topo, dependents: dependents_map, deps: deps_map };
        Ok(dag)
    }

    /// Task names in topological (ready-first) order.
    pub fn topo_order(&self) -> (r: &[String])
        ensures
            texts(r@) == build_order(self@),
            is_dag(self@),
    {
        proof {
            use_type_invariant(self);
        }
        self.topo.as_slice()
    }

    /// Tasks that depend on `name`, in declaration order.
    pub fn dependents(&self, name: &str) -> (r: &[String])
        ensures
            texts(r@) == dependents_of(self@, name@),
    {
        proof {
            use_type_invariant(self);
        }
        match self.dependents.get(name) {
            Some(list) => list.as_slice(),
            None => {
                proof {
                    undeclared_has_no_dependents(self@, name@);
                }
                &[]
            },
        }
    }

    /// Dependencies declared by `name`.
    pub fn deps_of(&self, name: &str) -> (r: &[String])
        ensures
            texts(r@) == all_deps(self@, name@),
            forall|i: int|
                0 <= i < self@.len() && (#[trigger] self@[i]).name == name@ ==> texts(r@) == self@[i].deps,
            !declared(self@).contains(name@) ==> r@.len() == 0,
    {
        proof {
            use_type_invariant(self);
            dependencies_are(self@, name@);
            assert forall|i: int| 0 <= i < self@.len() && (#[trigger] self@[i]).name == name@ implies all_deps(
                self@,
                name@,
            ) == self@[i].deps by {
                only_declaration(self@, i);
            }
        }
        match self.deps.get(name) {
            Some(list) => list.as_slice(),
            None => &[],
        }
    }

    /// All tasks, in declaration order.
    pub fn tasks(&self) -> (r: &[Task])
        ensures
            tasks_view(r@) == self@,
            is_dag(self@),
    {
        proof {
            use_type_invariant(self);
        }
        self.tasks.as_slice()
    }
}

proof fn repeat_is_no_dag(ts: Seq<TaskView>, i: int)
    requires
        first_repeat_at(ts, i),
    ensures
        !distinct(ts),
{
    let j = choose|j: int| 0 <= j < i && declared(ts).take(i)[j] == ts[i].name;
    assert(declared(ts)[j] == declared(ts)[i]);
}

impl Clone for Dag {
    fn clone(&self) -> (d: Self)
        ensures
            d@ == self@,
    {
        proof {
            use_type_invariant(self);
        }
        let dependents = self.dependents.clone();
        let deps = self.deps.clone();
        proof {
            assert forall|n: Seq<char>| #[trigger] dependents@.contains_key(n) <==> self.dependents@.contains_key(n) by {
                assert(lists(dependents@).contains_key(n) <==> lists(self.dependents@).contains_key(n));
            }
            assert forall|n: Seq<char>| #[trigger] dependents@.contains_key(n) implies texts(dependents@[n]@)
                == dependents_of(self@, n) by {
                assert(lists(dependents@)[n] == lists(self.dependents@)[n]);
            }
        }
        Dag {
            tasks: copy_tasks(self.tasks.as_slice()),
            topo: copy_strings(self.topo.as_slice()),
            dependents,
            deps,
        }
    }
}

/// The order of a graph lists every task exactly once, and each after all that
/// it depends on.
pub proof fn order_respects_dependencies(ts: Seq<TaskView>)
    requires
        is_dag(ts),
    ensures
        build_order(ts).len() == ts.len(),
        build_order(ts).no_duplicates(),
        forall|x: Seq<char>| #[trigger] build_order(ts).contains(x) <==> declared(ts).contains(x),
        forall|i: int, j: int|
            0 <= i < ts.len() && 0 <= j < ts.len() && depends_on(
                ts,
                #[trigger] build_order(ts)[i],
                #[trigger] build_order(ts)[j],
            ) ==> j < i,
{
    let order = build_order(ts);
    orderable_iff_acyclic(ts);
    full_order_lists_all(ts);
    build_order_is_topological(ts);
    assert forall|i: int, j: int|
        0 <= i < ts.len() && 0 <= j < ts.len() && depends_on(ts, #[trigger] order[i], #[trigger] order[j]) implies j
        < i by {
        assert(order.take(i).contains(order[j]));
        let k = choose|k: int| 0 <= k < order.take(i).len() && order.take(i)[k] == order[j];
        assert(order[k] == order[j]);
    }
}

/// `a` is listed as a dependent of `b` exactly where `b` is listed as a
/// dependency of `a`.
pub proof fn dependents_mirror_dependencies(ts: Seq<TaskView>, a: Seq<char>, b: Seq<char>)
    requires
        is_dag(ts),
    ensures
        dependents_of(ts, b).contains(a) <==> all_deps(ts, a).contains(b),
{
    dependents_are(ts, b, a);
    all_deps_are(ts, a, b);
}

} // verus!
