//! What makes a graph, and what is said of tasks that form none, told of the
//! names and dependencies that they list.

use vstd::prelude::*;

use crate::cycle::{deps_at, explore, first_cycle, is_sink, search_from, Search};
use crate::dag::{is_dag, refused};
use crate::error::DagError;
use crate::graph::{
    all_in, all_known, blocked, build_order, cyclic, declared, dependencies, depends_on, distinct,
    first_repeat_at, first_unknown_at, is_dependency_cycle, reported_cycle, unknown_at,
};
use crate::graph_laws::{
    all_deps_are, blocked_are, blocked_ascending, build_order_is_topological, cycle_reported_iff_cyclic, dependencies_are,
};
use crate::kahn::no_longer_than;
use crate::order::{before, texts};
use crate::task::TaskView;

verus! {

/// Some task has the name `x`.
pub open spec fn has_task(ts: Seq<TaskView>, x: Seq<char>) -> bool {
    exists|m: int| 0 <= m < ts.len() && (#[trigger] ts[m]).name == x
}

proof fn declared_is(ts: Seq<TaskView>, x: Seq<char>)
    ensures
        declared(ts).contains(x) <==> has_task(ts, x),
{
    if declared(ts).contains(x) {
        let m = choose|m: int| 0 <= m < declared(ts).len() && declared(ts)[m] == x;
        assert(ts[m].name == x);
    }
    if has_task(ts, x) {
        let m = choose|m: int| 0 <= m < ts.len() && (#[trigger] ts[m]).name == x;
        assert(declared(ts)[m] == x);
    }
}

/// The declared names are those of the tasks, in their order.
pub proof fn each_task_declares_its_name(ts: Seq<TaskView>)
    ensures
        declared(ts).len() == ts.len(),
        forall|i: int| 0 <= i < ts.len() ==> #[trigger] declared(ts)[i] == ts[i].name,
        forall|x: Seq<char>| #[trigger] declared(ts).contains(x) <==> exists|m: int|
            0 <= m < ts.len() && (#[trigger] ts[m]).name == x,
{
    assert forall|x: Seq<char>| #[trigger] declared(ts).contains(x) <==> exists|m: int|
        0 <= m < ts.len() && (#[trigger] ts[m]).name == x by {
        declared_is(ts, x);
    }
}

/// Tasks of different names, each ranked above the tasks that it lists, form a
/// graph.
pub proof fn ranked_tasks_form_a_graph(ts: Seq<TaskView>, rank: spec_fn(Seq<char>) -> nat)
    requires
        forall|i: int, j: int| 0 <= i < j < ts.len() ==> (#[trigger] ts[i]).name != (#[trigger] ts[j]).name,
        forall|i: int, k: int|
            0 <= i < ts.len() && 0 <= k < ts[i].deps.len() ==> has_task(ts, #[trigger] ts[i].deps[k]),
        forall|i: int, k: int|
            0 <= i < ts.len() && 0 <= k < ts[i].deps.len() ==> rank(#[trigger] ts[i].deps[k]) < rank(ts[i].name),
    ensures
        is_dag(ts),
{
    assert(distinct(ts));
    assert forall|i: int, j: int| !unknown_at(ts, i, j) by {
        if 0 <= i < ts.len() && 0 <= j < ts[i].deps.len() {
            declared_is(ts, ts[i].deps[j]);
        }
    }
    if cyclic(ts) {
        let c = choose|c: Seq<Seq<char>>| is_dependency_cycle(ts, c);
        rank_falls(ts, rank, c, c.len() - 1);
    }
}

proof fn rank_falls(ts: Seq<TaskView>, rank: spec_fn(Seq<char>) -> nat, c: Seq<Seq<char>>, n: int)
    requires
        forall|i: int, k: int|
            0 <= i < ts.len() && 0 <= k < ts[i].deps.len() ==> rank(#[trigger] ts[i].deps[k]) < rank(ts[i].name),
        is_dependency_cycle(ts, c),
        0 < n < c.len(),
    ensures
        rank(c[n]) < rank(c[0]),
    decreases n,
{
    if n > 1 {
        rank_falls(ts, rank, c, n - 1);
    }
    let m = n - 1;
    assert(depends_on(ts, c[m], c[m + 1]));
    let i = choose|i: int| 0 <= i < ts.len() && (#[trigger] ts[i]).name == c[m] && ts[i].deps.contains(c[m + 1]);
    let k = choose|k: int| 0 <= k < ts[i].deps.len() && ts[i].deps[k] == c[m + 1];
    assert(rank(ts[i].deps[k]) < rank(ts[i].name));
}

/// In a graph no two tasks have one name, and whatever a task lists is a task.
pub proof fn a_graph_is_whole(ts: Seq<TaskView>)
    requires
        is_dag(ts),
    ensures
        forall|i: int, j: int| 0 <= i < j < ts.len() ==> (#[trigger] ts[i]).name != (#[trigger] ts[j]).name,
        forall|i: int, k: int|
            0 <= i < ts.len() && 0 <= k < ts[i].deps.len() ==> exists|m: int|
                0 <= m < ts.len() && (#[trigger] ts[m]).name == #[trigger] ts[i].deps[k],
{
    assert forall|i: int, j: int| 0 <= i < j < ts.len() implies (#[trigger] ts[i]).name != (#[trigger] ts[j]).name by {
        assert(declared(ts)[i] != declared(ts)[j]);
    }
    assert forall|i: int, k: int| 0 <= i < ts.len() && 0 <= k < ts[i].deps.len() implies exists|m: int|
        0 <= m < ts.len() && (#[trigger] ts[m]).name == #[trigger] ts[i].deps[k] by {
        assert(!unknown_at(ts, i, k));
        declared_is(ts, ts[i].deps[k]);
    }
}

/// In a graph no walk from task to listed task comes back to where it began.
pub proof fn no_walk_comes_back(ts: Seq<TaskView>, walk: Seq<int>)
    requires
        is_dag(ts),
        walk.len() >= 2,
        forall|k: int| 0 <= k < walk.len() ==> 0 <= #[trigger] walk[k] < ts.len(),
        forall|k: int|
            0 <= k < walk.len() - 1 ==> ts[#[trigger] walk[k]].deps.contains(ts[walk[k + 1]].name),
    ensures
        walk.first() != walk.last(),
{
    let c = Seq::new(walk.len(), |k: int| ts[walk[k]].name);
    assert forall|k: int| 0 <= k < c.len() - 1 implies depends_on(ts, #[trigger] c[k], c[k + 1]) by {
        let i = walk[k];
        assert(ts[i].name == c[k] && ts[i].deps.contains(ts[walk[k + 1]].name));
    }
    if walk.first() == walk.last() {
        assert(is_dependency_cycle(ts, c));
    }
}

/// An unknown dependency is the first that is listed and no task.
pub proof fn unknown_dependency_is_the_first(ts: Seq<TaskView>, task: String, missing: String)
    requires
        refused(ts, DagError::UnknownDependency { task, missing }),
    ensures
        forall|m: int| 0 <= m < ts.len() ==> (#[trigger] ts[m]).name != missing@,
        exists|i: int, j: int|
            {
                &&& 0 <= i < ts.len()
                &&& 0 <= j < ts[i].deps.len()
                &&& ts[i].name == task@
                &&& #[trigger] ts[i].deps[j] == missing@
                &&& forall|a: int, b: int|
                    0 <= a < ts.len() && 0 <= b < ts[a].deps.len() && (a < i || a == i && b < j) ==> has_task(
                        ts,
                        #[trigger] ts[a].deps[b],
                    )
            },
{
    let (i, j) = choose|i: int, j: int|
        {
            &&& #[trigger] first_unknown_at(ts, i, j)
            &&& task@ == ts[i].name
            &&& missing@ == ts[i].deps[j]
        };
    declared_is(ts, missing@);
    assert(ts[i].deps[j] == missing@);
    assert forall|a: int, b: int|
        0 <= a < ts.len() && 0 <= b < ts[a].deps.len() && (a < i || a == i && b < j) implies has_task(
        ts,
        #[trigger] ts[a].deps[b],
    ) by {
        assert(!unknown_at(ts, a, b));
        declared_is(ts, ts[a].deps[b]);
    }
}

/// A repeated name is the first that an earlier task has; then every dependency
/// is a task and there is no cycle.
pub proof fn repeated_name_is_the_first(ts: Seq<TaskView>, task: String)
    requires
        refused(ts, DagError::DuplicateTask { task }),
    ensures
        exists|i: int, j: int|
            {
                &&& 0 <= i < j < ts.len()
                &&& (#[trigger] ts[i]).name == task@
                &&& (#[trigger] ts[j]).name == task@
                &&& forall|a: int, b: int| 0 <= a < b < j ==> (#[trigger] ts[a]).name != (#[trigger] ts[b]).name
            },
        forall|i: int, k: int|
            0 <= i < ts.len() && 0 <= k < ts[i].deps.len() ==> has_task(ts, #[trigger] ts[i].deps[k]),
        !cyclic(ts),
{
    let j = choose|j: int| #[trigger] first_repeat_at(ts, j) && task@ == ts[j].name;
    let earlier = declared(ts).take(j);
    let i = choose|i: int| 0 <= i < earlier.len() && earlier[i] == ts[j].name;
    assert(ts[i].name == task@ && ts[j].name == task@);
    assert forall|a: int, b: int| 0 <= a < b < j implies (#[trigger] ts[a]).name != (#[trigger] ts[b]).name by {
        assert(earlier[a] != earlier[b]);
    }
    assert forall|i: int, k: int| 0 <= i < ts.len() && 0 <= k < ts[i].deps.len() implies has_task(
        ts,
        #[trigger] ts[i].deps[k],
    ) by {
        assert(!unknown_at(ts, i, k));
        declared_is(ts, ts[i].deps[k]);
    }
}

/// A reported cycle ends where it begins and otherwise repeats nothing; each of
/// its names is that of a task that lists the next. Then every dependency is a
/// task.
pub proof fn cycle_goes_from_task_to_listed_task(ts: Seq<TaskView>, path: Vec<String>)
    requires
        refused(ts, DagError::Cycle { path }),
    ensures
        path@.len() >= 2,
        path@[0]@ == path@[path@.len() - 1]@,
        forall|i: int, j: int| 0 <= i < j < path@.len() - 1 ==> (#[trigger] path@[i])@ != (#[trigger] path@[j])@,
        forall|k: int|
            0 <= k < path@.len() - 1 ==> exists|i: int|
                0 <= i < ts.len() && (#[trigger] ts[i]).name == (#[trigger] path@[k])@ && ts[i].deps.contains(
                    path@[k + 1]@,
                ),
        forall|i: int, k: int|
            0 <= i < ts.len() && 0 <= k < ts[i].deps.len() ==> has_task(ts, #[trigger] ts[i].deps[k]),
{
    let c = texts(path@);
    assert forall|i: int, k: int| 0 <= i < ts.len() && 0 <= k < ts[i].deps.len() implies has_task(
        ts,
        #[trigger] ts[i].deps[k],
    ) by {
        assert(!unknown_at(ts, i, k));
        declared_is(ts, ts[i].deps[k]);
    }
    assert forall|i: int, j: int| 0 <= i < j < path@.len() - 1 implies (#[trigger] path@[i])@ != (
    #[trigger] path@[j])@ by {
        assert(c.drop_last()[i] != c.drop_last()[j]);
    }
    assert forall|k: int| 0 <= k < path@.len() - 1 implies exists|i: int|
        0 <= i < ts.len() && (#[trigger] ts[i]).name == (#[trigger] path@[k])@ && ts[i].deps.contains(
            path@[k + 1]@,
        ) by {
        assert(depends_on(ts, c[k], c[k + 1]));
    }
}

/// `b` is the first live name of `list`.
pub open spec fn first_live(live: Seq<Seq<char>>, list: Seq<Seq<char>>, b: Seq<char>) -> bool {
    live.contains(b) && exists|k: int|
        0 <= k < list.len() && #[trigger] list[k] == b && forall|j: int|
            0 <= j < k ==> !live.contains(#[trigger] list[j])
}

/// `walk` goes from each name to the first of its dependencies that is live.
pub open spec fn takes_the_first(
    live: Seq<Seq<char>>,
    deps: Map<Seq<char>, Seq<Seq<char>>>,
    walk: Seq<Seq<char>>,
) -> bool {
    forall|i: int, j: int|
        0 <= i && j == i + 1 && j < walk.len() ==> first_live(
            live,
            deps_at(deps, #[trigger] walk[i]),
            #[trigger] walk[j],
        )
}

/// `walk` starts at `start`, takes the first live dependency each time and
/// stops at the first name that comes again; what lies between is `c`.
pub open spec fn closes_in(
    live: Seq<Seq<char>>,
    deps: Map<Seq<char>, Seq<Seq<char>>>,
    start: Seq<char>,
    walk: Seq<Seq<char>>,
    c: Seq<Seq<char>>,
) -> bool {
    &&& walk.first() == start
    &&& takes_the_first(live, deps, walk)
    &&& walk.drop_last().no_duplicates()
    &&& 2 <= c.len() <= walk.len()
    &&& c.first() == c.last()
    &&& c == walk.skip(walk.len() - c.len())
}

/// `c` closes the walk that starts at `start`.
pub open spec fn met_from(
    live: Seq<Seq<char>>,
    deps: Map<Seq<char>, Seq<Seq<char>>>,
    start: Seq<char>,
    c: Seq<Seq<char>>,
) -> bool {
    exists|walk: Seq<Seq<char>>| closes_in(live, deps, start, walk, c)
}

proof fn one_step_more(
    live: Seq<Seq<char>>,
    deps: Map<Seq<char>, Seq<Seq<char>>>,
    path: Seq<Seq<char>>,
    child: Seq<char>,
)
    requires
        path.len() > 0,
        takes_the_first(live, deps, path),
        first_live(live, deps_at(deps, path.last()), child),
    ensures
        takes_the_first(live, deps, path.push(child)),
{
    let walk = path.push(child);
    assert forall|i: int, j: int| 0 <= i && j == i + 1 && j < walk.len() implies first_live(
        live,
        deps_at(deps, #[trigger] walk[i]),
        #[trigger] walk[j],
    ) by {
        assert(walk[i] == path[i]);
        if j < path.len() {
            assert(walk[j] == path[j]);
        }
    }
}

proof fn explore_takes_the_first(
    live: Seq<Seq<char>>,
    deps: Map<Seq<char>, Seq<Seq<char>>>,
    path: Seq<Seq<char>>,
    k: int,
)
    requires
        forall|x: Seq<char>| #[trigger] live.contains(x) ==> !is_sink(live, deps, x),
        path.len() > 0,
        path.no_duplicates(),
        all_in(path, live),
        takes_the_first(live, deps, path),
        0 <= k <= deps_at(deps, path.last()).len(),
        forall|j: int| 0 <= j < k ==> !live.contains(#[trigger] deps_at(deps, path.last())[j]),
    ensures
        explore(live, deps, path, k, Set::empty()) is Found,
        met_from(live, deps, path.first(), explore(live, deps, path, k, Set::empty())->Found_0),
    decreases live.len() - path.len(), deps_at(deps, path.last()).len() - k,
{
    let list = deps_at(deps, path.last());
    assert(live.contains(path[path.len() - 1]));
    assert(!is_sink(live, deps, path.last()));
    if k == list.len() {
        assert(false);
    } else {
        let child = list[k];
        if !live.contains(child) {
            explore_takes_the_first(live, deps, path, k + 1);
            assert(explore(live, deps, path, k, Set::empty()) == explore(live, deps, path, k + 1, Set::empty()));
        } else {
            let walk = path.push(child);
            assert(list[k] == child);
            assert(first_live(live, list, child));
            one_step_more(live, deps, path, child);
            if path.contains(child) {
                let at = path.index_of(child);
                let c = path.skip(at).push(child);
                assert(walk.drop_last() =~= path);
                assert(c =~= walk.skip(at));
                assert(c[0] == path[at]);
                assert(closes_in(live, deps, path.first(), walk, c));
                assert(explore(live, deps, path, k, Set::empty()) == Search::Found(c));
            } else {
                assert forall|i: int| 0 <= i < walk.len() implies live.contains(#[trigger] walk[i]) by {
                    if i < path.len() {
                        assert(walk[i] == path[i]);
                    }
                }
                no_longer_than(walk, live);
                explore_takes_the_first(live, deps, walk, 0);
                assert(walk.first() == path.first());
                assert(explore(live, deps, path, k, Set::empty()) == explore(live, deps, walk, 0, Set::empty()));
            }
        }
    }
}

/// Where every live name has a live dependency, the cycle found is the one that
/// is met on the way from the first name, going each time to the first live
/// dependency, up to the first name that comes again.
pub proof fn first_cycle_is_met_first(live: Seq<Seq<char>>, deps: Map<Seq<char>, Seq<Seq<char>>>)
    requires
        live.len() > 0,
        forall|x: Seq<char>| #[trigger] live.contains(x) ==> !is_sink(live, deps, x),
    ensures
        first_cycle(live, deps) is Some,
        met_from(live, deps, live[0], first_cycle(live, deps)->0),
{
    let path = seq![live[0]];
    assert(live.contains(path[0]));
    assert(takes_the_first(live, deps, path));
    explore_takes_the_first(live, deps, path, 0);
    assert(path.first() == live[0]);
    assert(first_cycle(live, deps) == Some(explore(live, deps, path, 0, Set::empty())->Found_0));
}

proof fn sink_is_exhausted(
    live: Seq<Seq<char>>,
    deps: Map<Seq<char>, Seq<Seq<char>>>,
    path: Seq<Seq<char>>,
    k: int,
    done: Set<Seq<char>>,
)
    requires
        is_sink(live, deps, path.last()),
        0 <= k <= deps_at(deps, path.last()).len(),
    ensures
        explore(live, deps, path, k, done) == Search::Exhausted(done.insert(path.last())),
    decreases deps_at(deps, path.last()).len() - k,
{
    if k < deps_at(deps, path.last()).len() {
        assert(!live.contains(deps_at(deps, path.last())[k]));
        sink_is_exhausted(live, deps, path, k + 1, done);
    }
}

/// What a search comes to is the same but for `x`.
spec fn same_but_for(a: Search, b: Search, x: Seq<char>) -> bool {
    match (a, b) {
        (Search::Found(c), Search::Found(d)) => c == d,
        (Search::Exhausted(d), Search::Exhausted(e)) => d.remove(x) == e.remove(x),
        _ => false,
    }
}

proof fn explore_without_sink(
    live: Seq<Seq<char>>,
    deps: Map<Seq<char>, Seq<Seq<char>>>,
    n: int,
    path: Seq<Seq<char>>,
    k: int,
    done: Set<Seq<char>>,
    less: Set<Seq<char>>,
)
    requires
        live.no_duplicates(),
        0 <= n < live.len(),
        is_sink(live, deps, live[n]),
        path.len() > 0,
        path.no_duplicates(),
        all_in(path, live.remove(n)),
        0 <= k <= deps_at(deps, path.last()).len(),
        done.remove(live[n]) == less.remove(live[n]),
    ensures
        same_but_for(
            explore(live, deps, path, k, done),
            explore(live.remove(n), deps, path, k, less),
            live[n],
        ),
    decreases live.len() - path.len(), deps_at(deps, path.last()).len() - k,
{
    let x = live[n];
    let rest = live.remove(n);
    let list = deps_at(deps, path.last());
    without_one(live, n);
    assert(rest.contains(path[path.len() - 1]));
    if k == list.len() {
        assert(done.insert(path.last()).remove(x) =~= done.remove(x).insert(path.last()));
        assert(less.insert(path.last()).remove(x) =~= less.remove(x).insert(path.last()));
    } else {
        let child = list[k];
        let p = path.push(child);
        if child == x {
            assert(!rest.contains(x));
            assert(!path.contains(x)) by {
                if path.contains(x) {
                    let i = choose|i: int| 0 <= i < path.len() && path[i] == x;
                    assert(rest.contains(path[i]));
                }
            }
            if done.contains(x) {
                explore_without_sink(live, deps, n, path, k + 1, done, less);
            } else {
                no_longer_than(path, rest);
                assert(p.last() == x);
                sink_is_exhausted(live, deps, p, 0, done);
                assert(done.insert(x).remove(x) =~= done.remove(x));
                explore_without_sink(live, deps, n, path, k + 1, done.insert(x), less);
            }
        } else {
            assert(live.contains(child) <==> rest.contains(child));
            assert(done.remove(x).contains(child) <==> less.remove(x).contains(child));
            if !live.contains(child) || done.contains(child) {
                explore_without_sink(live, deps, n, path, k + 1, done, less);
            } else if !path.contains(child) {
                assert forall|i: int| 0 <= i < p.len() implies rest.contains(#[trigger] p[i]) by {
                    if i < path.len() {
                        assert(p[i] == path[i]);
                    }
                }
                no_longer_than(p, rest);
                explore_without_sink(live, deps, n, p, 0, done, less);
                match explore(live, deps, p, 0, done) {
                    Search::Exhausted(d) => {
                        let e = explore(rest, deps, p, 0, less)->Exhausted_0;
                        explore_without_sink(live, deps, n, path, k + 1, d, e);
                    },
                    Search::Found(_) => {},
                }
            }
        }
    }
}

proof fn without_one(live: Seq<Seq<char>>, n: int)
    requires
        live.no_duplicates(),
        0 <= n < live.len(),
    ensures
        live.remove(n).len() == live.len() - 1,
        forall|y: Seq<char>| #[trigger] live.remove(n).contains(y) <==> live.contains(y) && y != live[n],
{
    let rest = live.remove(n);
    assert forall|y: Seq<char>| #[trigger] rest.contains(y) <==> live.contains(y) && y != live[n] by {
        if rest.contains(y) {
            let i = choose|i: int| 0 <= i < rest.len() && rest[i] == y;
            if i < n {
                assert(live[i] == y);
            } else {
                assert(live[i + 1] == y);
            }
        }
        if live.contains(y) && y != live[n] {
            let i = choose|i: int| 0 <= i < live.len() && live[i] == y;
            if i < n {
                assert(rest[i] == y);
            } else {
                assert(rest[i - 1] == y);
            }
        }
    }
}

proof fn search_without_sink(
    live: Seq<Seq<char>>,
    deps: Map<Seq<char>, Seq<Seq<char>>>,
    n: int,
    i: int,
    done: Set<Seq<char>>,
    less: Set<Seq<char>>,
)
    requires
        live.no_duplicates(),
        0 <= n < live.len(),
        is_sink(live, deps, live[n]),
        0 <= i <= live.len(),
        done.remove(live[n]) == less.remove(live[n]),
    ensures
        search_from(live, deps, i, done) == search_from(
            live.remove(n),
            deps,
            if i <= n {
                i
            } else {
                i - 1
            },
            less,
        ),
    decreases live.len() - i,
{
    let x = live[n];
    let rest = live.remove(n);
    without_one(live, n);
    if i < live.len() {
        let path = seq![live[i]];
        if i == n {
            if done.contains(x) {
                search_without_sink(live, deps, n, i + 1, done, less);
            } else {
                assert(path.last() == x);
                sink_is_exhausted(live, deps, path, 0, done);
                assert(done.insert(x).remove(x) =~= done.remove(x));
                search_without_sink(live, deps, n, i + 1, done.insert(x), less);
            }
        } else {
            let j = if i <= n {
                i
            } else {
                i - 1
            };
            assert(rest[j] == live[i]);
            assert(live[i] != x);
            assert(done.remove(x).contains(live[i]) <==> less.remove(x).contains(live[i]));
            if done.contains(live[i]) {
                search_without_sink(live, deps, n, i + 1, done, less);
            } else {
                assert(rest.contains(path[0]));
                explore_without_sink(live, deps, n, path, 0, done, less);
                match explore(live, deps, path, 0, done) {
                    Search::Exhausted(d) => {
                        let e = explore(rest, deps, path, 0, less)->Exhausted_0;
                        search_without_sink(live, deps, n, i + 1, d, e);
                    },
                    Search::Found(_) => {},
                }
            }
        }
    }
}

/// A name without live dependencies makes no difference to the cycle that is
/// found.
pub proof fn sink_makes_no_difference(live: Seq<Seq<char>>, deps: Map<Seq<char>, Seq<Seq<char>>>, n: int)
    requires
        live.no_duplicates(),
        0 <= n < live.len(),
        forall|k: int| 0 <= k < deps_at(deps, live[n]).len() ==> !live.contains(#[trigger] deps_at(deps, live[n])[k]),
    ensures
        first_cycle(live, deps) == first_cycle(live.remove(n), deps),
{
    search_without_sink(live, deps, n, 0, Set::empty(), Set::empty());
}

/// The cycle that is reported is the one that is met on the way from the least
/// blocked name, going each time to the first dependency that is blocked, up to
/// the first name that comes again.
pub proof fn reported_cycle_is_met_first(ts: Seq<TaskView>)
    requires
        all_known(ts),
        cyclic(ts),
    ensures
        blocked(ts).len() > 0,
        reported_cycle(ts) is Some,
        met_from(blocked(ts), dependencies(ts), blocked(ts)[0], reported_cycle(ts)->0),
        forall|x: Seq<char>|
            #[trigger] blocked(ts).contains(x) ==> x == blocked(ts)[0] || before(blocked(ts)[0], x),
{
    let live = blocked(ts);
    let deps = dependencies(ts);
    let order = build_order(ts);
    build_order_is_topological(ts);
    cycle_reported_iff_cyclic(ts);
    blocked_are(ts);
    blocked_ascending(ts);
    assert forall|x: Seq<char>| #[trigger] live.contains(x) implies !is_sink(live, deps, x) by {
        let b = choose|b: Seq<char>| depends_on(ts, x, b) && !order.contains(b);
        assert(depends_on(ts, x, b) && !order.contains(b));
        let i = choose|i: int| 0 <= i < ts.len() && (#[trigger] ts[i]).name == x && ts[i].deps.contains(b);
        let j = choose|j: int| 0 <= j < ts[i].deps.len() && ts[i].deps[j] == b;
        assert(!unknown_at(ts, i, j));
        assert(live.contains(b));
        all_deps_are(ts, x, b);
        dependencies_are(ts, x);
        let q = choose|q: int| 0 <= q < deps_at(deps, x).len() && deps_at(deps, x)[q] == b;
        assert(live.contains(deps_at(deps, x)[q]));
    }
    first_cycle_is_met_first(live, deps);
    assert forall|x: Seq<char>| #[trigger] live.contains(x) implies x == live[0] || before(live[0], x) by {
        let i = choose|i: int| 0 <= i < live.len() && live[i] == x;
        if i > 0 {
            assert(before(live[0], live[i]));
        }
    }
}

} // verus!
