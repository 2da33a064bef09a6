//! What holds of build orders and of cycles.

use vstd::prelude::*;

use crate::cycle::{deps_at, first_cycle, first_cycle_decides, is_sink};
use crate::graph::{
    all_deps, all_in, all_known, blocked, build_order, completed, completed_at, cyclic, declared, dependencies,
    dependents_of, depends_on, distinct, grown, in_order, is_dependency_cycle, occurrences, released, reported_cycle, roots,
    unknown_at,
};
use crate::kahn::{contains_push, count_dependents, count_zero, filter_keeps, in_order_sorts, no_longer_than};
use crate::name_map::ascending_no_duplicates;
use crate::order::{ascending, before};
use crate::task::TaskView;

verus! {

/// The collected dependencies of a name are the names it depends on.
pub proof fn all_deps_are(ts: Seq<TaskView>, a: Seq<char>, b: Seq<char>)
    ensures
        all_deps(ts, a).contains(b) <==> depends_on(ts, a, b),
    decreases ts.len(),
{
    if ts.len() > 0 {
        let init = ts.drop_last();
        let t = ts.last();
        let rest = all_deps(init, a);
        all_deps_are(init, a, b);
        if depends_on(ts, a, b) {
            let i = choose|i: int| 0 <= i < ts.len() && (#[trigger] ts[i]).name == a && ts[i].deps.contains(b);
            if i < init.len() {
                assert(init[i] == ts[i]);
                let j = choose|j: int| 0 <= j < rest.len() && rest[j] == b;
                assert(all_deps(ts, a)[j] == b);
            } else {
                let j = choose|j: int| 0 <= j < t.deps.len() && t.deps[j] == b;
                assert(all_deps(ts, a)[rest.len() + j] == b);
            }
        }
        if all_deps(ts, a).contains(b) {
            let j = choose|j: int| 0 <= j < all_deps(ts, a).len() && all_deps(ts, a)[j] == b;
            if j < rest.len() {
                assert(rest[j] == b);
                let i = choose|i: int| 0 <= i < init.len() && (#[trigger] init[i]).name == a && init[i].deps.contains(b);
                assert(ts[i] == init[i]);
            } else {
                assert(t.deps[j - rest.len()] == b);
                assert(ts[ts.len() - 1].deps.contains(b));
            }
        }
    }
}

/// A name is listed among the dependents of another just if it depends on it.
pub proof fn dependents_are(ts: Seq<TaskView>, m: Seq<char>, c: Seq<char>)
    ensures
        dependents_of(ts, m).contains(c) <==> depends_on(ts, c, m),
{
    count_dependents(ts, m, c);
    count_zero(dependents_of(ts, m), c);
    count_zero(all_deps(ts, c), m);
    all_deps_are(ts, c, m);
}

proof fn completed_entries(ts: Seq<TaskView>, done: Seq<Seq<char>>, list: Seq<Seq<char>>, e: int)
    requires
        0 <= e <= list.len(),
    ensures
        ({
            let r = completed(ts, done, list, e);
            &&& r.no_duplicates()
            &&& forall|x: Seq<char>| #[trigger] r.contains(x) ==> exists|i: int| 0 <= i < e && list[i] == x && completed_at(ts, done, list, i)
            &&& forall|i: int| 0 <= i < e && #[trigger] completed_at(ts, done, list, i) ==> r.contains(list[i])
        }),
    decreases e,
{
    if e > 0 {
        let r0 = completed(ts, done, list, e - 1);
        let r = completed(ts, done, list, e);
        completed_entries(ts, done, list, e - 1);
        let x = list[e - 1];
        if completed_at(ts, done, list, e - 1) {
            assert(!r0.contains(x)) by {
                if r0.contains(x) {
                    let i = choose|i: int| 0 <= i < e - 1 && list[i] == x && completed_at(ts, done, list, i);
                    assert(list.skip(i + 1)[e - 1 - (i + 1)] == list[i]);
                }
            }
            assert forall|y: Seq<char>| #[trigger] r.contains(y) implies exists|i: int|
                0 <= i < e && list[i] == y && completed_at(ts, done, list, i) by {
                contains_push(r0, x, y);
                if r0.contains(y) {
                    let i = choose|i: int| 0 <= i < e - 1 && list[i] == y && completed_at(ts, done, list, i);
                    assert(0 <= i < e && list[i] == y && completed_at(ts, done, list, i));
                } else {
                    assert(0 <= e - 1 < e && list[e - 1] == y && completed_at(ts, done, list, e - 1));
                }
            }
            assert forall|i: int| 0 <= i < e && #[trigger] completed_at(ts, done, list, i) implies r.contains(list[i]) by {
                contains_push(r0, x, list[i]);
            }
        }
    }
}

/// `order` is what the build order looks like when the names up to the `n`-th
/// have released theirs.
spec fn staged(ts: Seq<TaskView>, order: Seq<Seq<char>>, n: int) -> bool {
    &&& 0 <= n <= order.len()
    &&& order.no_duplicates()
    &&& all_in(order, declared(ts))
    &&& forall|i: int|
        0 <= i < order.len() ==> all_in(all_deps(ts, #[trigger] order[i]), order.take(n)) && all_in(
            all_deps(ts, order[i]),
            order.take(i),
        )
    &&& forall|c: Seq<char>|
        #[trigger] declared(ts).contains(c) && all_in(all_deps(ts, c), order.take(n)) ==> order.contains(c)
}

proof fn all_in_more(names: Seq<Seq<char>>, a: Seq<Seq<char>>, b: Seq<Seq<char>>)
    requires
        all_in(names, a),
        a.len() <= b.len(),
        b.take(a.len() as int) == a,
    ensures
        all_in(names, b),
{
    assert forall|i: int| 0 <= i < names.len() implies b.contains(#[trigger] names[i]) by {
        assert(a.contains(names[i]));
        let j = choose|j: int| 0 <= j < a.len() && a[j] == names[i];
        assert(b.take(a.len() as int)[j] == a[j]);
        assert(b[j] == names[i]);
    }
}

proof fn last_occurrence(list: Seq<Seq<char>>, x: Seq<char>) -> (e: int)
    requires
        list.contains(x),
    ensures
        0 <= e < list.len(),
        list[e] == x,
        !list.skip(e + 1).contains(x),
    decreases list.len(),
{
    let n = list.len() as int;
    if list[n - 1] == x {
        assert(list.skip(n) =~= Seq::<Seq<char>>::empty());
        n - 1
    } else {
        let init = list.drop_last();
        let i = choose|i: int| 0 <= i < list.len() && list[i] == x;
        assert(init[i] == x);
        let e = last_occurrence(init, x);
        let tail = list.skip(e + 1);
        if tail.contains(x) {
            let j = choose|j: int| 0 <= j < tail.len() && tail[j] == x;
            assert(init.skip(e + 1)[j] == x);
        }
        e
    }
}

proof fn staged_step(ts: Seq<TaskView>, order: Seq<Seq<char>>, n: int)
    requires
        staged(ts, order, n),
        n < order.len(),
    ensures
        staged(ts, order + released(ts, order, n), n + 1),
{
    let m = order[n];
    let done = order.take(n + 1);
    let list = dependents_of(ts, m);
    let r = released(ts, order, n);
    let next = order + r;
    completed_entries(ts, done, list, list.len() as int);
    assert(next.take(n + 1) =~= done);
    // What is released was not listed, is declared, and has all it needs.
    assert forall|i: int| 0 <= i < r.len() implies !order.contains(#[trigger] r[i]) && declared(ts).contains(r[i])
        && all_in(all_deps(ts, r[i]), done) by {
        assert(r.contains(r[i]));
        let e = choose|e: int| 0 <= e < list.len() && list[e] == r[i] && completed_at(ts, done, list, e);
        assert(list.contains(r[i]));
        dependents_are(ts, m, r[i]);
        all_deps_are(ts, r[i], m);
        let d = choose|d: int| 0 <= d < ts.len() && (#[trigger] ts[d]).name == r[i] && ts[d].deps.contains(m);
        assert(declared(ts)[d] == r[i]);
        if order.contains(r[i]) {
            let p = choose|p: int| 0 <= p < order.len() && order[p] == r[i];
            assert(all_in(all_deps(ts, order[p]), order.take(n)));
            let q = choose|q: int| 0 <= q < all_deps(ts, r[i]).len() && all_deps(ts, r[i])[q] == m;
            assert(order.take(n).contains(all_deps(ts, order[p])[q]));
            let prefix = order.take(n);
            let s = choose|s: int| 0 <= s < prefix.len() && prefix[s] == m;
            assert(order[s] == order[n]);
        }
    }
    assert forall|i: int, j: int| 0 <= i < next.len() && 0 <= j < next.len() && i != j implies next[i] != next[j] by {
        let k = order.len();
        if i < k && j >= k {
            assert(!order.contains(r[j - k]));
            assert(order.contains(order[i]));
        } else if j < k && i >= k {
            assert(!order.contains(r[i - k]));
            assert(order.contains(order[j]));
        } else if i >= k && j >= k {
            assert(r[i - k] != r[j - k]);
        }
    }
    assert forall|i: int| 0 <= i < next.len() implies declared(ts).contains(#[trigger] next[i]) by {
        if i < order.len() {
            assert(next[i] == order[i]);
        } else {
            assert(next[i] == r[i - order.len()]);
        }
    }
    assert forall|i: int| 0 <= i < next.len() implies all_in(all_deps(ts, #[trigger] next[i]), next.take(n + 1))
        && all_in(all_deps(ts, next[i]), next.take(i)) by {
        if i < order.len() {
            assert(next[i] == order[i]);
            assert(done.take(n) =~= order.take(n));
            all_in_more(all_deps(ts, next[i]), order.take(n), done);
            assert(next.take(i) =~= order.take(i));
        } else {
            assert(next[i] == r[i - order.len()]);
            assert(next.take(i).take(n + 1) =~= done);
            all_in_more(all_deps(ts, next[i]), done, next.take(i));
        }
    }
    assert forall|c: Seq<char>|
        #[trigger] declared(ts).contains(c) && all_in(all_deps(ts, c), next.take(n + 1)) implies next.contains(c) by {
        let deps = all_deps(ts, c);
        if deps.contains(m) {
            all_deps_are(ts, c, m);
            dependents_are(ts, m, c);
            let e = last_occurrence(list, c);
            assert(completed_at(ts, done, list, e));
            assert(r.contains(list[e]));
            let j = choose|j: int| 0 <= j < r.len() && r[j] == c;
            assert(next[order.len() + j] == c);
        } else {
            assert forall|i: int| 0 <= i < deps.len() implies order.take(n).contains(#[trigger] deps[i]) by {
                assert(deps.contains(deps[i]));
                assert(done.contains(deps[i]));
                let j = choose|j: int| 0 <= j < done.len() && done[j] == deps[i];
                assert(order.take(n)[j] == deps[i]);
            }
            assert(order.contains(c));
            let j = choose|j: int| 0 <= j < order.len() && order[j] == c;
            assert(next[j] == c);
        }
    }
}

proof fn staged_roots(ts: Seq<TaskView>)
    ensures
        staged(ts, roots(ts), 0),
{
    let order = roots(ts);
    let pred = |n: Seq<char>| all_deps(ts, n).len() == 0;
    let names = in_order(declared(ts));
    in_order_sorts(declared(ts));
    ascending_no_duplicates(names);
    filter_keeps(names, pred);
    assert forall|i: int| 0 <= i < order.len() implies declared(ts).contains(#[trigger] order[i]) && all_deps(
        ts,
        order[i],
    ).len() == 0 by {
        assert(names.contains(order[i]));
        assert(order.contains(order[i]));
        assert(pred(order[i]));
    }
    assert forall|c: Seq<char>|
        #[trigger] declared(ts).contains(c) && all_in(all_deps(ts, c), order.take(0)) implies order.contains(c) by {
        if all_deps(ts, c).len() > 0 {
            assert(order.take(0).contains(all_deps(ts, c)[0]));
        }
        assert(names.contains(c));
        assert(pred(c));
    }
}

proof fn staged_grown(ts: Seq<TaskView>, order: Seq<Seq<char>>, n: int)
    requires
        staged(ts, order, n),
    ensures
        staged(ts, grown(ts, order, n), grown(ts, order, n).len() as int),
    decreases ts.len() - n,
{
    no_longer_than(order, declared(ts));
    if n < order.len() {
        staged_step(ts, order, n);
        staged_grown(ts, order + released(ts, order, n), n + 1);
    }
}

/// In the build order every name is declared and stands once, after all its
/// dependencies; and a declared name whose dependencies are all in it is in it.
pub proof fn build_order_is_topological(ts: Seq<TaskView>)
    ensures
        build_order(ts).no_duplicates(),
        all_in(build_order(ts), declared(ts)),
        forall|i: int, b: Seq<char>|
            0 <= i < build_order(ts).len() && depends_on(ts, #[trigger] build_order(ts)[i], b)
                ==> #[trigger] build_order(ts).take(i).contains(b),
        forall|c: Seq<char>|
            #[trigger] declared(ts).contains(c) && (forall|b: Seq<char>|
                depends_on(ts, c, b) ==> build_order(ts).contains(b)) ==> build_order(ts).contains(c),
        build_order(ts).len() <= ts.len(),
{
    let order = build_order(ts);
    staged_roots(ts);
    staged_grown(ts, roots(ts), 0);
    no_longer_than(order, declared(ts));
    assert forall|i: int, b: Seq<char>|
        0 <= i < order.len() && depends_on(ts, #[trigger] order[i], b) implies #[trigger] order.take(i).contains(b) by {
        all_deps_are(ts, order[i], b);
        let deps = all_deps(ts, order[i]);
        let q = choose|q: int| 0 <= q < deps.len() && deps[q] == b;
        assert(order.take(i).contains(deps[q]));
    }
    assert forall|c: Seq<char>|
        #[trigger] declared(ts).contains(c) && (forall|b: Seq<char>|
            depends_on(ts, c, b) ==> order.contains(b)) implies order.contains(c) by {
        let deps = all_deps(ts, c);
        assert(order.take(order.len() as int) =~= order);
        assert forall|i: int| 0 <= i < deps.len() implies order.contains(#[trigger] deps[i]) by {
            assert(deps.contains(deps[i]));
            all_deps_are(ts, c, deps[i]);
        }
    }
}

/// Whenever the dependencies of a name are among the first of the order, so are
/// those of every name that stands before it.
spec fn ready_in_turn(ts: Seq<TaskView>, order: Seq<Seq<char>>) -> bool {
    forall|i: int, j: int, p: int|
        0 <= i < j < order.len() && 0 <= p <= order.len() && all_in(
            #[trigger] all_deps(ts, order[j]),
            #[trigger] order.take(p),
        ) ==> all_in(#[trigger] all_deps(ts, order[i]), order.take(p))
}

proof fn ready_step(ts: Seq<TaskView>, order: Seq<Seq<char>>, n: int)
    requires
        staged(ts, order, n),
        n < order.len(),
        ready_in_turn(ts, order),
    ensures
        ready_in_turn(ts, order + released(ts, order, n)),
{
    let m = order[n];
    let done = order.take(n + 1);
    let list = dependents_of(ts, m);
    let r = released(ts, order, n);
    let next = order + r;
    staged_step(ts, order, n);
    completed_entries(ts, done, list, list.len() as int);
    assert(next.take(n + 1) =~= done);
    assert forall|i: int, j: int, p: int|
        0 <= i < j < next.len() && 0 <= p <= next.len() && all_in(
            #[trigger] all_deps(ts, next[j]),
            #[trigger] next.take(p),
        ) implies all_in(#[trigger] all_deps(ts, next[i]), next.take(p)) by {
        assert(all_in(all_deps(ts, next[i]), next.take(n + 1)));
        if p >= n + 1 {
            assert(next.take(p).take(n + 1) =~= next.take(n + 1));
            all_in_more(all_deps(ts, next[i]), next.take(n + 1), next.take(p));
        } else if j < order.len() {
            assert(next.take(p) =~= order.take(p));
            assert(next[j] == order[j] && next[i] == order[i]);
        } else {
            // What is released waits for `m`, which the first `p` lack.
            let x = r[j - order.len()];
            assert(next[j] == x);
            assert(r.contains(x));
            assert(list.contains(x));
            dependents_are(ts, m, x);
            all_deps_are(ts, x, m);
            let deps = all_deps(ts, next[j]);
            let q = choose|q: int| 0 <= q < deps.len() && deps[q] == m;
            assert(next.take(p).contains(deps[q]));
            let s = choose|s: int| 0 <= s < next.take(p).len() && next.take(p)[s] == m;
            assert(next[s] == next[n]);
        }
    }
}

proof fn ready_grown(ts: Seq<TaskView>, order: Seq<Seq<char>>, n: int)
    requires
        staged(ts, order, n),
        ready_in_turn(ts, order),
    ensures
        ready_in_turn(ts, grown(ts, order, n)),
    decreases ts.len() - n,
{
    no_longer_than(order, declared(ts));
    if n < order.len() {
        staged_step(ts, order, n);
        ready_step(ts, order, n);
        ready_grown(ts, order + released(ts, order, n), n + 1);
    }
}

/// The build order is ready-first: whenever all that a name depends on is among
/// the first `p` names, the same holds of every name that stands before it.
pub proof fn build_order_is_ready_first(ts: Seq<TaskView>, i: int, j: int, p: int)
    requires
        0 <= i < j < build_order(ts).len(),
        0 <= p <= build_order(ts).len(),
        all_in(all_deps(ts, build_order(ts)[j]), build_order(ts).take(p)),
    ensures
        all_in(all_deps(ts, build_order(ts)[i]), build_order(ts).take(p)),
{
    let first = roots(ts);
    staged_roots(ts);
    assert(first.take(0) =~= Seq::<Seq<char>>::empty());
    assert forall|a: int, b: int, q: int|
        0 <= a < b < first.len() && 0 <= q <= first.len() && all_in(
            #[trigger] all_deps(ts, first[b]),
            #[trigger] first.take(q),
        ) implies all_in(#[trigger] all_deps(ts, first[a]), first.take(q)) by {
        assert(all_in(all_deps(ts, first[a]), first.take(0)));
        if all_deps(ts, first[a]).len() > 0 {
            assert(first.take(0).contains(all_deps(ts, first[a])[0]));
        }
    }
    ready_grown(ts, first, 0);
}

proof fn grown_starts_with(ts: Seq<TaskView>, order: Seq<Seq<char>>, n: int)
    ensures
        grown(ts, order, n).len() >= order.len(),
        forall|i: int| 0 <= i < order.len() ==> #[trigger] grown(ts, order, n)[i] == order[i],
    decreases ts.len() - n,
{
    if 0 <= n < order.len() && n < ts.len() {
        let more = order + released(ts, order, n);
        grown_starts_with(ts, more, n + 1);
        assert forall|i: int| 0 <= i < order.len() implies #[trigger] grown(ts, order, n)[i] == order[i] by {
            assert(more[i] == order[i]);
        }
    }
}

/// The tasks without dependencies come first, in the order of their names.
pub proof fn roots_come_first_by_name(ts: Seq<TaskView>, i: int, j: int)
    requires
        0 <= i < j < build_order(ts).len(),
        all_deps(ts, build_order(ts)[j]).len() == 0,
    ensures
        all_deps(ts, build_order(ts)[i]).len() == 0,
        before(build_order(ts)[i], build_order(ts)[j]),
{
    let order = build_order(ts);
    let first = roots(ts);
    let pred = |n: Seq<char>| all_deps(ts, n).len() == 0;
    build_order_is_topological(ts);
    build_order_is_ready_first(ts, i, j, 0);
    if all_deps(ts, order[i]).len() > 0 {
        assert(order.take(0).contains(all_deps(ts, order[i])[0]));
    }
    staged_roots(ts);
    grown_starts_with(ts, first, 0);
    in_order_sorts(declared(ts));
    filter_ascending(in_order(declared(ts)), pred);
    root_stands_in_front(ts, i);
    root_stands_in_front(ts, j);
    assert(order[i] == first[i] && order[j] == first[j]);
}

proof fn root_stands_in_front(ts: Seq<TaskView>, i: int)
    requires
        0 <= i < build_order(ts).len(),
        all_deps(ts, build_order(ts)[i]).len() == 0,
    ensures
        i < roots(ts).len(),
{
    let order = build_order(ts);
    let first = roots(ts);
    build_order_is_topological(ts);
    staged_roots(ts);
    grown_starts_with(ts, first, 0);
    assert(declared(ts).contains(order[i]));
    assert(all_in(all_deps(ts, order[i]), first.take(0)));
    assert(first.contains(order[i]));
    let k = choose|k: int| 0 <= k < first.len() && first[k] == order[i];
    assert(order[k] == first[k]);
}

proof fn dependents_in_turn(ts: Seq<TaskView>, m: Seq<char>, e: int, f: int, a: int, b: int)
    requires
        distinct(ts),
        0 <= e < f < dependents_of(ts, m).len(),
        0 <= a < ts.len(),
        0 <= b < ts.len(),
        dependents_of(ts, m)[e] == ts[a].name,
        dependents_of(ts, m)[f] == ts[b].name,
    ensures
        a <= b,
    decreases ts.len(),
{
    let init = ts.drop_last();
    let t = ts.last();
    let front = dependents_of(init, m);
    let list = dependents_of(ts, m);
    let names = declared(ts);
    distinct_shortened(ts);
    occurrences_are(t.deps, m, t.name);
    if b < ts.len() - 1 {
        if f >= front.len() {
            assert(list[f] == occurrences(t.deps, m, t.name)[f - front.len()]);
            assert(names[b] == names[ts.len() - 1]);
        }
        assert(list[f] == front[f] && list[e] == front[e]);
        if a == ts.len() - 1 {
            assert(front.contains(front[e]));
            dependents_are(init, m, front[e]);
            let d = choose|d: int| 0 <= d < init.len() && (#[trigger] init[d]).name == front[e] && init[d].deps.contains(m);
            assert(names[d] == names[a]);
        } else {
            assert(init[a] == ts[a] && init[b] == ts[b]);
            dependents_in_turn(init, m, e, f, a, b);
        }
    }
}

proof fn occurrences_are(deps: Seq<Seq<char>>, name: Seq<char>, dependent: Seq<char>)
    ensures
        forall|i: int|
            0 <= i < occurrences(deps, name, dependent).len() ==> #[trigger] occurrences(deps, name, dependent)[i]
                == dependent,
        occurrences(deps, name, dependent).len() == deps.filter(|d: Seq<char>| d == name).len(),
    decreases deps.len(),
{
    reveal(Seq::filter);
    if deps.len() > 0 {
        occurrences_are(deps.drop_last(), name, dependent);
    }
}

/// The dependencies of a name are listed in declaration order: one more task of
/// that name adds those that it lists at the end, any other adds none.
pub proof fn dependencies_grow_in_declaration_order(ts: Seq<TaskView>, t: TaskView, name: Seq<char>)
    ensures
        all_deps(Seq::empty(), name).len() == 0,
        t.name == name ==> all_deps(ts.push(t), name) == all_deps(ts, name) + t.deps,
        t.name != name ==> all_deps(ts.push(t), name) == all_deps(ts, name),
{
    assert(ts.push(t).drop_last() =~= ts);
}

/// The dependents of a name are listed in declaration order: one more task adds
/// its name at the end, as often as it lists the dependency.
pub proof fn dependents_grow_in_declaration_order(ts: Seq<TaskView>, t: TaskView, name: Seq<char>)
    ensures
        ({
            let was = dependents_of(ts, name);
            let now = dependents_of(ts.push(t), name);
            &&& dependents_of(Seq::empty(), name).len() == 0
            &&& now.len() == was.len() + t.deps.filter(|d: Seq<char>| d == name).len()
            &&& forall|i: int| 0 <= i < was.len() ==> #[trigger] now[i] == was[i]
            &&& forall|i: int| was.len() <= i < now.len() ==> #[trigger] now[i] == t.name
        }),
{
    assert(ts.push(t).drop_last() =~= ts);
    occurrences_are(t.deps, name, t.name);
    let was = dependents_of(ts, name);
    let now = dependents_of(ts.push(t), name);
    assert forall|i: int| was.len() <= i < now.len() implies #[trigger] now[i] == t.name by {
        assert(now[i] == occurrences(t.deps, name, t.name)[i - was.len()]);
    }
}

proof fn completed_in_list_order(ts: Seq<TaskView>, done: Seq<Seq<char>>, list: Seq<Seq<char>>, e: int, x: int, y: int)
    requires
        0 <= e <= list.len(),
        0 <= x < y < completed(ts, done, list, e).len(),
    ensures
        exists|a: int, b: int|
            0 <= a < b < e && #[trigger] list[a] == completed(ts, done, list, e)[x] && #[trigger] list[b] == completed(
                ts,
                done,
                list,
                e,
            )[y],
    decreases e,
{
    let r = completed(ts, done, list, e);
    let rest = completed(ts, done, list, e - 1);
    if y < rest.len() {
        assert(r[x] == rest[x] && r[y] == rest[y]);
        completed_in_list_order(ts, done, list, e - 1, x, y);
        let (a, b) = choose|a: int, b: int|
            0 <= a < b < e - 1 && #[trigger] list[a] == rest[x] && #[trigger] list[b] == rest[y];
        assert(0 <= a < b < e && list[a] == r[x] && list[b] == r[y]);
    } else {
        assert(r[x] == rest[x]);
        completed_entries(ts, done, list, e - 1);
        assert(rest.contains(rest[x]));
        let a = choose|a: int| 0 <= a < e - 1 && list[a] == rest[x] && completed_at(ts, done, list, a);
        assert(0 <= a < e - 1 < e && list[a] == r[x] && list[e - 1] == r[y]);
    }
}

/// Two names that were ready no sooner than with the `p`-th are listed in
/// declaration order.
spec fn ties_in_turn(ts: Seq<TaskView>, order: Seq<Seq<char>>) -> bool {
    forall|i: int, j: int, p: int, a: int, b: int|
        0 <= i < j < order.len() && 0 < p <= order.len() && 0 <= a < ts.len() && 0 <= b < ts.len() && (
        #[trigger] ts[a]).name == #[trigger] order[i] && (#[trigger] ts[b]).name == #[trigger] order[j] && all_in(
            all_deps(ts, order[j]),
            #[trigger] order.take(p),
        ) && !all_in(all_deps(ts, order[i]), order.take(p - 1)) ==> a < b
}

/// A name that is released is ready later than one that is in the order.
proof fn released_is_ready_later(ts: Seq<TaskView>, order: Seq<Seq<char>>, n: int, i: int, j: int, p: int)
    requires
        staged(ts, order, n),
        n < order.len(),
        0 <= i < order.len(),
        0 <= j < released(ts, order, n).len(),
        0 < p <= order.len() + released(ts, order, n).len(),
        !all_in(all_deps(ts, order[i]), (order + released(ts, order, n)).take(p - 1)),
    ensures
        !all_in(all_deps(ts, released(ts, order, n)[j]), (order + released(ts, order, n)).take(p)),
{
    let m = order[n];
    let list = dependents_of(ts, m);
    let r = released(ts, order, n);
    let next = order + r;
    let x = r[j];
    ready_soon(ts, order, n, i, p);
    completed_entries(ts, order.take(n + 1), list, list.len() as int);
    assert(r.contains(x));
    assert(list.contains(x));
    dependents_are(ts, m, x);
    all_deps_are(ts, x, m);
    let deps = all_deps(ts, x);
    let q = choose|q: int| 0 <= q < deps.len() && deps[q] == m;
    if next.take(p).contains(deps[q]) {
        let s = choose|s: int| 0 <= s < next.take(p).len() && next.take(p)[s] == m;
        assert(order[s] == order[n]);
    }
}

/// A name of the order is ready before the `n`-th.
proof fn ready_soon(ts: Seq<TaskView>, order: Seq<Seq<char>>, n: int, i: int, p: int)
    requires
        staged(ts, order, n),
        n < order.len(),
        0 <= i < order.len(),
        0 < p <= order.len() + released(ts, order, n).len(),
        !all_in(all_deps(ts, order[i]), (order + released(ts, order, n)).take(p - 1)),
    ensures
        p <= n,
{
    let next = order + released(ts, order, n);
    if p - 1 >= n {
        assert(next.take(p - 1).take(n) =~= order.take(n));
        all_in_more(all_deps(ts, order[i]), order.take(n), next.take(p - 1));
    }
}

/// Names that are released together stand in declaration order.
proof fn released_in_turn(ts: Seq<TaskView>, order: Seq<Seq<char>>, n: int, i: int, j: int, a: int, b: int)
    requires
        distinct(ts),
        staged(ts, order, n),
        n < order.len(),
        0 <= i < j < released(ts, order, n).len(),
        0 <= a < ts.len(),
        0 <= b < ts.len(),
        ts[a].name == released(ts, order, n)[i],
        ts[b].name == released(ts, order, n)[j],
    ensures
        a < b,
{
    let m = order[n];
    let done = order.take(n + 1);
    let list = dependents_of(ts, m);
    let r = released(ts, order, n);
    let next = order + r;
    staged_step(ts, order, n);
    completed_in_list_order(ts, done, list, list.len() as int, i, j);
    let (e, f) = choose|e: int, f: int|
        0 <= e < f < list.len() && #[trigger] list[e] == r[i] && #[trigger] list[f] == r[j];
    dependents_in_turn(ts, m, e, f, a, b);
    assert(next[order.len() + i] != next[order.len() + j]);
}

proof fn ties_step(ts: Seq<TaskView>, order: Seq<Seq<char>>, n: int)
    requires
        distinct(ts),
        staged(ts, order, n),
        n < order.len(),
        ties_in_turn(ts, order),
    ensures
        ties_in_turn(ts, order + released(ts, order, n)),
{
    let r = released(ts, order, n);
    let next = order + r;
    let k = order.len();
    assert forall|i: int, j: int, p: int, a: int, b: int|
        0 <= i < j < next.len() && 0 < p <= next.len() && 0 <= a < ts.len() && 0 <= b < ts.len() && (
        #[trigger] ts[a]).name == #[trigger] next[i] && (#[trigger] ts[b]).name == #[trigger] next[j] && all_in(
            all_deps(ts, next[j]),
            #[trigger] next.take(p),
        ) && !all_in(all_deps(ts, next[i]), next.take(p - 1)) implies a < b by {
        if i >= k {
            released_in_turn(ts, order, n, i - k, j - k, a, b);
        } else if j >= k {
            released_is_ready_later(ts, order, n, i, j - k, p);
        } else {
            ready_soon(ts, order, n, i, p);
            assert(next[i] == order[i] && next[j] == order[j]);
            assert(next.take(p) =~= order.take(p));
            assert(next.take(p - 1) =~= order.take(p - 1));
        }
    }
}

proof fn ties_grown(ts: Seq<TaskView>, order: Seq<Seq<char>>, n: int)
    requires
        distinct(ts),
        staged(ts, order, n),
        ties_in_turn(ts, order),
    ensures
        ties_in_turn(ts, grown(ts, order, n)),
    decreases ts.len() - n,
{
    no_longer_than(order, declared(ts));
    if n < order.len() {
        staged_step(ts, order, n);
        ties_step(ts, order, n);
        ties_grown(ts, order + released(ts, order, n), n + 1);
    }
}

/// Tasks that become ready together, by the `p`-th name of the build order,
/// follow in declaration order.
pub proof fn ready_together_in_declaration_order(ts: Seq<TaskView>, i: int, j: int, p: int, a: int, b: int)
    requires
        distinct(ts),
        0 <= i < j < build_order(ts).len(),
        0 < p <= build_order(ts).len(),
        0 <= a < ts.len(),
        0 <= b < ts.len(),
        ts[a].name == build_order(ts)[i],
        ts[b].name == build_order(ts)[j],
        all_in(all_deps(ts, build_order(ts)[j]), build_order(ts).take(p)),
        !all_in(all_deps(ts, build_order(ts)[i]), build_order(ts).take(p - 1)),
    ensures
        a < b,
{
    let first = roots(ts);
    staged_roots(ts);
    assert forall|i: int| 0 <= i < first.len() implies all_deps(ts, #[trigger] first[i]).len() == 0 by {
        assert(all_in(all_deps(ts, first[i]), first.take(0)));
        if all_deps(ts, first[i]).len() > 0 {
            assert(first.take(0).contains(all_deps(ts, first[i])[0]));
        }
    }
    ties_grown(ts, first, 0);
}

/// A task depends on what it lists, and on nothing else.
pub proof fn a_task_depends_on_what_it_lists(ts: Seq<TaskView>, a: Seq<char>, b: Seq<char>, i: int, k: int)
    ensures
        0 <= i < ts.len() && 0 <= k < ts[i].deps.len() ==> depends_on(ts, ts[i].name, ts[i].deps[k]),
        depends_on(ts, a, b) ==> exists|i: int, k: int|
            0 <= i < ts.len() && 0 <= k < (#[trigger] ts[i]).deps.len() && ts[i].name == a && #[trigger] ts[i].deps[k] == b,
{
    if 0 <= i < ts.len() && 0 <= k < ts[i].deps.len() {
        assert(ts[i].deps.contains(ts[i].deps[k]));
    }
    if depends_on(ts, a, b) {
        let d = choose|d: int| 0 <= d < ts.len() && (#[trigger] ts[d]).name == a && ts[d].deps.contains(b);
        let q = choose|q: int| 0 <= q < ts[d].deps.len() && ts[d].deps[q] == b;
        assert(ts[d].deps[q] == b);
    }
}

/// `chain` starts at `x` and takes `m` steps, each to a dependency.
pub open spec fn is_chain(ts: Seq<TaskView>, x: Seq<char>, m: int, chain: Seq<Seq<char>>) -> bool {
    &&& chain.len() == m + 1
    &&& chain.first() == x
    &&& forall|i: int| 0 <= i < m ==> depends_on(ts, #[trigger] chain[i], chain[i + 1])
}

/// A chain of dependencies of `m` steps leads down from `x`: its depth is at
/// least `m`.
pub open spec fn as_deep_as(ts: Seq<TaskView>, x: Seq<char>, m: int) -> bool {
    exists|chain: Seq<Seq<char>>| is_chain(ts, x, m, chain)
}

/// Along the build order the depth of the tasks never falls: where a chain of
/// dependencies leads down from one, as long a chain does from every later one.
pub proof fn depth_never_falls(ts: Seq<TaskView>, i: int, j: int, m: int)
    requires
        0 <= i <= j < build_order(ts).len(),
        0 <= m,
        as_deep_as(ts, build_order(ts)[i], m),
    ensures
        as_deep_as(ts, build_order(ts)[j], m),
    decreases m,
{
    let order = build_order(ts);
    let x = order[j];
    build_order_is_topological(ts);
    if m == 0 {
        assert(is_chain(ts, x, 0, seq![x]));
    } else if i < j {
        let chain = choose|chain: Seq<Seq<char>>| is_chain(ts, order[i], m, chain);
        let b = chain[1];
        assert(depends_on(ts, chain[0], chain[0int + 1]));
        assert(order.take(i).contains(b));
        let q = choose|q: int| 0 <= q < order.take(i).len() && order.take(i)[q] == b;
        assert(order[q] == b);
        assert(as_deep_as(ts, b, m - 1)) by {
            let rest = chain.skip(1);
            assert forall|k: int| 0 <= k < m - 1 implies depends_on(ts, #[trigger] rest[k], rest[k + 1]) by {
                assert(depends_on(ts, chain[k + 1], chain[k + 1 + 1]));
            }
            assert(is_chain(ts, b, m - 1, rest));
        }
        // Some dependency of the later name stands at `q` or after.
        if all_in(all_deps(ts, x), order.take(q)) {
            build_order_is_ready_first(ts, i, j, q);
            all_deps_are(ts, order[i], b);
            let deps = all_deps(ts, order[i]);
            let d = choose|d: int| 0 <= d < deps.len() && deps[d] == b;
            assert(order.take(q).contains(deps[d]));
            let s = choose|s: int| 0 <= s < order.take(q).len() && order.take(q)[s] == b;
            assert(order[s] == order[q]);
        }
        let deps = all_deps(ts, x);
        let d = choose|d: int| 0 <= d < deps.len() && !order.take(q).contains(#[trigger] deps[d]);
        let c = deps[d];
        assert(deps.contains(c));
        all_deps_are(ts, x, c);
        assert(depends_on(ts, order[j], c));
        assert(order.take(j).contains(c));
        let s = choose|s: int| 0 <= s < order.take(j).len() && order.take(j)[s] == c;
        assert(order[s] == c);
        if s < q {
            assert(order.take(q)[s] == c);
        }
        depth_never_falls(ts, q, s, m - 1);
        let left = m - 1;
        let below = choose|below: Seq<Seq<char>>| is_chain(ts, c, left, below);
        let longer = seq![x] + below;
        assert forall|k: int| 0 <= k < m implies depends_on(ts, #[trigger] longer[k], longer[k + 1]) by {
            if k > 0 {
                assert(longer[k] == below[k - 1]);
                assert(longer[k + 1] == below[k - 1 + 1]);
            } else {
                assert(longer[1] == below[0]);
            }
        }
        assert(is_chain(ts, x, m, longer));
    }
}

/// A name that is not declared has no dependencies.
proof fn undeclared_has_no_deps(ts: Seq<TaskView>, x: Seq<char>)
    requires
        !declared(ts).contains(x),
    ensures
        all_deps(ts, x) == Seq::<Seq<char>>::empty(),
    decreases ts.len(),
{
    if ts.len() > 0 {
        let init = ts.drop_last();
        contains_push(declared(init), ts.last().name, x);
        assert(declared(init).push(ts.last().name) =~= declared(ts));
        undeclared_has_no_deps(init, x);
    }
}

/// The dependencies of a name are those that its declarations list.
pub proof fn dependencies_are(ts: Seq<TaskView>, x: Seq<char>)
    ensures
        deps_at(dependencies(ts), x) == all_deps(ts, x),
{
    if !declared(ts).contains(x) {
        undeclared_has_no_deps(ts, x);
    }
}

/// Where no name is repeated, the dependencies of a task are those that it lists.
pub proof fn only_declaration(ts: Seq<TaskView>, i: int)
    requires
        distinct(ts),
        0 <= i < ts.len(),
    ensures
        all_deps(ts, ts[i].name) == ts[i].deps,
    decreases ts.len(),
{
    let init = ts.drop_last();
    let x = ts[i].name;
    if i < init.len() {
        distinct_shortened(ts);
        only_declaration(init, i);
        assert(init[i] == ts[i]);
        assert(declared(ts)[i] != declared(ts)[ts.len() - 1]);
    } else {
        if declared(init).contains(x) {
            let j = choose|j: int| 0 <= j < declared(init).len() && declared(init)[j] == x;
            assert(declared(ts)[j] == declared(ts)[i]);
        }
        undeclared_has_no_deps(init, x);
        assert(Seq::<Seq<char>>::empty() + ts[i].deps =~= ts[i].deps);
    }
}

proof fn distinct_shortened(ts: Seq<TaskView>)
    requires
        distinct(ts),
        ts.len() > 0,
    ensures
        distinct(ts.drop_last()),
{
    let a = declared(ts.drop_last());
    let b = declared(ts);
    assert forall|i: int, j: int| 0 <= i < a.len() && 0 <= j < a.len() && i != j implies a[i] != a[j] by {
        assert(b[i] != b[j]);
    }
}

/// A name that depends on another is declared.
proof fn depending_is_declared(ts: Seq<TaskView>, a: Seq<char>, b: Seq<char>)
    requires
        depends_on(ts, a, b),
    ensures
        declared(ts).contains(a),
{
    let i = choose|i: int| 0 <= i < ts.len() && (#[trigger] ts[i]).name == a && ts[i].deps.contains(b);
    assert(declared(ts)[i] == a);
}

/// If the build order lists as many names as there are tasks, no name is
/// declared twice and every declared name is listed.
pub proof fn full_order_lists_all(ts: Seq<TaskView>)
    requires
        build_order(ts).len() == ts.len(),
    ensures
        distinct(ts),
        forall|x: Seq<char>| #[trigger] build_order(ts).contains(x) <==> declared(ts).contains(x),
{
    let order = build_order(ts);
    let names = declared(ts);
    build_order_is_topological(ts);
    order.unique_seq_to_set();
    names.lemma_cardinality_of_set();
    assert forall|x: Seq<char>| order.to_set().contains(x) implies names.to_set().contains(x) by {
        let i = choose|i: int| 0 <= i < order.len() && order[i] == x;
        assert(names.contains(order[i]));
    }
    vstd::set_lib::lemma_len_subset(order.to_set(), names.to_set());
    names.lemma_no_dup_set_cardinality();
    vstd::set_lib::lemma_subset_equality(order.to_set(), names.to_set());
    assert forall|x: Seq<char>| #[trigger] order.contains(x) <==> names.contains(x) by {
        assert(order.to_set().contains(x) <==> names.to_set().contains(x));
    }
}

/// Tasks that can all be ordered have no dependency cycle.
pub proof fn full_order_excludes_cycles(ts: Seq<TaskView>)
    requires
        all_in(declared(ts), build_order(ts)),
    ensures
        !cyclic(ts),
{
    if cyclic(ts) {
        let c = choose|c: Seq<Seq<char>>| is_dependency_cycle(ts, c);
        positions_fall(ts, c, c.len() - 1);
        positions_fall(ts, c, 0);
        assert(c[c.len() - 1] == c[0]);
    }
}

proof fn positions_fall(ts: Seq<TaskView>, c: Seq<Seq<char>>, j: int)
    requires
        all_in(declared(ts), build_order(ts)),
        is_dependency_cycle(ts, c),
        0 <= j < c.len(),
    ensures
        build_order(ts).contains(c[j]),
        build_order(ts).index_of(c[j]) <= build_order(ts).index_of(c[0]) - j,
    decreases j,
{
    let order = build_order(ts);
    build_order_is_topological(ts);
    if j == 0 {
        assert(depends_on(ts, c[0], c[1]));
        depending_is_declared(ts, c[0], c[1]);
        let d = choose|d: int| 0 <= d < declared(ts).len() && declared(ts)[d] == c[0];
        assert(order.contains(declared(ts)[d]));
    } else {
        positions_fall(ts, c, j - 1);
        let p = order.index_of(c[j - 1]);
        assert(order[p] == c[j - 1]);
        assert(depends_on(ts, c[j - 1], c[j - 1 + 1]));
        let prefix = order.take(p);
        assert(order.take(p).contains(c[j]));
        let q = choose|q: int| 0 <= q < prefix.len() && prefix[q] == c[j];
        assert(order[q] == c[j]);
        assert(order[order.index_of(c[j])] == c[j]);
    }
}

/// The names that cannot be built are the declared ones that the build order
/// lacks.
pub proof fn blocked_are(ts: Seq<TaskView>)
    ensures
        forall|x: Seq<char>|
            #[trigger] blocked(ts).contains(x) <==> declared(ts).contains(x) && !build_order(ts).contains(x),
{
    let pred = |n: Seq<char>| !build_order(ts).contains(n);
    let names = in_order(declared(ts));
    in_order_sorts(declared(ts));
    ascending_no_duplicates(names);
    filter_keeps(names, pred);
    assert forall|x: Seq<char>|
        #[trigger] blocked(ts).contains(x) <==> declared(ts).contains(x) && !build_order(ts).contains(x) by {
        assert(names.contains(x) <==> declared(ts).contains(x));
    }
}

/// The blocked names stand in ascending order.
pub proof fn blocked_ascending(ts: Seq<TaskView>)
    ensures
        ascending(blocked(ts)),
{
    in_order_sorts(declared(ts));
    filter_ascending(in_order(declared(ts)), |n: Seq<char>| !build_order(ts).contains(n));
}

proof fn filter_ascending(names: Seq<Seq<char>>, pred: spec_fn(Seq<char>) -> bool)
    requires
        ascending(names),
    ensures
        ascending(names.filter(pred)),
    decreases names.len(),
{
    reveal(Seq::filter);
    if names.len() > 0 {
        let init = names.drop_last();
        let f = names.filter(pred);
        let g = init.filter(pred);
        filter_ascending(init, pred);
        ascending_no_duplicates(init);
        filter_keeps(init, pred);
        assert forall|i: int, j: int| 0 <= i < j < f.len() implies before(#[trigger] f[i], #[trigger] f[j]) by {
            if j == g.len() {
                assert(init.contains(g[i]));
                let k = choose|k: int| 0 <= k < init.len() && init[k] == g[i];
                assert(before(names[k], names[names.len() - 1]));
            }
        }
    }
}

/// Where all dependencies are declared, nothing depends on an undeclared name.
pub proof fn undeclared_has_no_dependents(ts: Seq<TaskView>, name: Seq<char>)
    requires
        all_known(ts),
        !declared(ts).contains(name),
    ensures
        dependents_of(ts, name) == Seq::<Seq<char>>::empty(),
{
    let list = dependents_of(ts, name);
    if list.len() > 0 {
        assert(list.contains(list[0]));
        dependents_are(ts, name, list[0]);
        let i = choose|i: int| 0 <= i < ts.len() && (#[trigger] ts[i]).name == list[0] && ts[i].deps.contains(name);
        let j = choose|j: int| 0 <= j < ts[i].deps.len() && ts[i].deps[j] == name;
        assert(!unknown_at(ts, i, j));
    }
    assert(list =~= Seq::<Seq<char>>::empty());
}

/// Where some names cannot be built though all dependencies are declared, a
/// dependency cycle that passes no task twice is reported.
pub proof fn reported_cycle_is_one(ts: Seq<TaskView>)
    requires
        all_known(ts),
        blocked(ts).len() > 0,
    ensures
        reported_cycle(ts) matches Some(c) && is_dependency_cycle(ts, c) && c.drop_last().no_duplicates(),
{
    let order = build_order(ts);
    let live = blocked(ts);
    let deps = dependencies(ts);
    build_order_is_topological(ts);
    blocked_are(ts);
    first_cycle_decides(live, deps);
    // Every blocked name waits for a blocked one.
    assert forall|x: Seq<char>| #[trigger] live.contains(x) implies !is_sink(live, deps, x) by {
        let b = choose|b: Seq<char>| depends_on(ts, x, b) && !order.contains(b);
        assert(depends_on(ts, x, b) && !order.contains(b));
        let i = choose|i: int| 0 <= i < ts.len() && (#[trigger] ts[i]).name == x && ts[i].deps.contains(b);
        let j = choose|j: int| 0 <= j < ts[i].deps.len() && ts[i].deps[j] == b;
        assert(!unknown_at(ts, i, j));
        assert(live.contains(b));
        all_deps_are(ts, x, b);
        dependencies_are(ts, x);
        let q = choose|q: int| 0 <= q < deps_at(deps, x).len() && deps_at(deps, x)[q] == b;
        assert(live.contains(deps_at(deps, x)[q]));
    }
    let c = first_cycle(live, deps)->0;
    assert forall|i: int| 0 <= i < c.len() - 1 implies depends_on(ts, #[trigger] c[i], c[i + 1]) by {
        all_deps_are(ts, c[i], c[i + 1]);
        dependencies_are(ts, c[i]);
    }
}

/// A cycle is reported just if there is one, given that all dependencies are
/// declared: then some names cannot be built.
pub proof fn cycle_reported_iff_cyclic(ts: Seq<TaskView>)
    requires
        all_known(ts),
    ensures
        reported_cycle(ts) is Some <==> cyclic(ts),
        blocked(ts).len() > 0 <==> cyclic(ts),
{
    blocked_are(ts);
    if blocked(ts).len() > 0 {
        reported_cycle_is_one(ts);
    } else {
        assert forall|i: int| 0 <= i < declared(ts).len() implies build_order(ts).contains(
            #[trigger] declared(ts)[i],
        ) by {
            assert(declared(ts).contains(declared(ts)[i]));
            assert(!blocked(ts).contains(declared(ts)[i]));
        }
        full_order_excludes_cycles(ts);
        first_cycle_decides(blocked(ts), dependencies(ts));
        if let Some(c) = reported_cycle(ts) {
            assert(blocked(ts).contains(c[0]));
        }
    }
}

/// Tasks can all be ordered just if no name is repeated and, given that all
/// dependencies are declared, none depends on itself.
pub proof fn orderable_iff_acyclic(ts: Seq<TaskView>)
    requires
        all_known(ts),
    ensures
        build_order(ts).len() == ts.len() <==> distinct(ts) && !cyclic(ts),
{
    let order = build_order(ts);
    blocked_are(ts);
    cycle_reported_iff_cyclic(ts);
    if order.len() == ts.len() {
        full_order_lists_all(ts);
        if blocked(ts).len() > 0 {
            assert(blocked(ts).contains(blocked(ts)[0]));
        }
    } else if distinct(ts) && !cyclic(ts) {
        build_order_is_topological(ts);
        assert forall|i: int| 0 <= i < declared(ts).len() implies order.contains(#[trigger] declared(ts)[i]) by {
            assert(declared(ts).contains(declared(ts)[i]));
            assert(!blocked(ts).contains(declared(ts)[i]));
        }
        no_longer_than(declared(ts), order);
    }
}

} // verus!
