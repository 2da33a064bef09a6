//! Computing the build order by counting missing dependencies.

use vstd::prelude::*;

use crate::graph::{
    all_deps, all_in, build_order, completed, completed_at, declared, dependents_of, grown, in_order, occurrences,
    released, roots, with_name,
};
use crate::name_map::ascending_no_duplicates;
use crate::order::{
    ascending, before, before_asymmetric, before_irreflexive, before_total, before_transitive, find, texts,
};
use crate::task::TaskView;

verus! {

/// How often `x` occurs in `s`.
pub open spec fn count(s: Seq<Seq<char>>, x: Seq<char>) -> nat
    decreases s.len(),
{
    if s.len() == 0 {
        0
    } else {
        count(s.drop_last(), x) + if s.last() == x { 1nat } else { 0nat }
    }
}

/// How many entries of `s` are not in `done`.
pub open spec fn pending(s: Seq<Seq<char>>, done: Seq<Seq<char>>) -> nat
    decreases s.len(),
{
    if s.len() == 0 {
        0
    } else {
        pending(s.drop_last(), done) + if done.contains(s.last()) { 0nat } else { 1nat }
    }
}

proof fn count_concat(a: Seq<Seq<char>>, b: Seq<Seq<char>>, x: Seq<char>)
    ensures
        count(a + b, x) == count(a, x) + count(b, x),
    decreases b.len(),
{
    if b.len() == 0 {
        assert(a + b =~= a);
    } else {
        assert((a + b).drop_last() =~= a + b.drop_last());
        count_concat(a, b.drop_last(), x);
    }
}

pub proof fn count_zero(s: Seq<Seq<char>>, x: Seq<char>)
    ensures
        count(s, x) == 0 <==> !s.contains(x),
    decreases s.len(),
{
    if s.len() > 0 {
        let init = s.drop_last();
        count_zero(init, x);
        if s.contains(x) {
            let i = choose|i: int| 0 <= i < s.len() && s[i] == x;
            if i < init.len() {
                assert(init[i] == x);
            }
        }
        if init.contains(x) {
            let i = choose|i: int| 0 <= i < init.len() && init[i] == x;
            assert(s[i] == x);
        }
        if s.last() == x {
            assert(s[s.len() - 1] == x);
        }
    }
}

proof fn count_occurrences(deps: Seq<Seq<char>>, m: Seq<char>, name: Seq<char>, c: Seq<char>)
    ensures
        count(occurrences(deps, m, name), c) == if c == name { count(deps, m) } else { 0 },
    decreases deps.len(),
{
    if deps.len() > 0 {
        let rest = occurrences(deps.drop_last(), m, name);
        count_occurrences(deps.drop_last(), m, name, c);
        if deps.last() == m {
            assert(rest.push(name).drop_last() =~= rest);
        }
    }
}

/// `c` is listed among the dependents of `m` as often as `m` is among its
/// dependencies.
pub proof fn count_dependents(ts: Seq<TaskView>, m: Seq<char>, c: Seq<char>)
    ensures
        count(dependents_of(ts, m), c) == count(all_deps(ts, c), m),
    decreases ts.len(),
{
    if ts.len() > 0 {
        let init = ts.drop_last();
        let t = ts.last();
        count_dependents(init, m, c);
        count_concat(dependents_of(init, m), occurrences(t.deps, m, t.name), c);
        count_occurrences(t.deps, m, t.name, c);
        if t.name == c {
            count_concat(all_deps(init, c), t.deps, m);
        }
    }
}

proof fn pending_push(s: Seq<Seq<char>>, done: Seq<Seq<char>>, m: Seq<char>)
    requires
        !done.contains(m),
    ensures
        pending(s, done) == pending(s, done.push(m)) + count(s, m),
    decreases s.len(),
{
    if s.len() > 0 {
        pending_push(s.drop_last(), done, m);
        contains_push(done, m, s.last());
    }
}

/// What a list holds after a push.
pub proof fn contains_push(done: Seq<Seq<char>>, m: Seq<char>, x: Seq<char>)
    ensures
        done.push(m).contains(x) <==> done.contains(x) || x == m,
{
    let d = done.push(m);
    if done.contains(x) {
        let i = choose|i: int| 0 <= i < done.len() && done[i] == x;
        assert(d[i] == x);
    }
    if x == m {
        assert(d[done.len() as int] == x);
    }
}

proof fn pending_zero(s: Seq<Seq<char>>, done: Seq<Seq<char>>)
    ensures
        pending(s, done) == 0 <==> all_in(s, done),
    decreases s.len(),
{
    if s.len() > 0 {
        let init = s.drop_last();
        pending_zero(init, done);
        if all_in(s, done) {
            assert(done.contains(s[s.len() - 1]));
            assert forall|i: int| 0 <= i < init.len() implies done.contains(#[trigger] init[i]) by {
                assert(init[i] == s[i]);
            }
        }
        if all_in(init, done) && done.contains(s.last()) {
            assert forall|i: int| 0 <= i < s.len() implies done.contains(#[trigger] s[i]) by {
                if i < init.len() {
                    assert(s[i] == init[i]);
                }
            }
        }
    }
}

proof fn pending_nothing_done(s: Seq<Seq<char>>)
    ensures
        pending(s, Seq::empty()) == s.len(),
    decreases s.len(),
{
    if s.len() > 0 {
        pending_nothing_done(s.drop_last());
    }
}

/// Putting a name into an ascending list keeps it ascending and adds just it.
pub proof fn with_name_adds(names: Seq<Seq<char>>, name: Seq<char>)
    requires
        ascending(names),
    ensures
        ascending(with_name(names, name)),
        forall|x: Seq<char>| #[trigger] with_name(names, name).contains(x) <==> names.contains(x) || x == name,
    decreases names.len(),
{
    let r = with_name(names, name);
    if names.len() == 0 || before(names.last(), name) {
        assert forall|i: int, j: int| 0 <= i < j < r.len() implies before(#[trigger] r[i], #[trigger] r[j]) by {
            if j == names.len() && i < names.len() - 1 {
                assert(before(names[i], names[names.len() - 1]));
                before_transitive(names[i], names.last(), name);
            }
        }
        assert forall|x: Seq<char>| #[trigger] r.contains(x) <==> names.contains(x) || x == name by {
            contains_push(names, name, x);
        }
    } else if names.last() == name {
        assert(names[names.len() - 1] == name);
    } else {
        let init = names.drop_last();
        with_name_adds(init, name);
        let w = with_name(init, name);
        before_total(name, names.last());
        assert forall|i: int, j: int| 0 <= i < j < r.len() implies before(#[trigger] r[i], #[trigger] r[j]) by {
            if j == w.len() {
                assert(w.contains(w[i]));
                if w[i] != name {
                    let k = choose|k: int| 0 <= k < init.len() && init[k] == w[i];
                    assert(before(names[k], names[names.len() - 1]));
                }
            }
        }
        assert forall|x: Seq<char>| #[trigger] r.contains(x) <==> names.contains(x) || x == name by {
            contains_push(w, names.last(), x);
            contains_push(init, names.last(), x);
            assert(init.push(names.last()) =~= names);
        }
    }
}

/// A name that is in the list already changes nothing.
pub proof fn with_name_present(names: Seq<Seq<char>>, name: Seq<char>)
    requires
        ascending(names),
        names.contains(name),
    ensures
        with_name(names, name) == names,
    decreases names.len(),
{
    let k = choose|k: int| 0 <= k < names.len() && names[k] == name;
    if k == names.len() - 1 {
        before_irreflexive(name);
    } else {
        assert(before(names[k], names[names.len() - 1]));
        before_asymmetric(name, names.last());
        assert(names.drop_last()[k] == name);
        with_name_present(names.drop_last(), name);
        assert(names.drop_last().push(names.last()) =~= names);
    }
}

/// Where a new name goes.
pub proof fn with_name_at(names: Seq<Seq<char>>, name: Seq<char>, i: int)
    requires
        ascending(names),
        0 <= i <= names.len(),
        forall|j: int| 0 <= j < i ==> before(#[trigger] names[j], name),
        forall|j: int| i <= j < names.len() ==> before(name, #[trigger] names[j]),
    ensures
        with_name(names, name) == names.insert(i, name),
    decreases names.len(),
{
    if i == names.len() {
        if i > 0 {
            assert(before(names[i - 1], name));
        }
        assert(names.insert(i, name) =~= names.push(name));
    } else {
        let init = names.drop_last();
        assert(before(name, names[names.len() - 1]));
        before_asymmetric(name, names.last());
        with_name_at(init, name, i);
        assert(init.insert(i, name).push(names.last()) =~= names.insert(i, name));
    }
}

/// The sorted list of names is ascending and holds just the given names.
pub proof fn in_order_sorts(names: Seq<Seq<char>>)
    ensures
        ascending(in_order(names)),
        forall|x: Seq<char>| #[trigger] in_order(names).contains(x) <==> names.contains(x),
    decreases names.len(),
{
    if names.len() > 0 {
        let init = names.drop_last();
        in_order_sorts(init);
        with_name_adds(in_order(init), names.last());
        assert forall|x: Seq<char>| #[trigger] in_order(names).contains(x) <==> names.contains(x) by {
            contains_push(init, names.last(), x);
            assert(init.push(names.last()) =~= names);
        }
    }
}

/// A list without repetition is no longer than one that holds all its entries.
pub proof fn no_longer_than(a: Seq<Seq<char>>, b: Seq<Seq<char>>)
    requires
        a.no_duplicates(),
        all_in(a, b),
    ensures
        a.len() <= b.len(),
{
    a.unique_seq_to_set();
    b.lemma_cardinality_of_set();
    assert forall|x: Seq<char>| a.to_set().contains(x) implies b.to_set().contains(x) by {
        let i = choose|i: int| 0 <= i < a.len() && a[i] == x;
        assert(b.contains(a[i]));
    }
    vstd::set_lib::lemma_len_subset(a.to_set(), b.to_set());
}

/// What the counting loop keeps true: the names whose count has come to zero
/// are those listed, each once.
spec fn counts_missing(names: Seq<Seq<char>>, remaining: Seq<u128>, order: Seq<Seq<char>>) -> bool {
    &&& remaining.len() == names.len()
    &&& order.no_duplicates()
    &&& all_in(order, names)
    &&& forall|k: int|
        0 <= k < names.len() ==> (order.contains(#[trigger] names[k]) <==> remaining[k] == 0)
}

/// What one walk over the dependents of the name `order[n]` has done when it
/// has passed the first `e` of them.
spec fn walked(
    ts: Seq<TaskView>,
    names: Seq<Seq<char>>,
    remaining: Seq<u128>,
    order: Seq<Seq<char>>,
    n: int,
    e: int,
) -> bool {
    let list = dependents_of(ts, order[n]);
    forall|k: int|
        0 <= k < names.len() ==> remaining[k] == pending(all_deps(ts, #[trigger] names[k]), order.take(n)) - count(
            list.take(e),
            names[k],
        )
}

proof fn walked_step(
    ts: Seq<TaskView>,
    names: Seq<Seq<char>>,
    remaining: Seq<u128>,
    order: Seq<Seq<char>>,
    n: int,
    e: int,
    k: int,
)
    requires
        0 <= n < order.len(),
        order.no_duplicates(),
        0 <= e < dependents_of(ts, order[n]).len(),
        0 <= k < names.len(),
        remaining.len() == names.len(),
        ascending(names),
        names[k] == dependents_of(ts, order[n])[e],
        walked(ts, names, remaining, order, n, e),
    ensures
        remaining[k] > 0,
        walked(ts, names, remaining.update(k, (remaining[k] - 1) as u128), order, n, e + 1),
        remaining[k] == 1 <==> completed_at(ts, order.take(n + 1), dependents_of(ts, order[n]), e),
{
    let m = order[n];
    let c = names[k];
    let list = dependents_of(ts, m);
    let d = all_deps(ts, c);
    let done = order.take(n);
    assert(order.take(n + 1) =~= done.push(m));
    assert(!done.contains(m)) by {
        if done.contains(m) {
            let i = choose|i: int| 0 <= i < done.len() && done[i] == m;
            assert(order[i] == order[n]);
        }
    }
    pending_push(d, done, m);
    pending_zero(d, done.push(m));
    count_dependents(ts, m, c);
    assert(list =~= list.take(e + 1) + list.skip(e + 1));
    count_concat(list.take(e + 1), list.skip(e + 1), c);
    assert(list.take(e + 1).drop_last() =~= list.take(e));
    count_zero(list.skip(e + 1), c);
    let after = remaining.update(k, (remaining[k] - 1) as u128);
    ascending_no_duplicates(names);
    assert forall|j: int| 0 <= j < names.len() implies after[j] == pending(
        all_deps(ts, #[trigger] names[j]),
        order.take(n),
    ) - count(list.take(e + 1), names[j]) by {
        if j != k {
            assert(names[j] != c);
        }
    }
}

proof fn walked_through(
    ts: Seq<TaskView>,
    names: Seq<Seq<char>>,
    remaining: Seq<u128>,
    order: Seq<Seq<char>>,
    n: int,
    k: int,
)
    requires
        0 <= n < order.len(),
        order.no_duplicates(),
        0 <= k < names.len(),
        walked(ts, names, remaining, order, n, dependents_of(ts, order[n]).len() as int),
    ensures
        remaining[k] == pending(all_deps(ts, names[k]), order.take(n + 1)),
{
    let m = order[n];
    let list = dependents_of(ts, m);
    let done = order.take(n);
    assert(order.take(n + 1) =~= done.push(m));
    assert(!done.contains(m)) by {
        if done.contains(m) {
            let i = choose|i: int| 0 <= i < done.len() && done[i] == m;
            assert(order[i] == order[n]);
        }
    }
    pending_push(all_deps(ts, names[k]), done, m);
    count_dependents(ts, m, names[k]);
    assert(list.take(list.len() as int) =~= list);
}

/// Every dependent is a declared name.
proof fn dependents_declared(ts: Seq<TaskView>, name: Seq<char>)
    ensures
        all_in(dependents_of(ts, name), declared(ts)),
    decreases ts.len(),
{
    if ts.len() > 0 {
        let init = ts.drop_last();
        let t = ts.last();
        dependents_declared(init, name);
        let a = dependents_of(init, name);
        let b = occurrences(t.deps, name, t.name);
        occurrences_are(t.deps, name, t.name);
        assert forall|i: int| 0 <= i < (a + b).len() implies declared(ts).contains(#[trigger] (a + b)[i]) by {
            if i < a.len() {
                assert(declared(init).contains(a[i]));
                let j = choose|j: int| 0 <= j < init.len() && declared(init)[j] == a[i];
                assert(declared(ts)[j] == a[i]);
            } else {
                assert(b[i - a.len()] == t.name);
                assert(declared(ts)[ts.len() - 1] == t.name);
            }
        }
    }
}

proof fn occurrences_are(deps: Seq<Seq<char>>, name: Seq<char>, dependent: Seq<char>)
    ensures
        forall|i: int|
            0 <= i < occurrences(deps, name, dependent).len() ==> #[trigger] occurrences(deps, name, dependent)[i]
                == dependent,
    decreases deps.len(),
{
    if deps.len() > 0 {
        let rest = occurrences(deps.drop_last(), name, dependent);
        let all = occurrences(deps, name, dependent);
        occurrences_are(deps.drop_last(), name, dependent);
        assert forall|i: int| 0 <= i < all.len() implies #[trigger] all[i] == dependent by {
            if i < rest.len() {
                assert(rest[i] == dependent);
            }
        }
    }
}

/// Lists the names in build order.
///
/// `names` are the declared names, `dependents` the dependents of each and
/// `in_degree` the number of dependencies of each. Returned with the order is,
/// for each name, the number of its dependencies that the order lacks.
pub(crate) fn schedule(
    Ghost(ts): Ghost<Seq<TaskView>>,
    names: &Vec<String>,
    dependents: &Vec<Vec<String>>,
    in_degree: Vec<u128>,
) -> (r: (Vec<String>, Vec<u128>))
    requires
        texts(names@) == in_order(declared(ts)),
        dependents@.len() == names@.len(),
        in_degree@.len() == names@.len(),
        forall|k: int|
            0 <= k < names@.len() ==> texts((#[trigger] dependents@[k])@) == dependents_of(ts, names@[k]@),
        forall|k: int| 0 <= k < names@.len() ==> #[trigger] in_degree@[k] == all_deps(ts, names@[k]@).len(),
    ensures
        texts(r.0@) == build_order(ts),
        r.1@.len() == names@.len(),
        forall|k: int|
            0 <= k < names@.len() ==> (build_order(ts).contains(#[trigger] names@[k]@) <==> r.1@[k] == 0),
        build_order(ts).no_duplicates(),
        all_in(build_order(ts), declared(ts)),
{
    let ghost keys = texts(names@);
    proof {
        in_order_sorts(declared(ts));
        ascending_no_duplicates(keys);
    }
    let mut remaining = in_degree;
    let mut topo: Vec<String> = Vec::new();
    let mut k: usize = 0;
    while k < names.len()
        invariant
            k <= names.len(),
            keys == texts(names@),
            remaining@.len() == names@.len(),
            forall|j: int| 0 <= j < names@.len() ==> #[trigger] remaining@[j] == all_deps(ts, names@[j]@).len(),
            texts(topo@) == keys.take(k as int).filter(|n: Seq<char>| all_deps(ts, n).len() == 0),
        decreases names.len() - k,
    {
        let ghost pred = |n: Seq<char>| all_deps(ts, n).len() == 0;
        proof {
            filter_step(keys, pred, k as int);
            assert(keys[k as int] == names@[k as int]@);
        }
        if remaining[k] == 0 {
            let ghost before_push = topo@;
            topo.push(names[k].clone());
            proof {
                assert(texts(topo@) =~= texts(before_push).push(names@[k as int]@));
            }
        }
        k = k + 1;
    }
    proof {
        assert(keys.take(keys.len() as int) =~= keys);
        roots_listed(ts, names@, remaining@, topo@);
    }
    let mut n: usize = 0;
    while n < topo.len()
        invariant
            n <= topo@.len(),
            keys == texts(names@),
            ascending(keys),
            keys == in_order(declared(ts)),
            dependents@.len() == names@.len(),
            forall|j: int|
                0 <= j < names@.len() ==> texts((#[trigger] dependents@[j])@) == dependents_of(ts, names@[j]@),
            counts_missing(keys, remaining@, texts(topo@)),
            forall|j: int|
                0 <= j < keys.len() ==> #[trigger] remaining@[j] == pending(
                    all_deps(ts, keys[j]),
                    texts(topo@).take(n as int),
                ),
            grown(ts, texts(topo@), n as int) == build_order(ts),
        decreases names@.len() - n,
    {
        let ghost start = texts(topo@);
        proof {
            no_longer_than(start, keys);
            in_order_sorts(declared(ts));
            assert forall|i: int| 0 <= i < start.len() implies declared(ts).contains(#[trigger] start[i]) by {
                assert(keys.contains(start[i]));
            }
            no_longer_than(start, declared(ts));
            assert(keys.contains(start[n as int]));
        }
        let at = find(names.as_slice(), topo[n].as_str());
        let m: usize = match at {
            Ok(m) => m,
            Err(_) => {
                proof {
                    assert(topo@[n as int]@ == start[n as int]);
                    assert(false);
                }
                0
            },
        };
        let list: &Vec<String> = &dependents[m];
        let ghost entries = dependents_of(ts, start[n as int]);
        let ghost done = start.take(n as int + 1);
        proof {
            assert(topo@[n as int]@ == start[n as int]);
            assert(texts(dependents@[m as int]@) == dependents_of(ts, names@[m as int]@));
            assert(texts(list@) == entries);
            dependents_declared(ts, start[n as int]);
            assert(start + completed(ts, done, entries, 0) =~= start);
            assert(entries.take(0) =~= Seq::<Seq<char>>::empty());
        }
        let mut e: usize = 0;
        while e < list.len()
            invariant
                e <= list@.len(),
                n < start.len(),
                keys == texts(names@),
                ascending(keys),
                keys == in_order(declared(ts)),
                start.no_duplicates(),
                entries == dependents_of(ts, start[n as int]),
                done == start.take(n as int + 1),
                texts(list@) == entries,
                all_in(entries, declared(ts)),
                texts(topo@) == start + completed(ts, done, entries, e as int),
                counts_missing(keys, remaining@, texts(topo@)),
                walked(ts, keys, remaining@, start, n as int, e as int),
            decreases list@.len() - e,
        {
            let c: &String = &list[e];
            proof {
                in_order_sorts(declared(ts));
                assert(texts(list@)[e as int] == c@);
                assert(declared(ts).contains(entries[e as int]));
                assert(keys.contains(c@));
            }
            let found = find(names.as_slice(), c.as_str());
            if let Ok(j) = found {
                let ghost r0 = remaining@;
                let ghost t0 = texts(topo@);
                proof {
                    assert(keys[j as int] == c@);
                    walked_step(ts, keys, r0, start, n as int, e as int, j as int);
                }
                let left: u128 = remaining[j] - 1;
                remaining.set(j, left);
                if left == 0 {
                    let ghost topo0 = topo@;
                    topo.push(c.clone());
                    proof {
                        assert(texts(topo@) =~= t0.push(c@));
                        assert(!t0.contains(keys[j as int]));
                        assert(start + completed(ts, done, entries, e as int + 1) =~= t0.push(c@));
                    }
                }
                proof {
                    ascending_no_duplicates(keys);
                    let t1 = texts(topo@);
                    assert forall|i: int| 0 <= i < keys.len() implies (t1.contains(#[trigger] keys[i])
                        <==> remaining@[i] == 0) by {
                        contains_push(t0, c@, keys[i]);
                        assert(t0.contains(keys[i]) <==> r0[i] == 0);
                    }
                    assert forall|i: int| 0 <= i < t1.len() implies keys.contains(#[trigger] t1[i]) by {
                        if i < t0.len() {
                            assert(t1[i] == t0[i]);
                        }
                    }
                }
            }
            e = e + 1;
        }
        proof {
            assert(texts(topo@) == start + released(ts, start, n as int));
            assert forall|j: int| 0 <= j < keys.len() implies #[trigger] remaining@[j] == pending(
                all_deps(ts, keys[j]),
                texts(topo@).take(n as int + 1),
            ) by {
                walked_through(ts, keys, remaining@, start, n as int, j);
                assert(texts(topo@).take(n as int + 1) =~= start.take(n as int + 1));
            }
        }
        n = n + 1;
    }
    proof {
        in_order_sorts(declared(ts));
        let order = texts(topo@);
        assert forall|j: int| 0 <= j < names@.len() implies (order.contains(#[trigger] names@[j]@)
            <==> remaining@[j] == 0) by {
            assert(keys[j] == names@[j]@);
        }
        assert forall|i: int| 0 <= i < order.len() implies declared(ts).contains(#[trigger] order[i]) by {
            assert(keys.contains(order[i]));
        }
    }
    (topo, remaining)
}

/// Filtering one more entry.
pub proof fn filter_step<A>(s: Seq<A>, pred: spec_fn(A) -> bool, i: int)
    requires
        0 <= i < s.len(),
    ensures
        s.take(i + 1).filter(pred) == if pred(s[i]) {
            s.take(i).filter(pred).push(s[i])
        } else {
            s.take(i).filter(pred)
        },
{
    reveal(Seq::filter);
    assert(s.take(i + 1).drop_last() =~= s.take(i));
}

proof fn roots_listed(ts: Seq<TaskView>, names: Seq<String>, remaining: Seq<u128>, topo: Seq<String>)
    requires
        texts(names) == in_order(declared(ts)),
        remaining.len() == names.len(),
        forall|j: int| 0 <= j < names.len() ==> #[trigger] remaining[j] == all_deps(ts, names[j]@).len(),
        texts(topo) == roots(ts),
    ensures
        counts_missing(texts(names), remaining, texts(topo)),
        forall|j: int|
            0 <= j < names.len() ==> #[trigger] remaining[j] == pending(
                all_deps(ts, texts(names)[j]),
                texts(topo).take(0),
            ),
{
    let keys = texts(names);
    let order = texts(topo);
    let pred = |n: Seq<char>| all_deps(ts, n).len() == 0;
    in_order_sorts(declared(ts));
    ascending_no_duplicates(keys);
    filter_keeps(keys, pred);
    assert forall|j: int| 0 <= j < keys.len() implies (order.contains(#[trigger] keys[j]) <==> remaining[j] == 0) by {
        assert(keys[j] == names[j]@);
        assert(pred(keys[j]) <==> remaining[j] == 0);
    }
    assert(order.take(0) =~= Seq::<Seq<char>>::empty());
    assert forall|j: int| 0 <= j < names.len() implies #[trigger] remaining[j] == pending(
        all_deps(ts, keys[j]),
        order.take(0),
    ) by {
        pending_nothing_done(all_deps(ts, keys[j]));
        assert(keys[j] == names[j]@);
    }
}

/// What filtering a list without repetitions gives.
pub proof fn filter_keeps<A>(s: Seq<A>, pred: spec_fn(A) -> bool)
    requires
        s.no_duplicates(),
    ensures
        s.filter(pred).no_duplicates(),
        forall|x: A| #[trigger] s.filter(pred).contains(x) <==> s.contains(x) && pred(x),
        forall|i: int| 0 <= i < s.filter(pred).len() ==> s.contains(#[trigger] s.filter(pred)[i]),
    decreases s.len(),
{
    reveal(Seq::filter);
    let f = s.filter(pred);
    if s.len() > 0 {
        let init = s.drop_last();
        let g = init.filter(pred);
        filter_keeps(init, pred);
        assert(!init.contains(s.last()));
        assert forall|x: A| #[trigger] f.contains(x) <==> s.contains(x) && pred(x) by {
            if s.contains(x) && pred(x) {
                let i = choose|i: int| 0 <= i < s.len() && s[i] == x;
                if i < init.len() {
                    assert(init[i] == x);
                    assert(g.contains(x));
                    let j = choose|j: int| 0 <= j < g.len() && g[j] == x;
                    assert(f[j] == x);
                } else {
                    assert(f[f.len() - 1] == x);
                }
            }
            if f.contains(x) {
                let j = choose|j: int| 0 <= j < f.len() && f[j] == x;
                if j < g.len() {
                    assert(g.contains(g[j]));
                    assert(init.contains(x));
                    let i = choose|i: int| 0 <= i < init.len() && init[i] == x;
                    assert(s[i] == x);
                } else {
                    assert(s[s.len() - 1] == x);
                }
            }
        }
        assert forall|i: int| 0 <= i < f.len() implies s.contains(#[trigger] f[i]) by {
            assert(f.contains(f[i]));
        }
        assert forall|i: int, j: int| 0 <= i < f.len() && 0 <= j < f.len() && i != j implies f[i] != f[j] by {
            if i < g.len() {
                assert(g.contains(g[i]));
            }
            if j < g.len() {
                assert(g.contains(g[j]));
            }
        }
    }
}

} // verus!
