//! The dependency graph of a list of tasks, and its build order.
//!
//! Everything here is stated of a sequence of [`TaskView`]s, so a name may in
//! principle be declared more than once; the edges into a name are then those
//! of all its declarations.

use vstd::prelude::*;

use crate::cycle::first_cycle;
use crate::order::before;
use crate::task::TaskView;

verus! {

/// The declared names, in declaration order.
pub open spec fn declared(ts: Seq<TaskView>) -> Seq<Seq<char>> {
    ts.map_values(|t: TaskView| t.name)
}

/// All dependencies that the declarations of `name` list, in order.
pub open spec fn all_deps(ts: Seq<TaskView>, name: Seq<char>) -> Seq<Seq<char>>
    decreases ts.len(),
{
    if ts.len() == 0 {
        Seq::empty()
    } else {
        let rest = all_deps(ts.drop_last(), name);
        if ts.last().name == name {
            rest + ts.last().deps
        } else {
            rest
        }
    }
}

/// `dependent`, once for every time that `name` occurs in `deps`.
pub open spec fn occurrences(deps: Seq<Seq<char>>, name: Seq<char>, dependent: Seq<char>) -> Seq<Seq<char>>
    decreases deps.len(),
{
    if deps.len() == 0 {
        Seq::empty()
    } else {
        let rest = occurrences(deps.drop_last(), name, dependent);
        if deps.last() == name {
            rest.push(dependent)
        } else {
            rest
        }
    }
}

/// The tasks that depend on `name`, in declaration order, each as often as it
/// lists the dependency.
pub open spec fn dependents_of(ts: Seq<TaskView>, name: Seq<char>) -> Seq<Seq<char>>
    decreases ts.len(),
{
    if ts.len() == 0 {
        Seq::empty()
    } else {
        dependents_of(ts.drop_last(), name) + occurrences(ts.last().deps, name, ts.last().name)
    }
}

/// An ascending list with one more name put in its place.
pub open spec fn with_name(names: Seq<Seq<char>>, name: Seq<char>) -> Seq<Seq<char>>
    decreases names.len(),
{
    if names.len() == 0 || before(names.last(), name) {
        names.push(name)
    } else if names.last() == name {
        names
    } else {
        with_name(names.drop_last(), name).push(names.last())
    }
}

/// The names that occur in a list, in ascending order and each once.
pub open spec fn in_order(names: Seq<Seq<char>>) -> Seq<Seq<char>>
    decreases names.len(),
{
    if names.len() == 0 {
        Seq::empty()
    } else {
        with_name(in_order(names.drop_last()), names.last())
    }
}

/// Every name of `names` is in `done`.
pub open spec fn all_in(names: Seq<Seq<char>>, done: Seq<Seq<char>>) -> bool {
    forall|i: int| 0 <= i < names.len() ==> done.contains(#[trigger] names[i])
}

/// The names that need nothing built before them, in ascending order.
pub open spec fn roots(ts: Seq<TaskView>) -> Seq<Seq<char>> {
    in_order(declared(ts)).filter(|n: Seq<char>| all_deps(ts, n).len() == 0)
}

/// The entry `list[e]` is the last of its name in `list`, and all the
/// dependencies of that name are in `done`.
pub open spec fn completed_at(ts: Seq<TaskView>, done: Seq<Seq<char>>, list: Seq<Seq<char>>, e: int) -> bool {
    &&& !list.skip(e + 1).contains(list[e])
    &&& all_in(all_deps(ts, list[e]), done)
}

/// Of the first `e` entries of `list`, those completed by `done`, in order.
pub open spec fn completed(ts: Seq<TaskView>, done: Seq<Seq<char>>, list: Seq<Seq<char>>, e: int) -> Seq<
    Seq<char>,
>
    decreases e,
{
    if e <= 0 {
        Seq::empty()
    } else {
        let rest = completed(ts, done, list, e - 1);
        if completed_at(ts, done, list, e - 1) {
            rest.push(list[e - 1])
        } else {
            rest
        }
    }
}

/// The names whose last missing dependency is `order[n]`, in the order in
/// which they are listed as its dependents.
pub open spec fn released(ts: Seq<TaskView>, order: Seq<Seq<char>>, n: int) -> Seq<Seq<char>> {
    let list = dependents_of(ts, order[n]);
    completed(ts, order.take(n + 1), list, list.len() as int)
}

/// The build order that starts as `order`: each name in turn, from the `n`-th
/// on, appends the names that it releases.
pub open spec fn grown(ts: Seq<TaskView>, order: Seq<Seq<char>>, n: int) -> Seq<Seq<char>>
    decreases ts.len() - n,
{
    if 0 <= n < order.len() && n < ts.len() {
        grown(ts, order + released(ts, order, n), n + 1)
    } else {
        order
    }
}

/// Some declaration of `a` lists `b` as a dependency.
pub open spec fn depends_on(ts: Seq<TaskView>, a: Seq<char>, b: Seq<char>) -> bool {
    exists|i: int| 0 <= i < ts.len() && (#[trigger] ts[i]).name == a && ts[i].deps.contains(b)
}

/// `c` goes from name to name, each a dependency of the one before, and ends
/// where it started.
pub open spec fn is_dependency_cycle(ts: Seq<TaskView>, c: Seq<Seq<char>>) -> bool {
    &&& c.len() >= 2
    &&& c.first() == c.last()
    &&& forall|i: int| 0 <= i < c.len() - 1 ==> depends_on(ts, #[trigger] c[i], c[i + 1])
}

/// Some task depends on itself, directly or through others.
pub open spec fn cyclic(ts: Seq<TaskView>) -> bool {
    exists|c: Seq<Seq<char>>| is_dependency_cycle(ts, c)
}

/// No name is declared twice.
pub open spec fn distinct(ts: Seq<TaskView>) -> bool {
    declared(ts).no_duplicates()
}

/// The `j`-th dependency of the `i`-th task is not declared.
pub open spec fn unknown_at(ts: Seq<TaskView>, i: int, j: int) -> bool {
    &&& 0 <= i < ts.len()
    &&& 0 <= j < ts[i].deps.len()
    &&& !declared(ts).contains(ts[i].deps[j])
}

/// Every dependency is declared.
pub open spec fn all_known(ts: Seq<TaskView>) -> bool {
    forall|i: int, j: int| !unknown_at(ts, i, j)
}

/// The `j`-th dependency of the `i`-th task is the first that is not declared.
pub open spec fn first_unknown_at(ts: Seq<TaskView>, i: int, j: int) -> bool {
    &&& unknown_at(ts, i, j)
    &&& forall|a: int, b: int| #[trigger] unknown_at(ts, a, b) ==> i < a || (i == a && j <= b)
}

/// The dependencies of every declared name.
pub open spec fn dependencies(ts: Seq<TaskView>) -> Map<Seq<char>, Seq<Seq<char>>> {
    Map::new(|n: Seq<char>| declared(ts).contains(n), |n: Seq<char>| all_deps(ts, n))
}

/// The name at position `i` is the first that was declared before.
pub open spec fn first_repeat_at(ts: Seq<TaskView>, i: int) -> bool {
    &&& 0 <= i < ts.len()
    &&& declared(ts).take(i).contains(ts[i].name)
    &&& declared(ts).take(i).no_duplicates()
}

/// The names that cannot be built, in ascending order.
pub open spec fn blocked(ts: Seq<TaskView>) -> Seq<Seq<char>> {
    in_order(declared(ts)).filter(|n: Seq<char>| !build_order(ts).contains(n))
}

/// The cycle that is reported of tasks that cannot all be built: the first
/// among the blocked names.
pub open spec fn reported_cycle(ts: Seq<TaskView>) -> Option<Seq<Seq<char>>> {
    first_cycle(blocked(ts), dependencies(ts))
}

/// The build order of a list of tasks: first the names without dependencies,
/// in ascending order; then, name by name, those whose last missing dependency
/// it was. On a cyclic graph it lists only what can be built.
pub open spec fn build_order(ts: Seq<TaskView>) -> Seq<Seq<char>> {
    grown(ts, roots(ts), 0)
}

} // verus!
