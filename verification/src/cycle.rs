//! Finding a concrete dependency cycle by depth-first search.

use vstd::prelude::*;

use crate::graph::all_in;
use crate::kahn::{contains_push, no_longer_than};
use crate::name_map::{ascending_no_duplicates, NameMap};
use crate::order::{ascending, find, same_text, texts};

verus! {

/// What a map of name lists holds.
pub open spec fn lists(deps: Map<Seq<char>, Vec<String>>) -> Map<Seq<char>, Seq<Seq<char>>> {
    deps.map_values(|v: Vec<String>| texts(v@))
}

/// The dependencies of a name (none, if the map does not know the name).
pub open spec fn deps_at(deps: Map<Seq<char>, Seq<Seq<char>>>, name: Seq<char>) -> Seq<Seq<char>> {
    if deps.contains_key(name) {
        deps[name]
    } else {
        Seq::empty()
    }
}

/// `c` goes from live name to live name, each a dependency of the one before,
/// and ends where it started.
pub open spec fn is_cycle(
    live: Seq<Seq<char>>,
    deps: Map<Seq<char>, Seq<Seq<char>>>,
    c: Seq<Seq<char>>,
) -> bool {
    &&& c.len() >= 2
    &&& c.first() == c.last()
    &&& forall|i: int| 0 <= i < c.len() ==> live.contains(#[trigger] c[i])
    &&& forall|i: int| 0 <= i < c.len() - 1 ==> deps_at(deps, #[trigger] c[i]).contains(c[i + 1])
}

/// What a search below a name comes to.
pub enum Search {
    /// It met a name that it was still below: the cycle.
    Found(Seq<Seq<char>>),
    /// There was none; these names are now known to lead to no cycle.
    Exhausted(Set<Seq<char>>),
}

/// The search below the last name of `path`, from its `k`-th dependency on;
/// `done` are the names known to lead to no cycle.
pub open spec fn explore(
    live: Seq<Seq<char>>,
    deps: Map<Seq<char>, Seq<Seq<char>>>,
    path: Seq<Seq<char>>,
    k: int,
    done: Set<Seq<char>>,
) -> Search
    decreases live.len() - path.len(), deps_at(deps, path.last()).len() - k,
{
    let list = deps_at(deps, path.last());
    if k < 0 || k >= list.len() {
        Search::Exhausted(done.insert(path.last()))
    } else {
        let child = list[k];
        if !live.contains(child) || done.contains(child) {
            explore(live, deps, path, k + 1, done)
        } else if path.contains(child) {
            Search::Found(path.skip(path.index_of(child)).push(child))
        } else if path.len() < live.len() {
            match explore(live, deps, path.push(child), 0, done) {
                Search::Found(c) => Search::Found(c),
                Search::Exhausted(d) => explore(live, deps, path, k + 1, d),
            }
        } else {
            Search::Exhausted(done)
        }
    }
}

/// The search from the `i`-th live name on.
pub open spec fn search_from(
    live: Seq<Seq<char>>,
    deps: Map<Seq<char>, Seq<Seq<char>>>,
    i: int,
    done: Set<Seq<char>>,
) -> Option<Seq<Seq<char>>>
    decreases live.len() - i,
{
    if i < 0 || i >= live.len() {
        None
    } else if done.contains(live[i]) {
        search_from(live, deps, i + 1, done)
    } else {
        match explore(live, deps, seq![live[i]], 0, done) {
            Search::Found(c) => Some(c),
            Search::Exhausted(d) => search_from(live, deps, i + 1, d),
        }
    }
}

/// The first cycle that a depth-first search meets which starts at each live
/// name in turn and follows the dependencies in their order.
pub open spec fn first_cycle(live: Seq<Seq<char>>, deps: Map<Seq<char>, Seq<Seq<char>>>) -> Option<Seq<Seq<char>>> {
    search_from(live, deps, 0, Set::empty())
}

/// The search that goes on where `path` and the positions `at` in the
/// dependency lists of its names say.
spec fn resumed(
    live: Seq<Seq<char>>,
    deps: Map<Seq<char>, Seq<Seq<char>>>,
    path: Seq<Seq<char>>,
    at: Seq<int>,
    done: Set<Seq<char>>,
) -> Search
    decreases path.len(),
{
    if path.len() == 0 || at.len() != path.len() {
        Search::Exhausted(done)
    } else {
        match explore(live, deps, path, at.last(), done) {
            Search::Found(c) => Search::Found(c),
            Search::Exhausted(d) => resumed(live, deps, path.drop_last(), at.drop_last(), d),
        }
    }
}

proof fn resumed_past(
    live: Seq<Seq<char>>,
    deps: Map<Seq<char>, Seq<Seq<char>>>,
    path: Seq<Seq<char>>,
    at: Seq<int>,
    done: Set<Seq<char>>,
)
    requires
        path.len() > 0,
        at.len() == path.len(),
        0 <= at.last() < deps_at(deps, path.last()).len(),
        ({
            let child = deps_at(deps, path.last())[at.last()];
            !live.contains(child) || done.contains(child)
        }),
    ensures
        resumed(live, deps, path, at, done) == resumed(
            live,
            deps,
            path,
            at.drop_last().push(at.last() + 1),
            done,
        ),
{
    let next = at.drop_last().push(at.last() + 1);
    assert(next.drop_last() =~= at.drop_last());
}

proof fn resumed_below(
    live: Seq<Seq<char>>,
    deps: Map<Seq<char>, Seq<Seq<char>>>,
    path: Seq<Seq<char>>,
    at: Seq<int>,
    done: Set<Seq<char>>,
)
    requires
        0 < path.len() < live.len(),
        at.len() == path.len(),
        0 <= at.last() < deps_at(deps, path.last()).len(),
        ({
            let child = deps_at(deps, path.last())[at.last()];
            live.contains(child) && !done.contains(child) && !path.contains(child)
        }),
    ensures
        resumed(live, deps, path, at, done) == resumed(
            live,
            deps,
            path.push(deps_at(deps, path.last())[at.last()]),
            at.drop_last().push(at.last() + 1).push(0),
            done,
        ),
{
    reveal_with_fuel(resumed, 2);
    let child = deps_at(deps, path.last())[at.last()];
    let next = at.drop_last().push(at.last() + 1);
    assert(path.push(child).drop_last() =~= path);
    assert(next.push(0).drop_last() =~= next);
    assert(next.drop_last() =~= at.drop_last());
    match explore(live, deps, path.push(child), 0, done) {
        Search::Found(c) => {},
        Search::Exhausted(d) => {
            assert(explore(live, deps, path, at.last(), done) == explore(live, deps, path, at.last() + 1, d));
        },
    }
}

/// The names of `done` are live, no cycle passes through any of them, and if
/// there is one at all, some name of `done` has no live dependency.
spec fn settled(live: Seq<Seq<char>>, deps: Map<Seq<char>, Seq<Seq<char>>>, done: Set<Seq<char>>) -> bool {
    &&& forall|x: Seq<char>| #[trigger] done.contains(x) ==> live.contains(x)
    &&& forall|c: Seq<Seq<char>>, i: int|
        is_cycle(live, deps, c) && 0 <= i < c.len() ==> !done.contains(#[trigger] c[i])
    &&& (exists|x: Seq<char>| done.contains(x)) ==> exists|x: Seq<char>| #[trigger] done.contains(x) && is_sink(live, deps, x)
}

/// No dependency of `x` is live.
pub open spec fn is_sink(live: Seq<Seq<char>>, deps: Map<Seq<char>, Seq<Seq<char>>>, x: Seq<char>) -> bool {
    forall|i: int| 0 <= i < deps_at(deps, x).len() ==> !live.contains(#[trigger] deps_at(deps, x)[i])
}

/// `path` goes from live name to live name without repetition, each a
/// dependency of the one before, and meets none of `done`.
spec fn is_trail(
    live: Seq<Seq<char>>,
    deps: Map<Seq<char>, Seq<Seq<char>>>,
    path: Seq<Seq<char>>,
    done: Set<Seq<char>>,
) -> bool {
    &&& path.len() > 0
    &&& path.no_duplicates()
    &&& forall|i: int| 0 <= i < path.len() ==> live.contains(#[trigger] path[i]) && !done.contains(path[i])
    &&& forall|i: int| 0 <= i < path.len() - 1 ==> deps_at(deps, #[trigger] path[i]).contains(path[i + 1])
}

proof fn trail_extended(
    live: Seq<Seq<char>>,
    deps: Map<Seq<char>, Seq<Seq<char>>>,
    path: Seq<Seq<char>>,
    done: Set<Seq<char>>,
    child: Seq<char>,
)
    requires
        is_trail(live, deps, path, done),
        live.contains(child),
        !done.contains(child),
        !path.contains(child),
        deps_at(deps, path.last()).contains(child),
    ensures
        is_trail(live, deps, path.push(child), done),
        path.len() < live.len(),
{
    let p = path.push(child);
    assert forall|i: int| 0 <= i < p.len() implies live.contains(#[trigger] p[i]) && !done.contains(p[i]) by {
        if i < path.len() {
            assert(p[i] == path[i]);
        }
    }
    assert forall|i: int| 0 <= i < p.len() - 1 implies deps_at(deps, #[trigger] p[i]).contains(p[i + 1]) by {
        assert(p[i] == path[i]);
        if i + 1 < path.len() {
            assert(p[i + 1] == path[i + 1]);
        }
    }
    no_longer_than(p, live);
}

proof fn trail_closed(
    live: Seq<Seq<char>>,
    deps: Map<Seq<char>, Seq<Seq<char>>>,
    path: Seq<Seq<char>>,
    done: Set<Seq<char>>,
    child: Seq<char>,
)
    requires
        is_trail(live, deps, path, done),
        path.contains(child),
        deps_at(deps, path.last()).contains(child),
    ensures
        is_cycle(live, deps, path.skip(path.index_of(child)).push(child)),
        path.skip(path.index_of(child)).no_duplicates(),
{
    let p = path.index_of(child);
    let c = path.skip(p).push(child);
    assert(0 <= p < path.len() && path[p] == child);
    assert(c.first() == child);
    assert forall|i: int| 0 <= i < c.len() implies live.contains(#[trigger] c[i]) by {
        if i < c.len() - 1 {
            assert(c[i] == path[p + i]);
        } else {
            assert(live.contains(path[p]));
        }
    }
    assert forall|i: int| 0 <= i < c.len() - 1 implies deps_at(deps, #[trigger] c[i]).contains(c[i + 1]) by {
        assert(c[i] == path[p + i]);
        if i + 1 < c.len() - 1 {
            assert(c[i + 1] == path[p + i + 1]);
        }
    }
}

/// A search either finds a cycle or settles one more name.
proof fn explore_settles(
    live: Seq<Seq<char>>,
    deps: Map<Seq<char>, Seq<Seq<char>>>,
    path: Seq<Seq<char>>,
    k: int,
    done: Set<Seq<char>>,
)
    requires
        is_trail(live, deps, path, done),
        settled(live, deps, done),
        0 <= k <= deps_at(deps, path.last()).len(),
        forall|i: int|
            0 <= i < k && live.contains(#[trigger] deps_at(deps, path.last())[i]) ==> done.contains(
                deps_at(deps, path.last())[i],
            ),
    ensures
        match explore(live, deps, path, k, done) {
            Search::Found(c) => is_cycle(live, deps, c) && c.drop_last().no_duplicates(),
            Search::Exhausted(d) => {
                &&& settled(live, deps, d)
                &&& done.subset_of(d)
                &&& d.contains(path.last())
                &&& forall|i: int| 0 <= i < path.len() - 1 ==> !d.contains(#[trigger] path[i])
            },
        },
    decreases live.len() - path.len(), deps_at(deps, path.last()).len() - k,
{
    let v = path.last();
    let list = deps_at(deps, v);
    assert(v == path[path.len() - 1]);
    if k == list.len() {
        let d = done.insert(v);
        assert forall|c: Seq<Seq<char>>, i: int| is_cycle(live, deps, c) && 0 <= i < c.len() implies !d.contains(
            #[trigger] c[i],
        ) by {
            assert(!done.contains(c[i]));
            if c[i] == v {
                let j = if i == c.len() - 1 { 0 } else { i };
                assert(c[j] == v);
                assert(deps_at(deps, c[j]).contains(c[j + 1]));
                let q = choose|q: int| 0 <= q < list.len() && list[q] == c[j + 1];
                assert(live.contains(c[j + 1]));
                assert(done.contains(list[q]));
                assert(!done.contains(c[j + 1]));
            }
        }
        if is_sink(live, deps, v) {
            assert(d.contains(v));
        } else {
            let q = choose|q: int| 0 <= q < list.len() && live.contains(#[trigger] list[q]);
            assert(done.contains(list[q]));
            let x = choose|x: Seq<char>| #[trigger] done.contains(x) && is_sink(live, deps, x);
            assert(d.contains(x));
        }
    } else {
        let child = list[k];
        assert(list.contains(child));
        if !live.contains(child) || done.contains(child) {
            explore_settles(live, deps, path, k + 1, done);
        } else if path.contains(child) {
            trail_closed(live, deps, path, done, child);
            let s = path.skip(path.index_of(child));
            assert(s.push(child).drop_last() =~= s);
        } else {
            trail_extended(live, deps, path, done, child);
            explore_settles(live, deps, path.push(child), 0, done);
            match explore(live, deps, path.push(child), 0, done) {
                Search::Found(c) => {},
                Search::Exhausted(d) => {
                    let p = path.push(child);
                    assert forall|i: int| 0 <= i < path.len() implies live.contains(#[trigger] path[i])
                        && !d.contains(path[i]) by {
                        assert(p[i] == path[i]);
                    }
                    explore_settles(live, deps, path, k + 1, d);
                },
            }
        }
    }
}

/// A search from the `i`-th live name on finds a cycle or settles them all.
proof fn search_settles(live: Seq<Seq<char>>, deps: Map<Seq<char>, Seq<Seq<char>>>, i: int, done: Set<Seq<char>>)
    requires
        0 <= i <= live.len(),
        settled(live, deps, done),
        forall|j: int| 0 <= j < i ==> done.contains(#[trigger] live[j]),
    ensures
        match search_from(live, deps, i, done) {
            Some(c) => is_cycle(live, deps, c) && c.drop_last().no_duplicates(),
            None => {
                &&& forall|c: Seq<Seq<char>>| !#[trigger] is_cycle(live, deps, c)
                &&& live.len() > 0 ==> exists|x: Seq<char>| #[trigger] live.contains(x) && is_sink(live, deps, x)
            },
        },
    decreases live.len() - i,
{
    if i == live.len() {
        assert forall|c: Seq<Seq<char>>| !#[trigger] is_cycle(live, deps, c) by {
            if is_cycle(live, deps, c) {
                assert(live.contains(c[0]));
                let j = choose|j: int| 0 <= j < live.len() && live[j] == c[0];
                assert(done.contains(live[j]));
                assert(!done.contains(c[0]));
            }
        }
        if live.len() > 0 {
            assert(done.contains(live[0]));
            let x = choose|x: Seq<char>| #[trigger] done.contains(x) && is_sink(live, deps, x);
            assert(live.contains(x));
        }
    } else if done.contains(live[i]) {
        search_settles(live, deps, i + 1, done);
    } else {
        let path = seq![live[i]];
        explore_settles(live, deps, path, 0, done);
        match explore(live, deps, path, 0, done) {
            Search::Found(c) => {},
            Search::Exhausted(d) => {
                assert(d.contains(path.last()));
                search_settles(live, deps, i + 1, d);
            },
        }
    }
}

/// The search is sound and complete: what it returns is a cycle that passes
/// no name twice, and it returns nothing only if there is no cycle (in which
/// case some live name has no live dependency).
pub proof fn first_cycle_decides(live: Seq<Seq<char>>, deps: Map<Seq<char>, Seq<Seq<char>>>)
    ensures
        match first_cycle(live, deps) {
            Some(c) => is_cycle(live, deps, c) && c.drop_last().no_duplicates(),
            None => {
                &&& forall|c: Seq<Seq<char>>| !#[trigger] is_cycle(live, deps, c)
                &&& live.len() > 0 ==> exists|x: Seq<char>| #[trigger] live.contains(x) && is_sink(live, deps, x)
            },
        },
{
    search_settles(live, deps, 0, Set::empty());
}

/// The live names that are on the trail (`1`), settled (`2`) and unvisited
/// (`0`).
spec fn colored(live: Seq<Seq<char>>, color: Seq<u8>, path: Seq<Seq<char>>, done: Set<Seq<char>>) -> bool {
    &&& color.len() == live.len()
    &&& path.no_duplicates()
    &&& all_in(path, live)
    &&& forall|x: Seq<char>| #[trigger] done.contains(x) ==> live.contains(x)
    &&& forall|j: int| 0 <= j < live.len() ==> #[trigger] color_fits(color[j], live[j], path, done)
}

/// The color of one live name.
spec fn color_fits(color: u8, name: Seq<char>, path: Seq<Seq<char>>, done: Set<Seq<char>>) -> bool {
    &&& color <= 2
    &&& color == 1 <==> path.contains(name)
    &&& color == 2 <==> done.contains(name)
}

/// The positions as integers.
spec fn positions(at: Seq<usize>) -> Seq<int> {
    at.map_values(|k: usize| k as int)
}

/// Each position is one of the dependency list of its name, or its end.
spec fn placed(deps: Map<Seq<char>, Seq<Seq<char>>>, path: Seq<Seq<char>>, at: Seq<int>) -> bool {
    &&& path.len() == at.len()
    &&& forall|m: int| 0 <= m < path.len() ==> 0 <= #[trigger] at[m] <= deps_at(deps, path[m]).len()
}

proof fn colored_pushed(
    live: Seq<Seq<char>>,
    color: Seq<u8>,
    path: Seq<Seq<char>>,
    done: Set<Seq<char>>,
    j: int,
)
    requires
        colored(live, color, path, done),
        live.no_duplicates(),
        0 <= j < live.len(),
        color[j] == 0,
    ensures
        colored(live, color.update(j, 1), path.push(live[j]), done),
        path.len() < live.len(),
{
    let p = path.push(live[j]);
    let after = color.update(j, 1);
    assert(color_fits(color[j], live[j], path, done));
    assert forall|i: int| 0 <= i < live.len() implies #[trigger] color_fits(after[i], live[i], p, done) by {
        contains_push(path, live[j], live[i]);
        assert(color_fits(color[i], live[i], path, done));
    }
    assert(!path.contains(live[j]));
    assert forall|i: int| 0 <= i < p.len() implies live.contains(#[trigger] p[i]) by {
        if i < path.len() {
            assert(p[i] == path[i]);
        }
    }
    no_longer_than(p, live);
}

proof fn colored_popped(
    live: Seq<Seq<char>>,
    color: Seq<u8>,
    path: Seq<Seq<char>>,
    done: Set<Seq<char>>,
    j: int,
)
    requires
        colored(live, color, path, done),
        live.no_duplicates(),
        0 <= j < live.len(),
        path.len() > 0,
        path.last() == live[j],
    ensures
        colored(live, color.update(j, 2), path.drop_last(), done.insert(live[j])),
        !done.contains(live[j]),
{
    let p = path.drop_last();
    let after = color.update(j, 2);
    assert(path.contains(path[path.len() - 1]));
    assert(color_fits(color[j], live[j], path, done));
    assert forall|i: int| 0 <= i < live.len() implies #[trigger] color_fits(
        after[i],
        live[i],
        p,
        done.insert(live[j]),
    ) by {
        contains_push(p, path.last(), live[i]);
        assert(p.push(path.last()) =~= path);
        assert(color_fits(color[i], live[i], path, done));
        if i == j && p.contains(live[i]) {
            let q = choose|q: int| 0 <= q < p.len() && p[q] == live[i];
            assert(path[q] == path[path.len() - 1]);
        }
    }
    assert forall|i: int| 0 <= i < p.len() implies live.contains(#[trigger] p[i]) by {
        assert(p[i] == path[i]);
    }
}

proof fn few_settled(live: Seq<Seq<char>>, done: Set<Seq<char>>)
    requires
        forall|x: Seq<char>| #[trigger] done.contains(x) ==> live.contains(x),
    ensures
        done.finite(),
        done.len() <= live.len(),
{
    live.lemma_cardinality_of_set();
    assert(done.subset_of(live.to_set()));
    vstd::set_lib::lemma_len_subset(done, live.to_set());
}

/// Finds a concrete cycle among the `live` names: the names on it, each
/// followed by one of its dependencies, the first repeated at the end.
pub fn find_cycle(live: &[String], deps: &NameMap<Vec<String>>) -> (r: Option<Vec<String>>)
    requires
        ascending(texts(live@)),
    ensures
        match r {
            Some(c) => first_cycle(texts(live@), lists(deps@)) == Some(texts(c@)),
            None => first_cycle(texts(live@), lists(deps@)) is None,
        },
        r matches Some(c) ==> is_cycle(texts(live@), lists(deps@), texts(c@)) && texts(c@).drop_last().no_duplicates(),
        r is None <==> forall|c: Seq<Seq<char>>| !#[trigger] is_cycle(texts(live@), lists(deps@), c),
{
    let ghost names = texts(live@);
    let ghost graph = lists(deps@);
    let ghost mut done = Set::<Seq<char>>::empty();
    let mut color: Vec<u8> = Vec::with_capacity(live.len());
    proof {
        first_cycle_decides(names, graph);
        ascending_no_duplicates(names);
    }
    let mut i: usize = 0;
    while i < live.len()
        invariant
            i <= live@.len(),
            color@.len() == i,
            forall|j: int| 0 <= j < i ==> color@[j] == 0,
        decreases live@.len() - i,
    {
        color.push(0);
        i = i + 1;
    }
    let mut s: usize = 0;
    while s < live.len()
        invariant
            s <= live@.len(),
            names == texts(live@),
            ascending(names),
            names.no_duplicates(),
            graph == lists(deps@),
            colored(names, color@, Seq::empty(), done),
            first_cycle(names, graph) == search_from(names, graph, s as int, done),
            first_cycle(names, graph) matches Some(c) ==> is_cycle(names, graph, c)
                && c.drop_last().no_duplicates(),
        decreases live@.len() - s,
    {
        proof {
            assert(color_fits(color@[s as int], names[s as int], Seq::empty(), done));
        }
        if color[s] == 0 {
            let ghost start = done;
            let mut path: Vec<String> = Vec::new();
            let mut at: Vec<usize> = Vec::new();
            proof {
                colored_pushed(names, color@, Seq::empty(), done, s as int);
            }
            path.push(live[s].clone());
            at.push(0);
            color.set(s, 1);
            proof {
                reveal_with_fuel(resumed, 2);
                assert(texts(path@) =~= seq![names[s as int]]);
                assert(texts(path@) =~= Seq::<Seq<char>>::empty().push(names[s as int]));
                assert(positions(at@) =~= seq![0int]);
                assert(texts(path@).drop_last() =~= Seq::<Seq<char>>::empty());
            }
            while path.len() > 0
                invariant
                    s < live@.len(),
                    names == texts(live@),
                    ascending(names),
                    names.no_duplicates(),
                    graph == lists(deps@),
                    colored(names, color@, texts(path@), done),
                    placed(graph, texts(path@), positions(at@)),
                    resumed(names, graph, texts(path@), positions(at@), done) == explore(
                        names,
                        graph,
                        seq![names[s as int]],
                        0,
                        start,
                    ),
                    !start.contains(names[s as int]),
                    first_cycle(names, graph) == search_from(names, graph, s as int, start),
                    first_cycle(names, graph) matches Some(c) ==> is_cycle(names, graph, c)
                        && c.drop_last().no_duplicates(),
                decreases
                    names.len() - done.len(),
                    names.len() - path@.len(),
                    deps_at(graph, texts(path@).last()).len() - positions(at@).last(),
            {
                let top: usize = path.len() - 1;
                let k: usize = at[top];
                let ghost p = texts(path@);
                let ghost q = positions(at@);
                let ghost v = p.last();
                let ghost list = deps_at(graph, v);
                proof {
                    assert(p.last() == path@[top as int]@);
                    assert(q.last() == k);
                    few_settled(names, done);
                    no_longer_than(p, names);
                }
                let child: Option<&String> = match deps.get(path[top].as_str()) {
                    Some(node_deps) => {
                        proof {
                            assert(texts(node_deps@) == list);
                        }
                        if k < node_deps.len() {
                            proof {
                                assert(list[k as int] == node_deps@[k as int]@);
                            }
                            Some(&node_deps[k])
                        } else {
                            None
                        }
                    },
                    None => None,
                };
                match child {
                    None => {
                        proof {
                            assert(k == list.len());
                            assert(names.contains(p[top as int]));
                        }
                        if let Ok(j) = find(live, path[top].as_str()) {
                            proof {
                                assert(names[j as int] == v);
                                colored_popped(names, color@, p, done, j as int);
                            }
                            color.set(j, 2);
                        }
                        path.pop();
                        at.pop();
                        proof {
                            assert(texts(path@) =~= p.drop_last());
                            assert(positions(at@) =~= q.drop_last());
                            done = done.insert(v);
                            few_settled(names, done);
                        }
                    },
                    Some(c) => {
                        at.set(top, k + 1);
                        proof {
                            assert(positions(at@) =~= q.drop_last().push(q.last() + 1));
                        }
                        match find(live, c.as_str()) {
                            Err(_) => {
                                proof {
                                    resumed_past(names, graph, p, q, done);
                                }
                            },
                            Ok(j) => {
                                proof {
                                    assert(names[j as int] == c@);
                                    assert(names.contains(c@));
                                    assert(color_fits(color@[j as int], names[j as int], p, done));
                                }
                                if color[j] == 0 {
                                    proof {
                                        colored_pushed(names, color@, p, done, j as int);
                                        resumed_below(names, graph, p, q, done);
                                    }
                                    color.set(j, 1);
                                    path.push(c.clone());
                                    at.push(0);
                                    proof {
                                        assert(texts(path@) =~= p.push(c@));
                                        assert(positions(at@) =~= q.drop_last().push(q.last() + 1).push(0));
                                    }
                                } else if color[j] == 1 {
                                    let cyc = closing(&path, c);
                                    return Some(cyc);
                                } else {
                                    proof {
                                        resumed_past(names, graph, p, q, done);
                                    }
                                }
                            },
                        }
                    },
                }
            }
            proof {
                assert(texts(path@) =~= Seq::<Seq<char>>::empty());
            }
        }
        s = s + 1;
    }
    None
}

/// The part of a trail from a name on it to its end, and that name again.
fn closing(path: &Vec<String>, child: &String) -> (r: Vec<String>)
    requires
        texts(path@).contains(child@),
        texts(path@).no_duplicates(),
    ensures
        texts(r@) == texts(path@).skip(texts(path@).index_of(child@)).push(child@),
{
    let ghost p = texts(path@);
    let ghost at = p.index_of(child@);
    let mut out: Vec<String> = Vec::new();
    let mut on: bool = false;
    let mut i: usize = 0;
    proof {
        assert(0 <= at < p.len() && p[at] == child@);
    }
    while i < path.len()
        invariant
            i <= path@.len(),
            p == texts(path@),
            p.no_duplicates(),
            0 <= at < p.len(),
            p[at] == child@,
            on == (at < i),
            on ==> texts(out@) == p.subrange(at, i as int),
            !on ==> out@.len() == 0,
        decreases path@.len() - i,
    {
        let ghost out0 = out@;
        proof {
            assert(p[i as int] == path@[i as int]@);
        }
        if !on && same_text(path[i].as_str(), child.as_str()) {
            proof {
                assert(p[i as int] == p[at]);
            }
            on = true;
        }
        if on {
            out.push(path[i].clone());
            proof {
                assert(texts(out@) =~= texts(out0).push(p[i as int]));
                assert(p.subrange(at, i as int + 1) =~= p.subrange(at, i as int).push(p[i as int]));
                assert(texts(out@) =~= p.subrange(at, i as int + 1));
            }
        }
        i = i + 1;
    }
    let ghost out1 = out@;
    out.push(child.clone());
    proof {
        assert(p.subrange(at, p.len() as int) =~= p.skip(at));
        assert(texts(out@) =~= texts(out1).push(child@));
    }
    out
}

} // verus!
