//! Names that are declared more than once.

use vstd::prelude::*;

use crate::graph::{declared, distinct, first_repeat_at};
use crate::kahn::{contains_push, with_name_adds, with_name_at};
use crate::order::{ascending, find, texts};
use crate::task::{tasks_view, Task};

verus! {

/// The position of the first task whose name was declared before.
pub fn first_repeat(tasks: &[Task]) -> (r: Option<usize>)
    ensures
        match r {
            Some(i) => first_repeat_at(tasks_view(tasks@), i as int),
            None => distinct(tasks_view(tasks@)),
        },
{
    let ghost ts = tasks_view(tasks@);
    let ghost names = declared(ts);
    let mut seen: Vec<String> = Vec::new();
    let mut i: usize = 0;
    while i < tasks.len()
        invariant
            i <= tasks@.len(),
            ts == tasks_view(tasks@),
            names == declared(ts),
            ascending(texts(seen@)),
            forall|x: Seq<char>| #[trigger] texts(seen@).contains(x) <==> names.take(i as int).contains(x),
            names.take(i as int).no_duplicates(),
        decreases tasks@.len() - i,
    {
        let ghost seen0 = texts(seen@);
        let ghost x = ts[i as int].name;
        proof {
            assert(x == tasks@[i as int].name@);
            assert(names.take(i as int + 1) =~= names.take(i as int).push(x));
        }
        match find(seen.as_slice(), tasks[i].name.as_str()) {
            Ok(k) => {
                proof {
                    assert(seen0[k as int] == x);
                    assert(seen0.contains(x));
                }
                return Some(i);
            },
            Err(k) => {
                seen.insert(k, tasks[i].name.clone());
                proof {
                    assert(texts(seen@) =~= seen0.insert(k as int, x));
                    with_name_at(seen0, x, k as int);
                    with_name_adds(seen0, x);
                    let more = names.take(i as int + 1);
                    assert forall|y: Seq<char>| #[trigger] texts(seen@).contains(y) <==> more.contains(y) by {
                        contains_push(names.take(i as int), x, y);
                    }
                    assert(!seen0.contains(x));
                    assert forall|a: int, b: int| 0 <= a < more.len() && 0 <= b < more.len() && a != b implies more[a]
                        != more[b] by {
                        if a < i {
                            assert(names.take(i as int).contains(names.take(i as int)[a]));
                        }
                        if b < i {
                            assert(names.take(i as int).contains(names.take(i as int)[b]));
                        }
                    }
                }
            },
        }
        i = i + 1;
    }
    proof {
        assert(names.take(names.len() as int) =~= names);
    }
    None
}

} // verus!
