//! The order of task names.
//!
//! Names are ordered as Rust orders strings: by their UTF-8 bytes, the first
//! differing byte deciding, a proper prefix coming first.

use vstd::prelude::*;
use vstd::utf8::*;

verus! {

/// How one text stands to another.
#[derive(Debug, Clone, Copy, PartialEq, Eq, Structural)]
pub enum Rank {
    /// The first comes strictly before the second.
    Less,
    /// Both are the same text.
    Equal,
    /// The first comes strictly after the second.
    Greater,
}

/// `a` and `b` agree on their first `i` bytes, and at `i` the text `a` either
/// ends or holds the smaller byte.
pub open spec fn below_at(a: Seq<u8>, b: Seq<u8>, i: int) -> bool {
    &&& 0 <= i <= a.len()
    &&& i < b.len()
    &&& forall|j: int| 0 <= j < i ==> a[j] == b[j]
    &&& i < a.len() ==> a[i] < b[i]
}

/// The name `a` comes strictly before the name `b`.
pub open spec fn before(a: Seq<char>, b: Seq<char>) -> bool {
    exists|i: int| below_at(encode_utf8(a), encode_utf8(b), i)
}

/// The names stand in strictly ascending order (so no name occurs twice).
pub open spec fn ascending(names: Seq<Seq<char>>) -> bool {
    forall|i: int, j: int| 0 <= i < j < names.len() ==> before(#[trigger] names[i], #[trigger] names[j])
}

/// No name comes before itself.
pub proof fn before_irreflexive(a: Seq<char>)
    ensures
        !before(a, a),
{
}

/// Of two names at most one comes before the other.
pub proof fn before_asymmetric(a: Seq<char>, b: Seq<char>)
    requires
        before(a, b),
    ensures
        !before(b, a),
        a != b,
{
    let (x, y) = (encode_utf8(a), encode_utf8(b));
    let i = choose|i: int| below_at(x, y, i);
    if before(b, a) {
        let j = choose|j: int| below_at(y, x, j);
        if i < j {
            assert(y[i] == x[i]);
        } else if j < i {
            assert(x[j] == y[j]);
        }
    }
}

/// The order of names is transitive.
pub proof fn before_transitive(a: Seq<char>, b: Seq<char>, c: Seq<char>)
    requires
        before(a, b),
        before(b, c),
    ensures
        before(a, c),
{
    let (x, y, z) = (encode_utf8(a), encode_utf8(b), encode_utf8(c));
    let i = choose|i: int| below_at(x, y, i);
    let j = choose|j: int| below_at(y, z, j);
    let k = if i <= j { i } else { j };
    assert(below_at(x, z, k)) by {
        assert forall|m: int| 0 <= m < k implies x[m] == z[m] by {
            assert(x[m] == y[m]);
            assert(y[m] == z[m]);
        }
        if i < j {
            assert(y[i] == z[i]);
        } else if j < i {
            assert(x[j] == y[j]);
        }
    }
}

/// Two texts with the same UTF-8 bytes are the same text.
pub proof fn same_bytes_same_text(a: Seq<char>, b: Seq<char>)
    requires
        encode_utf8(a) == encode_utf8(b),
    ensures
        a == b,
{
    encode_utf8_decode_utf8(a);
    encode_utf8_decode_utf8(b);
}

/// Two different names are ordered one way or the other.
pub proof fn before_total(a: Seq<char>, b: Seq<char>)
    ensures
        a == b || before(a, b) || before(b, a),
{
    let (x, y) = (encode_utf8(a), encode_utf8(b));
    let i = common_prefix(x, y, 0);
    common_prefix_stops(x, y, 0);
    if i == x.len() && i == y.len() {
        assert(x =~= y);
        same_bytes_same_text(a, b);
    } else if i == x.len() || (i < y.len() && x[i] < y[i]) {
        assert(below_at(x, y, i));
    } else {
        assert(below_at(y, x, i));
    }
}

spec fn common_prefix(x: Seq<u8>, y: Seq<u8>, i: int) -> int
    decreases x.len() - i,
{
    if 0 <= i < x.len() && i < y.len() && x[i] == y[i] {
        common_prefix(x, y, i + 1)
    } else {
        i
    }
}

proof fn common_prefix_stops(x: Seq<u8>, y: Seq<u8>, i: int)
    requires
        0 <= i <= x.len(),
        i <= y.len(),
        forall|j: int| 0 <= j < i ==> x[j] == y[j],
    ensures
        ({
            let r = common_prefix(x, y, i);
            &&& i <= r <= x.len()
            &&& r <= y.len()
            &&& forall|j: int| 0 <= j < r ==> x[j] == y[j]
            &&& r < x.len() && r < y.len() ==> x[r] != y[r]
        }),
    decreases x.len() - i,
{
    if i < x.len() && i < y.len() && x[i] == y[i] {
        common_prefix_stops(x, y, i + 1);
    }
}

/// Compares two texts.
pub fn rank(a: &str, b: &str) -> (r: Rank)
    ensures
        r == Rank::Less <==> before(a@, b@),
        r == Rank::Equal <==> a@ == b@,
        r == Rank::Greater <==> before(b@, a@),
{
    let x = a.as_bytes();
    let y = b.as_bytes();
    let mut i: usize = 0;
    while i < x.len() && i < y.len() && x[i] == y[i]
        invariant
            i <= x.len(),
            i <= y.len(),
            forall|j: int| 0 <= j < i ==> x[j] == y[j],
        decreases x.len() - i,
    {
        i = i + 1;
    }
    if i == x.len() && i == y.len() {
        proof {
            assert(x@ =~= y@);
            same_bytes_same_text(a@, b@);
            before_irreflexive(a@);
        }
        Rank::Equal
    } else if i == x.len() || (i < y.len() && x[i] < y[i]) {
        proof {
            assert(below_at(x@, y@, i as int));
            before_asymmetric(a@, b@);
        }
        Rank::Less
    } else {
        proof {
            assert(below_at(y@, x@, i as int));
            before_asymmetric(b@, a@);
        }
        Rank::Greater
    }
}

/// Whether two texts are the same.
pub fn same_text(a: &str, b: &str) -> (r: bool)
    ensures
        r == (a@ == b@),
{
    match rank(a, b) {
        Rank::Equal => true,
        _ => false,
    }
}

/// The texts that a sequence of strings holds.
pub open spec fn texts(s: Seq<String>) -> Seq<Seq<char>> {
    s.map_values(|x: String| x@)
}

/// Looks a key up in a sorted list of names by bisection. The result is the
/// position of the key, or else the position at which it would be inserted.
pub fn find(names: &[String], key: &str) -> (r: Result<usize, usize>)
    requires
        ascending(texts(names@)),
    ensures
        match r {
            Ok(i) => i < names.len() && names[i as int]@ == key@,
            Err(i) => {
                &&& i <= names.len()
                &&& !texts(names@).contains(key@)
                &&& forall|j: int| 0 <= j < i ==> before(#[trigger] names[j]@, key@)
                &&& forall|j: int| i <= j < names.len() ==> before(key@, #[trigger] names[j]@)
            },
        },
{
    let ghost keys = texts(names@);
    let mut lo: usize = 0;
    let mut hi: usize = names.len();
    while lo < hi
        invariant
            lo <= hi <= names.len(),
            keys == texts(names@),
            ascending(keys),
            forall|j: int| 0 <= j < lo ==> before(#[trigger] names[j]@, key@),
            forall|j: int| hi <= j < names.len() ==> before(key@, #[trigger] names[j]@),
        decreases hi - lo,
    {
        let mid: usize = lo + (hi - lo) / 2;
        match rank(names[mid].as_str(), key) {
            Rank::Equal => {
                return Ok(mid);
            },
            Rank::Less => {
                proof {
                    assert forall|j: int| 0 <= j < mid + 1 implies before(#[trigger] names[j]@, key@) by {
                        if j < mid {
                            assert(before(keys[j], keys[mid as int]));
                            before_transitive(names[j]@, names[mid as int]@, key@);
                        }
                    }
                }
                lo = mid + 1;
            },
            Rank::Greater => {
                proof {
                    assert forall|j: int| mid <= j < names.len() implies before(key@, #[trigger] names[j]@) by {
                        if mid < j {
                            assert(before(keys[mid as int], keys[j]));
                            before_transitive(key@, names[mid as int]@, names[j]@);
                        }
                    }
                }
                hi = mid;
            },
        }
    }
    proof {
        if keys.contains(key@) {
            let j = choose|j: int| 0 <= j < keys.len() && keys[j] == key@;
            assert(names[j]@ == key@);
            before_irreflexive(key@);
        }
    }
    Err(lo)
}

/// A copy of a list of strings.
pub fn copy_strings(list: &[String]) -> (r: Vec<String>)
    ensures
        texts(r@) == texts(list@),
{
    let mut out: Vec<String> = Vec::with_capacity(list.len());
    let mut i: usize = 0;
    while i < list.len()
        invariant
            i <= list.len(),
            out@.len() == i,
            forall|j: int| 0 <= j < i ==> (#[trigger] out[j])@ == list[j]@,
        decreases list.len() - i,
    {
        out.push(list[i].clone());
        i = i + 1;
    }
    proof {
        assert(texts(out@) =~= texts(list@));
    }
    out
}

/// Appends copies of strings.
pub fn append_strings(list: &mut Vec<String>, more: &[String])
    ensures
        texts(final(list)@) == texts(old(list)@) + texts(more@),
{
    let ghost s0 = texts(list@);
    let mut i: usize = 0;
    proof {
        assert(s0 + texts(more@).take(0) =~= s0);
    }
    while i < more.len()
        invariant
            i <= more@.len(),
            texts(list@) == s0 + texts(more@).take(i as int),
        decreases more@.len() - i,
    {
        let ghost s1 = list@;
        list.push(more[i].clone());
        proof {
            assert(texts(list@) =~= texts(s1).push(more@[i as int]@));
            assert(texts(list@) =~= s0 + texts(more@).take(i as int + 1));
        }
        i = i + 1;
    }
    proof {
        assert(texts(more@).take(more@.len() as int) =~= texts(more@));
    }
}

} // verus!
