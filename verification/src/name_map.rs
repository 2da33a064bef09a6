//! A map keyed by names, kept in the order of the names.

use vstd::prelude::*;

use crate::cycle::lists;
use crate::order::{ascending, before, before_asymmetric, copy_strings, find, texts};

verus! {

/// A map from names to values.
///
/// The keys are held in ascending order, so walking the map by index visits
/// them in that order; no key occurs twice.
#[derive(Debug, PartialEq, Eq)]
pub struct NameMap<V> {
    keys: Vec<String>,
    values: Vec<V>,
}

impl<V> View for NameMap<V> {
    type V = Map<Seq<char>, V>;

    closed spec fn view(&self) -> Map<Seq<char>, V> {
        table(texts(self.keys@), self.values@)
    }
}

impl Clone for NameMap<String> {
    fn clone(&self) -> (m: Self)
        ensures
            m@ == self@,
            m.names() == self.names(),
    {
        proof {
            use_type_invariant(self);
        }
        let keys = copy_strings(self.keys.as_slice());
        let mut values: Vec<String> = Vec::with_capacity(self.values.len());
        let mut i: usize = 0;
        while i < self.values.len()
            invariant
                i <= self.values@.len(),
                values@ == self.values@.take(i as int),
            decreases self.values@.len() - i,
        {
            values.push(self.values[i].clone());
            proof {
                assert(values@ =~= self.values@.take(i as int + 1));
            }
            i = i + 1;
        }
        proof {
            assert(values@ =~= self.values@);
            assert(keys@.len() == texts(keys@).len());
        }
        NameMap { keys, values }
    }
}

impl Clone for NameMap<Vec<String>> {
    fn clone(&self) -> (m: Self)
        ensures
            m.names() == self.names(),
            lists(m@) == lists(self@),
    {
        proof {
            use_type_invariant(self);
        }
        let keys = copy_strings(self.keys.as_slice());
        let mut values: Vec<Vec<String>> = Vec::with_capacity(self.values.len());
        let mut i: usize = 0;
        while i < self.values.len()
            invariant
                i <= self.values@.len(),
                values@.len() == i,
                forall|j: int| 0 <= j < i ==> texts((#[trigger] values@[j])@) == texts(self.values@[j]@),
            decreases self.values@.len() - i,
        {
            values.push(copy_strings(self.values[i].as_slice()));
            i = i + 1;
        }
        let ghost names = texts(self.keys@);
        let ghost copied = values@;
        proof {
            assert(keys@.len() == texts(keys@).len());
        }
        let m = NameMap { keys, values };
        proof {
            assert forall|k: Seq<char>| #[trigger] names.contains(k) implies lists(m@)[k] == lists(self@)[k] by {
                let j = names.index_of(k);
                assert(texts(copied[j]@) == texts(self.values@[j]@));
            }
            assert(lists(m@) =~= lists(self@));
        }
        m
    }
}

/// The map that assigns to each key the value at the same position.
spec fn table<V>(keys: Seq<Seq<char>>, values: Seq<V>) -> Map<Seq<char>, V> {
    Map::new(|k: Seq<char>| keys.contains(k), |k: Seq<char>| values[keys.index_of(k)])
}

impl<V> NameMap<V> {
    #[verifier::type_invariant]
    spec fn sorted(self) -> bool {
        &&& self.keys@.len() == self.values@.len()
        &&& ascending(texts(self.keys@))
    }

    /// The keys, in ascending order.
    pub closed spec fn names(&self) -> Seq<Seq<char>> {
        texts(self.keys@)
    }

    /// An empty map.
    pub fn new() -> (m: Self)
        ensures
            m@ == Map::<Seq<char>, V>::empty(),
            m.names() == Seq::<Seq<char>>::empty(),
    {
        let m = NameMap { keys: Vec::new(), values: Vec::new() };
        proof {
            assert(m.names() =~= Seq::<Seq<char>>::empty());
            assert(m@ =~= Map::<Seq<char>, V>::empty());
        }
        m
    }

    /// The map whose keys are the given ones, each with the value at its position.
    pub(crate) fn from_sorted(keys: Vec<String>, values: Vec<V>) -> (m: Self)
        requires
            keys@.len() == values@.len(),
            ascending(texts(keys@)),
        ensures
            forall|k: Seq<char>| #[trigger] m@.contains_key(k) <==> texts(keys@).contains(k),
            forall|i: int| 0 <= i < keys@.len() ==> m@[(#[trigger] keys@[i])@] == values@[i],
            m.names() == texts(keys@),
    {
        let m = NameMap { keys, values };
        proof {
            ascending_no_duplicates(texts(keys@));
            assert forall|i: int| 0 <= i < keys@.len() implies m@[(#[trigger] keys@[i])@] == values@[i] by {
                assert(texts(keys@)[i] == keys@[i]@);
            }
        }
        m
    }

    /// The number of entries.
    pub fn len(&self) -> (n: usize)
        ensures
            n == self.names().len(),
    {
        self.keys.len()
    }

    /// The keys, in ascending order.
    pub fn keys(&self) -> (r: &[String])
        ensures
            texts(r@) == self.names(),
            ascending(self.names()),
            forall|k: Seq<char>| #[trigger] self@.contains_key(k) <==> self.names().contains(k),
    {
        proof {
            use_type_invariant(self);
        }
        self.keys.as_slice()
    }

    /// The value under a key.
    pub fn get(&self, key: &str) -> (r: Option<&V>)
        ensures
            r matches Some(v) ==> self@.contains_key(key@) && *v == self@[key@],
            r is None <==> !self@.contains_key(key@),
    {
        proof {
            use_type_invariant(self);
        }
        match find(self.keys.as_slice(), key) {
            Ok(i) => {
                proof {
                    assert(texts(self.keys@)[i as int] == key@);
                    ascending_no_duplicates(texts(self.keys@));
                }
                Some(&self.values[i])
            },
            Err(_) => None,
        }
    }

    /// The entry at a position of the ascending order.
    pub fn entry_at(&self, i: usize) -> (r: (&String, &V))
        requires
            i < self.names().len(),
        ensures
            r.0@ == self.names()[i as int],
            self@.contains_key(r.0@),
            *r.1 == self@[r.0@],
    {
        proof {
            use_type_invariant(self);
            assert(texts(self.keys@)[i as int] == self.keys[i as int]@);
            ascending_no_duplicates(texts(self.keys@));
        }
        (&self.keys[i], &self.values[i])
    }

    /// Puts a value under a key, in place of an earlier one.
    pub fn insert(&mut self, key: String, value: V)
        ensures
            final(self)@ == old(self)@.insert(key@, value),
    {
        proof {
            use_type_invariant(&*self);
        }
        let mut taken = NameMap::new();
        std::mem::swap(&mut taken, self);
        let NameMap { mut keys, mut values } = taken;
        let ghost k0 = texts(keys@);
        let ghost v0 = values@;
        let ghost text = key@;
        match find(keys.as_slice(), key.as_str()) {
            Ok(i) => {
                values.set(i, value);
                proof {
                    table_replaced(k0, v0, i as int, value);
                }
            },
            Err(i) => {
                keys.insert(i, key);
                values.insert(i, value);
                proof {
                    let k1 = texts(keys@);
                    assert(k1 =~= k0.insert(i as int, text));
                    assert(values@ =~= v0.insert(i as int, value));
                    assert forall|a: int, b: int| 0 <= a < b < k1.len() implies before(
                        #[trigger] k1[a],
                        #[trigger] k1[b],
                    ) by {
                        let a0 = if a < i { a } else { a - 1 };
                        let b0 = if b < i { b } else { b - 1 };
                        if a != i {
                            assert(k1[a] == k0[a0]);
                        }
                        if b != i {
                            assert(k1[b] == k0[b0]);
                        }
                    }
                    table_extended(k0, v0, i as int, text, value);
                }
            },
        }
        *self = NameMap { keys, values };
    }
}

proof fn table_replaced<V>(keys: Seq<Seq<char>>, values: Seq<V>, i: int, value: V)
    requires
        ascending(keys),
        keys.len() == values.len(),
        0 <= i < keys.len(),
    ensures
        table(keys, values.update(i, value)) == table(keys, values).insert(keys[i], value),
{
    ascending_no_duplicates(keys);
    let m1 = table(keys, values.update(i, value));
    let m2 = table(keys, values).insert(keys[i], value);
    assert(keys.contains(keys[i]));
    assert forall|k: Seq<char>| #[trigger] m1.contains_key(k) implies m1[k] == m2[k] by {
        let j = keys.index_of(k);
        assert(keys[j] == k);
    }
    assert(m1 =~= m2);
}

proof fn table_extended<V>(keys: Seq<Seq<char>>, values: Seq<V>, i: int, key: Seq<char>, value: V)
    requires
        ascending(keys),
        ascending(keys.insert(i, key)),
        keys.len() == values.len(),
        0 <= i <= keys.len(),
    ensures
        table(keys.insert(i, key), values.insert(i, value)) == table(keys, values).insert(key, value),
{
    let k1 = keys.insert(i, key);
    let v1 = values.insert(i, value);
    ascending_no_duplicates(keys);
    ascending_no_duplicates(k1);
    assert(k1[i] == key);
    let m1 = table(k1, v1);
    let m2 = table(keys, values).insert(key, value);
    assert forall|k: Seq<char>| m1.contains_key(k) <==> m2.contains_key(k) by {
        if keys.contains(k) {
            let j = keys.index_of(k);
            assert(k1[if j < i { j } else { j + 1 }] == k);
        }
        if k1.contains(k) && k != key {
            let j = k1.index_of(k);
            assert(keys[if j < i { j } else { j - 1 }] == k);
        }
    }
    assert forall|k: Seq<char>| #[trigger] m1.contains_key(k) implies m1[k] == m2[k] by {
        let j = k1.index_of(k);
        assert(k1[j] == k);
        if k != key {
            let j0 = if j < i { j } else { j - 1 };
            assert(keys[j0] == k);
        }
    }
    assert(m1 =~= m2);
}

/// In an ascending list a name stands at one position only.
pub proof fn ascending_no_duplicates(names: Seq<Seq<char>>)
    requires
        ascending(names),
    ensures
        names.no_duplicates(),
        forall|i: int| 0 <= i < names.len() ==> names.index_of(#[trigger] names[i]) == i,
{
    assert forall|i: int, j: int| 0 <= i < names.len() && 0 <= j < names.len() && i != j implies names[i]
        != names[j] by {
        if i < j {
            before_asymmetric(names[i], names[j]);
        } else {
            before_asymmetric(names[j], names[i]);
        }
    }
    assert forall|i: int| 0 <= i < names.len() implies names.index_of(#[trigger] names[i]) == i by {
        let k = names.index_of(names[i]);
        assert(names.contains(names[i]));
        assert(0 <= k < names.len() && names[k] == names[i]);
    }
}

} // verus!
