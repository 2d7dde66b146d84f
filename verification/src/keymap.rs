//! Maps keyed by values of the library's own types.
//!
//! What the maps of the standard library hold is known to Verus only for keys that obey the
//! key model of `vstd`, which a derived `Eq` with a derived `Hash` or `Ord` does not show. These
//! keep a list in which every key is there once.

use vstd::prelude::*;

use crate::paths::FilePath;

verus! {

/// A type whose values are the same where they stand for the same.
pub trait Identity: View + Sized {
    /// Whether both stand for the same.
    fn same_as(&self, other: &Self) -> (r: bool)
        ensures
            r == (self@ == other@),
    ;

    /// A value that stands for the same.
    fn duplicate(&self) -> (r: Self)
        ensures
            r@ == self@,
    ;
}

impl Identity for FilePath {
    fn same_as(&self, other: &Self) -> (r: bool) {
        self.same(other)
    }

    fn duplicate(&self) -> (r: Self) {
        self.copy()
    }
}

/// A map from what keys stand for to values.
#[derive(Debug)]
pub struct KeyMap<K: Identity, V> {
    entries: Vec<(K, V)>,
}

spec fn holds_key<K: Identity, V>(entries: Seq<(K, V)>, k: K::V) -> bool {
    exists|i: int| 0 <= i < entries.len() && #[trigger] entries[i].0@ == k
}

spec fn key_index<K: Identity, V>(entries: Seq<(K, V)>, k: K::V) -> int {
    choose|i: int| 0 <= i < entries.len() && #[trigger] entries[i].0@ == k
}

spec fn distinct_keys<K: Identity, V>(entries: Seq<(K, V)>) -> bool {
    forall|i: int, j: int|
        0 <= i < entries.len() && 0 <= j < entries.len() && #[trigger] entries[i].0@
            == #[trigger] entries[j].0@ ==> i == j
}

spec fn as_map<K: Identity, V>(entries: Seq<(K, V)>) -> Map<K::V, V> {
    Map::new(|k: K::V| holds_key(entries, k), |k: K::V| entries[key_index(entries, k)].1)
}

spec fn as_keys<K: Identity, V>(entries: Seq<(K, V)>) -> Seq<K::V> {
    entries.map_values(|e: (K, V)| e.0@)
}

proof fn lemma_as_map<K: Identity, V>(entries: Seq<(K, V)>)
    requires
        distinct_keys(entries),
    ensures
        as_keys(entries).len() == entries.len(),
        as_keys(entries).no_duplicates(),
        forall|i: int| 0 <= i < entries.len() ==> #[trigger] as_keys(entries)[i] == entries[i].0@,
        forall|k: K::V| #[trigger]
            as_keys(entries).contains(k) <==> as_map(entries).contains_key(k),
        forall|i: int|
            0 <= i < entries.len() ==> as_map(entries)[#[trigger] as_keys(entries)[i]]
                == entries[i].1,
        as_map(entries).dom() == as_keys(entries).to_set(),
        as_map(entries).dom().finite(),
        as_map(entries).dom().len() == entries.len(),
{
    let keys = as_keys(entries);
    assert forall|i: int, j: int|
        0 <= i < keys.len() && 0 <= j < keys.len() && i != j implies keys[i] != keys[j] by {
        assert(keys[i] == entries[i].0@);
        assert(keys[j] == entries[j].0@);
    }
    assert forall|k: K::V| #[trigger]
        keys.contains(k) <==> as_map(entries).contains_key(k) by {
        if keys.contains(k) {
            let i = choose|i: int| 0 <= i < keys.len() && keys[i] == k;
            assert(entries[i].0@ == k);
        }
        if as_map(entries).contains_key(k) {
            let i = key_index(entries, k);
            assert(entries[i].0@ == k);
            assert(keys[i] == k);
        }
    }
    assert forall|i: int| 0 <= i < entries.len() implies as_map(entries)[#[trigger] keys[i]]
        == entries[i].1 by {
        let k = keys[i];
        assert(entries[i].0@ == k);
        assert(holds_key(entries, k));
        let j = key_index(entries, k);
        assert(entries[j].0@ == entries[i].0@);
    }
    assert(as_map(entries).dom() =~= keys.to_set()) by {
        assert forall|k: K::V| #[trigger]
            as_map(entries).dom().contains(k) == keys.to_set().contains(k) by {
            assert(keys.contains(k) <==> as_map(entries).contains_key(k));
        }
    }
    keys.unique_seq_to_set();
}

impl<K: Identity, V> View for KeyMap<K, V> {
    type V = Map<K::V, V>;

    closed spec fn view(&self) -> Map<K::V, V> {
        as_map(self.entries@)
    }
}

/// A map with every value replaced by what it stands for.
pub open spec fn deep_values<K, V: View>(m: Map<K, V>) -> Map<K, V::V> {
    m.map_values(|v: V| v@)
}

pub proof fn lemma_deep_values_insert<K, V: View>(m: Map<K, V>, k: K, v: V)
    ensures
        deep_values(m.insert(k, v)) == deep_values(m).insert(k, v@),
{
    assert(deep_values(m.insert(k, v)) =~= deep_values(m).insert(k, v@));
}

impl<K: Identity, V> KeyMap<K, V> {
    #[verifier::type_invariant]
    spec fn inv(&self) -> bool {
        distinct_keys(self.entries@)
    }

    /// The keys, in the order in which they came.
    pub closed spec fn keys(&self) -> Seq<K::V> {
        as_keys(self.entries@)
    }

    /// A map without entries.
    pub fn new() -> (r: Self)
        ensures
            r@ == Map::<K::V, V>::empty(),
            r.keys() == Seq::<K::V>::empty(),
    {
        let r = KeyMap { entries: Vec::new() };
        proof {
            assert(r@ =~= Map::<K::V, V>::empty());
            assert(r.keys() =~= Seq::<K::V>::empty());
        }
        r
    }

    /// The number of entries.
    pub fn len(&self) -> (n: usize)
        ensures
            n == self.keys().len(),
            n == self@.dom().len(),
            self@.dom().finite(),
            self.keys().no_duplicates(),
            self@.dom() == self.keys().to_set(),
            forall|k: K::V| #[trigger] self.keys().contains(k) <==> self@.contains_key(k),
    {
        proof {
            use_type_invariant(self);
            lemma_as_map(self.entries@);
        }
        self.entries.len()
    }

    fn find(&self, key: &K) -> (r: Option<usize>)
        ensures
            match r {
                Some(i) => i < self.entries@.len() && self.entries@[i as int].0@ == key@
                    && self@.contains_key(key@) && self@[key@] == self.entries@[i as int].1,
                None => !self@.contains_key(key@),
            },
    {
        proof {
            use_type_invariant(self);
            lemma_as_map(self.entries@);
        }
        let mut i: usize = 0;
        while i < self.entries.len()
            invariant
                i <= self.entries@.len(),
                forall|j: int| 0 <= j < i ==> #[trigger] self.entries@[j].0@ != key@,
                distinct_keys(self.entries@),
            decreases self.entries@.len() - i,
        {
            if self.entries[i].0.same_as(key) {
                proof {
                    lemma_as_map(self.entries@);
                    assert(self.keys()[i as int] == key@);
                    assert(self.keys().contains(key@));
                }
                return Some(i);
            }
            i += 1;
        }
        None
    }

    /// Whether `key` has an entry.
    pub fn contains_key(&self, key: &K) -> (r: bool)
        ensures
            r == self@.contains_key(key@),
    {
        self.find(key).is_some()
    }

    /// The value of `key`.
    pub fn get(&self, key: &K) -> (r: Option<&V>)
        ensures
            match r {
                Some(v) => self@.contains_key(key@) && *v == self@[key@],
                None => !self@.contains_key(key@),
            },
    {
        match self.find(key) {
            Some(i) => Some(&self.entries[i].1),
            None => None,
        }
    }

    /// The key at position `i`.
    pub fn key_at(&self, i: usize) -> (r: &K)
        requires
            i < self.keys().len(),
        ensures
            r@ == self.keys()[i as int],
            self@.contains_key(r@),
    {
        proof {
            use_type_invariant(self);
            lemma_as_map(self.entries@);
            assert(self.keys().contains(self.keys()[i as int]));
        }
        &self.entries[i].0
    }

    /// The value at position `i`.
    pub fn value_at(&self, i: usize) -> (r: &V)
        requires
            i < self.keys().len(),
        ensures
            *r == self@[self.keys()[i as int]],
            self@.contains_key(self.keys()[i as int]),
    {
        proof {
            use_type_invariant(self);
            lemma_as_map(self.entries@);
            assert(self.keys().contains(self.keys()[i as int]));
        }
        &self.entries[i].1
    }

    /// Sets the value of `key`.
    pub fn insert(&mut self, key: K, value: V) -> (r: Option<V>)
        ensures
            final(self)@ == old(self)@.insert(key@, value),
            match r {
                Some(v) => old(self)@.contains_key(key@) && v == old(self)@[key@],
                None => !old(self)@.contains_key(key@),
            },
    {
        proof {
            use_type_invariant(&*self);
            lemma_as_map(self.entries@);
        }
        let ghost before = self.entries@;
        let found = self.find(&key);
        let mut entries: Vec<(K, V)> = Vec::new();
        std::mem::swap(&mut self.entries, &mut entries);
        let ghost k = key@;
        let mut previous: Option<V> = None;
        match found {
            Some(i) => {
                let removed = entries.swap_remove(i);
                previous = Some(removed.1);
                proof {
                    lemma_removed(before, entries@, i as int, k);
                }
            },
            None => {
                proof {
                    assert(as_map(before).remove(k) =~= as_map(before));
                }
            },
        }
        let ghost middle = entries@;
        entries.push((key, value));
        proof {
            lemma_pushed(middle, entries@, k, value);
            assert(as_map(before).remove(k).insert(k, value) =~= as_map(before).insert(k, value));
        }
        self.entries = entries;
        previous
    }

    /// Removes the entry of `key`.
    pub fn remove(&mut self, key: &K) -> (r: Option<V>)
        ensures
            final(self)@ == old(self)@.remove(key@),
            match r {
                Some(v) => old(self)@.contains_key(key@) && v == old(self)@[key@],
                None => !old(self)@.contains_key(key@),
            },
    {
        proof {
            use_type_invariant(&*self);
            lemma_as_map(self.entries@);
        }
        let ghost before = self.entries@;
        match self.find(key) {
            Some(i) => {
                let mut entries: Vec<(K, V)> = Vec::new();
                std::mem::swap(&mut self.entries, &mut entries);
                let removed = entries.swap_remove(i);
                proof {
                    lemma_removed(before, entries@, i as int, key@);
                }
                self.entries = entries;
                Some(removed.1)
            },
            None => {
                proof {
                    assert(self@.remove(key@) =~= self@);
                }
                None
            },
        }
    }
}

proof fn lemma_pushed<K: Identity, V>(
    before: Seq<(K, V)>,
    after: Seq<(K, V)>,
    k: K::V,
    value: V,
)
    requires
        distinct_keys(before),
        !as_map(before).contains_key(k),
        after.len() == before.len() + 1,
        after.last().0@ == k,
        after.last().1 == value,
        forall|i: int| 0 <= i < before.len() ==> after[i] == before[i],
    ensures
        distinct_keys(after),
        as_map(after) == as_map(before).insert(k, value),
{
    assert forall|i: int, j: int|
        0 <= i < after.len() && 0 <= j < after.len() && #[trigger] after[i].0@
            == #[trigger] after[j].0@ implies i == j by {
        if i < before.len() {
            assert(holds_key(before, before[i].0@));
        }
        if j < before.len() {
            assert(holds_key(before, before[j].0@));
        }
        if i < before.len() && j < before.len() {
            assert(before[i].0@ == before[j].0@);
        }
    }
    lemma_as_map(before);
    lemma_as_map(after);
    let m = as_map(before).insert(k, value);
    let n = as_map(after);
    assert forall|q: K::V| n.contains_key(q) == m.contains_key(q) by {
        if n.contains_key(q) {
            let i = key_index(after, q);
            if i < before.len() {
                assert(before[i].0@ == q);
            }
        }
        if m.contains_key(q) {
            if q == k {
                assert(after[after.len() - 1].0@ == q);
            } else {
                let i = key_index(before, q);
                assert(after[i].0@ == q);
            }
        }
    }
    assert forall|q: K::V| n.contains_key(q) implies #[trigger] n[q] == m[q] by {
        let i = key_index(after, q);
        assert(as_keys(after)[i] == q);
        if i < before.len() {
            assert(as_keys(before)[i] == q);
            assert(holds_key(before, before[i].0@));
        }
    }
    assert(n =~= m);
}

proof fn lemma_removed<K: Identity, V>(
    before: Seq<(K, V)>,
    after: Seq<(K, V)>,
    i: int,
    k: K::V,
)
    requires
        distinct_keys(before),
        0 <= i < before.len(),
        before[i].0@ == k,
        after.len() == before.len() - 1,
        forall|j: int|
            0 <= j < after.len() ==> after[j] == (if j == i {
                before.last()
            } else {
                before[j]
            }),
    ensures
        distinct_keys(after),
        as_map(after) == as_map(before).remove(k),
        !as_map(after).contains_key(k),
{
    let origin = |j: int|
        if j == i {
            before.len() - 1
        } else {
            j
        };
    assert forall|a: int, b: int|
        0 <= a < after.len() && 0 <= b < after.len() && #[trigger] after[a].0@
            == #[trigger] after[b].0@ implies a == b by {
        assert(before[origin(a)].0@ == before[origin(b)].0@);
    }
    lemma_as_map(before);
    lemma_as_map(after);
    let m = as_map(before).remove(k);
    let n = as_map(after);
    assert forall|q: K::V| n.contains_key(q) == m.contains_key(q) by {
        if n.contains_key(q) {
            let j = key_index(after, q);
            assert(before[origin(j)].0@ == q);
            if q == k {
                assert(before[origin(j)].0@ == before[i].0@);
            }
        }
        if m.contains_key(q) {
            let j = key_index(before, q);
            assert(j != i);
            if j == before.len() - 1 {
                assert(after[i].0@ == q);
            } else {
                assert(after[j].0@ == q);
            }
        }
    }
    assert forall|q: K::V| n.contains_key(q) implies #[trigger] n[q] == m[q] by {
        let j = key_index(after, q);
        assert(as_keys(after)[j] == q);
        assert(as_keys(before)[origin(j)] == q);
    }
    assert(n =~= m);
}

} // verus!
