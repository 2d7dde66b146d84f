//! Ordered maps and sets keyed by strings.
//!
//! What the maps of the standard library hold is known to Verus only for keys that obey the
//! key model of `vstd`, and of `String` it is not known that it does. These keep a sorted list.

use vstd::prelude::*;

use crate::strings::str_before;
use crate::strings::{lemma_str_lt_order, str_lt, texts};

verus! {

/// A map from strings to values, kept in the order of its keys.
#[derive(Debug)]
pub struct StrMap<V> {
    entries: Vec<(String, V)>,
}

/// The index of the entry with key `k`.
spec fn entry_index<V>(entries: Seq<(String, V)>, k: Seq<char>) -> int {
    choose|i: int| 0 <= i < entries.len() && #[trigger] entries[i].0@ == k
}

spec fn has_entry<V>(entries: Seq<(String, V)>, k: Seq<char>) -> bool {
    exists|i: int| 0 <= i < entries.len() && #[trigger] entries[i].0@ == k
}

spec fn sorted_entries<V>(entries: Seq<(String, V)>) -> bool {
    forall|i: int, j: int|
        0 <= i < j < entries.len() ==> str_lt(#[trigger] entries[i].0@, #[trigger] entries[j].0@)
}

spec fn entries_map<V>(entries: Seq<(String, V)>) -> Map<Seq<char>, V> {
    Map::new(|k: Seq<char>| has_entry(entries, k), |k: Seq<char>| entries[entry_index(entries, k)].1)
}

spec fn entry_keys<V>(entries: Seq<(String, V)>) -> Seq<Seq<char>> {
    entries.map_values(|e: (String, V)| e.0@)
}

/// A sequence of keys in strictly increasing order.
pub open spec fn sorted_keys(keys: Seq<Seq<char>>) -> bool {
    forall|i: int, j: int| 0 <= i < j < keys.len() ==> str_lt(#[trigger] keys[i], #[trigger] keys[j])
}

/// The members of a finite set of strings in increasing order.
pub open spec fn in_order(s: Set<Seq<char>>) -> Seq<Seq<char>> {
    choose|m: Seq<Seq<char>>| sorted_keys(m) && #[trigger] m.to_set() == s
}

proof fn lemma_sorted_unique(a: Seq<Seq<char>>, b: Seq<Seq<char>>)
    requires
        sorted_keys(a),
        sorted_keys(b),
        a.to_set() == b.to_set(),
    ensures
        a == b,
    decreases a.len(),
{
    if a.len() == 0 {
        if b.len() > 0 {
            assert(b.to_set().contains(b[0]));
            assert(a.to_set().contains(b[0]));
        }
        assert(a =~= b);
    } else {
        assert(a.to_set().contains(a[0]));
        assert(b.to_set().contains(a[0]));
        let i = choose|i: int| 0 <= i < b.len() && b[i] == a[0];
        assert(b.to_set().contains(b[0]));
        assert(a.to_set().contains(b[0]));
        let j = choose|j: int| 0 <= j < a.len() && a[j] == b[0];
        lemma_str_lt_order(a[0], b[0], a[0]);
        if i > 0 {
            assert(str_lt(b[0], b[i]));
            if j > 0 {
                assert(str_lt(a[0], a[j]));
            }
        }
        assert(a[0] == b[0]);
        let x = a.drop_first();
        let y = b.drop_first();
        assert forall|p: int, q: int| 0 <= p < q < x.len() implies str_lt(
            #[trigger] x[p],
            #[trigger] x[q],
        ) by {
            assert(str_lt(a[p + 1], a[q + 1]));
        }
        assert forall|p: int, q: int| 0 <= p < q < y.len() implies str_lt(
            #[trigger] y[p],
            #[trigger] y[q],
        ) by {
            assert(str_lt(b[p + 1], b[q + 1]));
        }
        assert(x.to_set() =~= y.to_set()) by {
            assert forall|k: Seq<char>| x.to_set().contains(k) implies y.to_set().contains(k) by {
                lemma_drop_first_contains(a, b, k);
            }
            assert forall|k: Seq<char>| y.to_set().contains(k) implies x.to_set().contains(k) by {
                lemma_drop_first_contains(b, a, k);
            }
        }
        lemma_sorted_unique(x, y);
        assert(a =~= seq![a[0]] + x);
        assert(b =~= seq![b[0]] + y);
    }
}

proof fn lemma_drop_first_contains(a: Seq<Seq<char>>, b: Seq<Seq<char>>, k: Seq<char>)
    requires
        a.len() > 0,
        b.len() > 0,
        a[0] == b[0],
        sorted_keys(a),
        a.to_set() == b.to_set(),
        a.drop_first().contains(k),
    ensures
        b.drop_first().contains(k),
{
    let p = choose|p: int| 0 <= p < a.drop_first().len() && a.drop_first()[p] == k;
    assert(a[p + 1] == k);
    assert(str_lt(a[0], a[p + 1]));
    lemma_str_lt_order(a[0], a[0], a[0]);
    assert(a.to_set().contains(k));
    assert(b.to_set().contains(k));
    let q = choose|q: int| 0 <= q < b.len() && b[q] == k;
    assert(q > 0);
    assert(b.drop_first()[q - 1] == k);
}

/// A sequence in increasing order is the order of its members.
pub proof fn lemma_in_order(m: Seq<Seq<char>>)
    requires
        sorted_keys(m),
    ensures
        in_order(m.to_set()) == m,
{
    let other = in_order(m.to_set());
    assert(sorted_keys(other) && other.to_set() == m.to_set());
    lemma_sorted_unique(other, m);
}

/// Every finite set of strings has an order.
pub proof fn lemma_finite_set_has_order(s: Set<Seq<char>>)
    requires
        s.finite(),
    ensures
        sorted_keys(in_order(s)),
        in_order(s).to_set() == s,
    decreases s.len(),
{
    if s.len() == 0 {
        let none = Seq::<Seq<char>>::empty();
        assert(none.to_set() =~= s);
        assert(sorted_keys(none) && none.to_set() == s);
    } else {
        let x = s.choose();
        lemma_finite_set_has_order(s.remove(x));
        let rest = in_order(s.remove(x));
        let p = lemma_place(rest, x, rest.len() as int);
        let m = rest.insert(p, x);
        assert forall|i: int, j: int| 0 <= i < j < m.len() implies str_lt(
            #[trigger] m[i],
            #[trigger] m[j],
        ) by {
            if i < p && j > p {
                assert(str_lt(rest[i], rest[j - 1]));
            } else if i > p {
                assert(str_lt(rest[i - 1], rest[j - 1]));
            } else if j < p {
                assert(str_lt(rest[i], rest[j]));
            }
        }
        assert(m.to_set() =~= s) by {
            assert forall|k: Seq<char>| m.to_set().contains(k) == s.contains(k) by {
                if m.contains(k) {
                    let i = choose|i: int| 0 <= i < m.len() && m[i] == k;
                    if i < p {
                        assert(rest.to_set().contains(rest[i]));
                    } else if i > p {
                        assert(rest.to_set().contains(rest[i - 1]));
                    }
                }
                if s.contains(k) {
                    if k == x {
                        assert(m[p] == x);
                    } else {
                        assert(rest.to_set().contains(k));
                        let i = choose|i: int| 0 <= i < rest.len() && rest[i] == k;
                        if i < p {
                            assert(m[i] == k);
                        } else {
                            assert(m[i + 1] == k);
                        }
                    }
                }
            }
        }
        assert(sorted_keys(m) && m.to_set() == s);
    }
}

/// The order of a finite set holds each of its members once.
pub proof fn lemma_order_holds_each_once(s: Set<Seq<char>>)
    requires
        s.finite(),
    ensures
        in_order(s).no_duplicates(),
        in_order(s).len() == s.len(),
{
    let keys = in_order(s);
    lemma_finite_set_has_order(s);
    assert forall|i: int, j: int| 0 <= i < keys.len() && 0 <= j < keys.len() && i != j implies keys[i]
        != keys[j] by {
        lemma_str_lt_order(keys[i], keys[i], keys[i]);
        if i < j {
            assert(str_lt(keys[i], keys[j]));
        } else {
            assert(str_lt(keys[j], keys[i]));
        }
    }
    keys.unique_seq_to_set();
}

/// The place of a new member among the first `n`.
proof fn lemma_place(m: Seq<Seq<char>>, x: Seq<char>, n: int) -> (p: int)
    requires
        sorted_keys(m),
        !m.contains(x),
        0 <= n <= m.len(),
        forall|i: int| n <= i < m.len() ==> str_lt(x, #[trigger] m[i]),
    ensures
        0 <= p <= m.len(),
        forall|i: int| 0 <= i < p ==> str_lt(#[trigger] m[i], x),
        forall|i: int| p <= i < m.len() ==> str_lt(x, #[trigger] m[i]),
    decreases n,
{
    if n == 0 {
        0
    } else {
        assert(m.contains(m[n - 1]));
        lemma_str_lt_order(m[n - 1], x, x);
        if str_lt(m[n - 1], x) {
            assert forall|i: int| 0 <= i < n implies str_lt(#[trigger] m[i], x) by {
                if i < n - 1 {
                    assert(str_lt(m[i], m[n - 1]));
                    lemma_str_lt_order(m[i], m[n - 1], x);
                }
            }
            n
        } else {
            lemma_place(m, x, n - 1)
        }
    }
}

proof fn lemma_sorted_distinct<V>(entries: Seq<(String, V)>)
    requires
        sorted_entries(entries),
    ensures
        forall|i: int, j: int|
            0 <= i < entries.len() && 0 <= j < entries.len() && #[trigger] entries[i].0@
                == #[trigger] entries[j].0@ ==> i == j,
{
    assert forall|i: int, j: int|
        0 <= i < entries.len() && 0 <= j < entries.len() && #[trigger] entries[i].0@
            == #[trigger] entries[j].0@ implies i == j by {
        lemma_str_lt_order(entries[i].0@, entries[j].0@, entries[i].0@);
        if i < j {
            assert(str_lt(entries[i].0@, entries[j].0@));
        }
        if j < i {
            assert(str_lt(entries[j].0@, entries[i].0@));
        }
    }
}

proof fn lemma_keys<V>(entries: Seq<(String, V)>)
    requires
        sorted_entries(entries),
    ensures
        entry_keys(entries).len() == entries.len(),
        forall|i: int|
            0 <= i < entries.len() ==> #[trigger] entry_keys(entries)[i] == entries[i].0@,
        sorted_keys(entry_keys(entries)),
        entry_keys(entries).no_duplicates(),
        forall|k: Seq<char>| #[trigger]
            entry_keys(entries).contains(k) <==> entries_map(entries).contains_key(k),
        forall|i: int|
            0 <= i < entries.len() ==> entries_map(entries)[#[trigger] entry_keys(entries)[i]]
                == entries[i].1,
        entries_map(entries).dom() == entry_keys(entries).to_set(),
        entries_map(entries).dom().finite(),
        entries_map(entries).dom().len() == entries.len(),
{
    let keys = entry_keys(entries);
    lemma_sorted_distinct(entries);
    assert forall|i: int, j: int| 0 <= i < j < keys.len() implies str_lt(
        #[trigger] keys[i],
        #[trigger] keys[j],
    ) by {
        assert(str_lt(entries[i].0@, entries[j].0@));
    }
    assert forall|k: Seq<char>| #[trigger]
        keys.contains(k) <==> entries_map(entries).contains_key(k) by {
        if keys.contains(k) {
            let i = choose|i: int| 0 <= i < keys.len() && keys[i] == k;
            assert(entries[i].0@ == k);
            assert(has_entry(entries, k));
        }
        if entries_map(entries).contains_key(k) {
            let i = entry_index(entries, k);
            assert(entries[i].0@ == k);
            assert(keys[i] == k);
        }
    }
    assert forall|i: int| 0 <= i < entries.len() implies entries_map(entries)[#[trigger] keys[i]]
        == entries[i].1 by {
        let k = keys[i];
        assert(entries[i].0@ == k);
        assert(has_entry(entries, k));
        let j = entry_index(entries, k);
        assert(entries[j].0@ == entries[i].0@);
    }
    assert forall|i: int, j: int|
        0 <= i < keys.len() && 0 <= j < keys.len() && i != j implies keys[i] != keys[j] by {
        assert(keys[i] == entries[i].0@);
        assert(keys[j] == entries[j].0@);
    }
    assert(entries_map(entries).dom() =~= keys.to_set()) by {
        assert forall|k: Seq<char>| #[trigger]
            entries_map(entries).dom().contains(k) == keys.to_set().contains(k) by {
            assert(keys.contains(k) <==> entries_map(entries).contains_key(k));
        }
    }
    keys.unique_seq_to_set();
}

/// One more element of a sequence is one more member.
pub proof fn lemma_take_set<T>(s: Seq<T>, i: int)
    requires
        0 <= i < s.len(),
    ensures
        s.take(i + 1).to_set() == s.take(i).to_set().insert(s[i]),
{
    assert(s.take(i + 1) =~= s.take(i).push(s[i]));
    assert forall|x: T| s.take(i + 1).to_set().contains(x) == s.take(i).to_set().insert(
        s[i],
    ).contains(x) by {
        let longer = s.take(i + 1);
        if longer.contains(x) {
            let j = choose|j: int| 0 <= j < longer.len() && longer[j] == x;
            if j < i {
                assert(s.take(i)[j] == x);
            }
        }
        let shorter = s.take(i);
        if shorter.contains(x) {
            let j = choose|j: int| 0 <= j < shorter.len() && shorter[j] == x;
            assert(s.take(i + 1)[j] == x);
        }
        assert(s.take(i + 1)[i] == s[i]);
    }
    assert(s.take(i + 1).to_set() =~= s.take(i).to_set().insert(s[i]));
}

impl<V> View for StrMap<V> {
    type V = Map<Seq<char>, V>;

    closed spec fn view(&self) -> Map<Seq<char>, V> {
        entries_map(self.entries@)
    }
}

/// A map with every value replaced by what it stands for.
pub open spec fn deep_of<V: View>(m: Map<Seq<char>, V>) -> Map<Seq<char>, V::V> {
    m.map_values(|v: V| v@)
}

pub proof fn lemma_deep_insert<V: View>(m: Map<Seq<char>, V>, k: Seq<char>, v: V)
    ensures
        deep_of(m.insert(k, v)) == deep_of(m).insert(k, v@),
{
    assert(deep_of(m.insert(k, v)) =~= deep_of(m).insert(k, v@));
}

pub proof fn lemma_deep_remove<V: View>(m: Map<Seq<char>, V>, k: Seq<char>)
    ensures
        deep_of(m.remove(k)) == deep_of(m).remove(k),
{
    assert(deep_of(m.remove(k)) =~= deep_of(m).remove(k));
}

impl<V: View> StrMap<V> {
    /// The map with every value replaced by what it stands for.
    pub open spec fn deep(&self) -> Map<Seq<char>, V::V> {
        deep_of(self@)
    }
}

proof fn lemma_insert_sorted<V>(
    before: Seq<(String, V)>,
    after: Seq<(String, V)>,
    at: int,
    entry: (String, V),
)
    requires
        sorted_entries(before),
        0 <= at <= before.len(),
        after == before.insert(at, entry),
        forall|j: int| 0 <= j < at ==> str_lt(#[trigger] before[j].0@, entry.0@),
        forall|j: int| at <= j < before.len() ==> str_lt(entry.0@, #[trigger] before[j].0@),
    ensures
        sorted_entries(after),
{
    assert forall|i: int, j: int| 0 <= i < j < after.len() implies str_lt(
        #[trigger] after[i].0@,
        #[trigger] after[j].0@,
    ) by {
        if i < at && j > at {
            assert(after[i] == before[i] && after[j] == before[j - 1]);
            if i < j - 1 {
                assert(str_lt(before[i].0@, before[j - 1].0@));
            }
        } else if j < at {
            assert(after[i] == before[i] && after[j] == before[j]);
            assert(str_lt(before[i].0@, before[j].0@));
        } else if i > at {
            assert(after[i] == before[i - 1] && after[j] == before[j - 1]);
            assert(str_lt(before[i - 1].0@, before[j - 1].0@));
        } else if j == at {
            assert(after[i] == before[i]);
        } else {
            assert(after[j] == before[j - 1]);
        }
    }
}

impl<V> StrMap<V> {
    #[verifier::type_invariant]
    spec fn inv(&self) -> bool {
        sorted_entries(self.entries@)
    }

    /// The keys in order.
    pub closed spec fn keys(&self) -> Seq<Seq<char>> {
        entry_keys(self.entries@)
    }

    /// A map without entries.
    pub fn new() -> (r: Self)
        ensures
            r@ == Map::<Seq<char>, V>::empty(),
            r.keys() == Seq::<Seq<char>>::empty(),
    {
        let r = StrMap { entries: Vec::new() };
        proof {
            assert(r@ =~= Map::<Seq<char>, V>::empty());
            assert(r.keys() =~= Seq::<Seq<char>>::empty());
        }
        r
    }

    /// The number of entries.
    pub fn len(&self) -> (n: usize)
        ensures
            n == self.keys().len(),
            n == self@.dom().len(),
            self@.dom().finite(),
            sorted_keys(self.keys()),
            self.keys() == in_order(self@.dom()),
            self.keys().no_duplicates(),
            self@.dom() == self.keys().to_set(),
            forall|k: Seq<char>| #[trigger] self.keys().contains(k) <==> self@.contains_key(k),
    {
        proof {
            use_type_invariant(self);
            lemma_keys(self.entries@);
            lemma_in_order(self.keys());
        }
        self.entries.len()
    }

    /// The first position whose key is not before `key`.
    fn position(&self, key: &str) -> (r: usize)
        ensures
            r <= self.entries@.len(),
            forall|i: int| 0 <= i < r ==> str_lt(#[trigger] self.entries@[i].0@, key@),
            forall|i: int|
                r <= i < self.entries@.len() ==> !str_lt(#[trigger] self.entries@[i].0@, key@),
    {
        proof {
            use_type_invariant(self);
        }
        let mut lo: usize = 0;
        let mut hi: usize = self.entries.len();
        while lo < hi
            invariant
                sorted_entries(self.entries@),
                lo <= hi <= self.entries@.len(),
                forall|i: int| 0 <= i < lo ==> str_lt(#[trigger] self.entries@[i].0@, key@),
                forall|i: int|
                    hi <= i < self.entries@.len() ==> !str_lt(
                        #[trigger] self.entries@[i].0@,
                        key@,
                    ),
            decreases hi - lo,
        {
            let mid: usize = lo + (hi - lo) / 2;
            if str_before(self.entries[mid].0.as_str(), key) {
                proof {
                    assert forall|i: int| 0 <= i < mid + 1 implies str_lt(
                        #[trigger] self.entries@[i].0@,
                        key@,
                    ) by {
                        if i < mid {
                            assert(str_lt(self.entries@[i].0@, self.entries@[mid as int].0@));
                            lemma_str_lt_order(
                                self.entries@[i].0@,
                                self.entries@[mid as int].0@,
                                key@,
                            );
                        }
                    }
                }
                lo = mid + 1;
            } else {
                proof {
                    assert forall|i: int| mid <= i < self.entries@.len() implies !str_lt(
                        #[trigger] self.entries@[i].0@,
                        key@,
                    ) by {
                        if mid < i && str_lt(self.entries@[i].0@, key@) {
                            assert(str_lt(self.entries@[mid as int].0@, self.entries@[i].0@));
                            lemma_str_lt_order(
                                self.entries@[mid as int].0@,
                                self.entries@[i].0@,
                                key@,
                            );
                        }
                    }
                }
                hi = mid;
            }
        }
        lo
    }

    /// The position of `key`, if it has an entry.
    fn find(&self, key: &str) -> (r: Option<usize>)
        ensures
            match r {
                Some(i) => i < self.entries@.len() && self.entries@[i as int].0@ == key@
                    && self@.contains_key(key@) && self@[key@] == self.entries@[i as int].1,
                None => !self@.contains_key(key@),
            },
    {
        proof {
            use_type_invariant(self);
            lemma_keys(self.entries@);
            lemma_sorted_distinct(self.entries@);
        }
        let i: usize = self.position(key);
        if i < self.entries.len() && !str_before(key, self.entries[i].0.as_str()) {
            proof {
                lemma_str_lt_order(self.entries@[i as int].0@, key@, key@);
                assert(self.keys()[i as int] == key@);
            }
            Some(i)
        } else {
            proof {
                assert forall|j: int| 0 <= j < self.entries@.len() implies #[trigger] self.entries@[j].0@
                    != key@ by {
                    lemma_str_lt_order(key@, key@, key@);
                    if i < j {
                        assert(str_lt(self.entries@[i as int].0@, self.entries@[j].0@));
                        lemma_str_lt_order(key@, self.entries@[i as int].0@, self.entries@[j].0@);
                    }
                }
            }
            None
        }
    }

    /// Whether `key` has an entry.
    pub fn contains_key(&self, key: &str) -> (r: bool)
        ensures
            r == self@.contains_key(key@),
    {
        self.find(key).is_some()
    }

    /// The value of `key`.
    pub fn get(&self, key: &str) -> (r: Option<&V>)
        ensures
            match r {
                Some(v) => self@.contains_key(key@) && *v == self@[key@],
                None => !self@.contains_key(key@),
            },
    {
        match self.find(key) {
            Some(i) => Some(&self.entries[i].1),
            None => None,
        }
    }

    /// The key at position `i` of the order.
    pub fn key_at(&self, i: usize) -> (r: &String)
        requires
            i < self.keys().len(),
        ensures
            r@ == self.keys()[i as int],
            self@.contains_key(r@),
    {
        proof {
            use_type_invariant(self);
            lemma_keys(self.entries@);
            assert(self.keys().contains(self.keys()[i as int]));
        }
        &self.entries[i].0
    }

    /// The value at position `i` of the order.
    pub fn value_at(&self, i: usize) -> (r: &V)
        requires
            i < self.keys().len(),
        ensures
            *r == self@[self.keys()[i as int]],
            self@.contains_key(self.keys()[i as int]),
    {
        proof {
            use_type_invariant(self);
            lemma_keys(self.entries@);
            assert(self.keys().contains(self.keys()[i as int]));
        }
        &self.entries[i].1
    }

    /// The keys as a set.
    pub fn key_set(&self) -> (r: StrSet)
        ensures
            r@ == self@.dom(),
    {
        let n = self.len();
        let mut r = StrSet::new();
        let mut i: usize = 0;
        proof {
            assert(r@ =~= self.keys().take(0).to_set());
        }
        while i < n
            invariant
                n == self.keys().len(),
                i <= n,
                r@ == self.keys().take(i as int).to_set(),
            decreases n - i,
        {
            let _added = r.insert(self.key_at(i).clone());
            proof {
                lemma_take_set(self.keys(), i as int);
            }
            i += 1;
        }
        proof {
            assert(self.keys().take(n as int) =~= self.keys());
        }
        r
    }

    /// The keys in order.
    pub fn key_list(&self) -> (r: Vec<String>)
        ensures
            texts(r@) == self.keys(),
            texts(r@) == in_order(self@.dom()),
            sorted_keys(texts(r@)),
            texts(r@).no_duplicates(),
            forall|k: Seq<char>| #[trigger] texts(r@).contains(k) <==> self@.contains_key(k),
    {
        let n = self.len();
        let mut r: Vec<String> = Vec::new();
        let mut i: usize = 0;
        while i < n
            invariant
                n == self.keys().len(),
                i <= n,
                texts(r@) == self.keys().take(i as int),
            decreases n - i,
        {
            let ghost held = r@;
            r.push(self.key_at(i).clone());
            proof {
                assert(texts(r@) =~= texts(held).push(self.keys()[i as int]));
                assert(self.keys().take(i + 1) =~= self.keys().take(i as int).push(
                    self.keys()[i as int],
                ));
            }
            i += 1;
        }
        proof {
            assert(self.keys().take(n as int) =~= self.keys());
        }
        r
    }

    /// Sets the value of `key`.
    pub fn insert(&mut self, key: String, value: V) -> (r: Option<V>)
        ensures
            final(self)@ == old(self)@.insert(key@, value),
            match r {
                Some(v) => old(self)@.contains_key(key@) && v == old(self)@[key@],
                None => !old(self)@.contains_key(key@),
            },
    {
        proof {
            use_type_invariant(&*self);
            lemma_keys(self.entries@);
        }
        let ghost before = self.entries@;
        let found = self.find(key.as_str());
        let at: usize = self.position(key.as_str());
        let mut entries: Vec<(String, V)> = Vec::new();
        std::mem::swap(&mut self.entries, &mut entries);
        let ghost k = key@;
        let mut previous: Option<V> = None;
        match found {
            Some(i) => {
                let removed = entries.remove(i);
                previous = Some(removed.1);
                entries.insert(i, (key, value));
                proof {
                    assert(entries@ =~= before.update(i as int, (key, value)));
                }
            },
            None => {
                entries.insert(at, (key, value));
                proof {
                    assert forall|j: int| at <= j < before.len() implies str_lt(
                        k,
                        #[trigger] before[j].0@,
                    ) by {
                        lemma_str_lt_order(before[j].0@, k, k);
                        if before[j].0@ == k {
                            assert(has_entry(before, k));
                        }
                    }
                    lemma_insert_sorted(before, entries@, at as int, (key, value));
                }
            },
        }
        let ghost after = entries@;
        proof {
            assert(sorted_entries(after)) by {
                if found is Some {
                    assert forall|i: int, j: int| 0 <= i < j < after.len() implies str_lt(
                        #[trigger] after[i].0@,
                        #[trigger] after[j].0@,
                    ) by {
                        assert(str_lt(before[i].0@, before[j].0@));
                    }
                }
            }
            match found {
                Some(i) => lemma_replace(before, after, i as int, k, value),
                None => lemma_insert(before, after, at as int, k, value),
            }
        }
        self.entries = entries;
        previous
    }

    /// Removes the entry of `key`.
    pub fn remove(&mut self, key: &str) -> (r: Option<V>)
        ensures
            final(self)@ == old(self)@.remove(key@),
            match r {
                Some(v) => old(self)@.contains_key(key@) && v == old(self)@[key@],
                None => !old(self)@.contains_key(key@),
            },
    {
        proof {
            use_type_invariant(&*self);
            lemma_keys(self.entries@);
            lemma_sorted_distinct(self.entries@);
        }
        let ghost before = self.entries@;
        match self.find(key) {
            Some(i) => {
                let mut entries: Vec<(String, V)> = Vec::new();
                std::mem::swap(&mut self.entries, &mut entries);
                let removed = entries.remove(i);
                let ghost after = entries@;
                proof {
                    assert(sorted_entries(after)) by {
                        assert forall|a: int, b: int| 0 <= a < b < after.len() implies str_lt(
                            #[trigger] after[a].0@,
                            #[trigger] after[b].0@,
                        ) by {
                            let x = if a < i { a } else { a + 1 };
                            let y = if b < i { b } else { b + 1 };
                            assert(str_lt(before[x].0@, before[y].0@));
                        }
                    }
                    lemma_keys(after);
                    lemma_remove(before, after, i as int, key@);
                }
                self.entries = entries;
                Some(removed.1)
            },
            None => {
                proof {
                    assert(self@.remove(key@) =~= self@);
                }
                None
            },
        }
    }
}

proof fn lemma_replace<V>(
    before: Seq<(String, V)>,
    after: Seq<(String, V)>,
    i: int,
    k: Seq<char>,
    value: V,
)
    requires
        sorted_entries(before),
        sorted_entries(after),
        0 <= i < before.len(),
        after.len() == before.len(),
        before[i].0@ == k,
        after[i].0@ == k,
        after[i].1 == value,
        forall|j: int| 0 <= j < before.len() && j != i ==> after[j] == before[j],
    ensures
        entries_map(after) == entries_map(before).insert(k, value),
{
    lemma_keys(before);
    lemma_keys(after);
    lemma_sorted_distinct(before);
    let m = entries_map(before);
    let n = entries_map(after);
    assert(entry_keys(after) =~= entry_keys(before));
    assert forall|q: Seq<char>| n.contains_key(q) == m.insert(k, value).contains_key(q) by {
        assert(entry_keys(before).contains(q) <==> m.contains_key(q));
        assert(entry_keys(after).contains(q) <==> n.contains_key(q));
        assert(entry_keys(before)[i] == k);
    }
    assert forall|q: Seq<char>| n.contains_key(q) implies #[trigger] n[q] == m.insert(k, value)[q] by {
        let j = entry_index(after, q);
        assert(entry_keys(after)[j] == q);
        assert(entry_keys(before)[j] == q);
    }
    assert(n =~= m.insert(k, value));
}

proof fn lemma_insert<V>(
    before: Seq<(String, V)>,
    after: Seq<(String, V)>,
    i: int,
    k: Seq<char>,
    value: V,
)
    requires
        sorted_entries(before),
        sorted_entries(after),
        0 <= i <= before.len(),
        after.len() == before.len() + 1,
        after[i].0@ == k,
        after[i].1 == value,
        forall|j: int| 0 <= j < i ==> after[j] == before[j],
        forall|j: int| i < j < after.len() ==> after[j] == before[j - 1],
    ensures
        entries_map(after) == entries_map(before).insert(k, value),
{
    lemma_keys(before);
    lemma_keys(after);
    lemma_sorted_distinct(before);
    lemma_sorted_distinct(after);
    let m = entries_map(before);
    let n = entries_map(after);
    assert forall|q: Seq<char>| n.contains_key(q) == m.insert(k, value).contains_key(q) by {
        if n.contains_key(q) {
            let j = entry_index(after, q);
            if j < i {
                assert(before[j].0@ == q);
            } else if j > i {
                assert(before[j - 1].0@ == q);
            }
        }
        if m.contains_key(q) {
            let j = entry_index(before, q);
            if j < i {
                assert(after[j].0@ == q);
            } else {
                assert(after[j + 1].0@ == q);
            }
        }
    }
    assert forall|q: Seq<char>| n.contains_key(q) implies #[trigger] n[q] == m.insert(k, value)[q] by {
        let j = entry_index(after, q);
        assert(entry_keys(after)[j] == q);
        if j < i {
            assert(entry_keys(before)[j] == q);
            assert(after[j].0@ != after[i].0@);
        } else if j > i {
            assert(entry_keys(before)[j - 1] == q);
            assert(after[j].0@ != after[i].0@);
        }
    }
    assert(n =~= m.insert(k, value));
}

proof fn lemma_remove<V>(
    before: Seq<(String, V)>,
    after: Seq<(String, V)>,
    i: int,
    k: Seq<char>,
)
    requires
        sorted_entries(before),
        sorted_entries(after),
        0 <= i < before.len(),
        before[i].0@ == k,
        after == before.remove(i),
    ensures
        entries_map(after) == entries_map(before).remove(k),
{
    lemma_keys(before);
    lemma_keys(after);
    lemma_sorted_distinct(before);
    let m = entries_map(before);
    let n = entries_map(after);
    assert forall|q: Seq<char>| n.contains_key(q) == m.remove(k).contains_key(q) by {
        if n.contains_key(q) {
            let j = entry_index(after, q);
            let x = if j < i { j } else { j + 1 };
            assert(before[x].0@ == q);
        }
        if m.remove(k).contains_key(q) {
            let j = entry_index(before, q);
            let x = if j < i { j } else { j - 1 };
            assert(j != i);
            assert(after[x].0@ == q);
        }
    }
    assert forall|q: Seq<char>| n.contains_key(q) implies #[trigger] n[q] == m.remove(k)[q] by {
        let j = entry_index(after, q);
        assert(entry_keys(after)[j] == q);
        let x = if j < i { j } else { j + 1 };
        assert(entry_keys(before)[x] == q);
    }
    assert(n =~= m.remove(k));
}

/// A set of strings, kept in order.
#[derive(Debug)]
pub struct StrSet {
    map: StrMap<()>,
}

impl View for StrSet {
    type V = Set<Seq<char>>;

    closed spec fn view(&self) -> Set<Seq<char>> {
        self.map@.dom()
    }
}

impl StrSet {
    /// The members in order.
    pub closed spec fn members(&self) -> Seq<Seq<char>> {
        self.map.keys()
    }

    /// The empty set.
    pub fn new() -> (r: Self)
        ensures
            r@ == Set::<Seq<char>>::empty(),
            r.members() == Seq::<Seq<char>>::empty(),
    {
        let r = StrSet { map: StrMap::new() };
        proof {
            assert(r@ =~= Set::<Seq<char>>::empty());
        }
        r
    }

    /// The number of members.
    pub fn len(&self) -> (n: usize)
        ensures
            n == self.members().len(),
            n == self@.len(),
            self@.finite(),
            sorted_keys(self.members()),
            self.members() == in_order(self@),
            self.members().no_duplicates(),
            self@ == self.members().to_set(),
            forall|k: Seq<char>| #[trigger] self.members().contains(k) <==> self@.contains(k),
    {
        let n = self.map.len();
        proof {
            assert forall|k: Seq<char>| #[trigger]
                self.members().contains(k) <==> self@.contains(k) by {
                assert(self.map.keys().contains(k) <==> self.map@.contains_key(k));
            }
        }
        n
    }

    /// Whether `member` belongs to the set.
    pub fn contains(&self, member: &str) -> (r: bool)
        ensures
            r == self@.contains(member@),
    {
        self.map.contains_key(member)
    }

    /// The member at position `i` of the order.
    pub fn at(&self, i: usize) -> (r: &String)
        requires
            i < self.members().len(),
        ensures
            r@ == self.members()[i as int],
            self@.contains(r@),
    {
        self.map.key_at(i)
    }

    /// Adds `member`; true where it was not there.
    pub fn insert(&mut self, member: String) -> (r: bool)
        ensures
            final(self)@ == old(self)@.insert(member@),
            r == !old(self)@.contains(member@),
    {
        let ghost m = member@;
        let previous = self.map.insert(member, ());
        proof {
            assert(self@ =~= old(self)@.insert(m));
        }
        previous.is_none()
    }

    /// The members in order.
    pub fn list(&self) -> (r: Vec<String>)
        ensures
            texts(r@) == self.members(),
            texts(r@) == in_order(self@),
            sorted_keys(texts(r@)),
            texts(r@).no_duplicates(),
            forall|k: Seq<char>| #[trigger] texts(r@).contains(k) <==> self@.contains(k),
            texts(r@).len() == self@.len(),
    {
        let r = self.map.key_list();
        proof {
            texts(r@).unique_seq_to_set();
            assert(texts(r@).to_set() =~= self@);
        }
        r
    }

    /// A set with the same members.
    pub fn copy(&self) -> (r: StrSet)
        ensures
            r@ == self@,
    {
        self.map.key_set()
    }

    /// Takes `member` out; true where it was there.
    pub fn remove(&mut self, member: &str) -> (r: bool)
        ensures
            final(self)@ == old(self)@.remove(member@),
            r == old(self)@.contains(member@),
    {
        let previous = self.map.remove(member);
        proof {
            assert(self@ =~= old(self)@.remove(member@));
        }
        previous.is_some()
    }
}

} // verus!
