//! What is kept of directories and packages, as long as there is room for it.

use vstd::prelude::*;

use crate::keymap::{Identity, KeyMap};

verus! {

/// Something that is kept, and when it was last used.
#[derive(Debug)]
pub struct Kept<V> {
    pub value: V,
    pub last_used: u64,
}

/// Values by their keys, no more than fit. The ones used longest ago are let go.
#[derive(Debug)]
pub struct Cache<K: Identity, V> {
    pub entries: KeyMap<K, Kept<V>>,
}

impl<K: Identity, V> View for Cache<K, V> {
    type V = Map<K::V, Kept<V>>;

    open spec fn view(&self) -> Map<K::V, Kept<V>> {
        self.entries@
    }
}

/// As many of the entries as fit, and none of those let go was used later than one that
/// stays.
pub open spec fn newest<K, V>(before: Map<K, Kept<V>>, after: Map<K, Kept<V>>, limit: nat) -> bool {
    &&& after.submap_of(before)
    &&& after.dom().finite()
    &&& after.dom().len() == (if before.dom().len() <= limit {
        before.dom().len()
    } else {
        limit
    })
    &&& forall|gone: K, kept: K|
        before.contains_key(gone) && !(#[trigger] after.contains_key(gone))
            && #[trigger] after.contains_key(kept) ==> before[gone].last_used
            <= before[kept].last_used
}

impl<K: Identity, V> Cache<K, V> {
    /// Nothing.
    pub fn new() -> (r: Self)
        ensures
            r@ == Map::<K::V, Kept<V>>::empty(),
            r@.dom().finite(),
    {
        let r = Cache { entries: KeyMap::new() };
        proof {
            assert(r@.dom() =~= Set::<K::V>::empty());
        }
        r
    }

    /// The number of entries.
    pub fn len(&self) -> (n: usize)
        ensures
            n == self@.dom().len(),
            self@.dom().finite(),
    {
        self.entries.len()
    }

    /// What is kept under a key.
    pub fn get(&self, key: &K) -> (r: Option<&V>)
        ensures
            match r {
                Some(value) => self@.contains_key(key@) && *value == self@[key@].value,
                None => !self@.contains_key(key@),
            },
    {
        match self.entries.get(key) {
            Some(kept) => Some(&kept.value),
            None => None,
        }
    }

    fn oldest(&self) -> (r: K)
        requires
            self@.dom().len() > 0,
        ensures
            self@.contains_key(r@),
            forall|other: K::V| #[trigger]
                self@.contains_key(other) ==> self@[r@].last_used <= self@[other].last_used,
    {
        let n: usize = self.entries.len();
        let ghost keys = self.entries.keys();
        let mut best: usize = 0;
        let mut i: usize = 1;
        while i < n
            invariant
                0 < n,
                1 <= i <= n,
                best < n,
                n == keys.len(),
                keys == self.entries.keys(),
                forall|j: int|
                    0 <= j < i ==> self@[keys[best as int]].last_used <= (
                    #[trigger] self@[keys[j]]).last_used,
            decreases n - i,
        {
            if self.entries.value_at(i).last_used < self.entries.value_at(best).last_used {
                best = i;
            }
            i += 1;
        }
        let key = self.entries.key_at(best).duplicate();
        proof {
            assert forall|other: K::V| #[trigger] self@.contains_key(other) implies
                self@[key@].last_used <= self@[other].last_used by {
                assert(keys.contains(other));
                let j = choose|j: int| 0 <= j < keys.len() && keys[j] == other;
                assert(self@[keys[best as int]].last_used <= self@[keys[j]].last_used);
            }
        }
        key
    }

    /// Lets entries go until no more are left than fit.
    pub fn trim(&mut self, limit: usize)
        ensures
            newest(old(self)@, final(self)@, limit as nat),
    {
        let ghost before = self@;
        let mut left: usize = self.entries.len();
        while left > limit
            invariant
                before == old(self)@,
                self@.submap_of(before),
                self@.dom().finite(),
                left == self@.dom().len(),
                before.dom().finite(),
                left <= before.dom().len(),
                before.dom().len() <= limit ==> left == before.dom().len(),
                before.dom().len() > limit ==> left >= limit,
                forall|gone: K::V, kept: K::V|
                    before.contains_key(gone) && !(#[trigger] self@.contains_key(gone))
                        && #[trigger] self@.contains_key(kept) ==> before[gone].last_used
                        <= before[kept].last_used,
            decreases left,
        {
            let victim = self.oldest();
            let ghost held = self@;
            let _gone = self.entries.remove(&victim);
            left = left - 1;
            proof {
                assert(self@.dom() =~= held.dom().remove(victim@));
                assert(held.submap_of(before));
                assert forall|k: K::V| #[trigger] held.contains_key(k) implies before.contains_key(k)
                    && before[k] == held[k] by {
                    assert(held.dom().contains(k));
                }
                assert forall|gone: K::V, kept: K::V|
                    before.contains_key(gone) && !(#[trigger] self@.contains_key(gone))
                        && #[trigger] self@.contains_key(kept) implies before[gone].last_used
                    <= before[kept].last_used by {
                    assert(held.dom().contains(kept) && held.dom().contains(victim@));
                    assert(held.contains_key(kept));
                    assert(before[kept] == held[kept] && before[victim@] == held[victim@]);
                    if gone == victim@ {
                        assert(held[victim@].last_used <= held[kept].last_used);
                    } else {
                        assert(!held.contains_key(gone));
                        assert(before[gone].last_used <= before[kept].last_used);
                    }
                }
            }
        }
    }

    /// Keeps a value, and lets others go where there is no room for all.
    pub fn put(&mut self, key: K, value: V, clock: u64, limit: usize)
        ensures
            newest(
                old(self)@.insert(key@, Kept { value, last_used: clock }),
                final(self)@,
                limit as nat,
            ),
    {
        let _before = self.entries.insert(key, Kept { value, last_used: clock });
        self.trim(limit);
    }

    /// Takes what is kept under a key.
    pub fn take(&mut self, key: &K) -> (r: Option<V>)
        ensures
            final(self)@ == old(self)@.remove(key@),
            match r {
                Some(value) => old(self)@.contains_key(key@) && value == old(self)@[key@].value,
                None => !old(self)@.contains_key(key@),
            },
    {
        match self.entries.remove(key) {
            Some(kept) => Some(kept.value),
            None => None,
        }
    }

    /// Notes that what is kept under a key was used.
    pub fn touch(&mut self, key: &K, clock: u64)
        ensures
            final(self)@ == (if old(self)@.contains_key(key@) {
                old(self)@.insert(
                    key@,
                    Kept { value: old(self)@[key@].value, last_used: clock },
                )
            } else {
                old(self)@
            }),
    {
        let ghost before = self@;
        match self.entries.remove(key) {
            Some(kept) => {
                let _none = self.entries.insert(
                    key.duplicate(),
                    Kept { value: kept.value, last_used: clock },
                );
                proof {
                    assert(self@ =~= before.insert(
                        key@,
                        Kept { value: before[key@].value, last_used: clock },
                    ));
                }
            },
            None => {
                proof {
                    assert(self@ =~= before);
                }
            },
        }
    }

    /// Forgets everything.
    pub fn clear(&mut self)
        ensures
            final(self)@ == Map::<K::V, Kept<V>>::empty(),
    {
        self.entries = KeyMap::new();
    }
}

/// What was just put stays, where there is room for one and nothing was used later.
pub proof fn law_the_newest_entry_stays<K, V>(
    before: Map<K, Kept<V>>,
    key: K,
    entry: Kept<V>,
    after: Map<K, Kept<V>>,
    limit: nat,
)
    requires
        before.dom().finite(),
        limit > 0,
        newest(before.insert(key, entry), after, limit),
        forall|other: K| #[trigger]
            before.contains_key(other) && other != key ==> before[other].last_used
                < entry.last_used,
    ensures
        after.contains_key(key),
        after[key] == entry,
{
    let all = before.insert(key, entry);
    assert(all.dom() =~= before.dom().insert(key));
    if !after.contains_key(key) {
        if all.dom().len() <= limit {
            assert(after.dom().subset_of(all.dom().remove(key)));
            vstd::set_lib::lemma_len_subset(after.dom(), all.dom().remove(key));
        } else {
            assert(after.dom().len() > 0);
            let kept = after.dom().choose();
            assert(after.dom().contains(kept));
            assert(after.contains_key(kept));
            assert(all.contains_key(kept));
            assert(before.contains_key(kept) && kept != key);
        }
    }
    assert(all.dom().contains(key) && after.dom().contains(key));
}

} // verus!
