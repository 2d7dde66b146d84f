//! How what a background analysis learned of projects is taken over.

use std::sync::Arc;

use vstd::prelude::*;

use crate::budget::Work;
use crate::contexts::{pruned, trimmed_owners, ContextStore, OwnerView, StoreView};
use crate::documents::OpenDocuments;
use crate::keymap::{Identity, KeyMap};
use crate::project::{ContextKey, ContextState, KeyView};
use crate::strings::texts;
use crate::strmap::{deep_of, StrMap, StrSet};

verus! {

/// What an analysis knows of contexts and owners.
#[derive(Debug)]
pub struct NavigationState {
    pub store: ContextStore,
    pub use_clock: u64,
}

fn absorb<V>(target: &mut StrMap<V>, incoming: StrMap<V>)
    ensures
        final(target)@ == old(target)@.union_prefer_right(incoming@),
{
    let ghost start = target@;
    let ghost all = incoming@;
    let names = incoming.key_list();
    let ghost keys = texts(names@);
    let mut rest = incoming;
    let mut i: usize = 0;
    proof {
        assert forall|j: int| 0 <= j < keys.len() implies rest@.contains_key(#[trigger] keys[j]) by {
            assert(keys.contains(keys[j]));
        }
    }
    while i < names.len()
        invariant
            i <= names@.len(),
            keys == texts(names@),
            keys.no_duplicates(),
            start == old(target)@,
            forall|k: Seq<char>| #[trigger] keys.contains(k) <==> all.contains_key(k),
            forall|j: int|
                i <= j < keys.len() ==> rest@.contains_key(#[trigger] keys[j]) && rest@[keys[j]]
                    == all[keys[j]],
            forall|j: int|
                0 <= j < i ==> target@.contains_key(#[trigger] keys[j]) && target@[keys[j]]
                    == all[keys[j]],
            forall|k: Seq<char>|
                !all.contains_key(k) ==> (#[trigger] target@.contains_key(k) <==> start.contains_key(
                    k,
                )) && (start.contains_key(k) ==> target@[k] == start[k]),
            forall|k: Seq<char>| #[trigger]
                target@.contains_key(k) ==> start.contains_key(k) || all.contains_key(k),
        decreases names@.len() - i,
    {
        proof {
            assert(keys[i as int] == names@[i as int]@);
            assert(keys.contains(keys[i as int]));
        }
        match rest.remove(names[i].as_str()) {
            Some(value) => {
                let _previous = target.insert(names[i].clone(), value);
            },
            None => {},
        }
        i += 1;
    }
    proof {
        let goal = start.union_prefer_right(all);
        assert forall|k: Seq<char>| #[trigger] goal.contains_key(k) implies target@.contains_key(k)
            && target@[k] == goal[k] by {
            if all.contains_key(k) {
                assert(keys.contains(k));
                let j = choose|j: int| 0 <= j < keys.len() && keys[j] == k;
                assert(target@.contains_key(keys[j]));
            } else {
                assert(start.contains_key(k));
                assert(target@.contains_key(k));
            }
        }
        assert(target@ =~= goal);
    }
}

proof fn lemma_deep_union<V: View>(a: Map<Seq<char>, V>, b: Map<Seq<char>, V>)
    ensures
        deep_of(a.union_prefer_right(b)) == deep_of(a).union_prefer_right(deep_of(b)),
{
    assert(deep_of(a.union_prefer_right(b)) =~= deep_of(a).union_prefer_right(deep_of(b)));
}

/// The key is one of the first `n`.
spec fn among<K>(keys: Seq<K>, n: int, k: K) -> bool {
    exists|j: int| 0 <= j < n && #[trigger] keys[j] == k
}

/// What is under other keys than the first `n` is as it was.
spec fn untouched<K, V>(before: Map<K, V>, after: Map<K, V>, keys: Seq<K>, n: int) -> bool {
    forall|k: K|
        !among(keys, n, k) ==> (#[trigger] after.contains_key(k) <==> before.contains_key(k)) && (
        before.contains_key(k) ==> after[k] == before[k])
}

/// A state that was found whole outlives one that was not, while a source of its project is
/// open whose file is gone.
pub open spec fn outlives(kept: ContextState, incoming: ContextState, overlaid: bool) -> bool {
    !incoming.context.discovery_complete && kept.context.discovery_complete && overlaid
}

/// The contexts of both, the incoming ones where they are not outlived.
pub open spec fn joined_contexts(
    kept: Map<KeyView, Arc<ContextState>>,
    incoming: Map<KeyView, Arc<ContextState>>,
    overlaid: Set<KeyView>,
) -> Map<KeyView, Arc<ContextState>> {
    Map::new(
        |key: KeyView| kept.contains_key(key) || incoming.contains_key(key),
        |key: KeyView|
            if incoming.contains_key(key) && !(kept.contains_key(key) && outlives(
                *kept[key],
                *incoming[key],
                overlaid.contains(key),
            )) {
                incoming[key]
            } else {
                kept[key]
            },
    )
}

/// The owners of both, the incoming ones where they are not outlived.
pub open spec fn joined_owners(
    kept: Map<Seq<char>, OwnerView>,
    incoming: Map<Seq<char>, OwnerView>,
    overlaid: Set<Seq<char>>,
) -> Map<Seq<char>, OwnerView> {
    Map::new(
        |uri: Seq<char>| kept.contains_key(uri) || incoming.contains_key(uri),
        |uri: Seq<char>|
            if incoming.contains_key(uri) && !(kept.contains_key(uri) && outlives(
                *kept[uri].state,
                *incoming[uri].state,
                overlaid.contains(uri),
            )) {
                incoming[uri]
            } else {
                kept[uri]
            },
    )
}

/// What both know.
pub open spec fn joined_stores(
    kept: StoreView,
    incoming: StoreView,
    overlaid: Set<KeyView>,
    overlaid_owners: Set<Seq<char>>,
) -> StoreView {
    StoreView {
        contexts: joined_contexts(kept.contexts, incoming.contexts, overlaid),
        document_contexts: kept.document_contexts.union_prefer_right(incoming.document_contexts),
        open_document_contexts: kept.open_document_contexts.union_prefer_right(
            incoming.open_document_contexts,
        ),
        owners: joined_owners(kept.owners, incoming.owners, overlaid_owners),
        owner_last_used: kept.owner_last_used.union_prefer_right(incoming.owner_last_used),
    }
}

impl ContextStore {
    fn join_contexts(
        &mut self,
        incoming: &KeyMap<ContextKey, Arc<ContextState>>,
        overlaid: &KeyMap<ContextKey, ()>,
    )
        ensures
            final(self)@ == (StoreView {
                contexts: joined_contexts(
                    old(self)@.contexts,
                    incoming@,
                    overlaid@.dom(),
                ),
                ..old(self)@
            }),
    {
        let ghost store = self@;
        let ghost goal = joined_contexts(store.contexts, incoming@, overlaid@.dom());
        let n: usize = incoming.len();
        let ghost keys = incoming.keys();
        let mut i: usize = 0;
        while i < n
            invariant
                i <= n,
                n == keys.len(),
                keys == incoming.keys(),
                keys.no_duplicates(),
                forall|k: KeyView| #[trigger] keys.contains(k) <==> incoming@.contains_key(k),
                goal == joined_contexts(store.contexts, incoming@, overlaid@.dom()),
                self@ == (StoreView { contexts: self@.contexts, ..store }),
                forall|j: int|
                    0 <= j < i ==> self@.contexts.contains_key(#[trigger] keys[j])
                        && self@.contexts[keys[j]] == goal[keys[j]],
                untouched(store.contexts, self@.contexts, keys, i as int),
            decreases n - i,
        {
            let key = incoming.key_at(i);
            let state = incoming.value_at(i);
            proof {
                assert(keys[i as int] == key@);
                assert(!among(keys, i as int, key@));
                assert(self@.contexts.contains_key(key@) <==> store.contexts.contains_key(key@));
            }
            let preserved = match self.contexts.get(key) {
                Some(kept) => !state.context.discovery_complete && kept.context.discovery_complete
                    && overlaid.contains_key(key),
                None => false,
            };
            let ghost before = self@;
            if !preserved {
                let _previous = self.contexts.insert(key.duplicate(), state.clone());
            }
            proof {
                assert(self@ =~= (StoreView { contexts: self@.contexts, ..store }));
                assert(untouched(store.contexts, self@.contexts, keys, i + 1)) by {
                    assert forall|k: KeyView| !among(keys, i + 1, k) implies (
                    #[trigger] self@.contexts.contains_key(k) <==> store.contexts.contains_key(k)) && (
                    store.contexts.contains_key(k) ==> self@.contexts[k] == store.contexts[k]) by {
                        assert(!among(keys, i as int, k));
                        assert(keys[i as int] != k);
                        assert(before.contexts.contains_key(k) <==> store.contexts.contains_key(k));
                    }
                }
            }
            i += 1;
        }
        proof {
            assert forall|k: KeyView| #[trigger] goal.contains_key(k) implies
                self@.contexts.contains_key(k) && self@.contexts[k] == goal[k] by {
                if incoming@.contains_key(k) {
                    assert(keys.contains(k));
                    let j = choose|j: int| 0 <= j < keys.len() && keys[j] == k;
                    assert(self@.contexts.contains_key(keys[j]));
                } else {
                    assert(!keys.contains(k));
                    assert(!among(keys, n as int, k));
                    assert(self@.contexts.contains_key(k) <==> store.contexts.contains_key(k));
                }
            }
            assert forall|k: KeyView| #[trigger] self@.contexts.contains_key(k) implies
                goal.contains_key(k) by {
                if !incoming@.contains_key(k) {
                    assert(!keys.contains(k));
                    assert(!among(keys, n as int, k));
                }
            }
            assert(self@.contexts =~= goal);
        }
    }

    fn join_owners(
        &mut self,
        incoming: &StrMap<crate::contexts::KnownDocumentOwner>,
        overlaid: &StrSet,
    )
        ensures
            final(self)@ == (StoreView {
                owners: joined_owners(old(self)@.owners, incoming.deep(), overlaid@),
                ..old(self)@
            }),
    {
        let ghost store = self@;
        let ghost all = incoming.deep();
        let ghost goal = joined_owners(store.owners, all, overlaid@);
        let n: usize = incoming.len();
        let ghost keys = incoming.keys();
        let mut i: usize = 0;
        while i < n
            invariant
                i <= n,
                n == keys.len(),
                keys == incoming.keys(),
                keys.no_duplicates(),
                all == incoming.deep(),
                forall|k: Seq<char>| #[trigger] keys.contains(k) <==> incoming@.contains_key(k),
                goal == joined_owners(store.owners, all, overlaid@),
                self@ == (StoreView { owners: self@.owners, ..store }),
                forall|j: int|
                    0 <= j < i ==> self@.owners.contains_key(#[trigger] keys[j])
                        && self@.owners[keys[j]] == goal[keys[j]],
                untouched(store.owners, self@.owners, keys, i as int),
            decreases n - i,
        {
            let uri = incoming.key_at(i);
            let owner = incoming.value_at(i);
            proof {
                assert(keys[i as int] == uri@);
                assert(all[uri@] == owner@);
                assert(!among(keys, i as int, uri@));
                assert(self@.owners.contains_key(uri@) <==> store.owners.contains_key(uri@));
            }
            let preserved = match self.owners.get(uri.as_str()) {
                Some(kept) => !owner.state.context.discovery_complete
                    && kept.state.context.discovery_complete && overlaid.contains(uri.as_str()),
                None => false,
            };
            let ghost before = self@;
            if !preserved {
                let copied = owner.copy();
                proof {
                    crate::strmap::lemma_deep_insert(self.owners@, uri@, copied);
                }
                let _previous = self.owners.insert(uri.clone(), copied);
            }
            proof {
                assert(self@ =~= (StoreView { owners: self@.owners, ..store }));
                assert(untouched(store.owners, self@.owners, keys, i + 1)) by {
                    assert forall|k: Seq<char>| !among(keys, i + 1, k) implies (
                    #[trigger] self@.owners.contains_key(k) <==> store.owners.contains_key(k)) && (
                    store.owners.contains_key(k) ==> self@.owners[k] == store.owners[k]) by {
                        assert(!among(keys, i as int, k));
                        assert(keys[i as int] != k);
                        assert(before.owners.contains_key(k) <==> store.owners.contains_key(k));
                    }
                }
            }
            i += 1;
        }
        proof {
            assert forall|k: Seq<char>| #[trigger] goal.contains_key(k) implies
                self@.owners.contains_key(k) && self@.owners[k] == goal[k] by {
                if all.contains_key(k) {
                    assert(incoming@.contains_key(k));
                    assert(keys.contains(k));
                    let j = choose|j: int| 0 <= j < keys.len() && keys[j] == k;
                    assert(self@.owners.contains_key(keys[j]));
                } else {
                    assert(!incoming@.contains_key(k));
                    assert(!keys.contains(k));
                    assert(!among(keys, n as int, k));
                    assert(self@.owners.contains_key(k) <==> store.owners.contains_key(k));
                }
            }
            assert forall|k: Seq<char>| #[trigger] self@.owners.contains_key(k) implies
                goal.contains_key(k) by {
                if !all.contains_key(k) {
                    assert(!incoming@.contains_key(k));
                    assert(!keys.contains(k));
                    assert(!among(keys, n as int, k));
                }
            }
            assert(self@.owners =~= goal);
        }
    }

    /// Takes over what an analysis knows of contexts and owners. `overlaid` are the
    /// contexts here of which a source is open whose file is gone, `overlaid_owners` the
    /// documents here whose owner's project has such a source.
    pub fn apply_navigation_state(
        &mut self,
        state: NavigationState,
        overlaid: &KeyMap<ContextKey, ()>,
        overlaid_owners: &StrSet,
        documents: &OpenDocuments,
        use_clock: &mut u64,
    )
        ensures
            final(self)@ == pruned(
                trimmed_owners(
                    joined_stores(
                        old(self)@,
                        state.store@,
                        overlaid@.dom(),
                        overlaid_owners@,
                    ),
                    documents@,
                ),
            ),
            *final(use_clock) == (if *old(use_clock) >= state.use_clock {
                *old(use_clock)
            } else {
                state.use_clock
            }),
    {
        let ghost before = self@;
        let ghost goal = joined_stores(before, state.store@, overlaid@.dom(), overlaid_owners@);
        let store = state.store;
        self.join_contexts(&store.contexts, overlaid);
        self.join_owners(&store.owners, overlaid_owners);
        proof {
            lemma_deep_union(self.document_contexts@, store.document_contexts@);
            lemma_deep_union(self.open_document_contexts@, store.open_document_contexts@);
        }
        absorb(&mut self.document_contexts, store.document_contexts);
        absorb(&mut self.open_document_contexts, store.open_document_contexts);
        absorb(&mut self.owner_last_used, store.owner_last_used);
        proof {
            assert(self@ =~= goal);
        }
        if *use_clock < state.use_clock {
            *use_clock = state.use_clock;
        }
        self.trim_document_owners(documents);
        let mut work = Work::free();
        match self.prune_unused_contexts(&mut work) {
            Ok(_) => {},
            Err(_) => {},
        }
    }
}

} // verus!
