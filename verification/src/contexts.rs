//! The project contexts that are known, the documents that are read in them, and the
//! documents' owners.

use std::sync::Arc;
use vstd::prelude::*;

use crate::budget::Work;
use crate::cancel::Interrupt;
use crate::documents::{DocumentView, OpenDocuments};
use crate::keymap::{Identity, KeyMap};
use crate::paths::{native_paths_equal, FilePath, Parts};
use crate::project::{ContextKey, ContextState, KeyView};
use crate::strings::{lemma_str_lt_order, str_lt};
use crate::strmap::{deep_of, lemma_deep_insert, lemma_deep_remove, StrMap};

verus! {

pub const MAX_DOCUMENT_OWNERS: usize = 4_096;

/// How a document came to its project.
#[derive(Clone, Copy, Debug, PartialEq, Eq, Structural)]
pub enum OwnerOrigin {
    /// The document's own automatic discovery.
    Automatic,
    /// A choice of the client.
    Explicit,
    /// The document was loaded as a dependency of another.
    Inherited,
}

/// That a source was found beside the one that needed it, in a context. It holds for this
/// source and this context alone.
#[derive(Debug)]
pub struct LegacyRouteProof {
    pub source: FilePath,
    pub context: ContextKey,
}

/// That a source was found beside the one that needed it, in a context.
pub struct RouteView {
    pub source: Parts,
    pub context: KeyView,
}

impl View for LegacyRouteProof {
    type V = RouteView;

    open spec fn view(&self) -> RouteView {
        RouteView { source: self.source@, context: self.context@ }
    }
}

impl LegacyRouteProof {
    pub fn copy(&self) -> (r: Self)
        ensures
            r@ == self@,
    {
        LegacyRouteProof { source: self.source.copy(), context: self.context.duplicate() }
    }
}

pub open spec fn optional_route(route: Option<LegacyRouteProof>) -> Option<RouteView> {
    match route {
        Some(route) => Some(route@),
        None => None,
    }
}

fn copy_route(route: &Option<LegacyRouteProof>) -> (r: Option<LegacyRouteProof>)
    ensures
        optional_route(r) == optional_route(*route),
{
    match route {
        Some(route) => Some(route.copy()),
        None => None,
    }
}

/// The project that a document is known to belong to.
#[derive(Debug)]
pub struct KnownDocumentOwner {
    pub key: ContextKey,
    pub state: Arc<ContextState>,
    pub origin: OwnerOrigin,
    pub needs_revalidation: bool,
    pub follow_current_project_file: bool,
    pub legacy_route: Option<LegacyRouteProof>,
}

/// The project that a document is known to belong to.
pub struct OwnerView {
    pub key: KeyView,
    pub state: Arc<ContextState>,
    pub origin: OwnerOrigin,
    pub needs_revalidation: bool,
    pub follow_current_project_file: bool,
    pub legacy_route: Option<RouteView>,
}

impl View for KnownDocumentOwner {
    type V = OwnerView;

    open spec fn view(&self) -> OwnerView {
        OwnerView {
            key: self.key@,
            state: self.state,
            origin: self.origin,
            needs_revalidation: self.needs_revalidation,
            follow_current_project_file: self.follow_current_project_file,
            legacy_route: optional_route(self.legacy_route),
        }
    }
}

/// The owner has a proof for exactly this source, from exactly its own context.
pub open spec fn route_holds(owner: OwnerView, path: Parts) -> bool {
    owner.legacy_route is Some && owner.legacy_route->0.context == owner.key
        && owner.legacy_route->0.source == path
}

impl KnownDocumentOwner {
    pub fn copy(&self) -> (r: Self)
        ensures
            r@ == self@,
    {
        KnownDocumentOwner {
            key: self.key.duplicate(),
            state: self.state.clone(),
            origin: self.origin,
            needs_revalidation: self.needs_revalidation,
            follow_current_project_file: self.follow_current_project_file,
            legacy_route: copy_route(&self.legacy_route),
        }
    }

    /// Whether the owner has a proof for exactly this source, from exactly its own
    /// context.
    pub fn has_legacy_route(&self, path: &FilePath) -> (r: bool)
        ensures
            r == route_holds(self@, path@),
    {
        match &self.legacy_route {
            Some(route) => route.context.same_as(&self.key) && native_paths_equal(
                &route.source,
                path,
            ),
            None => false,
        }
    }
}

/// A change to all owners.
pub enum OwnerChange<'a> {
    /// No proof holds any more.
    ForgetRoutes,
    /// Every owner has to be looked at again.
    Revalidate,
    /// The options changed, the project file among them or not.
    OptionsChanged(bool),
    /// A context has a new state.
    Refresh(&'a ContextKey, &'a Arc<ContextState>),
    /// Contexts do not hold any more.
    Invalidate(&'a KeyMap<ContextKey, ()>),
}

/// An owner after a change to all.
pub open spec fn changed_owner(owner: OwnerView, change: OwnerChange) -> OwnerView {
    match change {
        OwnerChange::ForgetRoutes => OwnerView { legacy_route: None, ..owner },
        OwnerChange::Revalidate => OwnerView {
            needs_revalidation: true,
            legacy_route: None,
            ..owner
        },
        OwnerChange::OptionsChanged(project_file_changed) => OwnerView {
            needs_revalidation: true,
            follow_current_project_file: owner.follow_current_project_file || (
            project_file_changed && owner.key.selection_scope is None),
            legacy_route: None,
            ..owner
        },
        OwnerChange::Refresh(key, state) => if owner.key == key@ {
            OwnerView { state: *state, ..owner }
        } else {
            owner
        },
        OwnerChange::Invalidate(keys) => if keys@.contains_key(owner.key) {
            OwnerView { needs_revalidation: true, legacy_route: None, ..owner }
        } else {
            owner
        },
    }
}

fn change_owner(owner: &mut KnownDocumentOwner, change: &OwnerChange)
    ensures
        final(owner)@ == changed_owner(old(owner)@, *change),
{
    match change {
        OwnerChange::ForgetRoutes => {
            owner.legacy_route = None;
        },
        OwnerChange::Revalidate => {
            owner.needs_revalidation = true;
            owner.legacy_route = None;
        },
        OwnerChange::OptionsChanged(project_file_changed) => {
            owner.needs_revalidation = true;
            if *project_file_changed && owner.key.selection_scope.is_none() {
                owner.follow_current_project_file = true;
            }
            owner.legacy_route = None;
        },
        OwnerChange::Refresh(key, state) => {
            if owner.key.same_as(key) {
                owner.state = (*state).clone();
            }
        },
        OwnerChange::Invalidate(keys) => {
            if keys.contains_key(&owner.key) {
                owner.needs_revalidation = true;
                owner.legacy_route = None;
            }
        },
    }
}

/// What is known of contexts and owners.
#[derive(Debug)]
pub struct ContextStore {
    pub contexts: KeyMap<ContextKey, Arc<ContextState>>,
    pub document_contexts: StrMap<ContextKey>,
    pub open_document_contexts: StrMap<ContextKey>,
    pub owners: StrMap<KnownDocumentOwner>,
    pub owner_last_used: StrMap<u64>,
}

/// What is known of contexts and owners.
#[verifier::ext_equal]
pub struct StoreView {
    pub contexts: Map<KeyView, Arc<ContextState>>,
    pub document_contexts: Map<Seq<char>, KeyView>,
    pub open_document_contexts: Map<Seq<char>, KeyView>,
    pub owners: Map<Seq<char>, OwnerView>,
    pub owner_last_used: Map<Seq<char>, u64>,
}

impl View for ContextStore {
    type V = StoreView;

    open spec fn view(&self) -> StoreView {
        StoreView {
            contexts: self.contexts@,
            document_contexts: self.document_contexts.deep(),
            open_document_contexts: self.open_document_contexts.deep(),
            owners: self.owners.deep(),
            owner_last_used: self.owner_last_used@,
        }
    }
}

/// A document is read in the context.
pub open spec fn in_use(store: StoreView, key: KeyView) -> bool {
    ||| exists|uri: Seq<char>| #[trigger]
        store.document_contexts.contains_key(uri) && store.document_contexts[uri] == key
    ||| exists|uri: Seq<char>| #[trigger]
        store.open_document_contexts.contains_key(uri) && store.open_document_contexts[uri] == key
}

/// The contexts that a document is read in.
pub open spec fn used_contexts(store: StoreView) -> Map<KeyView, Arc<ContextState>> {
    store.contexts.remove_keys(unused_keys(store))
}

/// The contexts that no document is read in.
pub open spec fn unused_keys(store: StoreView) -> Set<KeyView> {
    store.contexts.dom().filter(|key: KeyView| !in_use(store, key))
}

/// The store without the contexts that no document is read in.
pub open spec fn pruned(store: StoreView) -> StoreView {
    StoreView { contexts: used_contexts(store), ..store }
}

/// The path visits that pruning is charged.
pub open spec fn prune_visits(store: StoreView) -> nat {
    store.document_contexts.dom().len() + store.open_document_contexts.dom().len()
        + store.contexts.dom().len() + unused_keys(store).len()
}

/// Nothing but unused contexts is missing.
pub open spec fn partly_pruned(before: StoreView, after: StoreView) -> bool {
    &&& after == (StoreView { contexts: after.contexts, ..before })
    &&& after.contexts.submap_of(before.contexts)
    &&& forall|key: KeyView| #[trigger]
        before.contexts.contains_key(key) && in_use(before, key) ==> after.contexts.contains_key(
            key,
        )
}

fn gather_keys(map: &StrMap<ContextKey>, used: &mut KeyMap<ContextKey, ()>, work: &mut Work) -> (r:
    Result<(), Interrupt>)
    ensures
        final(work).continues(old(work)),
        old(work).unbounded() ==> r is Ok,
        r matches Err(Interrupt::BudgetExceeded) ==> final(work).used_up(),
        r matches Err(Interrupt::BudgetExceeded) ==> !old(work).affords(map@.dom().len() as int, 0),
        r is Ok ==> final(work).visited(old(work), map@.dom().len() as int),
        r is Ok ==> forall|key: KeyView| #[trigger]
            final(used)@.contains_key(key) <==> old(used)@.contains_key(key) || exists|
                uri: Seq<char>,
            | #[trigger] map.deep().contains_key(uri) && map.deep()[uri] == key,
{
    let n: usize = map.len();
    let ghost keys = map.keys();
    let ghost start = *work;
    let ghost base = used@;
    let mut i: usize = 0;
    while i < n
        invariant
            i <= n,
            n == keys.len(),
            n == map@.dom().len(),
            keys == map.keys(),
            work.visited(&start, i as int),
            start == *old(work),
            forall|key: KeyView| #[trigger]
                used@.contains_key(key) <==> base.contains_key(key) || exists|j: int|
                    0 <= j < i && map.deep()[#[trigger] keys[j]] == key,
        decreases n - i,
    {
        work.check()?;
        work.visit(1)?;
        let ghost before = used@;
        let _before = used.insert(map.value_at(i).duplicate(), ());
        proof {
            let here = map.deep()[keys[i as int]];
            assert(here == map@[keys[i as int]]@);
            assert forall|key: KeyView| #[trigger] used@.contains_key(key) <==> base.contains_key(
                key,
            ) || exists|j: int| 0 <= j < i + 1 && map.deep()[#[trigger] keys[j]] == key by {
                assert(before.contains_key(key) <==> base.contains_key(key) || exists|j: int|
                    0 <= j < i && map.deep()[#[trigger] keys[j]] == key);
                if key == here {
                    assert(map.deep()[keys[i as int]] == key);
                }
                if before.contains_key(key) && !base.contains_key(key) {
                    let j = choose|j: int| 0 <= j < i && map.deep()[#[trigger] keys[j]] == key;
                    assert(map.deep()[keys[j]] == key);
                }
            }
        }
        i += 1;
    }
    proof {
        assert forall|key: KeyView| #[trigger] used@.contains_key(key) <==> base.contains_key(key)
            || exists|uri: Seq<char>| #[trigger]
            map.deep().contains_key(uri) && map.deep()[uri] == key by {
            if exists|j: int| 0 <= j < n && map.deep()[#[trigger] keys[j]] == key {
                let j = choose|j: int| 0 <= j < n && map.deep()[#[trigger] keys[j]] == key;
                assert(keys.contains(keys[j]));
                assert(map.deep().contains_key(keys[j]));
            }
            if exists|uri: Seq<char>| #[trigger]
                map.deep().contains_key(uri) && map.deep()[uri] == key {
                let uri = choose|uri: Seq<char>| #[trigger]
                    map.deep().contains_key(uri) && map.deep()[uri] == key;
                assert(keys.contains(uri));
                let j = choose|j: int| 0 <= j < keys.len() && keys[j] == uri;
                assert(map.deep()[keys[j]] == key);
            }
        }
    }
    Ok(())
}

impl ContextStore {
    /// Nothing is known.
    pub fn new() -> (r: Self)
        ensures
            r@ == (StoreView {
                contexts: Map::empty(),
                document_contexts: Map::empty(),
                open_document_contexts: Map::empty(),
                owners: Map::empty(),
                owner_last_used: Map::empty(),
            }),
    {
        let r = ContextStore {
            contexts: KeyMap::new(),
            document_contexts: StrMap::new(),
            open_document_contexts: StrMap::new(),
            owners: StrMap::new(),
            owner_last_used: StrMap::new(),
        };
        proof {
            assert(r@.document_contexts =~= Map::<Seq<char>, KeyView>::empty());
            assert(r@.open_document_contexts =~= Map::<Seq<char>, KeyView>::empty());
            assert(r@.owners =~= Map::<Seq<char>, OwnerView>::empty());
        }
        r
    }

    /// Forgets the contexts that no document is read in. Work that its account refuses
    /// changes nothing.
    pub fn prune_unused_contexts(&mut self, work: &mut Work) -> (r: Result<(), Interrupt>)
        ensures
            final(work).continues(old(work)),
            old(work).unbounded() ==> r is Ok,
            r matches Err(Interrupt::BudgetExceeded) ==> final(work).used_up(),
            r matches Err(Interrupt::BudgetExceeded) ==> !old(work).affords(
                prune_visits(old(self)@) as int,
                0,
            ),
            r is Ok ==> final(self)@ == pruned(old(self)@),
            r is Ok ==> final(work).visited(old(work), prune_visits(old(self)@) as int),
            partly_pruned(old(self)@, final(self)@),
            r == Err::<(), Interrupt>(Interrupt::BudgetExceeded) ==> final(self)@ == old(self)@,
    {
        work.check()?;
        let ghost store = self@;
        let ghost start = *work;
        let mut used: KeyMap<ContextKey, ()> = KeyMap::new();
        proof {
            assert(self.document_contexts.deep().dom() =~= self.document_contexts@.dom());
            assert(self.open_document_contexts.deep().dom()
                =~= self.open_document_contexts@.dom());
        }
        gather_keys(&self.document_contexts, &mut used, work)?;
        gather_keys(&self.open_document_contexts, &mut used, work)?;
        let n: usize = self.contexts.len();
        let ghost keys = self.contexts.keys();
        let ghost middle = *work;
        let mut unused: Vec<ContextKey> = Vec::new();
        let mut i: usize = 0;
        proof {
            assert forall|key: KeyView| #[trigger] used@.contains_key(key) <==> in_use(
                store,
                key,
            ) by {}
            assert(crate::sorting::views(unused@) =~= unused_among(store, keys, 0));
        }
        while i < n
            invariant
                i <= n,
                n == keys.len(),
                keys == self.contexts.keys(),
                self@ == store,
                store == old(self)@,
                n == store.contexts.dom().len(),
                middle.visited(
                    &*old(work),
                    (store.document_contexts.dom().len()
                        + store.open_document_contexts.dom().len()) as int,
                ),
                work.visited(&middle, i as int),
                work.continues(old(work)),
                old(work).unbounded() ==> middle.unbounded(),
                forall|key: KeyView| #[trigger] used@.contains_key(key) <==> in_use(store, key),
                crate::sorting::views(unused@) == unused_among(store, keys, i as int),
            decreases n - i,
        {
            work.check()?;
            work.visit(1)?;
            let key = self.contexts.key_at(i);
            let ghost before = unused@;
            if !used.contains_key(key) {
                unused.push(key.duplicate());
                proof {
                    assert(crate::sorting::views(unused@) =~= crate::sorting::views(before).push(
                        keys[i as int],
                    ));
                }
            }
            i += 1;
        }
        proof {
            lemma_unused(store, keys);
            assert(crate::sorting::views(unused@).len() == unused@.len());
        }
        work.visit(unused.len())?;
        let ghost listed = crate::sorting::views(unused@);
        let mut j: usize = 0;
        proof {
            assert(store.contexts.remove_keys(listed.take(0).to_set()) =~= store.contexts);
        }
        while j < unused.len()
            invariant
                j <= unused@.len(),
                listed == crate::sorting::views(unused@),
                listed.to_set() == unused_keys(store),
                work.continues(old(work)),
                work.cancel == old(work).cancel,
                store == old(self)@,
                self@ == (StoreView {
                    contexts: store.contexts.remove_keys(listed.take(j as int).to_set()),
                    ..store
                }),
            decreases unused@.len() - j,
        {
            proof {
                lemma_partly(store, listed, j as int);
            }
            work.check()?;
            let _gone = self.contexts.remove(&unused[j]);
            proof {
                assert(listed[j as int] == unused@[j as int]@);
                crate::strmap::lemma_take_set(listed, j as int);
                assert(self@.contexts =~= store.contexts.remove_keys(
                    listed.take(j + 1).to_set(),
                ));
            }
            j += 1;
        }
        proof {
            lemma_partly(store, listed, listed.len() as int);
            assert(listed.take(listed.len() as int) =~= listed);
            assert(self@ =~= pruned(store));
        }
        work.check()?;
        work.settle()?;
        Ok(())
    }
}

/// Those of the first `n` keys that no document is read in.
spec fn unused_among(store: StoreView, keys: Seq<KeyView>, n: int) -> Seq<KeyView>
    decreases n,
{
    if n <= 0 {
        Seq::empty()
    } else if in_use(store, keys[n - 1]) {
        unused_among(store, keys, n - 1)
    } else {
        unused_among(store, keys, n - 1).push(keys[n - 1])
    }
}

proof fn lemma_unused_among(store: StoreView, keys: Seq<KeyView>, n: int)
    requires
        0 <= n <= keys.len(),
        keys.no_duplicates(),
    ensures
        unused_among(store, keys, n).no_duplicates(),
        forall|key: KeyView| #[trigger]
            unused_among(store, keys, n).contains(key) <==> !in_use(store, key) && exists|j: int|
                0 <= j < n && #[trigger] keys[j] == key,
    decreases n,
{
    if n > 0 {
        lemma_unused_among(store, keys, n - 1);
        let before = unused_among(store, keys, n - 1);
        let after = unused_among(store, keys, n);
        let last = keys[n - 1];
        if before.contains(last) {
            let j = choose|j: int| 0 <= j < n - 1 && #[trigger] keys[j] == last;
            assert(keys[j] == keys[n - 1]);
        }
        assert forall|key: KeyView| #[trigger] after.contains(key) <==> !in_use(store, key)
            && exists|j: int| 0 <= j < n && #[trigger] keys[j] == key by {
            if after.contains(key) {
                let i = choose|i: int| 0 <= i < after.len() && after[i] == key;
                if i < before.len() {
                    assert(before[i] == key);
                    assert(before.contains(key));
                    let j = choose|j: int| 0 <= j < n - 1 && #[trigger] keys[j] == key;
                    assert(keys[j] == key);
                } else {
                    assert(keys[n - 1] == key);
                }
            }
            if !in_use(store, key) && exists|j: int| 0 <= j < n && #[trigger] keys[j] == key {
                let j = choose|j: int| 0 <= j < n && #[trigger] keys[j] == key;
                if j < n - 1 {
                    assert(before.contains(key));
                    let i = choose|i: int| 0 <= i < before.len() && before[i] == key;
                    assert(after[i] == key);
                } else {
                    assert(after[before.len() as int] == key);
                }
            }
        }
    }
}

proof fn lemma_unused(store: StoreView, keys: Seq<KeyView>)
    requires
        keys.no_duplicates(),
        keys.to_set() == store.contexts.dom(),
    ensures
        unused_among(store, keys, keys.len() as int).to_set() == unused_keys(store),
        unused_among(store, keys, keys.len() as int).len() == unused_keys(store).len(),
{
    let n = keys.len() as int;
    let kept = unused_among(store, keys, n);
    lemma_unused_among(store, keys, n);
    assert forall|key: KeyView| #[trigger] kept.to_set().contains(key) <==> unused_keys(
        store,
    ).contains(key) by {
        if kept.contains(key) {
            let j = choose|j: int| 0 <= j < n && #[trigger] keys[j] == key;
            assert(keys.to_set().contains(key));
        }
        if unused_keys(store).contains(key) {
            assert(keys.to_set().contains(key));
            let j = choose|j: int| 0 <= j < n && #[trigger] keys[j] == key;
            assert(keys[j] == key);
        }
    }
    assert(kept.to_set() =~= unused_keys(store));
    kept.unique_seq_to_set();
}

proof fn lemma_partly(store: StoreView, listed: Seq<KeyView>, n: int)
    requires
        0 <= n <= listed.len(),
        listed.to_set() == unused_keys(store),
    ensures
        partly_pruned(
            store,
            StoreView {
                contexts: store.contexts.remove_keys(listed.take(n).to_set()),
                ..store
            },
        ),
{
    assert forall|key: KeyView|
        store.contexts.contains_key(key) && in_use(store, key) implies !listed.take(
        n,
    ).to_set().contains(key) by {
        if listed.take(n).contains(key) {
            let i = choose|i: int| 0 <= i < n && listed.take(n)[i] == key;
            assert(listed[i] == key);
            assert(listed.to_set().contains(key));
        }
    }
}

/// All owners after a change.
pub open spec fn changed_owners(owners: Map<Seq<char>, OwnerView>, change: OwnerChange) -> Map<
    Seq<char>,
    OwnerView,
> {
    owners.map_values(|owner: OwnerView| changed_owner(owner, change))
}

/// The place of an owner in the order in which owners are let go, 0 where it was never
/// used.
pub open spec fn last_use(last_used: Map<Seq<char>, u64>, uri: Seq<char>) -> u64 {
    if last_used.contains_key(uri) {
        last_used[uri]
    } else {
        0
    }
}

/// The owner that is let go first: the one used longest ago among those of documents that
/// are not open, and of several the first by its URI.
pub open spec fn goes_first(
    store: StoreView,
    open: Map<Seq<char>, DocumentView>,
    victim: Seq<char>,
) -> bool {
    &&& store.owners.contains_key(victim)
    &&& !open.contains_key(victim)
    &&& forall|uri: Seq<char>| #[trigger]
        store.owners.contains_key(uri) && !open.contains_key(uri) && uri != victim ==> {
            ||| last_use(store.owner_last_used, victim) < last_use(store.owner_last_used, uri)
            ||| last_use(store.owner_last_used, victim) == last_use(store.owner_last_used, uri)
                && str_lt(victim, uri)
        }
}

/// The store without one owner.
pub open spec fn without_owner(store: StoreView, uri: Seq<char>) -> StoreView {
    StoreView {
        owners: store.owners.remove(uri),
        owner_last_used: store.owner_last_used.remove(uri),
        ..store
    }
}

/// The store with no more owners than may be kept, as far as they may be let go.
pub open spec fn trimmed_store(store: StoreView, open: Map<Seq<char>, DocumentView>, n: nat) -> StoreView
    decreases n,
{
    if n == 0 || store.owners.dom().len() <= MAX_DOCUMENT_OWNERS || !(exists|victim: Seq<char>|
        goes_first(store, open, victim)) {
        store
    } else {
        let victim = choose|victim: Seq<char>| goes_first(store, open, victim);
        trimmed_store(without_owner(store, victim), open, (n - 1) as nat)
    }
}

/// The store with no more owners than may be kept, as far as they may be let go.
pub open spec fn trimmed_owners(store: StoreView, open: Map<Seq<char>, DocumentView>) -> StoreView {
    trimmed_store(store, open, store.owners.dom().len())
}

proof fn lemma_first_is_unique(
    store: StoreView,
    open: Map<Seq<char>, DocumentView>,
    a: Seq<char>,
    b: Seq<char>,
)
    requires
        goes_first(store, open, a),
        goes_first(store, open, b),
    ensures
        a == b,
{
    if a != b {
        lemma_str_lt_order(a, b, a);
    }
}

/// The proof of an owner that may be kept when the document is read in a context.
pub open spec fn kept_route(store: StoreView, uri: Seq<char>, key: KeyView) -> Option<RouteView> {
    if store.owners.contains_key(uri) && store.owners[uri].key == key
        && store.owners[uri].legacy_route is Some && store.owners[uri].legacy_route->0.context
        == key {
        store.owners[uri].legacy_route
    } else {
        None
    }
}

/// The moment after one on the clock of uses.
pub open spec fn tick(clock: u64) -> u64 {
    if clock == u64::MAX {
        u64::MAX
    } else {
        (clock + 1) as u64
    }
}

/// The store once it is known that the document belongs to a context. A context that is
/// not known changes nothing.
pub open spec fn with_owner(
    store: StoreView,
    open: Map<Seq<char>, DocumentView>,
    uri: Seq<char>,
    key: KeyView,
    origin: OwnerOrigin,
    clock: u64,
) -> StoreView {
    if store.contexts.contains_key(key) {
        trimmed_owners(
            StoreView {
                owners: store.owners.insert(
                    uri,
                    OwnerView {
                        key,
                        state: store.contexts[key],
                        origin,
                        needs_revalidation: false,
                        follow_current_project_file: false,
                        legacy_route: kept_route(store, uri, key),
                    },
                ),
                owner_last_used: store.owner_last_used.insert(uri, tick(clock)),
                ..store
            },
            open,
        )
    } else {
        store
    }
}

/// The clock once it is known that a document belongs to a context.
pub open spec fn owner_clock(store: StoreView, key: KeyView, clock: u64) -> u64 {
    if store.contexts.contains_key(key) {
        tick(clock)
    } else {
        clock
    }
}

/// The origin of an owner that is found for a context.
pub open spec fn origin_for(key: KeyView, project_configured: bool) -> OwnerOrigin {
    if key.selection_scope is Some || project_configured {
        OwnerOrigin::Explicit
    } else {
        OwnerOrigin::Automatic
    }
}

/// The origin of an owner that is found for a context.
pub fn owner_origin_for_context_key(key: &ContextKey, project_configured: bool) -> (r: OwnerOrigin)
    ensures
        r == origin_for(key@, project_configured),
{
    if key.selection_scope.is_some() || project_configured {
        OwnerOrigin::Explicit
    } else {
        OwnerOrigin::Automatic
    }
}

/// The origin that a document's owner has or gets.
pub open spec fn known_origin(
    store: StoreView,
    open: Map<Seq<char>, DocumentView>,
    uri: Seq<char>,
    key: KeyView,
    project_configured: bool,
) -> OwnerOrigin {
    if store.owners.contains_key(uri) {
        store.owners[uri].origin
    } else if open.contains_key(uri) {
        origin_for(key, project_configured)
    } else {
        OwnerOrigin::Inherited
    }
}

/// The store once a document is read in a context.
pub open spec fn bound(
    store: StoreView,
    open: Map<Seq<char>, DocumentView>,
    uri: Seq<char>,
    key: KeyView,
) -> StoreView {
    StoreView {
        document_contexts: store.document_contexts.insert(uri, key),
        open_document_contexts: if open.contains_key(uri) {
            store.open_document_contexts.insert(uri, key)
        } else {
            store.open_document_contexts
        },
        ..store
    }
}

impl ContextStore {
    /// Changes all owners.
    pub fn change_owners(&mut self, change: &OwnerChange)
        ensures
            final(self)@ == (StoreView {
                owners: changed_owners(old(self)@.owners, *change),
                ..old(self)@
            }),
    {
        let ghost store = self@;
        let names = self.owners.key_list();
        let ghost keys = crate::strings::texts(names@);
        let mut i: usize = 0;
        while i < names.len()
            invariant
                i <= names@.len(),
                keys == crate::strings::texts(names@),
                keys.no_duplicates(),
                forall|uri: Seq<char>| #[trigger]
                    keys.contains(uri) <==> store.owners.contains_key(uri),
                self@ == (StoreView { owners: self@.owners, ..store }),
                self@.owners.dom() == store.owners.dom(),
                forall|j: int|
                    0 <= j < i ==> self@.owners[#[trigger] keys[j]] == changed_owner(
                        store.owners[keys[j]],
                        *change,
                    ),
                forall|j: int|
                    i <= j < keys.len() ==> self@.owners[#[trigger] keys[j]]
                        == store.owners[keys[j]],
            decreases names@.len() - i,
        {
            proof {
                assert(keys[i as int] == names@[i as int]@);
                assert(keys.contains(keys[i as int]));
            }
            let ghost held = self.owners@;
            match self.owners.remove(names[i].as_str()) {
                Some(mut owner) => {
                    change_owner(&mut owner, change);
                    proof {
                        lemma_deep_remove(held, keys[i as int]);
                        lemma_deep_insert(held.remove(keys[i as int]), keys[i as int], owner);
                    }
                    let _none = self.owners.insert(names[i].clone(), owner);
                    proof {
                        assert(self@.owners.dom() =~= store.owners.dom());
                        assert forall|j: int| 0 <= j < i implies self@.owners[#[trigger] keys[j]]
                            == changed_owner(store.owners[keys[j]], *change) by {
                            assert(keys[j] != keys[i as int]);
                        }
                        assert forall|j: int| i + 1 <= j < keys.len() implies self@.owners[
                        #[trigger] keys[j]] == store.owners[keys[j]] by {
                            assert(keys[j] != keys[i as int]);
                        }
                    }
                },
                None => {},
            }
            i += 1;
        }
        proof {
            assert forall|uri: Seq<char>| #[trigger]
                store.owners.contains_key(uri) implies self@.owners[uri] == changed_owners(
                store.owners,
                *change,
            )[uri] by {
                assert(keys.contains(uri));
                let j = choose|j: int| 0 <= j < keys.len() && keys[j] == uri;
                assert(self@.owners[keys[j]] == changed_owner(store.owners[keys[j]], *change));
            }
            assert(self@.owners =~= changed_owners(store.owners, *change));
        }
    }

    fn last_use_of(&self, uri: &str) -> (r: u64)
        ensures
            r == last_use(self@.owner_last_used, uri@),
    {
        match self.owner_last_used.get(uri) {
            Some(used) => *used,
            None => 0,
        }
    }

    fn first_to_go(&self, documents: &OpenDocuments) -> (r: Option<String>)
        ensures
            match r {
                Some(victim) => goes_first(self@, documents@, victim@),
                None => forall|uri: Seq<char>| #[trigger]
                    self@.owners.contains_key(uri) ==> documents@.contains_key(uri),
            },
    {
        let n: usize = self.owners.len();
        let ghost keys = self.owners.keys();
        let mut best: Option<usize> = None;
        let mut i: usize = 0;
        while i < n
            invariant
                i <= n,
                n == keys.len(),
                keys == self.owners.keys(),
                keys.no_duplicates(),
                crate::strmap::sorted_keys(keys),
                match best {
                    Some(b) => {
                        &&& b < i
                        &&& !documents@.contains_key(keys[b as int])
                        &&& forall|j: int|
                            0 <= j < i && j != b && !documents@.contains_key(#[trigger] keys[j])
                                ==> {
                                ||| last_use(self@.owner_last_used, keys[b as int]) < last_use(
                                    self@.owner_last_used,
                                    keys[j],
                                )
                                ||| last_use(self@.owner_last_used, keys[b as int]) == last_use(
                                    self@.owner_last_used,
                                    keys[j],
                                ) && b < j
                            }
                    },
                    None => forall|j: int| 0 <= j < i ==> documents@.contains_key(#[trigger] keys[j]),
                },
            decreases n - i,
        {
            let uri = self.owners.key_at(i);
            if !documents.contains(uri.as_str()) {
                let better = match best {
                    Some(b) => {
                        let there = self.last_use_of(self.owners.key_at(b).as_str());
                        let here = self.last_use_of(uri.as_str());
                        here < there
                    },
                    None => true,
                };
                if better {
                    best = Some(i);
                }
            }
            i += 1;
        }
        match best {
            Some(b) => {
                let victim = self.owners.key_at(b).clone();
                proof {
                    assert forall|uri: Seq<char>| #[trigger]
                        self@.owners.contains_key(uri) && !documents@.contains_key(uri) && uri
                            != victim@ implies ({
                        ||| last_use(self@.owner_last_used, victim@) < last_use(
                            self@.owner_last_used,
                            uri,
                        )
                        ||| last_use(self@.owner_last_used, victim@) == last_use(
                            self@.owner_last_used,
                            uri,
                        ) && str_lt(victim@, uri)
                    }) by {
                        assert(self.owners@.contains_key(uri));
                        assert(keys.contains(uri));
                        let j = choose|j: int| 0 <= j < keys.len() && keys[j] == uri;
                        assert(!documents@.contains_key(keys[j]));
                        if b < j {
                            assert(str_lt(keys[b as int], keys[j]));
                        }
                    }
                }
                Some(victim)
            },
            None => {
                proof {
                    assert forall|uri: Seq<char>| #[trigger]
                        self@.owners.contains_key(uri) implies documents@.contains_key(uri) by {
                        assert(self.owners@.contains_key(uri));
                        assert(keys.contains(uri));
                        let j = choose|j: int| 0 <= j < keys.len() && keys[j] == uri;
                        assert(documents@.contains_key(keys[j]));
                    }
                }
                None
            },
        }
    }

    /// Lets owners go until there are no more than may be kept. Owners of open documents
    /// stay.
    pub fn trim_document_owners(&mut self, documents: &OpenDocuments)
        ensures
            final(self)@ == trimmed_owners(old(self)@, documents@),
    {
        let ghost open = documents@;
        let ghost goal = trimmed_owners(self@, open);
        let mut left: usize = self.owners.len();
        proof {
            assert(self@.owners.dom() =~= self.owners@.dom());
        }
        while self.owners.len() > MAX_DOCUMENT_OWNERS
            invariant
                open == documents@,
                goal == trimmed_owners(old(self)@, open),
                goal == trimmed_store(self@, open, left as nat),
                left == self@.owners.dom().len(),
                self@.owners.dom().finite(),
            decreases left,
        {
            proof {
                assert(self@.owners.dom() =~= self.owners@.dom());
            }
            match self.first_to_go(documents) {
                Some(victim) => {
                    let ghost store = self@;
                    let ghost held = self.owners@;
                    proof {
                        let chosen = choose|v: Seq<char>| goes_first(store, open, v);
                        lemma_first_is_unique(store, open, chosen, victim@);
                        lemma_deep_remove(held, victim@);
                        assert(store.owners.remove(victim@).dom() =~= store.owners.dom().remove(
                            victim@,
                        ));
                    }
                    let _gone = self.owners.remove(victim.as_str());
                    let _gone = self.owner_last_used.remove(victim.as_str());
                    left = left - 1;
                    proof {
                        assert(self@ =~= without_owner(store, victim@));
                    }
                },
                None => {
                    proof {
                        assert forall|victim: Seq<char>| !goes_first(self@, open, victim) by {
                            if goes_first(self@, open, victim) {
                                assert(self@.owners.contains_key(victim));
                            }
                        }
                    }
                    return ;
                },
            }
        }
        proof {
            assert(self@.owners.dom() =~= self.owners@.dom());
        }
    }

    /// Keeps in mind that a document belongs to a context.
    pub fn remember_document_owner_with_origin(
        &mut self,
        documents: &OpenDocuments,
        uri: &str,
        key: &ContextKey,
        origin: OwnerOrigin,
        clock: &mut u64,
    )
        ensures
            final(self)@ == with_owner(
                old(self)@,
                documents@,
                uri@,
                key@,
                origin,
                *old(clock),
            ),
            *final(clock) == owner_clock(old(self)@, key@, *old(clock)),
    {
        let ghost store = self@;
        let state = match self.contexts.get(key) {
            Some(state) => state.clone(),
            None => {
                return ;
            },
        };
        let legacy_route = match self.owners.get(uri) {
            Some(owner) => {
                if owner.key.same_as(key) {
                    match &owner.legacy_route {
                        Some(route) => if route.context.same_as(key) {
                            Some(route.copy())
                        } else {
                            None
                        },
                        None => None,
                    }
                } else {
                    None
                }
            },
            None => None,
        };
        *clock = clock.saturating_add(1);
        let _before = self.owner_last_used.insert(uri.to_owned(), *clock);
        let owner = KnownDocumentOwner {
            key: key.duplicate(),
            state,
            origin,
            needs_revalidation: false,
            follow_current_project_file: false,
            legacy_route,
        };
        proof {
            lemma_deep_insert(self.owners@, uri@, owner);
        }
        let _before = self.owners.insert(uri.to_owned(), owner);
        self.trim_document_owners(documents);
    }

    /// Keeps in mind that a document belongs to a context, as it came to it first.
    pub fn remember_document_owner(
        &mut self,
        documents: &OpenDocuments,
        uri: &str,
        key: &ContextKey,
        project_configured: bool,
        clock: &mut u64,
    )
        ensures
            final(self)@ == with_owner(
                old(self)@,
                documents@,
                uri@,
                key@,
                known_origin(old(self)@, documents@, uri@, key@, project_configured),
                *old(clock),
            ),
            *final(clock) == owner_clock(old(self)@, key@, *old(clock)),
    {
        let origin = match self.owners.get(uri) {
            Some(owner) => owner.origin,
            None => if documents.contains(uri) {
                owner_origin_for_context_key(key, project_configured)
            } else {
                OwnerOrigin::Inherited
            },
        };
        self.remember_document_owner_with_origin(documents, uri, key, origin, clock);
    }

    /// Keeps in mind that the document was found beside another, where it still belongs
    /// to the context.
    pub fn remember_legacy_route(&mut self, uri: &str, key: &ContextKey, path: &FilePath)
        ensures
            final(self)@ == (StoreView {
                owners: if old(self)@.owners.contains_key(uri@) && old(self)@.owners[uri@].key
                    == key@ {
                    old(self)@.owners.insert(
                        uri@,
                        OwnerView {
                            legacy_route: Some(RouteView { source: path@, context: key@ }),
                            ..old(self)@.owners[uri@]
                        },
                    )
                } else {
                    old(self)@.owners
                },
                ..old(self)@
            }),
    {
        let ghost store = self@;
        let ghost held = self.owners@;
        match self.owners.remove(uri) {
            Some(mut owner) => {
                if owner.key.same_as(key) {
                    owner.legacy_route = Some(
                        LegacyRouteProof { source: path.copy(), context: key.duplicate() },
                    );
                }
                proof {
                    lemma_deep_remove(held, uri@);
                    lemma_deep_insert(held.remove(uri@), uri@, owner);
                    assert(deep_of(held).remove(uri@).insert(uri@, owner@) =~= deep_of(
                        held,
                    ).insert(uri@, owner@));
                    if owner@ == deep_of(held)[uri@] {
                        assert(deep_of(held).insert(uri@, owner@) =~= deep_of(held));
                    }
                }
                let _none = self.owners.insert(uri.to_owned(), owner);
            },
            None => {
                proof {
                    assert(held.remove(uri@) =~= held);
                }
            },
        }
    }

    /// Whether the document is known to have been found beside another, in this context.
    pub fn legacy_route_is_current(&self, uri: &str, path: &FilePath, key: &ContextKey) -> (r: bool)
        ensures
            r == (self@.owners.contains_key(uri@) && self@.owners[uri@].key == key@ && route_holds(
                self@.owners[uri@],
                path@,
            )),
    {
        match self.owners.get(uri) {
            Some(owner) => owner.key.same_as(key) && owner.has_legacy_route(path),
            None => false,
        }
    }

    /// Reads a document in a context from now on. Where the work is stopped, the document
    /// is read in the context already, and nothing but unused contexts may be missing.
    pub fn select_document_context(
        &mut self,
        documents: &OpenDocuments,
        uri: &str,
        key: &ContextKey,
        origin: OwnerOrigin,
        clock: &mut u64,
        work: &mut Work,
    ) -> (r: Result<(), Interrupt>)
        ensures
            final(work).continues(old(work)),
            old(work).unbounded() ==> r is Ok,
            r matches Err(Interrupt::BudgetExceeded) ==> final(work).used_up(),
            ({
                let owned = with_owner(
                    bound(old(self)@, documents@, uri@, key@),
                    documents@,
                    uri@,
                    key@,
                    origin,
                    *old(clock),
                );
                &&& r is Ok ==> final(self)@ == pruned(owned) && *final(clock) == owner_clock(
                    old(self)@,
                    key@,
                    *old(clock),
                ) && final(work).visited(old(work), 1 + prune_visits(owned) as int)
                &&& r is Err ==> final(self)@ == old(self)@ && *final(clock) == *old(clock)
                    || partly_pruned(owned, final(self)@)
                &&& r matches Err(Interrupt::BudgetExceeded) ==> !old(work).affords(
                    1 + prune_visits(owned) as int,
                    0,
                )
            }),
    {
        work.check()?;
        work.visit(1)?;
        let ghost store = self@;
        if documents.contains(uri) {
            let kept = key.duplicate();
            proof {
                lemma_deep_insert(self.open_document_contexts@, uri@, kept);
            }
            let _before = self.open_document_contexts.insert(uri.to_owned(), kept);
        }
        let kept = key.duplicate();
        proof {
            lemma_deep_insert(self.document_contexts@, uri@, kept);
        }
        let _before = self.document_contexts.insert(uri.to_owned(), kept);
        proof {
            assert(self@ =~= bound(store, documents@, uri@, key@));
        }
        self.remember_document_owner_with_origin(documents, uri, key, origin, clock);
        self.prune_unused_contexts(work)
    }
}

/// The first of a set of documents in the order in which owners are let go.
spec fn first_among(last_used: Map<Seq<char>, u64>, among: Set<Seq<char>>, first: Seq<char>) -> bool {
    &&& among.contains(first)
    &&& forall|uri: Seq<char>| #[trigger]
        among.contains(uri) && uri != first ==> {
            ||| last_use(last_used, first) < last_use(last_used, uri)
            ||| last_use(last_used, first) == last_use(last_used, uri) && str_lt(first, uri)
        }
}

proof fn lemma_some_first(last_used: Map<Seq<char>, u64>, among: Set<Seq<char>>) -> (first: Seq<
    char,
>)
    requires
        among.finite(),
        among.len() > 0,
    ensures
        first_among(last_used, among, first),
    decreases among.len(),
{
    let one = among.choose();
    let rest = among.remove(one);
    if rest.len() == 0 {
        assert(rest =~= Set::<Seq<char>>::empty());
        assert forall|uri: Seq<char>| #[trigger] among.contains(uri) && uri != one implies false by {
            assert(rest.contains(uri));
        }
        one
    } else {
        let other = lemma_some_first(last_used, rest);
        lemma_str_lt_order(one, other, one);
        let one_first = last_use(last_used, one) < last_use(last_used, other) || (last_use(
            last_used,
            one,
        ) == last_use(last_used, other) && str_lt(one, other));
        if one_first {
            assert forall|uri: Seq<char>| #[trigger]
                among.contains(uri) && uri != one implies ({
                ||| last_use(last_used, one) < last_use(last_used, uri)
                ||| last_use(last_used, one) == last_use(last_used, uri) && str_lt(one, uri)
            }) by {
                assert(rest.contains(uri));
                lemma_str_lt_order(one, other, uri);
            }
            one
        } else {
            assert forall|uri: Seq<char>| #[trigger]
                among.contains(uri) && uri != other implies ({
                ||| last_use(last_used, other) < last_use(last_used, uri)
                ||| last_use(last_used, other) == last_use(last_used, uri) && str_lt(other, uri)
            }) by {
                if uri != one {
                    assert(rest.contains(uri));
                }
            }
            other
        }
    }
}

/// However many documents come to owners, no more owners are kept than may be, as long as
/// there are not more open documents than that, and no open document loses its owner.
pub proof fn law_owners_are_bounded(store: StoreView, open: Map<Seq<char>, DocumentView>, n: nat)
    requires
        store.owners.dom().finite(),
        n >= store.owners.dom().len(),
        open.dom().finite(),
        open.dom().len() <= MAX_DOCUMENT_OWNERS,
    ensures
        trimmed_store(store, open, n).owners.dom().len() <= MAX_DOCUMENT_OWNERS,
        forall|uri: Seq<char>| #[trigger]
            store.owners.contains_key(uri) && open.contains_key(uri) ==> trimmed_store(
                store,
                open,
                n,
            ).owners.contains_key(uri) && trimmed_store(store, open, n).owners[uri]
                == store.owners[uri],
    decreases n,
{
    if store.owners.dom().len() > MAX_DOCUMENT_OWNERS {
        let closed = store.owners.dom().difference(open.dom());
        if closed.len() == 0 {
            assert(closed =~= Set::<Seq<char>>::empty());
            assert(store.owners.dom().subset_of(open.dom())) by {
                assert forall|uri: Seq<char>| store.owners.dom().contains(
                    uri,
                ) implies open.dom().contains(uri) by {
                    if !open.dom().contains(uri) {
                        assert(closed.contains(uri));
                    }
                }
            }
            vstd::set_lib::lemma_len_subset(store.owners.dom(), open.dom());
        }
        let first = lemma_some_first(store.owner_last_used, closed);
        assert(goes_first(store, open, first)) by {
            assert(closed.contains(first));
            assert forall|uri: Seq<char>| #[trigger]
                store.owners.contains_key(uri) && !open.contains_key(uri) && uri
                    != first implies closed.contains(uri) by {}
        }
        let victim = choose|victim: Seq<char>| goes_first(store, open, victim);
        let rest = without_owner(store, victim);
        assert(rest.owners.dom() =~= store.owners.dom().remove(victim));
        law_owners_are_bounded(rest, open, (n - 1) as nat);
        assert forall|uri: Seq<char>| #[trigger]
            store.owners.contains_key(uri) && open.contains_key(uri) implies trimmed_store(
            store,
            open,
            n,
        ).owners.contains_key(uri) && trimmed_store(store, open, n).owners[uri]
            == store.owners[uri] by {
            assert(rest.owners.contains_key(uri));
        }
    }
}

} // verus!
