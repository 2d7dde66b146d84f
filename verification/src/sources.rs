//! The sources that are kept: how large they are, when they were last used, what they
//! include and in which contexts they are read.

use std::sync::Arc;
use vstd::prelude::*;

use crate::budget::{sort_work, sort_work_estimate, Work};
use crate::cancel::Interrupt;
use crate::contexts::{partly_pruned, prune_visits, pruned, tick, ContextStore, OwnerChange, StoreView};
use crate::documents::{DocumentView, OpenDocuments};
use crate::includes::{
    exact, lemma_search_visits, partly_removed, reaches, removal_visits, removed_from, search_visits, GraphView,
    IncludeGraph, RecordView,
};
use crate::keymap::{Identity, KeyMap};
use crate::limits::ResourceLimits;
use crate::project::{ContextKey, ContextState, DiskStamp, KeyView};
use crate::sorting::{law_sorting_orders_and_keeps, sort, sorted_list, views, Ordered};
use crate::strings::{
    concat, concat3, decimal, lemma_str_lt_order, same_str, str_before, str_lt, texts, to_decimal,
};
use crate::strmap::{lemma_deep_remove, StrMap, StrSet};
use crate::sums::{lemma_sum_bounds, lemma_sum_insert, lemma_sum_remove, map_sum};
use crate::paths::{equal_ci, paths_equal_ci, FilePath, Parts};
use crate::uris::{canonical, canonical_file_uri, file_path_of, uri_path};
use crate::warnings::{warned_with, WarningLog};

verus! {

/// The sources that are kept.
#[derive(Debug)]
pub struct Sources {
    /// The sizes of the sources that are indexed.
    pub sizes: StrMap<usize>,
    pub bytes: usize,
    pub stamps: StrMap<DiskStamp>,
    pub last_used: StrMap<u64>,
    pub clock: u64,
    pub file_cap_warning_sent: bool,
    pub total_cap_warning_sent: bool,
    pub includes: IncludeGraph,
    pub contexts: ContextStore,
}

/// What the sources stand for.
#[verifier::ext_equal]
pub struct SourcesView {
    pub sizes: Map<Seq<char>, usize>,
    pub stamps: Map<Seq<char>, DiskStamp>,
    pub last_used: Map<Seq<char>, u64>,
    pub clock: u64,
    pub file_cap_warning_sent: bool,
    pub total_cap_warning_sent: bool,
    pub expansions: Map<Seq<char>, RecordView>,
    pub graph: GraphView,
    pub store: StoreView,
}

impl View for Sources {
    type V = SourcesView;

    open spec fn view(&self) -> SourcesView {
        SourcesView {
            sizes: self.sizes@,
            stamps: self.stamps@,
            last_used: self.last_used@,
            clock: self.clock,
            file_cap_warning_sent: self.file_cap_warning_sent,
            total_cap_warning_sent: self.total_cap_warning_sent,
            expansions: self.includes.expansions.deep(),
            graph: self.includes.graph(),
            store: self.contexts@,
        }
    }
}

/// No sources, and nothing known of projects.
pub open spec fn no_sources() -> SourcesView {
    SourcesView {
        sizes: Map::empty(),
        stamps: Map::empty(),
        last_used: Map::empty(),
        clock: 0,
        file_cap_warning_sent: false,
        total_cap_warning_sent: false,
        expansions: Map::empty(),
        graph: GraphView { uses: Map::empty(), parents: Map::empty() },
        store: StoreView {
            contexts: Map::empty(),
            document_contexts: Map::empty(),
            open_document_contexts: Map::empty(),
            owners: Map::empty(),
            owner_last_used: Map::empty(),
        },
    }
}

/// The bytes of all indexed sources.
pub open spec fn total_size(sizes: Map<Seq<char>, usize>) -> int {
    map_sum(sizes, |uri: Seq<char>, size: usize| size as int)
}

/// The sources without one.
pub open spec fn without_source(v: SourcesView, uri: Seq<char>) -> SourcesView {
    SourcesView {
        sizes: v.sizes.remove(uri),
        stamps: v.stamps.remove(uri),
        last_used: v.last_used.remove(uri),
        expansions: v.expansions.remove(uri),
        graph: removed_from(v.graph, uri),
        store: StoreView {
            document_contexts: v.store.document_contexts.remove(uri),
            ..v.store
        },
        ..v
    }
}

/// The sources with their unused contexts forgotten.
pub open spec fn with_pruned_contexts(v: SourcesView) -> SourcesView {
    SourcesView { store: pruned(v.store), ..v }
}

/// The sources without the first `n` of a list.
pub open spec fn without_sources(v: SourcesView, list: Seq<Seq<char>>, n: int) -> SourcesView
    decreases n,
{
    if n <= 0 {
        v
    } else {
        without_source(without_sources(v, list, n - 1), list[n - 1])
    }
}

/// Forgetting a source was begun: what it includes is being forgotten, or it is gone, and
/// nothing but unused contexts is missing beside.
pub open spec fn partly_forgotten(before: SourcesView, after: SourcesView, uri: Seq<char>) -> bool {
    ||| partly_unexpanded(before, after, uri)
    ||| only_pruned(without_source(before, uri), after)
}

/// Nothing was changed but that what a source includes is being forgotten.
pub open spec fn partly_unexpanded(
    before: SourcesView,
    after: SourcesView,
    uri: Seq<char>,
) -> bool {
    &&& after == (SourcesView { expansions: after.expansions, graph: after.graph, ..before })
    &&& partly_removed(before.graph, after.graph, uri)
    &&& after.expansions == (if after.graph == before.graph {
        before.expansions
    } else {
        before.expansions.remove(uri)
    })
}

/// Nothing but unused contexts is missing.
pub open spec fn only_pruned(before: SourcesView, after: SourcesView) -> bool {
    &&& after == (SourcesView { store: after.store, ..before })
    &&& partly_pruned(before.store, after.store)
}

/// Forgetting the sources of a list, one after the other, was stopped somewhere.
pub open spec fn stopped_forgetting(
    before: SourcesView,
    after: SourcesView,
    list: Seq<Seq<char>>,
) -> bool {
    exists|n: int| 0 <= n <= list.len() && #[trigger] stopped_at(before, after, list, n)
}

/// The first `n` sources of a list are gone, and the next is being forgotten or contexts
/// that are unused then are.
pub open spec fn stopped_at(
    before: SourcesView,
    after: SourcesView,
    list: Seq<Seq<char>>,
    n: int,
) -> bool {
    let gone = without_sources(before, list, n);
    ||| n < list.len() && partly_forgotten(gone, after, list[n])
    ||| only_pruned(gone, after)
}

proof fn lemma_without_sources_keeps(v: SourcesView, list: Seq<Seq<char>>, n: int, root: Seq<char>)
    requires
        0 <= n <= list.len(),
        !list.contains(root),
    ensures
        ({
            let rest = without_sources(v, list, n);
            &&& keeps_source(v, rest, root)
            &&& rest.store.contexts == v.store.contexts
            &&& rest.store.open_document_contexts == v.store.open_document_contexts
            &&& rest.store.owners == v.store.owners
            &&& rest.store.owner_last_used == v.store.owner_last_used
        }),
    decreases n,
{
    if n > 0 {
        lemma_without_sources_keeps(v, list, n - 1, root);
        assert(list.contains(list[n - 1]));
    }
}

/// A source stands as it did: its size, its stamp, when it was used, what it includes and
/// the context that it is read in.
pub open spec fn keeps_source(before: SourcesView, after: SourcesView, root: Seq<char>) -> bool {
    &&& same_entry(before.sizes, after.sizes, root)
    &&& same_entry(before.stamps, after.stamps, root)
    &&& same_entry(before.last_used, after.last_used, root)
    &&& same_entry(before.expansions, after.expansions, root)
    &&& same_entry(before.graph.uses, after.graph.uses, root)
    &&& same_entry(before.store.document_contexts, after.store.document_contexts, root)
}

/// Two maps agree on a key.
pub open spec fn same_entry<V>(
    before: Map<Seq<char>, V>,
    after: Map<Seq<char>, V>,
    key: Seq<char>,
) -> bool {
    &&& before.contains_key(key) == after.contains_key(key)
    &&& before.contains_key(key) ==> before[key] == after[key]
}

/// Where forgetting the sources of a list is stopped, every other source stands as it did,
/// no owner is forgotten, and no context is that an open document or another source is
/// read in.
pub proof fn law_stopped_forgetting_keeps_the_rest(
    before: SourcesView,
    after: SourcesView,
    list: Seq<Seq<char>>,
    root: Seq<char>,
)
    requires
        stopped_forgetting(before, after, list),
        !list.contains(root),
    ensures
        keeps_source(before, after, root),
        after.store.open_document_contexts == before.store.open_document_contexts,
        after.store.owners == before.store.owners,
        before.store.document_contexts.contains_key(root) && before.store.contexts.contains_key(
            before.store.document_contexts[root],
        ) ==> same_context(before.store, after.store, before.store.document_contexts[root]),
        forall|uri: Seq<char>| #[trigger]
            before.store.open_document_contexts.contains_key(uri)
                && before.store.contexts.contains_key(before.store.open_document_contexts[uri])
                ==> same_context(
                before.store,
                after.store,
                before.store.open_document_contexts[uri],
            ),
{
    let n = choose|n: int| 0 <= n <= list.len() && #[trigger] stopped_at(before, after, list, n);
    let gone = without_sources(before, list, n);
    lemma_without_sources_keeps(before, list, n, root);
    let base = if n < list.len() && only_pruned(without_source(gone, list[n]), after) {
        without_source(gone, list[n])
    } else {
        gone
    };
    if n < list.len() {
        assert(list.contains(list[n]));
    }
    if n < list.len() && partly_unexpanded(gone, after, list[n]) && after.graph != gone.graph {
        assert(after.graph.uses == gone.graph.uses.remove(list[n]));
    }
    if before.store.document_contexts.contains_key(root) {
        assert(base.store.document_contexts.contains_key(root));
        assert(crate::contexts::in_use(base.store, before.store.document_contexts[root]));
    }
    assert forall|uri: Seq<char>| #[trigger]
        before.store.open_document_contexts.contains_key(uri)
            && before.store.contexts.contains_key(
            before.store.open_document_contexts[uri],
        ) implies same_context(
        before.store,
        after.store,
        before.store.open_document_contexts[uri],
    ) by {
        assert(base.store.open_document_contexts.contains_key(uri));
        assert(crate::contexts::in_use(base.store, before.store.open_document_contexts[uri]));
    }
}

/// A context is known as it was.
pub open spec fn same_context(before: StoreView, after: StoreView, key: KeyView) -> bool {
    after.contexts.contains_key(key) && after.contexts[key] == before.contexts[key]
}

/// The path visits that forgetting a source is charged.
pub open spec fn forget_visits(v: SourcesView, uri: Seq<char>) -> nat {
    1 + removal_visits(v.graph, uri)
}

impl Sources {
    /// The count of bytes is that of the sizes, and the uses are known from both sides.
    pub open spec fn wf(&self) -> bool {
        &&& self.sizes@.dom().finite()
        &&& self.bytes == total_size(self.sizes@)
        &&& self.includes.wf()
    }

    /// No sources.
    pub fn new() -> (r: Self)
        ensures
            r.wf(),
            exact(r@.graph),
            r@ == no_sources(),
    {
        let r = Sources {
            sizes: StrMap::new(),
            bytes: 0,
            stamps: StrMap::new(),
            last_used: StrMap::new(),
            clock: 0,
            file_cap_warning_sent: false,
            total_cap_warning_sent: false,
            includes: IncludeGraph::new(),
            contexts: ContextStore::new(),
        };
        proof {
            assert(r.sizes@.dom() =~= Set::<Seq<char>>::empty());
            assert(r@ =~= no_sources());
        }
        r
    }

    /// Whether the source is indexed.
    pub fn is_indexed(&self, uri: &str) -> (r: bool)
        ensures
            r == self@.sizes.contains_key(uri@),
    {
        self.sizes.contains_key(uri)
    }

    /// The number of indexed sources.
    pub fn parsed_document_count(&self) -> (n: usize)
        ensures
            n == self@.sizes.dom().len(),
    {
        self.sizes.len()
    }

    /// Notes that a source was used.
    pub fn touch(&mut self, uri: &str)
        ensures
            final(self)@ == (SourcesView {
                clock: tick(old(self)@.clock),
                last_used: old(self)@.last_used.insert(uri@, tick(old(self)@.clock)),
                ..old(self)@
            }),
            old(self).wf() ==> final(self).wf(),
    {
        self.clock = self.clock.saturating_add(1);
        let _before = self.last_used.insert(uri.to_owned(), self.clock);
    }

    fn size_of(&self, uri: &str) -> (r: usize)
        requires
            self.wf(),
        ensures
            r == (if self.sizes@.contains_key(uri@) {
                self.sizes@[uri@]
            } else {
                0
            }),
            r <= self.bytes,
    {
        proof {
            let w = |uri: Seq<char>, size: usize| size as int;
            lemma_sum_bounds(self.sizes@, w);
            if self.sizes@.contains_key(uri@) {
                assert(w(uri@, self.sizes@[uri@]) <= map_sum(self.sizes@, w));
            }
        }
        match self.sizes.get(uri) {
            Some(size) => *size,
            None => 0,
        }
    }

    fn drop_size(&mut self, uri: &str)
        requires
            old(self).wf(),
        ensures
            final(self).wf(),
            final(self)@ == (SourcesView { sizes: old(self)@.sizes.remove(uri@), ..old(self)@ }),
    {
        let ghost before = self.sizes@;
        let size: usize = self.size_of(uri);
        proof {
            let w = |uri: Seq<char>, size: usize| size as int;
            lemma_sum_remove(before, w, uri@);
            assert(before.remove(uri@).dom() =~= before.dom().remove(uri@));
        }
        let _gone = self.sizes.remove(uri);
        self.bytes = self.bytes - size;
    }

    /// Notes the size of an indexed source.
    pub fn set_size(&mut self, uri: &str, size: usize)
        requires
            old(self).wf(),
            total_size(old(self)@.sizes.insert(uri@, size)) <= usize::MAX,
        ensures
            final(self).wf(),
            final(self)@ == (SourcesView {
                sizes: old(self)@.sizes.insert(uri@, size),
                ..old(self)@
            }),
    {
        let ghost before = self.sizes@;
        let previous: usize = self.size_of(uri);
        proof {
            let w = |uri: Seq<char>, size: usize| size as int;
            lemma_sum_insert(before, w, uri@, size);
            assert(before.insert(uri@, size).dom() =~= before.dom().insert(uri@));
        }
        let _before = self.sizes.insert(uri.to_owned(), size);
        self.bytes = self.bytes - previous + size;
    }

    /// Forgets a source, and where asked the contexts that are then unused. Without the
    /// latter, work that its account refuses changes nothing.
    pub fn remove_indexed(&mut self, uri: &str, prune: bool, work: &mut Work) -> (r: Result<
        (),
        Interrupt,
    >)
        requires
            old(self).wf(),
        ensures
            final(self).wf(),
            final(work).continues(old(work)),
            old(work).unbounded() ==> r is Ok,
            r matches Err(Interrupt::BudgetExceeded) ==> final(work).used_up(),
            r matches Err(Interrupt::BudgetExceeded) ==> !old(work).affords(
                forget_visits(old(self)@, uri@)
                    + if prune { prune_visits(without_source(old(self)@, uri@).store) as int } else { 0 },
                0,
            ),
            r is Ok ==> final(self)@ == (if prune {
                with_pruned_contexts(without_source(old(self)@, uri@))
            } else {
                without_source(old(self)@, uri@)
            }),
            r is Ok ==> final(work).visited(
                old(work),
                forget_visits(old(self)@, uri@) + if prune {
                    prune_visits(without_source(old(self)@, uri@).store) as int
                } else {
                    0
                },
            ),
            r is Ok && exact(old(self)@.graph) ==> exact(final(self)@.graph),
            !prune && r == Err::<(), Interrupt>(Interrupt::BudgetExceeded) ==> final(self)@ == old(
                self,
            )@,
            prune && r == Err::<(), Interrupt>(Interrupt::BudgetExceeded) ==> final(self)@ == old(
                self,
            )@ || final(self)@ == without_source(old(self)@, uri@),
            r is Err ==> partly_forgotten(old(self)@, final(self)@, uri@),
            final(self)@.sizes == old(self)@.sizes || final(self)@.sizes == old(self)@.sizes.remove(
                uri@,
            ),
            final(self)@.clock == old(self)@.clock,
            final(self)@.file_cap_warning_sent == old(self)@.file_cap_warning_sent,
            final(self)@.total_cap_warning_sent == old(self)@.total_cap_warning_sent,
    {
        work.check()?;
        work.visit(1)?;
        let ghost before = self@;
        let removed = self.includes.remove_expansion(uri, work);
        proof {
            assert(self@ =~= (SourcesView {
                expansions: self@.expansions,
                graph: self@.graph,
                ..before
            }));
        }
        removed?;
        let _gone = self.last_used.remove(uri);
        let ghost held = self.contexts.document_contexts@;
        proof {
            lemma_deep_remove(held, uri@);
        }
        let _gone = self.contexts.document_contexts.remove(uri);
        let _gone = self.stamps.remove(uri);
        self.drop_size(uri);
        proof {
            assert(self@ =~= without_source(before, uri@));
        }
        work.check()?;
        work.settle()?;
        if prune {
            let ghost rest = self@;
            let done = self.contexts.prune_unused_contexts(work);
            proof {
                assert(self@ =~= (SourcesView { store: self@.store, ..rest }));
            }
            done?;
        }
        Ok(())
    }
}

/// A source that may be let go, and when it was last used.
#[derive(Debug)]
pub struct Candidate {
    pub used: u64,
    pub uri: String,
}

/// A source that may be let go, and when it was last used.
pub struct CandidateView {
    pub used: u64,
    pub uri: Seq<char>,
}

impl View for Candidate {
    type V = CandidateView;

    open spec fn view(&self) -> CandidateView {
        CandidateView { used: self.used, uri: self.uri@ }
    }
}

impl Ordered for Candidate {
    /// The one used longest ago first, and of several the first by its URI.
    open spec fn precedes(a: CandidateView, b: CandidateView) -> bool {
        a.used < b.used || (a.used == b.used && str_lt(a.uri, b.uri))
    }

    proof fn lemma_order(a: CandidateView, b: CandidateView, c: CandidateView) {
        lemma_str_lt_order(a.uri, b.uri, c.uri);
        lemma_str_lt_order(b.uri, c.uri, a.uri);
        lemma_str_lt_order(a.uri, c.uri, b.uri);
    }

    fn is_before(&self, other: &Self) -> (r: bool) {
        self.used < other.used || (self.used == other.used && str_before(
            self.uri.as_str(),
            other.uri.as_str(),
        ))
    }
}

/// A source that may be let go to make room for another.
pub open spec fn may_go(
    uri: Seq<char>,
    requested: Seq<char>,
    pinned: Set<Seq<char>>,
    open: Map<Seq<char>, DocumentView>,
) -> bool {
    uri != requested && !pinned.contains(uri) && !open.contains_key(uri)
}

pub open spec fn use_of(last_used: Map<Seq<char>, u64>, uri: Seq<char>) -> u64 {
    if last_used.contains_key(uri) {
        last_used[uri]
    } else {
        0
    }
}

/// Those of the first `n` keys that may be let go.
pub open spec fn candidates_of(
    v: SourcesView,
    requested: Seq<char>,
    pinned: Set<Seq<char>>,
    open: Map<Seq<char>, DocumentView>,
    keys: Seq<Seq<char>>,
    n: int,
) -> Seq<CandidateView>
    decreases n,
{
    if n <= 0 {
        Seq::empty()
    } else {
        let before = candidates_of(v, requested, pinned, open, keys, n - 1);
        if may_go(keys[n - 1], requested, pinned, open) {
            before.push(CandidateView { used: use_of(v.last_used, keys[n - 1]), uri: keys[n - 1] })
        } else {
            before
        }
    }
}

/// The sources that may be let go, in the order in which they go.
pub open spec fn eviction_list(
    v: SourcesView,
    requested: Seq<char>,
    pinned: Set<Seq<char>>,
    open: Map<Seq<char>, DocumentView>,
) -> Seq<Seq<char>> {
    let keys = crate::strmap::in_order(v.sizes.dom());
    sorted_list::<Candidate>(
        candidates_of(v, requested, pinned, open, keys, keys.len() as int),
    ).map_values(|c: CandidateView| c.uri)
}

/// A number cut down to what fits a machine word.
pub open spec fn capped(n: int) -> int {
    if n > usize::MAX {
        usize::MAX as int
    } else {
        n
    }
}

/// There would be more sources than may be kept.
pub open spec fn over_files(v: SourcesView, uri: Seq<char>, limits: ResourceLimits) -> bool {
    v.sizes.dom().len() + if v.sizes.contains_key(uri) {
        0int
    } else {
        1int
    } > limits.max_files
}

/// There would be more bytes than may be kept, were the source of this size and
/// `additional` bytes kept beside.
pub open spec fn over_bytes(
    v: SourcesView,
    uri: Seq<char>,
    size: usize,
    additional: usize,
    limits: ResourceLimits,
) -> bool {
    let previous = if v.sizes.contains_key(uri) {
        v.sizes[uri] as int
    } else {
        0
    };
    capped(capped(total_size(v.sizes) - previous + size) + additional) > limits.max_total_bytes
}

/// There is room for the source.
pub open spec fn has_space(
    v: SourcesView,
    uri: Seq<char>,
    size: usize,
    additional: usize,
    limits: ResourceLimits,
) -> bool {
    !over_files(v, uri, limits) && !over_bytes(v, uri, size, additional, limits)
}

/// How many of the list have to go, counted from `k` on, until there is room: all where
/// there never is.
pub open spec fn victims_needed(
    v: SourcesView,
    list: Seq<Seq<char>>,
    uri: Seq<char>,
    size: usize,
    additional: usize,
    limits: ResourceLimits,
    k: int,
) -> int
    decreases list.len() - k,
{
    if k < 0 || k >= list.len() || has_space(
        without_sources(v, list, k),
        uri,
        size,
        additional,
        limits,
    ) {
        k
    } else {
        victims_needed(v, list, uri, size, additional, limits, k + 1)
    }
}

/// The victims that are needed begin with those that were looked at.
proof fn lemma_victims_needed_from(
    v: SourcesView,
    list: Seq<Seq<char>>,
    uri: Seq<char>,
    size: usize,
    additional: usize,
    limits: ResourceLimits,
    k: int,
)
    requires
        0 <= k <= list.len(),
    ensures
        k <= victims_needed(v, list, uri, size, additional, limits, k) <= list.len(),
    decreases list.len() - k,
{
    if k < list.len() {
        lemma_victims_needed_from(v, list, uri, size, additional, limits, k + 1);
    }
}

/// The sources once room was made for one, as far as that goes.
pub open spec fn with_space(
    v: SourcesView,
    pinned: Set<Seq<char>>,
    open: Map<Seq<char>, DocumentView>,
    uri: Seq<char>,
    size: usize,
    additional: usize,
    limits: ResourceLimits,
) -> SourcesView {
    let list = eviction_list(v, uri, pinned, open);
    without_sources(v, list, victims_needed(v, list, uri, size, additional, limits, 0))
}

/// The visits that finding the sources that may be let go is charged: one for each source,
/// and those of sorting what was found.
pub open spec fn eviction_visits(
    v: SourcesView,
    requested: Seq<char>,
    pinned: Set<Seq<char>>,
    open: Map<Seq<char>, DocumentView>,
) -> nat {
    v.sizes.dom().len() + sort_work(eviction_list(v, requested, pinned, open).len())
}

/// The visits that making room for a source is charged. Where all that may go is not enough,
/// what is left is looked through once more.
pub open spec fn room_visits(
    v: SourcesView,
    pinned: Set<Seq<char>>,
    open: Map<Seq<char>, DocumentView>,
    uri: Seq<char>,
    size: usize,
    additional: usize,
    limits: ResourceLimits,
) -> int {
    let list = eviction_list(v, uri, pinned, open);
    let gone = victims_needed(v, list, uri, size, additional, limits, 0);
    let after = without_sources(v, list, gone);
    let once = eviction_visits(v, uri, pinned, open) + gone + forget_all_visits(v, list, gone)
        + prune_visits(after.store);
    if has_space(v, uri, size, additional, limits) {
        prune_visits(v.store) as int
    } else if has_space(after, uri, size, additional, limits) || list.len() == 0 {
        once
    } else {
        once + eviction_visits(with_pruned_contexts(after), uri, pinned, open) + prune_visits(
            pruned(after.store),
        )
    }
}

pub open spec fn file_limit_text(limit: usize, uri: Seq<char>) -> Seq<char> {
    "file limit ("@ + decimal(limit as nat) + ") reached while resolving "@ + uri
}

pub open spec fn total_limit_text(limit: usize, uri: Seq<char>) -> Seq<char> {
    "total source limit ("@ + decimal(limit as nat) + ") reached while resolving "@ + uri
}

proof fn lemma_candidates(
    v: SourcesView,
    requested: Seq<char>,
    pinned: Set<Seq<char>>,
    open: Map<Seq<char>, DocumentView>,
    keys: Seq<Seq<char>>,
    n: int,
)
    requires
        0 <= n <= keys.len(),
    ensures
        forall|i: int|
            0 <= i < candidates_of(v, requested, pinned, open, keys, n).len() ==> may_go(
                (#[trigger] candidates_of(v, requested, pinned, open, keys, n)[i]).uri,
                requested,
                pinned,
                open,
            ),
    decreases n,
{
    if n > 0 {
        lemma_candidates(v, requested, pinned, open, keys, n - 1);
        let before = candidates_of(v, requested, pinned, open, keys, n - 1);
        let after = candidates_of(v, requested, pinned, open, keys, n);
        assert forall|i: int| 0 <= i < after.len() implies may_go(
            (#[trigger] after[i]).uri,
            requested,
            pinned,
            open,
        ) by {
            if i < before.len() {
                assert(after[i] == before[i]);
            }
        }
    }
}

proof fn lemma_list_may_go(
    v: SourcesView,
    requested: Seq<char>,
    pinned: Set<Seq<char>>,
    open: Map<Seq<char>, DocumentView>,
)
    ensures
        forall|i: int|
            0 <= i < eviction_list(v, requested, pinned, open).len() ==> may_go(
                #[trigger] eviction_list(v, requested, pinned, open)[i],
                requested,
                pinned,
                open,
            ),
{
    let keys = crate::strmap::in_order(v.sizes.dom());
    let n = keys.len() as int;
    let all = candidates_of(v, requested, pinned, open, keys, n);
    lemma_candidates(v, requested, pinned, open, keys, n);
    crate::sorting::law_sorting_orders_and_keeps::<Candidate>(all);
    let sorted = sorted_list::<Candidate>(all);
    assert forall|i: int| 0 <= i < eviction_list(v, requested, pinned, open).len() implies may_go(
        #[trigger] eviction_list(v, requested, pinned, open)[i],
        requested,
        pinned,
        open,
    ) by {
        assert(sorted.contains(sorted[i]));
        assert(all.contains(sorted[i]));
        let j = choose|j: int| 0 <= j < all.len() && all[j] == sorted[i];
        assert(may_go(all[j].uri, requested, pinned, open));
    }
}

/// What may not be let go is kept, with its size.
pub open spec fn keeps(
    before: Map<Seq<char>, usize>,
    after: Map<Seq<char>, usize>,
    requested: Seq<char>,
    pinned: Set<Seq<char>>,
    open: Map<Seq<char>, DocumentView>,
) -> bool {
    &&& after.submap_of(before)
    &&& forall|uri: Seq<char>| #[trigger]
        before.contains_key(uri) && !may_go(uri, requested, pinned, open) ==> after.contains_key(
            uri,
        )
}

proof fn lemma_without_sources_flags(v: SourcesView, list: Seq<Seq<char>>, n: int)
    ensures
        without_sources(v, list, n).file_cap_warning_sent == v.file_cap_warning_sent,
        without_sources(v, list, n).total_cap_warning_sent == v.total_cap_warning_sent,
        without_sources(v, list, n).clock == v.clock,
    decreases n,
{
    if n > 0 {
        lemma_without_sources_flags(v, list, n - 1);
    }
}

proof fn lemma_keeps_without(
    before: Map<Seq<char>, usize>,
    after: Map<Seq<char>, usize>,
    gone: Seq<char>,
    requested: Seq<char>,
    pinned: Set<Seq<char>>,
    open: Map<Seq<char>, DocumentView>,
)
    requires
        keeps(before, after, requested, pinned, open),
        may_go(gone, requested, pinned, open),
    ensures
        keeps(before, after.remove(gone), requested, pinned, open),
{
}

impl Sources {
    fn eviction_order(
        &self,
        requested: &str,
        pinned: &StrSet,
        documents: &OpenDocuments,
        work: &mut Work,
    ) -> (r: Result<Vec<String>, Interrupt>)
        ensures
            final(work).continues(old(work)),
            old(work).unbounded() ==> r is Ok,
            r matches Err(Interrupt::BudgetExceeded) ==> final(work).used_up(),
            r matches Err(Interrupt::BudgetExceeded) ==> !old(work).affords(
                eviction_visits(self@, requested@, pinned@, documents@) as int,
                0,
            ),
            r is Ok ==> texts(r->Ok_0@) == eviction_list(
                self@,
                requested@,
                pinned@,
                documents@,
            ),
            r is Ok ==> old(work).has_room(self@.sizes.dom().len() as int) || self@.sizes.dom().len()
                == 0,
            r is Ok ==> final(work).visited(
                old(work),
                eviction_visits(self@, requested@, pinned@, documents@) as int,
            ),
    {
        let n: usize = self.sizes.len();
        let ghost keys = self.sizes.keys();
        let ghost start = *work;
        let mut found: Vec<Candidate> = Vec::new();
        let mut i: usize = 0;
        proof {
            assert(views(found@) =~= Seq::<CandidateView>::empty());
        }
        while i < n
            invariant
                i <= n,
                n == keys.len(),
                n == self@.sizes.dom().len(),
                keys == self.sizes.keys(),
                work.visited(&start, i as int),
                start == *old(work),
                views(found@) == candidates_of(
                    self@,
                    requested@,
                    pinned@,
                    documents@,
                    keys,
                    i as int,
                ),
            decreases n - i,
        {
            work.check()?;
            work.visit(1)?;
            let uri = self.sizes.key_at(i);
            if !same_str(uri.as_str(), requested) && !pinned.contains(uri.as_str())
                && !documents.contains(uri.as_str()) {
                let used: u64 = match self.last_used.get(uri.as_str()) {
                    Some(used) => *used,
                    None => 0,
                };
                let ghost before = found@;
                found.push(Candidate { used, uri: uri.clone() });
                proof {
                    assert(views(found@) =~= views(before).push(
                        CandidateView { used, uri: keys[i as int] },
                    ));
                }
            }
            i += 1;
        }
        proof {
            law_sorting_orders_and_keeps::<Candidate>(views(found@));
            assert(eviction_list(self@, requested@, pinned@, documents@).len() == found@.len());
        }
        work.visit(sort_work_estimate(found.len()))?;
        work.check()?;
        let sorted = sort(found);
        work.check()?;
        let mut order: Vec<String> = Vec::new();
        let mut j: usize = 0;
        let ghost listed = views(sorted@);
        let ghost charged = n + sort_work(listed.len());
        proof {
            assert(texts(order@) =~= listed.map_values(|c: CandidateView| c.uri).take(0));
        }
        while j < sorted.len()
            invariant
                work.visited(&*old(work), charged as int),
                j <= sorted@.len(),
                listed == views(sorted@),
                texts(order@) == listed.map_values(|c: CandidateView| c.uri).take(j as int),
            decreases sorted@.len() - j,
        {
            let ghost before = order@;
            order.push(sorted[j].uri.clone());
            proof {
                let names = listed.map_values(|c: CandidateView| c.uri);
                assert(listed[j as int] == sorted@[j as int]@);
                assert(texts(order@) =~= texts(before).push(names[j as int]));
                assert(names.take(j + 1) =~= names.take(j as int).push(names[j as int]));
            }
            j += 1;
        }
        proof {
            let names = listed.map_values(|c: CandidateView| c.uri);
            assert(names.take(names.len() as int) =~= names);
        }
        Ok(order)
    }

    fn exceeds_files(&self, uri: &str, limits: &ResourceLimits) -> (r: bool)
        ensures
            r == over_files(self@, uri@, *limits),
    {
        let files: usize = self.sizes.len();
        if self.sizes.contains_key(uri) {
            files > limits.max_files
        } else {
            files >= limits.max_files
        }
    }

    fn exceeds_bytes(&self, uri: &str, size: usize, additional: usize, limits: &ResourceLimits) -> (r:
        bool)
        requires
            self.wf(),
        ensures
            r == over_bytes(self@, uri@, size, additional, *limits),
    {
        let previous: usize = self.size_of(uri);
        let indexed: usize = (self.bytes - previous).saturating_add(size);
        indexed.saturating_add(additional) > limits.max_total_bytes
    }

    /// Makes room for a source of a size, and for `additional` bytes beside, by letting
    /// go the sources that were used longest ago. Pinned sources, open documents and the
    /// source itself stay, also where the work is stopped. True where there is room then.
    #[verifier::rlimit(50)]
    pub fn make_room_for(
        &mut self,
        uri: &str,
        size: usize,
        pinned: &StrSet,
        additional: usize,
        documents: &OpenDocuments,
        limits: &ResourceLimits,
        warnings: &mut WarningLog,
        work: &mut Work,
    ) -> (r: Result<bool, Interrupt>)
        requires
            old(self).wf(),
        ensures
            final(self).wf(),
            final(work).continues(old(work)),
            old(work).unbounded() ==> r is Ok,
            r matches Err(Interrupt::BudgetExceeded) ==> final(work).used_up(),
            r matches Err(Interrupt::BudgetExceeded) ==> !old(work).affords(
                room_visits(old(self)@, pinned@, documents@, uri@, size, additional, *limits),
                0,
            ),
            r is Ok && exact(old(self)@.graph) ==> exact(final(self)@.graph),
            keeps(old(self)@.sizes, final(self)@.sizes, uri@, pinned@, documents@),
            old(warnings).wf() ==> final(warnings).wf(),
            r is Err ==> final(warnings)@ == old(warnings)@,
            r is Err ==> stopped_forgetting(
                old(self)@,
                final(self)@,
                eviction_list(old(self)@, uri@, pinned@, documents@),
            ),
            has_space(old(self)@, uri@, size, additional, *limits) && r is Err ==> only_pruned(
                old(self)@,
                final(self)@,
            ),
            r is Ok ==> final(work).visited(
                old(work),
                room_visits(
                    old(self)@,
                    pinned@,
                    documents@,
                    uri@,
                    size,
                    additional,
                    *limits,
                ),
            ),
            !has_space(old(self)@, uri@, size, additional, *limits) && old(
                self,
            )@.sizes.dom().len() > 0 && !old(work).has_room(old(self)@.sizes.dom().len() as int)
                ==> r is Err && final(self)@ == old(self)@,
            ({
                let before = old(self)@;
                let after = with_space(
                    before,
                    pinned@,
                    documents@,
                    uri@,
                    size,
                    additional,
                    *limits,
                );
                &&& r is Ok ==> r->Ok_0 == has_space(after, uri@, size, additional, *limits)
                &&& r is Ok && r->Ok_0 ==> final(self)@ == with_pruned_contexts(after)
                    && final(warnings)@ == old(warnings)@
                &&& r is Ok && !r->Ok_0 ==> {
                    let files = over_files(after, uri@, *limits);
                    let bytes = over_bytes(after, uri@, size, additional, *limits);
                    let told = if files && !before.file_cap_warning_sent {
                        warned_with(
                            old(warnings)@,
                            file_limit_text(limits.max_files, uri@),
                        )
                    } else {
                        old(warnings)@
                    };
                    &&& final(self)@ == (SourcesView {
                        file_cap_warning_sent: before.file_cap_warning_sent || files,
                        total_cap_warning_sent: before.total_cap_warning_sent || bytes,
                        ..with_pruned_contexts(after)
                    })
                    &&& final(warnings)@ == (if bytes && !before.total_cap_warning_sent {
                        warned_with(told, total_limit_text(limits.max_total_bytes, uri@))
                    } else {
                        told
                    })
                }
            }),
    {
        let ghost before = self@;
        let ghost list = eviction_list(before, uri@, pinned@, documents@);
        proof {
            assert(stopped_at(before, before, list, 0));
        }
        work.check()?;
        if !self.exceeds_files(uri, limits) && !self.exceeds_bytes(uri, size, additional, limits) {
            let done = self.contexts.prune_unused_contexts(work);
            proof {
                assert(self@ =~= (SourcesView { store: self@.store, ..before }));
                assert(stopped_at(before, self@, list, 0));
            }
            done?;
            return Ok(true);
        }
        let ghost charge = room_visits(before, pinned@, documents@, uri@, size, additional, *limits);
        let ghost needed = victims_needed(before, list, uri@, size, additional, *limits, 0);
        let ghost searched = eviction_visits(before, uri@, pinned@, documents@);
        proof {
            lemma_victims_needed_from(before, list, uri@, size, additional, *limits, 0);
            assert(charge >= searched + needed + forget_all_visits(before, list, needed));
        }
        let victims = self.eviction_order(uri, pinned, documents, work)?;
        let mut i: usize = 0;
        proof {
            lemma_list_may_go(before, uri@, pinned@, documents@);
        }
        while i < victims.len()
            invariant
                i <= victims@.len(),
                self.wf(),
                work.continues(old(work)),
                old(work).unbounded() ==> work.unbounded(),
                searched == eviction_visits(before, uri@, pinned@, documents@),
                !has_space(before, uri@, size, additional, *limits),
                charge == room_visits(
                    before,
                    pinned@,
                    documents@,
                    uri@,
                    size,
                    additional,
                    *limits,
                ),
                work.visited(
                    &*old(work),
                    searched + i + forget_all_visits(before, list, i as int),
                ),
                charge >= searched + needed + forget_all_visits(before, list, needed),
                before == old(self)@,
                list == eviction_list(before, uri@, pinned@, documents@),
                list == texts(victims@),
                needed == victims_needed(before, list, uri@, size, additional, *limits, 0),
                needed == victims_needed(
                    before,
                    list,
                    uri@,
                    size,
                    additional,
                    *limits,
                    i as int,
                ),
                self@ == without_sources(before, list, i as int),
                !has_space(self@, uri@, size, additional, *limits),
                exact(before.graph) ==> exact(self@.graph),
                keeps(before.sizes, self@.sizes, uri@, pinned@, documents@),
                before.sizes.dom().len() > 0 ==> old(work).has_room(
                    before.sizes.dom().len() as int,
                ),
                forall|j: int|
                    0 <= j < list.len() ==> may_go(#[trigger] list[j], uri@, pinned@, documents@),
                warnings@ == old(warnings)@,
                old(warnings).wf() ==> warnings.wf(),
            decreases victims@.len() - i,
        {
            proof {
                assert(stopped_at(before, self@, list, i as int));
            }
            work.check()?;
            proof {
                assert(needed == victims_needed(
                    before,
                    list,
                    uri@,
                    size,
                    additional,
                    *limits,
                    i + 1,
                ));
                lemma_victims_needed_from(before, list, uri@, size, additional, *limits, i + 1);
                lemma_forget_all_visits_grow(before, list, i + 1, needed);
            }
            work.visit(1)?;
            proof {
                assert(list[i as int] == victims@[i as int]@);
                assert(may_go(list[i as int], uri@, pinned@, documents@));
            }
            proof {
                lemma_keeps_without(
                    before.sizes,
                    self@.sizes,
                    list[i as int],
                    uri@,
                    pinned@,
                    documents@,
                );
                assert(needed == victims_needed(
                    before,
                    list,
                    uri@,
                    size,
                    additional,
                    *limits,
                    i + 1,
                ));
            }
            let forgotten = self.remove_indexed(victims[i].as_str(), false, work);
            proof {
                if forgotten is Err {
                    assert(stopped_at(before, self@, list, i as int));
                }
            }
            forgotten?;
            i += 1;
            proof {
                assert(self@ == without_sources(before, list, i as int));
                if has_space(self@, uri@, size, additional, *limits) {
                    assert(needed == i);
                }
            }
            if !self.exceeds_files(uri, limits) && !self.exceeds_bytes(
                uri,
                size,
                additional,
                limits,
            ) {
                let ghost rest = self@;
                let done = self.contexts.prune_unused_contexts(work);
                proof {
                    assert(self@ =~= (SourcesView { store: self@.store, ..rest }));
                    assert(stopped_at(before, self@, list, i as int));
                }
                done?;
                return Ok(true);
            }
        }
        let ghost rest = self@;
        let done = self.contexts.prune_unused_contexts(work);
        proof {
            assert(self@ =~= (SourcesView { store: self@.store, ..rest }));
            assert(stopped_at(before, self@, list, list.len() as int));
        }
        done?;
        if victims.len() > 0 {
            // What is left is looked through once more: none of it may go.
            let _rest = self.eviction_order(uri, pinned, documents, work)?;
            proof {
                lemma_prune_again(without_sources(before, list, list.len() as int).store);
            }
            let ghost once = self@;
            let again = self.contexts.prune_unused_contexts(work);
            proof {
                assert(self@ =~= (SourcesView { store: self@.store, ..once }));
                lemma_pruned_further(rest.store, once.store, self@.store);
                assert(stopped_at(before, self@, list, list.len() as int));
            }
            again?;
        }
        let ghost after = without_sources(before, list, list.len() as int);
        proof {
            assert(needed == list.len());
            assert(self@ =~= with_pruned_contexts(after));
            lemma_without_sources_flags(before, list, list.len() as int);
        }
        if self.exceeds_files(uri, limits) && !self.file_cap_warning_sent {
            self.file_cap_warning_sent = true;
            let head = concat3("file limit (", to_decimal(limits.max_files).as_str(), ") reached while resolving ");
            warnings.warn(concat(head.as_str(), uri));
        }
        if self.exceeds_bytes(uri, size, additional, limits) && !self.total_cap_warning_sent {
            self.total_cap_warning_sent = true;
            let head = concat3("total source limit (", to_decimal(limits.max_total_bytes).as_str(), ") reached while resolving ");
            warnings.warn(concat(head.as_str(), uri));
        }
        proof {
            assert(self@ =~= (SourcesView {
                file_cap_warning_sent: self.file_cap_warning_sent,
                total_cap_warning_sent: self.total_cap_warning_sent,
                ..with_pruned_contexts(after)
            }));
        }
        Ok(false)
    }
}

proof fn lemma_pruned_further(before: StoreView, once: StoreView, twice: StoreView)
    requires
        partly_pruned(before, once),
        partly_pruned(once, twice),
    ensures
        partly_pruned(before, twice),
{
    assert(twice =~= (StoreView { contexts: twice.contexts, ..before }));
    assert forall|key: KeyView| #[trigger] twice.contexts.contains_key(
        key,
    ) implies before.contexts.contains_key(key) && before.contexts[key]
        == twice.contexts[key] by {
        assert(once.contexts.contains_key(key));
    }
    assert(twice.contexts.submap_of(before.contexts));
    assert forall|key: KeyView| #[trigger]
        before.contexts.contains_key(key) && crate::contexts::in_use(
            before,
            key,
        ) implies twice.contexts.contains_key(key) by {
        assert(once.contexts.contains_key(key));
        if exists|uri: Seq<char>| #[trigger]
            before.document_contexts.contains_key(uri) && before.document_contexts[uri] == key {
            let uri = choose|uri: Seq<char>| #[trigger]
                before.document_contexts.contains_key(uri) && before.document_contexts[uri]
                    == key;
            assert(once.document_contexts.contains_key(uri));
        } else {
            let uri = choose|uri: Seq<char>| #[trigger]
                before.open_document_contexts.contains_key(uri)
                    && before.open_document_contexts[uri] == key;
            assert(once.open_document_contexts.contains_key(uri));
        }
        assert(crate::contexts::in_use(once, key));
    }
}

proof fn lemma_prune_again(store: StoreView)
    ensures
        pruned(pruned(store)) == pruned(store),
{
    let once = pruned(store);
    assert forall|key: KeyView| #[trigger] once.contexts.contains_key(key) implies crate::contexts::in_use(
        once,
        key,
    ) by {
        assert(store.contexts.contains_key(key));
        assert(!crate::contexts::unused_keys(store).contains(key));
        assert(crate::contexts::in_use(store, key));
        if exists|uri: Seq<char>| #[trigger]
            store.document_contexts.contains_key(uri) && store.document_contexts[uri] == key {
            let uri = choose|uri: Seq<char>| #[trigger]
                store.document_contexts.contains_key(uri) && store.document_contexts[uri] == key;
            assert(once.document_contexts.contains_key(uri));
        } else {
            let uri = choose|uri: Seq<char>| #[trigger]
                store.open_document_contexts.contains_key(uri)
                    && store.open_document_contexts[uri] == key;
            assert(once.open_document_contexts.contains_key(uri));
        }
    }
    assert(crate::contexts::unused_keys(once) =~= Set::<KeyView>::empty());
    assert(pruned(once) =~= once);
}

/// The expanded source includes the file of a URI, itself or over others, or is it.
pub open spec fn concerns(v: SourcesView, uri: Seq<char>, root: Seq<char>) -> bool {
    reaches(v.graph.parents, canonical(uri), root) && v.graph.uses.contains_key(root)
}

/// Those of the first `n` of a list that are open.
pub open spec fn open_among(
    list: Seq<Seq<char>>,
    open: Map<Seq<char>, DocumentView>,
    n: int,
) -> Seq<Seq<char>>
    decreases n,
{
    if n <= 0 {
        Seq::empty()
    } else if open.contains_key(list[n - 1]) {
        open_among(list, open, n - 1).push(list[n - 1])
    } else {
        open_among(list, open, n - 1)
    }
}

/// The document is open with a text.
pub open spec fn open_with_text(open: Map<Seq<char>, DocumentView>, uri: Seq<char>) -> bool {
    open.contains_key(uri) && open[uri].text is Some
}

/// Those of the first `n` of a list that are open with a text.
pub open spec fn texts_among(
    list: Seq<Seq<char>>,
    open: Map<Seq<char>, DocumentView>,
    n: int,
) -> Seq<Seq<char>>
    decreases n,
{
    if n <= 0 {
        Seq::empty()
    } else if open_with_text(open, list[n - 1]) {
        texts_among(list, open, n - 1).push(list[n - 1])
    } else {
        texts_among(list, open, n - 1)
    }
}

fn is_open_with_text(documents: &OpenDocuments, uri: &str) -> (r: bool)
    ensures
        r == open_with_text(documents@, uri@),
{
    match documents.get(uri) {
        Some(document) => document.text.is_some(),
        None => false,
    }
}

/// The path visits that forgetting the first `n` of a list is charged.
pub open spec fn forget_all_visits(v: SourcesView, list: Seq<Seq<char>>, n: int) -> nat
    decreases n,
{
    if n <= 0 {
        0
    } else {
        forget_all_visits(v, list, n - 1) + forget_visits(
            without_sources(v, list, n - 1),
            list[n - 1],
        )
    }
}

/// More forgotten sources take no fewer visits.
proof fn lemma_forget_all_visits_grow(v: SourcesView, list: Seq<Seq<char>>, m: int, n: int)
    requires
        m <= n,
    ensures
        forget_all_visits(v, list, m) <= forget_all_visits(v, list, n),
    decreases n - m,
{
    if m < n {
        lemma_forget_all_visits_grow(v, list, m, n - 1);
    }
}

proof fn lemma_without_sources_sizes(v: SourcesView, list: Seq<Seq<char>>, n: int)
    requires
        0 <= n <= list.len(),
    ensures
        without_sources(v, list, n).sizes.submap_of(v.sizes),
        forall|uri: Seq<char>| #[trigger]
            v.sizes.contains_key(uri) && !list.contains(uri) ==> without_sources(
                v,
                list,
                n,
            ).sizes.contains_key(uri),
    decreases n,
{
    if n > 0 {
        lemma_without_sources_sizes(v, list, n - 1);
        assert(list.contains(list[n - 1]));
    }
}

fn set_of(list: &Vec<String>) -> (r: StrSet)
    ensures
        r@ == texts(list@).to_set(),
{
    let ghost all = texts(list@);
    let mut members = StrSet::new();
    let mut i: usize = 0;
    proof {
        assert(members@ =~= all.take(0).to_set());
    }
    while i < list.len()
        invariant
            i <= list@.len(),
            all == texts(list@),
            members@ == all.take(i as int).to_set(),
        decreases list@.len() - i,
    {
        let _new = members.insert(list[i].clone());
        proof {
            assert(all[i as int] == list@[i as int]@);
            crate::strmap::lemma_take_set(all, i as int);
        }
        i += 1;
    }
    proof {
        assert(all.take(all.len() as int) =~= all);
    }
    members
}

/// The expanded sources that include the file of a URI, themselves or over others.
pub open spec fn concerned_roots(v: SourcesView, uri: Seq<char>) -> Set<Seq<char>> {
    v.expansions.dom().filter(|root: Seq<char>| concerns(v, uri, root))
}

/// The sources once a file changed: what includes it is forgotten.
pub open spec fn without_dependents(v: SourcesView, uri: Seq<char>) -> SourcesView {
    let list = crate::strmap::in_order(concerned_roots(v, uri));
    with_pruned_contexts(without_sources(v, list, list.len() as int))
}

/// The visits that forgetting what includes a file is charged.
pub open spec fn dependents_visits(v: SourcesView, uri: Seq<char>) -> int {
    let list = crate::strmap::in_order(concerned_roots(v, uri));
    search_visits(v.graph.parents, canonical(uri)) + list.len() + forget_all_visits(
        v,
        list,
        list.len() as int,
    ) + prune_visits(without_sources(v, list, list.len() as int).store)
}

/// The open documents that include a file.
pub open spec fn open_dependents(
    v: SourcesView,
    uri: Seq<char>,
    open: Map<Seq<char>, DocumentView>,
) -> Seq<Seq<char>> {
    let list = crate::strmap::in_order(concerned_roots(v, uri));
    open_among(list, open, list.len() as int)
}

impl Sources {
    /// Forgets the expanded sources that include the file of a URI, themselves or over
    /// others, and returns those that are open. They are looked for before anything is
    /// changed. Where the work is stopped, no other source is missing.
    pub fn invalidate_expansion_dependents(
        &mut self,
        uri: &str,
        documents: &OpenDocuments,
        work: &mut Work,
    ) -> (r: Result<Vec<String>, Interrupt>)
        requires
            old(self).wf(),
        ensures
            final(self).wf(),
            final(work).continues(old(work)),
            old(work).unbounded() ==> r is Ok,
            r matches Err(Interrupt::BudgetExceeded) ==> final(work).used_up(),
            r matches Err(Interrupt::BudgetExceeded) ==> !old(work).affords(
                dependents_visits(old(self)@, uri@),
                0,
            ),
            r is Ok && exact(old(self)@.graph) ==> exact(final(self)@.graph),
            r is Ok ==> final(self)@ == without_dependents(old(self)@, uri@),
            r is Ok ==> texts(r->Ok_0@) == open_dependents(old(self)@, uri@, documents@),
            r is Ok ==> final(work).visited(old(work), dependents_visits(old(self)@, uri@)),
            forall|root: Seq<char>| #[trigger]
                old(self)@.sizes.contains_key(root) && !concerns(old(self)@, uri@, root)
                    ==> final(self)@.sizes.contains_key(root),
            !old(work).has_room(search_visits(old(self)@.graph.parents, canonical(uri@)))
                ==> r is Err && final(self)@ == old(self)@,
            r is Err && old(work).budget is Some && final(work).visits() < old(work).visits()
                + search_visits(old(self)@.graph.parents, canonical(uri@)) ==> final(self)@
                == old(self)@,
            r is Err ==> stopped_forgetting(
                old(self)@,
                final(self)@,
                crate::strmap::in_order(concerned_roots(old(self)@, uri@)),
            ),
    {
        let ghost before = self@;
        let ghost named = uri@;
        proof {
            lemma_search_visits(before.graph.parents, canonical(named));
            assert(stopped_at(
                before,
                before,
                crate::strmap::in_order(concerned_roots(before, named)),
                0,
            ));
        }
        let start = canonical_file_uri(uri);
        let reached = self.includes.affected_roots(start.as_str(), work)?;
        let ghost searched = search_visits(before.graph.parents, canonical(named));
        let affected_set = set_of(&reached);
        let affected = affected_set.list();
        let ghost list = texts(affected@);
        proof {
            let found = texts(reached@);
            assert(affected_set@ =~= concerned_roots(before, named)) by {
                assert forall|root: Seq<char>| #[trigger]
                    affected_set@.contains(root) == concerned_roots(before, named).contains(
                        root,
                    ) by {
                    assert(found.contains(root) <==> concerns(before, named, root));
                }
            }
            assert forall|root: Seq<char>| #[trigger] list.contains(root) <==> concerns(
                before,
                named,
                root,
            ) by {
                assert(found.contains(root) <==> concerns(before, named, root));
                assert(affected_set@.contains(root) <==> found.contains(root));
            }
        }
        proof {
            assert(list == crate::strmap::in_order(concerned_roots(before, named)));
        }
        let mut open: Vec<String> = Vec::new();
        let mut i: usize = 0;
        proof {
            assert(texts(open@) =~= Seq::<Seq<char>>::empty());
        }
        while i < affected.len()
            invariant
                i <= affected@.len(),
                list == texts(affected@),
                self.wf(),
                work.continues(old(work)),
                old(work).unbounded() ==> work.unbounded(),
                searched >= 1,
                work.visited(
                    &*old(work),
                    searched + i + forget_all_visits(before, list, i as int),
                ),
                before == old(self)@,
                self@ == without_sources(before, list, i as int),
                exact(before.graph) ==> exact(self@.graph),
                texts(open@) == open_among(list, documents@, i as int),
                forall|root: Seq<char>| #[trigger]
                    before.sizes.contains_key(root) && !list.contains(root)
                        ==> self@.sizes.contains_key(root),
                forall|root: Seq<char>| #[trigger]
                    list.contains(root) <==> concerns(before, named, root),
                named == uri@,
                searched == search_visits(before.graph.parents, canonical(named)),
                list == crate::strmap::in_order(concerned_roots(before, named)),
            decreases affected@.len() - i,
        {
            proof {
                assert(stopped_at(before, self@, list, i as int));
            }
            work.check()?;
            proof {
                lemma_forget_all_visits_grow(before, list, i + 1, list.len() as int);
            }
            work.visit(1)?;
            proof {
                assert(list[i as int] == affected@[i as int]@);
                assert(list.contains(list[i as int]));
            }
            if documents.contains(affected[i].as_str()) {
                let ghost held = open@;
                open.push(affected[i].clone());
                proof {
                    assert(texts(open@) =~= texts(held).push(list[i as int]));
                }
            }
            let forgotten = self.remove_indexed(affected[i].as_str(), false, work);
            proof {
                if forgotten is Err {
                    assert(stopped_at(before, self@, list, i as int));
                }
            }
            forgotten?;
            i += 1;
        }
        let ghost rest = self@;
        let done = self.contexts.prune_unused_contexts(work);
        proof {
            assert(self@ =~= (SourcesView { store: self@.store, ..rest }));
            assert(stopped_at(before, self@, list, list.len() as int));
        }
        done?;
        proof {
            assert(self@ =~= with_pruned_contexts(
                without_sources(before, list, list.len() as int),
            ));
        }
        Ok(open)
    }
}

/// The document is read in one of the contexts, and it is indexed or open.
pub open spec fn reads_in(
    v: SourcesView,
    keys: Set<KeyView>,
    open: Map<Seq<char>, DocumentView>,
    uri: Seq<char>,
) -> bool {
    ||| v.store.document_contexts.contains_key(uri) && keys.contains(
        v.store.document_contexts[uri],
    ) && (v.sizes.contains_key(uri) || open_with_text(open, uri))
    ||| v.store.open_document_contexts.contains_key(uri) && keys.contains(
        v.store.open_document_contexts[uri],
    ) && open_with_text(open, uri)
}

/// The documents that are read in one of the contexts, as far as they are indexed or
/// open.
pub open spec fn readers(
    v: SourcesView,
    keys: Set<KeyView>,
    open: Map<Seq<char>, DocumentView>,
) -> Set<Seq<char>> {
    v.store.document_contexts.dom().union(v.store.open_document_contexts.dom()).filter(
        |uri: Seq<char>| reads_in(v, keys, open, uri),
    )
}

/// The owners once contexts do not hold any more.
pub open spec fn stale_owners(
    owners: Map<Seq<char>, crate::contexts::OwnerView>,
    keys: Set<KeyView>,
) -> Map<Seq<char>, crate::contexts::OwnerView> {
    owners.map_values(
        |owner: crate::contexts::OwnerView|
            if keys.contains(owner.key) {
                crate::contexts::OwnerView {
                    needs_revalidation: true,
                    legacy_route: None,
                    ..owner
                }
            } else {
                owner
            },
    )
}

/// The sources with contexts taken out and their owners to be looked at again.
pub open spec fn without_contexts(v: SourcesView, keys: Set<KeyView>) -> SourcesView {
    SourcesView {
        store: StoreView {
            contexts: v.store.contexts.remove_keys(keys),
            owners: stale_owners(v.store.owners, keys),
            ..v.store
        },
        ..v
    }
}

/// The sources once contexts do not hold any more: what was read in them is forgotten.
pub open spec fn invalidated(
    v: SourcesView,
    keys: Set<KeyView>,
    open: Map<Seq<char>, DocumentView>,
) -> SourcesView {
    let list = crate::strmap::in_order(readers(v, keys, open));
    if keys =~= Set::empty() {
        v
    } else {
        with_pruned_contexts(
            without_sources(without_contexts(v, keys), list, list.len() as int),
        )
    }
}

/// The open documents whose diagnostics are to be had again once contexts do not hold any
/// more.
pub open spec fn rediagnosed(
    v: SourcesView,
    keys: Set<KeyView>,
    open: Map<Seq<char>, DocumentView>,
) -> Seq<Seq<char>> {
    let list = crate::strmap::in_order(readers(v, keys, open));
    if keys =~= Set::empty() {
        Seq::empty()
    } else {
        texts_among(list, open, list.len() as int)
    }
}

/// The path visits that taking contexts out is charged.
pub open spec fn invalidation_visits(
    v: SourcesView,
    keys: Set<KeyView>,
    open: Map<Seq<char>, DocumentView>,
) -> nat {
    let list = crate::strmap::in_order(readers(v, keys, open));
    let rest = without_contexts(v, keys);
    if keys =~= Set::empty() {
        0
    } else {
        collecting_visits(v, keys, open) + forget_all_visits(rest, list, list.len() as int)
            + prune_visits(without_sources(rest, list, list.len() as int).store) + sort_work(
            rediagnosed(v, keys, open).len(),
        )
    }
}

/// Of these, the visits before anything is forgotten.
pub open spec fn collecting_visits(
    v: SourcesView,
    keys: Set<KeyView>,
    open: Map<Seq<char>, DocumentView>,
) -> nat {
    if keys =~= Set::empty() {
        0
    } else {
        keys.len() + v.store.owners.dom().len() + v.store.document_contexts.dom().len()
            + v.store.open_document_contexts.dom().len() + v.store.contexts.dom().intersect(
            keys,
        ).len() + v.store.owners.dom().filter(
            |uri: Seq<char>| keys.contains(v.store.owners[uri].key),
        ).len() + crate::strmap::in_order(readers(v, keys, open)).len()
    }
}

/// Forgetting contexts that do not hold any more was stopped: nothing was changed, or the
/// contexts are gone and what was read in them is being forgotten.
pub open spec fn partly_invalidated(
    before: SourcesView,
    after: SourcesView,
    keys: Set<KeyView>,
    open: Map<Seq<char>, DocumentView>,
) -> bool {
    ||| after == before
    ||| stopped_forgetting(
        without_contexts(before, keys),
        after,
        crate::strmap::in_order(readers(before, keys, open)),
    )
}

fn count_known(
    contexts: &KeyMap<ContextKey, Arc<ContextState>>,
    keys: &KeyMap<ContextKey, ()>,
    work: &mut Work,
) -> (r: Result<usize, Interrupt>)
    ensures
        final(work).continues(old(work)),
        old(work).unbounded() ==> r is Ok,
        r matches Err(Interrupt::BudgetExceeded) ==> final(work).used_up(),
        r matches Err(Interrupt::BudgetExceeded) ==> !old(work).affords(
            keys@.dom().len() as int,
            0,
        ),
        r is Ok ==> r->Ok_0 == contexts@.dom().intersect(keys@.dom()).len(),
        r is Ok ==> final(work).visited(old(work), keys@.dom().len() as int),
{
    let n: usize = keys.len();
    let ghost listed = keys.keys();
    let ghost start = *work;
    let mut count: usize = 0;
    let mut i: usize = 0;
    proof {
        assert(contexts@.dom().intersect(listed.take(0).to_set()) =~= Set::<KeyView>::empty());
    }
    while i < n
        invariant
            i <= n,
            n == listed.len(),
            n == keys@.dom().len(),
            listed == keys.keys(),
            listed.no_duplicates(),
            work.visited(&start, i as int),
            start == *old(work),
            count <= i,
            count == contexts@.dom().intersect(listed.take(i as int).to_set()).len(),
            contexts@.dom().intersect(listed.take(i as int).to_set()).finite(),
        decreases n - i,
    {
        work.check()?;
        work.visit(1)?;
        let known = contexts.contains_key(keys.key_at(i));
        proof {
            let before = contexts@.dom().intersect(listed.take(i as int).to_set());
            let after = contexts@.dom().intersect(listed.take(i + 1).to_set());
            crate::strmap::lemma_take_set(listed, i as int);
            let key = listed[i as int];
            if listed.take(i as int).to_set().contains(key) {
                let fore = listed.take(i as int);
                let j = choose|j: int| 0 <= j < fore.len() && fore[j] == key;
                assert(listed[j] == listed[i as int]);
            }
            if known {
                assert(after =~= before.insert(key));
            } else {
                assert(after =~= before);
            }
        }
        if known {
            count = count + 1;
        }
        i += 1;
    }
    proof {
        assert(listed.take(n as int) =~= listed);
    }
    Ok(count)
}

fn count_owned(
    owners: &StrMap<crate::contexts::KnownDocumentOwner>,
    keys: &KeyMap<ContextKey, ()>,
    work: &mut Work,
) -> (r: Result<usize, Interrupt>)
    ensures
        final(work).continues(old(work)),
        old(work).unbounded() ==> r is Ok,
        r matches Err(Interrupt::BudgetExceeded) ==> final(work).used_up(),
        r matches Err(Interrupt::BudgetExceeded) ==> !old(work).affords(
            owners.deep().dom().len() as int,
            0,
        ),
        r is Ok ==> r->Ok_0 == owners.deep().dom().filter(
            |uri: Seq<char>| keys@.dom().contains(owners.deep()[uri].key),
        ).len(),
        r is Ok ==> final(work).visited(old(work), owners.deep().dom().len() as int),
{
    let n: usize = owners.len();
    let ghost listed = owners.keys();
    let ghost start = *work;
    let ghost f = |uri: Seq<char>| keys@.dom().contains(owners.deep()[uri].key);
    let mut count: usize = 0;
    let mut i: usize = 0;
    proof {
        assert(owners.deep().dom() =~= owners@.dom());
        assert(listed.take(0).to_set().filter(f) =~= Set::<Seq<char>>::empty());
    }
    while i < n
        invariant
            i <= n,
            n == listed.len(),
            n == owners.deep().dom().len(),
            listed == owners.keys(),
            listed.no_duplicates(),
            work.visited(&start, i as int),
            start == *old(work),
            count <= i,
            f == (|uri: Seq<char>| keys@.dom().contains(owners.deep()[uri].key)),
            count == listed.take(i as int).to_set().filter(f).len(),
            listed.take(i as int).to_set().filter(f).finite(),
        decreases n - i,
    {
        work.check()?;
        work.visit(1)?;
        let owner = owners.value_at(i);
        let concerned = keys.contains_key(&owner.key);
        proof {
            let before = listed.take(i as int).to_set().filter(f);
            let after = listed.take(i + 1).to_set().filter(f);
            crate::strmap::lemma_take_set(listed, i as int);
            let uri = listed[i as int];
            assert(owners.deep()[uri] == owner@);
            if listed.take(i as int).to_set().contains(uri) {
                let fore = listed.take(i as int);
                let j = choose|j: int| 0 <= j < fore.len() && fore[j] == uri;
                assert(listed[j] == listed[i as int]);
            }
            if concerned {
                assert(f(uri));
                assert(after =~= before.insert(uri));
            } else {
                assert(!f(uri));
                assert(after =~= before);
            }
        }
        if concerned {
            count = count + 1;
        }
        i += 1;
    }
    proof {
        assert(listed.take(n as int) =~= listed);
        assert(listed.to_set() == owners@.dom());
    }
    Ok(count)
}

impl Sources {
    fn add_readers(
        &self,
        map: &StrMap<ContextKey>,
        indexed_too: bool,
        keys: &KeyMap<ContextKey, ()>,
        documents: &OpenDocuments,
        affected: &mut StrSet,
        work: &mut Work,
    ) -> (r: Result<(), Interrupt>)
        ensures
            final(work).continues(old(work)),
            old(work).unbounded() ==> r is Ok,
            r matches Err(Interrupt::BudgetExceeded) ==> final(work).used_up(),
            r matches Err(Interrupt::BudgetExceeded) ==> !old(work).affords(
                map.deep().dom().len() as int,
                0,
            ),
            r is Ok ==> final(work).visited(old(work), map.deep().dom().len() as int),
            r is Ok ==> forall|uri: Seq<char>| #[trigger]
                final(affected)@.contains(uri) <==> old(affected)@.contains(uri) || (
                map.deep().contains_key(uri) && keys@.dom().contains(map.deep()[uri]) && ((
                indexed_too && self@.sizes.contains_key(uri)) || open_with_text(
                    documents@,
                    uri,
                ))),
    {
        let n: usize = map.len();
        let ghost listed = map.keys();
        let ghost start = *work;
        let ghost base = affected@;
        let mut i: usize = 0;
        proof {
            assert(map.deep().dom() =~= map@.dom());
        }
        while i < n
            invariant
                i <= n,
                n == listed.len(),
                n == map.deep().dom().len(),
                listed == map.keys(),
                work.visited(&start, i as int),
                start == *old(work),
                forall|uri: Seq<char>| #[trigger]
                    affected@.contains(uri) <==> base.contains(uri) || (exists|j: int|
                        0 <= j < i && #[trigger] listed[j] == uri && keys@.dom().contains(
                            map.deep()[uri],
                        ) && ((indexed_too && self@.sizes.contains_key(uri)) || open_with_text(
                            documents@,
                            uri,
                        ))),
            decreases n - i,
        {
            work.check()?;
            work.visit(1)?;
            let uri = map.key_at(i);
            let concerned = keys.contains_key(map.value_at(i)) && ((indexed_too
                && self.sizes.contains_key(uri.as_str())) || is_open_with_text(
                documents,
                uri.as_str(),
            ));
            let ghost before = affected@;
            if concerned {
                let _added = affected.insert(uri.clone());
            }
            proof {
                let here = listed[i as int];
                assert(map.deep()[here] == map@[here]@);
                assert forall|uri: Seq<char>| #[trigger] affected@.contains(
                    uri,
                ) <==> base.contains(uri) || (exists|j: int|
                    0 <= j < i + 1 && #[trigger] listed[j] == uri && keys@.dom().contains(
                        map.deep()[uri],
                    ) && ((indexed_too && self@.sizes.contains_key(uri)) || open_with_text(
                        documents@,
                        uri,
                    ))) by {
                    if before.contains(uri) && !base.contains(uri) {
                        let j = choose|j: int|
                            0 <= j < i && #[trigger] listed[j] == uri && keys@.dom().contains(
                                map.deep()[uri],
                            ) && ((indexed_too && self@.sizes.contains_key(uri))
                                || open_with_text(documents@, uri));
                        assert(listed[j] == uri);
                    }
                    if uri == here && concerned {
                        assert(listed[i as int] == uri);
                    }
                }
            }
            i += 1;
        }
        proof {
            assert forall|uri: Seq<char>| #[trigger] affected@.contains(uri) <==> base.contains(
                uri,
            ) || (map.deep().contains_key(uri) && keys@.dom().contains(map.deep()[uri]) && ((
            indexed_too && self@.sizes.contains_key(uri)) || open_with_text(
                documents@,
                uri,
            ))) by {
                if exists|j: int| 0 <= j < n && #[trigger] listed[j] == uri {
                    assert(listed.contains(uri));
                }
                if map.deep().contains_key(uri) {
                    assert(listed.contains(uri));
                    let j = choose|j: int| 0 <= j < listed.len() && listed[j] == uri;
                    assert(listed[j] == uri);
                }
            }
        }
        Ok(())
    }

    fn forget_all(&mut self, list: &Vec<String>, work: &mut Work) -> (r: Result<(), Interrupt>)
        requires
            old(self).wf(),
        ensures
            final(self).wf(),
            final(work).continues(old(work)),
            old(work).unbounded() ==> r is Ok,
            r matches Err(Interrupt::BudgetExceeded) ==> final(work).used_up(),
            r matches Err(Interrupt::BudgetExceeded) ==> !old(work).affords(
                forget_all_visits(old(self)@, texts(list@), list@.len() as int) as int,
                0,
            ),
            r is Ok ==> final(self)@ == without_sources(
                old(self)@,
                texts(list@),
                list@.len() as int,
            ),
            r is Ok ==> final(work).visited(
                old(work),
                forget_all_visits(old(self)@, texts(list@), list@.len() as int) as int,
            ),
            r is Ok && exact(old(self)@.graph) ==> exact(final(self)@.graph),
            r is Err ==> stopped_forgetting(old(self)@, final(self)@, texts(list@)),
    {
        let ghost before = self@;
        let ghost names = texts(list@);
        let ghost start = *work;
        let mut i: usize = 0;
        while i < list.len()
            invariant
                i <= list@.len(),
                names == texts(list@),
                self.wf(),
                work.visited(&start, forget_all_visits(before, names, i as int) as int),
                start == *old(work),
                before == old(self)@,
                self@ == without_sources(before, names, i as int),
                exact(before.graph) ==> exact(self@.graph),
            decreases list@.len() - i,
        {
            proof {
                assert(names[i as int] == list@[i as int]@);
            }
            proof {
                lemma_forget_all_visits_grow(before, names, i + 1, list@.len() as int);
            }
            let forgotten = self.remove_indexed(list[i].as_str(), false, work);
            proof {
                if forgotten is Err {
                    assert(stopped_at(before, self@, names, i as int));
                }
            }
            forgotten?;
            i += 1;
        }
        Ok(())
    }

    /// Forgets contexts that do not hold any more, and what was read in them. The open
    /// documents among it come back, by their URIs. All of it is collected before anything
    /// is changed.
    #[verifier::rlimit(50)]
    pub fn invalidate_contexts(
        &mut self,
        keys: &KeyMap<ContextKey, ()>,
        documents: &OpenDocuments,
        work: &mut Work,
    ) -> (r: Result<Vec<String>, Interrupt>)
        requires
            old(self).wf(),
        ensures
            final(self).wf(),
            final(work).continues(old(work)),
            old(work).unbounded() ==> r is Ok,
            r matches Err(Interrupt::BudgetExceeded) ==> final(work).used_up(),
            r matches Err(Interrupt::BudgetExceeded) ==> !old(work).affords(
                invalidation_visits(old(self)@, keys@.dom(), documents@) as int,
                0,
            ),
            r is Ok && exact(old(self)@.graph) ==> exact(final(self)@.graph),
            r is Ok ==> final(self)@ == invalidated(old(self)@, keys@.dom(), documents@),
            r is Ok ==> texts(r->Ok_0@) == rediagnosed(old(self)@, keys@.dom(), documents@),
            r is Ok ==> final(work).visited(
                old(work),
                invalidation_visits(old(self)@, keys@.dom(), documents@) as int,
            ),
            keys@.dom() =~= Set::<KeyView>::empty() ==> r is Ok && final(self)@ == old(self)@,
            collecting_visits(old(self)@, keys@.dom(), documents@) > 0 && !old(work).has_room(
                collecting_visits(old(self)@, keys@.dom(), documents@) as int,
            ) ==> r is Err && final(self)@ == old(self)@,
            r is Err && old(work).budget is Some && final(work).visits() < old(work).visits()
                + collecting_visits(old(self)@, keys@.dom(), documents@) ==> final(self)@ == old(
                self,
            )@,
            r is Err ==> partly_invalidated(old(self)@, final(self)@, keys@.dom(), documents@),
    {
        let ghost before = self@;
        let ghost gone = keys@.dom();
        let ghost open = documents@;
        if keys.len() == 0 {
            proof {
                assert(gone =~= Set::<KeyView>::empty());
            }
            let none: Vec<String> = Vec::new();
            proof {
                assert(texts(none@) =~= Seq::<Seq<char>>::empty());
            }
            return Ok(none);
        }
        proof {
            assert(!(gone =~= Set::<KeyView>::empty())) by {
                assert(gone.len() > 0);
            }
        }
        let retained: usize = count_known(&self.contexts.contexts, keys, work)?;
        let stale: usize = count_owned(&self.contexts.owners, keys, work)?;
        let mut affected = StrSet::new();
        self.add_readers(
            &self.contexts.document_contexts,
            true,
            keys,
            documents,
            &mut affected,
            work,
        )?;
        self.add_readers(
            &self.contexts.open_document_contexts,
            false,
            keys,
            documents,
            &mut affected,
            work,
        )?;
        proof {
            assert(affected@ =~= readers(before, gone, open));
        }
        let count: usize = affected.len();
        work.visit(retained.saturating_add(stale).saturating_add(count))?;
        work.check()?;
        let list = affected.list();
        let ghost names = texts(list@);
        self.drop_contexts(keys);
        self.contexts.change_owners(&OwnerChange::Invalidate(keys));
        proof {
            assert(self@.store.owners =~= stale_owners(before.store.owners, gone));
            assert(self@ =~= without_contexts(before, gone));
        }
        let ghost rest = without_contexts(before, gone);
        proof {
            assert(names == crate::strmap::in_order(readers(before, gone, open)));
        }
        self.forget_all(&list, work)?;
        let ghost emptied = self@;
        let done = self.contexts.prune_unused_contexts(work);
        proof {
            assert(self@ =~= (SourcesView { store: self@.store, ..emptied }));
            assert(stopped_at(rest, self@, names, names.len() as int));
        }
        done?;
        let mut told: Vec<String> = Vec::new();
        let mut i: usize = 0;
        proof {
            assert(texts(told@) =~= Seq::<Seq<char>>::empty());
        }
        while i < list.len()
            invariant
                i <= list@.len(),
                names == texts(list@),
                texts(told@) == texts_among(names, documents@, i as int),
            decreases list@.len() - i,
        {
            proof {
                assert(names[i as int] == list@[i as int]@);
            }
            if is_open_with_text(documents, list[i].as_str()) {
                let ghost held = told@;
                told.push(list[i].clone());
                proof {
                    assert(texts(told@) =~= texts(held).push(names[i as int]));
                }
            }
            i += 1;
        }
        proof {
            assert(texts(told@).len() == told@.len());
        }
        work.visit(sort_work_estimate(told.len()))?;
        work.check()?;
        Ok(told)
    }

    fn drop_contexts(&mut self, keys: &KeyMap<ContextKey, ()>)
        requires
            old(self).wf(),
        ensures
            final(self).wf(),
            final(self)@ == (SourcesView {
                store: StoreView {
                    contexts: old(self)@.store.contexts.remove_keys(keys@.dom()),
                    ..old(self)@.store
                },
                ..old(self)@
            }),
    {
        let ghost before = self@;
        let n: usize = keys.len();
        let ghost listed = keys.keys();
        let mut i: usize = 0;
        proof {
            assert(before.store.contexts.remove_keys(listed.take(0).to_set())
                =~= before.store.contexts);
        }
        while i < n
            invariant
                i <= n,
                n == listed.len(),
                listed == keys.keys(),
                self.wf(),
                self@ == (SourcesView {
                    store: StoreView {
                        contexts: before.store.contexts.remove_keys(
                            listed.take(i as int).to_set(),
                        ),
                        ..before.store
                    },
                    ..before
                }),
            decreases n - i,
        {
            let ghost held = self@.store.contexts;
            let _gone = self.contexts.contexts.remove(keys.key_at(i));
            proof {
                crate::strmap::lemma_take_set(listed, i as int);
                assert(self@.store.contexts =~= before.store.contexts.remove_keys(
                    listed.take(i + 1).to_set(),
                ));
            }
            i += 1;
        }
        proof {
            assert(listed.take(n as int) =~= listed);
        }
    }
}

/// How many of the paths from `i` on are looked at until one is the path, up to case.
pub open spec fn looked_at(watched: Seq<Parts>, path: Parts, i: int) -> nat
    decreases watched.len() - i,
{
    if i < 0 || i >= watched.len() {
        0
    } else if equal_ci(watched[i], path) {
        1
    } else {
        1 + looked_at(watched, path, i + 1)
    }
}

/// One of the paths is the path, up to case.
pub open spec fn watches(watched: Seq<Parts>, path: Parts) -> bool {
    exists|i: int| 0 <= i < watched.len() && equal_ci(#[trigger] watched[i], path)
}

/// The contexts that watch a path.
pub open spec fn watching(store: StoreView, path: Parts) -> Set<KeyView> {
    store.contexts.dom().filter(
        |key: KeyView| watches(store.contexts[key].watched_paths.keys(), path),
    )
}

/// The path visits that asking the first `n` contexts whether they watch a path is
/// charged.
pub open spec fn watch_visits(store: StoreView, keys: Seq<KeyView>, path: Parts, n: int) -> nat
    decreases n,
{
    if n <= 0 {
        0
    } else {
        watch_visits(store, keys, path, n - 1) + 1 + looked_at(
            store.contexts[keys[n - 1]].watched_paths.keys(),
            path,
            0,
        )
    }
}

/// The path visits that the search for the contexts which watch a path is charged: each
/// context, and its watched paths up to the one looked for.
pub open spec fn watching_visits(store: StoreView, path: Parts) -> int {
    map_sum(
        store.contexts,
        |key: KeyView, state: Arc<ContextState>|
            1 + looked_at(state.watched_paths.keys(), path, 0) as int,
    )
}

/// The visits of a search are not negative.
pub proof fn lemma_watching_visits_count(store: StoreView, path: Parts)
    ensures
        watching_visits(store, path) >= 0,
{
    lemma_sum_bounds(
        store.contexts,
        |key: KeyView, state: Arc<ContextState>|
            1 + looked_at(state.watched_paths.keys(), path, 0) as int,
    );
}

/// In whatever order the contexts are looked at, the visits are the same.
proof fn lemma_watching_visits(store: StoreView, keys: Seq<KeyView>, path: Parts, n: int)
    requires
        0 <= n <= keys.len(),
        keys.no_duplicates(),
        keys.to_set() == store.contexts.dom(),
    ensures
        watch_visits(store, keys, path, n) == map_sum(
            store.contexts.restrict(keys.take(n).to_set()),
            |key: KeyView, state: Arc<ContextState>|
                1 + looked_at(state.watched_paths.keys(), path, 0) as int,
        ),
    decreases n,
{
    let weight = |key: KeyView, state: Arc<ContextState>|
        1 + looked_at(state.watched_paths.keys(), path, 0) as int;
    let part = store.contexts.restrict(keys.take(n).to_set());
    if n == 0 {
        assert(keys.take(0).to_set() =~= Set::<KeyView>::empty());
        assert(part =~= Map::<KeyView, Arc<ContextState>>::empty());
    } else {
        lemma_watching_visits(store, keys, path, n - 1);
        let before = store.contexts.restrict(keys.take(n - 1).to_set());
        let here = keys[n - 1];
        assert(keys.to_set().contains(here));
        assert(store.contexts.contains_key(here));
        assert(keys.take(n) =~= keys.take(n - 1).push(here));
        assert(keys.take(n).to_set() =~= keys.take(n - 1).to_set().insert(here)) by {
            broadcast use vstd::seq_lib::group_seq_properties;

        }
        assert(!keys.take(n - 1).contains(here));
        assert(!before.contains_key(here));
        assert(part =~= before.insert(here, store.contexts[here]));
        assert(before.dom() =~= store.contexts.dom().intersect(keys.take(n - 1).to_set()));
        assert(keys.take(n - 1).to_set().finite());
        lemma_sum_insert(before, weight, here, store.contexts[here]);
    }
}

/// More contexts take no fewer visits.
proof fn lemma_watch_visits_grow(store: StoreView, keys: Seq<KeyView>, path: Parts, m: int, n: int)
    requires
        m <= n,
    ensures
        watch_visits(store, keys, path, m) <= watch_visits(store, keys, path, n),
    decreases n - m,
{
    if m < n {
        lemma_watch_visits_grow(store, keys, path, m, n - 1);
    }
}

proof fn lemma_looked_at_all(watched: Seq<Parts>, path: Parts, i: int)
    requires
        0 <= i <= watched.len(),
        forall|j: int| i <= j < watched.len() ==> !equal_ci(#[trigger] watched[j], path),
    ensures
        looked_at(watched, path, i) == watched.len() - i,
    decreases watched.len() - i,
{
    if i < watched.len() {
        assert(!equal_ci(watched[i], path));
        lemma_looked_at_all(watched, path, i + 1);
    }
}

fn state_watches(state: &ContextState, path: &FilePath, work: &mut Work) -> (r: Result<
    bool,
    Interrupt,
>)
    ensures
        final(work).continues(old(work)),
        old(work).unbounded() ==> r is Ok,
        r matches Err(Interrupt::BudgetExceeded) ==> final(work).used_up(),
        r matches Err(Interrupt::BudgetExceeded) ==> !old(work).affords(
            looked_at(state.watched_paths.keys(), path@, 0) as int,
            0,
        ),
        r is Ok ==> r->Ok_0 == watches(state.watched_paths.keys(), path@),
        r is Ok ==> final(work).visited(
            old(work),
            looked_at(state.watched_paths.keys(), path@, 0) as int,
        ),
{
    let n: usize = state.watched_paths.len();
    let ghost watched = state.watched_paths.keys();
    let ghost start = *work;
    let mut i: usize = 0;
    while i < n
        invariant
            i <= n,
            n == watched.len(),
            watched == state.watched_paths.keys(),
            work.visited(&start, i as int),
            start == *old(work),
            looked_at(watched, path@, 0) == i + looked_at(watched, path@, i as int),
            forall|j: int| 0 <= j < i ==> !equal_ci(#[trigger] watched[j], path@),
        decreases n - i,
    {
        work.check()?;
        work.visit(1)?;
        if paths_equal_ci(state.watched_paths.key_at(i), path) {
            proof {
                assert(equal_ci(watched[i as int], path@));
            }
            return Ok(true);
        }
        i += 1;
    }
    Ok(false)
}

impl Sources {
    fn watchers(&self, path: &FilePath, work: &mut Work) -> (r: Result<
        KeyMap<ContextKey, ()>,
        Interrupt,
    >)
        ensures
            final(work).continues(old(work)),
            old(work).unbounded() ==> r is Ok,
            r matches Err(Interrupt::BudgetExceeded) ==> final(work).used_up(),
            r matches Err(Interrupt::BudgetExceeded) ==> !old(work).affords(
                watching_visits(self@.store, path@),
                0,
            ),
            r is Ok ==> r->Ok_0@.dom() == watching(self@.store, path@),
            r is Ok ==> final(work).visited(
                old(work),
                watching_visits(self@.store, path@),
            ),
    {
        let n: usize = self.contexts.contexts.len();
        let ghost keys = self.contexts.contexts.keys();
        let ghost store = self@.store;
        proof {
            lemma_watching_visits(store, keys, path@, n as int);
            assert(keys.take(n as int) =~= keys);
            assert(store.contexts.restrict(keys.to_set()) =~= store.contexts);
        }
        let ghost start = *work;
        let mut found: KeyMap<ContextKey, ()> = KeyMap::new();
        let mut i: usize = 0;
        while i < n
            invariant
                i <= n,
                n == keys.len(),
                keys == self.contexts.contexts.keys(),
                store == self@.store,
                watch_visits(store, keys, path@, n as int) == watching_visits(self@.store, path@),
                work.visited(&start, watch_visits(store, keys, path@, i as int) as int),
                start == *old(work),
                forall|key: KeyView| #[trigger]
                    found@.contains_key(key) <==> exists|j: int|
                        0 <= j < i && #[trigger] keys[j] == key && watches(
                            store.contexts[key].watched_paths.keys(),
                            path@,
                        ),
            decreases n - i,
        {
            work.check()?;
            proof {
                lemma_watch_visits_grow(store, keys, path@, i + 1, n as int);
                assert(store.contexts[keys[i as int]] == self.contexts.contexts@[keys[i as int]]);
            }
            work.visit(1)?;
            let state = self.contexts.contexts.value_at(i);
            let concerned = state_watches(state, path, work)?;
            let ghost before = found@;
            if concerned {
                let _none = found.insert(self.contexts.contexts.key_at(i).duplicate(), ());
            }
            proof {
                let here = keys[i as int];
                assert(store.contexts[here] == *state);
                assert forall|key: KeyView| #[trigger] found@.contains_key(key) <==> exists|j: int|
                    0 <= j < i + 1 && #[trigger] keys[j] == key && watches(
                        store.contexts[key].watched_paths.keys(),
                        path@,
                    ) by {
                    if before.contains_key(key) {
                        let j = choose|j: int|
                            0 <= j < i && #[trigger] keys[j] == key && watches(
                                store.contexts[key].watched_paths.keys(),
                                path@,
                            );
                        assert(keys[j] == key);
                    }
                    if key == here && concerned {
                        assert(keys[i as int] == key);
                    }
                }
            }
            i += 1;
        }
        proof {
            assert forall|key: KeyView| #[trigger] found@.dom().contains(key) <==> watching(
                store,
                path@,
            ).contains(key) by {
                if found@.contains_key(key) {
                    let j = choose|j: int|
                        0 <= j < n && #[trigger] keys[j] == key && watches(
                            store.contexts[key].watched_paths.keys(),
                            path@,
                        );
                    assert(keys.contains(key));
                }
                if watching(store, path@).contains(key) {
                    assert(keys.contains(key));
                    let j = choose|j: int| 0 <= j < keys.len() && keys[j] == key;
                    assert(keys[j] == key);
                }
            }
            assert(found@.dom() =~= watching(store, path@));
        }
        Ok(found)
    }

    /// Forgets the contexts that watch the file of a URI, and what was read in them. The
    /// open documents among it come back. The contexts are looked for before anything is
    /// changed.
    pub fn invalidate_metadata_for_uri(
        &mut self,
        uri: &str,
        documents: &OpenDocuments,
        work: &mut Work,
    ) -> (r: Result<Vec<String>, Interrupt>)
        requires
            old(self).wf(),
        ensures
            final(self).wf(),
            final(work).continues(old(work)),
            old(work).unbounded() ==> r is Ok,
            r matches Err(Interrupt::BudgetExceeded) ==> final(work).used_up(),
            r matches Err(Interrupt::BudgetExceeded) ==> uri_path(uri@) is Some && !old(work).affords(
                watching_visits(old(self)@.store, uri_path(uri@)->0) + invalidation_visits(
                    old(self)@,
                    watching(old(self)@.store, uri_path(uri@)->0),
                    documents@,
                ),
                0,
            ),
            r is Ok && exact(old(self)@.graph) ==> exact(final(self)@.graph),
            r is Ok ==> match uri_path(uri@) {
                Some(path) => {
                    let keys = watching(old(self)@.store, path);
                    &&& final(self)@ == invalidated(old(self)@, keys, documents@)
                    &&& texts(r->Ok_0@) == rediagnosed(old(self)@, keys, documents@)
                    &&& final(work).visited(
                        old(work),
                        watching_visits(old(self)@.store, path) + invalidation_visits(
                            old(self)@,
                            keys,
                            documents@,
                        ),
                    )
                },
                None => final(self)@ == old(self)@ && r->Ok_0@.len() == 0 && final(work).visited(
                    old(work),
                    0,
                ),
            },
            uri_path(uri@) is None ==> r is Ok,
            uri_path(uri@) matches Some(path) ==> {
                let keys = watching(old(self)@.store, path);
                let scan = watching_visits(old(self)@.store, path);
                let unchanging = scan + collecting_visits(old(self)@, keys, documents@);
                &&& keys =~= Set::<KeyView>::empty() ==> final(self)@ == old(self)@
                &&& scan > 0 && !old(work).has_room(scan) ==> r is Err && final(self)@ == old(
                    self,
                )@
                &&& unchanging > 0 && !old(work).has_room(unchanging) ==> r is Err
                    && final(self)@ == old(self)@
                &&& r is Err && old(work).budget is Some && final(work).visits() < old(
                    work,
                ).visits() + unchanging ==> final(self)@ == old(self)@
                &&& r is Err ==> partly_invalidated(old(self)@, final(self)@, keys, documents@)
            },
    {
        match file_path_of(uri) {
            None => {
                let none: Vec<String> = Vec::new();
                Ok(none)
            },
            Some(path) => {
                proof {
                    lemma_watching_visits_count(self@.store, path@);
                }
                let keys = self.watchers(&path, work)?;
                self.invalidate_contexts(&keys, documents, work)
            },
        }
    }

    /// The number of sources that are kept once the document is open: the indexed ones
    /// and the texts of open documents.
    pub fn retained_file_count_after_open(&self, uri: &str, documents: &OpenDocuments) -> (n: usize)
        requires
            documents.wf(),
        ensures
            n == capped(
                self@.sizes.dom().union(
                    documents@.dom().filter(|u: Seq<char>| documents@[u].text is Some),
                ).insert(uri@).len() as int,
            ),
    {
        let ghost kept = self@.sizes.dom();
        let ghost open = documents@;
        let ghost f = |u: Seq<char>| open[u].text is Some;
        let mut count: usize = self.sizes.len();
        let n: usize = documents.documents.len();
        let ghost keys = documents.documents.keys();
        proof {
            assert(open.dom() =~= documents.documents@.dom());
        }
        let mut i: usize = 0;
        let ghost mut all: Set<Seq<char>> = kept;
        proof {
            assert(kept.union(keys.take(0).to_set().filter(f)).remove(uri@).union(kept)
                =~= kept);
            all = kept;
        }
        while i < n
            invariant
                i <= n,
                n == keys.len(),
                keys == documents.documents.keys(),
                keys.no_duplicates(),
                open == documents@,
                kept == self@.sizes.dom(),
                kept.finite(),
                f == (|u: Seq<char>| open[u].text is Some),
                all.finite(),
                all == kept.union(keys.take(i as int).to_set().filter(f).remove(uri@)),
                count == capped(all.len() as int),
            decreases n - i,
        {
            let other = documents.documents.key_at(i);
            let document = documents.documents.value_at(i);
            let counts = !same_str(other.as_str(), uri) && document.text.is_some()
                && !self.sizes.contains_key(other.as_str());
            proof {
                let u = keys[i as int];
                assert(open[u] == document@);
                crate::strmap::lemma_take_set(keys, i as int);
                let fore = keys.take(i as int);
                if fore.contains(u) {
                    let j = choose|j: int| 0 <= j < fore.len() && fore[j] == u;
                    assert(keys[j] == keys[i as int]);
                }
                assert(!fore.to_set().contains(u));
                let next = kept.union(keys.take(i + 1).to_set().filter(f).remove(uri@));
                if u != uri@ && f(u) {
                    assert(next =~= all.insert(u));
                } else {
                    assert(next =~= all);
                }
                if u != uri@ && f(u) && kept.contains(u) {
                    assert(all.insert(u) =~= all);
                }
                if counts {
                    assert(!all.contains(u));
                }
                all = next;
            }
            if counts {
                count = count.saturating_add(1);
            }
            i += 1;
        }
        proof {
            assert(keys.take(n as int) =~= keys);
            let texts_open = open.dom().filter(f);
            assert(keys.to_set() =~= open.dom());
            assert(all =~= kept.union(texts_open.remove(uri@)));
            assert(kept.union(texts_open).insert(uri@) =~= all.insert(uri@));
            if kept.contains(uri@) {
                assert(all.insert(uri@) =~= all);
            } else {
                assert(!all.contains(uri@));
            }
        }
        if !self.sizes.contains_key(uri) {
            count = count.saturating_add(1);
        }
        count
    }
}

} // verus!
