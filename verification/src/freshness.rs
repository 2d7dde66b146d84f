//! Whether what is kept of a project still holds, and which of it outlives a lost file.

use vstd::prelude::*;

use crate::budget::{lemma_spent_adds, Work};
use crate::cancel::Interrupt;
use crate::contexts::{
    known_origin, owner_clock, partly_pruned, prune_visits, pruned, with_owner, ContextStore,
    StoreView,
};
use crate::documents::{DocumentView, OpenDocuments};
use crate::installation::seen_until;
use crate::keymap::{deep_values, Identity};
use crate::paths::{FilePath, Parts};
use crate::project::{
    context_path_entry, path_entry, ContextKey, ContextState, EntryView, KeyView, Membership,
    MembershipView, PathEntry, PathStamp, ProjectContext,
};
use crate::sorting::views;
use crate::strings::same_str;
use crate::strmap::{in_order, lemma_deep_insert, StrMap, StrSet};
use crate::uris::{file_path_of, uri_path};

verus! {

/// Whether the watched paths from the `i`-th on are as they were, and the visits that
/// finding out is charged. A path that is ignored may have changed.
pub open spec fn watched_fresh(
    keys: Seq<Parts>,
    stamps: Map<Parts, Option<PathStamp>>,
    now: Seq<Option<PathStamp>>,
    ignored: Seq<Parts>,
    i: int,
) -> (bool, nat)
    decreases keys.len() - i,
{
    if i < 0 || i >= keys.len() {
        (true, 0)
    } else {
        let cost = 1 + seen_until(ignored, keys[i], 0);
        if ignored.contains(keys[i]) || now[i] == stamps[keys[i]] {
            let rest = watched_fresh(keys, stamps, now, ignored, i + 1);
            (rest.0, cost + rest.1)
        } else {
            (false, cost)
        }
    }
}

/// Whether the directories from the `i`-th on hold the project files that they held, and
/// the visits that finding out is charged. What could not be listed never counts as the
/// same.
pub open spec fn directories_fresh(
    keys: Seq<Parts>,
    kept: Map<Parts, MembershipView>,
    now: Seq<MembershipView>,
    i: int,
) -> (bool, nat)
    decreases keys.len() - i,
{
    if i < 0 || i >= keys.len() {
        (true, 0)
    } else if kept[keys[i]].listed && now[i].listed && kept[keys[i]].text == now[i].text {
        let rest = directories_fresh(keys, kept, now, i + 1);
        (rest.0, 1 + rest.1)
    } else {
        (false, 1)
    }
}

/// Whether what is kept of a project still holds, and the visits that finding out is
/// charged.
pub open spec fn state_fresh(
    state: ContextState,
    ignored: Seq<Parts>,
    stamps: Seq<Option<PathStamp>>,
    memberships: Seq<MembershipView>,
) -> (bool, nat) {
    let watched = watched_fresh(
        state.watched_paths.keys(),
        state.watched_paths@,
        stamps,
        ignored,
        0,
    );
    if watched.0 {
        let directories = directories_fresh(
            state.memberships.keys(),
            deep_values(state.memberships@),
            memberships,
            0,
        );
        (directories.0, watched.1 + directories.1)
    } else {
        watched
    }
}

fn is_ignored(ignored: &Vec<FilePath>, path: &FilePath, work: &mut Work) -> (r: Result<
    bool,
    Interrupt,
>)
    ensures
        final(work).continues(old(work)),
        old(work).unbounded() ==> r is Ok,
        r matches Err(Interrupt::BudgetExceeded) ==> final(work).used_up(),
        r matches Err(Interrupt::BudgetExceeded) ==> !old(work).affords(
            seen_until(views(ignored@), path@, 0) as int,
            0,
        ),
        r is Ok ==> r->Ok_0 == views(ignored@).contains(path@) && final(work).spent(
            old(work),
            seen_until(views(ignored@), path@, 0) as int,
            0,
        ),
{
    let ghost start = *work;
    let ghost list = views(ignored@);
    let mut i: usize = 0;
    while i < ignored.len()
        invariant
            i <= ignored@.len(),
            list == views(ignored@),
            start == *old(work),
            forall|j: int| 0 <= j < i ==> #[trigger] list[j] != path@,
            seen_until(list, path@, 0) == i + seen_until(list, path@, i as int),
            work.spent(&start, i as int, 0),
        decreases ignored@.len() - i,
    {
        work.check()?;
        let ghost before = *work;
        work.visit(1)?;
        proof {
            lemma_spent_adds(&start, &before, &*work, i as int, 0, 1, 0);
            assert(list[i as int] == ignored@[i as int]@);
        }
        if ignored[i].same(path) {
            proof {
                assert(list[i as int] == path@);
            }
            return Ok(true);
        }
        i += 1;
    }
    Ok(false)
}

/// Whether what is kept of a project still holds. `stamps` are those that its watched
/// paths have now, `memberships` what its directories hold now, both in their order.
pub fn context_state_is_fresh(
    state: &ContextState,
    ignored: &Vec<FilePath>,
    stamps: &Vec<Option<PathStamp>>,
    memberships: &Vec<Membership>,
    work: &mut Work,
) -> (r: Result<bool, Interrupt>)
    requires
        stamps@.len() == state.watched_paths.keys().len(),
        memberships@.len() == state.memberships.keys().len(),
    ensures
        final(work).continues(old(work)),
        old(work).unbounded() ==> r is Ok,
        r matches Err(Interrupt::BudgetExceeded) ==> final(work).used_up(),
        r matches Err(Interrupt::BudgetExceeded) ==> !old(work).affords(
            state_fresh(*state, views(ignored@), stamps@, views(memberships@)).1 as int,
            0,
        ),
        r is Ok ==> ({
            let fresh = state_fresh(*state, views(ignored@), stamps@, views(memberships@));
            r->Ok_0 == fresh.0 && final(work).spent(old(work), fresh.1 as int, 0)
        }),
{
    let ghost start = *work;
    let ghost skipped = views(ignored@);
    let ghost facts = views(memberships@);
    let count: usize = state.watched_paths.len();
    let ghost keys = state.watched_paths.keys();
    let ghost goal = watched_fresh(keys, state.watched_paths@, stamps@, skipped, 0);
    let ghost mut used: int = 0;
    let mut i: usize = 0;
    while i < count
        invariant
            i <= count,
            count == keys.len(),
            keys == state.watched_paths.keys(),
            stamps@.len() == keys.len(),
            skipped == views(ignored@),
            facts == views(memberships@),
            start == *old(work),
            used >= 0,
            goal == watched_fresh(keys, state.watched_paths@, stamps@, skipped, 0),
            goal == ({
                let rest = watched_fresh(
                    keys,
                    state.watched_paths@,
                    stamps@,
                    skipped,
                    i as int,
                );
                (rest.0, (used + rest.1) as nat)
            }),
            work.spent(&start, used, 0),
        decreases count - i,
    {
        work.check()?;
        let ghost before = *work;
        work.visit(1)?;
        let ghost between = *work;
        let path = state.watched_paths.key_at(i);
        let skip = is_ignored(ignored, path, work)?;
        let ghost cost = 1 + seen_until(skipped, path@, 0);
        proof {
            lemma_spent_adds(
                &before,
                &between,
                &*work,
                1,
                0,
                seen_until(skipped, path@, 0) as int,
                0,
            );
            lemma_spent_adds(&start, &before, &*work, used, 0, cost as int, 0);
        }
        if !skip {
            work.check()?;
            if stamps[i] != *state.watched_paths.value_at(i) {
                return Ok(false);
            }
        }
        proof {
            used = used + cost;
        }
        i += 1;
    }
    let total: usize = state.memberships.len();
    let ghost names = state.memberships.keys();
    let ghost kept = deep_values(state.memberships@);
    let ghost first = used;
    let mut k: usize = 0;
    while k < total
        invariant
            k <= total,
            total == names.len(),
            names == state.memberships.keys(),
            kept == deep_values(state.memberships@),
            memberships@.len() == names.len(),
            facts == views(memberships@),
            skipped == views(ignored@),
            start == *old(work),
            first >= 0,
            keys == state.watched_paths.keys(),
            watched_fresh(keys, state.watched_paths@, stamps@, skipped, 0) == (true, first as nat),
            directories_fresh(names, kept, facts, 0) == ({
                let rest = directories_fresh(names, kept, facts, k as int);
                (rest.0, (k + rest.1) as nat)
            }),
            work.spent(&start, first + k, 0),
        decreases total - k,
    {
        work.check()?;
        let ghost before = *work;
        work.visit(1)?;
        proof {
            lemma_spent_adds(&start, &before, &*work, first + k, 0, 1, 0);
            assert(facts[k as int] == memberships@[k as int]@);
        }
        let expected = state.memberships.value_at(k);
        let actual = &memberships[k];
        if !(expected.listed && actual.listed && same_str(
            expected.text.as_str(),
            actual.text.as_str(),
        )) {
            return Ok(false);
        }
        k += 1;
    }
    Ok(true)
}

/// A document of which nothing but its text is left: it is open, its file is gone, and
/// nothing but the file system led to it.
pub open spec fn is_overlay(
    open: Map<Seq<char>, DocumentView>,
    gone: Set<Seq<char>>,
    context: ProjectContext,
    policies: Map<Seq<char>, EntryView>,
    uri: Seq<char>,
) -> bool {
    &&& open.contains_key(uri)
    &&& open[uri].text is Some
    &&& uri_path(uri) is Some
    &&& gone.contains(uri)
    &&& ({
        let policy = if policies.contains_key(uri) {
            Some(policies[uri])
        } else {
            None
        };
        let entry = path_entry(context, uri_path(uri)->0, policy);
        entry is Some && entry->0.provenance is LegacyNative
    })
}

/// The paths of such documents among the first `n`.
pub open spec fn overlay_paths(
    uris: Seq<Seq<char>>,
    open: Map<Seq<char>, DocumentView>,
    gone: Set<Seq<char>>,
    context: ProjectContext,
    policies: Map<Seq<char>, EntryView>,
    n: int,
) -> Seq<Parts>
    decreases n,
{
    if n <= 0 {
        seq![]
    } else {
        let before = overlay_paths(uris, open, gone, context, policies, n - 1);
        if is_overlay(open, gone, context, policies, uris[n - 1]) {
            before.push(uri_path(uris[n - 1])->0)
        } else {
            before
        }
    }
}

/// The visits that finding them is charged.
pub open spec fn overlay_visits(uris: Seq<Seq<char>>, open: Map<Seq<char>, DocumentView>, n: int) -> nat
    decreases n,
{
    if n <= 0 {
        0
    } else {
        overlay_visits(uris, open, n - 1) + (if open[uris[n - 1]].text is Some && uri_path(
            uris[n - 1],
        ) is Some {
            2nat
        } else {
            1nat
        })
    }
}

/// More documents take no fewer visits.
proof fn lemma_overlay_visits_grow(uris: Seq<Seq<char>>, open: Map<Seq<char>, DocumentView>, m: int, n: int)
    requires
        m <= n,
    ensures
        overlay_visits(uris, open, m) <= overlay_visits(uris, open, n),
    decreases n - m,
{
    if m < n {
        lemma_overlay_visits_grow(uris, open, m, n - 1);
    }
}

/// The paths of open documents of which nothing but their text is left. `gone` are the
/// documents whose file is not there, `policies` the entries that the read policy has for
/// documents.
pub fn open_legacy_overlays(
    documents: &OpenDocuments,
    gone: &StrSet,
    context: &ProjectContext,
    policies: &StrMap<PathEntry>,
    work: &mut Work,
) -> (r: Result<Vec<FilePath>, Interrupt>)
    ensures
        final(work).continues(old(work)),
        old(work).unbounded() ==> r is Ok,
        r matches Err(Interrupt::BudgetExceeded) ==> final(work).used_up(),
        r matches Err(Interrupt::BudgetExceeded) ==> !old(work).affords(
            overlay_visits(
                in_order(documents@.dom()),
                documents@,
                in_order(documents@.dom()).len() as int,
            ) as int,
            0,
        ),
        r is Ok ==> ({
            let uris = in_order(documents@.dom());
            &&& views(r->Ok_0@) == overlay_paths(
                uris,
                documents@,
                gone@,
                *context,
                policies.deep(),
                uris.len() as int,
            )
            &&& final(work).spent(
                old(work),
                overlay_visits(uris, documents@, uris.len() as int) as int,
                0,
            )
        }),
{
    let ghost start = *work;
    let ghost open = documents@;
    let ghost entries = policies.deep();
    let n: usize = documents.documents.len();
    let ghost uris = documents.documents.keys();
    proof {
        assert(open.dom() =~= documents.documents@.dom());
    }
    let mut list: Vec<FilePath> = Vec::new();
    let mut i: usize = 0;
    proof {
        assert(views(list@) =~= seq![]);
    }
    while i < n
        invariant
            i <= n,
            n == uris.len(),
            uris == documents.documents.keys(),
            uris == in_order(documents@.dom()),
            open == documents@,
            entries == policies.deep(),
            start == *old(work),
            views(list@) == overlay_paths(uris, open, gone@, *context, entries, i as int),
            work.spent(&start, overlay_visits(uris, open, i as int) as int, 0),
        decreases n - i,
    {
        work.check()?;
        let ghost before = *work;
        let ghost used = overlay_visits(uris, open, i as int) as int;
        proof {
            lemma_overlay_visits_grow(uris, open, i + 1, n as int);
        }
        work.visit(1)?;
        proof {
            lemma_spent_adds(&start, &before, &*work, used, 0, 1, 0);
        }
        let uri = documents.documents.key_at(i);
        let document = documents.documents.value_at(i);
        proof {
            assert(open[uri@] == document@);
        }
        if document.text.is_some() {
            if let Some(path) = file_path_of(uri.as_str()) {
                work.check()?;
                let ghost between = *work;
                work.visit(1)?;
                proof {
                    lemma_spent_adds(&start, &between, &*work, used + 1, 0, 1, 0);
                }
                if gone.contains(uri.as_str()) {
                    let policy = match policies.get(uri.as_str()) {
                        Some(entry) => Some(entry.copy()),
                        None => None,
                    };
                    if let Some(entry) = context_path_entry(context, &path, policy) {
                        if entry.provenance.is_legacy() {
                            let ghost held = list@;
                            list.push(path);
                            proof {
                                assert(views(list@) =~= views(held).push(path@));
                            }
                        }
                    }
                }
            }
        }
        i += 1;
    }
    Ok(list)
}

/// The store once a document that is loaded for another is read in a context. A document
/// that is read in a context already stays in it, unless the context is that of its owner.
pub open spec fn rebound(
    store: StoreView,
    open: Map<Seq<char>, DocumentView>,
    uri: Seq<char>,
    key: KeyView,
    owned: bool,
) -> StoreView {
    if open.contains_key(uri) {
        let opened = if owned || !store.open_document_contexts.contains_key(uri) {
            store.open_document_contexts.insert(uri, key)
        } else {
            store.open_document_contexts
        };
        StoreView {
            open_document_contexts: opened,
            document_contexts: store.document_contexts.insert(uri, opened[uri]),
            ..store
        }
    } else if owned || !store.document_contexts.contains_key(uri) {
        StoreView { document_contexts: store.document_contexts.insert(uri, key), ..store }
    } else {
        store
    }
}

/// The context that a document is read in.
pub open spec fn selected_key(store: StoreView, uri: Seq<char>) -> KeyView {
    if store.open_document_contexts.contains_key(uri) {
        store.open_document_contexts[uri]
    } else {
        store.document_contexts[uri]
    }
}

impl ContextStore {
    fn rebind(&mut self, documents: &OpenDocuments, uri: &str, key: &ContextKey, owned: bool)
        ensures
            final(self)@ == rebound(old(self)@, documents@, uri@, key@, owned),
    {
        let ghost store = self@;
        if documents.contains(uri) {
            if owned || !self.open_document_contexts.contains_key(uri) {
                let kept = key.duplicate();
                proof {
                    lemma_deep_insert(self.open_document_contexts@, uri@, kept);
                }
                let _before = self.open_document_contexts.insert(uri.to_owned(), kept);
            }
            let selected = match self.open_document_contexts.get(uri) {
                Some(selected) => selected.duplicate(),
                None => key.duplicate(),
            };
            proof {
                lemma_deep_insert(self.document_contexts@, uri@, selected);
            }
            let _before = self.document_contexts.insert(uri.to_owned(), selected);
        } else if owned || !self.document_contexts.contains_key(uri) {
            let kept = key.duplicate();
            proof {
                lemma_deep_insert(self.document_contexts@, uri@, kept);
            }
            let _before = self.document_contexts.insert(uri.to_owned(), kept);
        }
        proof {
            assert(self@ =~= rebound(store, documents@, uri@, key@, owned));
        }
    }

    /// Reads a document that is loaded for another in a context from now on. `owned` says
    /// that the context is that of its owner. Where the work is stopped, the document is
    /// read in the context already, and nothing but unused contexts may be missing.
    pub fn set_document_context(
        &mut self,
        documents: &OpenDocuments,
        uri: &str,
        key: &ContextKey,
        owned: bool,
        project_configured: bool,
        clock: &mut u64,
        work: &mut Work,
    ) -> (r: Result<(), Interrupt>)
        ensures
            final(work).continues(old(work)),
            old(work).unbounded() ==> r is Ok,
            r matches Err(Interrupt::BudgetExceeded) ==> final(work).used_up(),
            ({
                let bound = rebound(old(self)@, documents@, uri@, key@, owned);
                let selected = selected_key(bound, uri@);
                let known = with_owner(
                    bound,
                    documents@,
                    uri@,
                    selected,
                    known_origin(bound, documents@, uri@, selected, project_configured),
                    *old(clock),
                );
                &&& r is Ok ==> final(self)@ == pruned(known) && final(work).visited(
                    old(work),
                    prune_visits(known) as int,
                )
                &&& r is Err ==> partly_pruned(known, final(self)@)
                &&& r matches Err(Interrupt::BudgetExceeded) ==> !old(work).affords(
                    prune_visits(known) as int,
                    0,
                )
                &&& *final(clock) == owner_clock(bound, selected, *old(clock))
            }),
    {
        let ghost store = self@;
        self.rebind(documents, uri, key, owned);
        let ghost bound = self@;
        let selected = match self.open_document_contexts.get(uri) {
            Some(selected) => selected.duplicate(),
            None => match self.document_contexts.get(uri) {
                Some(selected) => selected.duplicate(),
                None => key.duplicate(),
            },
        };
        proof {
            assert(selected@ == selected_key(bound, uri@));
        }
        self.remember_document_owner(documents, uri, &selected, project_configured, clock);
        self.prune_unused_contexts(work)
    }
}

proof fn lemma_watched_fresh(
    keys: Seq<Parts>,
    stamps: Map<Parts, Option<PathStamp>>,
    now: Seq<Option<PathStamp>>,
    ignored: Seq<Parts>,
    i: int,
)
    requires
        0 <= i <= keys.len(),
    ensures
        watched_fresh(keys, stamps, now, ignored, i).0 <==> (forall|j: int|
            i <= j < keys.len() ==> ignored.contains(#[trigger] keys[j]) || now[j]
                == stamps[keys[j]]),
    decreases keys.len() - i,
{
    if i < keys.len() {
        lemma_watched_fresh(keys, stamps, now, ignored, i + 1);
    }
}

proof fn lemma_directories_fresh(
    keys: Seq<Parts>,
    kept: Map<Parts, MembershipView>,
    now: Seq<MembershipView>,
    i: int,
)
    requires
        0 <= i <= keys.len(),
    ensures
        directories_fresh(keys, kept, now, i).0 <==> (forall|j: int|
            i <= j < keys.len() ==> kept[#[trigger] keys[j]].listed && now[j].listed
                && kept[keys[j]].text == now[j].text),
    decreases keys.len() - i,
{
    if i < keys.len() {
        lemma_directories_fresh(keys, kept, now, i + 1);
    }
}

/// What is kept of a project holds exactly while every watched path that is not ignored is as
/// it was, and every directory could be listed, then and now, and holds what it held. A
/// directory that cannot be listed is never the same.
pub proof fn law_a_project_holds_while_all_of_it_stays(
    state: ContextState,
    ignored: Seq<Parts>,
    stamps: Seq<Option<PathStamp>>,
    memberships: Seq<MembershipView>,
)
    ensures
        ({
            let paths = state.watched_paths.keys();
            let directories = state.memberships.keys();
            let kept = deep_values(state.memberships@);
            state_fresh(state, ignored, stamps, memberships).0 <==> {
                &&& forall|i: int|
                    0 <= i < paths.len() ==> ignored.contains(#[trigger] paths[i]) || stamps[i]
                        == state.watched_paths@[paths[i]]
                &&& forall|i: int|
                    0 <= i < directories.len() ==> kept[#[trigger] directories[i]].listed
                        && memberships[i].listed && kept[directories[i]].text
                        == memberships[i].text
            }
        }),
{
    lemma_watched_fresh(
        state.watched_paths.keys(),
        state.watched_paths@,
        stamps,
        ignored,
        0,
    );
    lemma_directories_fresh(
        state.memberships.keys(),
        deep_values(state.memberships@),
        memberships,
        0,
    );
}

} // verus!
