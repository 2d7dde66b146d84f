//! What is kept once a source was indexed, and what goes where it could not be.

use vstd::prelude::*;

use crate::budget::{lemma_spent_adds, Work};
use crate::cancel::Interrupt;
use crate::contexts::{
    known_origin, owner_clock, partly_pruned, prune_visits, pruned, tick, with_owner, StoreView,
};
use crate::documents::{DocumentView, OpenDocuments};
use crate::freshness::{rebound, selected_key};
use crate::includes::{
    partly_stored, record_of, removal_visits, removed_from, store_visits, stored_in, uris_of, Expansion,
};
use crate::loading::{unindexed_message, unindexed_text};
use crate::project::{ContextKey, KeyView};
use crate::sources::{
    forget_visits, partly_forgotten, partly_unexpanded, total_size, with_pruned_contexts,
    without_source, Sources, SourcesView,
};
use crate::warnings::{warned_with, WarningLog};

verus! {

/// The sources with nothing known of what one includes.
pub open spec fn without_expansion(v: SourcesView, uri: Seq<char>) -> SourcesView {
    SourcesView { expansions: v.expansions.remove(uri), graph: removed_from(v.graph, uri), ..v }
}

/// The contexts with that of a source that was indexed, before those that are then unused go.
pub open spec fn bound_in(
    v: SourcesView,
    documents: Map<Seq<char>, DocumentView>,
    uri: Seq<char>,
    key: KeyView,
    owned: bool,
    project_configured: bool,
) -> StoreView {
    let bound = rebound(v.store, documents, uri, key, owned);
    let selected = selected_key(bound, uri);
    with_owner(
        bound,
        documents,
        uri,
        selected,
        known_origin(bound, documents, uri, selected, project_configured),
        v.clock,
    )
}

/// A source is read in its context already, and nothing but unused contexts is missing.
pub open spec fn partly_bound(
    v: SourcesView,
    after: SourcesView,
    documents: Map<Seq<char>, DocumentView>,
    uri: Seq<char>,
    key: KeyView,
    owned: bool,
    project_configured: bool,
) -> bool {
    let bound = rebound(v.store, documents, uri, key, owned);
    &&& after == (SourcesView {
        store: after.store,
        clock: owner_clock(bound, selected_key(bound, uri), v.clock),
        ..v
    })
    &&& partly_pruned(
        bound_in(v, documents, uri, key, owned, project_configured),
        after.store,
    )
}

/// Nothing was changed but that what a source includes is being kept.
pub open spec fn partly_expanded(
    v: SourcesView,
    after: SourcesView,
    uri: Seq<char>,
    key: KeyView,
    source: Seq<char>,
    expansion: Expansion,
) -> bool {
    let all = expansion.dependencies@;
    &&& after == (SourcesView { expansions: after.expansions, graph: after.graph, ..v })
    &&& partly_stored(v.graph, after.graph, uri, uris_of(all, all.len() as int))
    &&& {
        ||| after.expansions == v.expansions
        ||| after.expansions == v.expansions.remove(uri)
        ||| after.expansions == v.expansions.insert(uri, record_of(uri, key, source, expansion))
    }
}

/// The visits that keeping what is known of an indexed source is charged.
pub open spec fn indexed_visits(
    v: SourcesView,
    documents: Map<Seq<char>, DocumentView>,
    uri: Seq<char>,
    key: KeyView,
    owned: bool,
    project_configured: bool,
    expanded: Option<Expanded>,
) -> nat {
    prune_visits(bound_in(v, documents, uri, key, owned, project_configured)) + match expanded {
        Some(expanded) => store_visits(v.graph, uri, expanded.expansion),
        None => 0,
    }
}

/// The sources once the text of one was indexed in a context.
pub open spec fn indexed_in(
    v: SourcesView,
    documents: Map<Seq<char>, DocumentView>,
    uri: Seq<char>,
    size: usize,
    key: KeyView,
    owned: bool,
    project_configured: bool,
) -> SourcesView {
    let bound = rebound(v.store, documents, uri, key, owned);
    let selected = selected_key(bound, uri);
    let clock = tick(owner_clock(bound, selected, v.clock));
    SourcesView {
        sizes: v.sizes.insert(uri, size),
        store: pruned(bound_in(v, documents, uri, key, owned, project_configured)),
        clock,
        last_used: v.last_used.insert(uri, clock),
        ..v
    }
}

/// The sources with what one includes.
pub open spec fn with_expansion(
    v: SourcesView,
    uri: Seq<char>,
    key: KeyView,
    source: Seq<char>,
    expansion: Expansion,
) -> SourcesView {
    let all = expansion.dependencies@;
    SourcesView {
        expansions: v.expansions.insert(uri, record_of(uri, key, source, expansion)),
        graph: stored_in(v.graph, uri, uris_of(all, all.len() as int)),
        ..v
    }
}

/// An expanded source: what it reads as by itself, and what it includes.
pub struct Expanded {
    pub source: String,
    pub expansion: Expansion,
}

/// The sources once one was indexed and, where it includes others, what it includes is kept.
pub open spec fn indexed(
    v: SourcesView,
    documents: Map<Seq<char>, DocumentView>,
    uri: Seq<char>,
    size: usize,
    key: KeyView,
    owned: bool,
    project_configured: bool,
    expanded: Option<Expanded>,
) -> SourcesView {
    let placed = indexed_in(v, documents, uri, size, key, owned, project_configured);
    match expanded {
        Some(expanded) => with_expansion(placed, uri, key, expanded.source@, expanded.expansion),
        None => placed,
    }
}

/// Keeping what is known of an indexed source was stopped: while its context was bound, or
/// while what it includes was kept.
pub open spec fn partly_indexed(
    v: SourcesView,
    after: SourcesView,
    documents: Map<Seq<char>, DocumentView>,
    uri: Seq<char>,
    size: usize,
    key: KeyView,
    owned: bool,
    project_configured: bool,
    expanded: Option<Expanded>,
) -> bool {
    ||| partly_bound(
        SourcesView { sizes: v.sizes.insert(uri, size), ..v },
        after,
        documents,
        uri,
        key,
        owned,
        project_configured,
    )
    ||| expanded is Some && partly_expanded(
        indexed_in(v, documents, uri, size, key, owned, project_configured),
        after,
        uri,
        key,
        expanded->0.source@,
        expanded->0.expansion,
    )
}

impl Sources {
    /// Prepares the indexing of a source. `expands` says that it includes others; what is
    /// known of a source that does not is forgotten. `size` are the bytes of the text that
    /// is indexed, which are charged.
    pub fn begin_indexing(&mut self, uri: &str, expands: bool, size: usize, work: &mut Work) -> (r:
        Result<(), Interrupt>)
        requires
            old(self).wf(),
        ensures
            final(self).wf(),
            final(work).continues(old(work)),
            old(work).unbounded() ==> r is Ok,
            r matches Err(Interrupt::BudgetExceeded) ==> final(work).used_up(),
            r matches Err(Interrupt::BudgetExceeded) ==> !old(work).affords(
                if expands { 0 } else { removal_visits(old(self)@.graph, uri@) as int },
                size as int,
            ),
            r is Ok ==> final(self)@ == (if expands {
                old(self)@
            } else {
                without_expansion(old(self)@, uri@)
            }),
            r is Ok ==> final(work).spent(
                old(work),
                if expands {
                    0
                } else {
                    removal_visits(old(self)@.graph, uri@) as int
                },
                size as int,
            ),
            r is Err && expands ==> final(self)@ == old(self)@,
            r is Err ==> partly_unexpanded(old(self)@, final(self)@, uri@) || final(self)@
                == without_expansion(old(self)@, uri@),
            removal_visits(old(self)@.graph, uri@) > 0 && !expands && !old(work).has_room(
                removal_visits(old(self)@.graph, uri@) as int,
            ) ==> r is Err && (r == Err::<(), Interrupt>(Interrupt::BudgetExceeded)
                ==> final(self)@ == old(self)@),
    {
        let ghost before = self@;
        let ghost start = *work;
        let ghost visits: int = if expands {
            0
        } else {
            removal_visits(before.graph, uri@) as int
        };
        if !expands {
            let removed = self.includes.remove_expansion(uri, work);
            proof {
                assert(self@ =~= (SourcesView {
                    expansions: self@.expansions,
                    graph: self@.graph,
                    ..before
                }));
            }
            removed?;
            proof {
                assert(self@ =~= without_expansion(before, uri@));
            }
        }
        let ghost middle = *work;
        proof {
            assert(middle.spent(&start, visits, 0));
        }
        work.index(size)?;
        proof {
            lemma_spent_adds(&start, &middle, work, visits, 0, 0, size as int);
        }
        Ok(())
    }

    /// Forgets a source that could not be indexed, and says so.
    pub fn indexing_failed(
        &mut self,
        uri: &str,
        error: &str,
        warnings: &mut WarningLog,
        work: &mut Work,
    ) -> (r: Result<(), Interrupt>)
        requires
            old(self).wf(),
            old(warnings).wf(),
        ensures
            final(self).wf(),
            final(warnings).wf(),
            final(work).continues(old(work)),
            old(work).unbounded() ==> r is Ok,
            r matches Err(Interrupt::BudgetExceeded) ==> final(work).used_up(),
            r matches Err(Interrupt::BudgetExceeded) ==> !old(work).affords(
                (
                    forget_visits(old(self)@, uri@)
                        + prune_visits(without_source(old(self)@, uri@).store)
                ) as int,
                0,
            ),
            r is Ok ==> {
                &&& final(self)@ == with_pruned_contexts(without_source(old(self)@, uri@))
                &&& final(warnings)@ == warned_with(old(warnings)@, unindexed_text(uri@, error@))
                &&& final(work).visited(
                    old(work),
                    (forget_visits(old(self)@, uri@) + prune_visits(
                        without_source(old(self)@, uri@).store,
                    )) as int,
                )
            },
            r is Err ==> final(warnings)@ == old(warnings)@,
            r is Err ==> partly_forgotten(old(self)@, final(self)@, uri@),
            r == Err::<(), Interrupt>(Interrupt::BudgetExceeded) ==> final(self)@ == old(self)@
                || final(self)@ == without_source(old(self)@, uri@),
    {
        self.remove_indexed(uri, true, work)?;
        warnings.warn(unindexed_message(uri, error));
        Ok(())
    }

    /// Keeps what is known of a source that was indexed in a context. `owned` says that the
    /// context is that of its owner.
    pub fn finish_indexing(
        &mut self,
        documents: &OpenDocuments,
        uri: &str,
        size: usize,
        key: &ContextKey,
        owned: bool,
        project_configured: bool,
        expanded: Option<Expanded>,
        work: &mut Work,
    ) -> (r: Result<(), Interrupt>)
        requires
            old(self).wf(),
            total_size(old(self)@.sizes.insert(uri@, size)) <= usize::MAX,
        ensures
            final(self).wf(),
            final(work).continues(old(work)),
            old(work).unbounded() ==> r is Ok,
            r matches Err(Interrupt::BudgetExceeded) ==> final(work).used_up(),
            r matches Err(Interrupt::BudgetExceeded) ==> !old(work).affords(
                indexed_visits(
                    old(self)@,
                    documents@,
                    uri@,
                    key@,
                    owned,
                    project_configured,
                    expanded,
                ) as int,
                0,
            ),
            r is Ok ==> final(self)@ == indexed(
                old(self)@,
                documents@,
                uri@,
                size,
                key@,
                owned,
                project_configured,
                expanded,
            ),
            final(self)@.sizes == old(self)@.sizes.insert(uri@, size),
            r is Ok ==> final(work).visited(
                old(work),
                indexed_visits(
                    old(self)@,
                    documents@,
                    uri@,
                    key@,
                    owned,
                    project_configured,
                    expanded,
                ) as int,
            ),
            r is Err ==> partly_indexed(
                old(self)@,
                final(self)@,
                documents@,
                uri@,
                size,
                key@,
                owned,
                project_configured,
                expanded,
            ),
    {
        let ghost before = self@;
        self.set_size(uri, size);
        let ghost sized = self@;
        let mut clock: u64 = self.clock;
        let bound = self.contexts.set_document_context(
            documents,
            uri,
            key,
            owned,
            project_configured,
            &mut clock,
            work,
        );
        self.clock = clock;
        proof {
            assert(self@.sizes == before.sizes.insert(uri@, size));
            assert(self.includes.wf());
            assert(self@ =~= (SourcesView { store: self@.store, clock: self.clock, ..sized }));
        }
        bound?;
        self.touch(uri);
        proof {
            assert(self@ =~= indexed_in(
                before,
                documents@,
                uri@,
                size,
                key@,
                owned,
                project_configured,
            ));
        }
        let ghost placed = self@;
        match expanded {
            Some(expanded) => {
                let Expanded { source, expansion } = expanded;
                let ghost given = expansion;
                let stored = self.includes.store_expansion(uri, key, source, expansion, work);
                proof {
                    assert(self@ =~= (SourcesView {
                        expansions: self@.expansions,
                        graph: self@.graph,
                        ..placed
                    }));
                }
                stored?;
                proof {
                    assert(self@ =~= with_expansion(placed, uri@, key@, source@, given));
                }
            },
            None => {},
        }
        Ok(())
    }
}

/// A source that was indexed counts with its size, and no other source counts otherwise.
pub proof fn law_indexing_counts_one_source(
    v: SourcesView,
    documents: Map<Seq<char>, DocumentView>,
    uri: Seq<char>,
    size: usize,
    key: KeyView,
    owned: bool,
    project_configured: bool,
    expanded: Option<Expanded>,
)
    ensures
        ({
            let after = indexed(
                v,
                documents,
                uri,
                size,
                key,
                owned,
                project_configured,
                expanded,
            );
            &&& after.sizes.contains_key(uri) && after.sizes[uri] == size
            &&& forall|other: Seq<char>|
                other != uri ==> (#[trigger] after.sizes.contains_key(other)
                    <==> v.sizes.contains_key(other))
            &&& forall|other: Seq<char>|
                other != uri && #[trigger] v.sizes.contains_key(other) ==> after.sizes[other]
                    == v.sizes[other]
        }),
{
}

} // verus!
