//! What is kept once a source was loaded, and what goes where it could not be.

use vstd::prelude::*;

use crate::access::LoadPlan;
use crate::budget::Work;
use crate::cancel::Interrupt;
use crate::contexts::{owner_clock, prune_visits, pruned, tick, OwnerView, RouteView, StoreView};
use crate::documents::{DocumentView, OpenDocuments};
use crate::freshness::{rebound, selected_key};
use crate::indexing::{bound_in, partly_bound};
use crate::loading::{unread_message, unread_text};
use crate::paths::{FilePath, Parts};
use crate::project::{ContextKey, DiskStamp, KeyView, PathEntry};
use crate::records::{closed_record, open_record, with_record, DiskReading, RecordView};
use crate::sources::{
    forget_visits, partly_forgotten, with_pruned_contexts, without_source, Sources, SourcesView,
};
use crate::uris::{file_path_of, uri_path};
use crate::warnings::warned_with;
use crate::workspace::{Workspace, WorkspaceView};

verus! {

/// The sources with one that was used last.
pub open spec fn touched(v: SourcesView, uri: Seq<char>) -> SourcesView {
    SourcesView {
        clock: tick(v.clock),
        last_used: v.last_used.insert(uri, tick(v.clock)),
        ..v
    }
}

/// The sources once one that is indexed is used in a context.
pub open spec fn used_in(
    v: SourcesView,
    documents: Map<Seq<char>, DocumentView>,
    uri: Seq<char>,
    key: KeyView,
    owned: bool,
    project_configured: bool,
) -> SourcesView {
    let now = touched(v, uri);
    let bound = rebound(now.store, documents, uri, key, owned);
    SourcesView {
        store: pruned(bound_in(now, documents, uri, key, owned, project_configured)),
        clock: owner_clock(bound, selected_key(bound, uri), now.clock),
        ..now
    }
}

/// Using an indexed source in a context was stopped: before anything was changed, or while
/// contexts that are then unused were forgotten.
pub open spec fn partly_used(
    v: SourcesView,
    after: SourcesView,
    documents: Map<Seq<char>, DocumentView>,
    uri: Seq<char>,
    key: KeyView,
    owned: bool,
    project_configured: bool,
) -> bool {
    ||| after == v
    ||| partly_bound(touched(v, uri), after, documents, uri, key, owned, project_configured)
}

/// The visits that using an indexed source in a context is charged.
pub open spec fn use_visits(
    v: SourcesView,
    documents: Map<Seq<char>, DocumentView>,
    uri: Seq<char>,
    key: KeyView,
    owned: bool,
    project_configured: bool,
) -> nat {
    prune_visits(bound_in(touched(v, uri), documents, uri, key, owned, project_configured))
}

/// The contexts once it is known that a source was found beside another, in a context. Only
/// an owner of the same context knows of it.
pub open spec fn with_route(
    store: StoreView,
    uri: Seq<char>,
    key: KeyView,
    path: Parts,
) -> StoreView {
    StoreView {
        owners: if store.owners.contains_key(uri) && store.owners[uri].key == key {
            store.owners.insert(
                uri,
                OwnerView {
                    legacy_route: Some(RouteView { source: path, context: key }),
                    ..store.owners[uri]
                },
            )
        } else {
            store.owners
        },
        ..store
    }
}

/// The sources with a route to one, where the plan of its load granted one.
pub open spec fn with_granted_route(
    v: SourcesView,
    granted: bool,
    uri: Seq<char>,
    key: KeyView,
    path: Parts,
) -> SourcesView {
    if granted {
        SourcesView { store: with_route(v.store, uri, key, path), ..v }
    } else {
        v
    }
}

/// The records with that of an open document, if it has a text.
pub open spec fn with_open_record(
    records: Option<Map<Seq<char>, RecordView>>,
    open: Map<Seq<char>, DocumentView>,
    uri: Seq<char>,
    text_hash: u64,
) -> Option<Map<Seq<char>, RecordView>> {
    if open.contains_key(uri) && open[uri].text is Some {
        with_record(
            records,
            uri,
            open_record(uri, open[uri].text->0, open[uri].version, text_hash),
        )
    } else {
        records
    }
}

impl Sources {
    fn put_to_use(
        &mut self,
        documents: &OpenDocuments,
        uri: &str,
        key: &ContextKey,
        owned: bool,
        project_configured: bool,
        work: &mut Work,
    ) -> (r: Result<(), Interrupt>)
        requires
            old(self).wf(),
        ensures
            final(self).wf(),
            final(work).continues(old(work)),
            old(work).unbounded() ==> r is Ok,
            r matches Err(Interrupt::BudgetExceeded) ==> final(work).used_up(),
            r matches Err(Interrupt::BudgetExceeded) ==> !old(work).affords(
                use_visits(old(self)@, documents@, uri@, key@, owned, project_configured) as int,
                0,
            ),
            final(self)@.sizes == old(self)@.sizes,
            r is Ok ==> final(self)@ == used_in(
                old(self)@,
                documents@,
                uri@,
                key@,
                owned,
                project_configured,
            ),
            r is Ok ==> final(work).visited(
                old(work),
                use_visits(old(self)@, documents@, uri@, key@, owned, project_configured) as int,
            ),
            r is Err ==> partly_used(
                old(self)@,
                final(self)@,
                documents@,
                uri@,
                key@,
                owned,
                project_configured,
            ),
    {
        let ghost before = self@;
        work.check()?;
        self.touch(uri);
        let ghost now = self@;
        let mut clock: u64 = self.clock;
        let bound = self.contexts.set_document_context(
            documents,
            uri,
            key,
            owned,
            project_configured,
            &mut clock,
            work,
        );
        self.clock = clock;
        proof {
            assert(self.includes.wf());
            assert(now =~= touched(before, uri@));
            assert(self@ =~= (SourcesView { store: self@.store, clock: self.clock, ..now }));
            if bound is Ok {
                assert(self@ =~= used_in(
                    before,
                    documents@,
                    uri@,
                    key@,
                    owned,
                    project_configured,
                ));
            }
        }
        bound
    }

    pub(crate) fn grant_route(&mut self, granted: bool, uri: &str, key: &ContextKey, path: &FilePath)
        requires
            old(self).wf(),
        ensures
            final(self).wf(),
            final(self)@ == with_granted_route(old(self)@, granted, uri@, key@, path@),
    {
        let ghost before = self@;
        if granted {
            self.contexts.remember_legacy_route(uri, key, path);
            proof {
                assert(self@ =~= with_granted_route(before, granted, uri@, key@, path@));
            }
        }
    }
}

impl Workspace {
    /// Uses an open document that is indexed as it stands. `key` is the context that it is
    /// read in, `owned` whether that is the one of its owner, and `given` the context that it
    /// was loaded for.
    pub fn use_open_source(
        &mut self,
        uri: &str,
        path: &FilePath,
        given: &ContextKey,
        key: &ContextKey,
        owned: bool,
        plan: &LoadPlan,
        text_hash: u64,
        work: &mut Work,
    ) -> (r: Result<(), Interrupt>)
        requires
            old(self).wf(),
        ensures
            final(self).wf(),
            final(self).same_rest(old(self)),
            final(work).continues(old(work)),
            old(work).unbounded() ==> r is Ok,
            r matches Err(Interrupt::BudgetExceeded) ==> final(work).used_up(),
            r matches Err(Interrupt::BudgetExceeded) ==> !old(work).affords(
                use_visits(
                    old(self)@.sources,
                    old(self)@.documents,
                    uri@,
                    key@,
                    owned,
                    old(self)@.project_configured,
                ) as int,
                0,
            ),
            r is Err ==> final(self)@ == (WorkspaceView {
                sources: final(self)@.sources,
                ..old(self)@
            }) && final(self)@.sources.sizes == old(self)@.sources.sizes && partly_used(
                old(self)@.sources,
                final(self)@.sources,
                old(self)@.documents,
                uri@,
                key@,
                owned,
                old(self)@.project_configured,
            ),
            r is Ok ==> ({
                let ws = old(self)@;
                let used = used_in(
                    ws.sources,
                    ws.documents,
                    uri@,
                    key@,
                    owned,
                    ws.project_configured,
                );
                &&& final(self)@ == (WorkspaceView {
                    sources: with_granted_route(used, plan.route_granted, uri@, given@, path@),
                    records: with_open_record(ws.records, ws.documents, uri@, text_hash),
                    ..ws
                })
                &&& final(work).visited(
                    old(work),
                    use_visits(
                        ws.sources,
                        ws.documents,
                        uri@,
                        key@,
                        owned,
                        ws.project_configured,
                    ) as int,
                )
            }),
    {
        let ghost before = self@;
        let configured = self.options.project_file.is_some();
        let used = self.sources.put_to_use(&self.documents, uri, key, owned, configured, work);
        if let Err(interrupt) = used {
            proof {
                assert(self@ =~= (WorkspaceView { sources: self@.sources, ..before }));
            }
            return Err(interrupt);
        }
        self.sources.grant_route(plan.route_granted, uri, given, path);
        self.record_open(uri, text_hash);
        Ok(())
    }

    /// Records an open document that was indexed, if it has a text.
    pub fn record_open(&mut self, uri: &str, text_hash: u64)
        requires
            old(self).wf(),
        ensures
            final(self).wf(),
            final(self).same_rest(old(self)),
            final(self)@ == (WorkspaceView {
                records: with_open_record(
                    old(self)@.records,
                    old(self)@.documents,
                    uri@,
                    text_hash,
                ),
                ..old(self)@
            }),
    {
        let ghost before = self@;
        if let Some(document) = self.documents.get(uri) {
            if let Some(text) = &document.text {
                self.records.record_open_analysis_source(
                    uri,
                    text.as_str(),
                    document.version,
                    text_hash,
                );
            }
        }
        proof {
            assert(self@ =~= (WorkspaceView {
                records: with_open_record(before.records, before.documents, uri@, text_hash),
                ..before
            }));
        }
    }

    /// Uses a closed source that is indexed as it stands. `reading` holds the text that it is
    /// indexed with, if that is known.
    pub fn use_closed_source(
        &mut self,
        uri: &str,
        path: &FilePath,
        key: &ContextKey,
        owned: bool,
        reading: Option<&DiskReading>,
        read_policy: &str,
        entry: &PathEntry,
        work: &mut Work,
    ) -> (r: Result<(), Interrupt>)
        requires
            old(self).wf(),
        ensures
            final(self).wf(),
            final(self).same_rest(old(self)),
            final(work).continues(old(work)),
            old(work).unbounded() ==> r is Ok,
            r matches Err(Interrupt::BudgetExceeded) ==> final(work).used_up(),
            r matches Err(Interrupt::BudgetExceeded) ==> !old(work).affords(
                use_visits(
                    old(self)@.sources,
                    old(self)@.documents,
                    uri@,
                    key@,
                    owned,
                    old(self)@.project_configured,
                ) as int,
                0,
            ),
            r is Err ==> final(self)@ == (WorkspaceView {
                sources: final(self)@.sources,
                ..old(self)@
            }) && final(self)@.sources.sizes == old(self)@.sources.sizes && partly_used(
                old(self)@.sources,
                final(self)@.sources,
                old(self)@.documents,
                uri@,
                key@,
                owned,
                old(self)@.project_configured,
            ),
            r is Ok ==> ({
                let ws = old(self)@;
                &&& final(self)@ == (WorkspaceView {
                    sources: used_in(
                        ws.sources,
                        ws.documents,
                        uri@,
                        key@,
                        owned,
                        ws.project_configured,
                    ),
                    records: match reading {
                        Some(reading) => with_record(
                            ws.records,
                            uri@,
                            closed_record(uri@, *reading, path@, read_policy@, entry@),
                        ),
                        None => ws.records,
                    },
                    ..ws
                })
                &&& final(work).visited(
                    old(work),
                    use_visits(
                        ws.sources,
                        ws.documents,
                        uri@,
                        key@,
                        owned,
                        ws.project_configured,
                    ) as int,
                )
            }),
    {
        let ghost before = self@;
        let configured = self.options.project_file.is_some();
        let used = self.sources.put_to_use(&self.documents, uri, key, owned, configured, work);
        if let Err(interrupt) = used {
            proof {
                assert(self@ =~= (WorkspaceView { sources: self@.sources, ..before }));
            }
            return Err(interrupt);
        }
        if let Some(reading) = reading {
            self.records.record_closed_analysis_source(uri, reading, path, read_policy, entry);
        }
        proof {
            assert(self@ =~= (WorkspaceView {
                sources: self@.sources,
                records: self@.records,
                ..before
            }));
        }
        Ok(())
    }

    /// Keeps what was read of a closed source that was indexed then.
    pub fn keep_read_source(
        &mut self,
        uri: &str,
        path: &FilePath,
        given: &ContextKey,
        plan: &LoadPlan,
        reading: &DiskReading,
        read_policy: &str,
    )
        requires
            old(self).wf(),
        ensures
            final(self).wf(),
            final(self).same_rest(old(self)),
            final(self)@ == ({
                let ws = old(self)@;
                let stamped = SourcesView {
                    stamps: ws.sources.stamps.insert(uri@, reading.stamp),
                    ..ws.sources
                };
                WorkspaceView {
                    sources: with_granted_route(stamped, plan.route_granted, uri@, given@, path@),
                    records: with_record(
                        ws.records,
                        uri@,
                        closed_record(uri@, *reading, path@, read_policy@, plan.entry@),
                    ),
                    ..ws
                }
            }),
    {
        let ghost before = self@;
        let _previous = self.sources.stamps.insert(uri.to_owned(), reading.stamp);
        proof {
            assert(self.sources@ =~= (SourcesView {
                stamps: before.sources.stamps.insert(uri@, reading.stamp),
                ..before.sources
            }));
        }
        self.records.record_closed_analysis_source(uri, reading, path, read_policy, &plan.entry);
        self.sources.grant_route(plan.route_granted, uri, given, path);
        proof {
            assert(self@ =~= (WorkspaceView {
                sources: self@.sources,
                records: self@.records,
                ..before
            }));
        }
    }

    /// Whether a source that a result rests on has to be loaded again: it is closed, and its
    /// file, which has the stamp `now`, is not the one that was read.
    pub fn has_changed_on_disk(&self, uri: &str, now: Option<DiskStamp>) -> (r: bool)
        ensures
            r == (!self@.documents.contains_key(uri@) && uri_path(uri@) is Some && now != (
            if self@.sources.stamps.contains_key(uri@) {
                Some(self@.sources.stamps[uri@])
            } else {
                None
            })),
    {
        if self.documents.contains(uri) || file_path_of(uri).is_none() {
            return false;
        }
        match (now, self.sources.stamps.get(uri)) {
            (Some(now), Some(read)) => now != *read,
            (None, None) => false,
            _ => true,
        }
    }

    /// Forgets a source that could not be read, and says why.
    pub fn give_up_source(&mut self, uri: &str, path: &FilePath, error: &str, work: &mut Work) -> (r:
        Result<(), Interrupt>)
        requires
            old(self).wf(),
        ensures
            final(self).wf(),
            final(self).same_rest(old(self)),
            final(work).continues(old(work)),
            old(work).unbounded() ==> r is Ok,
            r matches Err(Interrupt::BudgetExceeded) ==> final(work).used_up(),
            r matches Err(Interrupt::BudgetExceeded) ==> !old(work).affords(
                (
                    forget_visits(old(self)@.sources, uri@)
                        + prune_visits(without_source(old(self)@.sources, uri@).store)
                ) as int,
                0,
            ),
            final(self)@ == (WorkspaceView {
                sources: final(self)@.sources,
                log: warned_with(old(self)@.log, unread_text(path@, error@)),
                ..old(self)@
            }),
            r is Ok ==> final(self)@.sources == with_pruned_contexts(
                without_source(old(self)@.sources, uri@),
            ) && final(work).visited(
                old(work),
                (forget_visits(old(self)@.sources, uri@) + prune_visits(
                    without_source(old(self)@.sources, uri@).store,
                )) as int,
            ),
            r is Err ==> partly_forgotten(old(self)@.sources, final(self)@.sources, uri@),
            r == Err::<(), Interrupt>(Interrupt::BudgetExceeded) ==> final(self)@.sources == old(
                self,
            )@.sources || final(self)@.sources == without_source(old(self)@.sources, uri@),
    {
        let ghost before = self@;
        self.log.warn(unread_message(path, error));
        let forgotten = self.sources.remove_indexed(uri, true, work);
        proof {
            assert(self@ =~= (WorkspaceView {
                sources: self@.sources,
                log: warned_with(before.log, unread_text(path@, error@)),
                ..before
            }));
        }
        forgotten
    }
}

} // verus!
