//! What becomes of a workspace as files and options change.

use vstd::prelude::*;

use crate::budget::{
    saturating_sum, ReconciliationBudget, ReconciliationWorkUsed, Work,
    MAX_NOTIFICATION_RECONCILIATION_PATH_VISITS,
};
use crate::cancel::Interrupt;
use crate::contexts::{changed_owners, prune_visits, OwnerChange, StoreView};
use crate::deleted::{with_deleted, DeletedFiles};
use crate::documents::DocumentView;
use crate::edits::RejectReason;
use crate::generations::{marked, next_generation, GenerationsView};
use crate::includes::{lemma_search_visits, search_visits, GraphView, IncludeGraph};
use crate::keymap::{Identity, KeyMap};
use crate::lifecycle::refreshed;
use crate::limits::FileChange;
use crate::names::{
    configuration_path, extension_is, has_extension, has_file_name, is_configuration_path,
    is_immutable_override_file, LOCAL_CONFIG_NAME,
};
use crate::paths::{FilePath, Parts};
use crate::project::DiskStamp;
use crate::records::RecordView;
use crate::renames::endpoints;
use crate::schedule::{later, DiagnosticSchedule, DIAGNOSTIC_DEBOUNCE};
use crate::sources::{
    forget_visits, invalidated, invalidation_visits, lemma_watching_visits_count, open_dependents,
    partly_forgotten, partly_invalidated, rediagnosed, watching, watching_visits, with_pruned_contexts, without_source, Sources,
    SourcesView,
};
use crate::strings::texts;
use crate::strmap::{in_order, StrMap, StrSet};
use crate::uris::{canonical, file_path_of, uri_path};
use crate::workspace::{
    after_global_change, bumped, change_stopped, change_visits, rejected, scheduled, source_changed, Workspace, WorkspaceView,
};

verus! {

/// Nothing is read in any context.
pub open spec fn no_contexts(store: StoreView) -> StoreView {
    StoreView {
        contexts: Map::empty(),
        document_contexts: Map::empty(),
        open_document_contexts: Map::empty(),
        ..store
    }
}

/// The sources once nothing that was derived from files holds: owners are kept, with a
/// change to all of them, and the time goes on.
pub open spec fn nothing_derived(v: SourcesView, change: OwnerChange) -> SourcesView {
    SourcesView {
        sizes: Map::empty(),
        stamps: Map::empty(),
        last_used: Map::empty(),
        clock: v.clock,
        file_cap_warning_sent: false,
        total_cap_warning_sent: false,
        expansions: Map::empty(),
        graph: GraphView { uses: Map::empty(), parents: Map::empty() },
        store: StoreView {
            owners: changed_owners(v.store.owners, change),
            ..no_contexts(v.store)
        },
    }
}

impl Sources {
    /// Forgets everything that was derived from files.
    pub fn forget_derived(&mut self, change: &OwnerChange)
        requires
            old(self).wf(),
        ensures
            final(self).wf(),
            final(self)@ == nothing_derived(old(self)@, *change),
    {
        let ghost before = self@;
        self.contexts.change_owners(change);
        self.sizes = StrMap::new();
        self.bytes = 0;
        self.stamps = StrMap::new();
        self.last_used = StrMap::new();
        self.file_cap_warning_sent = false;
        self.total_cap_warning_sent = false;
        self.includes = IncludeGraph::new();
        self.contexts.contexts = KeyMap::new();
        self.contexts.document_contexts = StrMap::new();
        self.contexts.open_document_contexts = StrMap::new();
        proof {
            assert(self.sizes@.dom() =~= Set::<Seq<char>>::empty());
            assert(self@.store =~= nothing_derived(before, *change).store);
            assert(self@ =~= nothing_derived(before, *change));
        }
    }
}

/// The generations after a change of the workspace as a whole, without what changed before.
pub open spec fn all_changed(v: GenerationsView) -> GenerationsView {
    GenerationsView {
        source_changes: Map::empty(),
        observations: Map::empty(),
        configuration_changes: Map::empty(),
        ..after_global_change(v, true)
    }
}

/// The records, none where they are kept.
pub open spec fn no_records(records: Option<Map<Seq<char>, RecordView>>) -> Option<
    Map<Seq<char>, RecordView>,
> {
    match records {
        Some(_) => Some(Map::empty()),
        None => None,
    }
}

/// The workspace after the first `n` documents of a list, those that are open, were refused.
pub open spec fn all_rejected(
    ws: WorkspaceView,
    list: Seq<Seq<char>>,
    reason: RejectReason,
    with_text: bool,
    now: u64,
    n: int,
) -> WorkspaceView
    decreases n,
{
    if n <= 0 {
        ws
    } else {
        let before = all_rejected(ws, list, reason, with_text, now, n - 1);
        let uri = list[n - 1];
        if before.documents.contains_key(uri) && (!with_text || before.documents[uri].text is Some)
        {
            rejected(before, uri, before.documents[uri].version, reason.text(uri), now)
        } else {
            before
        }
    }
}

/// The workspace after more files changed than could be looked at: nothing that was derived
/// holds, the documents of pending renames are refused, and all are diagnosed again.
pub open spec fn overflowed(ws: WorkspaceView, now: u64) -> WorkspaceView {
    let base = WorkspaceView {
        generations: all_changed(ws.generations),
        renames: Map::empty(),
        sources: nothing_derived(ws.sources, OwnerChange::Revalidate),
        dependencies: Map::empty(),
        deleted: Map::empty(),
        schedule: Map::empty(),
        records: no_records(ws.records),
        ..ws
    };
    let list = in_order(endpoints(ws.renames, ws.renames.dom().len() as int).to_set());
    let told = all_rejected(
        base,
        list,
        RejectReason::RenameOverflow,
        false,
        now,
        list.len() as int,
    );
    let open = in_order(told.documents.dom());
    WorkspaceView {
        schedule: scheduled(told.schedule, open, now, open.len() as int),
        ..told
    }
}

/// The files that were deleted with the first `n` of a list.
pub open spec fn all_deleted(
    deleted: Map<Seq<char>, Option<DiskStamp>>,
    list: Seq<Seq<char>>,
    stamps: Seq<Option<DiskStamp>>,
    n: int,
) -> Map<Seq<char>, Option<DiskStamp>>
    decreases n,
{
    if n <= 0 {
        deleted
    } else {
        with_deleted(all_deleted(deleted, list, stamps, n - 1), list[n - 1], stamps[n - 1])
    }
}

/// The workspace after the account of a batch was used up.
pub open spec fn abandoned(
    ws: WorkspaceView,
    deleted: Set<Seq<char>>,
    stamps: Seq<Option<DiskStamp>>,
    renamed: Set<Seq<char>>,
    now: u64,
) -> WorkspaceView {
    let after = overflowed(ws, now);
    let gone = in_order(deleted);
    let ends = in_order(renamed);
    all_rejected(
        WorkspaceView {
            deleted: all_deleted(after.deleted, gone, stamps, gone.len() as int),
            ..after
        },
        ends,
        RejectReason::RenameAbandoned,
        true,
        now,
        ends.len() as int,
    )
}

fn list_set(list: &Vec<String>) -> (r: StrSet)
    ensures
        r@ == texts(list@).to_set(),
{
    let ghost all = texts(list@);
    let mut members = StrSet::new();
    let mut i: usize = 0;
    proof {
        assert(members@ =~= all.take(0).to_set());
    }
    while i < list.len()
        invariant
            i <= list@.len(),
            all == texts(list@),
            members@ == all.take(i as int).to_set(),
        decreases list@.len() - i,
    {
        let _new = members.insert(list[i].clone());
        proof {
            assert(all[i as int] == list@[i as int]@);
            crate::strmap::lemma_take_set(all, i as int);
        }
        i += 1;
    }
    proof {
        assert(all.take(all.len() as int) =~= all);
    }
    members
}

impl Workspace {
    fn reject_all(&mut self, list: &Vec<String>, reason: RejectReason, with_text: bool, now: u64)
        requires
            old(self).wf(),
        ensures
            final(self).wf(),
            final(self).same_rest(old(self)),
            final(self)@ == all_rejected(
                old(self)@,
                texts(list@),
                reason,
                with_text,
                now,
                list@.len() as int,
            ),
    {
        let ghost start = self@;
        let ghost all = texts(list@);
        let mut i: usize = 0;
        while i < list.len()
            invariant
                i <= list@.len(),
                all == texts(list@),
                self.wf(),
                self.same_rest(old(self)),
                self@ == all_rejected(start, all, reason, with_text, now, i as int),
            decreases list@.len() - i,
        {
            proof {
                assert(all[i as int] == list@[i as int]@);
            }
            let uri = list[i].as_str();
            let version = match self.documents.get(uri) {
                Some(document) => if !with_text || document.text.is_some() {
                    Some(document.version)
                } else {
                    None
                },
                None => None,
            };
            if let Some(version) = version {
                self.reject_open_document(uri, version, reason.message(uri).as_str(), now);
            }
            i += 1;
        }
    }

    /// Diagnoses the documents of a list again, once no change has come for a while.
    pub(crate) fn schedule_all(&mut self, list: &Vec<String>, now: u64)
        requires
            old(self).wf(),
        ensures
            final(self).wf(),
            final(self).same_rest(old(self)),
            final(self)@ == (WorkspaceView {
                schedule: scheduled(
                    old(self)@.schedule,
                    texts(list@),
                    now,
                    list@.len() as int,
                ),
                ..old(self)@
            }),
    {
        let ghost start = self@;
        let ghost all = texts(list@);
        let mut i: usize = 0;
        while i < list.len()
            invariant
                i <= list@.len(),
                all == texts(list@),
                self.wf(),
                self.same_rest(old(self)),
                self@ == (WorkspaceView {
                    schedule: scheduled(start.schedule, all, now, i as int),
                    ..start
                }),
            decreases list@.len() - i,
        {
            let ghost held = self@;
            self.schedule.schedule_diagnostics(list[i].clone(), now);
            proof {
                assert(all[i as int] == list@[i as int]@);
                assert(self@ =~= (WorkspaceView {
                    schedule: scheduled(start.schedule, all, now, i + 1),
                    ..held
                }));
            }
            i += 1;
        }
    }

    fn clear_catalogues(&mut self)
        requires
            old(self).wf(),
        ensures
            final(self).wf(),
            final(self)@ == old(self)@,
            final(self).options == old(self).options,
            final(self).roots == old(self).roots,
            final(self).publications == old(self).publications,
            final(self).selections == old(self).selections,
            final(self).catalogues_empty(),
            final(self).packages.epoch == old(self).packages.epoch,
    {
        let ghost before = self@;
        self.directories.kept.clear();
        self.filenames.kept.clear();
        self.packages.cache.clear();
        self.package_metadata.readings.clear();
        proof {
            assert(self@ =~= before);
        }
    }

    /// Nothing is kept of directories and packages.
    pub open spec fn catalogues_empty(&self) -> bool {
        &&& self.directories.kept@.dom() =~= Set::<Parts>::empty()
        &&& self.filenames.kept@.dom() =~= Set::<Parts>::empty()
        &&& self.packages.cache@.dom() =~= Set::empty()
        &&& self.package_metadata.readings@.dom() =~= Set::empty()
    }

    /// Everything but what is known of documents, sources and directories is the same.
    pub open spec fn same_settings(&self, other: &Self) -> bool {
        &&& self.options == other.options
        &&& self.roots == other.roots
        &&& self.publications == other.publications
        &&& self.selections == other.selections
    }

    /// Forgets everything that was derived from files, after more of them changed than could
    /// be looked at. Documents stay open.
    pub fn invalidate_all_for_file_notification_overflow(&mut self, now: u64)
        requires
            old(self).wf(),
        ensures
            final(self).wf(),
            final(self).same_settings(old(self)),
            final(self).catalogues_empty(),
            final(self)@ == overflowed(old(self)@, now),
    {
        let ghost start = self@;
        self.generations.bump_source_generation();
        self.generations.bump_configuration_generation();
        self.generations.mark_global_change();
        self.generations.clear_changes();
        let uris = self.renames.clear();
        self.sources.forget_derived(&OwnerChange::Revalidate);
        self.dependencies.clear();
        self.deleted = DeletedFiles::new();
        self.schedule = DiagnosticSchedule::new();
        self.records.clear();
        let ghost base = WorkspaceView {
            generations: all_changed(start.generations),
            renames: Map::empty(),
            sources: nothing_derived(start.sources, OwnerChange::Revalidate),
            dependencies: Map::empty(),
            deleted: Map::empty(),
            schedule: Map::empty(),
            records: no_records(start.records),
            ..start
        };
        proof {
            assert(self@ =~= base);
        }
        self.clear_catalogues();
        let ends = list_set(&uris).list();
        proof {
            assert(texts(ends@).len() == ends@.len());
        }
        self.reject_all(&ends, RejectReason::RenameOverflow, false, now);
        let open = self.documents.documents.key_list();
        proof {
            assert(self@.documents.dom() =~= self.documents.documents@.dom());
            assert(texts(open@).len() == open@.len());
        }
        self.schedule_all(&open, now);
    }

    /// Forgets everything that was derived from files, after the account of a batch was used
    /// up. What the batch said was deleted stays deleted: `stamps` are those that these files
    /// have. The documents that it renamed are refused.
    pub fn invalidate_for_reconciliation_budget(
        &mut self,
        budget: &mut ReconciliationBudget,
        stamps: &Vec<Option<DiskStamp>>,
        now: u64,
    )
        requires
            old(self).wf(),
            stamps@.len() == old(budget).deleted_uris@.len(),
        ensures
            final(self).wf(),
            final(self).same_settings(old(self)),
            final(self).catalogues_empty(),
            final(self)@ == abandoned(
                old(self)@,
                old(budget).deleted_uris@,
                stamps@,
                old(budget).rename_endpoints@,
                now,
            ),
            *final(budget) == (ReconciliationBudget {
                recovery_target_reserve: crate::limits::DEFAULT_MAX_FILES,
                recovery_uri_byte_reserve: (crate::limits::DEFAULT_MAX_FILES
                    * crate::limits::MAX_OPEN_DOCUMENT_URI_BYTES) as usize,
                ..*old(budget)
            }),
    {
        budget.reserve_recovery_envelope();
        let gone = budget.deleted_uris.list();
        let ends = budget.rename_endpoints.list();
        self.invalidate_all_for_file_notification_overflow(now);
        let ghost after = self@;
        let ghost list = texts(gone@);
        let mut i: usize = 0;
        proof {
            assert(list.len() == gone@.len());
            assert(list.len() == stamps@.len());
        }
        while i < gone.len()
            invariant
                i <= gone@.len(),
                list == texts(gone@),
                list.len() == gone@.len(),
                list.len() == stamps@.len(),
                self.wf(),
                self.same_settings(old(self)),
                self.catalogues_empty(),
                self@ == (WorkspaceView {
                    deleted: all_deleted(after.deleted, list, stamps@, i as int),
                    ..after
                }),
            decreases gone@.len() - i,
        {
            let ghost held = self@;
            self.deleted.remember_deleted(gone[i].as_str(), stamps[i]);
            proof {
                assert(list[i as int] == gone@[i as int]@);
                assert(self@ =~= (WorkspaceView { deleted: self@.deleted, ..held }));
            }
            i += 1;
        }
        proof {
            assert(texts(ends@).len() == ends@.len());
        }
        self.reject_all(&ends, RejectReason::RenameAbandoned, true, now);
    }
}

/// A file whose changes nothing follows: it is read once.
pub open spec fn override_file(uri: Seq<char>) -> bool {
    uri_path(uri) is Some && has_file_name(uri_path(uri)->0, LOCAL_CONFIG_NAME@)
}

/// What becomes of the overrides that a file holds once it has changed.
#[derive(Clone, Copy, Debug, PartialEq, Eq, Structural)]
pub enum OverrideStep {
    /// They stay as they were read.
    Keep,
    /// They are dropped.
    Remove,
    /// They are read again.
    Refresh,
}

/// What becomes of the overrides of a file that changed: those of a deleted file are dropped,
/// and in a batch those of another are read again.
pub fn override_step(uri: &str, change: FileChange, batched: bool) -> (r: OverrideStep)
    ensures
        r == (if !override_file(uri@) {
            OverrideStep::Keep
        } else if change is Deleted {
            OverrideStep::Remove
        } else if batched {
            OverrideStep::Refresh
        } else {
            OverrideStep::Keep
        }),
{
    let is_override = match file_path_of(uri) {
        Some(path) => is_immutable_override_file(&path),
        None => false,
    };
    if !is_override {
        return OverrideStep::Keep;
    }
    match change {
        FileChange::Deleted => OverrideStep::Remove,
        FileChange::Created | FileChange::Changed => if batched {
            OverrideStep::Refresh
        } else {
            OverrideStep::Keep
        },
    }
}

/// A file whose changes may change what a project consists of.
pub open spec fn configuration_file(uri: Seq<char>) -> bool {
    uri_path(uri) is Some && configuration_path(uri_path(uri)->0)
}

/// The workspace after a change of a source file was noted, and the documents to diagnose
/// again on account of that.
pub open spec fn event_noted(ws: WorkspaceView, uri: Seq<char>, now: u64) -> (
    WorkspaceView,
    Seq<Seq<char>>,
) {
    if override_file(uri) {
        (ws, seq![])
    } else {
        (
            source_changed(bumped(ws), uri, now),
            open_dependents(ws.sources, uri, ws.documents),
        )
    }
}

/// The visits that noting a change of a source file is charged.
pub open spec fn noted_visits(ws: WorkspaceView, uri: Seq<char>) -> int {
    if override_file(uri) {
        0
    } else {
        change_visits(bumped(ws), uri)
    }
}

/// The workspace after a change of a configuration file was noted. In a batch the overrides
/// are read again.
pub open spec fn configuration_noted(ws: WorkspaceView, uri: Seq<char>, batched: bool) -> WorkspaceView {
    if configuration_file(uri) || (override_file(uri) && batched) {
        let configuration = next_generation(ws.generations.configuration);
        WorkspaceView {
            generations: GenerationsView {
                configuration,
                configuration_changes: marked(
                    ws.generations.configuration_changes,
                    uri,
                    configuration,
                    true,
                ),
                ..ws.generations
            },
            ..ws
        }
    } else {
        ws
    }
}

/// The deleted files after an event.
pub open spec fn deletion_noted(
    ws: WorkspaceView,
    uri: Seq<char>,
    change: FileChange,
    stamp: Option<DiskStamp>,
) -> WorkspaceView {
    WorkspaceView {
        deleted: if change is Deleted {
            with_deleted(ws.deleted, uri, stamp)
        } else {
            ws.deleted.remove(uri)
        },
        ..ws
    }
}

/// The workspace after the contexts that watch a file were forgotten.
pub open spec fn metadata_noted(ws: WorkspaceView, uri: Seq<char>) -> WorkspaceView {
    match uri_path(uri) {
        Some(path) => WorkspaceView {
            sources: invalidated(ws.sources, watching(ws.sources.store, path), ws.documents),
            ..ws
        },
        None => ws,
    }
}

/// The open documents that were read in contexts which watch a file.
pub open spec fn metadata_owners(ws: WorkspaceView, uri: Seq<char>) -> Seq<Seq<char>> {
    match uri_path(uri) {
        Some(path) => rediagnosed(ws.sources, watching(ws.sources.store, path), ws.documents),
        None => seq![],
    }
}

/// The path visits that noting the contexts which watch a file is charged.
pub open spec fn metadata_visits(ws: WorkspaceView, uri: Seq<char>) -> int {
    match uri_path(uri) {
        Some(path) => watching_visits(ws.sources.store, path) + invalidation_visits(
            ws.sources,
            watching(ws.sources.store, path),
            ws.documents,
        ),
        None => 0,
    }
}

/// The path visits that the event of a file is charged.
pub open spec fn event_visits(
    ws: WorkspaceView,
    uri: Seq<char>,
    change: FileChange,
    stamp: Option<DiskStamp>,
    batched: bool,
    now: u64,
) -> int {
    let noted = deletion_noted(
        configuration_noted(event_noted(ws, uri, now).0, uri, batched),
        uri,
        change,
        stamp,
    );
    1 + noted_visits(ws, uri) + metadata_visits(noted, uri)
}

proof fn lemma_metadata_visits(ws: WorkspaceView, uri: Seq<char>)
    ensures
        metadata_visits(ws, uri) >= 0,
{
    if let Some(path) = uri_path(uri) {
        lemma_watching_visits_count(ws.sources.store, path);
    }
}

/// What an event leads to before anything is read again.
pub open spec fn event_taken(
    ws: WorkspaceView,
    uri: Seq<char>,
    change: FileChange,
    stamp: Option<DiskStamp>,
    batched: bool,
    now: u64,
) -> WorkspaceView {
    let noted = deletion_noted(
        configuration_noted(event_noted(ws, uri, now).0, uri, batched),
        uri,
        change,
        stamp,
    );
    let known = metadata_noted(noted, uri);
    if known.documents.contains_key(uri) {
        WorkspaceView {
            schedule: known.schedule.insert(uri, later(now, DIAGNOSTIC_DEBOUNCE)),
            ..known
        }
    } else {
        known
    }
}

/// The contexts that watch a file were being forgotten when the work was stopped.
pub open spec fn metadata_stopped(ws: WorkspaceView, after: WorkspaceView, uri: Seq<char>) -> bool {
    &&& uri_path(uri) is Some
    &&& after == (WorkspaceView { sources: after.sources, ..ws })
    &&& partly_invalidated(
        ws.sources,
        after.sources,
        watching(ws.sources.store, uri_path(uri)->0),
        ws.documents,
    )
}

/// An event was stopped: before anything was changed, while the change of the source was
/// noted, or while the contexts that watch the file were forgotten.
pub open spec fn event_stopped(
    ws: WorkspaceView,
    after: WorkspaceView,
    uri: Seq<char>,
    change: FileChange,
    stamp: Option<DiskStamp>,
    batched: bool,
    now: u64,
) -> bool {
    ||| after == ws
    ||| !override_file(uri) && change_stopped(bumped(ws), after, uri, now)
    ||| metadata_stopped(
        deletion_noted(
            configuration_noted(event_noted(ws, uri, now).0, uri, batched),
            uri,
            change,
            stamp,
        ),
        after,
        uri,
    )
}

/// The path visits of an event before a source is forgotten: its own, and the search for
/// what includes the file.
pub open spec fn unchanging_visits(ws: WorkspaceView, uri: Seq<char>) -> int {
    1 + if override_file(uri) {
        0
    } else {
        search_visits(ws.sources.graph.parents, canonical(uri))
    }
}

/// What is left to do after an event.
#[derive(Debug)]
pub struct FileEvent {
    /// The documents to diagnose again so far.
    pub diagnostics: Vec<String>,
    /// The documents whose contexts have to be looked for again; none where the file is
    /// open, and the event is dealt with.
    pub owners: Option<Vec<String>>,
}

/// The documents of the first `n` of a list that were not among others, added to these.
pub open spec fn with_others(list: Seq<Seq<char>>, more: Seq<Seq<char>>, n: int) -> Seq<Seq<char>>
    decreases n,
{
    if n <= 0 {
        list
    } else {
        let before = with_others(list, more, n - 1);
        if before.contains(more[n - 1]) {
            before
        } else {
            before.push(more[n - 1])
        }
    }
}

/// The open documents with a text, of the first `n`.
pub open spec fn texts_open(documents: Map<Seq<char>, DocumentView>, n: int) -> Seq<Seq<char>>
    decreases n,
{
    if n <= 0 {
        seq![]
    } else {
        let uri = in_order(documents.dom())[n - 1];
        if documents[uri].text is Some {
            texts_open(documents, n - 1).push(uri)
        } else {
            texts_open(documents, n - 1)
        }
    }
}

/// The documents that a change of a file may concern as a whole.
pub open spec fn configured_documents(ws: WorkspaceView, uri: Seq<char>) -> Seq<Seq<char>> {
    if configuration_file(uri) {
        texts_open(ws.documents, ws.documents.dom().len() as int)
    } else {
        seq![]
    }
}

/// What the rest of an event leads to, once the documents that were read in its contexts
/// were loaded again.
pub open spec fn event_finished(
    ws: WorkspaceView,
    uri: Seq<char>,
    change: FileChange,
    now: u64,
) -> WorkspaceView {
    let all = configured_documents(ws, uri);
    let told = WorkspaceView {
        schedule: scheduled(ws.schedule, all, now, all.len() as int),
        ..ws
    };
    if change is Deleted {
        WorkspaceView {
            sources: with_pruned_contexts(without_source(told.sources, uri)),
            ..told
        }
    } else {
        refreshed(told, uri)
    }
}

/// The visits that the rest of an event is charged.
pub open spec fn finish_visits(ws: WorkspaceView, uri: Seq<char>, change: FileChange) -> int {
    if change is Deleted || !ws.sources.store.document_contexts.contains_key(uri) {
        (forget_visits(ws.sources, uri) + prune_visits(
            without_source(ws.sources, uri).store,
        )) as int
    } else {
        0
    }
}

/// The event of a file was charged on the account, if there is one, and `visits` path
/// visits were.
pub open spec fn event_charged(
    before: Work,
    after: Work,
    path: Option<Parts>,
    visits: int,
) -> bool {
    before.budget is Some ==> {
        let used = before.budget->0.used;
        let descriptor = path is Some && has_extension(path->0, "dpk"@);
        &&& after.budget is Some
        &&& after.budget->0.used == (ReconciliationWorkUsed {
            filesystem_path_visits: (used.filesystem_path_visits + visits) as usize,
            package_path_visits: if descriptor {
                saturating_sum(used.package_path_visits as int, 1) as usize
            } else {
                used.package_path_visits
            },
            file_event_path_visits: saturating_sum(
                used.file_event_path_visits as int,
                1,
            ) as usize,
            ..used
        })
        &&& used.filesystem_path_visits + visits <= MAX_NOTIFICATION_RECONCILIATION_PATH_VISITS
        &&& after.budget->0.exhausted == before.budget->0.exhausted
        &&& !before.budget->0.exhausted
    }
}

fn charge_event(path: Option<&FilePath>, work: &mut Work) -> (r: Result<(), Interrupt>)
    ensures
        final(work).continues(old(work)),
        old(work).budget is None ==> r is Ok,
        r matches Err(Interrupt::BudgetExceeded) ==> final(work).used_up(),
        r matches Err(Interrupt::BudgetExceeded) ==> !old(work).affords(1, 0),
        r is Ok ==> event_charged(
            *old(work),
            *final(work),
            match path {
                Some(path) => Some(path@),
                None => None,
            },
            1,
        ),
{
    match work.budget.take() {
        Some(mut budget) => {
            let package_descriptor = match path {
                Some(path) => extension_is(path, "dpk"),
                None => false,
            };
            let charged = budget.charge_file_event_path_visit(package_descriptor);
            work.budget = Some(budget);
            charged
        },
        None => Ok(()),
    }
}

impl Workspace {
    /// Nothing that the client said is lost: its documents, what it was refused, and the
    /// renames it was offered.
    pub open spec fn keeps_documents(&self, other: &Self) -> bool {
        &&& self@.documents == other@.documents
        &&& self@.fence == other@.fence
        &&& self@.fence_permanent == other@.fence_permanent
        &&& self@.renames == other@.renames
        &&& self@.records == other@.records
        &&& self@.dependencies == other@.dependencies
        &&& self@.log == other@.log
    }

    fn note_event(&mut self, uri: &str, now: u64, work: &mut Work) -> (r: Result<
        Vec<String>,
        Interrupt,
    >)
        requires
            old(self).wf(),
        ensures
            final(self).wf(),
            final(self).same_rest(old(self)),
            final(self).keeps_documents(old(self)),
            final(work).continues(old(work)),
            old(work).unbounded() ==> r is Ok,
            r matches Err(Interrupt::BudgetExceeded) ==> final(work).used_up(),
            r matches Err(Interrupt::BudgetExceeded) ==> !old(work).affords(
                noted_visits(old(self)@, uri@),
                0,
            ),
            r is Ok ==> (final(self)@, texts(r->Ok_0@)) == event_noted(old(self)@, uri@, now),
            r is Ok ==> final(work).visited(old(work), noted_visits(old(self)@, uri@)),
            r is Err ==> !override_file(uri@) && change_stopped(
                bumped(old(self)@),
                final(self)@,
                uri@,
                now,
            ),
            !override_file(uri@) && !old(work).has_room(
                search_visits(old(self)@.sources.graph.parents, canonical(uri@)),
            ) ==> r is Err && final(self)@ == bumped(old(self)@),
            r is Err && old(work).budget is Some && final(work).visits() < old(work).visits()
                + search_visits(old(self)@.sources.graph.parents, canonical(uri@))
                ==> final(self)@ == bumped(old(self)@),
    {
        let is_override = match file_path_of(uri) {
            Some(path) => is_immutable_override_file(&path),
            None => false,
        };
        if is_override {
            let none: Vec<String> = Vec::new();
            proof {
                assert(texts(none@) =~= seq![]);
            }
            return Ok(none);
        }
        self.bump_source_generation();
        self.mark_source_change(uri, now, work)
    }

    fn note_configuration(&mut self, uri: &str, batched: bool)
        requires
            old(self).wf(),
        ensures
            final(self).wf(),
            final(self).same_rest(old(self)),
            final(self).keeps_documents(old(self)),
            final(self)@ == configuration_noted(old(self)@, uri@, batched),
    {
        let ghost before = self@;
        let path = file_path_of(uri);
        let is_override = match &path {
            Some(path) => is_immutable_override_file(path),
            None => false,
        };
        if is_configuration_path(path.as_ref()) || (is_override && batched) {
            self.generations.bump_configuration_generation();
            self.generations.mark_configuration_change(uri, true);
        }
        proof {
            assert(self@ =~= configuration_noted(before, uri@, batched));
        }
    }

    fn note_deletion(&mut self, uri: &str, change: FileChange, stamp: Option<DiskStamp>)
        requires
            old(self).wf(),
        ensures
            final(self).wf(),
            final(self).same_rest(old(self)),
            final(self).keeps_documents(old(self)),
            final(self)@ == deletion_noted(old(self)@, uri@, change, stamp),
    {
        let ghost before = self@;
        match change {
            FileChange::Deleted => {
                self.deleted.remember_deleted(uri, stamp);
            },
            FileChange::Created | FileChange::Changed => {
                self.deleted.forget(uri);
            },
        }
        proof {
            assert(self@ =~= deletion_noted(before, uri@, change, stamp));
        }
    }

    fn note_metadata(&mut self, uri: &str, work: &mut Work) -> (r: Result<Vec<String>, Interrupt>)
        requires
            old(self).wf(),
        ensures
            final(self).wf(),
            final(self).same_rest(old(self)),
            final(self).keeps_documents(old(self)),
            final(work).continues(old(work)),
            old(work).unbounded() ==> r is Ok,
            r matches Err(Interrupt::BudgetExceeded) ==> final(work).used_up(),
            r is Ok ==> final(self)@ == metadata_noted(old(self)@, uri@),
            r is Ok ==> texts(r->Ok_0@) == metadata_owners(old(self)@, uri@),
            metadata_visits(old(self)@, uri@) >= 0,
            r matches Err(Interrupt::BudgetExceeded) ==> !old(work).affords(
                metadata_visits(old(self)@, uri@),
                0,
            ),
            r is Ok ==> final(work).visited(old(work), metadata_visits(old(self)@, uri@)),
            r is Err ==> metadata_stopped(old(self)@, final(self)@, uri@),
    {
        proof {
            lemma_metadata_visits(self@, uri@);
        }
        let ghost before = self@;
        let owners = self.sources.invalidate_metadata_for_uri(uri, &self.documents, work);
        proof {
            assert(self@ =~= (WorkspaceView { sources: self@.sources, ..before }));
            if owners is Ok && uri_path(uri@) is None {
                assert(texts(owners->Ok_0@) =~= seq![]);
                assert(self@ =~= before);
            }
        }
        owners
    }

    /// Takes the event of a file. `stamp` is the one that the file has. Where the file is
    /// open, the text of its document counts, and nothing more has to be done. What includes
    /// the file is looked for before any source is forgotten.
    #[verifier::rlimit(60)]
    pub fn file_event(
        &mut self,
        uri: &str,
        change: FileChange,
        stamp: Option<DiskStamp>,
        now: u64,
        work: &mut Work,
    ) -> (r: Result<FileEvent, Interrupt>)
        requires
            old(self).wf(),
        ensures
            final(self).wf(),
            final(self).same_rest(old(self)),
            final(self).keeps_documents(old(self)),
            final(work).continues(old(work)),
            old(work).unbounded() ==> r is Ok,
            r matches Err(Interrupt::BudgetExceeded) ==> final(work).used_up(),
            r matches Err(Interrupt::BudgetExceeded) ==> !old(work).affords(
                event_visits(old(self)@, uri@, change, stamp, old(work).budget is Some, now),
                0,
            ),
            r is Ok ==> ({
                let before = old(self)@;
                let batched = old(work).budget is Some;
                let told = event_noted(before, uri@, now);
                let open = before.documents.contains_key(uri@);
                &&& final(self)@ == event_taken(before, uri@, change, stamp, batched, now)
                &&& texts(r->Ok_0.diagnostics@) == (if open {
                    told.1.push(uri@)
                } else {
                    told.1
                })
                &&& match r->Ok_0.owners {
                    Some(owners) => !open && texts(owners@) == metadata_owners(
                        deletion_noted(
                            configuration_noted(told.0, uri@, batched),
                            uri@,
                            change,
                            stamp,
                        ),
                        uri@,
                    ),
                    None => open,
                }
                &&& event_charged(
                    *old(work),
                    *final(work),
                    uri_path(uri@),
                    event_visits(before, uri@, change, stamp, batched, now),
                )
            }),
            !old(work).has_room(unchanging_visits(old(self)@, uri@)) ==> r is Err
                && final(self)@.sources == old(self)@.sources,
            r is Err && old(work).budget is Some && final(work).visits() < old(work).visits()
                + unchanging_visits(old(self)@, uri@) ==> final(self)@.sources == old(
                self,
            )@.sources,
            r is Err ==> event_stopped(
                old(self)@,
                final(self)@,
                uri@,
                change,
                stamp,
                old(work).budget is Some,
                now,
            ),
    {
        let path = file_path_of(uri);
        proof {
            lemma_search_visits(self@.sources.graph.parents, canonical(uri@));
            lemma_metadata_visits(
                deletion_noted(
                    configuration_noted(
                        event_noted(self@, uri@, now).0,
                        uri@,
                        work.budget is Some,
                    ),
                    uri@,
                    change,
                    stamp,
                ),
                uri@,
            );
        }
        work.check()?;
        let batched = work.budget.is_some();
        charge_event(path.as_ref(), work)?;
        let mut diagnostics = self.note_event(uri, now, work)?;
        self.note_configuration(uri, batched);
        self.note_deletion(uri, change, stamp);
        let owners = self.note_metadata(uri, work)?;
        if self.documents.contains(uri) {
            let ghost known = self@;
            self.schedule.schedule_diagnostics(uri.to_owned(), now);
            let ghost held = diagnostics@;
            let own = uri.to_owned();
            diagnostics.push(own);
            proof {
                assert(texts(diagnostics@) =~= texts(held).push(uri@));
                assert(self@ =~= (WorkspaceView {
                    schedule: known.schedule.insert(uri@, later(now, DIAGNOSTIC_DEBOUNCE)),
                    ..known
                }));
            }
            return Ok(FileEvent { diagnostics, owners: None });
        }
        Ok(FileEvent { diagnostics, owners: Some(owners) })
    }

    /// Whether a source is kept: it is indexed, or open with a text.
    pub fn is_retained(&self, uri: &str) -> (r: bool)
        ensures
            r == (self@.sources.sizes.contains_key(uri@) || (self@.documents.contains_key(uri@)
                && self@.documents[uri@].text is Some)),
    {
        self.sources.is_indexed(uri) || match self.documents.get(uri) {
            Some(document) => document.text.is_some(),
            None => false,
        }
    }

    fn open_texts(&self) -> (r: Vec<String>)
        ensures
            texts(r@) == texts_open(self@.documents, self@.documents.dom().len() as int),
    {
        let ghost all = self@.documents;
        let n: usize = self.documents.documents.len();
        let ghost keys = self.documents.documents.keys();
        proof {
            assert(all.dom() =~= self.documents.documents@.dom());
        }
        let mut list: Vec<String> = Vec::new();
        let mut i: usize = 0;
        proof {
            assert(texts(list@) =~= seq![]);
        }
        while i < n
            invariant
                i <= n,
                n == keys.len(),
                all == self@.documents,
                keys == self.documents.documents.keys(),
                keys == in_order(all.dom()),
                texts(list@) == texts_open(all, i as int),
            decreases n - i,
        {
            let document = self.documents.documents.value_at(i);
            proof {
                assert(all[keys[i as int]] == document@);
            }
            if document.text.is_some() {
                let ghost held = list@;
                let uri = self.documents.documents.key_at(i).clone();
                list.push(uri);
                proof {
                    assert(texts(list@) =~= texts(held).push(uri@));
                }
            }
            i += 1;
        }
        list
    }

    /// Ends the event of a file that is not open. `diagnostics` are the documents to
    /// diagnose again so far, and `reloaded` those that were loaded again. Returns all
    /// documents to diagnose again; the file itself has to be loaded from disk where it was
    /// not deleted and is read in a context.
    pub fn finish_file_event(
        &mut self,
        uri: &str,
        change: FileChange,
        diagnostics: Vec<String>,
        reloaded: &Vec<String>,
        now: u64,
        work: &mut Work,
    ) -> (r: Result<Vec<String>, Interrupt>)
        requires
            old(self).wf(),
        ensures
            final(self).wf(),
            final(self).same_rest(old(self)),
            final(self).keeps_documents(old(self)),
            final(work).continues(old(work)),
            old(work).unbounded() ==> r is Ok,
            r matches Err(Interrupt::BudgetExceeded) ==> final(work).used_up(),
            r matches Err(Interrupt::BudgetExceeded) ==> !old(work).affords(
                finish_visits(old(self)@, uri@, change),
                0,
            ),
            r is Ok ==> {
                &&& final(self)@ == event_finished(old(self)@, uri@, change, now)
                &&& texts(r->Ok_0@) == with_others(
                    texts(diagnostics@),
                    texts(reloaded@),
                    reloaded@.len() as int,
                ) + configured_documents(old(self)@, uri@)
                &&& final(work).visited(old(work), finish_visits(old(self)@, uri@, change))
            },
            r is Err ==> {
                let all = configured_documents(old(self)@, uri@);
                &&& final(self)@ == (WorkspaceView {
                    sources: final(self)@.sources,
                    schedule: scheduled(old(self)@.schedule, all, now, all.len() as int),
                    ..old(self)@
                })
                &&& partly_forgotten(old(self)@.sources, final(self)@.sources, uri@)
            },
    {
        let ghost start = self@;
        let ghost first = texts(diagnostics@);
        let ghost others = texts(reloaded@);
        let mut told = diagnostics;
        let mut i: usize = 0;
        while i < reloaded.len()
            invariant
                i <= reloaded@.len(),
                others == texts(reloaded@),
                texts(told@) == with_others(first, others, i as int),
                *self == *old(self),
                *work == *old(work),
            decreases reloaded@.len() - i,
        {
            proof {
                assert(others[i as int] == reloaded@[i as int]@);
            }
            if !crate::strings::list_contains(&told, reloaded[i].as_str()) {
                let ghost held = told@;
                let copied = reloaded[i].clone();
                told.push(copied);
                proof {
                    assert(texts(told@) =~= texts(held).push(copied@));
                }
            }
            i += 1;
        }
        let ghost gathered = texts(told@);
        let path = file_path_of(uri);
        if is_configuration_path(path.as_ref()) {
            let mut all = self.open_texts();
            proof {
                assert(texts(all@).len() == all@.len());
            }
            self.schedule_all(&all, now);
            let ghost held = told@;
            let ghost added = all@;
            told.append(&mut all);
            proof {
                assert(texts(told@) =~= texts(held) + texts(added));
            }
        } else {
            proof {
                assert(gathered + seq![] =~= gathered);
            }
        }
        let ghost told_view = self@;
        match change {
            FileChange::Deleted => {
                let forgotten = self.sources.remove_indexed(uri, true, work);
                proof {
                    assert(self@ =~= (WorkspaceView { sources: self@.sources, ..told_view }));
                }
                forgotten?;
            },
            FileChange::Created | FileChange::Changed => {
                work.check()?;
                if !self.sources.contexts.document_contexts.contains_key(uri) {
                    let forgotten = self.sources.remove_indexed(uri, true, work);
                    proof {
                        assert(self@ =~= (WorkspaceView { sources: self@.sources, ..told_view }));
                    }
                    forgotten?;
                }
            },
        }
        Ok(told)
    }
}

} // verus!
