//! A workspace: the documents that a client has open, the sources that are kept, and what
//! is known of the projects that they belong to.

use vstd::prelude::*;

use crate::budget::Work;
use crate::cancel::Interrupt;
use crate::contexts::{known_origin, owner_clock, pruned, with_owner, StoreView};
use crate::deleted::DeletedFiles;
use crate::documents::{
    document_whole, text_bytes, total_text_bytes, DocumentView, OpenDocument, OpenDocuments, OpenFence,
    MAX_REJECTED_OPEN_FENCE_URIS, MAX_REJECTED_OPEN_FENCE_URI_BYTES,
};
use crate::edits::{RejectReason, TextRoom};
use crate::excludes::{compile_exclude_patterns, compiled, set_patterns, WorkspaceRoot};
use crate::filenames::{DirectoryCatalogues, FilenameCatalogues};
use crate::freshness::{rebound, selected_key};
use crate::generations::{
    next_generation, partly_marked, source_mark_visits, source_marked, Generations, GenerationsView,
};
use crate::formatting::{FormatRun, FormatStage, FormatView};
use crate::includes::{lemma_search_visits, search_visits};
use crate::keymap::{Identity, KeyMap};
use crate::navigation::{NavigationRun, NavigationStage, NavigationView};
use crate::limits::{ResourceLimits, MAX_OPEN_DOCUMENTS, MAX_OPEN_DOCUMENT_URI_BYTES};
use crate::package_watch::PackageMetadata;
use crate::packages::PackageCatalogues;
use crate::paths::{FilePath, Parts};
use crate::project::{ContextKey, DiskStamp, KeyView};
use crate::publications::{Publications, Report};
use crate::records::{AnalysisRecords, RecordView};
use crate::renames::{PendingRenames, PendingView};
use crate::schedule::{
    due_of, later, request_views, requests_of, time_left, DiagnosticSchedule, DIAGNOSTIC_DEBOUNCE,
};
use crate::selection::Selections;
use crate::settings::{WorkspaceOptions, WorkspaceOptionsView};
use crate::sorting::views;
use crate::sources::{
    capped, concerned_roots, dependents_visits, has_space, no_sources, open_dependents, over_bytes,
    over_files, stopped_forgetting, with_pruned_contexts, with_space, without_dependents, without_source, Sources, SourcesView,
};
use crate::staleness::DiagnosticDependencies;
use crate::strings::{byte_len, byte_length, concat, concat3, decimal, texts, to_decimal};
use crate::strmap::{in_order, lemma_deep_insert, lemma_deep_remove, StrSet};
use crate::sums::{lemma_sum_bounds, lemma_sum_insert};
use crate::uris::canonical;
use crate::warnings::{warned_with, warned_with_all, WarningLog};

verus! {

/// A workspace.
pub struct Workspace {
    pub options: WorkspaceOptions,
    pub roots: Vec<WorkspaceRoot>,
    pub documents: OpenDocuments,
    pub fence: OpenFence,
    pub renames: PendingRenames,
    pub sources: Sources,
    pub schedule: DiagnosticSchedule,
    pub publications: Publications,
    pub deleted: DeletedFiles,
    pub log: WarningLog,
    pub generations: Generations,
    pub records: AnalysisRecords,
    pub dependencies: DiagnosticDependencies,
    pub directories: DirectoryCatalogues,
    pub filenames: FilenameCatalogues,
    pub packages: PackageCatalogues,
    pub package_metadata: PackageMetadata,
    pub selections: Selections,
}

/// What a workspace knows of documents and sources.
#[verifier::ext_equal]
pub struct WorkspaceView {
    pub documents: Map<Seq<char>, DocumentView>,
    pub fence: Set<Seq<char>>,
    pub fence_permanent: bool,
    pub renames: Map<Seq<char>, PendingView>,
    pub sources: SourcesView,
    pub schedule: Map<Seq<char>, u64>,
    pub deleted: Map<Seq<char>, Option<DiskStamp>>,
    pub log: Seq<Seq<char>>,
    pub generations: GenerationsView,
    pub records: Option<Map<Seq<char>, RecordView>>,
    pub dependencies: Map<Seq<char>, Seq<RecordView>>,
    pub limits: ResourceLimits,
    pub project_configured: bool,
}

impl View for Workspace {
    type V = WorkspaceView;

    open spec fn view(&self) -> WorkspaceView {
        WorkspaceView {
            documents: self.documents@,
            fence: self.fence.uris@,
            fence_permanent: self.fence.permanent,
            renames: self.renames@,
            sources: self.sources@,
            schedule: self.schedule@,
            deleted: self.deleted@,
            log: self.log@,
            generations: self.generations@,
            records: self.records@,
            dependencies: self.dependencies@,
            limits: self.options.limits,
            project_configured: self.options.project_file is Some,
        }
    }
}

/// The message with which a further document is refused.
pub open spec fn tracking_limit_text() -> Seq<char> {
    "open document tracking limit ("@ + decimal(MAX_OPEN_DOCUMENTS as nat) + ") reached"@
}

/// The message with which a document is refused for its URI.
pub open spec fn uri_limit_text(bytes: nat) -> Seq<char> {
    "document URI is "@ + decimal(bytes) + " bytes; the notification recovery limit is "@
        + decimal(MAX_OPEN_DOCUMENT_URI_BYTES as nat) + " bytes"@
}

/// A document is open already, or there is room for one more, and its URI is short enough.
pub open spec fn admitted(ws: WorkspaceView, uri: Seq<char>) -> bool {
    &&& byte_len(uri) <= MAX_OPEN_DOCUMENT_URI_BYTES
    &&& ws.documents.contains_key(uri) || ws.documents.dom().len() < MAX_OPEN_DOCUMENTS
}

/// A refusal that can be kept in mind.
pub open spec fn fits_fence(fence: Set<Seq<char>>, uri: Seq<char>) -> bool {
    &&& byte_len(uri) <= MAX_REJECTED_OPEN_FENCE_URI_BYTES
    &&& fence.contains(uri) || fence.len() < MAX_REJECTED_OPEN_FENCE_URIS
}

/// The generations after a change of the workspace as a whole.
pub open spec fn after_global_change(v: GenerationsView, configuration: bool) -> GenerationsView {
    let source = next_generation(v.source);
    let configured = if configuration {
        next_generation(v.configuration)
    } else {
        v.configuration
    };
    GenerationsView {
        source,
        configuration: configured,
        global_source: source,
        global_configuration: configured,
        ..v
    }
}

/// The workspace after the opening of a document was refused for want of room: the editor
/// has a text that the workspace does not know, and nothing computed before holds.
pub open spec fn fenced(ws: WorkspaceView, uri: Seq<char>) -> WorkspaceView {
    let fits = fits_fence(ws.fence, uri);
    WorkspaceView {
        fence: if fits {
            ws.fence.insert(uri)
        } else {
            ws.fence
        },
        fence_permanent: ws.fence_permanent || !fits,
        generations: after_global_change(ws.generations, false),
        ..ws
    }
}

/// The workspace in a new source generation.
pub open spec fn bumped(ws: WorkspaceView) -> WorkspaceView {
    WorkspaceView {
        generations: GenerationsView {
            source: next_generation(ws.generations.source),
            ..ws.generations
        },
        ..ws
    }
}

/// The deadlines with those of the first `n` of a list put off.
pub open spec fn scheduled(
    schedule: Map<Seq<char>, u64>,
    list: Seq<Seq<char>>,
    now: u64,
    n: int,
) -> Map<Seq<char>, u64>
    decreases n,
{
    if n <= 0 {
        schedule
    } else {
        scheduled(schedule, list, now, n - 1).insert(list[n - 1], later(now, DIAGNOSTIC_DEBOUNCE))
    }
}

/// The workspace after a change of a source was noted: what includes it is forgotten, and
/// the open documents among that are diagnosed again.
pub open spec fn source_changed(ws: WorkspaceView, uri: Seq<char>, now: u64) -> WorkspaceView {
    let told = open_dependents(ws.sources, uri, ws.documents);
    WorkspaceView {
        sources: without_dependents(ws.sources, uri),
        generations: source_marked(ws.generations, uri),
        schedule: scheduled(ws.schedule, told, now, told.len() as int),
        ..ws
    }
}

/// Noting a change of a source was stopped: while what includes it was forgotten, or before
/// its path was observed, or while the open documents among that were put on the schedule.
pub open spec fn change_stopped(
    ws: WorkspaceView,
    after: WorkspaceView,
    uri: Seq<char>,
    now: u64,
) -> bool {
    let told = open_dependents(ws.sources, uri, ws.documents);
    let sources = without_dependents(ws.sources, uri);
    ||| after == (WorkspaceView { sources: after.sources, ..ws }) && stopped_forgetting(
        ws.sources,
        after.sources,
        in_order(concerned_roots(ws.sources, uri)),
    )
    ||| after == (WorkspaceView { sources, generations: after.generations, ..ws })
        && partly_marked(ws.generations, after.generations, uri)
    ||| exists|n: int|
        0 <= n <= told.len() && after == (WorkspaceView {
            sources,
            generations: source_marked(ws.generations, uri),
            schedule: #[trigger] scheduled(ws.schedule, told, now, n),
            ..ws
        })
}

/// The visits that noting a change of a source is charged.
pub open spec fn change_visits(ws: WorkspaceView, uri: Seq<char>) -> int {
    dependents_visits(ws.sources, uri) + source_mark_visits(ws.generations, uri) + open_dependents(
        ws.sources,
        uri,
        ws.documents,
    ).len()
}

/// The sources after a document was refused: it is not indexed, and not read in any context.
pub open spec fn without_document(v: SourcesView, uri: Seq<char>) -> SourcesView {
    let gone = with_pruned_contexts(without_source(v, uri));
    SourcesView {
        store: StoreView {
            open_document_contexts: gone.store.open_document_contexts.remove(uri),
            ..gone.store
        },
        ..gone
    }
}

/// The workspace after a document was refused. The refusal is due to be reported at once.
pub open spec fn rejected(
    ws: WorkspaceView,
    uri: Seq<char>,
    version: i32,
    reason: Seq<char>,
    now: u64,
) -> WorkspaceView {
    if !admitted(ws, uri) {
        fenced(ws, uri)
    } else {
        let noted = source_changed(bumped(ws), uri, now);
        WorkspaceView {
            documents: noted.documents.insert(
                uri,
                DocumentView {
                    text: None,
                    version,
                    rejection: Some("document rejected: "@ + reason),
                    identity_generation: noted.generations.source,
                },
            ),
            sources: without_document(noted.sources, uri),
            schedule: noted.schedule.insert(uri, now),
            ..noted
        }
    }
}

/// The sources after a document was opened in a context.
pub open spec fn read_in(
    v: SourcesView,
    documents: Map<Seq<char>, DocumentView>,
    uri: Seq<char>,
    key: KeyView,
    owned: bool,
    project_configured: bool,
) -> SourcesView {
    let opened = StoreView {
        open_document_contexts: v.store.open_document_contexts.insert(uri, key),
        ..v.store
    };
    let bound = rebound(opened, documents, uri, key, owned);
    let selected = selected_key(bound, uri);
    let known = with_owner(
        bound,
        documents,
        uri,
        selected,
        known_origin(bound, documents, uri, selected, project_configured),
        v.clock,
    );
    SourcesView {
        stamps: v.stamps.remove(uri),
        store: pruned(known),
        clock: owner_clock(bound, selected, v.clock),
        ..v
    }
}

/// The context that an open document is read in, and whether it is the one of its owner.
pub struct DocumentContext<'a> {
    pub key: &'a ContextKey,
    pub owned: bool,
}

/// The workspace after a document got a text. A document that goes on keeps its identity.
pub open spec fn accepted(
    ws: WorkspaceView,
    uri: Seq<char>,
    text: Seq<char>,
    version: i32,
    key: KeyView,
    owned: bool,
    goes_on: bool,
    now: u64,
) -> WorkspaceView {
    let noted = source_changed(bumped(ws), uri, now);
    let identity_generation = if goes_on && noted.documents.contains_key(uri) {
        noted.documents[uri].identity_generation
    } else {
        noted.generations.source
    };
    let documents = noted.documents.insert(
        uri,
        DocumentView { text: Some(text), version, rejection: None, identity_generation },
    );
    WorkspaceView {
        documents,
        sources: read_in(noted.sources, documents, uri, key, owned, noted.project_configured),
        schedule: noted.schedule.insert(uri, later(now, DIAGNOSTIC_DEBOUNCE)),
        ..noted
    }
}

/// What the other documents leave for the text of one.
pub open spec fn room_of(ws: WorkspaceView, uri: Seq<char>) -> TextRoom {
    TextRoom {
        limits: ws.limits,
        open_text_bytes: total_text_bytes(ws.documents) as usize,
        previous_bytes: (if ws.documents.contains_key(uri) {
            text_bytes(ws.documents[uri])
        } else {
            0
        }) as usize,
    }
}

/// The bytes of all texts can be counted once a document has a text.
pub open spec fn fits_machine(ws: WorkspaceView, uri: Seq<char>, text: Seq<char>) -> bool {
    total_text_bytes(ws.documents) - (if ws.documents.contains_key(uri) {
        text_bytes(ws.documents[uri])
    } else {
        0
    }) + byte_len(text) <= usize::MAX
}

/// The bytes of all texts once that of one document takes `incoming`.
pub open spec fn bytes_after(ws: WorkspaceView, uri: Seq<char>, incoming: int) -> int {
    capped(
        total_text_bytes(ws.documents) - (if ws.documents.contains_key(uri) {
            text_bytes(ws.documents[uri])
        } else {
            0
        }) + incoming,
    )
}

/// The workspace after room was made for the text of a document, and whether there is room.
pub open spec fn room_made(ws: WorkspaceView, uri: Seq<char>, size: usize) -> (WorkspaceView, bool) {
    let additional = bytes_after(ws, uri, size as int) as usize;
    let after = with_space(
        ws.sources,
        Set::empty().insert(uri),
        ws.documents,
        uri,
        size,
        additional,
        ws.limits,
    );
    if has_space(after, uri, size, additional, ws.limits) {
        (WorkspaceView { sources: with_pruned_contexts(after), ..ws }, true)
    } else {
        let files = over_files(after, uri, ws.limits);
        let bytes = over_bytes(after, uri, size, additional, ws.limits);
        let told = if files && !ws.sources.file_cap_warning_sent {
            warned_with(ws.log, crate::sources::file_limit_text(ws.limits.max_files, uri))
        } else {
            ws.log
        };
        (
            WorkspaceView {
                sources: SourcesView {
                    file_cap_warning_sent: ws.sources.file_cap_warning_sent || files,
                    total_cap_warning_sent: ws.sources.total_cap_warning_sent || bytes,
                    ..with_pruned_contexts(after)
                },
                log: if bytes && !ws.sources.total_cap_warning_sent {
                    warned_with(
                        told,
                        crate::sources::total_limit_text(ws.limits.max_total_bytes, uri),
                    )
                } else {
                    told
                },
                ..ws
            },
            false,
        )
    }
}

/// How many sources are kept once a document is open.
pub open spec fn files_kept(ws: WorkspaceView, uri: Seq<char>) -> int {
    capped(
        ws.sources.sizes.dom().union(
            ws.documents.dom().filter(|u: Seq<char>| ws.documents[u].text is Some),
        ).insert(uri).len() as int,
    )
}

/// Why there is no room for a document.
pub open spec fn no_room_reason(ws: WorkspaceView, uri: Seq<char>) -> RejectReason {
    let files = files_kept(ws, uri);
    if files > ws.limits.max_files {
        RejectReason::TooManyFiles { files: files as usize, limit: ws.limits.max_files }
    } else {
        RejectReason::NoRoom { limit: ws.limits.max_total_bytes }
    }
}

/// The workspace after a text that is not too long was taken up, or refused for want of
/// room.
pub open spec fn taken_up(
    ws: WorkspaceView,
    uri: Seq<char>,
    text: Seq<char>,
    version: i32,
    key: KeyView,
    owned: bool,
    goes_on: bool,
    now: u64,
) -> WorkspaceView {
    let (roomy, fits) = room_made(ws, uri, byte_len(text) as usize);
    if fits {
        accepted(roomy, uri, text, version, key, owned, goes_on, now)
    } else {
        rejected(roomy, uri, version, no_room_reason(roomy, uri).text(uri), now)
    }
}

/// The workspace without the refusal of a document.
pub open spec fn unfenced(ws: WorkspaceView, uri: Seq<char>) -> WorkspaceView {
    WorkspaceView { fence: ws.fence.remove(uri), ..ws }
}

/// What opening a document leads to, and what it returns. `context` is the context that the
/// document is read in, or why there is none.
pub open spec fn opened(
    ws: WorkspaceView,
    uri: Seq<char>,
    text: Seq<char>,
    version: i32,
    context: Result<(KeyView, bool), Seq<char>>,
    supported: bool,
    now: u64,
) -> (WorkspaceView, Result<(), Seq<char>>) {
    let room = room_of(ws, uri);
    if !ws.documents.contains_key(uri) && ws.documents.dom().len() >= MAX_OPEN_DOCUMENTS {
        (fenced(ws, uri), Err(tracking_limit_text()))
    } else if byte_len(uri) > MAX_OPEN_DOCUMENT_URI_BYTES {
        (fenced(ws, uri), Err(uri_limit_text(byte_len(uri))))
    } else {
        match context {
            Err(problem) => (ws, Err(problem)),
            Ok((key, owned)) => if !supported {
                (ws, Err("document is outside configured source paths: "@ + uri))
            } else if ws.documents.contains_key(uri) && version <= ws.documents[uri].version {
                (ws, Ok(()))
            } else if room.refusal(byte_len(text) as int) is Some {
                (
                    rejected(
                        ws,
                        uri,
                        version,
                        room.refusal(byte_len(text) as int)->0.text(uri),
                        now,
                    ),
                    Ok(()),
                )
            } else {
                let (roomy, fits) = room_made(ws, uri, byte_len(text) as usize);
                let after = taken_up(ws, uri, text, version, key, owned, false, now);
                (
                    if fits {
                        unfenced(after, uri)
                    } else {
                        after
                    },
                    Ok(()),
                )
            },
        }
    }
}

/// What a context that was looked for stands for.
pub open spec fn context_view(context: Result<DocumentContext, String>) -> Result<
    (KeyView, bool),
    Seq<char>,
> {
    match context {
        Ok(found) => Ok((found.key@, found.owned)),
        Err(problem) => Err(problem@),
    }
}

/// What a result stands for.
pub open spec fn outcome_view(r: Result<(), String>) -> Result<(), Seq<char>> {
    match r {
        Ok(_) => Ok(()),
        Err(problem) => Err(problem@),
    }
}

impl Workspace {
    /// Everything that is kept holds together, and nothing is larger than it may be.
    pub open spec fn wf(&self) -> bool {
        &&& self.documents.wf()
        &&& self.fence.wf()
        &&& self.renames.wf()
        &&& self.sources.wf()
        &&& self.publications.wf()
        &&& self.deleted.wf()
        &&& self.log.wf()
        &&& self.generations.wf()
    }

    /// Everything but what is known of documents and sources is the same.
    pub open spec fn same_rest(&self, other: &Self) -> bool {
        &&& self.options == other.options
        &&& self.roots == other.roots
        &&& self.publications == other.publications
        &&& self.directories == other.directories
        &&& self.filenames == other.filenames
        &&& self.packages == other.packages
        &&& self.package_metadata == other.package_metadata
        &&& self.selections == other.selections
    }

    /// Nothing was reported, nothing is to be, and nothing is kept of directories and
    /// packages.
    pub open spec fn nothing_kept(&self) -> bool {
        &&& self.publications@ == Map::<Seq<char>, Report>::empty()
        &&& self.publications.incomplete_roots@ == Set::<Seq<char>>::empty()
        &&& self.publications.pending_targets@ == Set::<Seq<char>>::empty()
        &&& !self.publications.pending_incomplete
        &&& self.catalogues_empty()
        &&& self.packages.epoch == 0
    }

    /// Keeps in mind that a document could not be tracked.
    pub(crate) fn fence_rejected_open_document(&mut self, uri: &str)
        requires
            old(self).wf(),
        ensures
            final(self).wf(),
            final(self).same_rest(old(self)),
            final(self)@ == fenced(old(self)@, uri@),
    {
        let ghost before = self@;
        self.fence.fence_rejected_open_document(uri);
        self.generations.bump_source_generation();
        self.generations.mark_global_change();
        proof {
            assert(self@ =~= fenced(before, uri@));
        }
    }

    /// Whether something that the editor has open is not known. No question is answered
    /// then.
    pub fn analysis_admission_fenced(&self) -> (r: bool)
        requires
            self.wf(),
        ensures
            r == (self@.fence_permanent || self@.fence.len() > 0),
    {
        self.fence.analysis_admission_fenced()
    }

    /// Starts a new source generation.
    pub(crate) fn bump_source_generation(&mut self)
        requires
            old(self).wf(),
        ensures
            final(self).wf(),
            final(self).same_rest(old(self)),
            final(self)@ == bumped(old(self)@),
    {
        let ghost before = self@;
        self.generations.bump_source_generation();
        proof {
            assert(self@ =~= bumped(before));
        }
    }

    /// Notes a change of a source. Where the work is stopped, the documents and what else
    /// the client said are as they were.
    pub fn mark_source_change(&mut self, uri: &str, now: u64, work: &mut Work) -> (r: Result<
        Vec<String>,
        Interrupt,
    >)
        requires
            old(self).wf(),
        ensures
            final(self).wf(),
            final(self).same_rest(old(self)),
            final(work).continues(old(work)),
            old(work).unbounded() ==> r is Ok,
            r matches Err(Interrupt::BudgetExceeded) ==> final(work).used_up(),
            r matches Err(Interrupt::BudgetExceeded) ==> !old(work).affords(
                change_visits(old(self)@, uri@),
                0,
            ),
            r is Ok ==> final(self)@ == source_changed(old(self)@, uri@, now),
            r is Ok ==> texts(r->Ok_0@) == open_dependents(
                old(self)@.sources,
                uri@,
                old(self)@.documents,
            ),
            final(self)@ == (WorkspaceView {
                sources: final(self)@.sources,
                generations: final(self)@.generations,
                schedule: final(self)@.schedule,
                ..old(self)@
            }),
            final(self)@.generations.source == old(self)@.generations.source,
            r is Ok ==> final(work).visited(old(work), change_visits(old(self)@, uri@)),
            !old(work).has_room(search_visits(old(self)@.sources.graph.parents, canonical(uri@)))
                ==> r is Err && final(self)@ == old(self)@,
            r is Err && old(work).budget is Some && final(work).visits() < old(work).visits()
                + search_visits(old(self)@.sources.graph.parents, canonical(uri@))
                ==> final(self)@ == old(self)@,
            r is Err ==> change_stopped(old(self)@, final(self)@, uri@, now),
    {
        let ghost before = self@;
        proof {
            lemma_search_visits(before.sources.graph.parents, canonical(uri@));
        }
        let told = match self.sources.invalidate_expansion_dependents(uri, &self.documents, work) {
            Ok(told) => told,
            Err(interrupt) => {
                proof {
                    assert(self@ =~= (WorkspaceView { sources: self@.sources, ..before }));
                }
                return Err(interrupt);
            },
        };
        let marked = self.generations.mark_source(uri, work);
        proof {
            assert(self@ =~= (WorkspaceView {
                sources: self@.sources,
                generations: self@.generations,
                ..before
            }));
        }
        if let Err(interrupt) = marked {
            return Err(interrupt);
        }
        let ghost list = texts(told@);
        let mut i: usize = 0;
        while i < told.len()
            invariant
                i <= told@.len(),
                list == texts(told@),
                list == open_dependents(before.sources, uri@, before.documents),
                before == old(self)@,
                self.wf(),
                self.same_rest(old(self)),
                work.continues(old(work)),
                work.visited(
                    &*old(work),
                    dependents_visits(before.sources, uri@) + source_mark_visits(
                        before.generations,
                        uri@,
                    ) + i,
                ),
                dependents_visits(before.sources, uri@) >= 0,
                old(work).has_room(search_visits(before.sources.graph.parents, canonical(uri@))),
                self@ == (WorkspaceView {
                    sources: without_dependents(before.sources, uri@),
                    generations: source_marked(before.generations, uri@),
                    schedule: scheduled(before.schedule, list, now, i as int),
                    ..before
                }),
            decreases told@.len() - i,
        {
            proof {
                assert(self@ == (WorkspaceView {
                    sources: without_dependents(before.sources, uri@),
                    generations: source_marked(before.generations, uri@),
                    schedule: scheduled(before.schedule, list, now, i as int),
                    ..before
                }));
            }
            work.check()?;
            work.visit(1)?;
            let ghost held = self@;
            self.schedule.schedule_diagnostics(told[i].clone(), now);
            proof {
                assert(list[i as int] == told@[i as int]@);
                assert(self@ =~= (WorkspaceView {
                    schedule: scheduled(before.schedule, list, now, i + 1),
                    ..held
                }));
            }
            i += 1;
        }
        work.check()?;
        work.settle()?;
        Ok(told)
    }

    /// Notes a change of a source, with nothing that stops the work.
    pub(crate) fn mark_source_change_freely(&mut self, uri: &str, now: u64)
        requires
            old(self).wf(),
        ensures
            final(self).wf(),
            final(self).same_rest(old(self)),
            final(self)@ == source_changed(old(self)@, uri@, now),
    {
        let mut work = Work::free();
        match self.mark_source_change(uri, now, &mut work) {
            Ok(_) => {},
            Err(_) => {},
        }
    }

    /// Forgets a source and the contexts that are then unused.
    pub(crate) fn forget_source(&mut self, uri: &str)
        requires
            old(self).wf(),
        ensures
            final(self).wf(),
            final(self).same_rest(old(self)),
            final(self)@ == (WorkspaceView {
                sources: with_pruned_contexts(without_source(old(self)@.sources, uri@)),
                ..old(self)@
            }),
    {
        let ghost before = self@;
        let mut work = Work::free();
        match self.sources.remove_indexed(uri, true, &mut work) {
            Ok(_) => {},
            Err(_) => {},
        }
        proof {
            assert(self@ =~= (WorkspaceView {
                sources: with_pruned_contexts(without_source(before.sources, uri@)),
                ..before
            }));
        }
    }

    /// Keeps a document in the place of what was open under its URI.
    pub(crate) fn put_document(&mut self, uri: &str, document: OpenDocument)
        requires
            old(self).wf(),
            admitted(old(self)@, uri@),
            document_whole(document@),
            total_text_bytes(old(self)@.documents.insert(uri@, document@)) <= usize::MAX,
        ensures
            final(self).wf(),
            final(self).same_rest(old(self)),
            final(self)@ == (WorkspaceView {
                documents: old(self)@.documents.insert(uri@, document@),
                ..old(self)@
            }),
    {
        let ghost before = self@;
        self.documents.put(uri.to_owned(), document);
        proof {
            assert(self@ =~= (WorkspaceView {
                documents: before.documents.insert(uri@, document@),
                ..before
            }));
        }
    }

    /// Refuses a document: it stays open without a text.
    pub fn reject_open_document(&mut self, uri: &str, version: i32, reason: &str, now: u64)
        requires
            old(self).wf(),
        ensures
            final(self).wf(),
            final(self).same_rest(old(self)),
            final(self)@ == rejected(old(self)@, uri@, version, reason@, now),
    {
        if !self.documents.can_admit(uri) {
            self.fence_rejected_open_document(uri);
            return ;
        }
        let ghost start = self@;
        self.bump_source_generation();
        self.mark_source_change_freely(uri, now);
        let ghost noted = self@;
        self.forget_source(uri);
        let ghost gone = self@;
        proof {
            lemma_deep_remove(self.sources.contexts.open_document_contexts@, uri@);
        }
        let _context = self.sources.contexts.open_document_contexts.remove(uri);
        proof {
            assert(self@.sources.store =~= (StoreView {
                open_document_contexts: gone.sources.store.open_document_contexts.remove(uri@),
                ..gone.sources.store
            }));
            assert(self@.sources =~= without_document(noted.sources, uri@));
            assert(self@ =~= (WorkspaceView {
                sources: without_document(noted.sources, uri@),
                ..noted
            }));
        }
        let document = OpenDocument {
            text: None,
            version,
            rejection: Some(concat("document rejected: ", reason)),
            identity_generation: self.generations.source,
        };
        proof {
            lemma_put_without_text(noted.documents, uri@, document@);
        }
        self.put_document(uri, document);
        let ghost placed = self@;
        self.schedule.set_deadline(uri.to_owned(), now);
        proof {
            assert(self@ =~= (WorkspaceView {
                schedule: placed.schedule.insert(uri@, now),
                ..placed
            }));
            assert(self@ =~= rejected(start, uri@, version, reason@, now));
        }
    }

    /// Gives a document a text.
    pub(crate) fn accept_open_document(
        &mut self,
        uri: &str,
        text: &str,
        version: i32,
        context: &DocumentContext,
        goes_on: bool,
        now: u64,
    )
        requires
            old(self).wf(),
            admitted(old(self)@, uri@),
            fits_machine(old(self)@, uri@, text@),
        ensures
            final(self).wf(),
            final(self).same_rest(old(self)),
            final(self)@ == accepted(
                old(self)@,
                uri@,
                text@,
                version,
                context.key@,
                context.owned,
                goes_on,
                now,
            ),
    {
        let ghost start = self@;
        self.bump_source_generation();
        self.mark_source_change_freely(uri, now);
        let ghost noted = self@;
        let identity_generation: u64 = if goes_on {
            match self.documents.get(uri) {
                Some(document) => document.identity_generation,
                None => self.generations.source,
            }
        } else {
            self.generations.source
        };
        let document = OpenDocument {
            text: Some(text.to_owned()),
            version,
            rejection: None,
            identity_generation,
        };
        proof {
            lemma_put_text(start.documents, uri@, document@);
        }
        self.put_document(uri, document);
        let ghost placed = self@;
        let _stamp = self.sources.stamps.remove(uri);
        let kept = context.key.duplicate();
        proof {
            lemma_deep_insert(self.sources.contexts.open_document_contexts@, uri@, kept);
        }
        let _before = self.sources.contexts.open_document_contexts.insert(uri.to_owned(), kept);
        let ghost opened_store = StoreView {
            open_document_contexts: placed.sources.store.open_document_contexts.insert(
                uri@,
                context.key@,
            ),
            ..placed.sources.store
        };
        proof {
            assert(self@.sources.store =~= opened_store);
            assert(self.sources.wf());
        }
        let mut work = Work::free();
        let mut clock: u64 = self.sources.clock;
        match self.sources.contexts.set_document_context(
            &self.documents,
            uri,
            context.key,
            context.owned,
            self.options.project_file.is_some(),
            &mut clock,
            &mut work,
        ) {
            Ok(_) => {},
            Err(_) => {},
        }
        self.sources.clock = clock;
        proof {
            assert(self@.sources =~= read_in(
                placed.sources,
                placed.documents,
                uri@,
                context.key@,
                context.owned,
                placed.project_configured,
            ));
            assert(self@ =~= (WorkspaceView { sources: self@.sources, ..placed }));
        }
        let ghost bound = self@;
        self.schedule.schedule_diagnostics(uri.to_owned(), now);
        proof {
            assert(self@ =~= (WorkspaceView {
                schedule: bound.schedule.insert(uri@, later(now, DIAGNOSTIC_DEBOUNCE)),
                ..bound
            }));
        }
    }

    /// Makes room for the text of a document. Returns whether there is room.
    pub(crate) fn make_room_for_text(&mut self, uri: &str, size: usize) -> (r: bool)
        requires
            old(self).wf(),
        ensures
            final(self).wf(),
            final(self).same_rest(old(self)),
            (final(self)@, r) == room_made(old(self)@, uri@, size),
    {
        let ghost before = self@;
        let additional: usize = self.documents.open_bytes_after(uri, size);
        let mut pinned = StrSet::new();
        let _new = pinned.insert(uri.to_owned());
        proof {
            assert(additional == bytes_after(before, uri@, size as int));
            assert(pinned@ =~= Set::empty().insert(uri@));
        }
        let mut work = Work::free();
        let fits = match self.sources.make_room_for(
            uri,
            size,
            &pinned,
            additional,
            &self.documents,
            &self.options.limits,
            &mut self.log,
            &mut work,
        ) {
            Ok(fits) => fits,
            Err(_) => false,
        };
        proof {
            assert(self@ =~= room_made(before, uri@, size).0);
        }
        fits
    }

    /// Takes a text up that is not too long, or refuses it for want of room. Returns whether
    /// it was taken up.
    pub(crate) fn take_up(
        &mut self,
        uri: &str,
        text: &str,
        version: i32,
        context: &DocumentContext,
        goes_on: bool,
        now: u64,
    ) -> (r: bool)
        requires
            old(self).wf(),
            admitted(old(self)@, uri@),
            room_of(old(self)@, uri@).refusal(byte_len(text@) as int) is None,
        ensures
            final(self).wf(),
            final(self).same_rest(old(self)),
            r == room_made(old(self)@, uri@, byte_len(text@) as usize).1,
            final(self)@ == taken_up(
                old(self)@,
                uri@,
                text@,
                version,
                context.key@,
                context.owned,
                goes_on,
                now,
            ),
    {
        let ghost before = self@;
        let fits = self.make_room_for_text(uri, byte_length(text));
        let ghost roomy = self@;
        proof {
            assert(roomy.documents == before.documents);
            assert(roomy.limits == before.limits);
        }
        if !fits {
            let files: usize = self.sources.retained_file_count_after_open(uri, &self.documents);
            let reason = if files > self.options.limits.max_files {
                RejectReason::TooManyFiles { files, limit: self.options.limits.max_files }
            } else {
                RejectReason::NoRoom { limit: self.options.limits.max_total_bytes }
            };
            proof {
                assert(reason == no_room_reason(roomy, uri@));
            }
            self.reject_open_document(uri, version, reason.message(uri).as_str(), now);
            return false;
        }
        proof {
            lemma_room_fits(before, uri@, text@);
        }
        self.accept_open_document(uri, text, version, context, goes_on, now);
        true
    }

    /// Opens a document, or gives it another text. `context` is the context that it is read
    /// in, or why there is none, and `supported` says whether it may be read there. A text
    /// that is refused leaves a document without one; only what cannot be tracked, or does
    /// not belong to the workspace, is an error. A version that is not new is ignored.
    pub fn open_document(
        &mut self,
        uri: &str,
        text: &str,
        version: i32,
        context: Result<DocumentContext, String>,
        supported: bool,
        now: u64,
    ) -> (r: Result<(), String>)
        requires
            old(self).wf(),
        ensures
            final(self).wf(),
            final(self).same_rest(old(self)),
            (final(self)@, outcome_view(r)) == opened(
                old(self)@,
                uri@,
                text@,
                version,
                context_view(context),
                supported,
                now,
            ),
    {
        let ghost before = self@;
        if !self.documents.contains(uri) && self.documents.len() >= MAX_OPEN_DOCUMENTS {
            self.fence_rejected_open_document(uri);
            return Err(
                concat3(
                    "open document tracking limit (",
                    to_decimal(MAX_OPEN_DOCUMENTS).as_str(),
                    ") reached",
                ),
            );
        }
        let uri_bytes: usize = byte_length(uri);
        if uri_bytes > MAX_OPEN_DOCUMENT_URI_BYTES {
            self.fence_rejected_open_document(uri);
            let head = concat3(
                "document URI is ",
                to_decimal(uri_bytes).as_str(),
                " bytes; the notification recovery limit is ",
            );
            return Err(
                concat3(
                    head.as_str(),
                    to_decimal(MAX_OPEN_DOCUMENT_URI_BYTES).as_str(),
                    " bytes",
                ),
            );
        }
        let context = match context {
            Ok(context) => context,
            Err(problem) => {
                return Err(problem);
            },
        };
        if !supported {
            return Err(concat("document is outside configured source paths: ", uri));
        }
        if let Some(known) = self.documents.document_version(uri) {
            if version <= known {
                return Ok(());
            }
        }
        let room = self.documents.room_for(uri, &self.options.limits);
        proof {
            assert(room == room_of(before, uri@));
        }
        if let Err(reason) = room.validate_candidate_text(byte_length(text)) {
            self.reject_open_document(uri, version, reason.message(uri).as_str(), now);
            return Ok(());
        }
        if self.take_up(uri, text, version, &context, false, now) {
            let ghost after = self@;
            let _fenced = self.fence.clear_rejected_open_fence(uri);
            proof {
                assert(self@ =~= unfenced(after, uri@));
            }
        }
        Ok(())
    }
}

proof fn lemma_put_without_text(
    documents: Map<Seq<char>, DocumentView>,
    uri: Seq<char>,
    document: DocumentView,
)
    requires
        documents.dom().finite(),
        document.text is None,
        total_text_bytes(documents) <= usize::MAX,
    ensures
        total_text_bytes(documents.insert(uri, document)) <= usize::MAX,
{
    let w = |uri: Seq<char>, document: DocumentView| text_bytes(document);
    lemma_sum_insert(documents, w, uri, document);
    if documents.contains_key(uri) {
        assert(w(uri, documents[uri]) == text_bytes(documents[uri]));
        assert(w(uri, document) == text_bytes(document));
    }
}

/// A text that has room can be counted.
pub proof fn lemma_room_fits(ws: WorkspaceView, uri: Seq<char>, text: Seq<char>)
    requires
        ws.documents.dom().finite(),
        total_text_bytes(ws.documents) <= usize::MAX,
        room_of(ws, uri).refusal(byte_len(text) as int) is None,
    ensures
        fits_machine(ws, uri, text),
{
    let w = |uri: Seq<char>, document: DocumentView| text_bytes(document);
    lemma_sum_bounds(ws.documents, w);
    if ws.documents.contains_key(uri) {
        assert(w(uri, ws.documents[uri]) == text_bytes(ws.documents[uri]));
    }
}

proof fn lemma_put_text(
    documents: Map<Seq<char>, DocumentView>,
    uri: Seq<char>,
    document: DocumentView,
)
    requires
        documents.dom().finite(),
    ensures
        total_text_bytes(documents.insert(uri, document)) == total_text_bytes(documents) - (
        if documents.contains_key(uri) {
            text_bytes(documents[uri])
        } else {
            0
        }) + text_bytes(document),
{
    let w = |uri: Seq<char>, document: DocumentView| text_bytes(document);
    lemma_sum_insert(documents, w, uri, document);
    assert(w(uri, document) == text_bytes(document));
    if documents.contains_key(uri) {
        assert(w(uri, documents[uri]) == text_bytes(documents[uri]));
    }
}

/// Roots are folders with the source paths and the patterns of the options.
pub open spec fn roots_describe(
    roots: Seq<WorkspaceRoot>,
    cwd: Parts,
    paths: Seq<Parts>,
    options: WorkspaceOptionsView,
) -> bool {
    &&& roots.len() == paths.len()
    &&& forall|i: int|
        0 <= i < roots.len() ==> (#[trigger] roots[i]).describes(
            cwd,
            paths[i],
            options.source_paths,
            compiled(options.exclude),
        )
}

/// The folders of a workspace.
pub fn build_workspace_roots(
    cwd: &FilePath,
    root_paths: &Vec<FilePath>,
    options: &WorkspaceOptions,
) -> (r: Vec<WorkspaceRoot>)
    ensures
        roots_describe(r@, cwd@, views(root_paths@), options@),
{
    let patterns = compile_exclude_patterns(&options.exclude);
    let ghost paths = views(root_paths@);
    let mut roots: Vec<WorkspaceRoot> = Vec::new();
    let mut i: usize = 0;
    while i < root_paths.len()
        invariant
            i <= root_paths@.len(),
            paths == views(root_paths@),
            roots@.len() == i,
            (match patterns {
                Some(set) => Some(set_patterns(set)),
                None => None,
            }) == compiled(texts(options.exclude@)),
            forall|j: int|
                0 <= j < i ==> (#[trigger] roots@[j]).describes(
                    cwd@,
                    paths[j],
                    options@.source_paths,
                    compiled(options@.exclude),
                ),
        decreases root_paths@.len() - i,
    {
        let root = WorkspaceRoot::new_with_patterns(
            cwd,
            &root_paths[i],
            &options.source_paths,
            patterns.as_ref(),
        );
        proof {
            assert(paths[i as int] == root_paths@[i as int]@);
        }
        roots.push(root);
        i += 1;
    }
    roots
}

/// A workspace in which nothing happened yet.
pub open spec fn fresh_workspace(
    limits: ResourceLimits,
    project_configured: bool,
    log: Seq<Seq<char>>,
) -> WorkspaceView {
    WorkspaceView {
        documents: Map::empty(),
        fence: Set::empty(),
        fence_permanent: false,
        renames: Map::empty(),
        sources: no_sources(),
        schedule: Map::empty(),
        deleted: Map::empty(),
        log,
        generations: GenerationsView {
            source: 0,
            configuration: 0,
            source_changes: Map::empty(),
            observations: Map::empty(),
            configuration_changes: Map::empty(),
            global_source: 0,
            global_configuration: 0,
        },
        records: None,
        dependencies: Map::empty(),
        limits,
        project_configured,
    }
}

impl Workspace {
    /// A workspace with captured overrides. `problems` are those that came up with the
    /// overrides, as a whole and of each root.
    pub fn with_override_session(
        cwd: &FilePath,
        roots: &Vec<FilePath>,
        options: WorkspaceOptions,
        problems: &Vec<String>,
    ) -> (r: Self)
        ensures
            r.wf(),
            r.options == options,
            roots_describe(r.roots@, cwd@, views(roots@), options@),
            r@ == fresh_workspace(
                options.limits,
                options.project_file is Some,
                warned_with_all(seq![], texts(problems@), problems@.len() as int),
            ),
            r.nothing_kept(),
            r.selections@ == Map::<Parts, FilePath>::empty(),
    {
        let roots = build_workspace_roots(cwd, roots, &options);
        let mut log = WarningLog::new();
        log.warn_all(problems);
        let r = Workspace {
            options,
            roots,
            documents: OpenDocuments::new(),
            fence: OpenFence::new(),
            renames: PendingRenames::new(),
            sources: Sources::new(),
            schedule: DiagnosticSchedule::new(),
            publications: Publications::new(),
            deleted: DeletedFiles::new(),
            log,
            generations: Generations::new(),
            records: AnalysisRecords::new(false),
            dependencies: DiagnosticDependencies::new(),
            directories: DirectoryCatalogues::new(),
            filenames: FilenameCatalogues::new(),
            packages: PackageCatalogues::new(),
            package_metadata: PackageMetadata::new(),
            selections: KeyMap::new(),
        };
        proof {
            assert(r@ =~= fresh_workspace(
                options.limits,
                options.project_file is Some,
                warned_with_all(seq![], texts(problems@), problems@.len() as int),
            ));
        }
        r
    }

    /// A workspace with the overrides of the environment. `problems` are those that came up
    /// with the overrides, and `warnings` what was said when they were captured.
    pub fn new(
        cwd: &FilePath,
        roots: &Vec<FilePath>,
        options: WorkspaceOptions,
        problems: &Vec<String>,
        warnings: &Vec<String>,
    ) -> (r: Self)
        ensures
            r.wf(),
            r.options == options,
            roots_describe(r.roots@, cwd@, views(roots@), options@),
            r@ == fresh_workspace(
                options.limits,
                options.project_file is Some,
                warned_with_all(
                    warned_with_all(seq![], texts(problems@), problems@.len() as int),
                    texts(warnings@),
                    warnings@.len() as int,
                ),
            ),
            r.nothing_kept(),
            r.selections@ == Map::<Parts, FilePath>::empty(),
    {
        let mut r = Self::with_override_session(cwd, roots, options, problems);
        let ghost before = r@;
        r.log.warn_all(warnings);
        proof {
            assert(r@ =~= (WorkspaceView { log: r@.log, ..before }));
        }
        r
    }

    /// Nothing has to be done before a question is answered: sources are looked for where
    /// they are asked for.
    pub fn scan(&mut self)
        ensures
            *final(self) == *old(self),
    {
    }

    /// Nothing has to be done before a place is followed: what is read on the way is looked
    /// at again.
    pub fn refresh_for_navigation(&mut self)
        ensures
            *final(self) == *old(self),
    {
    }

    /// The warnings so far.
    pub fn warnings(&self) -> (r: &Vec<String>)
        ensures
            texts(r@) == self@.log,
    {
        &self.log.messages
    }

    /// Adds a warning.
    pub fn warn(&mut self, message: String)
        requires
            old(self).wf(),
        ensures
            final(self).wf(),
            final(self).same_rest(old(self)),
            final(self)@ == (WorkspaceView {
                log: warned_with(old(self)@.log, message@),
                ..old(self)@
            }),
    {
        let ghost before = self@;
        self.log.warn(message);
        proof {
            assert(self@ =~= (WorkspaceView { log: self@.log, ..before }));
        }
    }

    /// The number of sources that are indexed.
    pub fn parsed_document_count(&self) -> (n: usize)
        ensures
            n == self@.sources.sizes.dom().len(),
    {
        self.sources.parsed_document_count()
    }

    /// The version of an open document, and the generation in which it was opened.
    pub fn document_identity(&self, uri: &str) -> (r: (Option<i32>, Option<u64>))
        ensures
            r == (if self@.documents.contains_key(uri@) {
                (
                    Some(self@.documents[uri@].version),
                    Some(self@.documents[uri@].identity_generation),
                )
            } else {
                (None, None)
            }),
    {
        match self.documents.get(uri) {
            Some(document) => (Some(document.version), Some(document.identity_generation)),
            None => (None, None),
        }
    }

    /// The time until the first diagnostics are due.
    pub fn next_diagnostic_timeout(&self, now: u64) -> (r: Option<u64>)
        ensures
            r is None <==> self@.schedule.dom() =~= Set::<Seq<char>>::empty(),
            r is Some ==> exists|uri: Seq<char>| #[trigger]
                self@.schedule.contains_key(uri) && r->0 == time_left(self@.schedule[uri], now),
            r is Some ==> forall|uri: Seq<char>| #[trigger]
                self@.schedule.contains_key(uri) ==> r->0 <= time_left(self@.schedule[uri], now),
    {
        self.schedule.next_diagnostic_timeout(now)
    }

    /// Takes the documents whose diagnostics are due, with their versions: each is due no
    /// more, and those that are open come back.
    pub fn take_due_diagnostics(&mut self, now: u64) -> (r: Vec<(String, Option<i32>)>)
        requires
            old(self).wf(),
        ensures
            final(self).wf(),
            final(self).same_rest(old(self)),
            ({
                let keys = in_order(old(self)@.schedule.dom());
                let due = due_of(
                    old(self)@.schedule,
                    keys,
                    now,
                    usize::MAX as int,
                    keys.len() as int,
                );
                &&& final(self)@ == (WorkspaceView {
                    schedule: old(self)@.schedule.remove_keys(due.to_set()),
                    ..old(self)@
                })
                &&& request_views(r@) == requests_of(
                    due,
                    old(self)@.documents,
                    due.len() as int,
                )
            }),
    {
        let ghost before = self@;
        let _count: usize = self.schedule.pending.len();
        let requests = self.schedule.take_due_diagnostic_requests(&self.documents, now);
        proof {
            assert(self@ =~= (WorkspaceView { schedule: self@.schedule, ..before }));
        }
        requests
    }

    /// Begins to follow a place in a source.
    pub fn navigate(&self, uri: &str) -> (r: NavigationRun)
        ensures
            r@ == (NavigationView {
                uri: uri@,
                stage: NavigationStage::Start,
                attempts: 0,
                found: seq![],
            }),
    {
        NavigationRun::new(uri)
    }

    /// Begins to format a source. The workspace stays as it is.
    pub fn formatting_edit(&self, uri: &str) -> (r: FormatRun)
        ensures
            r@ == (FormatView { uri: uri@, text: None, stage: FormatStage::Start }),
    {
        FormatRun::new(uri)
    }
}

} // verus!
