//! What becomes of a workspace as its documents are opened, changed, saved and closed.

use vstd::prelude::*;

use crate::budget::Work;
use crate::contexts::{without_owner, OwnerOrigin, StoreView};
use crate::documents::DocumentView;
use crate::edits::{
    apply_changes, change_views, changed_by_all, law_all_changes_have_room, ChangeView,
    ContentChange,
};
use crate::keymap::Identity;
use crate::project::{ContextKey, KeyView};
use crate::renames::{closes_as_planned, PendingView};
use crate::schedule::{later, DIAGNOSTIC_DEBOUNCE};
use crate::sources::{invalidated, watching, with_pruned_contexts, without_source, SourcesView};
use crate::strings::{byte_len, byte_length, concat};
use crate::strmap::{lemma_deep_insert, lemma_deep_remove};
use crate::uris::uri_path;
use crate::workspace::{
    accepted, admitted, bumped, context_view, fenced, opened, outcome_view, rejected, room_made,
    room_of, source_changed, taken_up, DocumentContext, Workspace, WorkspaceView,
};

verus! {

/// The workspace before a document is opened: what was known of it from its file does not
/// count any more, unless it was inherited over a mapping by which it still may be read.
pub open spec fn ready_to_open(ws: WorkspaceView, uri: Seq<char>, mapped_readable: bool) -> WorkspaceView {
    let store = ws.sources.store;
    let inherited = store.owners.contains_key(uri) && store.owners[uri].origin
        == OwnerOrigin::Inherited;
    if !admitted(ws, uri) || ws.documents.contains_key(uri) || (inherited && mapped_readable) {
        ws
    } else {
        WorkspaceView {
            sources: SourcesView {
                store: StoreView {
                    document_contexts: store.document_contexts.remove(uri),
                    ..without_owner(store, uri)
                },
                ..ws.sources
            },
            ..ws
        }
    }
}

/// The text of a document, nothing where it has none.
pub open spec fn text_or_empty(document: DocumentView) -> Seq<char> {
    match document.text {
        Some(text) => text,
        None => seq![],
    }
}

/// The workspace after a document got a new version without a change.
pub open spec fn advanced(ws: WorkspaceView, uri: Seq<char>, version: i32, now: u64) -> WorkspaceView {
    let noted = source_changed(bumped(ws), uri, now);
    WorkspaceView {
        documents: if noted.documents.contains_key(uri) {
            noted.documents.insert(uri, DocumentView { version, ..noted.documents[uri] })
        } else {
            noted.documents
        },
        schedule: noted.schedule.insert(uri, later(now, DIAGNOSTIC_DEBOUNCE)),
        ..noted
    }
}

/// What changing a document leads to, and what it returns.
pub open spec fn changed_document(
    ws: WorkspaceView,
    uri: Seq<char>,
    changes: Seq<ChangeView>,
    version: i32,
    context: Result<(KeyView, bool), Seq<char>>,
    now: u64,
) -> (WorkspaceView, Result<(), Seq<char>>) {
    if !ws.documents.contains_key(uri) {
        (ws, Err("received didChange for unopened document "@ + uri))
    } else {
        let document = ws.documents[uri];
        if version <= document.version {
            (ws, Ok(()))
        } else if changes.len() == 0 {
            (advanced(ws, uri, version, now), Ok(()))
        } else {
            match changed_by_all(
                room_of(ws, uri),
                text_or_empty(document),
                document.rejection is None,
                changes,
                0,
            ) {
                Err(reason) => (rejected(ws, uri, version, reason.text(uri), now), Ok(())),
                Ok(text) => match context {
                    Err(problem) => (ws, Err(problem)),
                    Ok((key, owned)) => (
                        taken_up(ws, uri, text, version, key, owned, true, now),
                        Ok(()),
                    ),
                },
            }
        }
    }
}

/// The workspace after the file of a source has to be read again: a source that is read in
/// no context is forgotten.
pub open spec fn refreshed(ws: WorkspaceView, uri: Seq<char>) -> WorkspaceView {
    if ws.sources.store.document_contexts.contains_key(uri) {
        ws
    } else {
        WorkspaceView {
            sources: with_pruned_contexts(without_source(ws.sources, uri)),
            ..ws
        }
    }
}

/// What saving a document leads to, and what it returns.
pub open spec fn saved(
    ws: WorkspaceView,
    uri: Seq<char>,
    text: Option<Seq<char>>,
    context: Result<(KeyView, bool), Seq<char>>,
    now: u64,
) -> (WorkspaceView, Result<(), Seq<char>>) {
    if !ws.documents.contains_key(uri) {
        let known = match uri_path(uri) {
            Some(path) => WorkspaceView {
                sources: invalidated(
                    ws.sources,
                    watching(ws.sources.store, path),
                    ws.documents,
                ),
                ..ws
            },
            None => ws,
        };
        (refreshed(known, uri), Ok(()))
    } else if ws.documents[uri].rejection is Some {
        (ws, Err("document rejected: "@ + ws.documents[uri].rejection->0))
    } else if text is None {
        let after = refreshed(ws, uri);
        (
            WorkspaceView {
                schedule: after.schedule.insert(uri, later(now, DIAGNOSTIC_DEBOUNCE)),
                ..after
            },
            Ok(()),
        )
    } else {
        let version = ws.documents[uri].version;
        let refusal = room_of(ws, uri).refusal(byte_len(text->0) as int);
        if refusal is Some {
            (rejected(ws, uri, version, refusal->0.text(uri), now), Ok(()))
        } else {
            match context {
                Err(problem) => (ws, Err(problem)),
                Ok((key, owned)) => {
                    let (roomy, fits) = room_made(ws, uri, byte_len(text->0) as usize);
                    if fits {
                        (accepted(roomy, uri, text->0, version, key, owned, true, now), Ok(()))
                    } else {
                        (
                            roomy,
                            Err(
                                "retaining the saved document would exceed the configured source limits for "@
                                    + uri,
                            ),
                        )
                    }
                },
            }
        }
    }
}

/// The renames after a document was closed.
pub open spec fn renames_after_close(ws: WorkspaceView, uri: Seq<char>) -> Map<
    Seq<char>,
    PendingView,
> {
    if ws.documents.contains_key(uri) && ws.renames.contains_key(uri) && closes_as_planned(
        ws.renames[uri],
        ws.documents[uri],
    ) {
        ws.renames.insert(
            uri,
            PendingView {
                closed_verified_version: Some(ws.documents[uri].version),
                ..ws.renames[uri]
            },
        )
    } else {
        ws.renames
    }
}

/// The sources after a document was closed: its file counts again. It is read in the context
/// that it was read in.
pub open spec fn back_to_disk(v: SourcesView, uri: Seq<char>, context: Option<KeyView>) -> SourcesView {
    SourcesView {
        stamps: v.stamps.remove(uri),
        store: StoreView {
            open_document_contexts: v.store.open_document_contexts.remove(uri),
            document_contexts: match context {
                Some(key) => v.store.document_contexts.insert(uri, key),
                None => v.store.document_contexts,
            },
            ..v.store
        },
        ..v
    }
}

/// What closing a document leads to, and whether it or its refusal was known.
pub open spec fn closed(ws: WorkspaceView, uri: Seq<char>, now: u64) -> (WorkspaceView, bool) {
    let was_known = ws.documents.contains_key(uri) || ws.fence.contains(uri);
    let contexts = ws.sources.store.document_contexts;
    let context = if contexts.contains_key(uri) {
        Some(contexts[uri])
    } else {
        None
    };
    let gone = WorkspaceView {
        fence: ws.fence.remove(uri),
        renames: renames_after_close(ws, uri),
        documents: ws.documents.remove(uri),
        schedule: ws.schedule.remove(uri),
        dependencies: ws.dependencies.remove(uri),
        ..ws
    };
    if was_known {
        let noted = source_changed(bumped(gone), uri, now);
        let back = WorkspaceView {
            sources: back_to_disk(noted.sources, uri, context),
            ..noted
        };
        (refreshed(back, uri), true)
    } else {
        (gone, false)
    }
}

/// What an optional text stands for.
pub open spec fn given_text(text: Option<&str>) -> Option<Seq<char>> {
    match text {
        Some(text) => Some(text@),
        None => None,
    }
}

impl Workspace {
    /// Forgets what was known of a document from its file, before it is opened.
    /// `mapped_readable` says that a mapping still leads to it.
    pub fn prepare_open(&mut self, uri: &str, mapped_readable: bool)
        requires
            old(self).wf(),
        ensures
            final(self).wf(),
            final(self).same_rest(old(self)),
            final(self)@ == ready_to_open(old(self)@, uri@, mapped_readable),
    {
        if !self.documents.can_admit(uri) || self.documents.contains(uri) {
            return ;
        }
        let inherited = match self.sources.contexts.owners.get(uri) {
            Some(owner) => match owner.origin {
                OwnerOrigin::Inherited => true,
                _ => false,
            },
            None => false,
        };
        if inherited && mapped_readable {
            return ;
        }
        let ghost before = self@;
        proof {
            lemma_deep_remove(self.sources.contexts.document_contexts@, uri@);
            lemma_deep_remove(self.sources.contexts.owners@, uri@);
        }
        let _context = self.sources.contexts.document_contexts.remove(uri);
        let _owner = self.sources.contexts.owners.remove(uri);
        let _used = self.sources.contexts.owner_last_used.remove(uri);
        proof {
            let store = before.sources.store;
            assert(self@.sources.store =~= (StoreView {
                document_contexts: store.document_contexts.remove(uri@),
                ..without_owner(store, uri@)
            }));
            assert(self@.sources =~= (SourcesView {
                store: self@.sources.store,
                ..before.sources
            }));
            assert(self@ =~= (WorkspaceView { sources: self@.sources, ..before }));
        }
    }

    /// Gives a document a new version that changes nothing.
    pub fn advance_document_version(&mut self, uri: &str, version: i32, now: u64)
        requires
            old(self).wf(),
        ensures
            final(self).wf(),
            final(self).same_rest(old(self)),
            final(self)@ == advanced(old(self)@, uri@, version, now),
    {
        let ghost start = self@;
        self.bump_source_generation();
        self.mark_source_change_freely(uri, now);
        self.documents.set_version(uri, version);
        self.schedule.schedule_diagnostics(uri.to_owned(), now);
        proof {
            assert(self@ =~= advanced(start, uri@, version, now));
        }
    }

    /// Replaces the text of an open document.
    pub fn change_document(
        &mut self,
        uri: &str,
        text: &str,
        version: i32,
        context: Result<DocumentContext, String>,
        now: u64,
    ) -> (r: Result<(), String>)
        requires
            old(self).wf(),
        ensures
            final(self).wf(),
            final(self).same_rest(old(self)),
            (final(self)@, outcome_view(r)) == changed_document(
                old(self)@,
                uri@,
                seq![ChangeView { range: None, range_length: None, text: text@ }],
                version,
                context_view(context),
                now,
            ),
    {
        let mut changes: Vec<ContentChange> = Vec::new();
        let whole = ContentChange { range: None, range_length: None, text: text.to_owned() };
        changes.push(whole);
        proof {
            assert(change_views(changes@) =~= seq![whole@]);
        }
        self.change_document_with_changes(uri, &changes, version, context, now)
    }

    /// Changes an open document. Changes that cannot be applied leave it without a text; a
    /// version that is not new is ignored.
    pub fn change_document_with_changes(
        &mut self,
        uri: &str,
        changes: &Vec<ContentChange>,
        version: i32,
        context: Result<DocumentContext, String>,
        now: u64,
    ) -> (r: Result<(), String>)
        requires
            old(self).wf(),
        ensures
            final(self).wf(),
            final(self).same_rest(old(self)),
            (final(self)@, outcome_view(r)) == changed_document(
                old(self)@,
                uri@,
                change_views(changes@),
                version,
                context_view(context),
                now,
            ),
    {
        let ghost before = self@;
        let ghost views = change_views(changes@);
        let room;
        let applied;
        match self.documents.get(uri) {
            None => {
                return Err(concat("received didChange for unopened document ", uri));
            },
            Some(document) => {
                if version <= document.version {
                    return Ok(());
                }
                room = self.documents.room_for(uri, &self.options.limits);
                proof {
                    assert(room == room_of(before, uri@));
                }
                let synchronized = document.rejection.is_none();
                let nothing = String::new();
                proof {
                    assert(nothing@ =~= seq![]);
                }
                applied = match &document.text {
                    Some(text) => apply_changes(&room, text.as_str(), synchronized, changes),
                    None => apply_changes(&room, nothing.as_str(), synchronized, changes),
                };
            },
        }
        proof {
            assert(views.len() == changes@.len());
        }
        if changes.len() == 0 {
            self.advance_document_version(uri, version, now);
            return Ok(());
        }
        let text = match applied {
            Ok(text) => text,
            Err(reason) => {
                self.reject_open_document(uri, version, reason.message(uri).as_str(), now);
                return Ok(());
            },
        };
        let context = match context {
            Ok(context) => context,
            Err(problem) => {
                return Err(problem);
            },
        };
        proof {
            law_all_changes_have_room(
                room,
                text_or_empty(before.documents[uri@]),
                before.documents[uri@].rejection is None,
                views,
                0,
            );
        }
        let _taken = self.take_up(uri, text.as_str(), version, &context, true, now);
        Ok(())
    }

    /// Refuses a change that could not be read. Returns whether that concerned a document.
    pub fn reject_malformed_change(&mut self, uri: &str, version: i32, reason: &str, now: u64) -> (r:
        bool)
        requires
            old(self).wf(),
        ensures
            final(self).wf(),
            final(self).same_rest(old(self)),
            r == (old(self)@.documents.contains_key(uri@) && version > old(
                self,
            )@.documents[uri@].version),
            final(self)@ == (if r {
                rejected(old(self)@, uri@, version, reason@, now)
            } else {
                old(self)@
            }),
    {
        match self.documents.document_version(uri) {
            Some(known) => {
                if version <= known {
                    return false;
                }
            },
            None => {
                return false;
            },
        }
        self.reject_open_document(uri, version, reason, now);
        true
    }

    /// Forgets a source whose file has to be read again where it is read in no context. The
    /// context of one that is comes back: its file has to be loaded there.
    pub fn refresh_loaded_disk(&mut self, uri: &str) -> (r: Option<ContextKey>)
        requires
            old(self).wf(),
        ensures
            final(self).wf(),
            final(self).same_rest(old(self)),
            final(self)@ == refreshed(old(self)@, uri@),
            match r {
                Some(key) => old(self)@.sources.store.document_contexts.contains_key(uri@) && old(
                    self,
                )@.sources.store.document_contexts[uri@] == key@,
                None => !old(self)@.sources.store.document_contexts.contains_key(uri@),
            },
    {
        match self.sources.contexts.document_contexts.get(uri) {
            Some(key) => {
                return Some(key.duplicate());
            },
            None => {},
        }
        self.forget_source(uri);
        None
    }

    /// Takes a save of a document. Where the document is open, the saved text counts;
    /// where it is not, its file does, and is not taken from the client.
    pub fn save_document(
        &mut self,
        uri: &str,
        saved_text: Option<&str>,
        context: Result<DocumentContext, String>,
        now: u64,
    ) -> (r: Result<(), String>)
        requires
            old(self).wf(),
        ensures
            final(self).wf(),
            final(self).same_rest(old(self)),
            (final(self)@, outcome_view(r)) == saved(
                old(self)@,
                uri@,
                given_text(saved_text),
                context_view(context),
                now,
            ),
    {
        let ghost before = self@;
        let version = match self.documents.get(uri) {
            None => {
                let mut work = Work::free();
                match self.sources.invalidate_metadata_for_uri(uri, &self.documents, &mut work) {
                    Ok(_) => {},
                    Err(_) => {},
                }
                proof {
                    assert(self@ =~= (WorkspaceView { sources: self@.sources, ..before }));
                    if uri_path(uri@) is None {
                        assert(self@ =~= before);
                    }
                }
                let _load = self.refresh_loaded_disk(uri);
                return Ok(());
            },
            Some(document) => {
                if let Some(reason) = &document.rejection {
                    return Err(concat("document rejected: ", reason.as_str()));
                }
                document.version
            },
        };
        let text = match saved_text {
            Some(text) => text,
            None => {
                let _load = self.refresh_loaded_disk(uri);
                let ghost after = self@;
                self.schedule.schedule_diagnostics(uri.to_owned(), now);
                proof {
                    assert(self@ =~= (WorkspaceView {
                        schedule: after.schedule.insert(uri@, later(now, DIAGNOSTIC_DEBOUNCE)),
                        ..after
                    }));
                }
                return Ok(());
            },
        };
        let room = self.documents.room_for(uri, &self.options.limits);
        proof {
            assert(room == room_of(before, uri@));
        }
        if let Err(reason) = room.validate_candidate_text(byte_length(text)) {
            self.reject_open_document(uri, version, reason.message(uri).as_str(), now);
            return Ok(());
        }
        let context = match context {
            Ok(context) => context,
            Err(problem) => {
                return Err(problem);
            },
        };
        if !self.make_room_for_text(uri, byte_length(text)) {
            return Err(
                concat(
                    "retaining the saved document would exceed the configured source limits for ",
                    uri,
                ),
            );
        }
        proof {
            crate::workspace::lemma_room_fits(before, uri@, text@);
        }
        self.accept_open_document(uri, text, version, &context, true, now);
        Ok(())
    }

    /// Closes a document, and forgets where its opening was refused. Returns whether either
    /// was known. What is read in a context then has to be loaded from its file.
    pub fn close_document(&mut self, uri: &str, now: u64) -> (r: bool)
        requires
            old(self).wf(),
        ensures
            final(self).wf(),
            final(self).same_rest(old(self)),
            (final(self)@, r) == closed(old(self)@, uri@, now),
    {
        let ghost before = self@;
        let cleared = self.fence.clear_rejected_open_fence(uri);
        self.renames.note_close(uri, self.documents.get(uri));
        let retained = match self.sources.contexts.document_contexts.get(uri) {
            Some(key) => Some(key.duplicate()),
            None => None,
        };
        let was_open = self.documents.take(uri).is_some();
        self.schedule.forget(uri);
        self.dependencies.forget_diagnostic_dependencies(uri);
        let ghost gone = WorkspaceView {
            fence: before.fence.remove(uri@),
            renames: renames_after_close(before, uri@),
            documents: before.documents.remove(uri@),
            schedule: before.schedule.remove(uri@),
            dependencies: before.dependencies.remove(uri@),
            ..before
        };
        proof {
            assert(self@ =~= gone);
        }
        if !was_open && !cleared {
            return false;
        }
        self.bump_source_generation();
        self.mark_source_change_freely(uri, now);
        let ghost noted = self@;
        proof {
            lemma_deep_remove(self.sources.contexts.open_document_contexts@, uri@);
        }
        let _context = self.sources.contexts.open_document_contexts.remove(uri);
        let ghost mut context: Option<KeyView> = None;
        match retained {
            Some(key) => {
                proof {
                    context = Some(key@);
                    lemma_deep_insert(self.sources.contexts.document_contexts@, uri@, key);
                }
                let _before = self.sources.contexts.document_contexts.insert(uri.to_owned(), key);
            },
            None => {},
        }
        let _stamp = self.sources.stamps.remove(uri);
        proof {
            assert(self@.sources.store =~= back_to_disk(noted.sources, uri@, context).store);
            assert(self@.sources =~= back_to_disk(noted.sources, uri@, context));
            assert(self@ =~= (WorkspaceView { sources: self@.sources, ..noted }));
        }
        let _load = self.refresh_loaded_disk(uri);
        true
    }
}

/// A version that is not new changes nothing, whatever comes with it.
pub proof fn law_old_versions_are_ignored(
    ws: WorkspaceView,
    uri: Seq<char>,
    changes: Seq<ChangeView>,
    version: i32,
    context: Result<(KeyView, bool), Seq<char>>,
    now: u64,
)
    requires
        ws.documents.contains_key(uri),
        version <= ws.documents[uri].version,
    ensures
        changed_document(ws, uri, changes, version, context, now) == (
            ws,
            Ok::<(), Seq<char>>(()),
        ),
{
}

/// A document that is changed has the text and the version that it was given, or it has no
/// text and a reason for that. Its version never goes back.
pub proof fn law_changed_documents_are_the_clients(
    ws: WorkspaceView,
    uri: Seq<char>,
    text: Seq<char>,
    version: i32,
    key: KeyView,
    owned: bool,
    now: u64,
)
    requires
        ws.documents.contains_key(uri),
        byte_len(uri) <= crate::limits::MAX_OPEN_DOCUMENT_URI_BYTES,
        version > ws.documents[uri].version,
    ensures
        ({
            let change = ChangeView { range: None, range_length: None, text };
            let after = changed_document(ws, uri, seq![change], version, Ok((key, owned)), now).0;
            &&& after.documents.contains_key(uri)
            &&& after.documents[uri].version == version
            &&& after.documents[uri].text == Some(text) && after.documents[uri].rejection is None
                || after.documents[uri].text is None && after.documents[uri].rejection is Some
        }),
{
    let change = ChangeView { range: None, range_length: None, text };
    let changes = seq![change];
    let document = ws.documents[uri];
    let room = room_of(ws, uri);
    let synchronized = document.rejection is None;
    assert(changes[0] == change);
    match crate::edits::changed(room, text_or_empty(document), synchronized, change) {
        Ok(next) => {
            assert(changed_by_all(room, next, true, changes, 1)
                == Ok::<Seq<char>, crate::edits::RejectReason>(next));
            assert(changed_by_all(room, text_or_empty(document), synchronized, changes, 0)
                == Ok::<Seq<char>, crate::edits::RejectReason>(text));
        },
        Err(_) => {},
    }
}

/// A document that was closed is not open.
pub proof fn law_closed_documents_are_gone(ws: WorkspaceView, uri: Seq<char>, now: u64)
    ensures
        !closed(ws, uri, now).0.documents.contains_key(uri),
        !closed(ws, uri, now).0.fence.contains(uri),
        closed(ws, uri, now).0.documents == ws.documents.remove(uri),
{
}

/// Saving a document that is not open opens nothing: its file counts, not the text that came
/// with the save.
pub proof fn law_saving_a_closed_document_opens_nothing(
    ws: WorkspaceView,
    uri: Seq<char>,
    text: Option<Seq<char>>,
    context: Result<(KeyView, bool), Seq<char>>,
    now: u64,
)
    requires
        !ws.documents.contains_key(uri),
    ensures
        saved(ws, uri, text, context, now).0.documents == ws.documents,
{
}

/// A document that is closed and opened again is another one, also where its version is the
/// same as before: it has a later generation.
pub proof fn law_reopened_documents_are_new(
    ws: WorkspaceView,
    uri: Seq<char>,
    text: Seq<char>,
    version: i32,
    context: Result<(KeyView, bool), Seq<char>>,
    supported: bool,
    now: u64,
    later: u64,
)
    requires
        ws.documents.contains_key(uri),
        ws.documents[uri].identity_generation <= ws.generations.source,
        ws.generations.source < u64::MAX - 1,
    ensures
        ({
            let again = opened(
                closed(ws, uri, now).0,
                uri,
                text,
                version,
                context,
                supported,
                later,
            ).0;
            again.documents.contains_key(uri) ==> again.documents[uri].identity_generation
                > ws.documents[uri].identity_generation
        }),
{
}

/// Where the opening of a document was refused for want of room, nothing that was computed
/// before is taken for current.
pub proof fn law_a_refused_opening_makes_results_stale(
    ws: WorkspaceView,
    uri: Seq<char>,
    generation: u64,
)
    requires
        generation <= ws.generations.source < u64::MAX,
    ensures
        fenced(ws, uri).generations.global_source > generation,
{
}

/// No open document has a generation that is yet to come.
pub open spec fn identities_behind(ws: WorkspaceView) -> bool {
    forall|uri: Seq<char>| #[trigger]
        ws.documents.contains_key(uri) ==> ws.documents[uri].identity_generation
            <= ws.generations.source
}

/// Whatever the client does with documents, none of them has a generation that is yet to come,
/// as long as generations can be counted.
pub proof fn law_identities_stay_behind(
    ws: WorkspaceView,
    uri: Seq<char>,
    text: Seq<char>,
    saved_text: Option<Seq<char>>,
    changes: Seq<ChangeView>,
    version: i32,
    context: Result<(KeyView, bool), Seq<char>>,
    supported: bool,
    now: u64,
)
    requires
        identities_behind(ws),
        ws.generations.source < u64::MAX,
    ensures
        identities_behind(opened(ws, uri, text, version, context, supported, now).0),
        identities_behind(changed_document(ws, uri, changes, version, context, now).0),
        identities_behind(saved(ws, uri, saved_text, context, now).0),
        identities_behind(closed(ws, uri, now).0),
{
}

} // verus!
