//! What becomes of an open document whose file the client has renamed.

use vstd::prelude::*;

use crate::contexts::{OwnerView, StoreView};
use crate::documents::{text_bytes, total_text_bytes, DocumentView};
use crate::edits::RejectReason;
use crate::keymap::Identity;
use crate::lifecycle::closed;
use crate::project::KeyView;
use crate::renames::{plan_transfer, transfer_of, PendingUnitFileRename, PendingView, Transfer};
use crate::sources::SourcesView;
use crate::strings::byte_len;
use crate::strmap::{lemma_deep_insert, lemma_deep_remove};
use crate::sums::{lemma_sum_bounds, lemma_sum_remove};
use crate::uris::{canonical, canonical_file_uri};
use crate::workspace::{
    accepted, admitted, fits_machine, rejected, DocumentContext, Workspace, WorkspaceView,
};

verus! {

/// The context that a document is read in: that of its text, else that of its file.
pub open spec fn read_context(store: StoreView, uri: Seq<char>) -> Option<KeyView> {
    if store.open_document_contexts.contains_key(uri) {
        Some(store.open_document_contexts[uri])
    } else if store.document_contexts.contains_key(uri) {
        Some(store.document_contexts[uri])
    } else {
        None
    }
}

/// The document that is open under a URI.
pub open spec fn open_document(ws: WorkspaceView, uri: Seq<char>) -> Option<DocumentView> {
    if ws.documents.contains_key(uri) {
        Some(ws.documents[uri])
    } else {
        None
    }
}

/// An owner as it goes along with a file: it is to be looked at again, and no route into
/// another source is known.
pub open spec fn taken_along(owner: OwnerView) -> OwnerView {
    OwnerView { legacy_route: None, needs_revalidation: true, ..owner }
}

/// The workspace without the owner of a document.
pub open spec fn without_owner(ws: WorkspaceView, uri: Seq<char>) -> WorkspaceView {
    WorkspaceView {
        sources: SourcesView {
            store: StoreView { owners: ws.sources.store.owners.remove(uri), ..ws.sources.store },
            ..ws.sources
        },
        ..ws
    }
}

/// The workspace with an owner of a document.
pub open spec fn with_known_owner(ws: WorkspaceView, uri: Seq<char>, owner: OwnerView) -> WorkspaceView {
    WorkspaceView {
        sources: SourcesView {
            store: StoreView {
                owners: ws.sources.store.owners.insert(uri, owner),
                ..ws.sources.store
            },
            ..ws.sources
        },
        ..ws
    }
}

/// The workspace after a document left its old URI. Its owner goes along.
pub open spec fn departed(
    ws: WorkspaceView,
    old_uri: Seq<char>,
    new_uri: Seq<char>,
    now: u64,
) -> WorkspaceView {
    let left = closed(without_owner(ws, old_uri), old_uri, now).0;
    let owners = ws.sources.store.owners;
    if owners.contains_key(old_uri) {
        with_known_owner(left, new_uri, taken_along(owners[old_uri]))
    } else {
        left
    }
}

/// The workspace after a document is refused, where it is open.
pub open spec fn refused_if_open(
    ws: WorkspaceView,
    uri: Seq<char>,
    reason: RejectReason,
    now: u64,
) -> WorkspaceView {
    if ws.documents.contains_key(uri) {
        rejected(ws, uri, ws.documents[uri].version, reason.text(uri), now)
    } else {
        ws
    }
}

/// The workspace after a planned rename that was not carried out as planned.
pub open spec fn mismatched(
    ws: WorkspaceView,
    old_uri: Seq<char>,
    new_uri: Seq<char>,
    now: u64,
) -> WorkspaceView {
    refused_if_open(
        refused_if_open(ws, old_uri, RejectReason::RenameMismatch, now),
        new_uri,
        RejectReason::RenameTargetMismatch,
        now,
    )
}

/// The workspace after a planned rename, but for the plan itself.
pub open spec fn transferred(
    ws: WorkspaceView,
    old_uri: Seq<char>,
    new_uri: Seq<char>,
    pending: PendingView,
    owned: bool,
    now: u64,
) -> WorkspaceView {
    let source = open_document(ws, old_uri);
    let target = open_document(ws, new_uri);
    let context = read_context(
        ws.sources.store,
        if target is Some {
            new_uri
        } else {
            old_uri
        },
    );
    match transfer_of(pending, source, target, context is Some) {
        Transfer::Refused => mismatched(ws, old_uri, new_uri, now),
        Transfer::AlreadyMoved => ws,
        Transfer::Move => {
            let left = departed(ws, old_uri, new_uri, now);
            let version = source->0.version;
            if admitted(left, new_uri) {
                accepted(
                    left,
                    new_uri,
                    pending.expected_text->0,
                    version,
                    context->0,
                    owned,
                    false,
                    now,
                )
            } else {
                mismatched(
                    rejected(
                        left,
                        new_uri,
                        version,
                        RejectReason::RenameNotAdmitted.text(new_uri),
                        now,
                    ),
                    old_uri,
                    new_uri,
                    now,
                )
            }
        },
    }
}

/// The workspace after a file was renamed, before the file system is looked at.
pub open spec fn renamed(
    ws: WorkspaceView,
    old_uri: Seq<char>,
    new_uri: Seq<char>,
    owned: bool,
    now: u64,
) -> WorkspaceView {
    if ws.renames.contains_key(old_uri) && ws.renames[old_uri].new_uri == new_uri {
        let after = transferred(ws, old_uri, new_uri, ws.renames[old_uri], owned, now);
        WorkspaceView { renames: after.renames.remove(old_uri), ..after }
    } else {
        refused_if_open(ws, old_uri, RejectReason::RenameUnmatched, now)
    }
}

/// A text that is given back has room once more.
proof fn lemma_text_moves(ws: WorkspaceView, old_uri: Seq<char>, new_uri: Seq<char>, now: u64)
    requires
        ws.documents.dom().finite(),
        total_text_bytes(ws.documents) <= usize::MAX,
        ws.documents.contains_key(old_uri),
        !ws.documents.contains_key(new_uri),
        ws.documents[old_uri].text is Some,
    ensures
        fits_machine(departed(ws, old_uri, new_uri, now), new_uri, ws.documents[old_uri].text->0),
{
    let w = |uri: Seq<char>, document: DocumentView| text_bytes(document);
    lemma_sum_remove(ws.documents, w, old_uri);
    lemma_sum_bounds(ws.documents, w);
    assert(w(old_uri, ws.documents[old_uri]) == text_bytes(ws.documents[old_uri]));
    let left = departed(ws, old_uri, new_uri, now);
    assert(left.documents == ws.documents.remove(old_uri));
    assert(!left.documents.contains_key(new_uri));
}

impl Workspace {
    /// Refuses a document, where it is open.
    fn refuse_if_open(&mut self, uri: &str, reason: RejectReason, now: u64)
        requires
            old(self).wf(),
        ensures
            final(self).wf(),
            final(self).same_rest(old(self)),
            final(self)@ == refused_if_open(old(self)@, uri@, reason, now),
    {
        if let Some(version) = self.documents.document_version(uri) {
            self.reject_open_document(uri, version, reason.message(uri).as_str(), now);
        }
    }

    fn note_mismatch(&mut self, old_uri: &str, new_uri: &str, now: u64)
        requires
            old(self).wf(),
        ensures
            final(self).wf(),
            final(self).same_rest(old(self)),
            final(self)@ == mismatched(old(self)@, old_uri@, new_uri@, now),
    {
        self.refuse_if_open(old_uri, RejectReason::RenameMismatch, now);
        self.refuse_if_open(new_uri, RejectReason::RenameTargetMismatch, now);
    }

    /// Lets a document leave its old URI. Its owner goes along.
    fn depart(&mut self, old_uri: &str, new_uri: &str, now: u64)
        requires
            old(self).wf(),
        ensures
            final(self).wf(),
            final(self).same_rest(old(self)),
            final(self)@ == departed(old(self)@, old_uri@, new_uri@, now),
    {
        let ghost before = self@;
        proof {
            lemma_deep_remove(self.sources.contexts.owners@, old_uri@);
        }
        let owner = self.sources.contexts.owners.remove(old_uri);
        proof {
            assert(self@.sources.store =~= without_owner(before, old_uri@).sources.store);
            assert(self@.sources =~= without_owner(before, old_uri@).sources);
            assert(self@ =~= without_owner(before, old_uri@));
        }
        let _known = self.close_document(old_uri, now);
        let ghost left = self@;
        match owner {
            Some(mut owner) => {
                proof {
                    assert(before.sources.store.owners[old_uri@] == owner@);
                }
                owner.legacy_route = None;
                owner.needs_revalidation = true;
                proof {
                    assert(owner@ == taken_along(before.sources.store.owners[old_uri@]));
                    lemma_deep_insert(self.sources.contexts.owners@, new_uri@, owner);
                }
                let ghost kept = owner@;
                let _other = self.sources.contexts.owners.insert(new_uri.to_owned(), owner);
                proof {
                    let after = with_known_owner(left, new_uri@, kept);
                    assert(self@.sources.store =~= after.sources.store);
                    assert(self@.sources =~= after.sources);
                    assert(self@ =~= after);
                }
            },
            None => {},
        }
    }

    fn transfer(
        &mut self,
        old_uri: &str,
        new_uri: &str,
        pending: &PendingUnitFileRename,
        owned: bool,
        now: u64,
    )
        requires
            old(self).wf(),
        ensures
            final(self).wf(),
            final(self).same_rest(old(self)),
            final(self)@ == transferred(old(self)@, old_uri@, new_uri@, pending@, owned, now),
    {
        let ghost before = self@;
        let target_open = self.documents.contains(new_uri);
        let read = if target_open {
            new_uri
        } else {
            old_uri
        };
        let context = match self.sources.contexts.open_document_contexts.get(read) {
            Some(key) => Some(key.duplicate()),
            None => match self.sources.contexts.document_contexts.get(read) {
                Some(key) => Some(key.duplicate()),
                None => None,
            },
        };
        let decision = plan_transfer(
            pending,
            self.documents.get(old_uri),
            self.documents.get(new_uri),
            context.is_some(),
        );
        match decision {
            Transfer::Refused => self.note_mismatch(old_uri, new_uri, now),
            Transfer::AlreadyMoved => {},
            Transfer::Move => {
                if let (Some(key), Some(text), Some(version)) = (
                    context,
                    &pending.expected_text,
                    self.documents.document_version(old_uri),
                ) {
                    proof {
                        lemma_text_moves(before, old_uri@, new_uri@, now);
                    }
                    self.depart(old_uri, new_uri, now);
                    if self.documents.can_admit(new_uri) {
                        self.accept_open_document(
                            new_uri,
                            text.as_str(),
                            version,
                            &DocumentContext { key: &key, owned },
                            false,
                            now,
                        );
                    } else {
                        let reason = RejectReason::RenameNotAdmitted;
                        self.reject_open_document(
                            new_uri,
                            version,
                            reason.message(new_uri).as_str(),
                            now,
                        );
                        self.note_mismatch(old_uri, new_uri, now);
                    }
                }
            },
        }
    }

    /// Notes that a file was renamed. Where the rename was planned, and the document is just
    /// what was planned, it goes on under its new URI; `owned` says whether the context that
    /// it is read in is then that of its owner. Any other open document is refused: its text
    /// is not known to be that of the file. The two URIs that the change concerns are
    /// returned.
    pub fn did_rename_file(&mut self, old_uri: &str, new_uri: &str, owned: bool, now: u64) -> (r: (
        String,
        String,
    ))
        requires
            old(self).wf(),
        ensures
            final(self).wf(),
            final(self).same_rest(old(self)),
            r.0@ == canonical(old_uri@),
            r.1@ == canonical(new_uri@),
            final(self)@ == renamed(
                old(self)@,
                canonical(old_uri@),
                canonical(new_uri@),
                owned,
                now,
            ),
    {
        let old_uri = canonical_file_uri(old_uri);
        let new_uri = canonical_file_uri(new_uri);
        match self.renames.matching(old_uri.as_str(), new_uri.as_str()) {
            Some(pending) => {
                self.transfer(old_uri.as_str(), new_uri.as_str(), &pending, owned, now);
                let ghost after = self@;
                self.renames.remove(old_uri.as_str());
                proof {
                    assert(self@ =~= (WorkspaceView {
                        renames: after.renames.remove(old_uri@),
                        ..after
                    }));
                }
            },
            None => {
                self.refuse_if_open(old_uri.as_str(), RejectReason::RenameUnmatched, now);
            },
        }
        (old_uri, new_uri)
    }
}

/// However a rename ends, the document is not open under its old URI with a text that the
/// file there does not have: it has moved, or it is refused.
pub proof fn law_renamed_documents_do_not_stay(
    ws: WorkspaceView,
    old_uri: Seq<char>,
    new_uri: Seq<char>,
    owned: bool,
    now: u64,
)
    requires
        old_uri != new_uri,
        forall|uri: Seq<char>| #[trigger]
            ws.documents.contains_key(uri) ==> byte_len(uri)
                <= crate::limits::MAX_OPEN_DOCUMENT_URI_BYTES,
    ensures
        ({
            let after = renamed(ws, old_uri, new_uri, owned, now);
            after.documents.contains_key(old_uri) ==> after.documents[old_uri].text is None
        }),
{
}

} // verus!
