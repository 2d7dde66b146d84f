//! What the client's messages do to its documents.

use vstd::prelude::*;

use crate::documents::{total_text_bytes, DocumentView};
use crate::edits::{changed_by_all, ChangeView};
use crate::lifecycle::{changed_document, closed, saved, text_or_empty};
use crate::limits::{MAX_OPEN_DOCUMENTS, MAX_OPEN_DOCUMENT_URI_BYTES};
use crate::project::KeyView;
use crate::schedule::DIAGNOSTIC_DEBOUNCE;
use crate::strings::byte_len;
use crate::workspace::{opened, room_made, room_of, WorkspaceView};

verus! {

/// Nothing was changed of the documents but of one.
pub open spec fn others_stay(before: WorkspaceView, after: WorkspaceView, uri: Seq<char>) -> bool {
    forall|other: Seq<char>|
        other != uri ==> (#[trigger] after.documents.contains_key(other)
            <==> before.documents.contains_key(other)) && (before.documents.contains_key(other)
            ==> after.documents[other] == before.documents[other])
}

/// A document is open with a text.
pub open spec fn holds_text(ws: WorkspaceView, uri: Seq<char>, text: Seq<char>, version: i32) -> bool {
    &&& ws.documents.contains_key(uri)
    &&& ws.documents[uri].text == Some(text)
    &&& ws.documents[uri].version == version
    &&& ws.documents[uri].rejection is None
}

/// A document is open, but its text was refused.
pub open spec fn holds_refusal(ws: WorkspaceView, uri: Seq<char>, version: i32) -> bool {
    &&& ws.documents.contains_key(uri)
    &&& ws.documents[uri].text is None
    &&& ws.documents[uri].version == version
    &&& ws.documents[uri].rejection is Some
}

/// When a document is due that was given a text.
pub open spec fn put_off(ws: WorkspaceView, uri: Seq<char>, now: u64) -> bool {
    &&& ws.schedule.contains_key(uri)
    &&& now + DIAGNOSTIC_DEBOUNCE <= u64::MAX ==> ws.schedule[uri] == now + DIAGNOSTIC_DEBOUNCE
}

/// The text fits: by itself, and beside the texts of the other documents.
pub open spec fn text_fits(ws: WorkspaceView, uri: Seq<char>, text: Seq<char>) -> bool {
    let others = total_text_bytes(ws.documents) - if ws.documents.contains_key(uri)
        && ws.documents[uri].text is Some {
        byte_len(ws.documents[uri].text->0) as int
    } else {
        0
    };
    &&& byte_len(text) <= ws.limits.max_file_bytes
    &&& others + byte_len(text) <= ws.limits.max_total_bytes
}

/// The counts of bytes are those of a workspace.
pub open spec fn counts_hold(ws: WorkspaceView, uri: Seq<char>) -> bool {
    &&& 0 <= total_text_bytes(ws.documents) <= usize::MAX
    &&& ws.documents.contains_key(uri) && ws.documents[uri].text is Some ==> byte_len(
        ws.documents[uri].text->0,
    ) <= total_text_bytes(ws.documents)
}

/// Opening is refused exactly where there are too many documents, where the URI is too long,
/// where no project was found and where the document lies outside; then no document changes. An
/// opening in a version that is not new changes nothing. Any other leaves the document open in
/// its version, with its text exactly where that fits, and else with the reason why not; a text
/// is due after a pause and a refusal at once. Other documents stay as they are.
pub proof fn law_what_opening_does(
    ws: WorkspaceView,
    uri: Seq<char>,
    text: Seq<char>,
    version: i32,
    context: Result<(KeyView, bool), Seq<char>>,
    supported: bool,
    now: u64,
)
    requires
        counts_hold(ws, uri),
        byte_len(text) <= usize::MAX,
    ensures
        ({
            let (after, r) = opened(ws, uri, text, version, context, supported, now);
            let known = ws.documents.contains_key(uri);
            let full = !known && ws.documents.dom().len() >= MAX_OPEN_DOCUMENTS;
            let long = byte_len(uri) > MAX_OPEN_DOCUMENT_URI_BYTES;
            let old = known && version <= ws.documents[uri].version;
            let fits = text_fits(ws, uri, text) && room_made(
                ws,
                uri,
                byte_len(text) as usize,
            ).1;
            &&& r is Err <==> full || long || context is Err || !supported
            &&& r is Err ==> after.documents == ws.documents && after.schedule == ws.schedule
            &&& r is Err && (full || long) ==> after.fence.contains(uri) || after.fence_permanent
            &&& r is Err && !full && !long ==> after == ws
            &&& r is Err && !full && !long && context is Err ==> r == Err::<(), Seq<char>>(
                context->Err_0,
            )
            &&& r is Ok && old ==> after == ws
            &&& r is Ok && !old && fits ==> holds_text(after, uri, text, version) && put_off(
                after,
                uri,
                now,
            ) && !after.fence.contains(uri)
            &&& r is Ok && !old && !fits ==> holds_refusal(after, uri, version)
                && after.schedule.contains_key(uri) && after.schedule[uri] == now
            &&& others_stay(ws, after, uri)
        }),
{
}

/// A change of a document that is not open is refused, and a version that is not new changes
/// nothing. A newer version without changes only counts. Else the document gets the text that
/// the changes make of its own, where they can be applied and it has room, and is refused where
/// not; the document then has the new version. Without a project nothing changes.
pub proof fn law_what_changing_does(
    ws: WorkspaceView,
    uri: Seq<char>,
    changes: Seq<ChangeView>,
    version: i32,
    context: Result<(KeyView, bool), Seq<char>>,
    now: u64,
)
    requires
        byte_len(uri) <= MAX_OPEN_DOCUMENT_URI_BYTES,
    ensures
        ({
            let (after, r) = changed_document(ws, uri, changes, version, context, now);
            let known = ws.documents.contains_key(uri);
            let document = ws.documents[uri];
            let new = known && version > document.version;
            let made = changed_by_all(
                room_of(ws, uri),
                text_or_empty(document),
                document.rejection is None,
                changes,
                0,
            );
            let fits = made is Ok && room_made(ws, uri, byte_len(made->Ok_0) as usize).1;
            &&& r is Err <==> !known || new && changes.len() > 0 && made is Ok && context is Err
            &&& r is Err ==> after == ws
            &&& known && !new ==> after == ws
            &&& r is Ok && new && changes.len() == 0 ==> after.documents.contains_key(uri)
                && after.documents[uri] == (DocumentView { version, ..document }) && put_off(
                after,
                uri,
                now,
            )
            &&& r is Ok && new && changes.len() > 0 && fits ==> holds_text(
                after,
                uri,
                made->Ok_0,
                version,
            ) && put_off(after, uri, now) && after.documents[uri].identity_generation
                == document.identity_generation
            &&& r is Ok && new && changes.len() > 0 && !fits ==> holds_refusal(after, uri, version)
                && after.schedule[uri] == now
            &&& others_stay(ws, after, uri)
        }),
{
}

/// Saving says nothing of a document that is not open. One that was refused stays refused, and
/// the client is told. Without a text the document stays as it is and is diagnosed again. With a
/// text that fits it has that text, in its version; with one that does not, it is refused, or
/// stays as it is where only the sources leave no room.
pub proof fn law_what_saving_does(
    ws: WorkspaceView,
    uri: Seq<char>,
    text: Option<Seq<char>>,
    context: Result<(KeyView, bool), Seq<char>>,
    now: u64,
)
    requires
        counts_hold(ws, uri),
        byte_len(uri) <= MAX_OPEN_DOCUMENT_URI_BYTES,
        text is Some ==> byte_len(text->0) <= usize::MAX,
    ensures
        ({
            let (after, r) = saved(ws, uri, text, context, now);
            let known = ws.documents.contains_key(uri);
            let document = ws.documents[uri];
            let refused = document.rejection is Some;
            let room = room_made(ws, uri, byte_len(text->0) as usize).1;
            &&& !known ==> r is Ok && after.documents == ws.documents && after.schedule
                == ws.schedule
            &&& known && refused ==> r is Err && after == ws
            &&& known && !refused && text is None ==> r is Ok && after.documents == ws.documents
                && put_off(after, uri, now)
            &&& known && !refused && text is Some && !text_fits(ws, uri, text->0) ==> r is Ok
                && holds_refusal(after, uri, document.version)
            &&& known && !refused && text is Some && text_fits(ws, uri, text->0) ==> {
                &&& r is Ok <==> context is Ok && room
                &&& r is Ok ==> holds_text(after, uri, text->0, document.version) && put_off(
                    after,
                    uri,
                    now,
                )
                &&& r is Err ==> after.documents == ws.documents
            }
            &&& others_stay(ws, after, uri)
        }),
{
}

/// Closing a document says whether it, or its refusal, was known. It is not due any more, and
/// no other document changes. Where it was known, the change is counted.
pub proof fn law_what_closing_does(ws: WorkspaceView, uri: Seq<char>, now: u64)
    ensures
        ({
            let (after, r) = closed(ws, uri, now);
            &&& r <==> ws.documents.contains_key(uri) || ws.fence.contains(uri)
            &&& !after.documents.contains_key(uri)
            &&& !after.fence.contains(uri)
            &&& !after.dependencies.contains_key(uri)
            &&& !r ==> after.generations == ws.generations && after.sources == ws.sources
            &&& r && ws.generations.source < u64::MAX ==> after.generations.source
                > ws.generations.source
            &&& !r ==> !after.schedule.contains_key(uri)
            &&& others_stay(ws, after, uri)
        }),
{
}

} // verus!
