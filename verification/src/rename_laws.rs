//! What a rename of a unit leads to.

use vstd::prelude::*;

use crate::documents::DocumentView;
use crate::edits::{char_at, spliced};
use crate::limits::MAX_OPEN_DOCUMENT_URI_BYTES;
use crate::paths::{extension_of, parent_of, stem_text_of, Parts};
use crate::renames::{
    apart, edited, places, provider_of_edits, provider_of_operations, renamed_text, renamed_unit,
    staged, transfer_of, all_expected_bytes, DocumentEdit, EditOperation, EditPlan, PendingView,
    PlacedView, PlanProblem, PlannedEdit, Transfer, MAX_PENDING_FILE_RENAMES,
    MAX_PENDING_FILE_RENAME_BYTES, MAX_PROVIDER_EDITS,
};
use crate::renaming::{read_context, renamed};
use crate::strings::{byte_len, same_ci};
use crate::uris::{canonical, uri_path};
use crate::workspace::WorkspaceView;

verus! {

/// A text from a place on, with the edits from the `i`-th on carried out: what lies between
/// them is the text's own.
pub open spec fn carried_out(source: Seq<char>, edits: Seq<PlacedView>, i: int, at: int) -> Seq<char>
    decreases edits.len() - i,
{
    if i < 0 || i >= edits.len() {
        source.skip(at)
    } else {
        source.subrange(at, edits[i].from) + edits[i].text + carried_out(
            source,
            edits,
            i + 1,
            edits[i].to,
        )
    }
}

/// The edits lie in the text.
pub open spec fn lie_in(source: Seq<char>, edits: Seq<PlacedView>) -> bool {
    forall|i: int|
        0 <= i < edits.len() ==> 0 <= (#[trigger] edits[i]).from <= edits[i].to <= source.len()
}

proof fn lemma_carried_out(source: Seq<char>, edits: Seq<PlacedView>, i: int, at: int)
    requires
        0 <= i <= edits.len(),
        0 <= at <= source.len(),
        i < edits.len() ==> at <= edits[i].from,
        lie_in(source, edits),
        apart(edits),
        edited(source, edits, i) is Ok,
    ensures
        edited(source, edits, i)->Ok_0 == source.take(at) + carried_out(source, edits, i, at),
        edited(source, edits, i)->Ok_0.len() >= at,
    decreases edits.len() - i,
{
    if i < edits.len() {
        let edit = edits[i];
        let after = edited(source, edits, i + 1)->Ok_0;
        lemma_carried_out(source, edits, i + 1, edit.to);
        let rest = carried_out(source, edits, i + 1, edit.to);
        assert(after == source.take(edit.to) + rest);
        assert(after.take(edit.from) =~= source.take(edit.from));
        assert(after.skip(edit.to) =~= rest);
        assert(spliced(after, edit.from, edit.to, edit.text) =~= source.take(at) + (
        source.subrange(at, edit.from) + edit.text + rest));
    } else {
        assert(source.take(at) + source.skip(at) =~= source);
    }
}

/// The edits that a plan has for a document are carried out on its text, each where it stands,
/// and nothing else of the text changes.
pub proof fn law_edits_are_carried_out_where_they_stand(source: Seq<char>, edits: Seq<PlacedView>)
    requires
        lie_in(source, edits),
        apart(edits),
        edited(source, edits, 0) is Ok,
    ensures
        edited(source, edits, 0)->Ok_0 == carried_out(source, edits, 0, 0),
{
    lemma_carried_out(source, edits, 0, 0);
    assert(source.take(0) + carried_out(source, edits, 0, 0) =~= carried_out(source, edits, 0, 0));
}

/// An edit stands in a text: it has a beginning and an end there, in this order, and nothing
/// else is asked of it.
pub open spec fn stands(source: Seq<char>, edit: PlannedEdit) -> bool {
    &&& !edit.annotated
    &&& char_at(source, edit.range.start) is Some
    &&& char_at(source, edit.range.end) is Some
    &&& char_at(source, edit.range.start)->0 <= char_at(source, edit.range.end)->0
}

proof fn lemma_places(source: Seq<char>, edits: Seq<PlannedEdit>, n: int)
    requires
        0 <= n <= edits.len(),
    ensures
        places(source, edits, n) is Ok <==> forall|i: int|
            0 <= i < n ==> stands(source, #[trigger] edits[i]),
        places(source, edits, n) is Ok ==> places(source, edits, n)->Ok_0.len() == n && forall|
            i: int,
        |
            0 <= i < n ==> (#[trigger] places(source, edits, n)->Ok_0[i]) == (PlacedView {
                from: char_at(source, edits[i].range.start)->0,
                to: char_at(source, edits[i].range.end)->0,
                text: edits[i].text@,
            }),
    decreases n,
{
    if n > 0 {
        lemma_places(source, edits, n - 1);
        if places(source, edits, n) is Ok {
            assert forall|i: int| 0 <= i < n implies stands(source, #[trigger] edits[i]) by {
                if i == n - 1 {
                }
            }
        }
    }
}

/// A rename has a text for the document exactly where its plan has edits for the version that
/// is open, not too many, all of which stand in the text and none of which reaches into another,
/// and where the text does not become too long.
pub proof fn law_when_a_rename_has_a_text(
    document: DocumentEdit,
    source: Seq<char>,
    version: i32,
    list: Seq<PlacedView>,
)
    requires
        document.edits@.len() > 0,
        list.len() == document.edits@.len(),
        forall|i: int|
            0 <= i < list.len() ==> (#[trigger] list[i]) == (PlacedView {
                from: char_at(source, document.edits@[i].range.start)->0,
                to: char_at(source, document.edits@[i].range.end)->0,
                text: document.edits@[i].text@,
            }),
    ensures
        ({
            let plan = provider_of_edits(seq![document], document.uri@, 0);
            let all = places(source, document.edits@, document.edits@.len() as int);
            let stand = forall|i: int|
                0 <= i < list.len() ==> stands(source, #[trigger] document.edits@[i]);
            &&& plan == Ok::<DocumentEdit, PlanProblem>(document)
            &&& all is Ok <==> stand
            &&& stand ==> all->Ok_0 == list
        }),
{
    lemma_places(source, document.edits@, document.edits@.len() as int);
    let all = places(source, document.edits@, document.edits@.len() as int);
    if all is Ok {
        assert(all->Ok_0 =~= list);
    }
    assert(seq![document][0] == document);
}

/// A document's text after a rename, where it has one, is made of edits that its plan has for
/// just this document in just this version, and of no more than may be.
pub proof fn law_a_rename_edits_the_version_it_was_planned_for(
    documents: Vec<DocumentEdit>,
    uri: Seq<char>,
    new_uri: Seq<char>,
    source: Seq<char>,
    version: i32,
)
    ensures
        renamed_text(EditPlan::Edits(documents), uri, new_uri, source, version) is Ok
            ==> exists|k: int|
            0 <= k < documents@.len() && (#[trigger] documents@[k]).uri@ == uri
                && documents@[k].version == Some(version) && 0 < documents@[k].edits@.len()
                <= MAX_PROVIDER_EDITS && forall|i: int|
                0 <= i < documents@[k].edits@.len() ==> stands(
                    source,
                    #[trigger] documents@[k].edits@[i],
                ),
        renamed_text(EditPlan::Unversioned, uri, new_uri, source, version) is Err,
{
    lemma_first_edits(documents@, uri, 0);
    if renamed_text(EditPlan::Edits(documents), uri, new_uri, source, version) is Ok {
        let k = choose|k: int|
            0 <= k < documents@.len() && (#[trigger] documents@[k]).uri@ == uri
                && provider_of_edits(documents@, uri, 0) == Ok::<DocumentEdit, PlanProblem>(
                documents@[k],
            );
        lemma_places(source, documents@[k].edits@, documents@[k].edits@.len() as int);
        assert(documents@[k].uri@ == uri);
    }
}

proof fn lemma_first_edits(documents: Seq<DocumentEdit>, uri: Seq<char>, i: int)
    requires
        0 <= i <= documents.len(),
    ensures
        provider_of_edits(documents, uri, i) is Ok ==> exists|k: int|
            i <= k < documents.len() && (#[trigger] documents[k]).uri@ == uri && provider_of_edits(
                documents,
                uri,
                i,
            ) == Ok::<DocumentEdit, PlanProblem>(documents[k]),
        provider_of_edits(documents, uri, i) is Err <==> forall|k: int|
            i <= k < documents.len() ==> (#[trigger] documents[k]).uri@ != uri,
    decreases documents.len() - i,
{
    if i < documents.len() {
        lemma_first_edits(documents, uri, i + 1);
        if documents[i].uri@ == uri {
            assert(provider_of_edits(documents, uri, i) == Ok::<DocumentEdit, PlanProblem>(
                documents[i],
            ));
        } else if provider_of_edits(documents, uri, i + 1) is Ok {
            let k = choose|k: int|
                i + 1 <= k < documents.len() && (#[trigger] documents[k]).uri@ == uri
                    && provider_of_edits(documents, uri, i + 1) == Ok::<DocumentEdit, PlanProblem>(
                    documents[k],
                );
            assert(documents[k].uri@ == uri);
        }
    }
}

proof fn lemma_operations(
    operations: Seq<EditOperation>,
    uri: Seq<char>,
    new_uri: Seq<char>,
    found: Option<DocumentEdit>,
    i: int,
)
    requires
        0 <= i <= operations.len(),
    ensures
        ({
            let r = provider_of_operations(operations, uri, new_uri, false, found, i);
            let last = operations[operations.len() - 1];
            &&& r is Ok ==> i < operations.len() && last is Rename && canonical(
                last->old_uri@,
            ) == uri && canonical(last->new_uri@) == new_uri && forall|k: int|
                i <= k < operations.len() - 1 ==> #[trigger] operations[k] is Edit
            &&& r is Ok && found is Some ==> r->Ok_0 == found->0
            &&& r is Ok && found is None ==> exists|k: int|
                i <= k < operations.len() - 1 && #[trigger] operations[k] == EditOperation::Edit(
                    r->Ok_0,
                ) && r->Ok_0.uri@ == uri
        }),
    decreases operations.len() - i,
{
    if i < operations.len() {
        match operations[i] {
            EditOperation::Edit(document) => {
                let next = if found is None && document.uri@ == uri {
                    Some(document)
                } else {
                    found
                };
                lemma_operations(operations, uri, new_uri, next, i + 1);
                let r = provider_of_operations(operations, uri, new_uri, false, found, i);
                if r is Ok {
                    assert forall|k: int| i <= k < operations.len() - 1 implies #[trigger] operations[k] is Edit by {
                        if k == i {
                        }
                    }
                    if found is None {
                        if document.uri@ == uri {
                            assert(operations[i] == EditOperation::Edit(r->Ok_0));
                        } else {
                            let k = choose|k: int|
                                i + 1 <= k < operations.len() - 1 && #[trigger] operations[k]
                                    == EditOperation::Edit(r->Ok_0) && r->Ok_0.uri@ == uri;
                            assert(operations[k] == EditOperation::Edit(r->Ok_0));
                        }
                    }
                }
            },
            EditOperation::Rename { old_uri, new_uri: to } => {
                reveal_with_fuel(provider_of_operations, 2);
            },
            EditOperation::Other => {},
        }
    }
}

/// Where a plan is made of operations, it is carried out only where these are edits and, as the
/// very last, the rename itself, from the one URI to the other; the document's edits are among
/// them.
pub proof fn law_a_plan_ends_with_its_rename(
    operations: Seq<EditOperation>,
    uri: Seq<char>,
    new_uri: Seq<char>,
)
    ensures
        ({
            let r = provider_of_operations(operations, uri, new_uri, false, None, 0);
            let last = operations[operations.len() - 1];
            r is Ok ==> {
                &&& operations.len() > 1
                &&& last is Rename && canonical(last->old_uri@) == uri && canonical(
                    last->new_uri@,
                ) == new_uri
                &&& forall|k: int| 0 <= k < operations.len() - 1 ==> #[trigger] operations[k] is Edit
                &&& r->Ok_0.uri@ == uri
                &&& exists|k: int|
                    0 <= k < operations.len() - 1 && #[trigger] operations[k]
                        == EditOperation::Edit(r->Ok_0)
            }
        }),
{
    lemma_operations(operations, uri, new_uri, None, 0);
}

/// A unit can be renamed with its file exactly where both files are in one directory and end
/// alike, as units do, where the new name is another one, not open yet, and where the source
/// declares the old name, once and without a namespace. It then gets the name of its new file.
pub proof fn law_when_a_unit_can_be_renamed(
    old_path: Option<Parts>,
    new_path: Option<Parts>,
    target_open: bool,
    declared: Option<Seq<char>>,
    positioned: bool,
)
    ensures
        ({
            let r = renamed_unit(old_path, new_path, target_open, declared, positioned);
            let old_end = extension_of(old_path->0);
            let new_end = extension_of(new_path->0);
            let old_stem = stem_text_of(old_path->0);
            let new_stem = stem_text_of(new_path->0);
            let a_unit = same_ci(old_end->0, "pas"@) || same_ci(old_end->0, "pp"@) || same_ci(
                old_end->0,
                "pascal"@,
            );
            let b_unit = same_ci(new_end->0, "pas"@) || same_ci(new_end->0, "pp"@) || same_ci(
                new_end->0,
                "pascal"@,
            );
            &&& r is Ok <==> {
                &&& old_path is Some && new_path is Some
                &&& parent_of(old_path->0) == parent_of(new_path->0)
                &&& old_end is Some && new_end is Some && a_unit && b_unit && same_ci(
                    old_end->0,
                    new_end->0,
                )
                &&& old_stem is Some && new_stem is Some && new_stem->0.len() > 0
                &&& !same_ci(old_stem->0, new_stem->0)
                &&& !target_open
                &&& declared is Some && !declared->0.contains('.') && same_ci(
                    declared->0,
                    old_stem->0,
                )
                &&& positioned
            }
            &&& r is Ok ==> r->Ok_0 == new_stem->0
        }),
{
}

/// A rename is kept in mind exactly where the document has no other, where there are not too
/// many, where both files are in one directory, and where the document is closed or has a text
/// for which the plan has an outcome, within what may be kept. It says what the document has to
/// be for the rename to be the planned one.
pub proof fn law_which_renames_are_kept_in_mind(
    pending: Map<Seq<char>, PendingView>,
    old_uri: Seq<char>,
    new_uri: Seq<char>,
    document: Option<DocumentView>,
    plan: EditPlan,
)
    ensures
        ({
            let r = staged(pending, old_uri, new_uri, document, plan);
            let near = uri_path(old_uri) is Some && uri_path(new_uri) is Some && parent_of(
                uri_path(old_uri)->0,
            ) == parent_of(uri_path(new_uri)->0);
            let outcome = renamed_text(
                plan,
                old_uri,
                new_uri,
                document->0.text->0,
                document->0.version,
            );
            let room = !pending.contains_key(old_uri) && pending.dom().len()
                < MAX_PENDING_FILE_RENAMES;
            &&& r is Ok <==> room && near && (document is None || document->0.text is Some
                && outcome is Ok && all_expected_bytes(pending) + byte_len(outcome->Ok_0)
                <= MAX_PENDING_FILE_RENAME_BYTES)
            &&& r is Ok ==> r->Ok_0.new_uri == new_uri && r->Ok_0.closed_verified_version is None
            &&& r is Ok && document is None ==> r->Ok_0.expected_text is None
            &&& r is Ok && document is Some ==> r->Ok_0.expected_text == Some(outcome->Ok_0)
                && r->Ok_0.original_version == Some(document->0.version)
                && r->Ok_0.original_identity_generation == Some(document->0.identity_generation)
        }),
{
}

/// A document that was open when its rename was planned moves exactly where it is open under
/// its old URI alone, with the planned text, as the document for which that was planned and in a
/// later version. It has moved where it was closed just so and is open under its new URI with
/// that text.
pub proof fn law_the_planned_text_moves(
    pending: PendingView,
    source: Option<DocumentView>,
    target: Option<DocumentView>,
    read_in_context: bool,
)
    requires
        pending.expected_text is Some,
        pending.original_version is Some,
        pending.original_identity_generation is Some,
    ensures
        transfer_of(pending, source, target, read_in_context) == Transfer::Move <==> {
            &&& target is None && source is Some && read_in_context
            &&& source->0.text == pending.expected_text
            &&& source->0.version > pending.original_version->0
            &&& source->0.identity_generation == pending.original_identity_generation->0
        },
        transfer_of(pending, source, target, read_in_context) == Transfer::AlreadyMoved <==> {
            &&& source is None && target is Some && read_in_context
            &&& target->0.text == pending.expected_text && target->0.rejection is None
            &&& pending.closed_verified_version is Some && pending.closed_verified_version->0
                > pending.original_version->0
        },
{
}

/// After a rename that was planned and that moves the document, it is open under its new URI
/// with the planned text, and not under its old one; the plan is done. A rename that was not
/// planned refuses the document where it is open, and changes nothing of the documents where it
/// is not.
pub proof fn law_what_a_rename_does(
    ws: WorkspaceView,
    old_uri: Seq<char>,
    new_uri: Seq<char>,
    owned: bool,
    now: u64,
)
    requires
        old_uri != new_uri,
        byte_len(old_uri) <= MAX_OPEN_DOCUMENT_URI_BYTES,
        byte_len(new_uri) <= MAX_OPEN_DOCUMENT_URI_BYTES,
        ws.documents.dom().finite(),
        ws.documents.dom().len() <= crate::limits::MAX_OPEN_DOCUMENTS,
    ensures
        ({
            let after = renamed(ws, old_uri, new_uri, owned, now);
            let planned = ws.renames.contains_key(old_uri) && ws.renames[old_uri].new_uri == new_uri;
            let plan = ws.renames[old_uri];
            let open = ws.documents.contains_key(old_uri);
            let document = ws.documents[old_uri];
            let moves = planned && open && !ws.documents.contains_key(new_uri) && transfer_of(
                plan,
                Some(document),
                None,
                read_context(ws.sources.store, old_uri) is Some,
            ) == Transfer::Move;
            &&& moves ==> after.documents.contains_key(new_uri) && after.documents[new_uri].text
                == plan.expected_text && after.documents[new_uri].version == document.version
                && after.documents[new_uri].rejection is None && !after.documents.contains_key(
                old_uri,
            )
            &&& planned ==> !after.renames.contains_key(old_uri)
            &&& !planned && open ==> after.documents[old_uri].text is None
                && after.documents[old_uri].rejection is Some
            &&& !planned && !open ==> after == ws
            &&& planned && open && !moves && !ws.documents.contains_key(new_uri)
                ==> after.documents.contains_key(old_uri) && after.documents[old_uri].rejection is Some
        }),
{
    if ws.documents.contains_key(old_uri) {
        assert(ws.documents.remove(old_uri).dom() =~= ws.documents.dom().remove(old_uri));
    }
}

/// A text that edits make is never too long, and edits whose outcomes are not, one after the
/// other from the last, do make one.
pub proof fn law_renamed_texts_are_bounded(source: Seq<char>, edits: Seq<PlacedView>, i: int)
    requires
        0 <= i < edits.len(),
    ensures
        edited(source, edits, i) is Ok ==> byte_len(edited(source, edits, i)->Ok_0)
            <= MAX_PENDING_FILE_RENAME_BYTES,
        edited(source, edits, i) is Ok <==> edited(source, edits, i + 1) is Ok && byte_len(
            spliced(
                edited(source, edits, i + 1)->Ok_0,
                edits[i].from,
                edits[i].to,
                edits[i].text,
            ),
        ) <= MAX_PENDING_FILE_RENAME_BYTES,
        edited(source, edits, edits.len() as int) == Ok::<Seq<char>, PlanProblem>(source),
{
}

} // verus!
