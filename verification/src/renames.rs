//! Renames of unit files: what is planned for the document of a renamed unit, and the
//! renames that a client was offered and has not carried out yet.

use vstd::prelude::*;

use crate::documents::{DocumentView, OpenDocument, OpenDocuments};
use crate::edits::{char_at, char_index, replace_chars, spliced, ChangeRange};
use crate::paths::{extension_of, parent_of, stem_text_of, FilePath, Parts};
use crate::sorting::{sort, sorted_list, views, Ordered};
use crate::strings::{byte_len, byte_length, chars_of, eq_ignore_case, has_char, same_ci, same_str};
use crate::strmap::{lemma_deep_insert, lemma_deep_remove, StrMap};
use crate::sums::{lemma_sum_bounds, lemma_sum_insert, lemma_sum_remove, map_sum};
use crate::uris::{canonical, canonical_file_uri, file_path_of, optional_text, uri_path};

verus! {

pub const MAX_PENDING_FILE_RENAMES: usize = 64;

pub const MAX_PENDING_FILE_RENAME_BYTES: usize = 8 * 1024 * 1024;

pub const MAX_PROVIDER_EDITS: usize = 10_000;

/// One edit of a document, as planned.
#[derive(Debug)]
pub struct PlannedEdit {
    pub annotated: bool,
    pub range: ChangeRange,
    pub text: String,
}

/// The edits of one document, as planned.
#[derive(Debug)]
pub struct DocumentEdit {
    pub uri: String,
    pub version: Option<i32>,
    pub edits: Vec<PlannedEdit>,
}

/// One operation of a plan.
#[derive(Debug)]
pub enum EditOperation {
    Edit(DocumentEdit),
    Rename { old_uri: String, new_uri: String },
    Other,
}

/// What is planned for a workspace.
#[derive(Debug)]
pub enum EditPlan {
    /// Edits without versions, or none.
    Unversioned,
    Edits(Vec<DocumentEdit>),
    Operations(Vec<EditOperation>),
}

/// Why a planned rename cannot be followed.
#[derive(Clone, Copy, Debug, PartialEq, Eq, Structural)]
pub enum PlanProblem {
    EditAfterRename,
    UnexpectedRename,
    UnsupportedOperation,
    RenameOmitted,
    Unversioned,
    ProviderOmitted,
    VersionMismatch,
    EditCount,
    Annotated,
    InvalidStart,
    InvalidEnd,
    Reversed,
    Overlap,
    TooLong,
}

impl PlanProblem {
    /// How the problem reads.
    pub open spec fn text(self) -> Seq<char> {
        match self {
            PlanProblem::EditAfterRename => "text edits must precede the RenameFile operation"@,
            PlanProblem::UnexpectedRename =>
                "unit rename transition has an unexpected RenameFile operation"@,
            PlanProblem::UnsupportedOperation =>
                "unit rename transition contains an unsupported resource operation"@,
            PlanProblem::RenameOmitted =>
                "unit symbol rename omitted its negotiated RenameFile operation"@,
            PlanProblem::Unversioned =>
                "unit rename transition requires versioned documentChanges"@,
            PlanProblem::ProviderOmitted =>
                "unit rename edit omitted the open provider source"@,
            PlanProblem::VersionMismatch =>
                "unit rename edit version does not match the provider overlay"@,
            PlanProblem::EditCount =>
                "unit rename provider edit count is empty or over its bound"@,
            PlanProblem::Annotated =>
                "annotated provider edits are unsupported in rename transitions"@,
            PlanProblem::InvalidStart => "provider rename edit has an invalid start position"@,
            PlanProblem::InvalidEnd => "provider rename edit has an invalid end position"@,
            PlanProblem::Reversed => "provider rename edit range is reversed"@,
            PlanProblem::Overlap => "provider rename edits overlap"@,
            PlanProblem::TooLong =>
                "expected renamed provider text exceeds the transition bound"@,
        }
    }

    /// How the problem reads.
    pub fn message(self) -> (r: &'static str)
        ensures
            r@ == self.text(),
    {
        match self {
            PlanProblem::EditAfterRename => "text edits must precede the RenameFile operation",
            PlanProblem::UnexpectedRename =>
                "unit rename transition has an unexpected RenameFile operation",
            PlanProblem::UnsupportedOperation =>
                "unit rename transition contains an unsupported resource operation",
            PlanProblem::RenameOmitted =>
                "unit symbol rename omitted its negotiated RenameFile operation",
            PlanProblem::Unversioned =>
                "unit rename transition requires versioned documentChanges",
            PlanProblem::ProviderOmitted => "unit rename edit omitted the open provider source",
            PlanProblem::VersionMismatch =>
                "unit rename edit version does not match the provider overlay",
            PlanProblem::EditCount => "unit rename provider edit count is empty or over its bound",
            PlanProblem::Annotated =>
                "annotated provider edits are unsupported in rename transitions",
            PlanProblem::InvalidStart => "provider rename edit has an invalid start position",
            PlanProblem::InvalidEnd => "provider rename edit has an invalid end position",
            PlanProblem::Reversed => "provider rename edit range is reversed",
            PlanProblem::Overlap => "provider rename edits overlap",
            PlanProblem::TooLong =>
                "expected renamed provider text exceeds the transition bound",
        }
    }
}

/// The first edits of a document among operations, from the `i`-th on, where `renamed` says
/// that the rename was seen: the operations are edits and, at their end, the rename.
pub open spec fn provider_of_operations(
    operations: Seq<EditOperation>,
    uri: Seq<char>,
    new_uri: Seq<char>,
    renamed: bool,
    found: Option<DocumentEdit>,
    i: int,
) -> Result<DocumentEdit, PlanProblem>
    decreases operations.len() - i,
{
    if i < 0 || i >= operations.len() {
        if !renamed {
            Err(PlanProblem::RenameOmitted)
        } else {
            match found {
                Some(document) => Ok(document),
                None => Err(PlanProblem::ProviderOmitted),
            }
        }
    } else {
        match operations[i] {
            EditOperation::Edit(document) => if renamed {
                Err(PlanProblem::EditAfterRename)
            } else {
                let next = if found is None && document.uri@ == uri {
                    Some(document)
                } else {
                    found
                };
                provider_of_operations(operations, uri, new_uri, renamed, next, i + 1)
            },
            EditOperation::Rename { old_uri: from, new_uri: to } => if renamed || canonical(from@)
                != uri || canonical(to@) != new_uri || i + 1 != operations.len() {
                Err(PlanProblem::UnexpectedRename)
            } else {
                provider_of_operations(operations, uri, new_uri, true, found, i + 1)
            },
            EditOperation::Other => Err(PlanProblem::UnsupportedOperation),
        }
    }
}

/// The first edits of a document, from the `i`-th on.
pub open spec fn provider_of_edits(documents: Seq<DocumentEdit>, uri: Seq<char>, i: int) -> Result<
    DocumentEdit,
    PlanProblem,
>
    decreases documents.len() - i,
{
    if i < 0 || i >= documents.len() {
        Err(PlanProblem::ProviderOmitted)
    } else if documents[i].uri@ == uri {
        Ok(documents[i])
    } else {
        provider_of_edits(documents, uri, i + 1)
    }
}

/// What is planned for the document of the renamed unit.
pub open spec fn provider_edits(plan: EditPlan, uri: Seq<char>, new_uri: Seq<char>) -> Result<
    DocumentEdit,
    PlanProblem,
> {
    match plan {
        EditPlan::Unversioned => Err(PlanProblem::Unversioned),
        EditPlan::Edits(documents) => provider_of_edits(documents@, uri, 0),
        EditPlan::Operations(operations) => provider_of_operations(
            operations@,
            uri,
            new_uri,
            false,
            None,
            0,
        ),
    }
}

fn find_provider<'a>(plan: &'a EditPlan, uri: &str, new_uri: &str) -> (r: Result<
    &'a DocumentEdit,
    PlanProblem,
>)
    ensures
        match r {
            Ok(document) => provider_edits(*plan, uri@, new_uri@) == Ok::<
                DocumentEdit,
                PlanProblem,
            >(*document),
            Err(problem) => provider_edits(*plan, uri@, new_uri@) == Err::<
                DocumentEdit,
                PlanProblem,
            >(problem),
        },
{
    match plan {
        EditPlan::Unversioned => Err(PlanProblem::Unversioned),
        EditPlan::Edits(documents) => {
            let mut i: usize = 0;
            while i < documents.len()
                invariant
                    i <= documents@.len(),
                    provider_of_edits(documents@, uri@, 0) == provider_of_edits(
                        documents@,
                        uri@,
                        i as int,
                    ),
                    *plan == EditPlan::Edits(*documents),
                decreases documents@.len() - i,
            {
                if same_str(documents[i].uri.as_str(), uri) {
                    return Ok(&documents[i]);
                }
                i += 1;
            }
            Err(PlanProblem::ProviderOmitted)
        },
        EditPlan::Operations(operations) => {
            let mut renamed = false;
            let mut found: Option<&DocumentEdit> = None;
            let mut i: usize = 0;
            while i < operations.len()
                invariant
                    i <= operations@.len(),
                    *plan == EditPlan::Operations(*operations),
                    provider_of_operations(operations@, uri@, new_uri@, false, None, 0)
                        == provider_of_operations(
                        operations@,
                        uri@,
                        new_uri@,
                        renamed,
                        match found {
                            Some(document) => Some(*document),
                            None => None,
                        },
                        i as int,
                    ),
                decreases operations@.len() - i,
            {
                match &operations[i] {
                    EditOperation::Edit(document) => {
                        if renamed {
                            return Err(PlanProblem::EditAfterRename);
                        }
                        if found.is_none() && same_str(document.uri.as_str(), uri) {
                            found = Some(document);
                        }
                    },
                    EditOperation::Rename { old_uri: from, new_uri: to } => {
                        if renamed || !same_str(canonical_file_uri(from.as_str()).as_str(), uri)
                            || !same_str(canonical_file_uri(to.as_str()).as_str(), new_uri) || i + 1
                            != operations.len() {
                            return Err(PlanProblem::UnexpectedRename);
                        }
                        renamed = true;
                    },
                    EditOperation::Other => {
                        return Err(PlanProblem::UnsupportedOperation);
                    },
                }
                i += 1;
            }
            if !renamed {
                return Err(PlanProblem::RenameOmitted);
            }
            match found {
                Some(document) => Ok(document),
                None => Err(PlanProblem::ProviderOmitted),
            }
        },
    }
}

/// An edit with its place in a text, in characters.
#[derive(Debug)]
pub struct PlacedEdit {
    pub from: usize,
    pub to: usize,
    pub text: String,
}

/// An edit with its place in a text, in characters.
pub struct PlacedView {
    pub from: int,
    pub to: int,
    pub text: Seq<char>,
}

impl View for PlacedEdit {
    type V = PlacedView;

    open spec fn view(&self) -> PlacedView {
        PlacedView { from: self.from as int, to: self.to as int, text: self.text@ }
    }
}

impl Ordered for PlacedEdit {
    open spec fn precedes(a: PlacedView, b: PlacedView) -> bool {
        a.from < b.from || (a.from == b.from && a.to < b.to)
    }

    proof fn lemma_order(a: PlacedView, b: PlacedView, c: PlacedView) {
    }

    fn is_before(&self, other: &Self) -> (r: bool) {
        self.from < other.from || (self.from == other.from && self.to < other.to)
    }
}

/// What is wrong with an edit of a text.
pub open spec fn edit_problem(source: Seq<char>, edit: PlannedEdit) -> Option<PlanProblem> {
    if edit.annotated {
        Some(PlanProblem::Annotated)
    } else if char_at(source, edit.range.start) is None {
        Some(PlanProblem::InvalidStart)
    } else if char_at(source, edit.range.end) is None {
        Some(PlanProblem::InvalidEnd)
    } else if char_at(source, edit.range.start)->0 > char_at(source, edit.range.end)->0 {
        Some(PlanProblem::Reversed)
    } else {
        None
    }
}

/// The place of an edit in a text.
pub open spec fn placed(source: Seq<char>, edit: PlannedEdit) -> PlacedView {
    PlacedView {
        from: char_at(source, edit.range.start)->0,
        to: char_at(source, edit.range.end)->0,
        text: edit.text@,
    }
}

/// The places of the first `n` edits, or what is wrong with the first that has none.
pub open spec fn places(source: Seq<char>, edits: Seq<PlannedEdit>, n: int) -> Result<
    Seq<PlacedView>,
    PlanProblem,
>
    decreases n,
{
    if n <= 0 {
        Ok(seq![])
    } else {
        match places(source, edits, n - 1) {
            Err(problem) => Err(problem),
            Ok(before) => match edit_problem(source, edits[n - 1]) {
                Some(problem) => Err(problem),
                None => Ok(before.push(placed(source, edits[n - 1]))),
            },
        }
    }
}

/// No edit reaches into the one after it.
pub open spec fn apart(edits: Seq<PlacedView>) -> bool {
    forall|i: int| 0 <= i < edits.len() - 1 ==> (#[trigger] edits[i]).to <= edits[i + 1].from
}

/// A text after the edits from the `i`-th on, the last first. It must not get too long on
/// the way.
pub open spec fn edited(source: Seq<char>, edits: Seq<PlacedView>, i: int) -> Result<
    Seq<char>,
    PlanProblem,
>
    decreases edits.len() - i,
{
    if i < 0 || i >= edits.len() {
        Ok(source)
    } else {
        match edited(source, edits, i + 1) {
            Err(problem) => Err(problem),
            Ok(after) => {
                let next = spliced(after, edits[i].from, edits[i].to, edits[i].text);
                if byte_len(next) > MAX_PENDING_FILE_RENAME_BYTES {
                    Err(PlanProblem::TooLong)
                } else {
                    Ok(next)
                }
            },
        }
    }
}

/// The text that a document has once a planned rename is carried out.
pub open spec fn renamed_text(
    plan: EditPlan,
    uri: Seq<char>,
    new_uri: Seq<char>,
    source: Seq<char>,
    version: i32,
) -> Result<Seq<char>, PlanProblem> {
    match provider_edits(plan, uri, new_uri) {
        Err(problem) => Err(problem),
        Ok(document) => {
            let count = document.edits@.len();
            if document.version != Some(version) {
                Err(PlanProblem::VersionMismatch)
            } else if count == 0 || count > MAX_PROVIDER_EDITS {
                Err(PlanProblem::EditCount)
            } else {
                match places(source, document.edits@, count as int) {
                    Err(problem) => Err(problem),
                    Ok(list) => {
                        let sorted = sorted_list::<PlacedEdit>(list);
                        if !apart(sorted) {
                            Err(PlanProblem::Overlap)
                        } else {
                            edited(source, sorted, 0)
                        }
                    },
                }
            }
        },
    }
}

proof fn lemma_places_fail(source: Seq<char>, edits: Seq<PlannedEdit>, n: int, m: int)
    requires
        n <= m,
        places(source, edits, n) is Err,
    ensures
        places(source, edits, m) == places(source, edits, n),
    decreases m - n,
{
    if n < m {
        lemma_places_fail(source, edits, n, m - 1);
    }
}

proof fn lemma_places(source: Seq<char>, edits: Seq<PlannedEdit>, n: int)
    requires
        0 <= n <= edits.len(),
    ensures
        places(source, edits, n) matches Ok(list) ==> list.len() == n && forall|i: int|
            0 <= i < list.len() ==> 0 <= (#[trigger] list[i]).from <= list[i].to <= source.len(),
    decreases n,
{
    if n > 0 {
        lemma_places(source, edits, n - 1);
        if edit_problem(source, edits[n - 1]) is None {
            crate::text::lemma_boundary(source, edits[n - 1].range.start->0 as int);
            crate::text::lemma_boundary(source, edits[n - 1].range.end->0 as int);
        }
    }
}

fn place_edits(source: &str, chars: &Vec<char>, edits: &Vec<PlannedEdit>) -> (r: Result<
    Vec<PlacedEdit>,
    PlanProblem,
>)
    requires
        chars@ == source@,
    ensures
        match r {
            Ok(list) => places(source@, edits@, edits@.len() as int) == Ok::<
                Seq<PlacedView>,
                PlanProblem,
            >(views(list@)),
            Err(problem) => places(source@, edits@, edits@.len() as int) == Err::<
                Seq<PlacedView>,
                PlanProblem,
            >(problem),
        },
{
    let ghost text = source@;
    let mut list: Vec<PlacedEdit> = Vec::new();
    let mut i: usize = 0;
    proof {
        assert(views(list@) =~= seq![]);
    }
    while i < edits.len()
        invariant
            i <= edits@.len(),
            text == source@,
            chars@ == text,
            places(text, edits@, i as int) == Ok::<Seq<PlacedView>, PlanProblem>(views(list@)),
        decreases edits@.len() - i,
    {
        let edit = &edits[i];
        let problem: Option<PlanProblem>;
        let from = match edit.range.start {
            Some(offset) => char_index(chars, offset),
            None => None,
        };
        let to = match edit.range.end {
            Some(offset) => char_index(chars, offset),
            None => None,
        };
        if edit.annotated {
            problem = Some(PlanProblem::Annotated);
        } else {
            match (from, to) {
                (None, _) => {
                    problem = Some(PlanProblem::InvalidStart);
                },
                (_, None) => {
                    problem = Some(PlanProblem::InvalidEnd);
                },
                (Some(from), Some(to)) => {
                    if from > to {
                        problem = Some(PlanProblem::Reversed);
                    } else {
                        problem = None;
                        let ghost held = list@;
                        let placed_edit = PlacedEdit { from, to, text: edit.text.clone() };
                        list.push(placed_edit);
                        proof {
                            assert(placed_edit@ == placed(text, *edit));
                            assert(views(list@) =~= views(held).push(placed_edit@));
                        }
                    }
                },
            }
        }
        if let Some(problem) = problem {
            proof {
                assert(edit_problem(text, *edit) == Some(problem));
                assert(places(text, edits@, i + 1) is Err);
                lemma_places_fail(text, edits@, i + 1, edits@.len() as int);
            }
            return Err(problem);
        }
        i += 1;
    }
    Ok(list)
}

proof fn lemma_edited_prefix(source: Seq<char>, edits: Seq<PlacedView>, i: int)
    requires
        0 <= i <= edits.len(),
        apart(edits),
        forall|j: int|
            0 <= j < edits.len() ==> 0 <= (#[trigger] edits[j]).from <= edits[j].to
                <= source.len(),
    ensures
        edited(source, edits, i) matches Ok(text) ==> {
            &&& i < edits.len() ==> text.len() >= edits[i].from && text.take(edits[i].from)
                == source.take(edits[i].from)
            &&& i == edits.len() ==> text == source
        },
    decreases edits.len() - i,
{
    if i < edits.len() {
        lemma_edited_prefix(source, edits, i + 1);
        if edited(source, edits, i + 1) is Ok {
            let after = edited(source, edits, i + 1)->Ok_0;
            let from = edits[i].from;
            let to = edits[i].to;
            if i + 1 < edits.len() {
                let bound = edits[i + 1].from;
                assert(edits[i].to <= edits[i + 1].from);
                assert(after.take(bound) == source.take(bound));
                assert(after.take(bound).take(from) == source.take(bound).take(from));
                assert(after.take(bound).take(from) =~= after.take(from));
                assert(source.take(bound).take(from) =~= source.take(from));
            }
            let next = spliced(after, from, to, edits[i].text);
            assert(next.take(from) =~= after.take(from));
        }
    }
}

proof fn lemma_edited_fails(source: Seq<char>, edits: Seq<PlacedView>, i: int, k: int)
    requires
        0 <= k <= i,
        edited(source, edits, i) is Err,
        i <= edits.len(),
    ensures
        edited(source, edits, k) == edited(source, edits, i),
    decreases i - k,
{
    if k < i {
        lemma_edited_fails(source, edits, i, k + 1);
    }
}

fn are_apart(edits: &Vec<PlacedEdit>) -> (r: bool)
    ensures
        r == apart(views(edits@)),
{
    let ghost list = views(edits@);
    let mut i: usize = 1;
    while i < edits.len()
        invariant
            1 <= i,
            list == views(edits@),
            forall|j: int| 0 <= j < i - 1 && j < list.len() - 1 ==> (#[trigger] list[j]).to <= list[j + 1].from,
        decreases edits@.len() - i,
    {
        proof {
            assert(list[i - 1] == edits@[i - 1]@);
            assert(list[i as int] == edits@[i as int]@);
        }
        if edits[i - 1].to > edits[i].from {
            proof {
                assert(list[i - 1].to > list[i - 1 + 1].from);
            }
            return false;
        }
        i += 1;
    }
    true
}

fn apply_edits(source: &str, edits: &Vec<PlacedEdit>) -> (r: Result<String, PlanProblem>)
    requires
        apart(views(edits@)),
        forall|j: int|
            0 <= j < edits@.len() ==> 0 <= (#[trigger] views(edits@)[j]).from <= views(edits@)[j].to
                <= source@.len(),
    ensures
        match r {
            Ok(text) => edited(source@, views(edits@), 0) == Ok::<Seq<char>, PlanProblem>(text@),
            Err(problem) => edited(source@, views(edits@), 0) == Err::<Seq<char>, PlanProblem>(
                problem,
            ),
        },
{
    let ghost list = views(edits@);
    let ghost text = source@;
    let mut updated = source.to_owned();
    let mut i: usize = edits.len();
    while i > 0
        invariant
            i <= edits@.len(),
            list == views(edits@),
            text == source@,
            apart(list),
            forall|j: int|
                0 <= j < list.len() ==> 0 <= (#[trigger] list[j]).from <= list[j].to <= text.len(),
            edited(text, list, i as int) == Ok::<Seq<char>, PlanProblem>(updated@),
        decreases i,
    {
        let ghost at = i as int;
        i -= 1;
        let edit = &edits[i];
        let chars = chars_of(updated.as_str());
        proof {
            assert(list[i as int] == edit@);
            lemma_edited_prefix(text, list, at);
            if at < list.len() {
                assert(list[i as int].to <= list[i + 1].from);
            }
        }
        updated = replace_chars(&chars, edit.from, edit.to, edit.text.as_str());
        if byte_length(updated.as_str()) > MAX_PENDING_FILE_RENAME_BYTES {
            proof {
                lemma_edited_fails(text, list, i as int, 0);
            }
            return Err(PlanProblem::TooLong);
        }
    }
    Ok(updated)
}

/// The text that a document has once a planned rename is carried out, or why that cannot
/// be told.
pub fn expected_renamed_document_text(
    plan: &EditPlan,
    uri: &str,
    new_uri: &str,
    source: &str,
    version: i32,
) -> (r: Result<String, PlanProblem>)
    ensures
        match r {
            Ok(text) => renamed_text(*plan, uri@, new_uri@, source@, version) == Ok::<
                Seq<char>,
                PlanProblem,
            >(text@),
            Err(problem) => renamed_text(*plan, uri@, new_uri@, source@, version) == Err::<
                Seq<char>,
                PlanProblem,
            >(problem),
        },
{
    let document = match find_provider(plan, uri, new_uri) {
        Ok(document) => document,
        Err(problem) => {
            return Err(problem);
        },
    };
    if document.version != Some(version) {
        return Err(PlanProblem::VersionMismatch);
    }
    if document.edits.len() == 0 || document.edits.len() > MAX_PROVIDER_EDITS {
        return Err(PlanProblem::EditCount);
    }
    let chars = chars_of(source);
    let list = match place_edits(source, &chars, &document.edits) {
        Ok(list) => list,
        Err(problem) => {
            return Err(problem);
        },
    };
    let ghost unsorted = views(list@);
    let sorted = sort(list);
    proof {
        lemma_places(source@, document.edits@, document.edits@.len() as int);
        crate::sorting::law_sorting_orders_and_keeps::<PlacedEdit>(unsorted);
        assert(views(sorted@).len() == sorted@.len());
        assert forall|j: int| 0 <= j < sorted@.len() implies 0 <= (
        #[trigger] views(sorted@)[j]).from <= views(sorted@)[j].to <= source@.len() by {
            assert(sorted_list::<PlacedEdit>(unsorted).contains(views(sorted@)[j]));
            assert(unsorted.contains(views(sorted@)[j]));
            let k = choose|k: int| 0 <= k < unsorted.len() && unsorted[k] == views(sorted@)[j];
            assert(unsorted[k] == views(sorted@)[j]);
        }
    }
    if !are_apart(&sorted) {
        return Err(PlanProblem::Overlap);
    }
    apply_edits(source, &sorted)
}

/// Why a unit file cannot be renamed with its unit.
#[derive(Clone, Copy, Debug, PartialEq, Eq, Structural)]
pub enum UnitRenameProblem {
    NoFile,
    OtherDirectory,
    Extension,
    OldName,
    NewName,
    SameName,
    TargetOpen,
    NotIndexed,
    NameMismatch,
    NoDeclaration,
}

impl UnitRenameProblem {
    /// How the problem reads.
    pub open spec fn text(self) -> Seq<char> {
        match self {
            UnitRenameProblem::NoFile => "unit file rename requires file URIs"@,
            UnitRenameProblem::OtherDirectory =>
                "unit file rename currently requires the same directory"@,
            UnitRenameProblem::Extension =>
                "unit file rename requires a supported Pascal extension preserved exactly"@,
            UnitRenameProblem::OldName => "unit filename is not valid UTF-8"@,
            UnitRenameProblem::NewName => "new unit filename is not valid UTF-8"@,
            UnitRenameProblem::SameName =>
                "case-only and empty-basename unit renames are unsupported"@,
            UnitRenameProblem::TargetOpen => "unit rename target already has an open document"@,
            UnitRenameProblem::NotIndexed =>
                "unit rename requires an indexed source declaration"@,
            UnitRenameProblem::NameMismatch =>
                "unit rename requires an unnamespaced declaration matching its filename"@,
            UnitRenameProblem::NoDeclaration =>
                "unit rename requires one parsed unit declaration"@,
        }
    }

    /// How the problem reads.
    pub fn message(self) -> (r: &'static str)
        ensures
            r@ == self.text(),
    {
        match self {
            UnitRenameProblem::NoFile => "unit file rename requires file URIs",
            UnitRenameProblem::OtherDirectory =>
                "unit file rename currently requires the same directory",
            UnitRenameProblem::Extension =>
                "unit file rename requires a supported Pascal extension preserved exactly",
            UnitRenameProblem::OldName => "unit filename is not valid UTF-8",
            UnitRenameProblem::NewName => "new unit filename is not valid UTF-8",
            UnitRenameProblem::SameName =>
                "case-only and empty-basename unit renames are unsupported",
            UnitRenameProblem::TargetOpen => "unit rename target already has an open document",
            UnitRenameProblem::NotIndexed => "unit rename requires an indexed source declaration",
            UnitRenameProblem::NameMismatch =>
                "unit rename requires an unnamespaced declaration matching its filename",
            UnitRenameProblem::NoDeclaration =>
                "unit rename requires one parsed unit declaration",
        }
    }
}

/// A file that a unit may be in.
pub open spec fn unit_extension(extension: Seq<char>) -> bool {
    same_ci(extension, "pas"@) || same_ci(extension, "pp"@) || same_ci(extension, "pascal"@)
}

fn is_unit_extension(extension: &str) -> (r: bool)
    ensures
        r == unit_extension(extension@),
{
    eq_ignore_case(extension, "pas") || eq_ignore_case(extension, "pp") || eq_ignore_case(
        extension,
        "pascal",
    )
}

/// Whether both files end alike, as units do.
pub open spec fn keeps_extension(old_path: Parts, new_path: Parts) -> bool {
    match (extension_of(old_path), extension_of(new_path)) {
        (Some(old_extension), Some(new_extension)) => unit_extension(old_extension)
            && unit_extension(new_extension) && same_ci(old_extension, new_extension),
        _ => false,
    }
}

/// The name that a unit gets with its new file, or why it cannot be renamed. `declared` is
/// the name in its source, and `positioned` says that the declaration has a place there.
pub open spec fn renamed_unit(
    old_path: Option<Parts>,
    new_path: Option<Parts>,
    target_open: bool,
    declared: Option<Seq<char>>,
    positioned: bool,
) -> Result<Seq<char>, UnitRenameProblem> {
    if old_path is None || new_path is None {
        Err(UnitRenameProblem::NoFile)
    } else if parent_of(old_path->0) != parent_of(new_path->0) {
        Err(UnitRenameProblem::OtherDirectory)
    } else if !keeps_extension(old_path->0, new_path->0) {
        Err(UnitRenameProblem::Extension)
    } else if stem_text_of(old_path->0) is None {
        Err(UnitRenameProblem::OldName)
    } else if stem_text_of(new_path->0) is None {
        Err(UnitRenameProblem::NewName)
    } else {
        let old_stem = stem_text_of(old_path->0)->0;
        let new_name = stem_text_of(new_path->0)->0;
        if new_name.len() == 0 || same_ci(old_stem, new_name) {
            Err(UnitRenameProblem::SameName)
        } else if target_open {
            Err(UnitRenameProblem::TargetOpen)
        } else if declared is None {
            Err(UnitRenameProblem::NotIndexed)
        } else if declared->0.contains('.') || !same_ci(declared->0, old_stem) {
            Err(UnitRenameProblem::NameMismatch)
        } else if !positioned {
            Err(UnitRenameProblem::NoDeclaration)
        } else {
            Ok(new_name)
        }
    }
}

fn same_parents(old_path: &FilePath, new_path: &FilePath) -> (r: bool)
    ensures
        r == (parent_of(old_path@) == parent_of(new_path@)),
{
    match (old_path.parent(), new_path.parent()) {
        (Some(a), Some(b)) => a.same(&b),
        (None, None) => true,
        _ => false,
    }
}

/// The name that a unit gets when its file is renamed.
pub fn unit_rename_name(
    old_uri: &str,
    new_uri: &str,
    documents: &OpenDocuments,
    declared: Option<&str>,
    positioned: bool,
) -> (r: Result<String, UnitRenameProblem>)
    ensures
        ({
            let outcome = renamed_unit(
                uri_path(canonical(old_uri@)),
                uri_path(canonical(new_uri@)),
                documents@.contains_key(canonical(new_uri@)),
                match declared {
                    Some(name) => Some(name@),
                    None => None,
                },
                positioned,
            );
            match r {
                Ok(name) => outcome == Ok::<Seq<char>, UnitRenameProblem>(name@),
                Err(problem) => outcome == Err::<Seq<char>, UnitRenameProblem>(problem),
            }
        }),
{
    let old_uri = canonical_file_uri(old_uri);
    let new_uri = canonical_file_uri(new_uri);
    let (old_path, new_path) = match (file_path_of(old_uri.as_str()), file_path_of(
        new_uri.as_str(),
    )) {
        (Some(old_path), Some(new_path)) => (old_path, new_path),
        _ => {
            return Err(UnitRenameProblem::NoFile);
        },
    };
    if !same_parents(&old_path, &new_path) {
        return Err(UnitRenameProblem::OtherDirectory);
    }
    let kept = match (old_path.extension(), new_path.extension()) {
        (Some(a), Some(b)) => is_unit_extension(a.as_str()) && is_unit_extension(b.as_str())
            && eq_ignore_case(a.as_str(), b.as_str()),
        _ => false,
    };
    if !kept {
        return Err(UnitRenameProblem::Extension);
    }
    let old_stem = match old_path.stem_text() {
        Some(stem) => stem,
        None => {
            return Err(UnitRenameProblem::OldName);
        },
    };
    let new_name = match new_path.stem_text() {
        Some(stem) => stem,
        None => {
            return Err(UnitRenameProblem::NewName);
        },
    };
    let chars = chars_of(new_name.as_str());
    if chars.len() == 0 || eq_ignore_case(old_stem.as_str(), new_name.as_str()) {
        return Err(UnitRenameProblem::SameName);
    }
    if documents.contains(new_uri.as_str()) {
        return Err(UnitRenameProblem::TargetOpen);
    }
    match declared {
        None => Err(UnitRenameProblem::NotIndexed),
        Some(name) => if has_char(name, '.') || !eq_ignore_case(name, old_stem.as_str()) {
            Err(UnitRenameProblem::NameMismatch)
        } else if !positioned {
            Err(UnitRenameProblem::NoDeclaration)
        } else {
            Ok(new_name)
        },
    }
}

/// A rename that a client was offered.
#[derive(Debug)]
pub struct PendingUnitFileRename {
    pub new_uri: String,
    pub original_identity_generation: Option<u64>,
    pub original_version: Option<i32>,
    pub expected_text: Option<String>,
    /// The version at which the document was closed with the expected text.
    pub closed_verified_version: Option<i32>,
}

/// A rename that a client was offered.
pub struct PendingView {
    pub new_uri: Seq<char>,
    pub original_identity_generation: Option<u64>,
    pub original_version: Option<i32>,
    pub expected_text: Option<Seq<char>>,
    pub closed_verified_version: Option<i32>,
}

impl View for PendingUnitFileRename {
    type V = PendingView;

    open spec fn view(&self) -> PendingView {
        PendingView {
            new_uri: self.new_uri@,
            original_identity_generation: self.original_identity_generation,
            original_version: self.original_version,
            expected_text: optional_text(self.expected_text),
            closed_verified_version: self.closed_verified_version,
        }
    }
}

impl PendingUnitFileRename {
    /// A rename that stands for the same.
    pub fn copy(&self) -> (r: Self)
        ensures
            r@ == self@,
    {
        PendingUnitFileRename {
            new_uri: self.new_uri.clone(),
            original_identity_generation: self.original_identity_generation,
            original_version: self.original_version,
            expected_text: crate::settings::copy_optional_text(&self.expected_text),
            closed_verified_version: self.closed_verified_version,
        }
    }
}

/// The bytes of the text that a rename is expected to lead to.
pub open spec fn expected_bytes(pending: PendingView) -> int {
    match pending.expected_text {
        Some(text) => byte_len(text) as int,
        None => 0,
    }
}

/// The bytes of all texts that renames are expected to lead to.
pub open spec fn all_expected_bytes(pending: Map<Seq<char>, PendingView>) -> int {
    map_sum(pending, |uri: Seq<char>, rename: PendingView| expected_bytes(rename))
}

/// Why a rename is not taken up.
#[derive(Clone, Copy, Debug, PartialEq, Eq, Structural)]
pub enum StageProblem {
    AlreadyPending,
    TooMany,
    NoSourceFile,
    NoTargetFile,
    OtherDirectory,
    Rejected,
    Plan(PlanProblem),
    Overflow,
    TooMuchText,
}

impl StageProblem {
    /// How the problem reads.
    pub open spec fn text(self) -> Seq<char> {
        match self {
            StageProblem::AlreadyPending =>
                "another unit file rename transition is already pending for this source"@,
            StageProblem::TooMany => "pending unit file rename transition limit reached"@,
            StageProblem::NoSourceFile => "unit rename transition requires a file URI"@,
            StageProblem::NoTargetFile => "unit rename transition target requires a file URI"@,
            StageProblem::OtherDirectory => "unit rename transition must remain in one directory"@,
            StageProblem::Rejected =>
                "rejected open provider cannot participate in a file rename"@,
            StageProblem::Plan(problem) => problem.text(),
            StageProblem::Overflow => "pending unit rename bytes overflow"@,
            StageProblem::TooMuchText => "pending unit file rename text limit reached"@,
        }
    }

    /// How the problem reads.
    pub fn message(self) -> (r: &'static str)
        ensures
            r@ == self.text(),
    {
        match self {
            StageProblem::AlreadyPending =>
                "another unit file rename transition is already pending for this source",
            StageProblem::TooMany => "pending unit file rename transition limit reached",
            StageProblem::NoSourceFile => "unit rename transition requires a file URI",
            StageProblem::NoTargetFile => "unit rename transition target requires a file URI",
            StageProblem::OtherDirectory => "unit rename transition must remain in one directory",
            StageProblem::Rejected => "rejected open provider cannot participate in a file rename",
            StageProblem::Plan(problem) => problem.message(),
            StageProblem::Overflow => "pending unit rename bytes overflow",
            StageProblem::TooMuchText => "pending unit file rename text limit reached",
        }
    }
}

/// The renames that a client was offered, by the sources that they rename.
#[derive(Debug)]
pub struct PendingRenames {
    pub pending: StrMap<PendingUnitFileRename>,
    pub bytes: usize,
}

impl View for PendingRenames {
    type V = Map<Seq<char>, PendingView>;

    open spec fn view(&self) -> Map<Seq<char>, PendingView> {
        self.pending.deep()
    }
}

/// What taking up a rename leads to.
pub open spec fn staged(
    pending: Map<Seq<char>, PendingView>,
    old_uri: Seq<char>,
    new_uri: Seq<char>,
    document: Option<DocumentView>,
    plan: EditPlan,
) -> Result<PendingView, StageProblem> {
    if pending.contains_key(old_uri) {
        Err(StageProblem::AlreadyPending)
    } else if pending.dom().len() >= MAX_PENDING_FILE_RENAMES {
        Err(StageProblem::TooMany)
    } else if uri_path(old_uri) is None {
        Err(StageProblem::NoSourceFile)
    } else if uri_path(new_uri) is None {
        Err(StageProblem::NoTargetFile)
    } else if parent_of(uri_path(old_uri)->0) != parent_of(uri_path(new_uri)->0) {
        Err(StageProblem::OtherDirectory)
    } else {
        match document {
            None => Ok(
                PendingView {
                    new_uri,
                    original_identity_generation: None,
                    original_version: None,
                    expected_text: None,
                    closed_verified_version: None,
                },
            ),
            Some(document) => if document.text is None {
                Err(StageProblem::Rejected)
            } else {
                match renamed_text(plan, old_uri, new_uri, document.text->0, document.version) {
                    Err(problem) => Err(StageProblem::Plan(problem)),
                    Ok(expected) => {
                        let total = all_expected_bytes(pending) + byte_len(expected);
                        if total > usize::MAX {
                            Err(StageProblem::Overflow)
                        } else if total > MAX_PENDING_FILE_RENAME_BYTES {
                            Err(StageProblem::TooMuchText)
                        } else {
                            Ok(
                                PendingView {
                                    new_uri,
                                    original_identity_generation: Some(
                                        document.identity_generation,
                                    ),
                                    original_version: Some(document.version),
                                    expected_text: Some(expected),
                                    closed_verified_version: None,
                                },
                            )
                        }
                    },
                }
            },
        }
    }
}

/// A document that is closed just as a rename of it leaves it.
pub open spec fn closes_as_planned(pending: PendingView, document: DocumentView) -> bool {
    &&& pending.expected_text is Some
    &&& document.text == pending.expected_text
    &&& document.rejection is None
    &&& pending.original_identity_generation == Some(document.identity_generation)
    &&& pending.original_version is Some
    &&& document.version > pending.original_version->0
}

fn is_text(text: &Option<String>, wanted: &str) -> (r: bool)
    ensures
        r == (optional_text(*text) == Some(wanted@)),
{
    match text {
        Some(text) => same_str(text.as_str(), wanted),
        None => false,
    }
}

impl PendingRenames {
    /// There are no more renames than may be pending, and no more text than may be kept for
    /// them.
    pub open spec fn wf(&self) -> bool {
        &&& self@.dom().finite()
        &&& self@.dom().len() <= MAX_PENDING_FILE_RENAMES
        &&& self.bytes == all_expected_bytes(self@)
        &&& self.bytes <= MAX_PENDING_FILE_RENAME_BYTES
    }

    /// No renames.
    pub fn new() -> (r: Self)
        ensures
            r.wf(),
            r@ == Map::<Seq<char>, PendingView>::empty(),
    {
        let r = PendingRenames { pending: StrMap::new(), bytes: 0 };
        proof {
            assert(r@ =~= Map::<Seq<char>, PendingView>::empty());
            assert(r@.dom() =~= Set::<Seq<char>>::empty());
        }
        r
    }

    /// Takes up a rename that a client is offered.
    pub fn stage_unit_file_rename(
        &mut self,
        documents: &OpenDocuments,
        old_uri: &str,
        new_uri: &str,
        plan: &EditPlan,
    ) -> (r: Result<(), StageProblem>)
        requires
            old(self).wf(),
        ensures
            final(self).wf(),
            ({
                let source = canonical(old_uri@);
                let document = if documents@.contains_key(source) {
                    Some(documents@[source])
                } else {
                    None
                };
                match staged(old(self)@, source, canonical(new_uri@), document, *plan) {
                    Ok(pending) => r is Ok && final(self)@ == old(self)@.insert(source, pending),
                    Err(problem) => r == Err::<(), StageProblem>(problem) && *final(self) == *old(
                        self,
                    ),
                }
            }),
    {
        let old_uri = canonical_file_uri(old_uri);
        let new_uri = canonical_file_uri(new_uri);
        let ghost before = self@;
        let count: usize = self.pending.len();
        proof {
            assert(before.dom() =~= self.pending@.dom());
        }
        if self.pending.contains_key(old_uri.as_str()) {
            return Err(StageProblem::AlreadyPending);
        }
        if count >= MAX_PENDING_FILE_RENAMES {
            return Err(StageProblem::TooMany);
        }
        let old_path = match file_path_of(old_uri.as_str()) {
            Some(path) => path,
            None => {
                return Err(StageProblem::NoSourceFile);
            },
        };
        let new_path = match file_path_of(new_uri.as_str()) {
            Some(path) => path,
            None => {
                return Err(StageProblem::NoTargetFile);
            },
        };
        if !same_parents(&old_path, &new_path) {
            return Err(StageProblem::OtherDirectory);
        }
        let ghost w = |uri: Seq<char>, rename: PendingView| expected_bytes(rename);
        let mut total: usize = self.bytes;
        let rename = match documents.get(old_uri.as_str()) {
            None => PendingUnitFileRename {
                new_uri,
                original_identity_generation: None,
                original_version: None,
                expected_text: None,
                closed_verified_version: None,
            },
            Some(document) => match &document.text {
                None => {
                    return Err(StageProblem::Rejected);
                },
                Some(source) => {
                    let expected = match expected_renamed_document_text(
                        plan,
                        old_uri.as_str(),
                        new_uri.as_str(),
                        source.as_str(),
                        document.version,
                    ) {
                        Ok(expected) => expected,
                        Err(problem) => {
                            return Err(StageProblem::Plan(problem));
                        },
                    };
                    match self.bytes.checked_add(byte_length(expected.as_str())) {
                        Some(sum) => {
                            if sum > MAX_PENDING_FILE_RENAME_BYTES {
                                return Err(StageProblem::TooMuchText);
                            }
                            total = sum;
                        },
                        None => {
                            return Err(StageProblem::Overflow);
                        },
                    }
                    PendingUnitFileRename {
                        new_uri,
                        original_identity_generation: Some(document.identity_generation),
                        original_version: Some(document.version),
                        expected_text: Some(expected),
                        closed_verified_version: None,
                    }
                },
            },
        };
        let ghost key = old_uri@;
        proof {
            lemma_deep_insert(self.pending@, key, rename);
            lemma_sum_insert(before, w, key, rename@);
            assert(before.insert(key, rename@).dom() =~= before.dom().insert(key));
        }
        self.bytes = total;
        let _none = self.pending.insert(old_uri, rename);
        Ok(())
    }

    /// Forgets a rename.
    pub fn remove(&mut self, old_uri: &str)
        requires
            old(self).wf(),
        ensures
            final(self).wf(),
            final(self)@ == old(self)@.remove(old_uri@),
    {
        let ghost before = self@;
        let ghost w = |uri: Seq<char>, rename: PendingView| expected_bytes(rename);
        proof {
            lemma_sum_remove(before, w, old_uri@);
            lemma_sum_bounds(before, w);
            lemma_deep_remove(self.pending@, old_uri@);
            assert(before.remove(old_uri@).dom() =~= before.dom().remove(old_uri@));
            if before.contains_key(old_uri@) {
                assert(w(old_uri@, before[old_uri@]) == expected_bytes(before[old_uri@]));
            }
        }
        match self.pending.remove(old_uri) {
            Some(rename) => {
                proof {
                    assert(before[old_uri@] == rename@);
                }
                let freed: usize = match &rename.expected_text {
                    Some(text) => byte_length(text.as_str()),
                    None => 0,
                };
                self.bytes = self.bytes - freed;
            },
            None => {},
        }
    }

    /// Takes a rename back that was offered.
    pub fn cancel_staged_unit_file_rename(&mut self, old_uri: &str, new_uri: &str)
        requires
            old(self).wf(),
        ensures
            final(self).wf(),
            final(self)@ == (if old(self)@.contains_key(canonical(old_uri@)) && old(
                self,
            )@[canonical(old_uri@)].new_uri == canonical(new_uri@) {
                old(self)@.remove(canonical(old_uri@))
            } else {
                old(self)@
            }),
    {
        let old_uri = canonical_file_uri(old_uri);
        let new_uri = canonical_file_uri(new_uri);
        let matches = match self.pending.get(old_uri.as_str()) {
            Some(rename) => same_str(rename.new_uri.as_str(), new_uri.as_str()),
            None => false,
        };
        if matches {
            self.remove(old_uri.as_str());
        }
    }

    /// The pending rename from one URI to another.
    pub fn matching(&self, old_uri: &str, new_uri: &str) -> (r: Option<PendingUnitFileRename>)
        ensures
            match r {
                Some(rename) => self@.contains_key(old_uri@) && self@[old_uri@] == rename@
                    && rename@.new_uri == new_uri@,
                None => !self@.contains_key(old_uri@) || self@[old_uri@].new_uri != new_uri@,
            },
    {
        match self.pending.get(old_uri) {
            Some(rename) => if same_str(rename.new_uri.as_str(), new_uri) {
                Some(rename.copy())
            } else {
                None
            },
            None => None,
        }
    }

    /// Notes that a document was closed just as its rename leaves it.
    pub fn note_close(&mut self, uri: &str, document: Option<&OpenDocument>)
        requires
            old(self).wf(),
        ensures
            final(self).wf(),
            final(self)@ == (if document is Some && old(self)@.contains_key(uri@)
                && closes_as_planned(old(self)@[uri@], document->0@) {
                old(self)@.insert(
                    uri@,
                    PendingView {
                        closed_verified_version: Some(document->0@.version),
                        ..old(self)@[uri@]
                    },
                )
            } else {
                old(self)@
            }),
    {
        let document = match document {
            Some(document) => document,
            None => {
                return ;
            },
        };
        let closes = match self.pending.get(uri) {
            Some(rename) => match &rename.expected_text {
                Some(expected) => is_text(&document.text, expected.as_str())
                    && document.rejection.is_none() && rename.original_identity_generation == Some(
                    document.identity_generation,
                ) && match rename.original_version {
                    Some(version) => document.version > version,
                    None => false,
                },
                None => false,
            },
            None => {
                return ;
            },
        };
        if !closes {
            return ;
        }
        let ghost before = self@;
        let ghost held = self.pending@;
        let ghost w = |uri: Seq<char>, rename: PendingView| expected_bytes(rename);
        match self.pending.remove(uri) {
            Some(mut rename) => {
                rename.closed_verified_version = Some(document.version);
                proof {
                    lemma_deep_insert(held.remove(uri@), uri@, rename);
                    lemma_deep_remove(held, uri@);
                    lemma_sum_insert(before, w, uri@, rename@);
                    assert(before.remove(uri@).insert(uri@, rename@) =~= before.insert(
                        uri@,
                        rename@,
                    ));
                    assert(before.insert(uri@, rename@).dom() =~= before.dom());
                    assert(w(uri@, before[uri@]) == w(uri@, rename@));
                }
                let _none = self.pending.insert(uri.to_owned(), rename);
            },
            None => {},
        }
    }

    /// Forgets all renames, and returns the URIs that they spoke of.
    pub fn clear(&mut self) -> (r: Vec<String>)
        requires
            old(self).wf(),
        ensures
            final(self).wf(),
            final(self)@ == Map::<Seq<char>, PendingView>::empty(),
            crate::strings::texts(r@) == endpoints(
                old(self)@,
                old(self)@.dom().len() as int,
            ),
    {
        let ghost all = self@;
        let n: usize = self.pending.len();
        let ghost keys = self.pending.keys();
        let mut uris: Vec<String> = Vec::new();
        let mut i: usize = 0;
        proof {
            assert(all.dom() =~= self.pending@.dom());
            assert(crate::strings::texts(uris@) =~= seq![]);
        }
        while i < n
            invariant
                i <= n,
                n == keys.len(),
                all == self@,
                keys == self.pending.keys(),
                keys == crate::strmap::in_order(all.dom()),
                crate::strings::texts(uris@) == endpoints(all, i as int),
            decreases n - i,
        {
            let ghost held = uris@;
            let from = self.pending.key_at(i).clone();
            let to = self.pending.value_at(i).new_uri.clone();
            proof {
                assert(all[keys[i as int]] == self.pending@[keys[i as int]]@);
            }
            uris.push(from);
            uris.push(to);
            proof {
                assert(crate::strings::texts(uris@) =~= crate::strings::texts(held).push(
                    from@,
                ).push(to@));
            }
            i += 1;
        }
        *self = PendingRenames::new();
        uris
    }
}

/// The URIs that the first `n` renames speak of.
pub open spec fn endpoints(pending: Map<Seq<char>, PendingView>, n: int) -> Seq<Seq<char>>
    decreases n,
{
    if n <= 0 {
        seq![]
    } else {
        let uri = crate::strmap::in_order(pending.dom())[n - 1];
        endpoints(pending, n - 1).push(uri).push(pending[uri].new_uri)
    }
}

/// What becomes of the document of a renamed unit.
#[derive(Clone, Copy, Debug, PartialEq, Eq, Structural)]
pub enum Transfer {
    /// It is not what was planned.
    Refused,
    /// The client has moved it already.
    AlreadyMoved,
    /// It goes on under its new URI.
    Move,
}

/// What becomes of the document of a renamed unit: `source` and `target` are the documents
/// that are open under the old URI and the new one. `read_in_context` says whether the
/// target, where it is open, else the source, was read in the context of a project.
pub open spec fn transfer_of(
    pending: PendingView,
    source: Option<DocumentView>,
    target: Option<DocumentView>,
    read_in_context: bool,
) -> Transfer {
    if pending.expected_text is None {
        Transfer::Refused
    } else if target is Some {
        if source is None && pending.closed_verified_version is Some
            && pending.closed_verified_version->0 > (match pending.original_version {
            Some(version) => version,
            None => i32::MAX,
        }) && target->0.text == pending.expected_text && target->0.rejection is None
            && read_in_context {
            Transfer::AlreadyMoved
        } else {
            Transfer::Refused
        }
    } else if source is Some {
        if source->0.text == pending.expected_text && source->0.identity_generation == (
        match pending.original_identity_generation {
            Some(generation) => generation,
            None => 0,
        }) && source->0.version > (match pending.original_version {
            Some(version) => version,
            None => i32::MAX,
        }) && read_in_context {
            Transfer::Move
        } else {
            Transfer::Refused
        }
    } else {
        Transfer::Refused
    }
}

/// What an open document stands for, where there is one.
pub open spec fn referenced_document(document: Option<&OpenDocument>) -> Option<DocumentView> {
    match document {
        Some(document) => Some(document@),
        None => None,
    }
}

/// What becomes of the document of a renamed unit.
pub fn plan_transfer(
    pending: &PendingUnitFileRename,
    source: Option<&OpenDocument>,
    target: Option<&OpenDocument>,
    read_in_context: bool,
) -> (r: Transfer)
    ensures
        r == transfer_of(
            pending@,
            referenced_document(source),
            referenced_document(target),
            read_in_context,
        ),
{
    let expected = match &pending.expected_text {
        Some(expected) => expected,
        None => {
            return Transfer::Refused;
        },
    };
    let original_version: i32 = match pending.original_version {
        Some(version) => version,
        None => i32::MAX,
    };
    if let Some(target) = target {
        let proven = match pending.closed_verified_version {
            Some(version) => version > original_version,
            None => false,
        };
        return if source.is_none() && proven && is_text(&target.text, expected.as_str())
            && target.rejection.is_none() && read_in_context {
            Transfer::AlreadyMoved
        } else {
            Transfer::Refused
        };
    }
    match source {
        Some(source) => {
            let generation: u64 = match pending.original_identity_generation {
                Some(generation) => generation,
                None => 0,
            };
            if is_text(&source.text, expected.as_str()) && source.identity_generation == generation
                && source.version > original_version && read_in_context {
                Transfer::Move
            } else {
                Transfer::Refused
            }
        },
        None => Transfer::Refused,
    }
}

/// A document goes on under its new URI only with the very text that was planned for it, in
/// the incarnation for which it was planned, and after a change.
pub proof fn law_only_the_planned_text_moves(
    pending: PendingView,
    source: Option<DocumentView>,
    target: Option<DocumentView>,
    read_in_context: bool,
)
    ensures
        transfer_of(pending, source, target, read_in_context) == Transfer::Move ==> {
            &&& source is Some && target is None
            &&& pending.expected_text is Some && source->0.text == pending.expected_text
            &&& pending.original_version is Some ==> source->0.version
                > pending.original_version->0
            &&& pending.original_identity_generation is Some ==> source->0.identity_generation
                == pending.original_identity_generation->0
        },
        transfer_of(pending, source, target, read_in_context) == Transfer::AlreadyMoved ==> {
            &&& source is None && target is Some
            &&& target->0.text == pending.expected_text
        },
{
}

} // verus!
