//! How a document is formatted: what is asked in which order, why it may be refused, and
//! the edit that comes of it.

use vstd::prelude::*;

use crate::access::{
    closed_read_plan, ensure_supported_project_context, read_plan, supported, PlanView, ReadPlan,
};
use crate::documents::{DocumentView, OpenDocuments};
use crate::edits::RejectReason;
use crate::external_units::{own_stems, without_own_units};
use crate::limits::ResourceLimits;
use crate::lint::{
    overrides_message, overrides_text, referenced_context, referenced_path, referenced_text,
    ClosedFacts, OUTSIDE_SOURCES, SELECTION_INVALID,
};
use crate::names::{is_pascal_path, pascal_path};
use crate::paths::{path_text, FilePath, Parts};
use crate::project::ProjectContext;
use crate::strings::{byte_len, byte_length, concat, concat3, same_str};
use crate::strmap::StrSet;
use crate::text::{Position, Range};
use crate::uris::{file_path_of, optional_text, uri_path};

verus! {

/// Where the formatting of a document stands.
#[derive(Clone, Copy, Debug, PartialEq, Eq, Structural)]
pub enum FormatStage {
    Start,
    Context,
    Reading,
    Depth,
    Configuration,
    External,
    Format,
    Done,
}

/// The replacement of a whole document.
#[derive(Debug)]
pub struct TextEdit {
    pub range: Range,
    pub new_text: String,
}

/// The replacement of a whole document.
pub struct EditView {
    pub range: Range,
    pub new_text: Seq<char>,
}

impl View for TextEdit {
    type V = EditView;

    open spec fn view(&self) -> EditView {
        EditView { range: self.range, new_text: self.new_text@ }
    }
}

pub open spec fn optional_edit(edit: Option<TextEdit>) -> Option<EditView> {
    match edit {
        Some(edit) => Some(edit@),
        None => None,
    }
}

/// What is done next to format a document.
#[derive(Debug)]
pub enum FormatAction {
    /// The document is formatted, by this edit or as it stands.
    Finish(Option<TextEdit>),
    /// It is not formatted, for this reason.
    Fail(String),
    /// The context of the document is found.
    FindContext,
    /// The document is read from disk.
    Read(ReadPlan),
    /// The syntax tree of this text is measured.
    MeasureDepth(String),
    /// The format configuration is read.
    Configure,
    /// The external units of the project are looked for.
    Scan(FilePath),
    /// The formatter is run, with these external units.
    RunFormatter(StrSet),
}

/// What is done next to format a document.
pub enum FormatActionView {
    Finish(Option<EditView>),
    Fail(Seq<char>),
    FindContext,
    Read(PlanView),
    MeasureDepth(Seq<char>),
    Configure,
    Scan(Parts),
    RunFormatter(Set<Seq<char>>),
}

impl View for FormatAction {
    type V = FormatActionView;

    open spec fn view(&self) -> FormatActionView {
        match self {
            FormatAction::Finish(edit) => FormatActionView::Finish(optional_edit(*edit)),
            FormatAction::Fail(reason) => FormatActionView::Fail(reason@),
            FormatAction::FindContext => FormatActionView::FindContext,
            FormatAction::Read(plan) => FormatActionView::Read(plan@),
            FormatAction::MeasureDepth(text) => FormatActionView::MeasureDepth(text@),
            FormatAction::Configure => FormatActionView::Configure,
            FormatAction::Scan(root) => FormatActionView::Scan(root@),
            FormatAction::RunFormatter(units) => FormatActionView::RunFormatter(units@),
        }
    }
}

/// The formatting of a document.
#[derive(Debug)]
pub struct FormatRun {
    pub uri: String,
    /// The text that is formatted, once it is known.
    pub text: Option<String>,
    pub stage: FormatStage,
}

/// The formatting of a document.
pub struct FormatView {
    pub uri: Seq<char>,
    pub text: Option<Seq<char>>,
    pub stage: FormatStage,
}

impl View for FormatRun {
    type V = FormatView;

    open spec fn view(&self) -> FormatView {
        FormatView { uri: self.uri@, text: optional_text(self.text), stage: self.stage }
    }
}

pub open spec fn at_format_stage(run: FormatView, stage: FormatStage) -> FormatView {
    FormatView { stage, ..run }
}

/// The formatting that is refused.
pub open spec fn format_failed(run: FormatView, reason: Seq<char>) -> (FormatView, FormatActionView) {
    (at_format_stage(run, FormatStage::Done), FormatActionView::Fail(reason))
}

/// The first step: only Pascal files are formatted.
pub open spec fn format_begun(run: FormatView) -> (FormatView, FormatActionView) {
    match uri_path(run.uri) {
        None => format_failed(run, "not a file URI: "@ + run.uri),
        Some(path) => if pascal_path(path) {
            (at_format_stage(run, FormatStage::Context), FormatActionView::FindContext)
        } else {
            format_failed(run, "unsupported Pascal file extension: "@ + path_text(path))
        },
    }
}

/// Why documents are not formatted in the context, if they are not.
pub open spec fn format_refusal(
    uri: Seq<char>,
    path: Parts,
    context: Option<ProjectContext>,
    facts: ClosedFacts,
) -> Option<Seq<char>> {
    match context {
        None => Some("project context was not retained for "@ + uri),
        Some(context) => if context.selection_invalid {
            Some(SELECTION_INVALID@ + " for "@ + uri)
        } else if context.override_error is Some {
            Some(overrides_text(uri, context.override_error->0@))
        } else if !supported(
            facts.roots@,
            path,
            context,
            facts.read,
            facts.mapped,
            facts.legacy_route,
        ) {
            Some(OUTSIDE_SOURCES@ + ": "@ + uri)
        } else {
            None
        },
    }
}

/// The step once the text is known.
pub open spec fn format_with_text(run: FormatView, text: Seq<char>, limits: ResourceLimits) -> (
    FormatView,
    FormatActionView,
) {
    let known = FormatView { text: Some(text), ..run };
    if byte_len(text) > limits.max_file_bytes {
        format_failed(
            known,
            RejectReason::FileTooLarge {
                bytes: byte_len(text) as usize,
                limit: limits.max_file_bytes,
            }.text(run.uri),
        )
    } else {
        (at_format_stage(known, FormatStage::Depth), FormatActionView::MeasureDepth(text))
    }
}

/// The step once the context is found: an open document is formatted as it stands, a
/// rejected one not at all, and a closed one is read.
pub open spec fn format_context_step(
    run: FormatView,
    context: Option<ProjectContext>,
    facts: ClosedFacts,
    open: Map<Seq<char>, DocumentView>,
    limits: ResourceLimits,
) -> (FormatView, FormatActionView) {
    let path = uri_path(run.uri)->0;
    match format_refusal(run.uri, path, context, facts) {
        Some(reason) => format_failed(run, reason),
        None => if open.contains_key(run.uri) {
            let document = open[run.uri];
            if document.rejection is Some {
                format_failed(run, "document rejected: "@ + document.rejection->0)
            } else if document.text is None {
                format_failed(run, "document rejected: "@ + run.uri)
            } else {
                format_with_text(run, document.text->0, limits)
            }
        } else {
            match read_plan(context->0, path, facts.read.entry(), facts.legacy_route) {
                Some(plan) => (
                    at_format_stage(run, FormatStage::Reading),
                    FormatActionView::Read(plan),
                ),
                None => format_failed(run, OUTSIDE_SOURCES@ + ": "@ + run.uri),
            }
        },
    }
}

/// The step once the tree of the text is measured.
pub open spec fn format_depth_step(run: FormatView, error: Option<Seq<char>>) -> (
    FormatView,
    FormatActionView,
) {
    match error {
        Some(error) => format_failed(run, error),
        None => (at_format_stage(run, FormatStage::Configuration), FormatActionView::Configure),
    }
}

/// The step once the configuration is known: where uses clauses are grouped, the external
/// units are looked for.
pub open spec fn format_configured_step(
    run: FormatView,
    group: bool,
    project_root: Option<Parts>,
) -> (FormatView, FormatActionView) {
    if !group {
        (
            at_format_stage(run, FormatStage::Format),
            FormatActionView::RunFormatter(Set::empty()),
        )
    } else {
        match project_root {
            Some(root) => (at_format_stage(run, FormatStage::External), FormatActionView::Scan(root)),
            None => format_failed(run, "formatting external-unit scan has no project root"@),
        }
    }
}

/// The step once the external units are known: those of the project itself are none.
pub open spec fn format_scanned_step(
    run: FormatView,
    units: Set<Seq<char>>,
    context: ProjectContext,
) -> (FormatView, FormatActionView) {
    (
        at_format_stage(run, FormatStage::Format),
        FormatActionView::RunFormatter(units.difference(own_stems(context, uri_path(run.uri)->0))),
    )
}

/// The last step: nothing changes where the formatter gives the text back, else the whole
/// document is replaced.
pub open spec fn format_finished_step(
    run: FormatView,
    formatted: Seq<char>,
    end: Option<Position>,
) -> (FormatView, FormatActionView) {
    if Some(formatted) == run.text {
        (at_format_stage(run, FormatStage::Done), FormatActionView::Finish(None))
    } else {
        match end {
            Some(end) => (
                at_format_stage(run, FormatStage::Done),
                FormatActionView::Finish(
                    Some(
                        EditView {
                            range: Range { start: Position { line: 0, character: 0 }, end },
                            new_text: formatted,
                        },
                    ),
                ),
            ),
            None => format_failed(run, "could not compute full-document UTF-16 range"@),
        }
    }
}

impl FormatRun {
    /// The formatting of a document, before its first step.
    pub fn new(uri: &str) -> (r: Self)
        ensures
            r@ == (FormatView { uri: uri@, text: None, stage: FormatStage::Start }),
    {
        FormatRun { uri: uri.to_string(), text: None, stage: FormatStage::Start }
    }

    fn fail(&mut self, reason: String) -> (r: FormatAction)
        ensures
            (final(self)@, r@) == format_failed(old(self)@, reason@),
    {
        self.stage = FormatStage::Done;
        FormatAction::Fail(reason)
    }

    /// The first step.
    pub fn begin(&mut self) -> (r: FormatAction)
        requires
            old(self).stage == FormatStage::Start,
        ensures
            (final(self)@, r@) == format_begun(old(self)@),
    {
        match file_path_of(self.uri.as_str()) {
            None => {
                let reason = concat("not a file URI: ", self.uri.as_str());
                self.fail(reason)
            },
            Some(path) => if is_pascal_path(&path) {
                self.stage = FormatStage::Context;
                FormatAction::FindContext
            } else {
                self.fail(concat("unsupported Pascal file extension: ", path.text().as_str()))
            },
        }
    }

    fn take_text(&mut self, text: String, limits: &ResourceLimits) -> (r: FormatAction)
        ensures
            (final(self)@, r@) == format_with_text(old(self)@, text@, *limits),
    {
        let bytes: usize = byte_length(text.as_str());
        if bytes > limits.max_file_bytes {
            let reason = RejectReason::FileTooLarge { bytes, limit: limits.max_file_bytes }.message(
                self.uri.as_str(),
            );
            self.text = Some(text);
            return self.fail(reason);
        }
        let copy = text.clone();
        self.text = Some(text);
        self.stage = FormatStage::Depth;
        FormatAction::MeasureDepth(copy)
    }

    fn refusal(&self, path: &FilePath, context: Option<&ProjectContext>, facts: &ClosedFacts) -> (r:
        Option<String>)
        ensures
            optional_text(r) == format_refusal(
                self.uri@,
                path@,
                referenced_context(context),
                *facts,
            ),
    {
        let uri = self.uri.as_str();
        match context {
            None => Some(concat("project context was not retained for ", uri)),
            Some(context) => {
                if context.selection_invalid {
                    return Some(concat3(SELECTION_INVALID, " for ", uri));
                }
                if let Some(error) = &context.override_error {
                    return Some(overrides_message(uri, error.as_str()));
                }
                if !ensure_supported_project_context(
                    facts.roots,
                    path,
                    context,
                    &facts.read,
                    facts.mapped,
                    facts.legacy_route,
                ) {
                    return Some(concat3(OUTSIDE_SOURCES, ": ", uri));
                }
                None
            },
        }
    }

    /// Goes on with the context.
    pub fn context(
        &mut self,
        context: Option<&ProjectContext>,
        facts: &ClosedFacts,
        documents: &OpenDocuments,
        limits: &ResourceLimits,
    ) -> (r: FormatAction)
        requires
            old(self).stage == FormatStage::Context,
            uri_path(old(self).uri@) is Some,
        ensures
            (final(self)@, r@) == format_context_step(
                old(self)@,
                referenced_context(context),
                *facts,
                documents@,
                *limits,
            ),
    {
        let path = match file_path_of(self.uri.as_str()) {
            Some(path) => path,
            None => {
                return self.fail(String::new());
            },
        };
        if let Some(reason) = self.refusal(&path, context, facts) {
            return self.fail(reason);
        }
        if let Some(document) = documents.get(self.uri.as_str()) {
            if let Some(reason) = &document.rejection {
                return self.fail(concat("document rejected: ", reason.as_str()));
            }
            return match &document.text {
                Some(text) => self.take_text(text.clone(), limits),
                None => {
                    let reason = concat("document rejected: ", self.uri.as_str());
                    self.fail(reason)
                },
            };
        }
        let policy = match &facts.read.policy_entry {
            Some(entry) => Some(entry.copy()),
            None => None,
        };
        let plan = match context {
            Some(context) => closed_read_plan(context, &path, policy, facts.legacy_route),
            None => None,
        };
        match plan {
            Some(plan) => {
                self.stage = FormatStage::Reading;
                FormatAction::Read(plan)
            },
            None => {
                let reason = concat3(OUTSIDE_SOURCES, ": ", self.uri.as_str());
                self.fail(reason)
            },
        }
    }

    /// Goes on with the text of a closed document.
    pub fn read(&mut self, text: String, limits: &ResourceLimits) -> (r: FormatAction)
        requires
            old(self).stage == FormatStage::Reading,
        ensures
            (final(self)@, r@) == format_with_text(old(self)@, text@, *limits),
    {
        self.take_text(text, limits)
    }

    /// Goes on once the tree of the text is measured.
    pub fn measured(&mut self, error: Option<&str>) -> (r: FormatAction)
        requires
            old(self).stage == FormatStage::Depth,
        ensures
            (final(self)@, r@) == format_depth_step(old(self)@, referenced_text(error)),
    {
        match error {
            Some(error) => self.fail(error.to_string()),
            None => {
                self.stage = FormatStage::Configuration;
                FormatAction::Configure
            },
        }
    }

    /// Goes on with the format configuration.
    pub fn configured(&mut self, group: bool, project_root: Option<&FilePath>) -> (r: FormatAction)
        requires
            old(self).stage == FormatStage::Configuration,
        ensures
            (final(self)@, r@) == format_configured_step(
                old(self)@,
                group,
                referenced_path(project_root),
            ),
    {
        if !group {
            self.stage = FormatStage::Format;
            return FormatAction::RunFormatter(StrSet::new());
        }
        match project_root {
            Some(root) => {
                self.stage = FormatStage::External;
                FormatAction::Scan(root.copy())
            },
            None => self.fail("formatting external-unit scan has no project root".to_string()),
        }
    }

    /// Goes on with the external units.
    pub fn scanned(&mut self, units: StrSet, context: &ProjectContext) -> (r: FormatAction)
        requires
            old(self).stage == FormatStage::External,
            uri_path(old(self).uri@) is Some,
        ensures
            (final(self)@, r@) == format_scanned_step(old(self)@, units@, *context),
    {
        match file_path_of(self.uri.as_str()) {
            Some(path) => {
                let left = without_own_units(units, context, &path);
                self.stage = FormatStage::Format;
                FormatAction::RunFormatter(left)
            },
            None => self.fail(String::new()),
        }
    }

    /// Ends with what the formatter came to. `end` is the position after the last
    /// character of the text.
    pub fn formatted(&mut self, formatted: String, end: Option<Position>) -> (r: FormatAction)
        requires
            old(self).stage == FormatStage::Format,
        ensures
            (final(self)@, r@) == format_finished_step(old(self)@, formatted@, end),
    {
        let same = match &self.text {
            Some(text) => same_str(text.as_str(), formatted.as_str()),
            None => false,
        };
        if same {
            self.stage = FormatStage::Done;
            return FormatAction::Finish(None);
        }
        match end {
            Some(end) => {
                self.stage = FormatStage::Done;
                FormatAction::Finish(
                    Some(
                        TextEdit {
                            range: Range { start: Position { line: 0, character: 0 }, end },
                            new_text: formatted,
                        },
                    ),
                )
            },
            None => self.fail("could not compute full-document UTF-16 range".to_string()),
        }
    }
}

} // verus!
