//! How the findings of a document come about: what is asked in which order, what is
//! published where the answer is no, and where each finding is reported.

use vstd::prelude::*;

use crate::access::{
    closed_read_plan, ensure_supported_project_context, read_plan, supported, workspace_accepts,
    PlanView, ReadFacts, ReadPlan,
};
use crate::conditional::ConditionalFact;
use crate::documents::{DocumentView, OpenDocuments};
use crate::excludes::{any_includes, is_lint_excluded, path_matches, WorkspaceRoot};
use crate::excludes::compiled;
use crate::includes::{IncludeGraph, RecordView};
use crate::keymap::Identity;
use crate::limits::MAX_TREE_DEPTH;
use crate::paths::{parent_of, relative_parts, FilePath, Parts};
use crate::project::{ContextKey, KeyView, ProjectContext};
use crate::publications::{
    diagnostic_views, publication_views, Diagnostic, DiagnosticList, DiagnosticPublication,
    DiagnosticView, PublicationView, Severity,
};
use crate::strings::{byte_len, byte_length, concat, concat3, decimal, same_str, texts, to_decimal};
use crate::strmap::{in_order, lemma_deep_insert, StrMap, StrSet};
use crate::text::{
    byte_offset_of, ints, normalize_line_endings, without_bare_returns, DiagnosticLineIndex,
    NormalizedSource, Position, Range,
};
use crate::uris::{file_path_of, normal, optional_text, uri_path};
use crate::warnings::{warned_with, WarningLog};

verus! {

pub const SELECTION_INVALID: &'static str =
    "project selection is invalid; select a current project or Automatic";

pub const OUTSIDE_SOURCES: &'static str = "document is outside configured source paths";

pub const EXPANSION_INCOMPLETE: &'static str =
    "include expansion was incomplete; lint diagnostics were withheld";

/// The name under which the server itself reports.
pub const SERVER_SOURCE: &'static str = "pascal-lsp";

pub const LINT_SOURCE: &'static str = "lint4d";

/// The range that a finding on a whole document has.
pub open spec fn document_start() -> Range {
    Range {
        start: Position { line: 0, character: 0 },
        end: Position { line: 0, character: 0 },
    }
}

/// A finding of the server itself on a document.
pub open spec fn server_finding(message: Seq<char>, severity: Severity) -> DiagnosticView {
    DiagnosticView {
        range: document_start(),
        severity,
        code: Some(SERVER_SOURCE@),
        source: Some(SERVER_SOURCE@),
        message,
    }
}

/// A finding of the server itself on a document.
pub fn server_diagnostic(message: &str, severity: Severity) -> (r: Diagnostic)
    ensures
        r@ == server_finding(message@, severity),
{
    Diagnostic {
        range: Range {
            start: Position { line: 0, character: 0 },
            end: Position { line: 0, character: 0 },
        },
        severity,
        code: Some(SERVER_SOURCE.to_string()),
        source: Some(SERVER_SOURCE.to_string()),
        message: message.to_string(),
    }
}

/// Findings for one document alone.
pub open spec fn single(
    uri: Seq<char>,
    version: Option<i32>,
    diagnostics: Seq<DiagnosticView>,
) -> Seq<PublicationView> {
    seq![PublicationView { uri, version, diagnostics }]
}

/// One error of the server itself on a document.
pub open spec fn server_error(uri: Seq<char>, version: Option<i32>, message: Seq<char>) -> Seq<
    PublicationView,
> {
    single(uri, version, seq![server_finding(message, Severity::Error)])
}

/// Findings for one document alone.
pub fn single_diagnostic_publication(
    uri: &str,
    version: Option<i32>,
    diagnostics: Vec<Diagnostic>,
) -> (r: Vec<DiagnosticPublication>)
    ensures
        publication_views(r@) == single(uri@, version, diagnostic_views(diagnostics@)),
{
    let publication = DiagnosticPublication { uri: uri.to_string(), version, diagnostics };
    let mut publications: Vec<DiagnosticPublication> = Vec::new();
    publications.push(publication);
    proof {
        assert(publication_views(publications@) =~= seq![publication@]);
    }
    publications
}

fn publish_error(uri: &str, version: Option<i32>, message: &str) -> (r: Vec<DiagnosticPublication>)
    ensures
        publication_views(r@) == server_error(uri@, version, message@),
{
    let finding = server_diagnostic(message, Severity::Error);
    let mut diagnostics: Vec<Diagnostic> = Vec::new();
    diagnostics.push(finding);
    proof {
        assert(diagnostic_views(diagnostics@) =~= seq![finding@]);
    }
    single_diagnostic_publication(uri, version, diagnostics)
}

fn publish_nothing(uri: &str, version: Option<i32>) -> (r: Vec<DiagnosticPublication>)
    ensures
        publication_views(r@) == single(uri@, version, seq![]),
{
    let diagnostics: Vec<Diagnostic> = Vec::new();
    proof {
        assert(diagnostic_views(diagnostics@) =~= seq![]);
    }
    single_diagnostic_publication(uri, version, diagnostics)
}

/// What is said where a project's overrides cannot be used.
pub open spec fn overrides_text(uri: Seq<char>, error: Seq<char>) -> Seq<char> {
    "project override configuration is invalid for "@ + uri + ": "@ + error
}

pub fn overrides_message(uri: &str, error: &str) -> (r: String)
    ensures
        r@ == overrides_text(uri@, error@),
{
    let start = concat3("project override configuration is invalid for ", uri, ": ");
    concat(start.as_str(), error)
}

/// Why sources are not analysed in the context, if they are not.
pub open spec fn context_refusal(uri: Seq<char>, context: ProjectContext) -> Option<Seq<char>> {
    if context.selection_invalid {
        Some(SELECTION_INVALID@)
    } else {
        match context.override_error {
            Some(error) => Some(overrides_text(uri, error@)),
            None => None,
        }
    }
}

/// Why sources are not analysed in the context, if they are not.
pub fn refused_context(uri: &str, context: &ProjectContext) -> (r: Option<String>)
    ensures
        optional_text(r) == context_refusal(uri@, *context),
{
    if context.selection_invalid {
        return Some(SELECTION_INVALID.to_string());
    }
    match &context.override_error {
        Some(error) => Some(overrides_message(uri, error.as_str())),
        None => None,
    }
}

/// Where the work on a document's findings stands.
#[derive(Clone, Copy, Debug, PartialEq, Eq, Structural)]
pub enum DiagnosticStage {
    Start,
    ClosedContext,
    Reading,
    Depth,
    Context,
    Configuration,
    Expansion,
    Projection,
    Lint,
    Done,
}

/// What is done next for a document's findings.
#[derive(Debug)]
pub enum DiagnosticAction {
    /// These are the findings.
    Publish(Vec<DiagnosticPublication>),
    /// There are none, for this reason.
    Fail(String),
    /// The context of the document is found.
    FindContext,
    /// The document is read from disk.
    Read(ReadPlan),
    /// The syntax tree of this text is measured.
    MeasureDepth(String),
    /// The lint configuration is read.
    Configure,
    /// The include files are put into the text.
    Expand,
    /// The syntax tree of the expanded text is measured.
    MeasureProjection,
    /// The rules are run.
    RunRules,
}

/// What is done next for a document's findings.
pub enum ActionView {
    Publish(Seq<PublicationView>),
    Fail(Seq<char>),
    FindContext,
    Read(PlanView),
    MeasureDepth(Seq<char>),
    Configure,
    Expand,
    MeasureProjection,
    RunRules,
}

impl View for DiagnosticAction {
    type V = ActionView;

    open spec fn view(&self) -> ActionView {
        match self {
            DiagnosticAction::Publish(list) => ActionView::Publish(publication_views(list@)),
            DiagnosticAction::Fail(reason) => ActionView::Fail(reason@),
            DiagnosticAction::FindContext => ActionView::FindContext,
            DiagnosticAction::Read(plan) => ActionView::Read(plan@),
            DiagnosticAction::MeasureDepth(text) => ActionView::MeasureDepth(text@),
            DiagnosticAction::Configure => ActionView::Configure,
            DiagnosticAction::Expand => ActionView::Expand,
            DiagnosticAction::MeasureProjection => ActionView::MeasureProjection,
            DiagnosticAction::RunRules => ActionView::RunRules,
        }
    }
}

/// The work on the findings of a document.
#[derive(Debug)]
pub struct DiagnosticRun {
    pub uri: String,
    pub version: Option<i32>,
    /// The text that is analysed, once it is known.
    pub text: Option<String>,
    pub stage: DiagnosticStage,
}

/// The work on the findings of a document.
pub struct RunView {
    pub uri: Seq<char>,
    pub version: Option<i32>,
    pub text: Option<Seq<char>>,
    pub stage: DiagnosticStage,
}

impl View for DiagnosticRun {
    type V = RunView;

    open spec fn view(&self) -> RunView {
        RunView {
            uri: self.uri@,
            version: self.version,
            text: optional_text(self.text),
            stage: self.stage,
        }
    }
}

/// The run at another stage.
pub open spec fn at_stage(run: RunView, stage: DiagnosticStage) -> RunView {
    RunView { stage, ..run }
}

/// The run with the findings that end it.
pub open spec fn ended(run: RunView, publications: Seq<PublicationView>) -> (RunView, ActionView) {
    (at_stage(run, DiagnosticStage::Done), ActionView::Publish(publications))
}

/// The run that ends without findings.
pub open spec fn failed(run: RunView, reason: Seq<char>) -> (RunView, ActionView) {
    (at_stage(run, DiagnosticStage::Done), ActionView::Fail(reason))
}

/// The run that ends with an error of the server itself.
pub open spec fn refused(run: RunView, reason: Seq<char>) -> (RunView, ActionView) {
    ended(run, server_error(run.uri, run.version, reason))
}

/// The first step: a rejected document is reported as such, an open one is analysed as it
/// stands, and for a closed one its context is found.
pub open spec fn begun(run: RunView, open: Map<Seq<char>, DocumentView>) -> (RunView, ActionView) {
    if open.contains_key(run.uri) {
        let document = open[run.uri];
        let seen = RunView { version: Some(document.version), ..run };
        match document.rejection {
            Some(rejection) => refused(seen, rejection),
            None => with_text(seen, document.text->0),
        }
    } else if uri_path(run.uri) is None {
        failed(run, "not a file URI: "@ + run.uri)
    } else {
        (at_stage(run, DiagnosticStage::ClosedContext), ActionView::FindContext)
    }
}

/// The step once the text is known.
pub open spec fn with_text(run: RunView, text: Seq<char>) -> (RunView, ActionView) {
    let known = RunView { text: Some(text), ..run };
    if uri_path(run.uri) is None {
        failed(known, "not a file URI"@)
    } else {
        (
            at_stage(known, DiagnosticStage::Depth),
            ActionView::MeasureDepth(without_bare_returns(text)),
        )
    }
}

/// What was found of the context of a closed document.
pub struct ClosedFacts<'a> {
    pub roots: &'a Vec<WorkspaceRoot>,
    pub read: ReadFacts,
    /// The path may be read under a root that a mapping leads to.
    pub mapped: bool,
    /// The document was found beside another, in this context.
    pub legacy_route: bool,
}

/// The step once the context of a closed document is found: it is read where it may be.
pub open spec fn closed_step(
    run: RunView,
    context: Option<ProjectContext>,
    facts: ClosedFacts,
) -> (RunView, ActionView) {
    match context {
        None => failed(run, "project context was not retained for "@ + run.uri),
        Some(context) => {
            let path = uri_path(run.uri)->0;
            let plan = read_plan(context, path, facts.read.entry(), facts.legacy_route);
            match context_refusal(run.uri, context) {
                Some(reason) => refused(run, reason),
                None => if !(facts.legacy_route || any_includes(facts.roots@, normal(path))
                    || facts.read.policy_entry is Some) || !supported(
                    facts.roots@,
                    path,
                    context,
                    facts.read,
                    facts.mapped,
                    facts.legacy_route,
                ) {
                    refused(run, OUTSIDE_SOURCES@)
                } else {
                    match plan {
                        Some(plan) => (
                            at_stage(run, DiagnosticStage::Reading),
                            ActionView::Read(plan),
                        ),
                        None => failed(run, OUTSIDE_SOURCES@ + ": "@ + run.uri),
                    }
                },
            }
        },
    }
}

/// The step once the tree of the text is measured.
pub open spec fn depth_step(run: RunView, error: Option<Seq<char>>) -> (RunView, ActionView) {
    match error {
        Some(error) => refused(run, error),
        None => (at_stage(run, DiagnosticStage::Context), ActionView::FindContext),
    }
}

/// The step once the context is found.
pub open spec fn context_step(run: RunView, context: Option<ProjectContext>) -> (
    RunView,
    ActionView,
) {
    match context {
        None => failed(run, "project context was not retained for "@ + run.uri),
        Some(context) => match context_refusal(run.uri, context) {
            Some(reason) => refused(run, reason),
            None => (at_stage(run, DiagnosticStage::Configuration), ActionView::Configure),
        },
    }
}

/// The patterns of the configuration file keep the path from being linted.
pub open spec fn lint_excluded(
    path: Parts,
    config_path: Option<Parts>,
    patterns: Seq<Seq<char>>,
) -> bool {
    config_path is Some && parent_of(config_path->0) is Some && compiled(patterns) is Some
        && relative_parts(parent_of(config_path->0)->0, path) is Some && path_matches(
        compiled(patterns)->0,
        relative_parts(parent_of(config_path->0)->0, path)->0,
    )
}

/// The step once the configuration is known.
pub open spec fn configured_step(run: RunView, excluded: bool) -> (RunView, ActionView) {
    if excluded {
        ended(run, single(run.uri, run.version, seq![]))
    } else {
        (at_stage(run, DiagnosticStage::Expansion), ActionView::Expand)
    }
}

/// The step once the text is expanded.
pub open spec fn expanded_step(run: RunView, complete: bool) -> (RunView, ActionView) {
    if complete {
        (at_stage(run, DiagnosticStage::Projection), ActionView::MeasureProjection)
    } else {
        refused(run, EXPANSION_INCOMPLETE@)
    }
}

/// The step once the tree of the expanded text is measured.
pub open spec fn projection_step(run: RunView, error: Option<Seq<char>>) -> (RunView, ActionView) {
    match error {
        Some(error) => refused(run, error),
        None => (at_stage(run, DiagnosticStage::Lint), ActionView::RunRules),
    }
}

pub open spec fn referenced_text(s: Option<&str>) -> Option<Seq<char>> {
    match s {
        Some(s) => Some(s@),
        None => None,
    }
}

pub open spec fn referenced_path(p: Option<&FilePath>) -> Option<Parts> {
    match p {
        Some(p) => Some(p@),
        None => None,
    }
}

pub open spec fn referenced_context(c: Option<&ProjectContext>) -> Option<ProjectContext> {
    match c {
        Some(c) => Some(*c),
        None => None,
    }
}

impl DiagnosticRun {
    /// The work on a document, before its first step.
    pub fn new(uri: &str) -> (r: Self)
        ensures
            r@ == (RunView {
                uri: uri@,
                version: None,
                text: None,
                stage: DiagnosticStage::Start,
            }),
    {
        DiagnosticRun {
            uri: uri.to_string(),
            version: None,
            text: None,
            stage: DiagnosticStage::Start,
        }
    }

    fn end(&mut self, publications: Vec<DiagnosticPublication>) -> (r: DiagnosticAction)
        ensures
            (final(self)@, r@) == ended(old(self)@, publication_views(publications@)),
    {
        self.stage = DiagnosticStage::Done;
        DiagnosticAction::Publish(publications)
    }

    fn refuse(&mut self, reason: &str) -> (r: DiagnosticAction)
        ensures
            (final(self)@, r@) == refused(old(self)@, reason@),
    {
        let publications = publish_error(self.uri.as_str(), self.version, reason);
        self.end(publications)
    }

    fn fail(&mut self, reason: String) -> (r: DiagnosticAction)
        ensures
            (final(self)@, r@) == failed(old(self)@, reason@),
    {
        self.stage = DiagnosticStage::Done;
        DiagnosticAction::Fail(reason)
    }

    fn take_text(&mut self, text: String) -> (r: DiagnosticAction)
        ensures
            (final(self)@, r@) == with_text(old(self)@, text@),
    {
        let normal = normalize_line_endings(text.as_str());
        self.text = Some(text);
        match file_path_of(self.uri.as_str()) {
            None => self.fail("not a file URI".to_string()),
            Some(_) => {
                self.stage = DiagnosticStage::Depth;
                DiagnosticAction::MeasureDepth(normal)
            },
        }
    }

    /// The first step.
    pub fn begin(&mut self, documents: &OpenDocuments) -> (r: DiagnosticAction)
        requires
            old(self).stage == DiagnosticStage::Start,
            documents.wf(),
        ensures
            (final(self)@, r@) == begun(old(self)@, documents@),
    {
        match documents.get(self.uri.as_str()) {
            Some(document) => {
                self.version = Some(document.version);
                match &document.rejection {
                    Some(rejection) => self.refuse(rejection.as_str()),
                    None => match &document.text {
                        Some(text) => self.take_text(text.clone()),
                        None => self.fail(String::new()),
                    },
                }
            },
            None => match file_path_of(self.uri.as_str()) {
                None => {
                    let reason = concat("not a file URI: ", self.uri.as_str());
                    self.fail(reason)
                },
                Some(_) => {
                    self.stage = DiagnosticStage::ClosedContext;
                    DiagnosticAction::FindContext
                },
            },
        }
    }

    /// Goes on with the context of a closed document.
    pub fn closed_context(&mut self, context: Option<&ProjectContext>, facts: &ClosedFacts) -> (r:
        DiagnosticAction)
        requires
            old(self).stage == DiagnosticStage::ClosedContext,
            uri_path(old(self).uri@) is Some,
        ensures
            (final(self)@, r@) == closed_step(old(self)@, referenced_context(context), *facts),
    {
        let context = match context {
            Some(context) => context,
            None => {
                let reason = concat("project context was not retained for ", self.uri.as_str());
                return self.fail(reason);
            },
        };
        if let Some(reason) = refused_context(self.uri.as_str(), context) {
            return self.refuse(reason.as_str());
        }
        let path = match file_path_of(self.uri.as_str()) {
            Some(path) => path,
            None => {
                return self.fail(String::new());
            },
        };
        let authorized = facts.legacy_route || workspace_accepts(facts.roots, &path)
            || facts.read.policy_entry.is_some();
        if !authorized || !ensure_supported_project_context(
            facts.roots,
            &path,
            context,
            &facts.read,
            facts.mapped,
            facts.legacy_route,
        ) {
            return self.refuse(OUTSIDE_SOURCES);
        }
        let policy = match &facts.read.policy_entry {
            Some(entry) => Some(entry.copy()),
            None => None,
        };
        match closed_read_plan(context, &path, policy, facts.legacy_route) {
            Some(plan) => {
                self.stage = DiagnosticStage::Reading;
                DiagnosticAction::Read(plan)
            },
            None => {
                let reason = concat3(OUTSIDE_SOURCES, ": ", self.uri.as_str());
                self.fail(reason)
            },
        }
    }

    /// Goes on with the text of a closed document.
    pub fn read(&mut self, text: String) -> (r: DiagnosticAction)
        requires
            old(self).stage == DiagnosticStage::Reading,
        ensures
            (final(self)@, r@) == with_text(old(self)@, text@),
    {
        self.take_text(text)
    }

    /// Goes on once the tree of the text is measured.
    pub fn measured(&mut self, error: Option<&str>) -> (r: DiagnosticAction)
        requires
            old(self).stage == DiagnosticStage::Depth,
        ensures
            (final(self)@, r@) == depth_step(old(self)@, referenced_text(error)),
    {
        match error {
            Some(error) => self.refuse(error),
            None => {
                self.stage = DiagnosticStage::Context;
                DiagnosticAction::FindContext
            },
        }
    }

    /// Goes on with the context.
    pub fn context(&mut self, context: Option<&ProjectContext>) -> (r: DiagnosticAction)
        requires
            old(self).stage == DiagnosticStage::Context,
        ensures
            (final(self)@, r@) == context_step(old(self)@, referenced_context(context)),
    {
        match context {
            None => {
                let reason = concat("project context was not retained for ", self.uri.as_str());
                self.fail(reason)
            },
            Some(context) => match refused_context(self.uri.as_str(), context) {
                Some(reason) => self.refuse(reason.as_str()),
                None => {
                    self.stage = DiagnosticStage::Configuration;
                    DiagnosticAction::Configure
                },
            },
        }
    }

    /// Goes on with the lint configuration.
    pub fn configured(&mut self, config_path: Option<&FilePath>, patterns: &Vec<String>) -> (r:
        DiagnosticAction)
        requires
            old(self).stage == DiagnosticStage::Configuration,
            uri_path(old(self).uri@) is Some,
        ensures
            (final(self)@, r@) == configured_step(
                old(self)@,
                lint_excluded(
                    uri_path(old(self).uri@)->0,
                    referenced_path(config_path),
                    texts(patterns@),
                ),
            ),
    {
        let excluded = match file_path_of(self.uri.as_str()) {
            Some(path) => is_lint_excluded(&path, config_path, patterns),
            None => false,
        };
        if excluded {
            let publications = publish_nothing(self.uri.as_str(), self.version);
            self.end(publications)
        } else {
            self.stage = DiagnosticStage::Expansion;
            DiagnosticAction::Expand
        }
    }

    /// Goes on once the text is expanded.
    pub fn expanded(&mut self, complete: bool) -> (r: DiagnosticAction)
        requires
            old(self).stage == DiagnosticStage::Expansion,
        ensures
            (final(self)@, r@) == expanded_step(old(self)@, complete),
    {
        if complete {
            self.stage = DiagnosticStage::Projection;
            DiagnosticAction::MeasureProjection
        } else {
            self.refuse(EXPANSION_INCOMPLETE)
        }
    }

    /// Goes on once the tree of the expanded text is measured.
    pub fn projected(&mut self, error: Option<&str>) -> (r: DiagnosticAction)
        requires
            old(self).stage == DiagnosticStage::Projection,
        ensures
            (final(self)@, r@) == projection_step(old(self)@, referenced_text(error)),
    {
        match error {
            Some(error) => self.refuse(error),
            None => {
                self.stage = DiagnosticStage::Lint;
                DiagnosticAction::RunRules
            },
        }
    }
}

/// A finding of a rule, at places of the text with uniform line ends.
#[derive(Debug)]
pub struct LintFinding {
    pub line: usize,
    pub column: usize,
    pub end_line: usize,
    pub end_column: usize,
    pub severity: Severity,
    pub rule: String,
    pub message: String,
}

/// The bytes of the expanded text that a finding is on: none where its places are not
/// there, where it is on nothing, or where it touches a span of which it is not known
/// whether it is compiled.
pub open spec fn finding_span(
    finding: LintFinding,
    text: Seq<char>,
    raw: Seq<int>,
    unknown: Seq<(int, int)>,
) -> Option<(int, int)> {
    let from = byte_offset_of(text, finding.line as int, finding.column as int);
    let to = byte_offset_of(text, finding.end_line as int, finding.end_column as int);
    if from is None || to is None {
        None
    } else {
        let last = if to->0 < from->0 {
            from->0
        } else {
            to->0
        };
        if 0 <= from->0 < raw.len() && 0 <= last < raw.len() && raw[from->0] < raw[last]
            && !touches(unknown, raw[from->0], raw[last]) {
            Some((raw[from->0], raw[last]))
        } else {
            None
        }
    }
}

/// One of the spans overlaps the range.
pub open spec fn touches(spans: Seq<(int, int)>, start: int, end: int) -> bool {
    exists|i: int| 0 <= i < spans.len() && (#[trigger] spans[i]).0 < end && start < spans[i].1
}

fn touches_any(spans: &Vec<(usize, usize)>, start: usize, end: usize) -> (r: bool)
    ensures
        r == touches(crate::text::int_pairs(spans@), start as int, end as int),
{
    let ghost pairs = crate::text::int_pairs(spans@);
    let mut i: usize = 0;
    while i < spans.len()
        invariant
            i <= spans@.len(),
            pairs == crate::text::int_pairs(spans@),
            forall|j: int| 0 <= j < i ==> !((#[trigger] pairs[j]).0 < end && start < pairs[j].1),
        decreases spans@.len() - i,
    {
        let (from, to) = spans[i];
        proof {
            assert(pairs[i as int] == (from as int, to as int));
        }
        if from < end && start < to {
            return true;
        }
        i += 1;
    }
    false
}

/// A finding and the bytes of the expanded text that it is on.
#[derive(Debug)]
pub struct LocatedFinding {
    pub start: usize,
    pub end: usize,
    pub severity: Severity,
    pub code: String,
    pub source: String,
    pub message: String,
}

/// A finding and the bytes of the expanded text that it is on.
pub struct LocatedView {
    pub start: int,
    pub end: int,
    pub severity: Severity,
    pub code: Seq<char>,
    pub source: Seq<char>,
    pub message: Seq<char>,
}

impl View for LocatedFinding {
    type V = LocatedView;

    open spec fn view(&self) -> LocatedView {
        LocatedView {
            start: self.start as int,
            end: self.end as int,
            severity: self.severity,
            code: self.code@,
            source: self.source@,
            message: self.message@,
        }
    }
}

pub open spec fn located_views(list: Seq<LocatedFinding>) -> Seq<LocatedView> {
    list.map_values(|f: LocatedFinding| f@)
}

/// The findings of the rules that are on something, with where that is.
pub open spec fn located(
    findings: Seq<LintFinding>,
    text: Seq<char>,
    raw: Seq<int>,
    unknown: Seq<(int, int)>,
    n: int,
) -> Seq<LocatedView>
    decreases n,
{
    if n <= 0 {
        seq![]
    } else {
        let before = located(findings, text, raw, unknown, n - 1);
        let finding = findings[n - 1];
        match finding_span(finding, text, raw, unknown) {
            Some((start, end)) => before.push(
                LocatedView {
                    start,
                    end,
                    severity: finding.severity,
                    code: finding.rule@,
                    source: LINT_SOURCE@,
                    message: finding.message@,
                },
            ),
            None => before,
        }
    }
}

fn span_of(
    finding: &LintFinding,
    index: &DiagnosticLineIndex,
    raw_offsets: &Vec<usize>,
    unknown: &Vec<(usize, usize)>,
) -> (r: Option<(usize, usize)>)
    requires
        index.wf(),
    ensures
        ({
            let span = finding_span(
                *finding,
                index.source@,
                ints(raw_offsets@),
                crate::text::int_pairs(unknown@),
            );
            match r {
                Some((start, end)) => span == Some((start as int, end as int)),
                None => span is None,
            }
        }),
{
    let ghost raw = ints(raw_offsets@);
    match index.byte_range(finding.line, finding.column, finding.end_line, finding.end_column) {
        Some((from, to)) => {
            if from >= raw_offsets.len() || to >= raw_offsets.len() {
                return None;
            }
            let start: usize = raw_offsets[from];
            let end: usize = raw_offsets[to];
            proof {
                assert(raw[from as int] == start && raw[to as int] == end);
            }
            if start >= end || touches_any(unknown, start, end) {
                None
            } else {
                Some((start, end))
            }
        },
        None => None,
    }
}

/// The findings of the rules that are on something, with where that is in the expanded
/// text.
pub fn locate_findings(
    findings: &Vec<LintFinding>,
    normalized: &NormalizedSource,
    unknown: &Vec<(usize, usize)>,
) -> (r: Vec<LocatedFinding>)
    requires
        byte_len(normalized.text@) < usize::MAX,
    ensures
        located_views(r@) == located(
            findings@,
            normalized.text@,
            ints(normalized.raw_offsets@),
            crate::text::int_pairs(unknown@),
            findings@.len() as int,
        ),
{
    let index = DiagnosticLineIndex::new(normalized.text.as_str());
    let mut list: Vec<LocatedFinding> = Vec::new();
    let mut i: usize = 0;
    proof {
        assert(located_views(list@) =~= seq![]);
    }
    while i < findings.len()
        invariant
            i <= findings@.len(),
            index.wf(),
            index.source@ == normalized.text@,
            located_views(list@) == located(
                findings@,
                normalized.text@,
                ints(normalized.raw_offsets@),
                crate::text::int_pairs(unknown@),
                i as int,
            ),
        decreases findings@.len() - i,
    {
        let finding = &findings[i];
        if let Some((start, end)) = span_of(finding, &index, &normalized.raw_offsets, unknown) {
            let ghost held = list@;
            let placed = LocatedFinding {
                start,
                end,
                severity: finding.severity,
                code: finding.rule.clone(),
                source: LINT_SOURCE.to_string(),
                message: finding.message.clone(),
            };
            list.push(placed);
            proof {
                assert(located_views(list@) =~= located_views(held).push(placed@));
            }
        }
        i += 1;
    }
    list
}

/// What kind of claim an analysis of names and types makes.
#[derive(Clone, Copy, Debug, PartialEq, Eq, Structural)]
pub enum SemanticKind {
    UnresolvedIdentifier,
    MissingMember,
    TypeMismatch,
    IncompatibleArgument,
    InvalidOverride,
    MissingInterfaceImplementation,
}

impl SemanticKind {
    /// The code that the claim is reported under.
    pub open spec fn text(&self) -> Seq<char> {
        match self {
            SemanticKind::UnresolvedIdentifier => "pascal-unresolved-identifier"@,
            SemanticKind::MissingMember => "pascal-missing-member"@,
            SemanticKind::TypeMismatch => "pascal-type-mismatch"@,
            SemanticKind::IncompatibleArgument => "pascal-incompatible-argument"@,
            SemanticKind::InvalidOverride => "pascal-invalid-override"@,
            SemanticKind::MissingInterfaceImplementation => {
                "pascal-missing-interface-implementation"@
            },
        }
    }

    /// The code that the claim is reported under.
    pub fn code(&self) -> (r: &'static str)
        ensures
            r@ == self.text(),
    {
        match self {
            SemanticKind::UnresolvedIdentifier => "pascal-unresolved-identifier",
            SemanticKind::MissingMember => "pascal-missing-member",
            SemanticKind::TypeMismatch => "pascal-type-mismatch",
            SemanticKind::IncompatibleArgument => "pascal-incompatible-argument",
            SemanticKind::InvalidOverride => "pascal-invalid-override",
            SemanticKind::MissingInterfaceImplementation => {
                "pascal-missing-interface-implementation"
            },
        }
    }
}

/// A claim of the analysis of names and types, on bytes of the expanded text.
#[derive(Debug)]
pub struct SemanticFinding {
    pub start: usize,
    pub end: usize,
    pub kind: SemanticKind,
    pub message: String,
}

/// The claims that are on something within the text.
pub open spec fn located_claims(findings: Seq<SemanticFinding>, length: int, n: int) -> Seq<
    LocatedView,
>
    decreases n,
{
    if n <= 0 {
        seq![]
    } else {
        let before = located_claims(findings, length, n - 1);
        let finding = findings[n - 1];
        if finding.start < finding.end && finding.end <= length {
            before.push(
                LocatedView {
                    start: finding.start as int,
                    end: finding.end as int,
                    severity: Severity::Error,
                    code: finding.kind.text(),
                    source: SERVER_SOURCE@,
                    message: finding.message@,
                },
            )
        } else {
            before
        }
    }
}

/// The claims that are on something within the expanded text.
pub fn locate_claims(findings: &Vec<SemanticFinding>, expanded: &str) -> (r: Vec<LocatedFinding>)
    ensures
        located_views(r@) == located_claims(
            findings@,
            byte_len(expanded@) as int,
            findings@.len() as int,
        ),
{
    let length: usize = byte_length(expanded);
    let mut list: Vec<LocatedFinding> = Vec::new();
    let mut i: usize = 0;
    proof {
        assert(located_views(list@) =~= seq![]);
    }
    while i < findings.len()
        invariant
            i <= findings@.len(),
            length == byte_len(expanded@),
            located_views(list@) == located_claims(findings@, length as int, i as int),
        decreases findings@.len() - i,
    {
        let finding = &findings[i];
        if finding.start < finding.end && finding.end <= length {
            let ghost held = list@;
            let placed = LocatedFinding {
                start: finding.start,
                end: finding.end,
                severity: Severity::Error,
                code: finding.kind.code().to_string(),
                source: SERVER_SOURCE.to_string(),
                message: finding.message.clone(),
            };
            list.push(placed);
            proof {
                assert(located_views(list@) =~= located_views(held).push(placed@));
            }
        }
        i += 1;
    }
    list
}

/// Where bytes of the expanded text come from: one range of one document, with the
/// positions that it has there, or no such range.
#[derive(Debug)]
pub enum Mapping {
    Exact { uri: String, start: Option<Position>, end: Option<Position> },
    Elsewhere,
}

/// The document and range that a mapping leads to, where the text of the document is
/// known and both ends are positions of it.
pub open spec fn target(mapping: Mapping, known: Map<Seq<char>, Seq<char>>) -> Option<
    (Seq<char>, Range),
> {
    match mapping {
        Mapping::Exact { uri, start, end } => if known.contains_key(uri@) && start is Some
            && end is Some {
            Some((uri@, Range { start: start->0, end: end->0 }))
        } else {
            None
        },
        Mapping::Elsewhere => None,
    }
}

/// The findings of each document with one more.
pub open spec fn reported(
    sheet: Map<Seq<char>, Seq<DiagnosticView>>,
    finding: LocatedView,
    place: Option<(Seq<char>, Range)>,
) -> Map<Seq<char>, Seq<DiagnosticView>> {
    match place {
        Some((uri, range)) => {
            let before = if sheet.contains_key(uri) {
                sheet[uri]
            } else {
                seq![]
            };
            sheet.insert(
                uri,
                before.push(
                    DiagnosticView {
                        range,
                        severity: finding.severity,
                        code: Some(finding.code),
                        source: Some(finding.source),
                        message: finding.message,
                    },
                ),
            )
        },
        None => sheet,
    }
}

/// The findings of each document with those of a list.
pub open spec fn reported_all(
    sheet: Map<Seq<char>, Seq<DiagnosticView>>,
    findings: Seq<LocatedView>,
    mappings: Seq<Mapping>,
    known: Map<Seq<char>, Seq<char>>,
    n: int,
) -> Map<Seq<char>, Seq<DiagnosticView>>
    decreases n,
{
    if n <= 0 {
        sheet
    } else {
        reported(
            reported_all(sheet, findings, mappings, known, n - 1),
            findings[n - 1],
            target(mappings[n - 1], known),
        )
    }
}

/// No other document lays claim to a place: none whose expansion has a range there, and,
/// where this one includes the place's document, none that was not expanded to its end.
pub open spec fn sole_owner(
    expansions: Map<Seq<char>, RecordView>,
    root: Seq<char>,
    physical: Seq<char>,
    claimants: Set<Seq<char>>,
) -> bool {
    let includes = expansions.contains_key(root) && expansions[root].dependencies.contains(
        physical,
    );
    forall|other: Seq<char>| #[trigger]
        expansions.contains_key(other) && other != root ==> !claimants.contains(other) && !(includes
            && !expansions[other].complete)
}

/// Whether no other document lays claim to a place. `claimants` are the documents whose
/// expansion has a range there.
pub fn semantic_span_context_is_unambiguous(
    graph: &IncludeGraph,
    root: &str,
    physical: &str,
    claimants: &StrSet,
) -> (r: bool)
    ensures
        r == sole_owner(graph.expansions.deep(), root@, physical@, claimants@),
{
    let includes = match graph.expansions.get(root) {
        Some(record) => record.dependencies.contains(physical),
        None => false,
    };
    let n: usize = graph.expansions.len();
    let ghost expansions = graph.expansions.deep();
    let ghost keys = graph.expansions.keys();
    let mut i: usize = 0;
    while i < n
        invariant
            i <= n,
            n == keys.len(),
            keys == graph.expansions.keys(),
            expansions == graph.expansions.deep(),
            includes == (expansions.contains_key(root@) && expansions[root@].dependencies.contains(
                physical@,
            )),
            forall|j: int|
                0 <= j < i && #[trigger] keys[j] != root@ ==> !claimants@.contains(keys[j]) && !(
                includes && !expansions[keys[j]].complete),
        decreases n - i,
    {
        let other = graph.expansions.key_at(i);
        if !same_str(other.as_str(), root) {
            let record = graph.expansions.value_at(i);
            proof {
                assert(expansions.contains_key(other@));
                assert(expansions[other@] == record@);
            }
            if (includes && !record.complete) || claimants.contains(other.as_str()) {
                return false;
            }
        }
        i += 1;
    }
    proof {
        assert forall|other: Seq<char>| #[trigger]
            expansions.contains_key(other) && other != root@ implies !claimants@.contains(other)
            && !(includes && !expansions[other].complete) by {
            assert(graph.expansions@.contains_key(other));
            assert(keys.contains(other));
            let j = choose|j: int| 0 <= j < keys.len() && keys[j] == other;
            assert(keys[j] == other);
        }
    }
    true
}

/// The findings of one document by the document they are reported for.
struct Sheet {
    targets: StrMap<DiagnosticList>,
}

impl Sheet {
    spec fn map(&self) -> Map<Seq<char>, Seq<DiagnosticView>> {
        self.targets.deep()
    }

    fn report(&mut self, finding: &LocatedFinding, uri: &str, range: Range)
        ensures
            final(self).map() == reported(old(self).map(), finding@, Some((uri@, range))),
    {
        let ghost before = self.targets@;
        let mut list = match self.targets.remove(uri) {
            Some(list) => list,
            None => DiagnosticList { items: Vec::new() },
        };
        let ghost held = list;
        let diagnostic = Diagnostic {
            range,
            severity: finding.severity,
            code: Some(finding.code.clone()),
            source: Some(finding.source.clone()),
            message: finding.message.clone(),
        };
        list.items.push(diagnostic);
        proof {
            assert(list@ =~= held@.push(diagnostic@));
            if !before.contains_key(uri@) {
                assert(held@ =~= seq![]);
            }
            assert(before.remove(uri@).insert(uri@, list) =~= before.insert(uri@, list));
            lemma_deep_insert(before, uri@, list);
        }
        let _previous = self.targets.insert(uri.to_string(), list);
    }

    fn report_all(
        &mut self,
        findings: &Vec<LocatedFinding>,
        mappings: &Vec<Mapping>,
        known: &StrMap<String>,
    )
        requires
            findings@.len() == mappings@.len(),
        ensures
            final(self).map() == reported_all(
                old(self).map(),
                located_views(findings@),
                mappings@,
                known.deep(),
                findings@.len() as int,
            ),
    {
        let ghost views = located_views(findings@);
        let mut i: usize = 0;
        while i < findings.len()
            invariant
                i <= findings@.len(),
                findings@.len() == mappings@.len(),
                views == located_views(findings@),
                self.map() == reported_all(
                    old(self).map(),
                    views,
                    mappings@,
                    known.deep(),
                    i as int,
                ),
            decreases findings@.len() - i,
        {
            proof {
                assert(views[i as int] == findings@[i as int]@);
            }
            match &mappings[i] {
                Mapping::Exact { uri, start: Some(start), end: Some(end) } => {
                    if known.contains_key(uri.as_str()) {
                        let range = Range { start: *start, end: *end };
                        self.report(&findings[i], uri.as_str(), range);
                    }
                },
                _ => {},
            }
            i += 1;
        }
    }
}

/// The findings of each document with the claims that no other document may contest.
pub open spec fn reported_claims(
    sheet: Map<Seq<char>, Seq<DiagnosticView>>,
    claims: Seq<LocatedView>,
    mappings: Seq<Mapping>,
    claimants: Seq<StrSet>,
    expansions: Map<Seq<char>, RecordView>,
    root: Seq<char>,
    n: int,
) -> Map<Seq<char>, Seq<DiagnosticView>>
    decreases n,
{
    if n <= 0 {
        sheet
    } else {
        let before = reported_claims(sheet, claims, mappings, claimants, expansions, root, n - 1);
        match target(mappings[n - 1], expansions[root].source_texts) {
            Some((uri, range)) => if sole_owner(expansions, root, uri, claimants[n - 1]@) {
                reported(before, claims[n - 1], Some((uri, range)))
            } else {
                before
            },
            None => before,
        }
    }
}

/// What the rules and the analysis of names and types came to, and where each finding
/// lies. `claimants` are, for each claim, the other documents that have a range there.
pub struct LintOutcome {
    pub findings: Vec<LocatedFinding>,
    pub mappings: Vec<Mapping>,
    pub claims: Vec<LocatedFinding>,
    pub claim_mappings: Vec<Mapping>,
    pub claimants: Vec<StrSet>,
}

impl LintOutcome {
    /// Every finding has its place.
    pub open spec fn wf(&self) -> bool {
        &&& self.findings@.len() == self.mappings@.len()
        &&& self.claims@.len() == self.claim_mappings@.len()
        &&& self.claims@.len() == self.claimants@.len()
    }
}

/// The findings of each document: those of the rules first, then the claims, and for the
/// document itself an entry in any case.
pub open spec fn sheet_of(
    outcome: LintOutcome,
    expansions: Map<Seq<char>, RecordView>,
    root: Seq<char>,
) -> Map<Seq<char>, Seq<DiagnosticView>> {
    let local = reported_all(
        Map::empty(),
        located_views(outcome.findings@),
        outcome.mappings@,
        expansions[root].source_texts,
        outcome.findings@.len() as int,
    );
    let all = reported_claims(
        local,
        located_views(outcome.claims@),
        outcome.claim_mappings@,
        outcome.claimants@,
        expansions,
        root,
        outcome.claims@.len() as int,
    );
    if all.contains_key(root) {
        all
    } else {
        all.insert(root, seq![])
    }
}

/// The version of an open document.
pub open spec fn version_of(open: Map<Seq<char>, DocumentView>, uri: Seq<char>) -> Option<i32> {
    if open.contains_key(uri) {
        Some(open[uri].version)
    } else {
        None
    }
}

/// Findings by document, in the order of the documents' URIs.
pub open spec fn sheet_publications(
    sheet: Map<Seq<char>, Seq<DiagnosticView>>,
    open: Map<Seq<char>, DocumentView>,
) -> Seq<PublicationView> {
    in_order(sheet.dom()).map_values(
        |uri: Seq<char>|
            PublicationView { uri, version: version_of(open, uri), diagnostics: sheet[uri] },
    )
}

impl Sheet {
    fn report_claims(&mut self, outcome: &LintOutcome, graph: &IncludeGraph, root: &str)
        requires
            outcome.wf(),
            graph.expansions@.contains_key(root@),
        ensures
            final(self).map() == reported_claims(
                old(self).map(),
                located_views(outcome.claims@),
                outcome.claim_mappings@,
                outcome.claimants@,
                graph.expansions.deep(),
                root@,
                outcome.claims@.len() as int,
            ),
    {
        let ghost views = located_views(outcome.claims@);
        let ghost expansions = graph.expansions.deep();
        let mut i: usize = 0;
        while i < outcome.claims.len()
            invariant
                i <= outcome.claims@.len(),
                outcome.wf(),
                graph.expansions@.contains_key(root@),
                expansions == graph.expansions.deep(),
                views == located_views(outcome.claims@),
                self.map() == reported_claims(
                    old(self).map(),
                    views,
                    outcome.claim_mappings@,
                    outcome.claimants@,
                    expansions,
                    root@,
                    i as int,
                ),
            decreases outcome.claims@.len() - i,
        {
            proof {
                assert(views[i as int] == outcome.claims@[i as int]@);
            }
            let known = match graph.expansions.get(root) {
                Some(record) => match &outcome.claim_mappings[i] {
                    Mapping::Exact { uri, start: _, end: _ } => record.source_texts.contains_key(
                        uri.as_str(),
                    ),
                    Mapping::Elsewhere => false,
                },
                None => false,
            };
            match &outcome.claim_mappings[i] {
                Mapping::Exact { uri, start: Some(start), end: Some(end) } => {
                    if known && semantic_span_context_is_unambiguous(
                        graph,
                        root,
                        uri.as_str(),
                        &outcome.claimants[i],
                    ) {
                        let range = Range { start: *start, end: *end };
                        self.report(&outcome.claims[i], uri.as_str(), range);
                    }
                },
                _ => {},
            }
            i += 1;
        }
    }

    fn publications(&self, documents: &OpenDocuments) -> (r: Vec<DiagnosticPublication>)
        ensures
            publication_views(r@) == sheet_publications(self.map(), documents@),
    {
        let n: usize = self.targets.len();
        let ghost sheet = self.map();
        let ghost keys = self.targets.keys();
        let ghost goal = sheet_publications(sheet, documents@);
        proof {
            assert(sheet.dom() =~= self.targets@.dom());
        }
        let mut list: Vec<DiagnosticPublication> = Vec::new();
        let mut i: usize = 0;
        while i < n
            invariant
                i <= n,
                n == keys.len(),
                keys == self.targets.keys(),
                keys == in_order(sheet.dom()),
                sheet == self.map(),
                goal == sheet_publications(sheet, documents@),
                publication_views(list@) == goal.take(i as int),
            decreases n - i,
        {
            let uri = self.targets.key_at(i);
            let found = self.targets.value_at(i);
            let mut diagnostics: Vec<Diagnostic> = Vec::new();
            let mut k: usize = 0;
            while k < found.items.len()
                invariant
                    k <= found.items@.len(),
                    diagnostic_views(diagnostics@) == diagnostic_views(found.items@).take(k as int),
                decreases found.items@.len() - k,
            {
                let ghost held = diagnostics@;
                let copied = found.items[k].copy();
                diagnostics.push(copied);
                proof {
                    assert(diagnostic_views(diagnostics@) =~= diagnostic_views(held).push(copied@));
                    assert(diagnostic_views(found.items@).take(k + 1) =~= diagnostic_views(
                        found.items@,
                    ).take(k as int).push(found.items@[k as int]@));
                }
                k += 1;
            }
            let ghost held = list@;
            let publication = DiagnosticPublication {
                uri: uri.clone(),
                version: documents.document_version(uri.as_str()),
                diagnostics,
            };
            list.push(publication);
            proof {
                assert(diagnostic_views(found.items@).take(found.items@.len() as int)
                    =~= diagnostic_views(found.items@));
                assert(sheet[keys[i as int]] == found@);
                assert(goal[i as int] == publication@);
                assert(publication_views(list@) =~= publication_views(held).push(publication@));
                assert(goal.take(i + 1) =~= goal.take(i as int).push(goal[i as int]));
            }
            i += 1;
        }
        proof {
            assert(goal.take(n as int) =~= goal);
        }
        list
    }
}

/// The last step: the findings of the rules and the claims are reported for the documents
/// that they lie in.
pub open spec fn linted_step(
    run: RunView,
    key: KeyView,
    outcome: LintOutcome,
    expansions: Map<Seq<char>, RecordView>,
    open: Map<Seq<char>, DocumentView>,
) -> (RunView, ActionView) {
    if expansions.contains_key(run.uri) && expansions[run.uri].context_key == key {
        ended(run, sheet_publications(sheet_of(outcome, expansions, run.uri), open))
    } else {
        failed(run, "include expansion was not retained for "@ + run.uri)
    }
}

impl DiagnosticRun {
    /// Ends with what the rules and the analysis of names and types came to.
    pub fn linted(
        &mut self,
        key: &ContextKey,
        outcome: &LintOutcome,
        graph: &IncludeGraph,
        documents: &OpenDocuments,
    ) -> (r: DiagnosticAction)
        requires
            old(self).stage == DiagnosticStage::Lint,
            outcome.wf(),
        ensures
            (final(self)@, r@) == linted_step(
                old(self)@,
                key@,
                *outcome,
                graph.expansions.deep(),
                documents@,
            ),
    {
        let ghost expansions = graph.expansions.deep();
        let record = match graph.expansions.get(self.uri.as_str()) {
            Some(record) => record,
            None => {
                let reason = concat("include expansion was not retained for ", self.uri.as_str());
                return self.fail(reason);
            },
        };
        if !record.context_key.same_as(key) {
            let reason = concat("include expansion was not retained for ", self.uri.as_str());
            return self.fail(reason);
        }
        let mut sheet = Sheet { targets: StrMap::new() };
        proof {
            assert(sheet.map() =~= Map::empty());
            assert(expansions[self.uri@] == record@);
        }
        sheet.report_all(&outcome.findings, &outcome.mappings, &record.source_texts);
        sheet.report_claims(outcome, graph, self.uri.as_str());
        if !sheet.targets.contains_key(self.uri.as_str()) {
            let empty = DiagnosticList { items: Vec::new() };
            proof {
                assert(empty@ =~= seq![]);
                lemma_deep_insert(sheet.targets@, self.uri@, empty);
            }
            let _previous = sheet.targets.insert(self.uri.clone(), empty);
        }
        let publications = sheet.publications(documents);
        self.end(publications)
    }
}

/// The number of steps from a node to the root, where each node but the first names the
/// one above it, which comes before it.
pub open spec fn node_depth(parents: Seq<usize>, i: int) -> nat
    decreases i,
{
    if i <= 0 || i >= parents.len() || parents[i] >= i {
        0
    } else {
        node_depth(parents, parents[i] as int) + 1
    }
}

/// No node lies deeper than the recursive pipelines can go.
pub open spec fn safe_depth(parents: Seq<usize>) -> bool {
    forall|i: int| 0 <= i < parents.len() ==> #[trigger] node_depth(parents, i) <= MAX_TREE_DEPTH
}

pub open spec fn depth_text() -> Seq<char> {
    "analysis skipped: syntax tree depth exceeds the safe limit of "@ + decimal(
        MAX_TREE_DEPTH as nat,
    )
}

/// Refuses a syntax tree that is deeper than the recursive pipelines can go. The tree is
/// given by the place of the node above each node, which comes before it; the first is
/// the root.
pub fn ensure_safe_tree_depth(parents: &Vec<usize>) -> (r: Result<(), String>)
    ensures
        r is Ok <==> safe_depth(parents@),
        r is Err ==> r->Err_0@ == depth_text(),
{
    let mut depths: Vec<usize> = Vec::new();
    let mut i: usize = 0;
    while i < parents.len()
        invariant
            i <= parents@.len(),
            depths@.len() == i,
            forall|j: int|
                0 <= j < i ==> #[trigger] depths@[j] == node_depth(parents@, j) && depths@[j]
                    <= MAX_TREE_DEPTH,
        decreases parents@.len() - i,
    {
        let above: usize = parents[i];
        let depth: usize = if i == 0 || above >= i {
            0
        } else {
            depths[above] + 1
        };
        proof {
            assert(depth == node_depth(parents@, i as int));
        }
        if depth > MAX_TREE_DEPTH {
            let limit = to_decimal(MAX_TREE_DEPTH);
            return Err(
                concat(
                    "analysis skipped: syntax tree depth exceeds the safe limit of ",
                    limit.as_str(),
                ),
            );
        }
        depths.push(depth);
        i += 1;
    }
    proof {
        assert forall|j: int| 0 <= j < parents@.len() implies #[trigger] node_depth(parents@, j)
            <= MAX_TREE_DEPTH by {
            assert(depths@[j] == node_depth(parents@, j));
        }
    }
    Ok(())
}

/// What came of the attempt to see the document as part of its project.
#[derive(Debug)]
pub enum Resolution {
    /// The text could not be indexed or parsed, or it names no unit.
    Unread,
    /// The project could not be resolved, for this reason.
    Unresolved(String),
    /// No picture of the project could be built, for this reason.
    Unbuilt(String),
    /// A picture of the project was built, of all that it needs or not.
    Built { complete: bool },
}

/// Which rules are run.
#[derive(Clone, Copy, Debug, PartialEq, Eq, Structural)]
pub enum RuleRun {
    /// Those that need the file alone.
    FileOnly,
    /// Those that need the file alone, and those on the flow of control in it.
    FileFlow,
    /// All, over the picture of the project.
    Project,
}

/// Which rules are run: those of the project only where it is known whole, and where the
/// text that the rules see is that of the file.
pub open spec fn rule_run(resolution: Resolution, same_text: bool) -> RuleRun {
    match resolution {
        Resolution::Built { complete: true } => if same_text {
            RuleRun::Project
        } else {
            RuleRun::FileFlow
        },
        _ => RuleRun::FileOnly,
    }
}

/// What is said of a project that is left out.
pub open spec fn resolution_warning(uri: Seq<char>, resolution: Resolution) -> Option<Seq<char>> {
    match resolution {
        Resolution::Unresolved(reason) => Some(
            "could not resolve project CFG for "@ + uri + ": "@ + reason@
                + "; using file-local CFG"@,
        ),
        Resolution::Unbuilt(reason) => Some(
            "could not build project CFG for "@ + uri + ": "@ + reason@
                + "; using file-local CFG"@,
        ),
        _ => None,
    }
}

fn fallback_message(start: &str, uri: &str, reason: &str) -> (r: String)
    ensures
        r@ == start@ + uri@ + ": "@ + reason@ + "; using file-local CFG"@,
{
    let head = concat3(start, uri, ": ");
    concat3(head.as_str(), reason, "; using file-local CFG")
}

/// Chooses which rules are run, and warns where a project is left out.
pub fn choose_rules(
    uri: &str,
    resolution: &Resolution,
    same_text: bool,
    warnings: &mut WarningLog,
) -> (r: RuleRun)
    requires
        old(warnings).wf(),
    ensures
        r == rule_run(*resolution, same_text),
        final(warnings).wf(),
        final(warnings)@ == (match resolution_warning(uri@, *resolution) {
            Some(message) => warned_with(old(warnings)@, message),
            None => old(warnings)@,
        }),
{
    match resolution {
        Resolution::Unread => RuleRun::FileOnly,
        Resolution::Unresolved(reason) => {
            warnings.warn(
                fallback_message("could not resolve project CFG for ", uri, reason.as_str()),
            );
            RuleRun::FileOnly
        },
        Resolution::Unbuilt(reason) => {
            warnings.warn(
                fallback_message("could not build project CFG for ", uri, reason.as_str()),
            );
            RuleRun::FileOnly
        },
        Resolution::Built { complete } => if !*complete {
            RuleRun::FileOnly
        } else if same_text {
            RuleRun::Project
        } else {
            RuleRun::FileFlow
        },
    }
}

/// The name of a project's configuration.
pub open spec fn configuration_text(context: ProjectContext) -> Seq<char> {
    "config="@ + (match context.config {
        Some(config) => config@,
        None => ""@,
    }) + ";platform="@ + (match context.platform {
        Some(platform) => platform@,
        None => ""@,
    })
}

/// The name of a project's configuration.
pub fn configuration_id(context: &ProjectContext) -> (r: String)
    ensures
        r@ == configuration_text(*context),
{
    let config = match &context.config {
        Some(config) => config.as_str(),
        None => "",
    };
    let platform = match &context.platform {
        Some(platform) => platform.as_str(),
        None => "",
    };
    let head = concat("config=", config);
    concat3(head.as_str(), ";platform=", platform)
}

/// The symbols of which the fact is known, among the first `n`.
pub open spec fn symbols_of(
    keys: Seq<Seq<char>>,
    facts: Map<Seq<char>, ConditionalFact>,
    fact: ConditionalFact,
    n: int,
) -> Seq<Seq<char>>
    decreases n,
{
    if n <= 0 {
        seq![]
    } else {
        let before = symbols_of(keys, facts, fact, n - 1);
        if facts[keys[n - 1]] == fact {
            before.push(keys[n - 1])
        } else {
            before
        }
    }
}

/// The symbols of which the fact is known, in their order.
pub fn symbols_with(facts: &StrMap<ConditionalFact>, fact: ConditionalFact) -> (r: Vec<String>)
    ensures
        texts(r@) == symbols_of(
            in_order(facts@.dom()),
            facts@,
            fact,
            in_order(facts@.dom()).len() as int,
        ),
{
    let n: usize = facts.len();
    let ghost keys = facts.keys();
    let mut list: Vec<String> = Vec::new();
    let mut i: usize = 0;
    proof {
        assert(texts(list@) =~= seq![]);
    }
    while i < n
        invariant
            i <= n,
            n == keys.len(),
            keys == facts.keys(),
            texts(list@) == symbols_of(keys, facts@, fact, i as int),
        decreases n - i,
    {
        if *facts.value_at(i) == fact {
            let ghost held = list@;
            list.push(facts.key_at(i).clone());
            proof {
                assert(texts(list@) =~= texts(held).push(keys[i as int]));
            }
        }
        i += 1;
    }
    list
}

/// A document is to be expanded before claims are weighed: what is kept of it is not
/// whole, or belongs to another context.
pub fn needs_expansion(graph: &IncludeGraph, uri: &str, key: &ContextKey) -> (r: bool)
    ensures
        r == !(graph.expansions@.contains_key(uri@) && graph.expansions.deep()[uri@].complete
            && graph.expansions.deep()[uri@].context_key == key@),
{
    match graph.expansions.get(uri) {
        Some(record) => !(record.complete && record.context_key.same_as(key)),
        None => true,
    }
}

/// A document can lay claim to a place: its context was found, and sources are analysed
/// in it.
pub fn may_lay_claim(context: Option<&ProjectContext>) -> (r: bool)
    ensures
        r == (context is Some && !context->0.selection_invalid && context->0.override_error is None),
{
    match context {
        Some(context) => !context.selection_invalid && context.override_error.is_none(),
        None => false,
    }
}

} // verus!
