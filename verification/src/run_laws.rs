//! What becomes of a document that is analysed, formatted or navigated from, step by step.

use vstd::prelude::*;

use crate::access::{read_plan, supported};
use crate::documents::DocumentView;
use crate::excludes::any_includes;
use crate::external_units::own_stems;
use crate::formatting::{
    format_begun, format_configured_step, format_context_step, format_depth_step,
    format_scanned_step, FormatActionView, FormatView,
};
use crate::includes::RecordView;
use crate::limits::ResourceLimits;
use crate::lint::{
    begun, closed_step, configured_step, context_step, depth_step, expanded_step, linted_step,
    projection_step, ActionView, ClosedFacts, DiagnosticStage, LintOutcome, RunView,
    EXPANSION_INCOMPLETE, OUTSIDE_SOURCES, SELECTION_INVALID, SERVER_SOURCE,
};
use crate::names::{has_extension, pascal_path};
use crate::navigation::{
    navigation_begun, navigation_loaded, navigation_owned, navigation_resolved,
    navigation_revalidated, LocationView, NavigationActionView, NavigationView,
    MAX_NAVIGATION_ATTEMPTS,
};
use crate::paths::Parts;
use crate::project::{KeyView, ProjectContext};
use crate::publications::{DiagnosticView, PublicationView, Severity};
use crate::strings::byte_len;
use crate::text::{without_bare_returns, Position, Range};
use crate::uris::{normal, uri_path};


verus! {

/// What a run says of a document that it cannot analyse: one error at its very beginning, in
/// the name of the server, for the version that was looked at.
pub open spec fn reports_one_error(
    action: ActionView,
    uri: Seq<char>,
    version: Option<i32>,
    message: Seq<char>,
) -> bool {
    let start = Position { line: 0, character: 0 };
    &&& action is Publish
    &&& action->Publish_0.len() == 1
    &&& action->Publish_0[0].uri == uri
    &&& action->Publish_0[0].version == version
    &&& action->Publish_0[0].diagnostics.len() == 1
    &&& action->Publish_0[0].diagnostics[0] == (DiagnosticView {
        range: Range { start, end: start },
        severity: Severity::Error,
        code: Some(SERVER_SOURCE@),
        source: Some(SERVER_SOURCE@),
        message,
    })
}

/// An open document is analysed as the client has it, in its version and with its text. One
/// that was rejected is reported as such. A closed one is looked for on disk. What has no file
/// is not analysed, and a run keeps its document.
pub proof fn law_a_run_begins_with_what_the_client_has(
    run: RunView,
    open: Map<Seq<char>, DocumentView>,
)
    requires
        open.contains_key(run.uri) && open[run.uri].rejection is None ==> open[run.uri].text is Some,
    ensures
        begun(run, open).0.uri == run.uri,
        open.contains_key(run.uri) ==> begun(run, open).0.version == Some(open[run.uri].version),
        open.contains_key(run.uri) && open[run.uri].rejection is Some ==> reports_one_error(
            begun(run, open).1,
            run.uri,
            Some(open[run.uri].version),
            open[run.uri].rejection->0,
        ),
        open.contains_key(run.uri) && open[run.uri].rejection is None && uri_path(run.uri) is Some
            ==> begun(run, open).0.text == open[run.uri].text && begun(run, open).0.stage
            == DiagnosticStage::Depth && begun(run, open).1 == ActionView::MeasureDepth(
            without_bare_returns(open[run.uri].text->0),
        ),
        !open.contains_key(run.uri) && uri_path(run.uri) is Some ==> begun(run, open).1
            == ActionView::FindContext && begun(run, open).0.version == run.version && begun(
            run,
            open,
        ).0.stage == DiagnosticStage::ClosedContext,
        uri_path(run.uri) is None && !(open.contains_key(run.uri)
            && open[run.uri].rejection is Some) ==> begun(run, open).1 is Fail,
{
}

/// A closed document is read exactly where its project is in order, and where the file may be
/// read in it: found beside another, in a folder of the workspace or by a mapping, and open to
/// analysis. In every other case the document's analysis ends, with one error where a project
/// is known.
pub proof fn law_a_closed_document_is_read_where_it_may_be(
    run: RunView,
    context: Option<ProjectContext>,
    facts: ClosedFacts,
)
    ensures
        ({
            let path = uri_path(run.uri)->0;
            let after = closed_step(run, context, facts);
            let in_order = context is Some && !context->0.selection_invalid
                && context->0.override_error is None;
            let within = facts.legacy_route || any_includes(facts.roots@, normal(path))
                || facts.read.policy_entry is Some;
            let readable = supported(
                facts.roots@,
                path,
                context->0,
                facts.read,
                facts.mapped,
                facts.legacy_route,
            );
            let plan = read_plan(context->0, path, facts.read.entry(), facts.legacy_route);
            &&& after.0.uri == run.uri && after.0.version == run.version && after.0.text == run.text
            &&& after.1 is Read <==> in_order && within && readable && plan is Some
            &&& after.1 is Read ==> after.1->Read_0 == plan->0 && after.0.stage
                == DiagnosticStage::Reading
            &&& !(after.1 is Read) ==> after.0.stage == DiagnosticStage::Done && (after.1 is Fail
                || after.1 is Publish)
            &&& context is None ==> after.1 is Fail
            &&& context is Some && context->0.selection_invalid ==> reports_one_error(
                after.1,
                run.uri,
                run.version,
                SELECTION_INVALID@,
            )
            &&& in_order && !(within && readable) ==> reports_one_error(
                after.1,
                run.uri,
                run.version,
                OUTSIDE_SOURCES@,
            )
        }),
{
}

/// The steps between the text and the rules let a document pass exactly where nothing speaks
/// against it. A tree that is too deep, a project that is not in order and an expansion that is
/// not complete end the analysis with one error that says so; a document that is left out of
/// linting gets an empty report; and nothing is lost of the document on the way.
pub proof fn law_a_run_goes_on_while_nothing_speaks_against_it(
    run: RunView,
    error: Option<Seq<char>>,
    context: Option<ProjectContext>,
    excluded: bool,
    complete: bool,
)
    ensures
        depth_step(run, error).0 == (RunView {
            stage: if error is None {
                DiagnosticStage::Context
            } else {
                DiagnosticStage::Done
            },
            ..run
        }),
        error is None ==> depth_step(run, error).1 == ActionView::FindContext,
        error is Some ==> reports_one_error(
            depth_step(run, error).1,
            run.uri,
            run.version,
            error->0,
        ),
        context_step(run, context).1 == ActionView::Configure <==> context is Some
            && !context->0.selection_invalid && context->0.override_error is None,
        context_step(run, context).0 == (RunView {
            stage: if context_step(run, context).1 == ActionView::Configure {
                DiagnosticStage::Configuration
            } else {
                DiagnosticStage::Done
            },
            ..run
        }),
        context is None ==> context_step(run, context).1 is Fail,
        context is Some && context->0.selection_invalid ==> reports_one_error(
            context_step(run, context).1,
            run.uri,
            run.version,
            SELECTION_INVALID@,
        ),
        context is Some && !context->0.selection_invalid && context->0.override_error is Some
            ==> context_step(run, context).1 is Publish,
        excluded ==> configured_step(run, excluded).1 == ActionView::Publish(
            seq![PublicationView { uri: run.uri, version: run.version, diagnostics: seq![] }],
        ) && configured_step(run, excluded).0 == (RunView { stage: DiagnosticStage::Done, ..run }),
        !excluded ==> configured_step(run, excluded) == (
            (RunView { stage: DiagnosticStage::Expansion, ..run }),
            ActionView::Expand,
        ),
        complete ==> expanded_step(run, complete) == (
            (RunView { stage: DiagnosticStage::Projection, ..run }),
            ActionView::MeasureProjection,
        ),
        !complete ==> reports_one_error(
            expanded_step(run, complete).1,
            run.uri,
            run.version,
            EXPANSION_INCOMPLETE@,
        ) && expanded_step(run, complete).0 == (RunView { stage: DiagnosticStage::Done, ..run }),
        error is None ==> projection_step(run, error) == (
            (RunView { stage: DiagnosticStage::Lint, ..run }),
            ActionView::RunRules,
        ),
        error is Some ==> reports_one_error(
            projection_step(run, error).1,
            run.uri,
            run.version,
            error->0,
        ) && projection_step(run, error).0 == (RunView { stage: DiagnosticStage::Done, ..run }),
{
}

/// Findings are not published for an expansion that is not kept, or that was made for another
/// project.
pub proof fn law_findings_need_the_expansion_they_were_made_for(
    run: RunView,
    key: KeyView,
    outcome: LintOutcome,
    expansions: Map<Seq<char>, RecordView>,
    open: Map<Seq<char>, DocumentView>,
)
    ensures
        linted_step(run, key, outcome, expansions, open).1 is Publish <==> expansions.contains_key(
            run.uri,
        ) && expansions[run.uri].context_key == key,
        !(linted_step(run, key, outcome, expansions, open).1 is Publish) ==> linted_step(
            run,
            key,
            outcome,
            expansions,
            open,
        ).1 is Fail,
        linted_step(run, key, outcome, expansions, open).0 == (RunView {
            stage: DiagnosticStage::Done,
            ..run
        }),
{
}

/// A document is formatted only where it is a Pascal file, where its project is in order, and
/// where it may be read. An open document is formatted as the client has it: one that was
/// rejected or that has no text is not, and neither is one that is too large. A closed one is
/// read first.
pub proof fn law_what_is_formatted(
    run: FormatView,
    context: Option<ProjectContext>,
    facts: ClosedFacts,
    open: Map<Seq<char>, DocumentView>,
    limits: ResourceLimits,
)
    ensures
        format_begun(run).1 is FindContext <==> uri_path(run.uri) is Some && pascal_path(
            uri_path(run.uri)->0,
        ),
        !(format_begun(run).1 is FindContext) ==> format_begun(run).1 is Fail,
        ({
            let path = uri_path(run.uri)->0;
            let after = format_context_step(run, context, facts, open, limits);
            let allowed = context is Some && !context->0.selection_invalid
                && context->0.override_error is None && supported(
                facts.roots@,
                path,
                context->0,
                facts.read,
                facts.mapped,
                facts.legacy_route,
            );
            let is_open = open.contains_key(run.uri);
            let text = open[run.uri].text;
            let plan = read_plan(context->0, path, facts.read.entry(), facts.legacy_route);
            &&& after.0.uri == run.uri
            &&& after.1 is MeasureDepth <==> allowed && is_open && open[run.uri].rejection is None
                && text is Some && byte_len(text->0) <= limits.max_file_bytes
            &&& after.1 is MeasureDepth ==> after.1->MeasureDepth_0 == text->0 && after.0.text
                == text
            &&& after.1 is Read <==> allowed && !is_open && plan is Some
            &&& after.1 is Read ==> after.1->Read_0 == plan->0
            &&& !(after.1 is MeasureDepth) && !(after.1 is Read) ==> after.1 is Fail
        }),
{
}

/// Formatting ends where the tree is too deep. External units are looked for only where uses
/// clauses are grouped, in the project's own directory, and the formatter is told all that were
/// found but for the project's own.
pub proof fn law_the_formatter_is_told_the_units_of_others(
    run: FormatView,
    error: Option<Seq<char>>,
    group: bool,
    root: Option<Parts>,
    units: Set<Seq<char>>,
    context: ProjectContext,
    unit: Seq<char>,
)
    ensures
        error is Some ==> format_depth_step(run, error).1 == FormatActionView::Fail(error->0),
        error is None ==> format_depth_step(run, error).1 is Configure,
        !group ==> format_configured_step(run, group, root).1 is RunFormatter
            && !format_configured_step(run, group, root).1->RunFormatter_0.contains(unit),
        group && root is Some ==> format_configured_step(run, group, root).1
            == FormatActionView::Scan(root->0),
        group && root is None ==> format_configured_step(run, group, root).1 is Fail,
        format_scanned_step(run, units, context).1 is RunFormatter,
        format_scanned_step(run, units, context).1->RunFormatter_0.contains(unit)
            <==> units.contains(unit) && !own_stems(context, uri_path(run.uri)->0).contains(unit),
        format_depth_step(run, error).0.text == run.text,
        format_configured_step(run, group, root).0.text == run.text,
        format_scanned_step(run, units, context).0.text == run.text,
{
}

/// Nothing is followed in a project that is not in order, and nothing is found from a source
/// that may not be read or that could not be loaded. From a file that others take in, the way
/// goes on only where at most one does and the search for them was complete.
pub proof fn law_where_navigation_goes(
    run: NavigationView,
    context: Option<ProjectContext>,
    readable: bool,
    complete: bool,
    loaded: bool,
    parents: Map<Seq<char>, Set<Seq<char>>>,
)
    ensures
        ({
            let after = navigation_begun(run, context, readable, parents).1;
            let in_order = context is Some ==> !context->0.selection_invalid
                && context->0.override_error is None;
            let taken_in = uri_path(run.uri) is Some && has_extension(uri_path(run.uri)->0, "inc"@);
            let several = parents.contains_key(run.uri) && parents[run.uri].len() > 1;
            &&& !in_order ==> after is Fail
            &&& in_order && !readable ==> after == NavigationActionView::Finish(seq![])
            &&& in_order && readable && !taken_in ==> after == NavigationActionView::Load
            &&& in_order && readable && taken_in && several ==> after is Fail
            &&& in_order && readable && taken_in && !several ==> after
                == NavigationActionView::FindOwners
            &&& navigation_owned(run, complete, parents).1 == NavigationActionView::Load
                <==> complete && !several
            &&& !(complete && !several) ==> navigation_owned(run, complete, parents).1 is Fail
        }),
        loaded ==> navigation_loaded(run, loaded).1 == NavigationActionView::Resolve,
        !loaded ==> navigation_loaded(run, loaded).1 == NavigationActionView::Finish(seq![]),
{
}

/// What was found is given to the client exactly where nothing changed since it was looked up,
/// and as it was found. Where something changed, the place is looked up again, and no more than
/// so many times.
pub proof fn law_navigation_answers_with_what_still_holds(
    run: NavigationView,
    found: Seq<LocationView>,
    changed: bool,
)
    ensures
        ({
            let looked = navigation_resolved(run, found);
            let after = navigation_revalidated(looked.0, changed);
            &&& looked.1 == NavigationActionView::Revalidate
            &&& looked.0.attempts == run.attempts + 1
            &&& !changed ==> after.1 == NavigationActionView::Finish(found)
            &&& changed ==> !(after.1 is Finish)
            &&& changed ==> (after.1 == NavigationActionView::Resolve <==> run.attempts + 1
                < MAX_NAVIGATION_ATTEMPTS)
            &&& changed && !(after.1 == NavigationActionView::Resolve) ==> after.1 is Fail
        }),
{
}

} // verus!
