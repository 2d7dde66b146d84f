use std::sync::atomic::AtomicBool;
use std::sync::Arc;

use pascal_lsp::access::{
    mapped_path_is_readable, safe_path_under_root, CasePath, CaseStep, LoadPlan, NativeRoot,
    ReadFacts,
};
use pascal_lsp::budget::{
    ReconciliationBudget, Work, MAX_NOTIFICATION_RECONCILIATION_DEPENDENCY_EDGES,
};
use pascal_lsp::cancel::Interrupt;
use pascal_lsp::conditional::ConditionalContext;
use pascal_lsp::contexts::{ContextStore, OwnerOrigin};
use pascal_lsp::discovery::{discovery_directories, WatchedPath};
use pascal_lsp::documents::{OpenDocument, OpenDocuments};
use pascal_lsp::excludes::WorkspaceRoot;
use pascal_lsp::filenames::{names_without_entry, FilenameCatalogue};
use pascal_lsp::formatting::{FormatAction, FormatRun};
use pascal_lsp::generations::Generations;
use pascal_lsp::handover::NavigationState;
use pascal_lsp::imports::{
    dependency_uri, importing_file, unloaded_message, DependencyStep, ImportStart, ScopeFacts,
};
use pascal_lsp::includes::{Expansion, IncludeGraph};
use pascal_lsp::installation::{plan_context, project_directory, Discovered};
use pascal_lsp::keymap::{Identity, KeyMap};
use pascal_lsp::limits::ResourceLimits;
use pascal_lsp::lint::{
    choose_rules, configuration_id, locate_claims, locate_findings, may_lay_claim,
    needs_expansion, ClosedFacts, DiagnosticAction, DiagnosticRun, LintFinding, LintOutcome,
    LocatedFinding, Mapping, Resolution, RuleRun, SemanticFinding, SemanticKind,
};
use pascal_lsp::loading::{ClosedStep, LoadReason, LoadStep};
use pascal_lsp::navigation::{
    virtual_query_positions, Location, NavigationAction, NavigationRun, RootPlaces,
};
use pascal_lsp::package_lookup::{
    PackageEntry, PackageFacts, PackageLookup, PackageStep, PackageUnit, UnitQuery,
};
use pascal_lsp::package_scan::PathList;
use pascal_lsp::package_watch::{outside_read_roots, PackageMetadata, PackageMetadataKey};
use pascal_lsp::packages::{package_catalogue_roots, MappedRoot, PackageCatalogues};
use pascal_lsp::paths::FilePath;
use pascal_lsp::project::{
    ContextKey, ContextState, DiskStamp, EffectiveOverrides, Membership, PathEntry, PathStamp,
    ProjectContext, Provenance,
};
use pascal_lsp::publications::{Publications, Severity};
use pascal_lsp::records::{
    uninspected_configuration, AnalysisRecords, DiskReading, SourceRecord,
};
use pascal_lsp::renames::PendingRenames;
use pascal_lsp::schedule::{DiagnosticSchedule, DIAGNOSTIC_RETRY};
use pascal_lsp::selection::{
    legacy_route_for_resolver, EffectiveChoice, Selected, Selections, Surroundings,
};
use pascal_lsp::settings::WorkspaceOptions;
use pascal_lsp::sources::Sources;
use pascal_lsp::staleness::{Current, DiagnosticDependencies, OverlayFacts, RecordFacts};
use pascal_lsp::strmap::{StrMap, StrSet};
use pascal_lsp::text::{normalize_line_endings_with_offsets, Position, Range};
use pascal_lsp::units::{
    catalogue_limit_warning, directory_unit_candidate_groups, filename_unit_candidates,
    is_legacy_source, open_document_entries, root_search_entry, scope_names, unit_groups, Place,
    UnitSearch, UnitStep, Verdict,
};
use pascal_lsp::uris::{canonical_file_uri, file_path_of, uri_of_path};
use pascal_lsp::warnings::WarningLog;
use pascal_lsp::workspace::Workspace;

fn path(text: &str) -> FilePath {
    FilePath::parse(text)
}

fn uri(text: &str) -> String {
    uri_of_path(&path(text)).expect("a file URI")
}

fn strings(list: &[&str]) -> Vec<String> {
    list.iter().map(|s| s.to_string()).collect()
}

fn shown(paths: &[FilePath]) -> Vec<String> {
    paths.iter().map(|path| path.text()).collect()
}

fn key(project: Option<&str>) -> ContextKey {
    ContextKey {
        project_file: project.map(path),
        workspace_root: Some(path("/w")),
        project_scope: Some(path("/w")),
        selection_scope: None,
        selection_project: None,
        config: None,
        platform: None,
        conditional_context: ConditionalContext::new(),
        overrides: EffectiveOverrides::none(),
    }
}

fn state_of(context: ProjectContext) -> ContextState {
    ContextState {
        context: Arc::new(context),
        metadata_files: Vec::new(),
        metadata_observations: Vec::new(),
        watched_paths: KeyMap::new(),
        memberships: KeyMap::new(),
        read_observations: Vec::new(),
    }
}

fn project() -> ProjectContext {
    let mut context = ProjectContext::none();
    context.project_file = Some(path("/w/A.dproj"));
    context
}

fn open(documents: &mut OpenDocuments, uri: &str, text: &str) {
    documents.put(
        uri.to_string(),
        OpenDocument {
            text: Some(text.to_string()),
            version: 1,
            rejection: None,
            identity_generation: 1,
        },
    );
}

fn workspace() -> Workspace {
    Workspace::new(
        &path("/"),
        &vec![path("/w")],
        WorkspaceOptions::default(),
        &Vec::new(),
        &Vec::new(),
    )
}

fn file_stamp(bytes: u64) -> DiskStamp {
    DiskStamp { bytes, modified: Some(7) }
}

fn nothing_said() -> ReadFacts {
    ReadFacts { policy_entry: None, legacy_allowed: false, path_allowed: false }
}

fn at(line: u32, character: u32) -> Position {
    Position { line, character }
}

#[test]
fn a_file_uri_of_plain_characters_stands_for_its_path() {
    let path = file_path_of("file:///w/src/Main.pas").expect("a file");
    assert_eq!(path.text(), "/w/src/Main.pas");
    assert_eq!(uri_of_path(&path).as_deref(), Some("file:///w/src/Main.pas"));
    let spelled = uri("/w/Größe und mehr.pas");
    assert_eq!(spelled, "file:///w/Gr%C3%B6%C3%9Fe%20und%20mehr.pas");
    assert_eq!(file_path_of(&spelled).map(|p| p.text()).as_deref(), Some("/w/Größe und mehr.pas"));
    let canonical = canonical_file_uri("file:///w/x/../A%2Epas");
    assert_eq!(canonical, "file:///w/A.pas");
    assert_eq!(canonical_file_uri(&canonical), canonical);
}

#[test]
fn findings_are_placed_in_the_raw_text() {
    let normalized = normalize_line_endings_with_offsets("ab\r\ncd\r\n");
    let finding = |line: usize, column: usize, end_line: usize, end_column: usize| LintFinding {
        line,
        column,
        end_line,
        end_column,
        severity: Severity::Hint,
        rule: "rule".to_string(),
        message: "said".to_string(),
    };
    let found = vec![finding(2, 1, 2, 3), finding(1, 1, 1, 1), finding(9, 1, 9, 2)];
    let located = locate_findings(&found, &normalized, &Vec::new());
    assert_eq!(located.len(), 1);
    assert_eq!((located[0].start, located[0].end), (4, 6));
    assert_eq!(located[0].code, "rule");
    assert_eq!(located[0].source, "lint4d");
    assert!(locate_findings(&found, &normalized, &vec![(5, 6)]).is_empty());
    assert_eq!(locate_findings(&found, &normalized, &vec![(0, 4)]).len(), 1);
}

#[test]
fn claims_are_on_something_within_the_text() {
    let claim = |start: usize, end: usize| SemanticFinding {
        start,
        end,
        kind: SemanticKind::MissingMember,
        message: "no such member".to_string(),
    };
    let located = locate_claims(&vec![claim(0, 2), claim(2, 2), claim(3, 9)], "abcd");
    assert_eq!(located.len(), 1);
    assert_eq!(located[0].code, "pascal-missing-member");
    assert_eq!(located[0].source, "pascal-lsp");
    assert_eq!(located[0].severity, Severity::Error);
}

#[test]
fn rules_of_a_project_need_all_of_it() {
    let mut log = WarningLog::new();
    let mut choose = |resolution: Resolution, same: bool| {
        choose_rules("file:///w/A.pas", &resolution, same, &mut log)
    };
    assert_eq!(choose(Resolution::Unread, true), RuleRun::FileOnly);
    assert_eq!(choose(Resolution::Built { complete: true }, true), RuleRun::Project);
    assert_eq!(choose(Resolution::Built { complete: true }, false), RuleRun::FileFlow);
    assert_eq!(choose(Resolution::Built { complete: false }, true), RuleRun::FileOnly);
    assert_eq!(choose(Resolution::Unresolved("no".to_string()), true), RuleRun::FileOnly);
    assert_eq!(choose(Resolution::Unbuilt("bad".to_string()), true), RuleRun::FileOnly);
    assert_eq!(
        log.messages,
        strings(&[
            "could not resolve project CFG for file:///w/A.pas: no; using file-local CFG",
            "could not build project CFG for file:///w/A.pas: bad; using file-local CFG",
        ])
    );
    let mut context = project();
    context.config = Some("Release".to_string());
    assert_eq!(configuration_id(&context), "config=Release;platform=");
    assert!(may_lay_claim(Some(&context)));
    context.override_error = Some("broken".to_string());
    assert!(!may_lay_claim(Some(&context)));
    assert!(!may_lay_claim(None));
}

#[test]
fn a_document_is_diagnosed_step_by_step() {
    let mut documents = OpenDocuments::new();
    let main = uri("/w/Main.pas");
    open(&mut documents, &main, "unit Main;\r\n");
    let context = project();
    let mut run = DiagnosticRun::new(&main);
    match run.begin(&documents) {
        DiagnosticAction::MeasureDepth(text) => assert_eq!(text, "unit Main;\r\n"),
        _ => panic!("the tree of an open document is measured first"),
    }
    assert!(matches!(run.measured(None), DiagnosticAction::FindContext));
    assert!(matches!(run.context(Some(&context)), DiagnosticAction::Configure));
    assert!(matches!(run.configured(None, &Vec::new()), DiagnosticAction::Expand));
    assert!(matches!(run.expanded(true), DiagnosticAction::MeasureProjection));
    assert!(matches!(run.projected(None), DiagnosticAction::RunRules));

    let own = key(Some("/w/A.dproj"));
    let mut graph = IncludeGraph::new();
    assert!(needs_expansion(&graph, &main, &own));
    let expansion =
        Expansion { text: "unit Main;\r\n".to_string(), dependencies: Vec::new(), complete: true };
    graph
        .store_expansion(&main, &own, "unit Main;\r\n".to_string(), expansion, &mut Work::free())
        .expect("nothing stops this");
    assert!(!needs_expansion(&graph, &main, &own));
    assert!(needs_expansion(&graph, &main, &key(None)));
    let finding = LocatedFinding {
        start: 5,
        end: 9,
        severity: Severity::Warning,
        code: "W1".to_string(),
        source: "lint4d".to_string(),
        message: "a name".to_string(),
    };
    let outcome = LintOutcome {
        findings: vec![finding],
        mappings: vec![Mapping::Exact {
            uri: main.clone(),
            start: Some(at(0, 5)),
            end: Some(at(0, 9)),
        }],
        claims: Vec::new(),
        claim_mappings: Vec::new(),
        claimants: Vec::new(),
    };
    match run.linted(&own, &outcome, &graph, &documents) {
        DiagnosticAction::Publish(published) => {
            assert_eq!(published.len(), 1);
            assert_eq!(published[0].version, Some(1));
            assert_eq!(published[0].diagnostics.len(), 1);
            let diagnostic = &published[0].diagnostics[0];
            assert_eq!(diagnostic.code.as_deref(), Some("W1"));
            assert_eq!(diagnostic.range, Range { start: at(0, 5), end: at(0, 9) });
        }
        _ => panic!("what was found is published"),
    }
}

#[test]
fn an_incomplete_expansion_withholds_findings() {
    let mut documents = OpenDocuments::new();
    let main = uri("/w/Main.pas");
    open(&mut documents, &main, "unit Main;");
    let mut run = DiagnosticRun::new(&main);
    run.begin(&documents);
    run.measured(None);
    run.context(Some(&project()));
    run.configured(None, &Vec::new());
    match run.expanded(false) {
        DiagnosticAction::Publish(published) => assert_eq!(
            published[0].diagnostics[0].message,
            "include expansion was incomplete; lint diagnostics were withheld"
        ),
        _ => panic!("nothing is found in half a text"),
    }
}

#[test]
fn an_excluded_document_has_no_findings() {
    let mut documents = OpenDocuments::new();
    let main = uri("/w/gen/Main.pas");
    open(&mut documents, &main, "unit Main;");
    let mut run = DiagnosticRun::new(&main);
    run.begin(&documents);
    run.measured(None);
    run.context(Some(&project()));
    match run.configured(Some(&path("/w/lint.toml")), &strings(&["gen/Main.pas"])) {
        DiagnosticAction::Publish(published) => assert!(published[0].diagnostics.is_empty()),
        _ => panic!("the pattern excludes it"),
    }
}

fn sources_with(context: ProjectContext, key: &ContextKey) -> Sources {
    let mut sources = Sources::new();
    sources.contexts.put_state(key, state_of(context));
    sources
}

#[test]
fn a_source_is_loaded_only_from_where_its_project_reads() {
    let own = key(None);
    let sources = sources_with(ProjectContext::none(), &own);
    let documents = OpenDocuments::new();
    let roots: Vec<WorkspaceRoot> = Vec::new();
    let mut log = WarningLog::new();
    let reason = LoadReason { sibling_directory: None, search_path: false };
    let facts = nothing_said();
    let mut load = |uri: &str, key: &ContextKey, reason: &LoadReason| {
        sources.begin_load(&documents, &roots, uri, key, &facts, false, reason, &mut log)
    };
    assert!(matches!(load("untitled:1", &own, &reason), LoadStep::Skip));
    assert!(matches!(load(&uri("/w/notes.txt"), &own, &reason), LoadStep::Skip));
    assert!(matches!(load(&uri("/w/A.pas"), &key(Some("/w/B.dproj")), &reason), LoadStep::Skip));
    assert!(matches!(load(&uri("/x/A.pas"), &own, &reason), LoadStep::Skip));
    let beside = path("/x");
    let sibling = LoadReason { sibling_directory: Some(&beside), search_path: false };
    assert!(matches!(load(&uri("/x/A.pas"), &own, &sibling), LoadStep::Skip));
    assert_eq!(
        log.messages,
        strings(&[
            "cannot load non-file navigation URI: untitled:1",
            "unsupported Pascal dependency path: /w/notes.txt",
            "source path is outside the effective project read roots: /x/A.pas",
        ])
    );
    let facts = ReadFacts {
        policy_entry: Some(PathEntry::legacy(path("/x/A.pas"))),
        legacy_allowed: true,
        path_allowed: true,
    };
    let mut log = WarningLog::new();
    let step = sources.begin_load(
        &documents,
        &roots,
        &uri("/x/A.pas"),
        &own,
        &facts,
        false,
        &sibling,
        &mut log,
    );
    match step {
        LoadStep::Stat(plan) => assert!(plan.route_granted && plan.legacy_payload),
        _ => panic!("it lies beside the source that needs it"),
    }
}

#[test]
fn an_open_document_is_loaded_from_its_text() {
    let own = key(None);
    let mut context = ProjectContext::none();
    context.main_source = Some(path("/x/A.pas"));
    context.main_source_entry = Some(PathEntry {
        path: path("/x/A.pas"),
        provenance: Provenance::Configured,
    });
    let sources = sources_with(context, &own);
    let mut documents = OpenDocuments::new();
    let source = uri("/x/A.pas");
    open(&mut documents, &source, "unit A;");
    let roots: Vec<WorkspaceRoot> = Vec::new();
    let mut log = WarningLog::new();
    let reason = LoadReason { sibling_directory: None, search_path: false };
    let facts = ReadFacts { policy_entry: None, legacy_allowed: true, path_allowed: true };
    let step =
        sources.begin_load(&documents, &roots, &source, &own, &facts, true, &reason, &mut log);
    match step {
        LoadStep::IndexOpen(_, text) => assert_eq!(text, "unit A;"),
        _ => panic!("it is open and not indexed"),
    }
}

#[test]
fn a_closed_source_is_read_again_when_its_file_changed() {
    let mut ws = workspace();
    let source = uri("/w/A.pas");
    let now = Some(file_stamp(9));
    let mut work = Work::free();
    let mut consider = |ws: &mut Workspace, now: Option<DiskStamp>| {
        ws.sources
            .consider_closed(&mut ws.deleted, &source, now, &mut work)
            .expect("nothing stops this")
    };
    assert_eq!(consider(&mut ws, now), ClosedStep::Read);
    assert_eq!(consider(&mut ws, None), ClosedStep::Forget);
    let own = key(None);
    ws.sources.contexts.put_state(&own, state_of(ProjectContext::none()));
    ws.sources
        .finish_indexing(&ws.documents, &source, 9, &own, true, false, None, &mut Work::free())
        .expect("nothing stops this");
    let plan = LoadPlan {
        entry: PathEntry::legacy(path("/w/A.pas")),
        legacy_payload: true,
        route_granted: true,
    };
    let reading = DiskReading {
        text: "unit A;",
        stamp: file_stamp(9),
        content_hash: 1,
        text_hash: 2,
        path_stamp: None,
    };
    ws.keep_read_source(&source, &path("/w/A.pas"), &own, &plan, &reading, "policy");
    assert_eq!(consider(&mut ws, now), ClosedStep::Use);
    assert_eq!(consider(&mut ws, Some(file_stamp(10))), ClosedStep::Read);
    assert!(ws.sources.contexts.legacy_route_is_current(&source, &path("/w/A.pas"), &own));
    assert!(!ws.has_changed_on_disk(&source, now));
    assert!(ws.has_changed_on_disk(&source, Some(file_stamp(10))));
    assert!(ws.has_changed_on_disk(&source, None));
    assert!(!ws.has_changed_on_disk("untitled:1", now));
    ws.use_closed_source(
        &source,
        &path("/w/A.pas"),
        &own,
        true,
        Some(&reading),
        "policy",
        &plan.entry,
        &mut Work::free(),
    )
    .expect("nothing stops this");
    assert!(ws.sources.is_indexed(&source));
    ws.give_up_source(&source, &path("/w/A.pas"), "gone", &mut Work::free())
        .expect("nothing stops this");
    assert!(!ws.sources.is_indexed(&source));
    assert_eq!(ws.log.messages, strings(&["skipping /w/A.pas: gone"]));
}

#[test]
fn an_open_source_that_is_used_is_recorded_with_its_text() {
    let mut ws = workspace();
    ws.records = AnalysisRecords::new(true);
    let source = uri("/w/A.pas");
    open(&mut ws.documents, &source, "unit A;");
    let own = key(None);
    ws.sources.contexts.put_state(&own, state_of(ProjectContext::none()));
    let plan = LoadPlan {
        entry: PathEntry::legacy(path("/w/A.pas")),
        legacy_payload: false,
        route_granted: false,
    };
    let before = ws.sources.clock;
    ws.use_open_source(
        &source,
        &path("/w/A.pas"),
        &own,
        &own,
        false,
        &plan,
        5,
        &mut Work::free(),
    )
    .expect("nothing stops this");
    assert!(ws.sources.clock > before);
    assert!(ws.sources.contexts.open_document_contexts.contains_key(&source));
    let records = ws.records.records.as_ref().expect("recording");
    let record = records.get(&source).expect("recorded");
    assert!(record.open);
    assert_eq!((record.text.as_str(), record.version), ("unit A;", Some(1)));
    assert_eq!(record.parsed_text_hash, Some(5));
}

#[test]
fn imports_are_followed_in_a_known_project() {
    let own = key(Some("/w/A.dproj"));
    let sources = sources_with(project(), &own);
    assert_eq!(sources.begin_imports(&key(None), 2), ImportStart::Stop);
    assert_eq!(sources.begin_imports(&own, 0), ImportStart::BindNothing);
    assert_eq!(sources.begin_imports(&own, 2), ImportStart::Resolve { anywhere: false });
    let without = key(None);
    let sources = sources_with(ProjectContext::none(), &without);
    assert_eq!(sources.begin_imports(&without, 1), ImportStart::Resolve { anywhere: true });

    assert_eq!(
        importing_file("untitled:1", true, true).err().as_deref(),
        Some("unit imports require a file URI: untitled:1")
    );
    assert_eq!(
        importing_file("file:///w/A.pas", false, true).err().as_deref(),
        Some("indexed source file:///w/A.pas has no declared unit name")
    );
    assert_eq!(
        importing_file("file:///w/A.pas", true, false).err().as_deref(),
        Some("indexed source file:///w/A.pas has no decoded source text")
    );
    assert_eq!(
        importing_file("file:///w/A.pas", true, true).map(|p| p.text()).ok().as_deref(),
        Some("/w/A.pas")
    );
    assert_eq!(
        unloaded_message("file:///w/A.pas", "gone"),
        "could not load indexed source file:///w/A.pas: gone"
    );
    assert_eq!(dependency_uri(&path("/w/B.pas")).ok().as_deref(), Some("file:///w/B.pas"));
    assert_eq!(
        dependency_uri(&path("B.pas")).err().as_deref(),
        Some("resolved unit is not a file URI: B.pas")
    );
}

#[test]
fn a_dependency_is_indexed_once_in_its_context() {
    let mut ws = workspace();
    let own = key(None);
    ws.sources.contexts.put_state(&own, state_of(ProjectContext::none()));
    let (importer, target) = (uri("/w/A.pas"), uri("/w/B.pas"));
    let step = |ws: &Workspace, dependency: &str, key: &ContextKey, text: &str| {
        ws.sources.consider_dependency(&importer, dependency, key, Some("unit B;"), text)
    };
    assert_eq!(step(&ws, &importer, &own, "unit A;"), DependencyStep::Skip);
    assert_eq!(step(&ws, &target, &own, "unit B;"), DependencyStep::Index);
    ws.sources
        .finish_indexing(&ws.documents, &target, 7, &own, true, false, None, &mut Work::free())
        .expect("nothing stops this");
    assert_eq!(step(&ws, &target, &own, "unit B;"), DependencyStep::Use);
    assert_eq!(step(&ws, &target, &own, "unit B; //"), DependencyStep::Index);
    assert_eq!(step(&ws, &target, &key(Some("/w/C.dproj")), "unit B;"), DependencyStep::Index);
    let mut pinned = StrSet::new();
    ws.keep_dependency(
        &target,
        &path("/w/B.pas"),
        &own,
        Some(file_stamp(7)),
        true,
        &mut pinned,
    );
    assert!(pinned.contains(&target));
    assert_eq!(ws.sources.stamps.get(&target), Some(&file_stamp(7)));
    assert!(ws.sources.contexts.legacy_route_is_current(&target, &path("/w/B.pas"), &own));
}

#[test]
fn without_a_project_a_file_for_an_import_may_turn_up_in_a_folder() {
    let mut ws = workspace();
    ws.records = AnalysisRecords::new(true);
    let context = ProjectContext::none();
    let policies = ws.roots.iter().map(|_| None).collect();
    let stamps = vec![ws.roots.iter().map(|_| None).collect()];
    let facts = ScopeFacts {
        context: &context,
        roots: &ws.roots,
        policies: &policies,
        read_policy: "policy",
    };
    ws.records.record_import_scopes(&facts, &strings(&["Helper"]), &stamps);
    let records = ws.records.records.as_ref().expect("recording");
    assert_eq!(records.len(), 1);
    let scope = records.value_at(0).missing_provider_scope.as_ref().expect("a scope");
    assert_eq!(scope.root.text(), "/w");
    assert!(scope.names.contains(&"helper.pas".to_string()));
    assert!(matches!(scope.path_entry.provenance, Provenance::LegacyNative));
}

fn list(paths: &[&str]) -> PathList {
    PathList { paths: paths.iter().map(|text| path(text)).collect() }
}

#[test]
fn a_unit_is_looked_for_group_by_group() {
    let mut context = project();
    context.explicit_units = vec![("helper".to_string(), path("/w/lib/Helper.pas"))];
    context.search_paths = vec![path("/w/search")];
    context.search_path_entries = vec![PathEntry::legacy(path("/w/search"))];
    let groups = unit_groups(
        &context,
        "helper",
        &vec![list(&["/w/Helper.pas"])],
        &vec![vec![list(&["/w/search/Helper.pas"])]],
        vec![path("/elsewhere/Helper.pas")],
    );
    let seen: Vec<(Vec<String>, bool)> =
        groups.iter().map(|group| (shown(&group.paths), group.legacy_search_path)).collect();
    assert_eq!(
        seen,
        vec![
            (strings(&["/w/lib/Helper.pas"]), false),
            (strings(&["/w/Helper.pas"]), false),
            (strings(&["/w/search/Helper.pas"]), true),
        ]
    );
    let mut search = UnitSearch::new(&uri("/w/Main.pas"), groups);
    let mut log = WarningLog::new();
    assert!(matches!(search.step(&context), UnitStep::Try(_)));
    assert!(matches!(
        search.group_tried(&context, "Helper", Verdict::Missing, &mut log),
        UnitStep::Try(_)
    ));
    assert!(matches!(
        search.group_tried(&context, "Helper", Verdict::Missing, &mut log),
        UnitStep::Try(_)
    ));
    assert!(matches!(
        search.group_tried(&context, "Helper", Verdict::Missing, &mut log),
        UnitStep::LookInPackages
    ));
    let namespaces = Vec::new();
    let query = UnitQuery { requested: "Other", lookup: "other", namespaces: &namespaces };
    let (lookup, some) = PackageLookup::begin(0, "Other");
    assert!(!some);
    assert!(matches!(search.packages_found(&context, &lookup, &mut log), UnitStep::Try(_)));
    assert_eq!(
        search.packages_tried(&context, &query, &lookup, Verdict::Missing, &mut log),
        None
    );
    assert_eq!(
        log.messages,
        strings(&[
            "unsupported unit filename mapping for Other: no explicit project filename mapping; \
             declaration filename mismatch cannot be inferred safely"
        ])
    );
    let mut log = WarningLog::new();
    let both = Verdict::Ambiguous(strings(&["file:///a", "file:///b"]));
    assert_eq!(search.packages_tried(&context, &query, &lookup, both, &mut log), None);
    assert_eq!(
        log.messages,
        strings(&["ambiguous unit Other in the named source packages: file:///a, file:///b"])
    );
}

#[test]
fn candidates_in_a_directory_come_rank_by_rank() {
    let entries = vec![path("/w/helper.PAS"), path("/w/System.Helper.pas"), path("/w/Main.pas")];
    let groups =
        directory_unit_candidate_groups("Helper", &strings(&["System"]), &entries, None);
    let found: Vec<String> = groups.iter().flat_map(|group| shown(&group.paths)).collect();
    assert_eq!(found, strings(&["/w/helper.PAS", "/w/System.Helper.pas"]));
    let nested = vec![path("/w/System/Helper.pas")];
    let groups =
        directory_unit_candidate_groups("System.Helper", &Vec::new(), &entries, Some(&nested));
    let found: Vec<String> = groups.iter().flat_map(|group| shown(&group.paths)).collect();
    assert_eq!(
        found,
        strings(&["/w/System.Helper.pas", "/w/helper.PAS", "/w/System/Helper.pas"])
    );
    assert_eq!(
        names_without_entry(&entries, &strings(&["Helper.pas", "Missing.pas"])),
        strings(&["Missing.pas"])
    );
}

#[test]
fn files_anywhere_and_open_documents_bear_names() {
    let mut entries = StrMap::new();
    entries.insert("helper.pas".to_string(), list(&["/w/a/Helper.pas"]));
    let mut catalogue =
        FilenameCatalogue { entries, complete: true, directories: Vec::new() };
    let opened = vec![path("/w/b/HELPER.pas"), path("/w/b/Other.pas")];
    let names = strings(&["helper.pas", "missing.pas"]);
    assert_eq!(
        shown(&filename_unit_candidates(&catalogue, &opened, &names)),
        strings(&["/w/a/Helper.pas", "/w/b/HELPER.pas"])
    );
    assert_eq!(scope_names(&catalogue, &opened, &names), strings(&["missing.pas"]));
    catalogue.complete = false;
    assert_eq!(scope_names(&catalogue, &opened, &names), names);
    assert_eq!(
        catalogue_limit_warning(&path("/w")),
        "projectless filename catalogue reached its bounded entry limit of 10000 under /w"
    );
    let mut documents = OpenDocuments::new();
    open(&mut documents, &uri("/w/b/A.pas"), "unit A;");
    open(&mut documents, &uri("/w/c/B.pas"), "unit B;");
    open(&mut documents, &uri("/w/b/C.pas"), "unit C;");
    let mut supported = StrSet::new();
    supported.insert(uri("/w/b/A.pas"));
    supported.insert(uri("/w/c/B.pas"));
    let directory = path("/w/b");
    assert_eq!(
        shown(&open_document_entries(&documents, &supported, &Place::In(&directory))),
        strings(&["/w/b/A.pas"])
    );
    let root = path("/w");
    assert_eq!(
        shown(&open_document_entries(&documents, &supported, &Place::Under(&root))),
        strings(&["/w/b/A.pas", "/w/c/B.pas"])
    );
}

#[test]
fn a_root_is_searched_under_its_own_entry() {
    let mut context = project();
    context.search_path_entries =
        vec![PathEntry { path: path("/W/Lib"), provenance: Provenance::Configured }];
    let entry = root_search_entry(&context, &path("/w/lib"), None);
    assert!(matches!(entry.provenance, Provenance::Configured));
    let entry = root_search_entry(&context, &path("/x"), None);
    assert!(matches!(entry.provenance, Provenance::LegacyNative));
    assert!(!is_legacy_source(&context, &path("/x/A.pas"), false));
    assert!(is_legacy_source(&context, &path("/x/A.pas"), true));
    context.main_source_entry = Some(PathEntry::legacy(path("/x/A.pas")));
    assert!(is_legacy_source(&context, &path("/x/A.pas"), false));
    let legacy = PathEntry::legacy(path("/x/A.pas"));
    let route =
        legacy_route_for_resolver(&path("/x/A.pas"), Some(&legacy), false).expect("a route");
    assert_eq!(route.sibling_directory.text(), "/x");
    assert!(legacy_route_for_resolver(&path("/x/A.pas"), None, false).is_none());
}

#[test]
fn packages_that_are_read_lead_to_units() {
    let namespaces = Vec::new();
    let query = UnitQuery { requested: "Helper", lookup: "helper", namespaces: &namespaces };
    let facts = PackageFacts {
        metadata_files: vec![path("/w/P.dproj")],
        metadata_observations: Vec::new(),
        units: vec![PackageUnit {
            name: "Helper".to_string(),
            entries: vec![
                PackageEntry { path: path("/w/Helper.pas"), allowed: true },
                PackageEntry { path: path("/x/Helper.pas"), allowed: false },
            ],
        }],
        warnings: strings(&["of the package"]),
        reads: Vec::new(),
    };
    let (mut lookup, some) = PackageLookup::begin(1, "Helper");
    assert!(some);
    let goes_on = lookup
        .take_package(&query, "P", &path("/w/P.dpk"), &facts, &mut Work::free())
        .expect("nothing stops this");
    assert!(goes_on);
    assert_eq!(shown(&lookup.candidates), strings(&["/w/Helper.pas"]));
    assert_eq!(
        shown(&lookup.metadata_paths),
        strings(&["/w/P.dpk", "/w/P.dproj", "/w/Helper.pas"])
    );
    assert_eq!(
        lookup.warnings,
        strings(&[
            "source package P maps Helper outside configured workspace/source roots; skipped: \
             /x/Helper.pas",
            "of the package",
        ])
    );
    lookup.skip_package("Q", "broken");
    assert_eq!(lookup.warnings[2], "source package Q was skipped: broken");
    assert_eq!(
        outside_read_roots(&path("/x/Q.dpk")),
        "package metadata /x/Q.dpk is outside the effective project read roots"
    );
}

#[test]
fn a_package_reading_holds_while_its_files_stay() {
    let mut metadata = PackageMetadata::new();
    let key = PackageMetadataKey::of(&path("/w/P.dpk"), &project(), "policy");
    assert!(metadata.files_to_inspect(&key).is_empty());
    let facts = PackageFacts {
        metadata_files: vec![path("/w/P.dpk"), path("/w/P.dproj")],
        metadata_observations: Vec::new(),
        units: Vec::new(),
        warnings: Vec::new(),
        reads: Vec::new(),
    };
    let result = Ok(facts);
    let files = metadata.files_of_reading(&key, &result);
    assert_eq!(shown(&files), strings(&["/w/P.dpk", "/w/P.dproj"]));
    let stamp = |bytes: u64| {
        Some(PathStamp { bytes, modified: None, is_dir: false, is_symlink: false })
    };
    let now = vec![stamp(1), stamp(2)];
    metadata
        .keep(&key, result, files, stamp(1), &now, 1, &mut Work::free())
        .expect("nothing stops this");
    assert_eq!(shown(&metadata.files_to_inspect(&key)), strings(&["/w/P.dpk", "/w/P.dproj"]));
    let kept = metadata.reuse(&key, &now, 2, &mut Work::free()).expect("nothing stops this");
    assert!(kept.is_some());
    let changed = vec![stamp(1), stamp(3)];
    let kept = metadata.reuse(&key, &changed, 3, &mut Work::free()).expect("nothing stops this");
    assert!(kept.is_none());
}

#[test]
fn package_roots_are_folders_and_mapped_roots_in_use() {
    let ws = workspace();
    let mut context = project();
    context.search_path_entries = vec![PathEntry {
        path: path("/opt/sdk/lib"),
        provenance: Provenance::Mapped(path("/opt/sdk")),
    }];
    let mapped = vec![MappedRoot {
        configured: path("/opt/sdk"),
        resolved: path("/opt/sdk"),
        seen: true,
        exists_now: true,
    }];
    let roots = package_catalogue_roots(&ws.roots, &context, &mapped, &mut Work::free())
        .expect("nothing stops this");
    assert_eq!(roots[0].text(), "/w");
    let mut catalogues = PackageCatalogues::new();
    let epoch = catalogues.epoch;
    catalogues.raise_epoch();
    assert_eq!(catalogues.epoch, epoch + 1);
}

#[test]
fn a_place_is_followed_at_most_twice() {
    let main = uri("/w/Main.pas");
    let graph = IncludeGraph::new();
    let context = project();
    let mut run = NavigationRun::new(&main);
    assert!(matches!(run.begin(Some(&context), true, &graph), NavigationAction::Load));
    assert!(matches!(run.loaded(true), NavigationAction::Resolve));
    let found = |line: u32| Location {
        uri: main.clone(),
        range: Range { start: at(line, 0), end: at(line, 4) },
    };
    assert!(matches!(run.resolved(vec![found(1)]), NavigationAction::Revalidate));
    assert!(matches!(run.revalidated(true), NavigationAction::Resolve));
    assert!(matches!(run.resolved(vec![found(2)]), NavigationAction::Revalidate));
    match run.revalidated(true) {
        NavigationAction::Fail(reason) => assert_eq!(
            reason,
            "navigation source changed repeatedly while resolving file:///w/Main.pas; result is \
             incomplete"
        ),
        _ => panic!("it does not go on for ever"),
    }
    let mut run = NavigationRun::new(&main);
    run.begin(Some(&context), true, &graph);
    run.loaded(true);
    run.resolved(vec![found(1)]);
    match run.revalidated(false) {
        NavigationAction::Finish(places) => assert_eq!(places[0].range.start, at(1, 0)),
        _ => panic!("nothing has changed"),
    }
    let roots = vec![RootPlaces {
        uri: uri("/w/Root.pas"),
        complete: true,
        mapped: true,
        positions: vec![at(3, 1)],
    }];
    let places = virtual_query_positions(&main, at(0, 0), &roots, true);
    assert!(!places.is_empty());
}

#[test]
fn include_files_ask_for_their_owners() {
    let included = uri("/w/Shared.inc");
    let mut run = NavigationRun::new(&included);
    let graph = IncludeGraph::new();
    assert!(matches!(run.begin(Some(&project()), true, &graph), NavigationAction::FindOwners));
    match run.owners_found(false, &graph) {
        NavigationAction::Fail(reason) => assert_eq!(
            reason,
            format!(
                "include owner discovery was incomplete for {included}; refusing contextual \
                 navigation"
            )
        ),
        _ => panic!("what includes it has to be known"),
    }
}

#[test]
fn an_owner_decides_in_which_context_a_source_is_loaded() {
    let mut store = ContextStore::new();
    let own = key(Some("/w/A.dproj"));
    store.put_state(&own, state_of(project()));
    let source = uri("/w/Unit1.pas");
    let selections: Selections = KeyMap::new();
    let nothing = Surroundings { selected: None, directory: Some(path("/w")) };
    assert_eq!(
        store.choose_effective_context(&source, &own, &selections, &nothing, false),
        EffectiveChoice::Given
    );
    let selected = Surroundings {
        selected: Some(Selected { scope: path("/w"), project: path("/w/B.dproj") }),
        directory: Some(path("/w")),
    };
    assert_eq!(
        store.choose_effective_context(&source, &own, &selections, &selected, false),
        EffectiveChoice::Find
    );
    assert_eq!(
        store.choose_effective_context("untitled:1", &own, &selections, &selected, false),
        EffectiveChoice::Given
    );
    let mut clock: u64 = 0;
    store.remember_document_owner_with_origin(
        &OpenDocuments::new(),
        &source,
        &own,
        OwnerOrigin::Automatic,
        &mut clock,
    );
    assert!(store.hold_owner("file:///w/Other.pas").is_none());
    assert!(store.hold_owner(&source).is_some_and(|held| held.same_as(&own)));
    store.contexts.remove(&own);
    assert!(store.hold_owner(&source).is_some());
    assert!(store.contexts.contains_key(&own));
    let fresh = store.choose_effective_context(&source, &own, &selections, &nothing, true);
    let stale = store.choose_effective_context(&source, &own, &selections, &nothing, false);
    assert!(matches!(
        (fresh, stale),
        (EffectiveChoice::Owner, EffectiveChoice::Rediscover)
            | (EffectiveChoice::Given, EffectiveChoice::Given)
    ));
}

#[test]
fn what_a_resolution_came_upon_is_kept() {
    let mut store = ContextStore::new();
    let own = key(Some("/w/A.dproj"));
    store.put_state(&own, state_of(project()));
    let stamp = PathStamp { bytes: 1, modified: None, is_dir: false, is_symlink: false };
    let mut context = project();
    context.warnings = strings(&["seen"]);
    let resolved = Discovered {
        context: Arc::new(context),
        metadata_files: vec![path("/w/A.dproj")],
        metadata_observations: Vec::new(),
        reads: Vec::new(),
    };
    let seen = vec![WatchedPath { path: path("/w/A.dproj"), read: Some(stamp) }];
    store.merge_resolution_report(&own, resolved, &seen);
    let state = store.contexts.get(&own).expect("known");
    assert_eq!(state.context.warnings, strings(&["seen"]));
    assert_eq!(state.watched_paths.get(&path("/w/A.dproj")), Some(&Some(stamp)));
    assert_eq!(
        project_directory(&state.context, &own).map(|p| p.text()).as_deref(),
        Some("/w")
    );
}

#[test]
fn what_a_background_analysis_learned_is_taken_over() {
    let mut store = ContextStore::new();
    let own = key(Some("/w/A.dproj"));
    let mut learned = ContextStore::new();
    learned.put_state(&own, state_of(project()));
    learned.put_state(&key(None), state_of(ProjectContext::none()));
    learned.document_contexts.insert(uri("/w/Main.pas"), own.duplicate());
    let mut clock: u64 = 3;
    store.apply_navigation_state(
        NavigationState { store: learned, use_clock: 9 },
        &KeyMap::new(),
        &StrSet::new(),
        &OpenDocuments::new(),
        &mut clock,
    );
    assert_eq!(clock, 9);
    assert!(store.contexts.contains_key(&own));
    assert!(!store.contexts.contains_key(&key(None)));
}

#[test]
fn diagnostics_are_due_again_after_a_while() {
    let mut documents = OpenDocuments::new();
    open(&mut documents, "file:///w/A.pas", "unit A;");
    let mut schedule = DiagnosticSchedule::new();
    schedule.retry_diagnostics(&documents, "file:///w/A.pas".to_string(), 100);
    assert_eq!(schedule.next_diagnostic_timeout(100), Some(DIAGNOSTIC_RETRY));
    schedule.reschedule_diagnostics(&documents, "file:///w/A.pas".to_string(), 110);
    assert_eq!(schedule.next_diagnostic_timeout(110), Some(DIAGNOSTIC_RETRY - 10));
    schedule.forget("file:///w/A.pas");
    schedule.reschedule_diagnostics(&documents, "file:///w/A.pas".to_string(), 110);
    assert_eq!(schedule.next_diagnostic_timeout(110), Some(DIAGNOSTIC_RETRY));
    schedule.forget("file:///w/A.pas");
    schedule.retry_diagnostics(&documents, "file:///w/Closed.pas".to_string(), 100);
    assert_eq!(schedule.next_diagnostic_timeout(100), None);
}

#[test]
fn a_change_concerns_the_documents_that_rest_on_it() {
    let mut documents = OpenDocuments::new();
    let (main, other) = (uri("/w/Main.pas"), uri("/w/Other.pas"));
    open(&mut documents, &main, "unit Main;");
    open(&mut documents, &other, "unit Other;");
    let mut dependencies = DiagnosticDependencies::new();
    let mut record = SourceRecord::blank(&uri("/w/Shared.pas"));
    record.path = Some(path("/w/Shared.pas"));
    dependencies.record_diagnostic_dependencies(&documents, &main, vec![record]);
    assert_eq!(
        dependencies.diagnostic_dependents_for_change(&documents, &uri("/w/Shared.pas"), false),
        vec![main.clone()]
    );
    assert!(dependencies
        .diagnostic_dependents_for_change(&documents, &uri("/w/Else.pas"), false)
        .is_empty());
    let mut budget = ReconciliationBudget::new(Arc::new(AtomicBool::new(false)));
    let told = dependencies
        .visit_diagnostic_dependents_for_change(
            &documents,
            &uri("/w/Shared.pas"),
            false,
            &mut budget,
        )
        .expect("there is room");
    assert_eq!(told, vec![main]);
    assert_eq!(budget.used.diagnostic_record_checks, 1);
    let mut full = ReconciliationBudget::new(Arc::new(AtomicBool::new(false)));
    full.charge_dependency_edges(MAX_NOTIFICATION_RECONCILIATION_DEPENDENCY_EDGES)
        .expect("the account is unused");
    let refused = dependencies.visit_diagnostic_dependents_for_change(
        &documents,
        &uri("/w/Shared.pas"),
        false,
        &mut full,
    );
    assert_eq!(refused, Err(Interrupt::BudgetExceeded));
    assert!(full.is_exhausted());
    assert_eq!(full.used.diagnostic_record_checks, 0);
}

#[test]
fn renames_that_were_staged_can_be_taken_back() {
    let mut renames = PendingRenames::new();
    renames.cancel_staged_unit_file_rename("file:///w/Old.pas", "file:///w/New.pas");
    assert!(renames.matching("file:///w/Old.pas", "file:///w/New.pas").is_none());
    assert_eq!(renames.bytes, 0);
}

#[test]
fn reports_of_a_root_are_cleared_later_when_staged() {
    let mut publications = Publications::new();
    let mut documents = OpenDocuments::new();
    let root = "file:///w/A.pas";
    open(&mut documents, root, "unit A;");
    let report = pascal_lsp::lint::single_diagnostic_publication(
        root,
        Some(1),
        vec![pascal_lsp::lint::server_diagnostic("said", Severity::Error)],
    );
    publications.replace_diagnostic_publications(&documents, root, report);
    let claimed = publications.open_diagnostic_roots_with_semantic_claims(&documents);
    assert_eq!(claimed.len(), 0);
    publications.stage_clear_diagnostic_publications(root);
    assert_eq!(publications.pending_diagnostic_publication_count(), 1);
    let (pending, publication, _) =
        publications.peek_pending_diagnostic_publication(&documents).expect("pending");
    assert_eq!(pending, root);
    assert!(publication.is_some_and(|publication| publication.diagnostics.is_empty()));
}

#[test]
fn configuration_that_was_read_is_recorded() {
    let mut records = AnalysisRecords::new(true);
    records.record_configuration_read(&path("/w/lint.toml"), None, Some(4));
    records.record_missing_provider_candidates(
        &path("/w"),
        &strings(&["Helper.pas"]),
        &vec![None],
    );
    let map = records.records.as_ref().expect("recording");
    let read = map.get(&uri("/w/lint.toml")).expect("recorded");
    assert_eq!(read.content_hash, Some(4));
    let missing = map.get(&uri("/w/Helper.pas")).expect("recorded");
    assert!(missing.missing_provider_candidate);
    assert_eq!(
        uninspected_configuration(&path("/w/lint.toml"), "denied"),
        "could not inspect configuration candidate /w/lint.toml: denied"
    );
}

#[test]
fn accounts_hold_what_a_batch_is_charged() {
    let flag = Arc::new(AtomicBool::new(false));
    let mut budget = ReconciliationBudget::new(Arc::clone(&flag));
    budget.charge_project_path_key_bytes(10).expect("there is room");
    budget.charge_diagnostic_target("file:///w/A.pas").expect("there is room");
    assert_eq!(budget.used.project_path_key_bytes, 10);
    assert_eq!(
        (budget.used.unique_diagnostic_targets, budget.used.diagnostic_uri_bytes),
        (1, 15)
    );
    budget.record_rename_endpoint("file:///w/B.pas".to_string());
    assert!(budget.rename_endpoints.contains("file:///w/B.pas"));
    assert!(!budget.is_cancelled());
    let too_long = "x".repeat(300 * 1024);
    assert_eq!(budget.charge_diagnostic_target(&too_long), Err(Interrupt::BudgetExceeded));
    assert!(budget.is_exhausted());
}

#[test]
fn the_sources_that_include_a_file_are_found_on_the_account() {
    let own = key(None);
    let mut graph = IncludeGraph::new();
    let included = uri("/w/Shared.inc");
    for name in ["/w/A.pas", "/w/B.pas"] {
        let expansion = Expansion {
            text: String::new(),
            dependencies: vec![pascal_lsp::includes::IncludeDependency {
                uri: included.clone(),
                text: String::new(),
                observations: Vec::new(),
                path_entry: None,
            }],
            complete: true,
        };
        graph
            .store_expansion(&uri(name), &own, String::new(), expansion, &mut Work::free())
            .expect("nothing stops this");
    }
    let budget = ReconciliationBudget::new(Arc::new(AtomicBool::new(false)));
    let mut work = Work::budgeted(budget);
    let mut found = graph.affected_roots(&included, &mut work).expect("there is room");
    found.sort();
    assert_eq!(found, vec![uri("/w/A.pas"), uri("/w/B.pas")]);
    let used = work.budget.as_ref().map(|budget| budget.used.filesystem_path_visits);
    assert_eq!(used, Some(5));
}

#[test]
fn making_room_is_charged_for_what_is_looked_at() {
    let mut ws = workspace();
    let own = key(None);
    ws.sources.contexts.put_state(&own, state_of(ProjectContext::none()));
    for name in ["/w/A.pas", "/w/B.pas"] {
        ws.sources
            .finish_indexing(&ws.documents, &uri(name), 1, &own, true, false, None, &mut Work::free())
            .expect("nothing stops this");
    }
    let limits =
        ResourceLimits { max_files: 2, max_file_bytes: 100, max_total_bytes: 100 };
    let budget = ReconciliationBudget::new(Arc::new(AtomicBool::new(false)));
    let mut work = Work::budgeted(budget);
    let admitted = ws
        .sources
        .make_room_for(
            &uri("/w/C.pas"),
            1,
            &StrSet::new(),
            0,
            &ws.documents,
            &limits,
            &mut ws.log,
            &mut work,
        )
        .expect("there is room");
    assert!(admitted);
    assert!(!ws.sources.is_indexed(&uri("/w/A.pas")));
    assert!(ws.sources.is_indexed(&uri("/w/B.pas")));
    // Two sources, four visits to sort them, one victim and its removal, and then the one
    // document that is left with its context.
    let used = work.budget.as_ref().map(|budget| budget.used.filesystem_path_visits);
    assert_eq!(used, Some(2 + 4 + 1 + 1 + 2));
}

#[test]
fn install_context_keeps_case_distinct_linux_metadata_paths() {
    let mut ws = workspace();
    let (upper, lower) = (path("/w/Debug.optset"), path("/w/debug.optset"));
    let own = key(None);
    let discovered = Discovered {
        context: Arc::new(ProjectContext::none()),
        metadata_files: vec![upper.copy(), lower.copy()],
        metadata_observations: Vec::new(),
        reads: Vec::new(),
    };
    let mut work = Work::free();
    let source = path("/w/src/Main.pas");
    let directories = discovery_directories(&ws.roots, &source, &mut work).expect("few");
    let plan = plan_context(
        &ws.roots,
        &source,
        &discovered,
        &KeyMap::new(),
        &directories,
        None,
        &mut work,
    )
    .expect("nothing stops this");
    let looked = plan
        .missing
        .iter()
        .map(|_| Membership { listed: true, text: String::new() })
        .collect();
    let now = plan.watched.iter().map(|_| None).collect();
    ws.sources
        .contexts
        .install_context(&own, discovered, plan, &looked, &now, &mut work)
        .expect("install context");
    let installed = ws.sources.contexts.contexts.get(&own).expect("installed context");
    assert!(installed.watched_paths.contains_key(&upper));
    assert!(installed.watched_paths.contains_key(&lower));
}

#[test]
fn dependency_freshness_accepts_hash_only_open_overlay_records() {
    let mut documents = OpenDocuments::new();
    let provider = uri("/w/Provider.pas");
    documents.put(
        provider.clone(),
        OpenDocument {
            text: Some("unit Provider; interface implementation end.\n".to_string()),
            version: 7,
            rejection: None,
            identity_generation: 1,
        },
    );
    let mut record = SourceRecord::blank(&provider);
    record.version = Some(7);
    record.open = true;
    record.content_hash = Some(99);
    let facts = |bytes_hash: u64| RecordFacts {
        scope_paths: Vec::new(),
        auto_imports: Vec::new(),
        overlay_irrelevant: false,
        overlay: OverlayFacts { bytes_hash, text_hash: 0, parsed_changed: false },
    };
    let mut generations = Generations::new();
    let (source, configuration) = (generations.source, generations.configuration);
    generations.bump_source_generation();
    generations.mark_source(&provider, &mut Work::free()).expect("nothing stops this");
    let roots: Vec<WorkspaceRoot> = Vec::new();
    let disk_stamps = StrMap::new();
    let current = Current {
        generations: &generations,
        documents: &documents,
        roots: &roots,
        disk_stamps: &disk_stamps,
    };
    let records = vec![record];
    assert!(current
        .dependency_scoped_result_is_fresh(
            generations.source,
            generations.configuration,
            &records,
            &vec![facts(99)]
        )
        .is_ok());
    assert!(current
        .dependency_scoped_result_is_fresh(source, configuration, &records, &vec![facts(98)])
        .is_err());
}

#[test]
fn mapped_read_authorization_is_context_scoped_and_component_safe() {
    let roots: Vec<WorkspaceRoot> = Vec::new();
    let own = key(None);
    let readable = |source: &str, root: &str, real: &str| {
        let (source, root) = (path(source), path(root));
        let safe = safe_path_under_root(Some(&path(real)), Some(&root), false);
        let natives = vec![NativeRoot { path: root, safe }];
        mapped_path_is_readable(&roots, &source, &natives, &own)
    };
    let (a, b) = ("/t/sdk-a/source/Provider.pas", "/t/sdk-b/source/Provider.pas");
    assert!(readable(a, "/t/sdk-a", a));
    assert!(readable(b, "/t/sdk-b", b));
    assert!(!readable(b, "/t/sdk-a", b));
    let sibling = "/t/sdk-a-extra/Provider.pas";
    assert!(!readable(sibling, "/t/sdk-a", sibling));
    assert!(!readable("/t/sdk-a/escape/Provider.pas", "/t/sdk-a", "/t/outside/Provider.pas"));
    let other_case = "/t/SDK-A/source/Provider.pas";
    assert!(!readable(other_case, "/t/sdk-a", other_case));
}

#[test]
fn mapped_root_resolution_prefers_exact_case_before_unique_fallback() {
    let entries = strings(&["sdk", "SDK"]);
    let mut walk = CasePath::new(&path("/sdk"));
    assert!(matches!(walk.advance(Some(&entries)), CaseStep::Found));
    assert_eq!(walk.current.text(), "/sdk");
    let mut walk = CasePath::new(&path("/sDk"));
    assert!(matches!(walk.advance(Some(&entries)), CaseStep::Missing));
}

#[test]
fn an_invalid_override_blocks_navigation_and_formatting() {
    let mut context = project();
    context.override_error = Some("/home/user.toml is malformed".to_string());
    let main = uri("/w/Main.pas");
    let mut run = NavigationRun::new(&main);
    assert!(matches!(
        run.begin(Some(&context), true, &IncludeGraph::new()),
        NavigationAction::Fail(_)
    ));
    let roots: Vec<WorkspaceRoot> = Vec::new();
    let facts = ClosedFacts {
        roots: &roots,
        read: ReadFacts { policy_entry: None, legacy_allowed: true, path_allowed: true },
        mapped: true,
        legacy_route: false,
    };
    let mut run = FormatRun::new(&main);
    assert!(matches!(run.begin(), FormatAction::FindContext));
    let documents = OpenDocuments::new();
    match run.context(Some(&context), &facts, &documents, &ResourceLimits::default()) {
        FormatAction::Fail(reason) => assert!(reason.contains("/home/user.toml"), "{reason}"),
        _ => panic!("nothing is formatted with options that cannot be read"),
    }
}

#[test]
fn a_lookup_that_is_given_up_names_no_candidates() {
    let (lookup, some) = PackageLookup::begin(257, "Helper");
    assert!(!some && !lookup.complete && lookup.candidates.is_empty());
    assert_eq!(
        lookup.warnings,
        strings(&["named package lookup limit (256) reached while resolving Helper"])
    );
    let (mut lookup, _) = PackageLookup::begin(1, "Helper");
    lookup.candidates.push(path("/w/Helper.pas"));
    assert!(matches!(
        lookup.consider_package("P", &vec![path("/w/P.dpk")], false),
        PackageStep::Stop
    ));
    assert!(!lookup.complete && lookup.candidates.is_empty());
}

#[test]
fn uniform_line_ends_stay() {
    let once = normalize_line_endings_with_offsets("a\r\nb\rc\n");
    assert_eq!(once.text, "a\nb\nc\n");
    assert_eq!(once.raw_offsets, vec![0, 1, 3, 4, 5, 6, 7]);
    let twice = normalize_line_endings_with_offsets(&once.text);
    assert_eq!(twice.text, once.text);
}
