use std::sync::atomic::AtomicBool;
use std::sync::Arc;

use pascal_lsp::access::{
    is_under_sources, matching_entry, native_mapping_root, paths_on_the_way,
    safe_path_under_root, workspace_accepts, CasePath, CaseStep,
};
use pascal_lsp::budget::{sort_work_estimate, ReconciliationBudget, Work};
use pascal_lsp::caches::Cache;
use pascal_lsp::cancel::Interrupt;
use pascal_lsp::conditional::{ConditionalContext, ConditionalFact};
use pascal_lsp::contexts::{
    owner_origin_for_context_key, KnownDocumentOwner, LegacyRouteProof, OwnerOrigin,
};
use pascal_lsp::deleted::{DeletedFiles, MAX_DELETED_OVERRIDES};
use pascal_lsp::documents::{OpenDocument, OpenDocuments};
use pascal_lsp::excludes::{is_lint_excluded, WorkspaceRoot};
use pascal_lsp::expansion_records::{
    include_expansion_limits, included_sources, retained_expansion, ExpansionLimits,
};
use pascal_lsp::external_units::{
    external_root, inspect_root, scan_external_units, without_own_units, EntryKind,
    ExternalListing, ExternalScan, Measured, RootKind, WalkEntry, WalkStep,
};
use pascal_lsp::generations::Generations;
use pascal_lsp::include_owners::{FolderListing, OwnerSearch, MAX_INCLUDE_OWNER_DISCOVERY};
use pascal_lsp::includes::{Expansion, IncludeDependency, IncludeGraph, IncludeObservation};
use pascal_lsp::indexing::Expanded;
use pascal_lsp::keymap::{Identity, KeyMap};
use pascal_lsp::limits::ResourceLimits;
use pascal_lsp::lint::{
    ensure_safe_tree_depth, server_diagnostic, symbols_with, DiagnosticAction, DiagnosticRun,
};
use pascal_lsp::loading::{
    bind_imports, list_dependencies, refuse_rejected, text_occurs, ImportBinding,
    ResolvedDependency,
};
use pascal_lsp::names::{
    aliased_unit_name, extension_is, is_analyzable_source_path, is_configuration_file,
    is_default_excluded_component, is_immutable_override_file, is_live_configuration_file,
    is_pascal_path, package_unit_name_matches, unit_filename_candidates, unit_name_matches,
};
use pascal_lsp::navigation::{
    map_navigation_locations, Frontier, Location, NavigationAction, NavigationRun,
};
use pascal_lsp::package_lookup::{PackageLookup, PackageStep, UnitQuery};
use pascal_lsp::package_scan::{Listed, PackageScan, ScanEntry, ScanKind};
use pascal_lsp::packages::{package_excludes, PackageCatalogueKey, PackageCatalogues};
use pascal_lsp::paths::{
    absolute_path, native_relative_path, path_ci_lookup_key, path_starts_with_ci,
    path_starts_with_native, path_to_glob, paths_equal_ci, relative_path, FilePath,
};
use pascal_lsp::project::{
    ContextKey, ContextState, DiskStamp, EffectiveOverrides, PathEntry, PathStamp,
    ProjectContext, Provenance,
};
use pascal_lsp::publications::Severity;
use pascal_lsp::records::{source_record_matches_change, AnalysisRecords, DiskReading, SourceRecord};
use pascal_lsp::renames::{
    expected_renamed_document_text, unit_rename_name, DocumentEdit, EditPlan, PlanProblem,
    PlannedEdit, UnitRenameProblem,
};
use pascal_lsp::edits::ChangeRange;
use pascal_lsp::selection::searchable;
use pascal_lsp::settings::WorkspaceOptions;
use pascal_lsp::sorting::sort;
use pascal_lsp::sources::Sources;
use pascal_lsp::staleness::{Current, OverlayFacts, RecordFacts, Staleness};
use pascal_lsp::strings::{byte_length, eq_ignore_case, to_decimal, to_lower, trim};
use pascal_lsp::strmap::{StrMap, StrSet};
use pascal_lsp::text::{
    normalize_line_endings, normalize_line_endings_with_offsets, DiagnosticLineIndex, Position,
    Range,
};
use pascal_lsp::units::{
    judge_candidates, nested_directory, UnitCandidate, UnitGroup, UnitSearch, UnitStep, Verdict,
};
use pascal_lsp::uris::{canonical_file_uri, file_path_of, uri_of_path};
use pascal_lsp::warnings::WarningLog;
use pascal_lsp::workspace::Workspace;

fn path(text: &str) -> FilePath {
    FilePath::parse(text)
}

fn uri(text: &str) -> String {
    uri_of_path(&path(text)).expect("a file URI")
}

fn strings(list: &[&str]) -> Vec<String> {
    list.iter().map(|s| s.to_string()).collect()
}

fn shown(paths: &[FilePath]) -> Vec<String> {
    paths.iter().map(|path| path.text()).collect()
}

fn key(project: Option<&str>) -> ContextKey {
    ContextKey {
        project_file: project.map(path),
        workspace_root: Some(path("/workspace")),
        project_scope: Some(path("/workspace")),
        selection_scope: None,
        selection_project: None,
        config: None,
        platform: None,
        conditional_context: ConditionalContext::new(),
        overrides: EffectiveOverrides::none(),
    }
}

fn state() -> Arc<ContextState> {
    Arc::new(ContextState {
        context: Arc::new(ProjectContext::none()),
        metadata_files: Vec::new(),
        metadata_observations: Vec::new(),
        watched_paths: KeyMap::new(),
        memberships: KeyMap::new(),
        read_observations: Vec::new(),
    })
}

fn owner_of(source: &str, project: &str) -> KnownDocumentOwner {
    KnownDocumentOwner {
        key: key(Some(project)),
        state: state(),
        origin: OwnerOrigin::Inherited,
        needs_revalidation: false,
        follow_current_project_file: false,
        legacy_route: Some(LegacyRouteProof { source: path(source), context: key(Some(project)) }),
    }
}

#[test]
fn legacy_route_proof_requires_the_exact_source_and_owner_context() {
    let mut owner = owner_of("/external/Helper.pas", "/workspace/A.dproj");
    assert!(owner.has_legacy_route(&path("/external/Helper.pas")));
    assert!(!owner.has_legacy_route(&path("/external/Other.pas")));

    owner.key.project_file = Some(path("/workspace/B.dproj"));
    assert!(!owner.has_legacy_route(&path("/external/Helper.pas")));
}

#[test]
fn legacy_route_proof_uses_native_case_sensitive_source_comparison() {
    let owner = owner_of("/external/Helper.pas", "/workspace/App.dproj");
    assert!(!owner.has_legacy_route(&path("/external/helper.pas")));
}

#[test]
fn diagnostic_line_index_reuses_utf16_prefixes_for_unicode_and_bare_cr() {
    let source = normalize_line_endings("😀abc\rdef\r\nghi");
    let index = DiagnosticLineIndex::new(&source);

    assert_eq!(source, "😀abc\ndef\r\nghi");
    assert_eq!(index.position(1, 5).expect("after emoji").character, 2);
    assert_eq!(index.position(2, 4).expect("second line end").character, 3);
    assert_eq!(index.position(3, 4).expect("third line end").character, 3);
    assert_eq!(index.utf16_prefix.len(), source.len() + 1);
}

#[test]
fn diagnostic_line_index_builds_a_single_long_line_prefix_table() {
    let source = "x".repeat(46 * 1024);
    let index = DiagnosticLineIndex::new(&source);

    assert_eq!(index.lines.len(), 1);
    assert_eq!(index.utf16_prefix.len(), source.len() + 1);
    assert_eq!(
        index.position(1, source.len() + 1).expect("long line end").character as usize,
        source.len()
    );
}

#[test]
fn lines_and_columns_are_found_in_bytes() {
    let index = DiagnosticLineIndex::new("ab\ncd\n");
    assert_eq!(index.byte_offset(1, 1), Some(0));
    assert_eq!(index.byte_offset(2, 2), Some(4));
    assert_eq!(index.byte_offset(9, 1), None);
    assert_eq!(index.byte_range(1, 2, 2, 1), Some((1, 3)));
    let range = index.range(2, 1, 2, 3);
    assert_eq!((range.start.line, range.start.character), (1, 0));
    assert_eq!((range.end.line, range.end.character), (1, 2));
    let normalized = normalize_line_endings_with_offsets("a\rb");
    assert_eq!(normalized.text, "a\nb");
    assert_eq!(normalized.raw_offsets, vec![0, 1, 2, 3]);
}

#[test]
fn uris_name_files_and_files_have_uris() {
    assert_eq!(file_path_of("file:///w/My%20Unit.pas").map(|p| p.text()), Some("/w/My Unit.pas".to_string()));
    assert_eq!(file_path_of("file:///w/../x/./A.pas").map(|p| p.text()), Some("/x/A.pas".to_string()));
    assert!(file_path_of("untitled:Unit1").is_none());
    assert!(file_path_of("no uri").is_none());
    assert_eq!(uri("/w/My Unit.pas"), "file:///w/My%20Unit.pas");
    assert!(uri_of_path(&path("relative.pas")).is_none());
    assert_eq!(canonical_file_uri("file:///w/x/../A%2Epas"), "file:///w/A.pas");
    assert_eq!(canonical_file_uri("untitled:Unit1"), "untitled:Unit1");
    let once = canonical_file_uri("file:///w/%C3%A4.pas");
    assert_eq!(canonical_file_uri(&once), once);
}

#[test]
fn paths_are_taken_apart_and_put_together() {
    let p = path("/a//b/./c.PAS");
    assert_eq!(p.text(), "/a/b/c.PAS");
    assert_eq!(p.file_name().map(|s| s.as_str()), Some("c.PAS"));
    assert_eq!(p.extension().as_deref(), Some("PAS"));
    assert_eq!(p.file_stem().as_deref(), Some("c"));
    assert_eq!(p.parent().map(|p| p.text()).as_deref(), Some("/a/b"));
    assert_eq!(path("/a").join(&path("/b")).text(), "/b");
    assert_eq!(path("/a").join(&path("b/c")).text(), "/a/b/c");
    assert_eq!(absolute_path(&path("/w/x"), &path("../y/./z")).text(), "/w/y/z");
    assert_eq!(absolute_path(&path("/w"), &path("/../a")).text(), "/a");
    assert_eq!(path_to_glob(&path("/a/b")), "/a/b");
    assert_eq!(path_ci_lookup_key(&path("/A/b")), "/a/b");
    assert!(paths_equal_ci(&path("/A/b.pas"), &path("/a/B.PAS")));
    assert!(!paths_equal_ci(&path("/a"), &path("/a/b")));
    assert!(path_starts_with_ci(&path("/W/src/a.pas"), &path("/w/SRC")));
    assert!(!path_starts_with_native(&path("/W/src/a.pas"), &path("/w/SRC")));
    assert_eq!(
        native_relative_path(&path("/w/src/a.pas"), &path("/w")).map(|p| p.text()).as_deref(),
        Some("src/a.pas")
    );
    assert!(native_relative_path(&path("/v/a.pas"), &path("/w")).is_none());
    assert_eq!(
        relative_path(&path("/w/src"), &path("/w/lib/a.pas")).map(|p| p.text()).as_deref(),
        Some("../lib/a.pas")
    );
}

#[test]
fn names_tell_what_a_file_is() {
    assert!(is_pascal_path(&path("/w/A.PAS")));
    assert!(is_pascal_path(&path("/w/A.dpr")));
    assert!(!is_pascal_path(&path("/w/A.txt")));
    assert!(is_analyzable_source_path(&path("/w/A.pas")));
    assert!(extension_is(&path("/w/a.InC"), "inc"));
    assert!(is_live_configuration_file(&path("/w/.LINT4D.toml")));
    assert!(is_immutable_override_file(&path("/w/.delphi-tools.local.toml")));
    assert!(is_configuration_file(&path("/w/.fmt4d.toml")));
    assert!(!is_configuration_file(&path("/w/other.toml")));
    assert!(is_default_excluded_component("node_modules"));
    assert!(!is_default_excluded_component("src"));
}

#[test]
fn units_are_found_under_several_names() {
    let namespaces = strings(&["System"]);
    let names = unit_filename_candidates("SysUtils", &namespaces);
    assert!(names.contains(&"SysUtils.pas".to_string()));
    assert!(names.contains(&"System.SysUtils.pas".to_string()));
    let aliases = vec![("Wine".to_string(), "Windows".to_string())];
    assert_eq!(aliased_unit_name(&aliases, "wine"), "windows");
    assert_eq!(aliased_unit_name(&aliases, "Other"), "other");
    assert!(unit_name_matches("system.sysutils", "SysUtils", "SysUtils", &namespaces));
    assert!(!unit_name_matches("Classes", "SysUtils", "SysUtils", &namespaces));
    assert!(package_unit_name_matches("SysUtils", "SysUtils", "SysUtils", &namespaces));
    assert_eq!(
        nested_directory(&path("/lib"), "Vcl.Graphics.Tools").map(|p| p.text()).as_deref(),
        Some("/lib/Vcl/Graphics")
    );
}

#[test]
fn text_is_measured_in_bytes() {
    assert_eq!(byte_length("aä😀"), 7);
    assert_eq!(to_decimal(0), "0");
    assert_eq!(to_decimal(40_960), "40960");
    assert_eq!(to_lower("AbÄ"), "abÄ");
    assert!(eq_ignore_case("Unit", "uNIT"));
    assert_eq!(trim(" \t a b\n"), "a b");
    assert_eq!(sort_work_estimate(0), 0);
    assert_eq!(sort_work_estimate(8), 8 * 4);
    assert!(text_occurs("bc", "abcd"));
    assert!(!text_occurs("cb", "abcd"));
}

#[test]
fn patterns_leave_files_out_with_everything_below() {
    let root = WorkspaceRoot::new(
        &path("/"),
        &path("/w"),
        &Vec::new(),
        &strings(&["build/**", "[", "*.tmp.pas"]),
    );
    let roots = vec![root];
    assert!(workspace_accepts(&roots, &path("/w/src/A.pas")));
    assert!(!workspace_accepts(&roots, &path("/w/build/A.pas")));
    assert!(!workspace_accepts(&roots, &path("/w/A.tmp.pas")));
    assert!(!workspace_accepts(&roots, &path("/v/A.pas")));
    assert!(is_under_sources(&roots, &path("/w/src/A.pas")));
    let widened = vec![WorkspaceRoot::new(
        &path("/"),
        &path("/w"),
        &strings(&["src", "/lib"]),
        &Vec::new(),
    )];
    assert!(workspace_accepts(&widened, &path("/w/src/A.pas")));
    assert!(workspace_accepts(&widened, &path("/lib/A.pas")));
    assert!(workspace_accepts(&widened, &path("/w/other/A.pas")));
    assert!(!workspace_accepts(&widened, &path("/library/A.pas")));
    assert!(is_lint_excluded(
        &path("/w/gen/A.pas"),
        Some(&path("/w/.lint4d.toml")),
        &strings(&["gen/*"])
    ));
    assert!(!is_lint_excluded(
        &path("/w/src/A.pas"),
        Some(&path("/w/.lint4d.toml")),
        &strings(&["gen/*"])
    ));
}

fn listing(configured: &str, steps: Vec<WalkStep>) -> ExternalListing {
    ExternalListing { configured: configured.to_string(), kind: RootKind::Directory, steps }
}

fn unit_file(file: &str, bytes: u64) -> WalkStep {
    WalkStep {
        entry: WalkEntry::Entry { path: path(file), top: false, kind: EntryKind::File },
        measured: Measured::Bytes(bytes),
    }
}

#[test]
fn external_units_are_named_after_their_files() {
    let limits = ResourceLimits::default();
    let units = scan_external_units(
        &path("/"),
        &path("/w"),
        &vec![listing("..\\lib", vec![unit_file("/lib/MyÜnit.pas", 4), unit_file("/lib/x.txt", 4)])],
        &limits,
    )
    .expect("scanned");
    assert_eq!(units.list(), vec!["myünit".to_string()]);
    assert_eq!(external_root(&path("/"), &path("/w"), "..\\lib").text(), "/lib");
    let small = ResourceLimits { max_files: 10, max_file_bytes: 3, max_total_bytes: 100 };
    assert!(scan_external_units(
        &path("/"),
        &path("/w"),
        &vec![listing("/lib", vec![unit_file("/lib/A.pas", 4)])],
        &small,
    )
    .is_err());
    let mut own = ProjectContext::none();
    own.explicit_units.push(("A".to_string(), path("/w/A.pas")));
    let mut found = StrSet::new();
    found.insert("a".to_string());
    found.insert("b".to_string());
    assert_eq!(without_own_units(found, &own, &path("/w/Main.pas")).list(), strings(&["b"]));
}

#[test]
fn external_unit_scanner_rejects_symlinked_roots() {
    let error = inspect_root(&path("/lib"), &RootKind::Link).expect_err("a link");
    assert!(error.contains("/lib"), "{error}");
    assert!(error.contains("symlink"), "{error}");
    assert!(inspect_root(&path("/lib"), &RootKind::Other).is_err());
    assert!(inspect_root(&path("/lib"), &RootKind::Unseen("gone".to_string())).is_err());
    assert!(inspect_root(&path("/lib"), &RootKind::Directory).is_ok());
    let scan = ExternalScan::new();
    assert_eq!((scan.visited, scan.files, scan.bytes), (0, 0, 0));
}

#[test]
fn what_a_package_root_hides_keeps_a_lookup_incomplete() {
    let root = path("/missing-sdk");
    let mut scan = PackageScan::new(&root, None, false, StrSet::new(), &mut Work::free())
        .expect("nothing stops this");
    assert!(scan.next_directory(&mut Work::free()).expect("nothing stops this").is_some());
    scan.unreadable();
    let mut catalogues = PackageCatalogues::new();
    let epoch = catalogues.epoch;
    let place = PackageCatalogueKey { context: key(None), root: root.copy() };
    catalogues.keep(place, scan.finish(epoch), 1);
    let (descriptors, complete) = catalogues
        .package_descriptors(&key(None), &vec![root], "Shared", &mut Work::free())
        .expect("nothing stops this");
    assert!(descriptors.is_empty());
    assert!(!complete);
    let (mut lookup, goes_on) = PackageLookup::begin(1, "SharedUnit");
    assert!(goes_on);
    assert!(matches!(
        lookup.consider_package("Shared", &descriptors, complete),
        PackageStep::Stop
    ));
    assert!(!lookup.complete);
    let mut log = WarningLog::new();
    let search = UnitSearch::new(&uri("/w/Main.pas"), Vec::new());
    assert!(matches!(
        search.packages_found(&ProjectContext::none(), &lookup, &mut log),
        UnitStep::Done(None)
    ));
    assert!(log.messages[0].contains("source catalogue was incomplete"));
    let (lookup, goes_on) = PackageLookup::begin(257, "SharedUnit");
    assert!(!goes_on && !lookup.complete);
}

#[test]
fn missing_configured_native_package_root_keeps_package_lookup_incomplete() {
    let main_uri = uri("/tmp/workspace/Main.pas");
    let (folder, missing) = (path("/tmp/workspace"), path("/tmp/missing-sdk"));
    let context = key(Some("/tmp/workspace/App.dproj"));
    let mut workspace = Workspace::with_override_session(
        &path("/"),
        &vec![folder.copy()],
        WorkspaceOptions::default(),
        &Vec::new(),
    );
    let epoch = workspace.packages.epoch;
    for (root, listing) in [
        (&folder, Some("/tmp/workspace/packages/Shared.dpk")),
        (&missing, None),
    ] {
        let mut requested = StrSet::new();
        requested.insert("shared".to_string());
        let mut scan = PackageScan::new(root, None, false, requested, &mut Work::free())
            .expect("nothing stops this");
        assert!(scan.next_directory(&mut Work::free()).expect("nothing stops this").is_some());
        match listing {
            Some(file) => {
                let excludes = package_excludes(&workspace.roots, &context, root);
                let entry =
                    ScanEntry { path: path(file), kind: Some(ScanKind::File), stamp: None };
                scan.scan_directory(vec![Listed::Entry(entry)], &excludes, &mut Work::free())
                    .expect("nothing stops this");
            }
            None => scan.unreadable(),
        }
        let place = PackageCatalogueKey { context: context.duplicate(), root: root.copy() };
        workspace.packages.keep(place, scan.finish(epoch), 1);
    }
    let roots = vec![folder, missing];
    let (descriptors, complete) = workspace
        .packages
        .package_descriptors(&context, &roots, "Shared", &mut Work::free())
        .expect("nothing stops this");
    assert_eq!(shown(&descriptors), ["/tmp/workspace/packages/Shared.dpk"]);
    assert!(!complete);
    let (mut lookup, _) = PackageLookup::begin(1, "SharedUnit");
    lookup.consider_package("Shared", &descriptors, complete);
    let search = UnitSearch::new(&main_uri, Vec::new());
    let provider = search.packages_found(&ProjectContext::none(), &lookup, &mut workspace.log);
    assert!(matches!(provider, UnitStep::Done(None)));
    // The project model says what it came upon in its report.
    workspace.log.warn_all(&strings(&[
        "Directory scan limit or error while looking for packages below /tmp/missing-sdk",
        "Unit resolution was incomplete for SharedUnit",
    ]));

    let mut run = NavigationRun::new(&main_uri);
    let graph = IncludeGraph::new();
    assert!(matches!(
        run.begin(Some(&ProjectContext::none()), true, &graph),
        NavigationAction::Load
    ));
    assert!(matches!(run.loaded(true), NavigationAction::Resolve));
    assert!(matches!(run.resolved(Vec::new()), NavigationAction::Revalidate));
    let locations = match run.revalidated(false) {
        NavigationAction::Finish(locations) => locations,
        _ => panic!("no source changed meanwhile"),
    };

    assert!(
        locations.is_empty(),
        "missing configured native package root must not permit a unique package result"
    );
    assert!(
        workspace.warnings().iter().any(|warning| {
            let warning = warning.to_ascii_lowercase();
            warning.contains("directory scan") || warning.contains("package catalogue")
        }),
        "missing configured native package root did not produce an incomplete warning: {:?}",
        workspace.warnings()
    );
    assert!(
        workspace.warnings().iter().any(|warning| warning
            .to_ascii_lowercase()
            .contains("unit resolution was incomplete")),
        "missing configured native package root did not make resolution incomplete: {:?}",
        workspace.warnings()
    );
}

#[test]
fn one_declaring_source_is_found_and_two_are_ambiguous() {
    let namespaces: Vec<String> = Vec::new();
    let query = UnitQuery { requested: "Shared", lookup: "Shared", namespaces: &namespaces };
    let candidate = |file: &str| UnitCandidate {
        uri: uri(file),
        legacy_search_path_route: false,
    };
    let two = vec![candidate("/a/Shared.pas"), candidate("/b/Shared.pas")];
    let names = vec![Some("Shared".to_string()), Some("Other".to_string())];
    assert!(matches!(
        judge_candidates(&query, &two, &names),
        Verdict::Found(found) if found == uri("/a/Shared.pas")
    ));
    let names = vec![Some("Shared".to_string()), Some("shared".to_string())];
    assert!(matches!(judge_candidates(&query, &two, &names), Verdict::Ambiguous(_)));
    let names = vec![None, None];
    assert!(matches!(judge_candidates(&query, &two, &names), Verdict::Missing));
    let mut search = UnitSearch::new(
        &uri("/w/Main.pas"),
        vec![UnitGroup { paths: vec![path("/a/Shared.pas")], legacy_search_path: false }],
    );
    let context = ProjectContext::none();
    assert!(matches!(search.step(&context), UnitStep::Try(tried) if tried.len() == 1));
    let mut log = WarningLog::new();
    assert!(matches!(
        search.group_tried(&context, "Shared", Verdict::Ambiguous(strings(&["x", "y"])), &mut log),
        UnitStep::Done(None)
    ));
    assert!(log.messages[0].contains("Shared"));
}

#[test]
fn navigation_goes_no_further_than_it_may() {
    let mut frontier = Frontier::new("file:///w/Main.pas");
    assert!(frontier.goes_on());
    assert_eq!(frontier.take().as_deref(), Some("file:///w/Main.pas"));
    let new = frontier.lead_to(&strings(&["file:///w/A.pas", "file:///w/Main.pas"]));
    assert!(new.contains(&"file:///w/A.pas".to_string()));
    assert_eq!(frontier.take(), None);
    frontier.end_round();
    assert_eq!(frontier.take().as_deref(), Some("file:///w/A.pas"));
    assert!(frontier.limit_warning("file:///w/Main.pas").is_none());
    let place = Position { line: 0, character: 0 };
    let spot = |uri: &str| Location {
        uri: uri.to_string(),
        range: Range { start: place, end: place },
    };
    let found = map_navigation_locations(vec![spot("b"), spot("a"), spot("b")]);
    let order: Vec<String> = found.iter().map(|location| location.uri.clone()).collect();
    assert_eq!(order, strings(&["a", "b"]));
}

#[test]
fn any_source_may_include_a_file() {
    let mut documents = OpenDocuments::new();
    documents.put(
        uri("/w/Open.pas"),
        OpenDocument {
            text: Some("unit Open;".to_string()),
            version: 1,
            rejection: None,
            identity_generation: 1,
        },
    );
    let folders = vec![FolderListing {
        complete: true,
        paths: vec![path("/w/Closed.pas"), path("/w/Shared.inc")],
    }];
    let included = uri("/w/Shared.inc");
    let mut work = Work::budgeted(ReconciliationBudget::new(Arc::new(AtomicBool::new(false))));
    let mut search = OwnerSearch::begin(&documents, &included, &mut work).expect("there is room");
    search.enter_folder(&mut work).expect("there is room");
    search
        .take_folder(&folders[0], &path("/w/Shared.inc"), &mut work)
        .expect("there is room");
    let mut used = work.budget.as_ref().expect("an account").used.filesystem_path_visits;
    // The open document, the folder, its two files and those two again.
    assert_eq!(used, 1 + 1 + 2 + 2);
    assert_eq!(search.finish(), Some(vec![uri("/w/Closed.pas"), uri("/w/Open.pas")]));

    let unread = FolderListing { complete: false, paths: Vec::new() };
    let mut search = OwnerSearch::begin(&documents, &included, &mut work).expect("there is room");
    search.take_folder(&unread, &path("/w/Shared.inc"), &mut work).expect("there is room");
    used += 1;
    assert_eq!(work.budget.as_ref().expect("an account").used.filesystem_path_visits, used);
    assert!(!search.whole);
    assert_eq!(search.finish(), None);
}

#[test]
fn too_many_sources_that_may_include_a_file_are_not_searched() {
    let documents = OpenDocuments::new();
    let included = uri("/w/Shared.inc");
    let mut work = Work::free();
    let many = FolderListing {
        complete: true,
        paths: (0..=MAX_INCLUDE_OWNER_DISCOVERY)
            .map(|index| path(&format!("/w/Unit{index}.pas")))
            .collect(),
    };
    let mut search =
        OwnerSearch::begin(&documents, &included, &mut work).expect("nothing stops this");
    search.take_folder(&many, &path("/w/Shared.inc"), &mut work).expect("nothing stops this");
    assert_eq!(search.finish(), None);
    let raised = AtomicBool::new(true);
    let mut stopped = Work { cancel: Some(&raised), budget: None };
    let mut search =
        OwnerSearch::begin(&documents, &included, &mut stopped).expect("nothing is looked at");
    let error = search.take_folder(&many, &path("/w/Shared.inc"), &mut stopped);
    assert_eq!(error, Err(Interrupt::Cancelled));
    assert_eq!(search.owners.len(), 0);
    assert!(search.whole);
}

fn included(uri: &str, text: &str) -> IncludeDependency {
    IncludeDependency {
        uri: uri.to_string(),
        text: text.to_string(),
        observations: vec![IncludeObservation {
            path: path("/w/Shared.inc"),
            stamp: None,
            present: true,
            overlay_version: None,
        }],
        path_entry: Some(PathEntry {
            path: path("/w/Shared.inc"),
            provenance: Provenance::LegacyNative,
        }),
    }
}

fn expansion() -> Expansion {
    Expansion {
        text: "expanded".to_string(),
        dependencies: vec![included("file:///w/Shared.inc", "const X = 1;")],
        complete: true,
    }
}

#[test]
fn a_change_reaches_every_source_that_includes_the_file() {
    let mut graph = IncludeGraph::new();
    graph
        .store_expansion("file:///w/A.pas", &key(None), "a".to_string(), expansion(), &mut Work::free())
        .expect("nothing stops this");
    graph
        .store_expansion("file:///w/B.pas", &key(None), "b".to_string(), expansion(), &mut Work::free())
        .expect("nothing stops this");
    let mut affected = graph
        .affected_roots("file:///w/Shared.inc", &mut Work::free())
        .expect("nothing stops this");
    affected.sort();
    assert_eq!(affected, strings(&["file:///w/A.pas", "file:///w/B.pas"]));
    graph.remove_expansion("file:///w/A.pas", &mut Work::free()).expect("nothing stops this");
    let affected = graph
        .affected_roots("file:///w/Shared.inc", &mut Work::free())
        .expect("nothing stops this");
    assert_eq!(affected, strings(&["file:///w/B.pas"]));
    let error = retained_expansion(&graph, "file:///w/A.pas").expect_err("forgotten");
    assert_eq!(error, "include expansion was not retained for file:///w/A.pas");
    let record = retained_expansion(&graph, "file:///w/B.pas").expect("kept");
    assert_eq!(included_sources(record, "file:///w/B.pas"), strings(&["file:///w/Shared.inc"]));
    let general = ExpansionLimits { max_sources: 100, max_expanded_bytes: 10, max_depth: 8 };
    let limits = ResourceLimits { max_files: 5, max_file_bytes: 1, max_total_bytes: 20 };
    assert_eq!(
        include_expansion_limits(general, &limits),
        ExpansionLimits { max_sources: 5, max_expanded_bytes: 10, max_depth: 8 }
    );
}

#[test]
fn an_indexed_source_counts_with_its_size() {
    let documents = OpenDocuments::new();
    let mut sources = Sources::new();
    sources.begin_indexing("file:///w/A.pas", true, 8, &mut Work::free()).expect("begun");
    sources
        .finish_indexing(
            &documents,
            "file:///w/A.pas",
            8,
            &key(None),
            true,
            false,
            Some(Expanded { source: "a".to_string(), expansion: expansion() }),
            &mut Work::free(),
        )
        .expect("indexed");
    assert_eq!((sources.parsed_document_count(), sources.bytes), (1, 8));
    assert!(sources.includes.expansions.contains_key("file:///w/A.pas"));
    sources
        .finish_indexing(&documents, "file:///w/A.pas", 5, &key(None), true, false, None, &mut Work::free())
        .expect("indexed again");
    assert_eq!((sources.parsed_document_count(), sources.bytes), (1, 5));
    let mut log = WarningLog::new();
    sources
        .indexing_failed("file:///w/A.pas", "bad", &mut log, &mut Work::free())
        .expect("nothing stops this");
    assert_eq!((sources.parsed_document_count(), sources.bytes), (0, 0));
    assert_eq!(log.messages, strings(&["cannot index file:///w/A.pas: bad"]));
}

#[test]
fn included_sources_are_recorded_as_they_were_included() {
    let mut records = AnalysisRecords::new(true);
    let mut documents = OpenDocuments::new();
    let shared = uri("/w/Shared.inc");
    let path_to_read = records
        .record_included_document(&documents, &shared, "const X = 1;", 7)
        .expect("not open")
        .expect("to be read");
    assert_eq!(path_to_read.text(), "/w/Shared.inc");
    let reading = DiskReading {
        text: "const X = 1;",
        stamp: DiskStamp { bytes: 12, modified: None },
        content_hash: 1,
        text_hash: 7,
        path_stamp: None,
    };
    let entry = PathEntry::legacy(path("/w/Shared.inc"));
    records
        .record_included_file(&shared, "const X = 1;", &reading, &path_to_read, "policy", &entry)
        .expect("the same text");
    let kept = records.records.as_ref().and_then(|map| map.get(&shared)).expect("recorded");
    assert!(kept.include_payload && !kept.open);
    assert_eq!(
        records.record_included_file(&shared, "other", &reading, &path_to_read, "policy", &entry),
        Err(format!("include source {shared} changed during diagnostics"))
    );
    documents.put(
        shared.clone(),
        OpenDocument {
            text: None,
            version: 1,
            rejection: Some("no".to_string()),
            identity_generation: 1,
        },
    );
    let error = records
        .record_included_document(&documents, &shared, "const X = 1;", 7)
        .expect_err("refused");
    assert_eq!(error, format!("include source {shared} was rejected during diagnostics"));
    let error = records
        .record_expanded_file(&shared, None, &path_to_read, "policy", &entry)
        .expect_err("gone");
    assert_eq!(error, format!("include root disappeared while expanding {shared}"));
    let error =
        records.record_expanded_root(&OpenDocuments::new(), "untitled:1", 0).expect_err("no file");
    assert_eq!(error, "include root is not a file URI: untitled:1");
}

fn facts() -> RecordFacts {
    RecordFacts {
        scope_paths: Vec::new(),
        auto_imports: Vec::new(),
        overlay_irrelevant: false,
        overlay: OverlayFacts { bytes_hash: 0, text_hash: 0, parsed_changed: false },
    }
}

#[test]
fn a_result_is_stale_after_a_change_of_what_it_was_computed_from() {
    let mut generations = Generations::new();
    let documents = OpenDocuments::new();
    let roots: Vec<WorkspaceRoot> = Vec::new();
    let disk_stamps = StrMap::new();
    let mut record = SourceRecord::blank(&uri("/w/A.pas"));
    record.path = Some(path("/w/A.pas"));
    let source = generations.source;
    let configuration = generations.configuration;
    {
        let current = Current {
            generations: &generations,
            documents: &documents,
            roots: &roots,
            disk_stamps: &disk_stamps,
        };
        assert!(current
            .dependency_scoped_result_is_fresh(source, configuration, &Vec::new(), &Vec::new())
            .is_ok());
    }
    generations.bump_source_generation();
    generations.mark_source(&uri("/w/A.pas"), &mut Work::free()).expect("nothing stops this");
    let current = Current {
        generations: &generations,
        documents: &documents,
        roots: &roots,
        disk_stamps: &disk_stamps,
    };
    match current.dependency_scoped_result_is_fresh(source, configuration, &Vec::new(), &Vec::new())
    {
        Err(stale) => {
            assert!(matches!(stale, Staleness::EmptyReadSet));
            assert_eq!(
                stale.message(),
                "analysis read set was empty after workspace state changed"
            );
        }
        Ok(_) => panic!("nothing was read, and something changed"),
    }
    assert!(current
        .dependency_scoped_result_is_fresh(source, configuration, &vec![record], &vec![facts()])
        .is_err());
}

#[test]
fn a_record_is_concerned_by_a_change_of_its_file() {
    let mut record = SourceRecord::blank(&uri("/w/A.pas"));
    record.path = Some(path("/w/A.pas"));
    assert!(source_record_matches_change(&record, &uri("/w/x/../A.pas"), false));
    assert!(!source_record_matches_change(&record, &uri("/w/B.pas"), false));
    record.candidates.push(path("/w/b.PAS"));
    assert!(source_record_matches_change(&record, &uri("/w/B.pas"), false));
}

#[test]
fn deleted_files_are_remembered_up_to_a_limit() {
    let mut deleted = DeletedFiles::new();
    for index in 0..MAX_DELETED_OVERRIDES + 5 {
        deleted.remember_deleted(&uri(&format!("/w/{index:04}.pas")), None);
    }
    assert_eq!(deleted.entries.len(), MAX_DELETED_OVERRIDES);
    assert!(deleted.contains(&uri("/w/0260.pas")));
    let gone = deleted.deleted_path_snapshot(&mut Work::free()).expect("nothing stops this");
    assert_eq!(gone.len(), MAX_DELETED_OVERRIDES);
    deleted.forget(&uri("/w/0260.pas"));
    assert!(!deleted.contains(&uri("/w/0260.pas")));
}

#[test]
fn a_cache_lets_go_of_what_was_used_longest_ago() {
    let mut cache: Cache<FilePath, u32> = Cache::new();
    cache.put(path("/a"), 1, 1, 2);
    cache.put(path("/b"), 2, 2, 2);
    cache.touch(&path("/a"), 3);
    cache.put(path("/c"), 3, 4, 2);
    assert_eq!(cache.len(), 2);
    assert_eq!(cache.get(&path("/a")), Some(&1));
    assert_eq!(cache.get(&path("/b")), None);
    assert_eq!(cache.take(&path("/c")), Some(3));
}

#[test]
fn imports_lead_to_indexed_sources() {
    let dependencies = vec![
        ResolvedDependency { id: "a".to_string(), uri: "file:///a".to_string(), indexed: true },
        ResolvedDependency { id: "b".to_string(), uri: "file:///b".to_string(), indexed: false },
    ];
    assert_eq!(list_dependencies(&dependencies, "file:///m"), strings(&["file:///a"]));
    let bindings = vec![
        ImportBinding { name: "A".to_string(), target: Some("a".to_string()) },
        ImportBinding { name: "C".to_string(), target: None },
    ];
    let bound = bind_imports(&bindings, &dependencies, "file:///m");
    assert_eq!(bound.len(), 1);
    assert!(refuse_rejected(&strings(&["fine"])).is_ok());
}

#[test]
fn depth_and_diagnostics_of_the_server() {
    let chain: Vec<usize> = (0..256usize).map(|index| index.saturating_sub(1)).collect();
    assert!(ensure_safe_tree_depth(&chain[..10].to_vec()).is_ok());
    let deep: Vec<usize> = (0..400usize).map(|index| index.saturating_sub(1)).collect();
    assert!(ensure_safe_tree_depth(&deep).is_err());
    let diagnostic = server_diagnostic("hello", Severity::Warning);
    assert_eq!(diagnostic.message, "hello");
    assert_eq!(diagnostic.source.as_deref(), Some("pascal-lsp"));
    let mut facts = StrMap::new();
    facts.insert("A".to_string(), ConditionalFact::True);
    facts.insert("B".to_string(), ConditionalFact::False);
    assert_eq!(symbols_with(&facts, ConditionalFact::True), strings(&["A"]));
}

#[test]
fn a_refused_document_is_reported_at_once() {
    let mut documents = OpenDocuments::new();
    let main = uri("/w/Main.pas");
    documents.put(
        main.clone(),
        OpenDocument {
            text: None,
            version: 3,
            rejection: Some("document rejected: too long".to_string()),
            identity_generation: 1,
        },
    );
    let mut run = DiagnosticRun::new(&main);
    match run.begin(&documents) {
        DiagnosticAction::Publish(publications) => {
            assert_eq!(publications.len(), 1);
            assert_eq!(publications[0].uri, main);
            assert_eq!(publications[0].version, Some(3));
            assert_eq!(publications[0].diagnostics[0].message, "document rejected: too long");
        }
        _ => panic!("a refused document is reported"),
    }
    let mut run = DiagnosticRun::new(&uri("/w/Closed.pas"));
    assert!(matches!(run.begin(&documents), DiagnosticAction::FindContext));
}

#[test]
fn a_plan_of_a_rename_says_what_a_document_becomes() {
    let (old_uri, new_uri) = ("file:///w/Old.pas", "file:///w/New.pas");
    let plan = |version: i32, edits: Vec<PlannedEdit>| {
        EditPlan::Edits(vec![DocumentEdit {
            uri: old_uri.to_string(),
            version: Some(version),
            edits,
        }])
    };
    let edit = |from: usize, to: usize, text: &str| PlannedEdit {
        annotated: false,
        range: ChangeRange { start: Some(from), end: Some(to) },
        text: text.to_string(),
    };
    let text = "unit Old; // Old";
    assert_eq!(
        expected_renamed_document_text(
            &plan(1, vec![edit(13, 16, "New"), edit(5, 8, "New")]),
            old_uri,
            new_uri,
            text,
            1
        ),
        Ok("unit New; // New".to_string())
    );
    assert_eq!(
        expected_renamed_document_text(&plan(2, vec![edit(5, 8, "New")]), old_uri, new_uri, text, 1),
        Err(PlanProblem::VersionMismatch)
    );
    assert_eq!(
        expected_renamed_document_text(
            &plan(1, vec![edit(5, 8, "New"), edit(7, 9, "x")]),
            old_uri,
            new_uri,
            text,
            1
        ),
        Err(PlanProblem::Overlap)
    );
    assert_eq!(
        expected_renamed_document_text(&plan(1, vec![edit(8, 5, "x")]), old_uri, new_uri, text, 1),
        Err(PlanProblem::Reversed)
    );
    let documents = OpenDocuments::new();
    assert_eq!(
        unit_rename_name(old_uri, new_uri, &documents, Some("Old"), true),
        Ok("New".to_string())
    );
    assert_eq!(
        unit_rename_name(old_uri, "file:///v/New.pas", &documents, Some("Old"), true),
        Err(UnitRenameProblem::OtherDirectory)
    );
    assert_eq!(
        unit_rename_name(old_uri, new_uri, &documents, None, true),
        Err(UnitRenameProblem::NotIndexed)
    );
}

#[test]
fn case_is_found_out_step_by_step() {
    let entries = strings(&["sdk", "SDK", "Other"]);
    assert_eq!(matching_entry(&entries, "SDK"), Some(1));
    assert_eq!(matching_entry(&entries, "other"), Some(2));
    assert_eq!(matching_entry(&entries, "Sdk"), None);
    let mut walk = CasePath::new(&path("/Opt/sdk"));
    assert!(matches!(walk.step(), CaseStep::List));
    assert!(matches!(walk.advance(Some(&strings(&["opt"]))), CaseStep::List));
    assert!(matches!(walk.advance(Some(&strings(&["SDK"]))), CaseStep::Found));
    assert_eq!(walk.current.text(), "/opt/SDK");
    assert_eq!(native_mapping_root(&path("/"), &path("/Opt"), None).text(), "/Opt");
    assert_eq!(
        native_mapping_root(&path("/"), &path("/Opt"), Some(path("/opt"))).text(),
        "/opt"
    );
    assert!(safe_path_under_root(Some(&path("/opt/a")), Some(&path("/opt")), false));
    assert!(!safe_path_under_root(Some(&path("/opt/a")), Some(&path("/opt")), true));
    assert!(!safe_path_under_root(Some(&path("/etc")), Some(&path("/opt")), false));
    let way = paths_on_the_way(&path("/opt/a/b"), &path("/opt")).expect("below");
    assert_eq!(shown(&way), strings(&["/opt", "/opt/a", "/opt/a/b"]));
}

#[test]
fn only_pascal_files_are_searched_for() {
    assert_eq!(searchable(&uri("/w/Main.pas")).map(|p| p.text()).ok().as_deref(), Some("/w/Main.pas"));
    let refusal = searchable("untitled:1").err().expect("no file");
    assert!(refusal.message("untitled:1").contains("untitled:1"));
    let refusal = searchable(&uri("/w/notes.txt")).err().expect("no Pascal file");
    assert!(refusal.message(&uri("/w/notes.txt")).contains("unsupported Pascal document path"));
    let explicit = key(Some("/workspace/A.dproj"));
    assert_eq!(owner_origin_for_context_key(&explicit, true), OwnerOrigin::Explicit);
    assert_eq!(owner_origin_for_context_key(&key(None), false), OwnerOrigin::Automatic);
}

#[test]
fn sorting_brings_paths_in_the_order_of_their_texts() {
    let sorted = sort(vec![path("/b"), path("/a/c"), path("/a")]);
    assert_eq!(shown(&sorted), strings(&["/a", "/a/c", "/b"]));
    let stamp = PathStamp { bytes: 1, modified: None, is_dir: false, is_symlink: false };
    assert_eq!(stamp, stamp);
    let cancel = AtomicBool::new(true);
    assert!(Work::cancellable(&cancel).check().is_err());
}
