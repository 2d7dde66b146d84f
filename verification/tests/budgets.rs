use std::sync::atomic::AtomicBool;
use std::sync::Arc;

use pascal_lsp::budget::{
    ReconciliationBudget, Work, MAX_NOTIFICATION_RECONCILIATION_FILE_BYTES,
    MAX_NOTIFICATION_RECONCILIATION_PATH_VISITS,
};
use pascal_lsp::cancel::{raise, Interrupt};
use pascal_lsp::conditional::ConditionalContext;
use pascal_lsp::excludes::ExcludeMatcher;
use pascal_lsp::filenames::{FilenameScan, FilenameCatalogues, WalkedEntry};
use pascal_lsp::freshness::context_state_is_fresh;
use pascal_lsp::includes::ExpansionRecord;
use pascal_lsp::installation::{plan_context, Discovered};
use pascal_lsp::keymap::KeyMap;
use pascal_lsp::limits::{FileChange, ResourceLimits};
use pascal_lsp::package_lookup::PackageLookup;
use pascal_lsp::package_scan::{Listed, PackageScan, ScanEntry, ScanKind};
use pascal_lsp::package_watch::prepare_package_watches;
use pascal_lsp::paths::FilePath;
use pascal_lsp::project::{
    ContextKey, ContextState, EffectiveOverrides, Membership, MetadataObservation, PathStamp,
    ProjectContext, ReadObservation,
};
use pascal_lsp::reading::{admit_file, admit_text, begin_disk_read, consider_link, take_bytes};
use pascal_lsp::settings::WorkspaceOptions;
use pascal_lsp::strmap::{StrMap, StrSet};
use pascal_lsp::uris::uri_of_path;
use pascal_lsp::workspace::Workspace;

fn path(text: &str) -> FilePath {
    FilePath::parse(text)
}

fn uri(text: &str) -> String {
    uri_of_path(&path(text)).expect("a file URI")
}

fn key_in(root: Option<&str>) -> ContextKey {
    ContextKey {
        project_file: None,
        workspace_root: root.map(path),
        project_scope: None,
        selection_scope: None,
        selection_project: None,
        config: None,
        platform: None,
        conditional_context: ConditionalContext::new(),
        overrides: EffectiveOverrides::none(),
    }
}

fn numbered_key(index: usize) -> ContextKey {
    key_in(Some(&format!("/workspace-{index}")))
}

fn state_watching(watched: KeyMap<FilePath, Option<PathStamp>>, files: Vec<FilePath>) -> ContextState {
    ContextState {
        context: Arc::new(ProjectContext::none()),
        metadata_files: files,
        metadata_observations: Vec::new(),
        watched_paths: watched,
        memberships: KeyMap::new(),
        read_observations: Vec::new(),
    }
}

fn workspace_at(root: &str, options: WorkspaceOptions) -> Workspace {
    Workspace::with_override_session(&path("/"), &vec![path(root)], options, &Vec::new())
}

fn unused_budget() -> ReconciliationBudget {
    ReconciliationBudget::new(Arc::new(AtomicBool::new(false)))
}

fn visits(work: &Work) -> usize {
    work.budget.as_ref().expect("an account").used.filesystem_path_visits
}

#[test]
fn file_event_budget_refusal_inside_wide_include_parent_walk_keeps_graph_intact() {
    let mut workspace = workspace_at("/tmp/wide", WorkspaceOptions::default());
    let changed = uri("/tmp/wide/Shared.inc");
    let mut roots: Vec<String> = Vec::new();
    let mut parents = StrSet::new();
    for index in 0..128 {
        let root = uri(&format!("/tmp/wide/Root{index:03}.pas"));
        roots.push(root.clone());
        parents.insert(root.clone());
        workspace.sources.set_size(&root, 8);
        let mut dependencies = StrSet::new();
        dependencies.insert(changed.clone());
        workspace.sources.includes.expansions.insert(
            root,
            ExpansionRecord {
                physical_source: String::new(),
                context_key: numbered_key(index),
                expanded: String::new(),
                source_texts: StrMap::new(),
                dependency_entries: StrMap::new(),
                include_observations: Vec::new(),
                dependencies,
                complete: true,
            },
        );
    }
    workspace.sources.includes.parents.insert(changed.clone(), parents);
    let mut budget = unused_budget();
    budget
        .charge_path_visits(MAX_NOTIFICATION_RECONCILIATION_PATH_VISITS - 12)
        .expect("leave room for notification admission and a partial graph walk");
    let mut work = Work::budgeted(budget);

    let error = workspace
        .file_event(&changed, FileChange::Changed, None, 0, &mut work)
        .err()
        .expect("the high-fan-out parent walk must refuse inside the graph traversal");

    assert_eq!(error, Interrupt::BudgetExceeded);
    assert_eq!(visits(&work), MAX_NOTIFICATION_RECONCILIATION_PATH_VISITS);
    assert_eq!(workspace.sources.includes.expansions.len(), roots.len());
    assert_eq!(workspace.parsed_document_count(), roots.len());
    assert!(roots
        .iter()
        .all(|root| workspace.sources.includes.expansions.contains_key(root)));
}

#[test]
fn metadata_owner_invalidation_charges_linear_scan_and_removal_work() {
    const OWNERS: usize = 64;
    let metadata = path("/tmp/owners/App.dproj");
    let metadata_uri = uri("/tmp/owners/App.dproj");
    let mut workspace = workspace_at("/tmp/owners", WorkspaceOptions::default());
    let mut owners: Vec<String> = Vec::new();
    for index in 0..OWNERS {
        let mut watched = KeyMap::new();
        watched.insert(metadata.copy(), None);
        workspace
            .sources
            .contexts
            .put_state(&numbered_key(index), state_watching(watched, Vec::new()));
        let owner = uri(&format!("/tmp/owners/Owner{index:03}.pas"));
        workspace
            .sources
            .contexts
            .document_contexts
            .insert(owner.clone(), numbered_key(index));
        workspace.sources.set_size(&owner, 1);
        owners.push(owner);
    }
    let mut work = Work::budgeted(unused_budget());

    let invalidated = workspace
        .sources
        .invalidate_metadata_for_uri(&metadata_uri, &workspace.documents, &mut work)
        .expect("linear metadata-owner invalidation");

    assert!(invalidated.is_empty(), "closed owners do not schedule open diagnostics");
    assert_eq!(workspace.sources.contexts.contexts.len(), 0);
    assert!(owners.iter().all(|owner| !workspace.sources.is_indexed(owner)));
    assert!(visits(&work) >= OWNERS * 5, "{}", visits(&work));
    assert!(visits(&work) <= OWNERS * 8, "{}", visits(&work));
}

#[test]
fn source_cache_eviction_budget_refusal_during_candidate_scan_keeps_entries() {
    let mut workspace = workspace_at(
        "/tmp/evict",
        WorkspaceOptions {
            limits: ResourceLimits { max_files: 1, ..ResourceLimits::default() },
            ..WorkspaceOptions::default()
        },
    );
    let mut retained: Vec<String> = Vec::new();
    for index in 0..4 {
        let source = uri(&format!("/tmp/evict/Retained{index}.pas"));
        workspace.sources.set_size(&source, 16);
        workspace.sources.last_used.insert(source.clone(), index);
        retained.push(source);
    }
    let requested = uri("/tmp/evict/Requested.pas");
    let mut budget = unused_budget();
    budget
        .charge_path_visits(MAX_NOTIFICATION_RECONCILIATION_PATH_VISITS - 4)
        .expect("leave budget for only part of candidate scan");
    let mut work = Work::budgeted(budget);

    let error = workspace
        .sources
        .make_room_for(
            &requested,
            16,
            &StrSet::new(),
            0,
            &workspace.documents,
            &workspace.options.limits,
            &mut workspace.log,
            &mut work,
        )
        .expect_err("eviction must stop at candidate accounting exhaustion");

    assert_eq!(error, Interrupt::BudgetExceeded);
    assert_eq!(visits(&work), MAX_NOTIFICATION_RECONCILIATION_PATH_VISITS);
    assert_eq!(workspace.parsed_document_count(), retained.len());
    assert!(retained.iter().all(|source| workspace.sources.is_indexed(source)));
}

#[test]
fn metadata_invalidation_cancellation_inside_watch_scan_keeps_context_current() {
    let metadata_uri = uri("/tmp/cancelled/App.dproj");
    let mut workspace = workspace_at("/tmp/cancelled", WorkspaceOptions::default());
    let mut watched = KeyMap::new();
    for index in 0..128 {
        watched.insert(path(&format!("/tmp/cancelled/Metadata{index}.dproj")), None);
    }
    workspace
        .sources
        .contexts
        .put_state(&numbered_key(0), state_watching(watched, Vec::new()));
    let cancellation = Arc::new(AtomicBool::new(false));
    let mut budget = ReconciliationBudget::new(Arc::clone(&cancellation));
    budget.cancel_after_path_visits(8);
    let mut work = Work { cancel: Some(&cancellation), budget: Some(budget) };

    let error = workspace
        .sources
        .invalidate_metadata_for_uri(&metadata_uri, &workspace.documents, &mut work)
        .expect_err("cancellation must be observed inside watched-path comparisons");

    assert_eq!(error, Interrupt::Cancelled);
    assert_eq!(error.message(), "request cancelled");
    assert_eq!(visits(&work), 8);
    let state = workspace.sources.contexts.contexts.get(&numbered_key(0)).expect("kept");
    assert_eq!(state.watched_paths.len(), 128);
}

fn descriptor(text: &str) -> Listed {
    Listed::Entry(ScanEntry { path: path(text), kind: Some(ScanKind::File), stamp: None })
}

#[test]
fn package_catalogue_scan_charges_directory_and_candidate_enumeration() {
    let root = path("/tmp/packages");
    let mut work = Work::budgeted(unused_budget());
    let mut scan = PackageScan::new(&root, None, false, StrSet::new(), &mut work)
        .expect("the account is unused");
    let excludes = ExcludeMatcher::new(&root, &root, &Vec::new());
    while let Some(directory) = scan.next_directory(&mut work).expect("the account has room") {
        assert_eq!(directory.text(), "/tmp/packages");
        let listing = (0..5).map(|index| descriptor(&format!("/tmp/packages/Noise{index}.dpk")));
        scan.scan_directory(listing.collect(), &excludes, &mut work)
            .expect("bounded package catalogue scan");
    }
    assert!(visits(&work) >= 12, "{}", visits(&work));
    let catalogue = scan.finish(3);
    assert!(catalogue.complete);
    assert_eq!(catalogue.validated_epoch, 3);
}

#[test]
fn include_filename_catalogue_charges_cached_stamps_and_walk_before_work() {
    let root = path("/tmp/search");
    let mut catalogues = FilenameCatalogues::new();
    let mut budget = unused_budget();
    budget
        .charge_path_visits(MAX_NOTIFICATION_RECONCILIATION_PATH_VISITS - 1)
        .expect("leave room for root stamp only");
    let mut work = Work::budgeted(budget);

    assert!(catalogues
        .reuse(&root, &Vec::new(), 1, &mut work)
        .expect("nothing is kept")
        .is_none());
    let mut scan = FilenameScan::begin(&root, None, &mut work).expect("the root is stamped");
    let error = scan.goes_on(&mut work).expect_err("walk entry must be charged before advancing");
    assert_eq!(error, Interrupt::BudgetExceeded);
    assert_eq!(visits(&work), MAX_NOTIFICATION_RECONCILIATION_PATH_VISITS);
    assert!(catalogues.kept.get(&root).is_none());
}

#[test]
fn include_catalogue_observes_cancellation_before_cached_path_stamp() {
    let root = path("/tmp/search");
    let catalogues = FilenameCatalogues::new();
    let cancellation = Arc::new(AtomicBool::new(false));
    let mut budget = ReconciliationBudget::new(Arc::clone(&cancellation));
    budget
        .charge_path_visits(MAX_NOTIFICATION_RECONCILIATION_PATH_VISITS)
        .expect("fill path account");
    raise(&cancellation);
    let mut work = Work::budgeted(budget);

    let error = FilenameScan::begin(&root, None, &mut work)
        .err()
        .expect("cancellation must be observed before the next filesystem operation");
    assert_eq!(error, Interrupt::Cancelled);
    assert!(catalogues.kept.get(&root).is_none());
}

#[test]
fn package_watch_stamp_budget_refusal_does_not_install_partial_watches() {
    let first = path("/tmp/watches/First.dpk");
    let second = path("/tmp/watches/Second.dpk");
    let state = state_watching(KeyMap::new(), Vec::new());
    let mut budget = unused_budget();
    budget
        .charge_path_visits(MAX_NOTIFICATION_RECONCILIATION_PATH_VISITS)
        .expect("exhaust remaining visits on next charge");
    let mut work = Work::budgeted(budget);

    let error = prepare_package_watches(
        &state,
        &vec![first.copy(), second.copy()],
        &vec![None, None],
        &mut work,
    )
    .err()
    .expect("must refuse before stamping paths");
    assert_eq!(error, Interrupt::BudgetExceeded);
    assert!(!state.watched_paths.contains_key(&first));
    assert!(!state.watched_paths.contains_key(&second));
    assert!(state.metadata_files.is_empty());
}

#[test]
fn cached_candidate_membership_budget_exhaustion_is_not_reported_as_freshness() {
    let root = path("/tmp/candidates");
    let mut memberships = KeyMap::new();
    memberships.insert(root, Membership { listed: true, text: String::new() });
    let state = ContextState {
        memberships,
        ..state_watching(KeyMap::new(), Vec::new())
    };
    let mut budget = unused_budget();
    budget
        .charge_path_visits(MAX_NOTIFICATION_RECONCILIATION_PATH_VISITS)
        .expect("fill path budget");
    let mut work = Work::budgeted(budget);
    let now = vec![Membership { listed: true, text: String::new() }];

    let result = context_state_is_fresh(&state, &Vec::new(), &Vec::new(), &now, &mut work);
    assert_eq!(result, Err(Interrupt::BudgetExceeded));
}

#[test]
fn failed_candidate_observations_are_never_fresh() {
    let root = path("/tmp/candidates");
    let mut memberships = KeyMap::new();
    memberships.insert(
        root,
        Membership { listed: false, text: "directory observation failed".to_string() },
    );
    let state = ContextState {
        memberships,
        ..state_watching(KeyMap::new(), Vec::new())
    };
    let now = vec![Membership {
        listed: false,
        text: "directory observation failed".to_string(),
    }];
    let mut work = Work::free();
    let fresh = context_state_is_fresh(&state, &Vec::new(), &Vec::new(), &now, &mut work)
        .expect("freshness check");
    assert!(!fresh, "repeated candidate-enumeration errors must not prove freshness");
}

#[test]
fn watched_package_path_invalidation_charges_each_comparison() {
    const WATCHED: usize = 4_096;
    let mut workspace = workspace_at("/tmp/compared", WorkspaceOptions::default());
    let mut watched = KeyMap::new();
    for index in 0..WATCHED {
        watched.insert(path(&format!("/tmp/watched-package-{index}.dpk")), None);
    }
    workspace
        .sources
        .contexts
        .put_state(&key_in(Some("/tmp/compared")), state_watching(watched, Vec::new()));
    let changed = uri("/tmp/compared/unrelated.pas");
    let mut work = Work::budgeted(unused_budget());

    workspace
        .sources
        .invalidate_metadata_for_uri(&changed, &workspace.documents, &mut work)
        .expect("bounded full watched-path comparison");
    assert_eq!(visits(&work), WATCHED + 1);
}

#[test]
fn context_install_indexes_large_observation_sets_with_linear_budget_charges() {
    const METADATA: usize = 1_200;
    let stamp = PathStamp { bytes: 12, modified: None, is_dir: false, is_symlink: false };
    let files: Vec<FilePath> = (0..METADATA)
        .map(|index| path(&format!("/tmp/install/metadata-{index:04}.dproj")))
        .collect();
    let reads: Vec<ReadObservation> = files
        .iter()
        .map(|file| ReadObservation { path: file.copy(), stamp })
        .collect();
    let discovered = Discovered {
        context: Arc::new(ProjectContext::none()),
        metadata_files: files,
        metadata_observations: Vec::new(),
        reads,
    };
    let key = key_in(Some("/tmp/install"));
    let mut workspace = workspace_at("/tmp/install", WorkspaceOptions::default());
    let mut work = Work::budgeted(unused_budget());
    let source = path("/tmp/install/Source.pas");
    let directories = pascal_lsp::discovery::discovery_directories(
        &workspace.roots,
        &source,
        &mut work,
    )
    .expect("few directories");

    let plan = plan_context(
        &workspace.roots,
        &source,
        &discovered,
        &KeyMap::new(),
        &directories,
        None,
        &mut work,
    )
    .expect("metadata watch preparation remains within linear path budget");
    let looked: Vec<Membership> = plan
        .missing
        .iter()
        .map(|_| Membership { listed: true, text: String::new() })
        .collect();
    let now: Vec<Option<PathStamp>> = plan.watched.iter().map(|_| None).collect();
    workspace
        .sources
        .contexts
        .install_context(&key, discovered, plan, &looked, &now, &mut work)
        .expect("metadata watch preparation remains within linear path budget");

    assert!(visits(&work) >= METADATA * 2, "{}", visits(&work));
    let installed = workspace.sources.contexts.contexts.get(&key).expect("context installed");
    assert!(installed.watched_paths.len() >= METADATA);
    let mut stamped = 0;
    for i in 0..installed.watched_paths.len() {
        if let Some(stamp) = installed.watched_paths.value_at(i) {
            if stamp.bytes == 12 {
                stamped += 1;
            }
        }
    }
    assert_eq!(stamped, METADATA);
}

#[test]
fn package_lookup_budget_refusal_keeps_observations_and_watches_unchanged() {
    let package = path("/tmp/lookup/Shared.dpk");
    let key = key_in(Some("/tmp/lookup"));
    let mut workspace = workspace_at("/tmp/lookup", WorkspaceOptions::default());
    workspace
        .sources
        .contexts
        .put_state(&key, state_watching(KeyMap::new(), Vec::new()));
    let stamp = PathStamp { bytes: 20, modified: None, is_dir: false, is_symlink: false };
    let lookup = PackageLookup {
        candidates: Vec::new(),
        metadata_paths: vec![package.copy()],
        reads: vec![ReadObservation { path: package.copy(), stamp }],
        metadata_observations: vec![MetadataObservation { path: package.copy(), payload: None }],
        warnings: Vec::new(),
        complete: true,
    };
    let mut budget = unused_budget();
    budget
        .charge_path_visits(MAX_NOTIFICATION_RECONCILIATION_PATH_VISITS - 3)
        .expect("leave only the bounded observation/watch preparation allowance");
    let mut work = Work::budgeted(budget);

    let error = workspace
        .sources
        .contexts
        .apply_package_lookup(&key, &lookup, &vec![None], &mut work)
        .expect_err("the package stamp should be refused after staged observation work");
    assert_eq!(error, Interrupt::BudgetExceeded);
    let state = workspace.sources.contexts.contexts.get(&key).expect("context remains");
    assert!(state.read_observations.is_empty());
    assert!(state.metadata_observations.is_empty());
    assert!(!state.watched_paths.contains_key(&package));
    assert!(state.metadata_files.is_empty());
}

#[test]
fn package_watch_membership_work_scales_linearly_with_existing_paths() {
    const EXISTING: usize = 1_200;
    let files: Vec<FilePath> = (0..EXISTING)
        .map(|index| path(&format!("/tmp/package-watch-index/metadata-{index}.dproj")))
        .collect();
    let mut watched = KeyMap::new();
    for file in &files {
        watched.insert(file.copy(), None);
    }
    let state = state_watching(watched, files);
    let incoming: Vec<FilePath> = (0..EXISTING)
        .map(|index| path(&format!("/tmp/package-watch-new-{index}.dpk")))
        .collect();
    let now: Vec<Option<PathStamp>> = incoming.iter().map(|_| None).collect();
    let mut work = Work::budgeted(unused_budget());

    let prepared = prepare_package_watches(&state, &incoming, &now, &mut work)
        .expect("metadata/watch membership should use indexed linear work");
    assert_eq!(prepared.len(), EXISTING);
    assert!(visits(&work) <= EXISTING * 4, "{}", visits(&work));
}

#[test]
fn a_walk_takes_up_pascal_files_and_leaves_out_the_rest() {
    let root = path("/src");
    let mut work = Work::free();
    let mut scan = FilenameScan::begin(&root, None, &mut work).expect("nothing stops this");
    for (file, excluded) in [("/src/A.pas", false), ("/src/b/a.PAS", false), ("/src/C.pas", true)] {
        assert!(scan.goes_on(&mut work).expect("nothing stops this"));
        let entry = WalkedEntry {
            path: path(file),
            kind: ScanKind::File,
            stamp: None,
            excluded,
        };
        scan.take(&entry, &mut work).expect("nothing stops this");
    }
    assert!(scan.catalogue.complete);
    assert_eq!(scan.catalogue.entries.len(), 1);
    let kept = scan.catalogue.entries.get("a.pas").expect("two files of this name");
    assert_eq!(kept.paths.len(), 2);
}

#[test]
fn a_read_that_no_longer_fits_is_refused_before_it_starts() {
    let mut budget = unused_budget();
    budget
        .charge_file_bytes(MAX_NOTIFICATION_RECONCILIATION_FILE_BYTES - 10)
        .expect("room for this");
    let mut work = Work::budgeted(budget);
    begin_disk_read(10, &mut work).expect("just fits");
    assert_eq!(visits(&work), 1);
    assert_eq!(begin_disk_read(11, &mut work), Err(Interrupt::BudgetExceeded));
    assert_eq!(visits(&work), 1);
}

#[test]
fn what_is_read_is_charged_and_what_is_too_long_refused() {
    let file = path("/src/Main.pas");
    let mut work = Work::budgeted(unused_budget());
    assert!(!consider_link(&file, false, false, &mut work).expect("no link"));
    assert_eq!(visits(&work), 0);
    assert!(consider_link(&file, true, true, &mut work).expect("a link that may be followed"));
    assert_eq!(visits(&work), 1);
    let refused = consider_link(&file, true, false, &mut work).expect_err("not followed");
    assert_eq!(
        refused.message(),
        "/src/Main.pas is a symlink and not an authorized workspace source"
    );
    assert_eq!(admit_file(&file, true, 10, 10), Ok(()));
    assert_eq!(
        admit_file(&file, false, 10, 10),
        Err("/src/Main.pas is not a regular file".to_string())
    );
    assert_eq!(
        admit_file(&file, true, 11, 10),
        Err("/src/Main.pas is 11 bytes; the configured per-file limit is 10".to_string())
    );
    take_bytes(7, &mut work).expect("room for seven bytes");
    assert_eq!(work.budget.as_ref().expect("an account").used.file_bytes_read, 7);
    assert!(admit_text(&file, 10, 10, &work).is_ok());
    let refused = admit_text(&file, 11, 10, &work).expect_err("too long");
    assert_eq!(
        refused.message(),
        "decoded contents of /src/Main.pas exceed the configured per-file limit 10"
    );
    let cancel = AtomicBool::new(true);
    let work = Work::cancellable(&cancel);
    let stopped = admit_text(&file, 10, 10, &work).expect_err("taken back");
    assert_eq!(stopped.message(), "request cancelled");
}

#[test]
fn an_account_that_is_used_up_stays_so() {
    let mut budget = unused_budget();
    assert_eq!(
        budget.charge_path_visits(MAX_NOTIFICATION_RECONCILIATION_PATH_VISITS + 1),
        Err(Interrupt::BudgetExceeded)
    );
    assert!(budget.is_exhausted());
    assert_eq!(budget.charge_path_visits(1), Err(Interrupt::BudgetExceeded));
    assert_eq!(budget.charge_file_bytes(1), Err(Interrupt::BudgetExceeded));
    assert_eq!(budget.used.filesystem_path_visits, 0);
    assert_eq!(
        Interrupt::BudgetExceeded.message(),
        "workspace notification reconciliation work budget exceeded"
    );
}

#[test]
fn a_file_event_is_refused_only_where_its_visits_do_not_fit() {
    let changed = uri("/tmp/exact/Unit1.pas");
    for (left, fits) in [(3, true), (2, false)] {
        let mut workspace = workspace_at("/tmp/exact", WorkspaceOptions::default());
        let mut budget = unused_budget();
        budget
            .charge_path_visits(MAX_NOTIFICATION_RECONCILIATION_PATH_VISITS - left)
            .expect("leave room for the event");
        let mut work = Work::budgeted(budget);
        let taken = workspace.file_event(&changed, FileChange::Changed, None, 0, &mut work);
        if fits {
            assert!(taken.is_ok());
        } else {
            assert_eq!(taken.err(), Some(Interrupt::BudgetExceeded));
        }
        assert_eq!(visits(&work), MAX_NOTIFICATION_RECONCILIATION_PATH_VISITS);
    }
}

#[test]
fn a_search_for_watching_contexts_visits_each_context_and_its_paths() {
    let mut workspace = workspace_at("/tmp/watching", WorkspaceOptions::default());
    for index in 0..2 {
        let mut watched = KeyMap::new();
        watched.insert(path(&format!("/tmp/watching/A{index}.dproj")), None);
        watched.insert(path(&format!("/tmp/watching/B{index}.dproj")), None);
        workspace
            .sources
            .contexts
            .put_state(&numbered_key(index), state_watching(watched, Vec::new()));
    }
    let mut work = Work::budgeted(unused_budget());
    workspace
        .sources
        .invalidate_metadata_for_uri(&uri("/tmp/watching/C.dproj"), &workspace.documents, &mut work)
        .expect("nothing watches the file");
    assert_eq!(visits(&work), 6);
    assert_eq!(workspace.sources.contexts.contexts.len(), 2);
}
