use std::sync::atomic::AtomicBool;
use std::sync::Arc;

use pascal_lsp::budget::{
    ReconciliationBudget, Work, MAX_NOTIFICATION_RECONCILIATION_PATH_VISITS,
};
use pascal_lsp::cancel::Interrupt;
use pascal_lsp::conditional::ConditionalContext;
use pascal_lsp::contexts::{ContextStore, OwnerOrigin};
use pascal_lsp::documents::OpenDocuments;
use pascal_lsp::events::{override_step, OverrideStep};
use pascal_lsp::includes::{Expansion, IncludeDependency, IncludeGraph};
use pascal_lsp::keymap::{Identity, KeyMap};
use pascal_lsp::limits::FileChange;
use pascal_lsp::packages::package_excludes;
use pascal_lsp::paths::{absolute_path, relative_path, FilePath};
use pascal_lsp::project::{ContextKey, ContextState, EffectiveOverrides, ProjectContext};
use pascal_lsp::records::{AnalysisRecords, SourceRecord};
use pascal_lsp::selection::{OwnerStep, Selections, Surroundings};
use pascal_lsp::settings::WorkspaceOptions;
use pascal_lsp::units::{catalogue_roots, nested_tiers};
use pascal_lsp::uris::uri_of_path;
use pascal_lsp::workspace::Workspace;

fn path(text: &str) -> FilePath {
    FilePath::parse(text)
}

fn uri(text: &str) -> String {
    uri_of_path(&path(text)).expect("a file URI")
}

fn key(root: &str) -> ContextKey {
    ContextKey {
        project_file: None,
        workspace_root: Some(path(root)),
        project_scope: None,
        selection_scope: None,
        selection_project: None,
        config: None,
        platform: None,
        conditional_context: ConditionalContext::new(),
        overrides: EffectiveOverrides::none(),
    }
}

fn state() -> ContextState {
    ContextState {
        context: Arc::new(ProjectContext::none()),
        metadata_files: Vec::new(),
        metadata_observations: Vec::new(),
        watched_paths: KeyMap::new(),
        memberships: KeyMap::new(),
        read_observations: Vec::new(),
    }
}

fn workspace_of(roots: &[&str]) -> Workspace {
    let roots = roots.iter().map(|root| path(root)).collect();
    Workspace::with_override_session(&path("/"), &roots, WorkspaceOptions::default(), &Vec::new())
}

/// An account on which a number of visits is left.
fn room_for(visits: usize) -> Work<'static> {
    let mut budget = ReconciliationBudget::new(Arc::new(AtomicBool::new(false)));
    budget
        .charge_path_visits(MAX_NOTIFICATION_RECONCILIATION_PATH_VISITS - visits)
        .expect("the account is unused");
    Work::budgeted(budget)
}

/// A workspace with a context in which two sources were read.
fn two_sources(own: &ContextKey) -> Workspace {
    let mut ws = workspace_of(&["/w"]);
    ws.sources.contexts.put_state(own, state());
    for name in ["/w/A.pas", "/w/B.pas"] {
        ws.sources
            .finish_indexing(&ws.documents, &uri(name), 1, own, true, false, None, &mut Work::free())
            .expect("nothing stops this");
    }
    ws
}

fn only(own: &ContextKey) -> KeyMap<ContextKey, ()> {
    let mut keys = KeyMap::new();
    keys.insert(own.duplicate(), ());
    keys
}

#[test]
fn contexts_that_are_not_forgotten_for_want_of_room_stay() {
    let own = key("/w");
    let mut ws = two_sources(&own);
    let refused =
        ws.sources.invalidate_contexts(&only(&own), &ws.documents, &mut room_for(0));
    assert_eq!(refused, Err(Interrupt::BudgetExceeded));
    assert!(ws.sources.contexts.contexts.contains_key(&own));
    assert!(ws.sources.is_indexed(&uri("/w/A.pas")));
    assert!(ws.sources.is_indexed(&uri("/w/B.pas")));
    let done = ws.sources.invalidate_contexts(&only(&own), &ws.documents, &mut room_for(1_000));
    assert!(done.is_ok());
    assert!(!ws.sources.contexts.contexts.contains_key(&own));
    assert!(!ws.sources.is_indexed(&uri("/w/A.pas")));
    assert!(!ws.sources.is_indexed(&uri("/w/B.pas")));
}

#[test]
fn forgetting_that_is_stopped_only_forgets_what_it_was_told() {
    let own = key("/w");
    let others = key("/v");
    for visits in 0..40 {
        let mut ws = two_sources(&own);
        ws.sources.contexts.put_state(&others, state());
        ws.sources
            .finish_indexing(
                &ws.documents,
                &uri("/v/C.pas"),
                1,
                &others,
                true,
                false,
                None,
                &mut Work::free(),
            )
            .expect("nothing stops this");
        let mut work = room_for(visits);
        let told = ws.sources.invalidate_contexts(&only(&own), &ws.documents, &mut work);
        assert!(ws.sources.contexts.contexts.contains_key(&others), "{visits}");
        assert!(ws.sources.is_indexed(&uri("/v/C.pas")), "{visits}");
        assert_eq!(told.is_err(), work.budget.as_ref().expect("an account").is_exhausted());
        if told.is_ok() {
            assert!(!ws.sources.is_indexed(&uri("/w/A.pas")), "{visits}");
            assert!(!ws.sources.contexts.contexts.contains_key(&own), "{visits}");
        }
    }
}

#[test]
fn an_expansion_without_room_is_not_stored() {
    let own = key("/w");
    let mut graph = IncludeGraph::new();
    let expansion = || Expansion {
        text: "expanded".to_string(),
        dependencies: vec![IncludeDependency {
            uri: uri("/w/Shared.inc"),
            text: String::new(),
            observations: Vec::new(),
            path_entry: None,
        }],
        complete: true,
    };
    let root = uri("/w/A.pas");
    let refused =
        graph.store_expansion(&root, &own, String::new(), expansion(), &mut room_for(0));
    assert_eq!(refused, Err(Interrupt::BudgetExceeded));
    assert_eq!(graph.expansions.len(), 0);
    assert_eq!(graph.parents.len(), 0);
    graph
        .store_expansion(&root, &own, String::new(), expansion(), &mut Work::free())
        .expect("nothing stops this");
    assert_eq!(graph.expansions.get(&root).map(|kept| kept.expanded.as_str()), Some("expanded"));
    assert!(graph.parents.contains_key(&uri("/w/Shared.inc")));
}

#[test]
fn a_change_without_room_leaves_the_sources() {
    let own = key("/w");
    let mut ws = two_sources(&own);
    let told = ws.file_event(&uri("/w/A.pas"), FileChange::Changed, None, 0, &mut room_for(0));
    assert_eq!(told.err(), Some(Interrupt::BudgetExceeded));
    assert!(ws.sources.is_indexed(&uri("/w/A.pas")));
    assert!(ws.sources.is_indexed(&uri("/w/B.pas")));
}

#[test]
fn a_new_workspace_keeps_nothing() {
    let ws = workspace_of(&["/w"]);
    assert_eq!(ws.publications.reports.len(), 0);
    assert_eq!(ws.publications.incomplete_roots.len(), 0);
    assert_eq!(ws.publications.pending_targets.len(), 0);
    assert!(!ws.publications.pending_incomplete);
    assert_eq!(ws.packages.epoch, 0);
    assert_eq!(ws.selections.len(), 0);
    assert_eq!(ws.parsed_document_count(), 0);
}

#[test]
fn a_context_is_kept_or_forgotten_once_it_was_looked_at() {
    let own = key("/w");
    let source = uri("/w/A.pas");
    let mut ws = two_sources(&own);
    ws.settle_context(&source, &own, true, &mut room_for(0)).expect("nothing is visited");
    assert!(ws.sources.contexts.owners.get(&source).is_some_and(|kept| kept.key.same_as(&own)));
    assert!(ws.sources.contexts.contexts.contains_key(&own));
    let mut ws = two_sources(&own);
    let refused = ws.settle_context(&source, &own, false, &mut room_for(0));
    assert_eq!(refused, Err(Interrupt::BudgetExceeded));
    assert!(ws.sources.contexts.contexts.contains_key(&own));
    ws.settle_context(&source, &own, false, &mut Work::free()).expect("nothing stops this");
    assert!(!ws.sources.contexts.contexts.contains_key(&own));
    assert!(!ws.sources.is_indexed(&source));
}

#[test]
fn a_document_is_formatted_in_the_context_that_was_chosen_for_it() {
    let own = key("/w");
    let source = uri("/w/A.pas");
    let selections: Selections = KeyMap::new();
    let around = Surroundings { selected: None, directory: Some(path("/w")) };
    let step = |origin: Option<OwnerOrigin>, fresh: bool| {
        let mut store = ContextStore::new();
        store.put_state(&own, state());
        let mut clock: u64 = 0;
        if let Some(origin) = origin {
            store.remember_document_owner_with_origin(
                &OpenDocuments::new(),
                &source,
                &own,
                origin,
                &mut clock,
            );
        }
        store.readonly_step(&source, &selections, &around, fresh)
    };
    assert_eq!(step(None, true), OwnerStep::Discover);
    assert_eq!(step(Some(OwnerOrigin::Automatic), true), OwnerStep::Discover);
    assert_eq!(step(Some(OwnerOrigin::Inherited), true), OwnerStep::Reuse);
    assert_eq!(step(Some(OwnerOrigin::Inherited), false), OwnerStep::Restore);
}

#[test]
fn packages_are_left_out_as_their_folder_says() {
    let ws = workspace_of(&["/v", "/w"]);
    let chosen = package_excludes(&ws.roots, &key("/w"), &path("/sdk"));
    assert_eq!(chosen.root.text(), "/w");
    let alone = package_excludes(&ws.roots, &key("/elsewhere"), &path("/sdk"));
    assert_eq!(alone.root.text(), "/sdk");
    assert_eq!(alone.config_root.text(), "/sdk");
    let copied = chosen.copy();
    assert_eq!(copied.root.text(), "/w");
    for text in ["/w/src/A.pas", "/w/.git/A.pas"] {
        assert_eq!(
            copied.is_excluded(&path(text), &path("/w")),
            chosen.is_excluded(&path(text), &path("/w"))
        );
    }
}

#[test]
fn a_dotted_unit_is_looked_for_by_its_last_name() {
    assert_eq!(nested_tiers("Company.Tools.Strings"), nested_tiers("Strings"));
    assert!(nested_tiers("Company.Strings")
        .iter()
        .any(|tier| tier.contains(&"Strings.pas".to_string())));
    let ws = workspace_of(&["/v", "/w"]);
    let mut context = ProjectContext::none();
    let texts = |roots: Vec<FilePath>| -> Vec<String> {
        roots.iter().map(|root| root.text()).collect()
    };
    assert_eq!(texts(catalogue_roots(&context, &ws.roots)), ["/v", "/w"]);
    context.search_paths = vec![path("/w/lib")];
    assert_eq!(texts(catalogue_roots(&context, &ws.roots)), ["/w/lib"]);
}

#[test]
fn overrides_are_read_again_in_a_batch_and_dropped_with_their_file() {
    let file = uri("/w/.delphi-tools.local.toml");
    assert_eq!(override_step(&file, FileChange::Changed, true), OverrideStep::Refresh);
    assert_eq!(override_step(&file, FileChange::Created, false), OverrideStep::Keep);
    assert_eq!(override_step(&file, FileChange::Deleted, false), OverrideStep::Remove);
    assert_eq!(
        override_step(&uri("/w/A.pas"), FileChange::Deleted, true),
        OverrideStep::Keep
    );
}

fn record_of(uri: &str, text: &str) -> SourceRecord {
    let mut record = SourceRecord::blank(uri);
    record.text = text.to_string();
    record
}

#[test]
fn what_was_resolved_is_recorded_once() {
    let name = uri("/w/A.pas");
    let mut none = AnalysisRecords::new(false);
    none.record_resolved_source(record_of(&name, "first"));
    assert!(none.recorded(&name).is_none());
    let mut records = AnalysisRecords::new(true);
    assert!(records.recorded(&name).is_none());
    records.record_resolved_source(record_of(&name, "first"));
    assert!(records.recorded(&name).is_some_and(|kept| kept.text == "first"));
    records.record_resolved_source(record_of(&name, "later"));
    assert!(records.recorded(&name).is_some_and(|kept| kept.text == "later"));
}

#[test]
fn the_way_between_relative_paths_leads_there() {
    for (base, place) in [("a/x", "a/b/C.pas"), ("a", "a"), ("a/b", "a/C.pas"), ("/a", "/b/c")] {
        let way = relative_path(&path(base), &path(place)).expect("they begin alike");
        assert_eq!(absolute_path(&path(base), &way).text(), place);
    }
    assert!(relative_path(&path("a"), &path("/b")).is_none());
}
