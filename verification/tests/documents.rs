use std::sync::atomic::AtomicBool;
use std::sync::Arc;

use pascal_lsp::budget::{ReconciliationBudget, Work};
use pascal_lsp::conditional::ConditionalContext;
use pascal_lsp::deleted::DeletedFiles;
use pascal_lsp::documents::{OpenDocument, OpenDocuments, MAX_REJECTED_OPEN_FENCE_URIS};
use pascal_lsp::edits::{ChangeRange, ContentChange, RejectReason};
use pascal_lsp::events::FileEvent;
use pascal_lsp::formatting::{FormatAction, FormatStage};
use pascal_lsp::generations::MAX_SOURCE_CHANGE_OBSERVATIONS;
use pascal_lsp::keymap::KeyMap;
use pascal_lsp::limits::{
    FileChange, ResourceLimits, MAX_OPEN_DOCUMENTS, MAX_OPEN_DOCUMENT_URI_BYTES,
};
use pascal_lsp::navigation::NavigationAction;
use pascal_lsp::paths::FilePath;
use pascal_lsp::project::{ContextKey, DiskStamp, EffectiveOverrides};
use pascal_lsp::reconfigure::{
    overlay_document, prepare_runtime_options_for_roots, rejected_document, AnalysisInput,
    ConfigurationPlaces,
};
use pascal_lsp::renames::{DocumentEdit, EditPlan, EditOperation, PlannedEdit, StageProblem};
use pascal_lsp::schedule::DIAGNOSTIC_DEBOUNCE;
use pascal_lsp::settings::WorkspaceOptions;
use pascal_lsp::strmap::StrMap;
use pascal_lsp::uris::uri_of_path;
use pascal_lsp::workspace::{DocumentContext, Workspace};

fn path(text: &str) -> FilePath {
    FilePath::parse(text)
}

fn uri(text: &str) -> String {
    uri_of_path(&path(text)).expect("a file URI")
}

fn key() -> ContextKey {
    ContextKey {
        project_file: None,
        workspace_root: Some(path("/w")),
        project_scope: None,
        selection_scope: None,
        selection_project: None,
        config: None,
        platform: None,
        conditional_context: ConditionalContext::new(),
        overrides: EffectiveOverrides::none(),
    }
}

fn workspace_with(options: WorkspaceOptions) -> Workspace {
    Workspace::with_override_session(&path("/"), &vec![path("/w")], options, &Vec::new())
}

fn workspace() -> Workspace {
    workspace_with(WorkspaceOptions::default())
}

fn open(ws: &mut Workspace, uri: &str, text: &str, version: i32) -> Result<(), String> {
    let key = key();
    ws.open_document(uri, text, version, Ok(DocumentContext { key: &key, owned: true }), true, 0)
}

fn change(ws: &mut Workspace, uri: &str, changes: Vec<ContentChange>, version: i32) {
    let key = key();
    let context = Ok(DocumentContext { key: &key, owned: true });
    ws.change_document_with_changes(uri, &changes, version, context, 0)
        .expect("a change is taken up or refused, but not an error");
}

fn at(start: usize, end: usize, text: &str, range_length: Option<u32>) -> ContentChange {
    ContentChange {
        range: Some(ChangeRange { start: Some(start), end: Some(end) }),
        range_length,
        text: text.to_string(),
    }
}

fn whole(text: &str) -> ContentChange {
    ContentChange { range: None, range_length: None, text: text.to_string() }
}

fn nowhere(text: &str) -> ContentChange {
    ContentChange {
        range: Some(ChangeRange { start: None, end: None }),
        range_length: None,
        text: text.to_string(),
    }
}

fn overlay(ws: &Workspace, uri: &str) -> Option<String> {
    ws.documents.get(uri).and_then(|document| document.text.clone())
}

fn is_rejected(ws: &Workspace, uri: &str) -> bool {
    ws.documents.get(uri).is_some_and(|document| document.rejection.is_some())
}

fn units(text: &str) -> Option<u32> {
    Some(text.encode_utf16().count() as u32)
}

fn placeholder() -> OpenDocument {
    OpenDocument {
        text: None,
        version: 1,
        rejection: Some("test rejection".to_string()),
        identity_generation: 0,
    }
}

#[test]
fn due_diagnostic_dispatch_is_bounded_to_one_protocol_turn() {
    let mut ws = workspace();
    for index in 0..65 {
        let source = uri(&format!("/w/Open{index:02}.pas"));
        open(&mut ws, &source, "unit Open; interface implementation end.", 1)
            .expect("open document");
        ws.schedule.set_deadline(source, 0);
    }

    let first = ws.schedule.take_due_diagnostic_requests_limited(&ws.documents, 0, 16);
    let second = ws.schedule.take_due_diagnostic_requests_limited(&ws.documents, 0, 16);

    assert_eq!(first.len(), 16);
    assert_eq!(second.len(), 16);
    assert_eq!(ws.schedule.pending.len(), 33);
}

#[test]
fn tracked_open_document_count_has_a_hard_recovery_ceiling() {
    let mut ws = workspace();
    for index in 0..MAX_OPEN_DOCUMENTS {
        ws.documents.put(uri(&format!("/w/Retained{index}.pas")), placeholder());
    }
    let next = uri("/w/Overflow.pas");

    let error = open(&mut ws, &next, "unit Overflow; implementation end.", 1)
        .expect_err("a rejected open must not let tracked document count exceed recovery reserve");

    assert!(error.contains("open document tracking limit"), "{error}");
    assert_eq!(ws.documents.len(), MAX_OPEN_DOCUMENTS);
    assert!(ws.analysis_admission_fenced());

    assert!(ws.close_document(&next, 0), "close clears rejected-open fence");
    assert!(
        ws.close_document(&uri("/w/Retained0.pas"), 0),
        "closing a tracked document frees a slot"
    );
    open(&mut ws, &next, "unit Overflow; implementation end.", 2)
        .expect("retry succeeds after a slot is freed");
    assert!(!ws.analysis_admission_fenced());
}

#[test]
fn open_document_uri_bytes_have_a_hard_recovery_ceiling() {
    let mut ws = workspace();
    let base = uri("/w/Accepted.pas");
    let padding = MAX_OPEN_DOCUMENT_URI_BYTES - base.len() - 1;
    let accepted = format!("{base}#{}", "a".repeat(padding));
    assert_eq!(accepted.len(), MAX_OPEN_DOCUMENT_URI_BYTES);
    open(&mut ws, &accepted, "unit Accepted; implementation end.", 1)
        .expect("URI at the exact bound remains admissible");
    assert!(!ws.analysis_admission_fenced());

    let base = uri("/w/Rejected.pas");
    let padding = MAX_OPEN_DOCUMENT_URI_BYTES - base.len();
    let rejected = format!("{base}#{}", "b".repeat(padding));
    assert_eq!(rejected.len(), MAX_OPEN_DOCUMENT_URI_BYTES + 1);
    let error = open(&mut ws, &rejected, "unit Rejected; implementation end.", 1)
        .expect_err("one byte over the URI limit must be rejected");
    assert!(error.contains("notification recovery limit"), "{error}");
    assert!(ws.analysis_admission_fenced());
    assert!(ws.close_document(&rejected, 0));
    assert!(!ws.analysis_admission_fenced());
    assert!(ws.close_document(&accepted, 0));
}

#[test]
fn rejected_open_fence_ledger_has_a_fixed_capacity() {
    let mut ws = workspace();
    for index in 0..=MAX_REJECTED_OPEN_FENCE_URIS {
        ws.fence.fence_rejected_open_document(&uri(&format!("/w/Rejected{index}.pas")));
    }
    assert_eq!(ws.fence.uris.len(), MAX_REJECTED_OPEN_FENCE_URIS);
    assert!(ws.fence.permanent);
    assert!(ws.analysis_admission_fenced());
}

#[test]
fn closing_one_uri_alias_does_not_clear_another_rejected_open_fence() {
    let mut ws = workspace();
    let first = uri("/w/Shared.pas");
    let second = format!("{first}#another-uri-identity");
    assert_ne!(first, second);

    ws.fence.fence_rejected_open_document(&first);
    ws.fence.fence_rejected_open_document(&second);
    assert!(ws.close_document(&first, 0));

    assert!(
        ws.analysis_admission_fenced(),
        "one close must not release another rejected URI identity"
    );
}

#[test]
fn failed_admitted_retry_keeps_rejected_open_fence() {
    let mut ws = workspace();
    for index in 0..MAX_OPEN_DOCUMENTS {
        ws.documents.put(uri(&format!("/w/Retained{index}.pas")), placeholder());
    }
    let outside = uri("/outside.txt");
    let error = open(&mut ws, &outside, "unit Outside; end.", 1)
        .expect_err("full tracker must reject first attempt");
    assert!(error.contains("tracking limit"));

    assert!(ws.close_document(&uri("/w/Retained0.pas"), 0));
    let key = key();
    let context = Ok(DocumentContext { key: &key, owned: true });
    let error = ws
        .open_document(&outside, "unit Outside; end.", 2, context, false, 0)
        .expect_err("retry outside supported paths must fail");
    assert!(error.contains("outside configured source paths"), "{error}");
    assert!(
        ws.analysis_admission_fenced(),
        "failed retry must not clear the rejected editor's fence"
    );
}

#[test]
fn incremental_changes_apply_sequentially_against_each_intermediate_text() {
    let mut ws = workspace();
    let main = uri("/w/Main.pas");
    let source = "unit Main;\ninterface\nconst first = 1; second = 2;\nimplementation\nend.\n";
    let after_first = source.replacen("first", "firstLong", 1);
    let updated = after_first.replacen("second", "secondLong", 1);
    open(&mut ws, &main, source, 1).expect("open document");
    let generation = ws.generations.source;

    let first = source.find("first").expect("first name");
    let second = after_first.find("second").expect("second name");
    change(
        &mut ws,
        &main,
        vec![
            at(first, first + "first".len(), "firstLong", units("first")),
            at(second, second + "second".len(), "secondLong", units("second")),
        ],
        2,
    );

    assert_eq!(overlay(&ws, &main).as_deref(), Some(updated.as_str()));
    assert_eq!(ws.documents.document_version(&main), Some(2));
    assert_eq!(ws.generations.source, generation + 1);
}

#[test]
fn mixed_full_and_ranged_changes_use_the_current_intermediate_text() {
    let mut ws = workspace();
    let main = uri("/w/Main.pas");
    let source = "unit Main;\ninterface\nimplementation\nend.\n";
    let full = "unit Main;\ninterface\nconst Alpha = 1;\nimplementation\nend.\n";
    let updated = full.replacen("Alpha", "Beta", 1);
    open(&mut ws, &main, source, 1).expect("open document");
    let alpha = full.find("Alpha").expect("Alpha name");
    change(&mut ws, &main, vec![whole(full), at(alpha, alpha + 5, "Beta", None)], 2);
    assert_eq!(overlay(&ws, &main).as_deref(), Some(updated.as_str()));
}

#[test]
fn source_change_observation_overflow_marks_a_global_generation() {
    let mut ws = workspace();
    for index in 0..=MAX_SOURCE_CHANGE_OBSERVATIONS {
        let source = uri(&format!("/tmp/lint4d-source-observation-{index}.pas"));
        ws.generations.bump_source_generation();
        ws.mark_source_change(&source, 0, &mut Work::free()).expect("nothing stops this");
    }
    assert!(ws.generations.observations.len() <= MAX_SOURCE_CHANGE_OBSERVATIONS);
    assert_eq!(ws.generations.global_source, ws.generations.source);
}

#[test]
fn incremental_deletion_removes_the_selected_utf16_span() {
    let mut ws = workspace();
    let main = uri("/w/Main.pas");
    let source = "unit Main;\ninterface\nconst Keep = 1; Remove = 2;\nimplementation\nend.\n";
    let deleted = "; Remove = 2";
    let start = source.find(deleted).expect("deletion span");
    let updated = source.replacen(deleted, "", 1);
    open(&mut ws, &main, source, 1).expect("open document");
    change(&mut ws, &main, vec![at(start, start + deleted.len(), "", units(deleted))], 2);
    assert_eq!(overlay(&ws, &main).as_deref(), Some(updated.as_str()));
    assert_eq!(ws.documents.document_version(&main), Some(2));
}

#[test]
fn invalid_later_change_is_atomic_and_requires_full_resynchronization() {
    let mut ws = workspace();
    let main = uri("/w/Main.pas");
    let source = "unit Main;\ninterface\nconst Name = 1;\nimplementation\nend.\n";
    open(&mut ws, &main, source, 1).expect("open document");
    let name = source.find("Name").expect("Name name");
    change(
        &mut ws,
        &main,
        vec![at(name, name + "Name".len(), "ChangedName", None), nowhere("ignored")],
        2,
    );
    assert!(is_rejected(&ws, &main));
    assert_eq!(overlay(&ws, &main), None);
    assert_eq!(ws.documents.document_version(&main), Some(2));

    change(&mut ws, &main, vec![at(0, 0, "still invalid", None)], 3);
    assert!(is_rejected(&ws, &main));
    assert_eq!(overlay(&ws, &main), None);
    assert_eq!(ws.documents.document_version(&main), Some(3));

    let resynchronized = "unit Main;\ninterface\nconst Recovered = 1;\nimplementation\nend.\n";
    change(&mut ws, &main, vec![whole(resynchronized)], 4);
    assert_eq!(overlay(&ws, &main).as_deref(), Some(resynchronized));
    assert!(!is_rejected(&ws, &main));
}

#[test]
fn empty_change_batch_advances_version_once_and_stale_versions_are_ignored() {
    let mut ws = workspace();
    let main = uri("/w/Main.pas");
    let source = "unit Main; interface implementation end.\n";
    open(&mut ws, &main, source, 1).expect("open document");
    let generation = ws.generations.source;
    change(&mut ws, &main, Vec::new(), 2);
    assert_eq!(ws.documents.document_version(&main), Some(2));
    assert_eq!(ws.generations.source, generation + 1);

    change(&mut ws, &main, vec![whole("unit Changed; interface implementation end.\n")], 2);
    assert_eq!(ws.documents.document_version(&main), Some(2));
    assert_eq!(ws.generations.source, generation + 1);
    assert_eq!(overlay(&ws, &main).as_deref(), Some(source));
}

#[test]
fn invalid_utf16_boundary_and_range_length_reject_the_notification() {
    let mut ws = workspace();
    let main = uri("/w/Main.pas");
    let source = "unit Main;\ninterface\nconst 😀Name = 1;\nimplementation\nend.\n";
    open(&mut ws, &main, source, 1).expect("open document");
    change(&mut ws, &main, vec![nowhere("x")], 2);
    assert!(is_rejected(&ws, &main));

    change(&mut ws, &main, vec![whole(source)], 3);
    let name = source.find("Name").expect("Name name");
    change(&mut ws, &main, vec![at(name, name + "Name".len(), "Renamed", Some(99))], 4);
    assert!(is_rejected(&ws, &main));
    assert_eq!(overlay(&ws, &main), None);
    let reason = ws.documents.get(&main).and_then(|document| document.rejection.clone());
    assert_eq!(
        reason.as_deref(),
        Some("document rejected: incremental change rangeLength is 99 UTF-16 units, but the range replaces 4")
    );
}

#[test]
fn incremental_changes_handle_non_bmp_crlf_and_eof_positions() {
    let mut ws = workspace();
    let main = uri("/w/Main.pas");
    let source = "unit Main;\r\ninterface\r\nconst 😀Name = 1;\r\nend.\r\n";
    let emoji = source.find('😀').expect("emoji");
    let after_emoji =
        format!("{}🙂{}", &source[..emoji], &source[emoji + '😀'.len_utf8()..]);
    let name = after_emoji.find("Name").expect("Name name");
    let after_name = after_emoji.replacen("Name", "Renamed", 1);
    let updated = format!("{after_name}// eof");
    open(&mut ws, &main, source, 1).expect("open document");
    change(
        &mut ws,
        &main,
        vec![
            at(emoji, emoji + '😀'.len_utf8(), "🙂", Some(2)),
            at(name, name + "Name".len(), "Renamed", Some(4)),
            at(after_name.len(), after_name.len(), "// eof", Some(0)),
        ],
        2,
    );
    assert_eq!(overlay(&ws, &main).as_deref(), Some(updated.as_str()));
}

#[test]
fn reversed_incremental_ranges_are_rejected() {
    let mut ws = workspace();
    let main = uri("/w/Main.pas");
    let source = "unit Main;\ninterface\nimplementation\nend.\n";
    open(&mut ws, &main, source, 1).expect("open document");
    change(&mut ws, &main, vec![at(29, 25, "invalid", None)], 2);
    assert!(is_rejected(&ws, &main));
    assert_eq!(overlay(&ws, &main), None);
}

#[test]
fn oversized_intermediate_change_is_rejected_before_it_becomes_authoritative() {
    let main = uri("/w/Main.pas");
    let source = "unit Main; end.\n";
    let mut ws = workspace_with(WorkspaceOptions {
        limits: ResourceLimits {
            max_files: 10,
            max_file_bytes: source.len() + 3,
            max_total_bytes: source.len() * 3,
        },
        ..WorkspaceOptions::default()
    });
    open(&mut ws, &main, source, 1).expect("open document");
    assert_eq!(overlay(&ws, &main).as_deref(), Some(source));
    assert!(!is_rejected(&ws, &main));

    let insertion = "x".repeat(4);
    change(
        &mut ws,
        &main,
        vec![at(0, 0, &insertion, Some(0)), at(0, insertion.len(), "", units(&insertion))],
        2,
    );
    assert!(is_rejected(&ws, &main));
    assert_eq!(overlay(&ws, &main), None);

    change(&mut ws, &main, vec![whole(source)], 3);
    assert_eq!(overlay(&ws, &main).as_deref(), Some(source));
    assert!(!is_rejected(&ws, &main));
}

#[test]
fn total_overlay_budget_counts_other_open_documents() {
    let first = uri("/w/First.pas");
    let second = uri("/w/Second.pas");
    let first_source = "unit First; end.\n";
    let second_source = "unit Second; end.\n";
    let mut ws = workspace_with(WorkspaceOptions {
        limits: ResourceLimits {
            max_files: 10,
            max_file_bytes: 1024,
            max_total_bytes: first_source.len() * 2 + second_source.len() * 2,
        },
        ..WorkspaceOptions::default()
    });
    open(&mut ws, &first, first_source, 1).expect("first document");
    ws.sources.set_size(&first, first_source.len());
    open(&mut ws, &second, second_source, 1).expect("second document fits total budget");
    ws.sources.set_size(&second, second_source.len());
    assert_eq!(overlay(&ws, &first).as_deref(), Some(first_source));
    assert_eq!(overlay(&ws, &second).as_deref(), Some(second_source));

    let end = first_source.len();
    change(&mut ws, &first, vec![at(end, end, "x", Some(0))], 2);
    assert!(is_rejected(&ws, &first));
    assert_eq!(overlay(&ws, &first), None);
    assert_eq!(overlay(&ws, &second).as_deref(), Some(second_source));

    change(&mut ws, &first, vec![whole(first_source)], 3);
    assert_eq!(overlay(&ws, &first).as_deref(), Some(first_source));
    assert_eq!(overlay(&ws, &second).as_deref(), Some(second_source));
}

#[test]
fn incremental_cross_line_crlf_edit_updates_the_overlay() {
    let mut ws = workspace();
    let main = uri("/w/Main.pas");
    let source = "unit Main;\r\ninterface\r\nconst OldName = 1;\r\nimplementation\r\nend.\r\n";
    let start = source.find("interface").expect("interface");
    let end = source.find("OldName").expect("OldName") + "OldName".len();
    let replaced = &source[start..end];
    let replacement = "interface\r\nconst NewName";
    let updated = source.replacen("OldName", "NewName", 1);
    open(&mut ws, &main, source, 1).expect("open document");
    change(&mut ws, &main, vec![at(start, end, replacement, units(replaced))], 2);
    assert_eq!(overlay(&ws, &main).as_deref(), Some(updated.as_str()));
}

#[test]
fn formatting_edit_keeps_the_read_only_workspace_api() {
    let ws = Workspace::with_override_session(
        &path("/"),
        &Vec::new(),
        WorkspaceOptions::default(),
        &Vec::new(),
    );
    let mut run = ws.formatting_edit("file:///tmp/Main.pas");
    assert!(matches!(run.stage, FormatStage::Start));
    assert!(matches!(run.begin(), FormatAction::FindContext));
}

#[test]
fn a_source_outside_the_workspace_is_not_navigated() {
    let ws = workspace();
    let main = uri("/elsewhere/Main.pas");
    let mut run = ws.navigate(&main);
    let action = run.begin(None, false, &ws.sources.includes);
    assert!(matches!(action, NavigationAction::Fail(_) | NavigationAction::Finish(_)));
}

#[test]
fn immutable_overrides_are_not_live_configuration_watchers() {
    let mut ws = workspace();
    let places = ConfigurationPlaces {
        above_folders: vec![Vec::new()],
        for_projects: Vec::new(),
        for_selections: Vec::new(),
    };
    let watched: Vec<String> =
        ws.configuration_watch_paths(&places).iter().map(|path| path.text()).collect();
    assert!(watched.contains(&"/w/.lint4d.toml".to_string()));
    assert!(watched.contains(&"/w/.fmt4d.toml".to_string()));
    assert!(!watched.contains(&"/w/.delphi-tools.local.toml".to_string()));

    let source = ws.generations.source;
    let configuration = ws.generations.configuration;
    let ignored = uri("/w/.delphi-tools.local.toml");
    ws.file_event(&ignored, FileChange::Changed, None, 0, &mut Work::free())
        .expect("nothing stops this");
    assert_eq!(ws.generations.source, source);
    assert_eq!(ws.generations.configuration, configuration);

    let live = uri("/w/.lint4d.toml");
    ws.file_event(&live, FileChange::Changed, None, 0, &mut Work::free())
        .expect("nothing stops this");
    assert_ne!(ws.generations.source, source);
    assert_ne!(ws.generations.configuration, configuration);
}

#[test]
fn a_change_is_diagnosed_after_a_pause() {
    let mut ws = workspace();
    let main = uri("/w/Main.pas");
    let key = key();
    let context = Ok(DocumentContext { key: &key, owned: true });
    ws.open_document(&main, "unit Main;", 1, context, true, 1_000).expect("opened");
    assert_eq!(DIAGNOSTIC_DEBOUNCE, 250);
    assert_eq!(ws.next_diagnostic_timeout(1_000), Some(250));
    assert_eq!(ws.next_diagnostic_timeout(1_249), Some(1));
    assert!(ws.take_due_diagnostics(1_249).is_empty());
    assert_eq!(ws.take_due_diagnostics(1_250), vec![(main.clone(), Some(1))]);
    assert_eq!(ws.next_diagnostic_timeout(1_250), None);
    assert_eq!(ws.document_identity(&main), (Some(1), Some(1)));
}

#[test]
fn saving_gives_a_document_the_saved_text() {
    let mut ws = workspace();
    let main = uri("/w/Main.pas");
    open(&mut ws, &main, "unit Main;", 1).expect("opened");
    let key = key();
    let context = Ok(DocumentContext { key: &key, owned: true });
    ws.save_document(&main, Some("unit Main; end."), context, 5).expect("saved");
    assert_eq!(overlay(&ws, &main).as_deref(), Some("unit Main; end."));
    let context = Ok(DocumentContext { key: &key, owned: true });
    ws.save_document(&uri("/w/Other.pas"), None, context, 5).expect("not open");
    ws.reject_open_document(&main, 2, "a reason", 5);
    let context = Ok(DocumentContext { key: &key, owned: true });
    let error = ws.save_document(&main, None, context, 5).expect_err("refused");
    assert_eq!(error, "document rejected: document rejected: a reason");
}

#[test]
fn a_document_changes_only_after_it_was_opened() {
    let mut ws = workspace();
    let key = key();
    let context = Ok(DocumentContext { key: &key, owned: true });
    assert!(ws
        .change_document_with_changes(&uri("/w/Main.pas"), &vec![whole("x")], 2, context, 0)
        .is_err());
    assert!(!ws.reject_malformed_change(&uri("/w/Main.pas"), 2, "no", 0));
    let main = uri("/w/Main.pas");
    open(&mut ws, &main, "unit Main;", 1).expect("opened");
    let context = Ok(DocumentContext { key: &key, owned: true });
    ws.change_document(&main, "unit Other;", 2, context, 0).expect("changed");
    assert_eq!(overlay(&ws, &main).as_deref(), Some("unit Other;"));
    assert!(ws.reject_malformed_change(&main, 3, "no", 0));
    assert!(is_rejected(&ws, &main));
    ws.advance_document_version(&main, 9, 0);
    assert_eq!(ws.documents.document_version(&main), Some(9));
}

#[test]
fn a_context_that_is_missing_is_an_error() {
    let mut ws = workspace();
    let error = ws
        .open_document(&uri("/w/Main.pas"), "x", 1, Err("no context".to_string()), true, 0)
        .expect_err("no context");
    assert_eq!(error, "no context");
    assert_eq!(ws.documents.len(), 0);
}

#[test]
fn too_long_a_text_is_refused_with_its_length() {
    let main = uri("/w/Main.pas");
    let mut ws = workspace_with(WorkspaceOptions {
        limits: ResourceLimits { max_files: 10, max_file_bytes: 4, max_total_bytes: 100 },
        ..WorkspaceOptions::default()
    });
    open(&mut ws, &main, "12345", 1).expect("a refusal is no error");
    let reason = ws.documents.get(&main).and_then(|document| document.rejection.clone());
    assert_eq!(
        reason,
        Some(format!(
            "document rejected: document {main} is 5 bytes; the configured per-file limit is 4"
        ))
    );
    let mut ws = workspace_with(WorkspaceOptions {
        limits: ResourceLimits { max_files: 10, max_file_bytes: 10, max_total_bytes: 4 },
        ..WorkspaceOptions::default()
    });
    open(&mut ws, &main, "12345", 1).expect("a refusal is no error");
    let reason = ws.documents.get(&main).and_then(|document| document.rejection.clone());
    assert_eq!(
        reason.as_deref(),
        Some("document rejected: open document text uses 5 bytes; the configured total source limit is 4")
    );
}

fn rename_plan(old_uri: &str, new_uri: &str, from: usize, to: usize, name: &str) -> EditPlan {
    EditPlan::Operations(vec![
        EditOperation::Edit(DocumentEdit {
            uri: old_uri.to_string(),
            version: Some(1),
            edits: vec![PlannedEdit {
                annotated: false,
                range: ChangeRange { start: Some(from), end: Some(to) },
                text: name.to_string(),
            }],
        }),
        EditOperation::Rename { old_uri: old_uri.to_string(), new_uri: new_uri.to_string() },
    ])
}

#[test]
fn a_planned_rename_takes_the_document_along() {
    let mut ws = workspace();
    let old_uri = uri("/w/Old.pas");
    let new_uri = uri("/w/New.pas");
    open(&mut ws, &old_uri, "unit Old;", 1).expect("opened");
    let plan = rename_plan(&old_uri, &new_uri, 5, 8, "New");
    ws.renames
        .stage_unit_file_rename(&ws.documents, &old_uri, &new_uri, &plan)
        .expect("planned");
    assert_eq!(
        ws.renames.stage_unit_file_rename(&ws.documents, &old_uri, &new_uri, &plan),
        Err(StageProblem::AlreadyPending)
    );
    change(&mut ws, &old_uri, vec![whole("unit New;")], 2);
    let (left, arrived) = ws.did_rename_file(&old_uri, &new_uri, true, 0);
    assert_eq!((left, arrived), (old_uri.clone(), new_uri.clone()));
    assert_eq!(overlay(&ws, &old_uri), None);
    assert!(!ws.documents.contains(&old_uri));
    assert_eq!(overlay(&ws, &new_uri).as_deref(), Some("unit New;"));
    assert_eq!(ws.documents.document_version(&new_uri), Some(2));
    assert_eq!(ws.renames.pending.len(), 0);
}

#[test]
fn a_rename_that_was_not_planned_refuses_the_document() {
    let mut ws = workspace();
    let old_uri = uri("/w/Old.pas");
    open(&mut ws, &old_uri, "unit Old;", 1).expect("opened");
    ws.did_rename_file(&old_uri, &uri("/w/New.pas"), true, 0);
    assert!(is_rejected(&ws, &old_uri));
    assert_eq!(overlay(&ws, &old_uri), None);
    let reason = ws.documents.get(&old_uri).and_then(|document| document.rejection.clone());
    assert_eq!(
        reason,
        Some(format!(
            "document rejected: {}",
            RejectReason::RenameUnmatched.message(&old_uri)
        ))
    );
}

#[test]
fn a_rename_with_another_text_than_planned_refuses_the_document() {
    let mut ws = workspace();
    let old_uri = uri("/w/Old.pas");
    let new_uri = uri("/w/New.pas");
    open(&mut ws, &old_uri, "unit Old;", 1).expect("opened");
    let plan = rename_plan(&old_uri, &new_uri, 5, 8, "New");
    ws.renames
        .stage_unit_file_rename(&ws.documents, &old_uri, &new_uri, &plan)
        .expect("planned");
    change(&mut ws, &old_uri, vec![whole("unit Newer;")], 2);
    ws.did_rename_file(&old_uri, &new_uri, true, 0);
    assert!(is_rejected(&ws, &old_uri));
    assert!(!ws.documents.contains(&new_uri));
    assert_eq!(ws.renames.pending.len(), 0);
}

#[test]
fn other_options_are_taken_up_for_the_same_folders_only() {
    let mut ws = workspace();
    let main = uri("/w/Main.pas");
    open(&mut ws, &main, "unit Main;", 1).expect("opened");
    let cancel = AtomicBool::new(false);
    let same = prepare_runtime_options_for_roots(
        &path("/"),
        &vec![path("/w")],
        WorkspaceOptions::default(),
        &cancel,
    )
    .ok()
    .expect("prepared");
    assert!(!ws.apply_prepared_runtime_options(same, 0));

    let options = WorkspaceOptions {
        platform: Some("Win64".to_string()),
        ..WorkspaceOptions::default()
    };
    let elsewhere =
        prepare_runtime_options_for_roots(&path("/"), &vec![path("/v")], options.copy(), &cancel)
            .ok()
            .expect("prepared");
    assert!(!ws.apply_prepared_runtime_options(elsewhere, 0));

    let generation = ws.generations.configuration;
    let prepared =
        prepare_runtime_options_for_roots(&path("/"), &vec![path("w")], options, &cancel)
            .ok()
            .expect("prepared");
    assert!(ws.apply_prepared_runtime_options(prepared, 7));
    assert_eq!(ws.options.platform.as_deref(), Some("Win64"));
    assert_eq!(ws.generations.configuration, generation + 1);
    assert_eq!(ws.next_diagnostic_timeout(7), Some(DIAGNOSTIC_DEBOUNCE));
    assert_eq!(overlay(&ws, &main).as_deref(), Some("unit Main;"));

    let taken_back = AtomicBool::new(true);
    assert!(prepare_runtime_options_for_roots(
        &path("/"),
        &vec![path("/w")],
        WorkspaceOptions::default(),
        &taken_back
    )
    .is_err());
}

#[test]
fn the_one_folder_is_the_scope_of_configuration() {
    let ws = workspace();
    assert_eq!(ws.configuration_scope_uri(), Some(uri("/w")));
    let ws = Workspace::with_override_session(
        &path("/"),
        &vec![path("/a"), path("/b")],
        WorkspaceOptions::default(),
        &Vec::new(),
    );
    assert_eq!(ws.configuration_scope_uri(), None);
}

#[test]
fn folders_come_and_go() {
    let mut ws = workspace();
    ws.update_workspace_folders(&path("/"), &vec![path("/x"), path("/W")], &vec![path("/w")], &vec![
        None, None,
    ]);
    let folders: Vec<String> = ws.roots.iter().map(|root| root.path.text()).collect();
    assert_eq!(folders, vec!["/x", "/W"]);
}

#[test]
fn an_overflow_of_notifications_forgets_what_was_derived() {
    let mut ws = workspace();
    let main = uri("/w/Main.pas");
    open(&mut ws, &main, "unit Main;", 1).expect("opened");
    ws.sources.set_size(&main, 10);
    let generation = ws.generations.source;
    ws.invalidate_all_for_file_notification_overflow(3);
    assert_eq!(ws.parsed_document_count(), 0);
    assert_eq!(overlay(&ws, &main).as_deref(), Some("unit Main;"));
    assert!(ws.generations.source > generation);
    assert_eq!(ws.next_diagnostic_timeout(3), Some(DIAGNOSTIC_DEBOUNCE));

    let mut budget = ReconciliationBudget::new(Arc::new(AtomicBool::new(false)));
    budget.record_file_event(uri("/w/Gone.pas"), FileChange::Deleted);
    ws.invalidate_for_reconciliation_budget(&mut budget, &vec![None], 4);
    assert!(ws.deleted.contains(&uri("/w/Gone.pas")));
}

#[test]
fn a_deleted_file_is_not_loaded_until_it_is_another() {
    let mut ws = workspace();
    let gone = uri("/w/Gone.pas");
    let stamp = DiskStamp { bytes: 4, modified: Some(1) };
    let FileEvent { diagnostics, owners } = ws
        .file_event(&gone, FileChange::Deleted, Some(stamp), 0, &mut Work::free())
        .expect("nothing stops this");
    assert!(diagnostics.is_empty());
    assert!(owners.is_none() || owners.is_some_and(|owners| owners.is_empty()));
    assert!(ws.deleted.contains(&gone));
    assert_eq!(
        ws.deleted.deletion_blocks_load(&gone, Some(stamp), &mut Work::free()),
        Ok(true)
    );
    let another = DiskStamp { bytes: 5, modified: Some(2) };
    assert_eq!(
        ws.deleted.deletion_blocks_load(&gone, Some(another), &mut Work::free()),
        Ok(false)
    );
    assert!(!ws.deleted.contains(&gone));
}

#[test]
fn a_worker_sees_refused_documents_as_refused() {
    let refused = rejected_document(None, None, 3);
    assert_eq!(
        refused.rejection.as_deref(),
        Some("open document was rejected by workspace limits")
    );
    assert_eq!(refused.version, 0);
    assert_eq!(refused.identity_generation, 3);
    let refused = rejected_document(Some("no".to_string()), Some(4), 3);
    assert_eq!((refused.rejection.as_deref(), refused.version), (Some("no"), 4));
    let shown = overlay_document("unit A;", 2, 5);
    assert_eq!(shown.text.as_deref(), Some("unit A;"));
    assert_eq!((shown.version, shown.rejection, shown.identity_generation), (2, None, 5));
}

#[test]
fn a_document_that_is_opened_again_is_another_one() {
    let mut ws = workspace();
    let main = uri("/workspace/Main.pas");
    open(&mut ws, &main, "unit Main;", 1).expect("accepted");
    let first = ws.documents.get(&main).expect("open").identity_generation;
    assert!(first <= ws.generations.source);
    ws.close_document(&main, 0);
    open(&mut ws, &main, "unit Main;", 1).expect("accepted");
    let second = ws.documents.get(&main).expect("open").identity_generation;
    assert!(second > first);
    assert!(second <= ws.generations.source);
}

#[test]
fn a_save_of_a_closed_document_opens_nothing() {
    let mut ws = workspace();
    let main = uri("/workspace/Main.pas");
    let key = key();
    let context = Ok(DocumentContext { key: &key, owned: false });
    ws.save_document(&main, Some("unit Main;"), context, 0).expect("nothing to refuse");
    assert!(!ws.documents.contains(&main));
}

#[test]
fn a_worker_starts_with_what_the_client_said() {
    let mut documents = OpenDocuments::new();
    documents.put("file:///w/A.pas".to_string(), overlay_document("unit A;", 2, 5));
    let input = AnalysisInput {
        options: WorkspaceOptions::default(),
        roots: vec![path("/w")],
        documents,
        deleted: DeletedFiles::new(),
        owners: StrMap::new(),
        selections: KeyMap::new(),
        source_generation: 8,
        configuration_generation: 2,
    };
    let worker = Workspace::from_analysis_input(&path("/"), input);
    assert_eq!(overlay(&worker, "file:///w/A.pas").as_deref(), Some("unit A;"));
    assert_eq!((worker.generations.source, worker.generations.configuration), (8, 2));
    assert!(worker.records.records.is_some());
    assert_eq!(worker.parsed_document_count(), 0);
    assert_eq!(worker.roots[0].path.text(), "/w");
}

#[test]
fn warnings_are_said_once_and_end_at_a_limit() {
    let mut ws = Workspace::new(
        &path("/"),
        &vec![path("/w")],
        WorkspaceOptions::default(),
        &vec!["a problem".to_string()],
        &vec!["a warning".to_string(), "a warning".to_string()],
    );
    ws.warn("another".to_string());
    ws.warn("another".to_string());
    assert!(ws.warnings().contains(&"a problem".to_string()));
    let said = ws.warnings().iter().filter(|w| w.as_str() == "another").count();
    assert_eq!(said, 1);
    for index in 0..400 {
        ws.warn(format!("warning {index}"));
    }
    assert_eq!(ws.warnings().len(), 257);
    assert_eq!(
        ws.warnings().last().map(|w| w.as_str()),
        Some("workspace warning limit reached")
    );
    ws.scan();
    ws.refresh_for_navigation();
}
