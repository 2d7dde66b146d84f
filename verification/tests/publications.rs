use pascal_lsp::cursor::{
    take_all_diagnostic_publication_uris, DiagnosticPublicationCursorStep,
    DiagnosticPublicationUriCursor,
};
use pascal_lsp::documents::{OpenDocument, OpenDocuments};
use pascal_lsp::publications::{
    Diagnostic, DiagnosticList, DiagnosticPublication, Publications, Reports, Severity,
    MAX_PUBLISHED_DIAGNOSTIC_URI_BYTES, MAX_RETAINED_DIAGNOSTIC_PUBLICATION_TARGETS,
};
use pascal_lsp::strmap::{StrMap, StrSet};
use pascal_lsp::text::{Position, Range};

fn start() -> Range {
    let zero = Position { line: 0, character: 0 };
    Range { start: zero, end: zero }
}

fn finding(message: &str) -> Diagnostic {
    Diagnostic {
        range: start(),
        severity: Severity::Error,
        code: None,
        source: None,
        message: message.to_string(),
    }
}

fn report(uri: &str, messages: &[&str]) -> DiagnosticPublication {
    DiagnosticPublication {
        uri: uri.to_string(),
        version: None,
        diagnostics: messages.iter().map(|message| finding(message)).collect(),
    }
}

fn messages_of(diagnostics: &[Diagnostic]) -> Vec<String> {
    diagnostics.iter().map(|d| d.message.clone()).collect()
}

fn set_of(uri: &str) -> StrSet {
    let mut r = StrSet::new();
    r.insert(uri.to_string());
    r
}

#[test]
fn diagnostic_uri_cursor_bounds_each_step_and_deduplicates_late_targets() {
    let emitted = "file:///related/00000.pas";
    let later = "file:///late-rejected.pas";
    let mut targets = StrMap::new();
    for index in 0..512 {
        targets.insert(
            format!("file:///related/{index:05}.pas"),
            DiagnosticList { items: Vec::new() },
        );
    }
    let mut reports = StrMap::new();
    reports.insert("file:///cursor-root.pas".to_string(), Reports { targets });
    let mut cursor =
        DiagnosticPublicationUriCursor::new(&reports, &OpenDocuments::new(), None);

    let mut seen = StrSet::new();
    let mut steps = 0usize;
    loop {
        steps += 1;
        match cursor.next_step() {
            DiagnosticPublicationCursorStep::Target(uri) => {
                assert!(seen.insert(uri.clone()), "duplicate cursor target {uri}");
                if uri == emitted {
                    cursor.add_late_target(uri);
                    cursor.add_late_target(later.to_string());
                }
            }
            DiagnosticPublicationCursorStep::Skipped => {}
            DiagnosticPublicationCursorStep::Exhausted => break,
        }
        assert!(steps <= 2_000, "cursor did not make bounded progress");
    }
    assert_eq!(seen.len(), 513);
    assert!(seen.contains(emitted));
    assert!(seen.contains(later));
}

#[test]
fn a_run_brings_each_document_once_and_in_order() {
    let roots: [&[&str]; 2] = [&["b", "d"], &["a", "b", "c"]];
    let mut reports = StrMap::new();
    for (index, names) in roots.iter().enumerate() {
        let mut targets = StrMap::new();
        for name in names.iter() {
            targets.insert(format!("file:///{name}"), DiagnosticList { items: Vec::new() });
        }
        reports.insert(format!("file:///root{index}"), Reports { targets });
    }
    let mut documents = OpenDocuments::new();
    documents.put(
        "file:///e".to_string(),
        OpenDocument {
            text: Some(String::new()),
            version: 1,
            rejection: None,
            identity_generation: 1,
        },
    );
    let extra = Some("file:///c".to_string());
    let mut cursor = DiagnosticPublicationUriCursor::new(&reports, &documents, extra);
    let mut came: Vec<String> = Vec::new();
    let mut calls = 0;
    loop {
        calls += 1;
        match cursor.next_step() {
            DiagnosticPublicationCursorStep::Target(uri) => {
                if came.is_empty() {
                    cursor.add_late_target("file:///a".to_string());
                    cursor.add_late_target("file:///0".to_string());
                }
                came.push(uri);
            }
            DiagnosticPublicationCursorStep::Skipped => {}
            DiagnosticPublicationCursorStep::Exhausted => break,
        }
    }
    let mut order = came.clone();
    order.sort();
    let names = ["0", "a", "b", "c", "d", "e"];
    let expected: Vec<String> = names.iter().map(|name| format!("file:///{name}")).collect();
    assert_eq!(order, expected);
    assert_eq!(&came[..4], &expected[1..5]);
    // Two roots, five keys, an open document, two late targets and two more.
    assert!(calls <= 2 + 5 + 1 + 2 + 2, "{calls}");
}

#[test]
fn taking_all_targets_leaves_nothing_behind() {
    let documents = OpenDocuments::new();
    let mut publications = Publications::new();
    publications.replace_diagnostic_publications(
        &documents,
        "file:///a.pas",
        vec![report("file:///a.pas", &["one"]), report("file:///x.inc", &[])],
    );
    let mut cursor = take_all_diagnostic_publication_uris(
        &mut publications,
        &documents,
        Some("file:///b.pas".to_string()),
    );
    assert_eq!(publications.reports.len(), 0);
    assert_eq!(publications.target_count, 0);
    let mut seen: Vec<String> = Vec::new();
    loop {
        match cursor.next_step() {
            DiagnosticPublicationCursorStep::Target(uri) => seen.push(uri),
            DiagnosticPublicationCursorStep::Skipped => {}
            DiagnosticPublicationCursorStep::Exhausted => break,
        }
    }
    assert_eq!(seen, vec!["file:///a.pas", "file:///x.inc", "file:///b.pas"]);
}

#[test]
fn retained_publication_cap_never_turns_omitted_diagnostics_into_empty_reports() {
    const ROOTS: usize = 128;
    let per_root = MAX_RETAINED_DIAGNOSTIC_PUBLICATION_TARGETS / ROOTS;
    let documents = OpenDocuments::new();
    let mut publications = Publications::new();
    let mut count = 0usize;
    for root_index in 0..ROOTS {
        let mut reports: Vec<DiagnosticPublication> = Vec::new();
        for target_index in 0..per_root {
            reports.push(report(
                &format!("file:///w/owner-{root_index}-target-{target_index:04}.pas"),
                &[],
            ));
            count += 1;
        }
        let root = format!("file:///w/owner-{root_index}.pas");
        publications.replace_diagnostic_publications(&documents, &root, reports);
    }
    let left = MAX_RETAINED_DIAGNOSTIC_PUBLICATION_TARGETS - count;
    let rest: Vec<DiagnosticPublication> = (0..left)
        .map(|index| report(&format!("file:///w/rest-{index:04}.pas"), &[]))
        .collect();
    publications.replace_diagnostic_publications(&documents, "file:///w/rest.pas", rest);
    assert_eq!(publications.target_count, MAX_RETAINED_DIAGNOSTIC_PUBLICATION_TARGETS);

    let root = "file:///w/new-owner.pas";
    let omitted = "file:///w/unretained-diagnostic.pas";
    let replacement = publications.replace_diagnostic_publications(
        &documents,
        root,
        vec![report(omitted, &["real related diagnostic"])],
    );
    assert!(replacement.incomplete);
    assert!(replacement.updates.iter().all(|update| update.uri != omitted));
    assert!(!publications.reports.contains_key(root));
    assert_eq!(publications.target_count, MAX_RETAINED_DIAGNOSTIC_PUBLICATION_TARGETS);

    let existing = "file:///w/owner-0.pas";
    let oversized: Vec<DiagnosticPublication> = (0..(per_root + 1))
        .map(|index| {
            report(&format!("file:///w/replacement-{index:04}.pas"), &["replacement diagnostic"])
        })
        .collect();
    let result =
        publications.replace_diagnostic_publications(&documents, existing, oversized);
    assert!(result.incomplete);
    let kept = publications.reports.get(existing).expect("previous complete report");
    assert_eq!(kept.targets.len(), per_root);
    assert!(kept.targets.contains_key("file:///w/owner-0-target-0000.pas"));
}

#[test]
fn overflowed_root_is_not_republished_as_current_by_another_owner() {
    let documents = OpenDocuments::new();
    let mut publications = Publications::new();
    let (root_a, root_b) = ("file:///w/A.pas", "file:///w/B.pas");
    let target = "file:///w/Shared.inc";

    let initial = publications.replace_diagnostic_publications(
        &documents,
        root_a,
        vec![report(target, &["A stale finding"])],
    );
    assert!(!initial.incomplete);

    let oversized = format!("file:///{}", "x".repeat(MAX_PUBLISHED_DIAGNOSTIC_URI_BYTES));
    let rejected = publications.replace_diagnostic_publications(
        &documents,
        root_a,
        vec![report(target, &[]), report(&oversized, &["proposal rejected"])],
    );
    assert!(rejected.incomplete);
    assert!(rejected.updates.is_empty());
    let kept = publications.reports.get(root_a).expect("A is kept for cleanup");
    assert_eq!(
        messages_of(&kept.targets.get(target).expect("its target").items),
        vec!["A stale finding"]
    );
    assert!(publications
        .aggregate_diagnostic_publications(&documents, &set_of(target))
        .updates
        .is_empty());

    let refreshed = publications.replace_diagnostic_publications(
        &documents,
        root_b,
        vec![report(target, &["B current finding"])],
    );
    assert!(refreshed.incomplete);
    let update = refreshed
        .updates
        .iter()
        .find(|update| update.uri == target)
        .expect("B's current target report");
    assert_eq!(messages_of(&update.diagnostics), vec!["B current finding"]);

    let recovered = publications.replace_diagnostic_publications(
        &documents,
        root_a,
        vec![report(target, &[])],
    );
    assert!(!recovered.incomplete);
    let update = recovered
        .updates
        .iter()
        .find(|update| update.uri == target)
        .expect("recovered shared target");
    assert_eq!(messages_of(&update.diagnostics), vec!["B current finding"]);

    let closed = publications.clear_diagnostic_publications(&documents, root_a);
    assert!(!closed.incomplete);
    let update = closed
        .updates
        .iter()
        .find(|update| update.uri == target)
        .expect("shared target after A closes");
    assert_eq!(messages_of(&update.diagnostics), vec!["B current finding"]);
}

#[test]
fn closing_the_only_incomplete_publication_owner_emits_its_cleanup() {
    let documents = OpenDocuments::new();
    let mut publications = Publications::new();
    let root = "file:///w/Owner.pas";
    let target = "file:///w/Shared.inc";
    publications.replace_diagnostic_publications(
        &documents,
        root,
        vec![report(target, &["old finding"])],
    );
    let oversized = format!("file:///{}", "x".repeat(MAX_PUBLISHED_DIAGNOSTIC_URI_BYTES));
    let failed = publications.replace_diagnostic_publications(
        &documents,
        root,
        vec![report(&oversized, &[])],
    );
    assert!(failed.incomplete);
    assert!(publications
        .aggregate_diagnostic_publications(&documents, &set_of(target))
        .updates
        .is_empty());

    let closed = publications.clear_diagnostic_publications(&documents, root);
    assert!(!closed.incomplete);
    let cleanup = closed
        .updates
        .iter()
        .find(|update| update.uri == target)
        .expect("closing the last owner must clear its previously published target");
    assert!(cleanup.diagnostics.is_empty());
}

#[test]
fn successful_push_replacement_stages_fanout_without_materializing_reports() {
    let documents = OpenDocuments::new();
    let mut publications = Publications::new();
    let reports: Vec<DiagnosticPublication> = (0..70)
        .map(|index| {
            report(&format!("file:///w/Related{index:02}.inc"), &[&format!("finding {index}")])
        })
        .collect();
    let replacement =
        publications.stage_diagnostic_publications(&documents, "file:///w/Main.pas", reports);
    assert!(replacement.updates.is_empty());
    assert_eq!(publications.pending_diagnostic_publication_count(), 70);

    let (uri, update, incomplete) = publications
        .peek_pending_diagnostic_publication(&documents)
        .expect("the first of them");
    assert_eq!(uri, "file:///w/Related00.inc");
    assert!(!incomplete);
    let update = update.expect("a report");
    assert_eq!(messages_of(&update.diagnostics), vec!["finding 0"]);
    publications.complete_pending_diagnostic_publication(&uri);
    assert_eq!(publications.pending_diagnostic_publication_count(), 69);
}

#[test]
fn related_publication_uri_boundary_is_atomic_at_sixteen_kib() {
    let documents = OpenDocuments::new();
    let mut publications = Publications::new();
    let root = "file:///w/root.pas";
    let prefix = "file:///";
    let accepted = format!(
        "{prefix}{}",
        "a".repeat(MAX_PUBLISHED_DIAGNOSTIC_URI_BYTES - prefix.len())
    );
    assert_eq!(accepted.len(), MAX_PUBLISHED_DIAGNOSTIC_URI_BYTES);
    let result = publications.replace_diagnostic_publications(
        &documents,
        root,
        vec![report(&accepted, &["boundary diagnostic"])],
    );
    assert!(!result.incomplete);
    assert!(publications
        .reports
        .get(root)
        .is_some_and(|reports| reports.targets.contains_key(&accepted)));

    let rejected = format!(
        "{prefix}{}",
        "b".repeat(MAX_PUBLISHED_DIAGNOSTIC_URI_BYTES + 1 - prefix.len())
    );
    assert_eq!(rejected.len(), MAX_PUBLISHED_DIAGNOSTIC_URI_BYTES + 1);
    let result = publications.replace_diagnostic_publications(
        &documents,
        root,
        vec![report(&rejected, &["must not be hidden as empty"])],
    );
    assert!(result.incomplete);
    assert!(result.updates.iter().all(|update| update.uri != rejected));
    let kept = publications.reports.get(root).expect("kept");
    assert!(kept.targets.contains_key(&accepted));
    assert!(!kept.targets.contains_key(&rejected));
}

#[test]
fn a_report_carries_the_version_of_the_open_document() {
    let mut documents = OpenDocuments::new();
    documents.put(
        "file:///w/Main.pas".to_string(),
        OpenDocument {
            text: Some("unit Main;".to_string()),
            version: 7,
            rejection: None,
            identity_generation: 1,
        },
    );
    let mut publications = Publications::new();
    let result = publications.replace_diagnostic_publications(
        &documents,
        "file:///w/Main.pas",
        vec![report("file:///w/Main.pas", &["one", "one", "two"])],
    );
    assert_eq!(result.updates.len(), 1);
    assert_eq!(result.updates[0].version, Some(7));
    assert_eq!(messages_of(&result.updates[0].diagnostics), vec!["one", "two"]);
    assert!(!result.incomplete);
}

#[test]
fn a_stale_root_is_told_to_be_incomplete() {
    let documents = OpenDocuments::new();
    let mut publications = Publications::new();
    publications.replace_diagnostic_publications(
        &documents,
        "file:///a.pas",
        vec![report("file:///x.inc", &["one"])],
    );
    let affected = publications.mark_diagnostic_publication_root_stale("file:///a.pas");
    assert!(affected.contains("file:///x.inc"));
    let (update, incomplete) =
        publications.aggregate_diagnostic_publication(&documents, "file:///x.inc");
    assert!(update.is_none());
    assert!(incomplete);
    publications.mark_pending_diagnostic_publication_incomplete();
    assert!(publications.take_pending_diagnostic_publication_incomplete());
    assert!(!publications.take_pending_diagnostic_publication_incomplete());
}

#[test]
fn findings_fill_a_report_by_the_bytes_that_are_sent() {
    let documents = OpenDocuments::new();
    let mut publications = Publications::new();
    let long = "x".repeat(64 * 1024 - 200);
    let fits = publications.replace_diagnostic_publications(
        &documents,
        "file:///a.pas",
        vec![report("file:///a.pas", &[&long])],
    );
    assert!(!fits.incomplete);
    assert_eq!(fits.updates.len(), 1);
    let longer = "x".repeat(64 * 1024 - 50);
    let refused = publications.replace_diagnostic_publications(
        &documents,
        "file:///a.pas",
        vec![report("file:///a.pas", &[&longer])],
    );
    assert!(refused.incomplete);
    assert!(refused.updates.iter().all(|update| update.uri != "file:///a.pas"));
}
