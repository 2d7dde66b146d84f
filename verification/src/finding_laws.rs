//! Which findings are published, and for which documents.

use vstd::prelude::*;

use crate::documents::DocumentView;
use crate::includes::RecordView;
use crate::lint::{
    linted_step, located, located_claims, located_views, reported_all, reported_claims, sheet_of,
    sheet_publications, LintFinding, LintOutcome, LocatedView, Mapping, RunView, SemanticFinding,
    LINT_SOURCE, SERVER_SOURCE,
};
use crate::picks::{lemma_none_picked, lemma_picked, picked};
use crate::project::KeyView;
use crate::publications::{DiagnosticView, PublicationView, Severity};
use crate::strmap::{in_order, lemma_finite_set_has_order, sorted_keys};
use crate::text::{byte_offset_of, Range};

verus! {

/// A finding lies in a document: in one range of it, in a text that the expansion knows, and
/// both ends are positions there.
pub open spec fn lies_in(mapping: Mapping, texts: Map<Seq<char>, Seq<char>>, uri: Seq<char>) -> bool {
    &&& mapping is Exact
    &&& mapping->uri@ == uri
    &&& mapping->start is Some
    &&& mapping->end is Some
    &&& texts.contains_key(uri)
}

/// Another expansion may own the place of a claim: it has a range there itself, or it was not
/// expanded to its end, where the document takes the place's text in.
pub open spec fn contested(
    expansions: Map<Seq<char>, RecordView>,
    root: Seq<char>,
    uri: Seq<char>,
    claimants: Set<Seq<char>>,
) -> bool {
    exists|other: Seq<char>| #[trigger]
        expansions.contains_key(other) && other != root && (claimants.contains(other) || (
        expansions[root].dependencies.contains(uri) && !expansions[other].complete))
}

/// How a finding is shown to the client.
pub open spec fn shown_as(finding: LocatedView, mapping: Mapping) -> DiagnosticView {
    DiagnosticView {
        range: Range { start: mapping->start->0, end: mapping->end->0 },
        severity: finding.severity,
        code: Some(finding.code),
        source: Some(finding.source),
        message: finding.message,
    }
}

/// The `i`-th of the findings of the rules, followed by the claims, is one of a document.
pub open spec fn is_found_in(
    outcome: LintOutcome,
    expansions: Map<Seq<char>, RecordView>,
    root: Seq<char>,
    uri: Seq<char>,
    i: int,
) -> bool {
    let rules = outcome.findings@.len() as int;
    let texts = expansions[root].source_texts;
    if i < rules {
        lies_in(outcome.mappings@[i], texts, uri)
    } else {
        lies_in(outcome.claim_mappings@[i - rules], texts, uri) && !contested(
            expansions,
            root,
            uri,
            outcome.claimants@[i - rules]@,
        )
    }
}

/// What the `i`-th of the findings of the rules, followed by the claims, is shown as.
pub open spec fn shown_finding(outcome: LintOutcome, i: int) -> DiagnosticView {
    let rules = outcome.findings@.len() as int;
    if i < rules {
        shown_as(outcome.findings@[i]@, outcome.mappings@[i])
    } else {
        shown_as(outcome.claims@[i - rules]@, outcome.claim_mappings@[i - rules])
    }
}

/// The findings of a document among the first `n`, in their order.
pub open spec fn findings_of(
    outcome: LintOutcome,
    expansions: Map<Seq<char>, RecordView>,
    root: Seq<char>,
    uri: Seq<char>,
    n: int,
) -> Seq<DiagnosticView> {
    picked(
        n,
        |i: int| is_found_in(outcome, expansions, root, uri, i),
        |i: int| shown_finding(outcome, i),
    )
}

proof fn lemma_findings_of(
    outcome: LintOutcome,
    expansions: Map<Seq<char>, RecordView>,
    root: Seq<char>,
    uri: Seq<char>,
    n: int,
)
    requires
        0 < n,
    ensures
        findings_of(outcome, expansions, root, uri, n) == (if is_found_in(
            outcome,
            expansions,
            root,
            uri,
            n - 1,
        ) {
            findings_of(outcome, expansions, root, uri, n - 1).push(shown_finding(outcome, n - 1))
        } else {
            findings_of(outcome, expansions, root, uri, n - 1)
        }),
{
    lemma_picked(
        n,
        |i: int| is_found_in(outcome, expansions, root, uri, i),
        |i: int| shown_finding(outcome, i),
    );
}

spec fn entry(sheet: Map<Seq<char>, Seq<DiagnosticView>>, uri: Seq<char>) -> Seq<DiagnosticView> {
    if sheet.contains_key(uri) {
        sheet[uri]
    } else {
        seq![]
    }
}

proof fn lemma_rules(
    outcome: LintOutcome,
    expansions: Map<Seq<char>, RecordView>,
    root: Seq<char>,
    n: int,
)
    requires
        outcome.wf(),
        0 <= n <= outcome.findings@.len(),
    ensures
        ({
            let sheet = reported_all(
                Map::empty(),
                located_views(outcome.findings@),
                outcome.mappings@,
                expansions[root].source_texts,
                n,
            );
            &&& sheet.dom().finite()
            &&& forall|uri: Seq<char>| #[trigger]
                entry(sheet, uri) == findings_of(outcome, expansions, root, uri, n)
            &&& forall|uri: Seq<char>| #[trigger]
                sheet.contains_key(uri) ==> findings_of(outcome, expansions, root, uri, n).len() > 0
        }),
    decreases n,
{
    let texts = expansions[root].source_texts;
    let views = located_views(outcome.findings@);
    let sheet = reported_all(Map::empty(), views, outcome.mappings@, texts, n);
    if n > 0 {
        lemma_rules(outcome, expansions, root, n - 1);
        let before = reported_all(Map::empty(), views, outcome.mappings@, texts, n - 1);
        assert(views[n - 1] == outcome.findings@[n - 1]@);
        assert forall|uri: Seq<char>| #[trigger] entry(sheet, uri) == findings_of(
            outcome,
            expansions,
            root,
            uri,
            n,
        ) && (sheet.contains_key(uri) ==> entry(sheet, uri).len() > 0) by {
            lemma_findings_of(outcome, expansions, root, uri, n);
            assert(entry(before, uri) == findings_of(outcome, expansions, root, uri, n - 1));
            if before.contains_key(uri) {
                assert(findings_of(outcome, expansions, root, uri, n - 1).len() > 0);
            }
        }
        assert forall|uri: Seq<char>| #[trigger] sheet.contains_key(uri) implies findings_of(
            outcome,
            expansions,
            root,
            uri,
            n,
        ).len() > 0 by {
            assert(entry(sheet, uri).len() > 0);
        }
    } else {
        assert forall|uri: Seq<char>| #[trigger] entry(sheet, uri) == findings_of(
            outcome,
            expansions,
            root,
            uri,
            0,
        ) by {
            lemma_none_picked(
                |i: int| is_found_in(outcome, expansions, root, uri, i),
                |i: int| shown_finding(outcome, i),
            );
        }
    }
}

proof fn lemma_claims(
    outcome: LintOutcome,
    expansions: Map<Seq<char>, RecordView>,
    root: Seq<char>,
    n: int,
)
    requires
        outcome.wf(),
        expansions.contains_key(root),
        0 <= n <= outcome.claims@.len(),
    ensures
        ({
            let rules = outcome.findings@.len() as int;
            let sheet = reported_claims(
                reported_all(
                    Map::empty(),
                    located_views(outcome.findings@),
                    outcome.mappings@,
                    expansions[root].source_texts,
                    rules,
                ),
                located_views(outcome.claims@),
                outcome.claim_mappings@,
                outcome.claimants@,
                expansions,
                root,
                n,
            );
            &&& sheet.dom().finite()
            &&& forall|uri: Seq<char>| #[trigger]
                entry(sheet, uri) == findings_of(outcome, expansions, root, uri, rules + n)
            &&& forall|uri: Seq<char>| #[trigger]
                sheet.contains_key(uri) ==> findings_of(
                    outcome,
                    expansions,
                    root,
                    uri,
                    rules + n,
                ).len() > 0
        }),
    decreases n,
{
    let rules = outcome.findings@.len() as int;
    let texts = expansions[root].source_texts;
    let local = reported_all(
        Map::empty(),
        located_views(outcome.findings@),
        outcome.mappings@,
        texts,
        rules,
    );
    let views = located_views(outcome.claims@);
    lemma_rules(outcome, expansions, root, rules);
    if n > 0 {
        lemma_claims(outcome, expansions, root, n - 1);
        let before = reported_claims(
            local,
            views,
            outcome.claim_mappings@,
            outcome.claimants@,
            expansions,
            root,
            n - 1,
        );
        let sheet = reported_claims(
            local,
            views,
            outcome.claim_mappings@,
            outcome.claimants@,
            expansions,
            root,
            n,
        );
        assert(views[n - 1] == outcome.claims@[n - 1]@);
        assert forall|uri: Seq<char>| #[trigger] entry(sheet, uri) == findings_of(
            outcome,
            expansions,
            root,
            uri,
            rules + n,
        ) && (sheet.contains_key(uri) ==> entry(sheet, uri).len() > 0) by {
            lemma_findings_of(outcome, expansions, root, uri, rules + n);
            assert(entry(before, uri) == findings_of(
                outcome,
                expansions,
                root,
                uri,
                rules + n - 1,
            ));
            if before.contains_key(uri) {
                assert(findings_of(outcome, expansions, root, uri, rules + n - 1).len() > 0);
            }
        }
        assert forall|uri: Seq<char>| #[trigger] sheet.contains_key(uri) implies findings_of(
            outcome,
            expansions,
            root,
            uri,
            rules + n,
        ).len() > 0 by {
            assert(entry(sheet, uri).len() > 0);
        }
    }
}

/// The documents that publications are of.
pub open spec fn documents_of(publications: Seq<PublicationView>) -> Seq<Seq<char>> {
    publications.map_values(|p: PublicationView| p.uri)
}

/// The publications of a run that ends: they ascend by document, there is one for the document
/// itself and for each other that a finding lies in, each is of the document's version, and it
/// holds the findings of the rules that lie in the document and then the claims that do and
/// that no other expansion contests, in their order and nothing else.
pub proof fn law_findings_are_published_where_they_lie(
    run: RunView,
    key: KeyView,
    outcome: LintOutcome,
    expansions: Map<Seq<char>, RecordView>,
    open: Map<Seq<char>, DocumentView>,
)
    requires
        outcome.wf(),
        expansions.contains_key(run.uri),
        expansions[run.uri].context_key == key,
    ensures
        linted_step(run, key, outcome, expansions, open).1 is Publish,
        sorted_keys(
            documents_of(linted_step(run, key, outcome, expansions, open).1->Publish_0),
        ),
        forall|uri: Seq<char>| #[trigger]
            documents_of(linted_step(run, key, outcome, expansions, open).1->Publish_0).contains(uri) <==> uri == run.uri || findings_of(
                outcome,
                expansions,
                run.uri,
                uri,
                (outcome.findings@.len() + outcome.claims@.len()) as int,
            ).len() > 0,
        forall|i: int|
            0 <= i < linted_step(run, key, outcome, expansions, open).1->Publish_0.len() ==> {
                let p = #[trigger] linted_step(run, key, outcome, expansions, open).1->Publish_0[i];
                &&& p.version == (if open.contains_key(p.uri) {
                    Some(open[p.uri].version)
                } else {
                    None
                })
                &&& p.diagnostics == findings_of(
                    outcome,
                    expansions,
                    run.uri,
                    p.uri,
                    (outcome.findings@.len() + outcome.claims@.len()) as int,
                )
            },
{
    let n = outcome.findings@.len() + outcome.claims@.len();
    let sheet = sheet_of(outcome, expansions, run.uri);
    let pubs = linted_step(run, key, outcome, expansions, open).1->Publish_0;
    let uris = documents_of(pubs);
    lemma_claims(outcome, expansions, run.uri, outcome.claims@.len() as int);
    let all = reported_claims(
        reported_all(
            Map::empty(),
            located_views(outcome.findings@),
            outcome.mappings@,
            expansions[run.uri].source_texts,
            outcome.findings@.len() as int,
        ),
        located_views(outcome.claims@),
        outcome.claim_mappings@,
        outcome.claimants@,
        expansions,
        run.uri,
        outcome.claims@.len() as int,
    );
    assert(pubs == sheet_publications(sheet, open));
    let keys = in_order(sheet.dom());
    lemma_finite_set_has_order(sheet.dom());
    assert(uris =~= keys);
    assert forall|uri: Seq<char>| #[trigger] uris.contains(uri) <==> uri == run.uri || findings_of(
        outcome,
        expansions,
        run.uri,
        uri,
        n as int,
    ).len() > 0 by {
        assert(keys.to_set().contains(uri) <==> sheet.dom().contains(uri));
        assert(entry(all, uri) == findings_of(outcome, expansions, run.uri, uri, n as int));
        if all.contains_key(uri) {
        }
    }
    assert forall|i: int| 0 <= i < pubs.len() implies {
        let p = #[trigger] pubs[i];
        &&& p.version == (if open.contains_key(p.uri) {
            Some(open[p.uri].version)
        } else {
            None
        })
        &&& p.diagnostics == findings_of(outcome, expansions, run.uri, p.uri, n as int)
    } by {
        let uri = keys[i];
        assert(keys.to_set().contains(uri));
        assert(entry(all, uri) == findings_of(outcome, expansions, run.uri, uri, n as int));
    }
}

proof fn lemma_found(
    outcome: LintOutcome,
    expansions: Map<Seq<char>, RecordView>,
    root: Seq<char>,
    uri: Seq<char>,
    i: int,
    n: int,
)
    requires
        0 <= i < n,
        is_found_in(outcome, expansions, root, uri, i),
    ensures
        findings_of(outcome, expansions, root, uri, n).contains(shown_finding(outcome, i)),
    decreases n,
{
    let list = findings_of(outcome, expansions, root, uri, n);
    let before = findings_of(outcome, expansions, root, uri, n - 1);
    lemma_findings_of(outcome, expansions, root, uri, n);
    if i == n - 1 {
        assert(list[list.len() - 1] == shown_finding(outcome, i));
    } else {
        lemma_found(outcome, expansions, root, uri, i, n - 1);
        let k = choose|k: int| 0 <= k < before.len() && before[k] == shown_finding(outcome, i);
        assert(list[k] == shown_finding(outcome, i));
    }
}

/// One of the publications is of the document and holds the finding.
pub open spec fn is_published(
    publications: Seq<PublicationView>,
    uri: Seq<char>,
    finding: DiagnosticView,
) -> bool {
    exists|i: int|
        0 <= i < publications.len() && (#[trigger] publications[i]).uri == uri
            && publications[i].diagnostics.contains(finding)
}

/// A finding of the rules is published for the document that it lies in, with its range, code
/// and message. So is a claim, unless another expansion has a range there or, where the
/// document takes the text in, one was not expanded to its end. When there is no other
/// expansion, every claim that lies in a document is published.
pub proof fn law_what_lies_in_a_document_is_published(
    run: RunView,
    key: KeyView,
    outcome: LintOutcome,
    expansions: Map<Seq<char>, RecordView>,
    open: Map<Seq<char>, DocumentView>,
    uri: Seq<char>,
    i: int,
)
    requires
        outcome.wf(),
        expansions.contains_key(run.uri),
        expansions[run.uri].context_key == key,
    ensures
        ({
            let list = linted_step(run, key, outcome, expansions, open).1->Publish_0;
            let texts = expansions[run.uri].source_texts;
            &&& 0 <= i < outcome.findings@.len() && lies_in(outcome.mappings@[i], texts, uri)
                ==> is_published(
                list,
                uri,
                shown_as(outcome.findings@[i]@, outcome.mappings@[i]),
            )
            &&& 0 <= i < outcome.claims@.len() && lies_in(outcome.claim_mappings@[i], texts, uri)
                && (forall|other: Seq<char>| #[trigger]
                expansions.contains_key(other) && other != run.uri
                    ==> !outcome.claimants@[i]@.contains(other) && expansions[other].complete)
                ==> is_published(
                list,
                uri,
                shown_as(outcome.claims@[i]@, outcome.claim_mappings@[i]),
            )
            &&& 0 <= i < outcome.claims@.len() && lies_in(outcome.claim_mappings@[i], texts, uri)
                && (forall|other: Seq<char>| #[trigger]
                expansions.contains_key(other) ==> other == run.uri) ==> is_published(
                list,
                uri,
                shown_as(outcome.claims@[i]@, outcome.claim_mappings@[i]),
            )
        }),
{
    law_findings_are_published_where_they_lie(run, key, outcome, expansions, open);
    let list = linted_step(run, key, outcome, expansions, open).1->Publish_0;
    let uris = documents_of(list);
    let rules = outcome.findings@.len() as int;
    let n = rules + outcome.claims@.len();
    assert forall|k: int|
        0 <= k < n && #[trigger] is_found_in(
            outcome,
            expansions,
            run.uri,
            uri,
            k,
        ) implies is_published(list, uri, shown_finding(outcome, k)) by {
        lemma_found(outcome, expansions, run.uri, uri, k, n);
        assert(uris.contains(uri));
        let at = choose|at: int| 0 <= at < uris.len() && uris[at] == uri;
        assert(list[at].uri == uri);
    }
    if 0 <= i < rules {
        assert(is_found_in(outcome, expansions, run.uri, uri, i) == lies_in(
            outcome.mappings@[i],
            expansions[run.uri].source_texts,
            uri,
        ));
    }
    if 0 <= i < outcome.claims@.len() {
        assert(is_found_in(outcome, expansions, run.uri, uri, rules + i) == (lies_in(
            outcome.claim_mappings@[i],
            expansions[run.uri].source_texts,
            uri,
        ) && !contested(expansions, run.uri, uri, outcome.claimants@[i]@)));
    }
}

/// What a claim says does not matter where another expansion has a range at its place: the
/// publications are those without it.
pub proof fn law_a_contested_claim_adds_nothing(
    run: RunView,
    key: KeyView,
    outcome: LintOutcome,
    other: LintOutcome,
    claimant: Seq<char>,
    expansions: Map<Seq<char>, RecordView>,
    open: Map<Seq<char>, DocumentView>,
)
    requires
        outcome.wf(),
        other.wf(),
        outcome.claims@.len() == other.claims@.len() + 1,
        other.findings@ == outcome.findings@,
        other.mappings@ == outcome.mappings@,
        other.claims@ == outcome.claims@.drop_last(),
        other.claim_mappings@ == outcome.claim_mappings@.drop_last(),
        other.claimants@ == outcome.claimants@.drop_last(),
        expansions.contains_key(claimant),
        claimant != run.uri,
        outcome.claimants@.last()@.contains(claimant),
    ensures
        linted_step(run, key, outcome, expansions, open) == linted_step(
            run,
            key,
            other,
            expansions,
            open,
        ),
{
    let n = other.claims@.len() as int;
    if expansions.contains_key(run.uri) && expansions[run.uri].context_key == key {
        let local = reported_all(
            Map::empty(),
            located_views(outcome.findings@),
            outcome.mappings@,
            expansions[run.uri].source_texts,
            outcome.findings@.len() as int,
        );
        lemma_same_claims(local, outcome, other, expansions, run.uri, n);
    }
}

proof fn lemma_same_claims(
    local: Map<Seq<char>, Seq<DiagnosticView>>,
    outcome: LintOutcome,
    other: LintOutcome,
    expansions: Map<Seq<char>, RecordView>,
    root: Seq<char>,
    n: int,
)
    requires
        outcome.wf(),
        other.wf(),
        outcome.claims@.len() == other.claims@.len() + 1,
        other.claims@ == outcome.claims@.drop_last(),
        other.claim_mappings@ == outcome.claim_mappings@.drop_last(),
        other.claimants@ == outcome.claimants@.drop_last(),
        0 <= n <= other.claims@.len(),
    ensures
        reported_claims(
            local,
            located_views(outcome.claims@),
            outcome.claim_mappings@,
            outcome.claimants@,
            expansions,
            root,
            n,
        ) == reported_claims(
            local,
            located_views(other.claims@),
            other.claim_mappings@,
            other.claimants@,
            expansions,
            root,
            n,
        ),
    decreases n,
{
    if n > 0 {
        lemma_same_claims(local, outcome, other, expansions, root, n - 1);
        assert(located_views(outcome.claims@)[n - 1] == located_views(other.claims@)[n - 1]);
        assert(outcome.claim_mappings@[n - 1] == other.claim_mappings@[n - 1]);
        assert(outcome.claimants@[n - 1] == other.claimants@[n - 1]);
    }
}

/// The bytes of the expanded text between the two places of a finding of the rules, the second
/// no earlier than the first.
pub open spec fn spans(
    finding: LintFinding,
    text: Seq<char>,
    raw: Seq<int>,
    start: int,
    end: int,
) -> bool {
    let from = byte_offset_of(text, finding.line as int, finding.column as int);
    let to = byte_offset_of(text, finding.end_line as int, finding.end_column as int);
    &&& from is Some && to is Some
    &&& 0 <= from->0 < raw.len() && 0 <= to->0 < raw.len()
    &&& start == raw[from->0]
    &&& end == (if from->0 <= to->0 {
        raw[to->0]
    } else {
        raw[from->0]
    })
}

/// A finding of the rules is kept: it is on something, and on nothing of which it is not known
/// whether it is compiled.
pub open spec fn is_located(
    finding: LintFinding,
    text: Seq<char>,
    raw: Seq<int>,
    unknown: Seq<(int, int)>,
) -> bool {
    exists|start: int, end: int|
        #![trigger spans(finding, text, raw, start, end)]
        spans(finding, text, raw, start, end) && start < end && forall|k: int|
            0 <= k < unknown.len() ==> (#[trigger] unknown[k]).1 <= start || end <= unknown[k].0
}

/// How a finding of the rules is kept.
pub open spec fn located_as(finding: LintFinding, text: Seq<char>, raw: Seq<int>) -> LocatedView {
    LocatedView {
        start: raw[byte_offset_of(text, finding.line as int, finding.column as int)->0],
        end: raw[byte_offset_of(text, finding.end_line as int, finding.end_column as int)->0],
        severity: finding.severity,
        code: finding.rule@,
        source: LINT_SOURCE@,
        message: finding.message@,
    }
}

/// Of the findings of the rules exactly those are kept that are on something and on nothing of
/// unknown fate, each with its own range, rule and message, in their order.
pub proof fn law_findings_on_something_are_kept(
    findings: Seq<LintFinding>,
    text: Seq<char>,
    raw: Seq<int>,
    unknown: Seq<(int, int)>,
    n: int,
)
    requires
        0 <= n <= findings.len(),
    ensures
        located(findings, text, raw, unknown, n) == picked(
            n,
            |i: int| is_located(findings[i], text, raw, unknown),
            |i: int| located_as(findings[i], text, raw),
        ),
    decreases n,
{
    let keep = |i: int| is_located(findings[i], text, raw, unknown);
    let show = |i: int| located_as(findings[i], text, raw);
    if n == 0 {
        lemma_none_picked(keep, show);
    } else {
        law_findings_on_something_are_kept(findings, text, raw, unknown, n - 1);
        lemma_picked(n, keep, show);
        let finding = findings[n - 1];
        let from = byte_offset_of(text, finding.line as int, finding.column as int);
        let to = byte_offset_of(text, finding.end_line as int, finding.end_column as int);
        if from is Some && to is Some && 0 <= from->0 < raw.len() && 0 <= to->0 < raw.len() {
            let end = if from->0 <= to->0 {
                raw[to->0]
            } else {
                raw[from->0]
            };
            assert(spans(finding, text, raw, raw[from->0], end));
        }
    }
}

/// Of the claims exactly those are kept that are on something within the text, as errors of
/// the server under the code of what they claim, in their order.
pub proof fn law_claims_within_the_text_are_kept(
    findings: Seq<SemanticFinding>,
    length: int,
    n: int,
)
    requires
        0 <= n <= findings.len(),
    ensures
        located_claims(findings, length, n) == picked(
            n,
            |i: int| findings[i].start < findings[i].end && findings[i].end <= length,
            |i: int|
                (LocatedView {
                    start: findings[i].start as int,
                    end: findings[i].end as int,
                    severity: Severity::Error,
                    code: findings[i].kind.text(),
                    source: SERVER_SOURCE@,
                    message: findings[i].message@,
                }),
        ),
    decreases n,
{
    let keep = |i: int| findings[i].start < findings[i].end && findings[i].end <= length;
    let show = |i: int|
        (LocatedView {
            start: findings[i].start as int,
            end: findings[i].end as int,
            severity: Severity::Error,
            code: findings[i].kind.text(),
            source: SERVER_SOURCE@,
            message: findings[i].message@,
        });
    if n == 0 {
        lemma_none_picked(keep, show);
    } else {
        law_claims_within_the_text_are_kept(findings, length, n - 1);
        lemma_picked(n, keep, show);
    }
}

} // verus!
