//! What is reported for a document that several analyses name.

use vstd::prelude::*;

use crate::documents::DocumentView;
use crate::limits::MAX_OPEN_DOCUMENTS;
use crate::publications::{
    aggregate_list, aggregate_one, aggregate_roots, aggregated, current_owner, has_encoded,
    proposal, stale_owner, target_bytes, target_count, targets_of, updates_for, uri_bytes,
    Aggregate, DiagnosticPublicationReplacement, DiagnosticView, PublicationView, Publications,
    Report, MAX_DIAGNOSTIC_PUBLICATION_AGGREGATE_VISITS,
    MAX_PENDING_DIAGNOSTIC_PUBLICATION_TARGETS, MAX_PENDING_DIAGNOSTIC_PUBLICATION_URI_BYTES,
    MAX_PUBLISHED_DIAGNOSTICS, MAX_PUBLISHED_DIAGNOSTIC_BYTES, MAX_PUBLISHED_DIAGNOSTIC_URI_BYTES,
    MAX_RETAINED_DIAGNOSTIC_PUBLICATION_TARGETS, MAX_RETAINED_DIAGNOSTIC_PUBLICATION_URI_BYTES,
};
use crate::strings::byte_len;
use crate::strmap::in_order;

verus! {

proof fn lemma_still_there(list: Seq<DiagnosticView>, more: DiagnosticView, form: Seq<u8>)
    requires
        has_encoded(list, form),
    ensures
        has_encoded(list.push(more), form),
{
    let i = choose|i: int| 0 <= i < list.len() && #[trigger] list[i].encoded() == Some(form);
    assert(list.push(more)[i].encoded() == Some(form));
}

proof fn lemma_list_is_whole(a: Aggregate, list: Seq<DiagnosticView>, n: int, form: Seq<u8>)
    requires
        0 <= n <= list.len(),
        aggregate_list(a, list, n) is Some,
    ensures
        has_encoded(a.diagnostics, form) ==> has_encoded(
            aggregate_list(a, list, n)->0.diagnostics,
            form,
        ),
        forall|i: int|
            0 <= i < n && (#[trigger] list[i]).encoded() == Some(form) ==> has_encoded(
                aggregate_list(a, list, n)->0.diagnostics,
                form,
            ),
        forall|i: int| 0 <= i < n ==> (#[trigger] list[i]).encoded() is Some,
    decreases n,
{
    if n > 0 {
        lemma_list_is_whole(a, list, n - 1, form);
        let before = aggregate_list(a, list, n - 1)->0;
        let after = aggregate_one(before, list[n - 1])->0;
        if has_encoded(before.diagnostics, form) {
            lemma_still_there(before.diagnostics, list[n - 1], form);
        }
        if list[n - 1].encoded() == Some(form) && !has_encoded(before.diagnostics, form) {
            assert(after.diagnostics[before.diagnostics.len() as int].encoded() == Some(form));
        }
        assert forall|i: int|
            0 <= i < n && (#[trigger] list[i]).encoded() == Some(form) implies has_encoded(
            after.diagnostics,
            form,
        ) by {
            if i < n - 1 {
                assert(has_encoded(before.diagnostics, form));
            }
        }
    }
}

proof fn lemma_roots_are_whole(
    reports: Map<Seq<char>, Report>,
    stale: Set<Seq<char>>,
    roots: Seq<Seq<char>>,
    uri: Seq<char>,
    n: int,
    k: int,
    form: Seq<u8>,
)
    requires
        0 <= k < n <= roots.len(),
        aggregate_roots(reports, stale, roots, uri, n) is Some,
        current_owner(reports, stale, roots[k], uri),
        has_encoded(reports[roots[k]][uri], form),
    ensures
        has_encoded(aggregate_roots(reports, stale, roots, uri, n)->0.diagnostics, form),
    decreases n,
{
    let before = aggregate_roots(reports, stale, roots, uri, n - 1)->0;
    let list = reports[roots[n - 1]][uri];
    if k < n - 1 {
        lemma_roots_are_whole(reports, stale, roots, uri, n - 1, k, form);
        if current_owner(reports, stale, roots[n - 1], uri) {
            lemma_list_is_whole(before, list, list.len() as int, form);
        }
    } else {
        lemma_list_is_whole(before, list, list.len() as int, form);
        let i = choose|i: int| 0 <= i < list.len() && #[trigger] list[i].encoded() == Some(form);
        assert(list[i].encoded() == Some(form));
    }
}

/// What is reported for a document holds, up to what is the same to the client, every finding
/// that a current report has for it. Nothing is reported where only reports that do not hold
/// any more name it, or where there are too many findings; and something is said to be missing
/// exactly then, or where such a report names it too.
pub proof fn law_every_current_finding_is_reported(
    reports: Map<Seq<char>, Report>,
    stale: Set<Seq<char>>,
    roots: Seq<Seq<char>>,
    uri: Seq<char>,
    root: Seq<char>,
    i: int,
)
    requires
        roots.contains(root),
    ensures
        ({
            let (found, missing) = aggregated(reports, stale, roots, uri);
            let named = reports.contains_key(root) && reports[root].contains_key(uri);
            &&& found is Some && named && !stale.contains(root) && 0 <= i < reports[root][uri].len()
                && reports[root][uri][i].encoded() is Some ==> has_encoded(
                found->0,
                reports[root][uri][i].encoded()->0,
            )
            &&& named && stale.contains(root) ==> missing
            &&& found is None ==> missing
            &&& missing && found is Some ==> exists|other: Seq<char>| #[trigger]
                roots.contains(other) && stale_owner(reports, stale, other, uri)
        }),
{
    let found = aggregated(reports, stale, roots, uri).0;
    let k = choose|k: int| 0 <= k < roots.len() && roots[k] == root;
    let named = reports.contains_key(root) && reports[root].contains_key(uri);
    if named && stale.contains(root) {
        assert(roots.contains(root) && stale_owner(reports, stale, root, uri));
    }
    if found is Some && named && !stale.contains(root) && 0 <= i < reports[root][uri].len()
        && reports[root][uri][i].encoded() is Some {
        let form = reports[root][uri][i].encoded()->0;
        assert(has_encoded(reports[root][uri], form));
        lemma_roots_are_whole(reports, stale, roots, uri, roots.len() as int, k, form);
    }
}

/// The findings that the first `n` publications have for a document, in their order.
pub open spec fn findings_for(publications: Seq<PublicationView>, uri: Seq<char>, n: int) -> Seq<
    DiagnosticView,
>
    decreases n,
{
    if n <= 0 {
        seq![]
    } else if publications[n - 1].uri == uri {
        findings_for(publications, uri, n - 1) + publications[n - 1].diagnostics
    } else {
        findings_for(publications, uri, n - 1)
    }
}

/// The report that publications make up names exactly the documents that they are of, with all
/// findings that they have for each.
pub proof fn law_a_report_is_what_was_published(
    publications: Seq<PublicationView>,
    uri: Seq<char>,
    n: int,
)
    requires
        0 <= n <= publications.len(),
        proposal(publications, n) is Some,
    ensures
        proposal(publications, n)->0.contains_key(uri) <==> exists|i: int|
            0 <= i < n && (#[trigger] publications[i]).uri == uri,
        proposal(publications, n)->0.contains_key(uri) ==> proposal(publications, n)->0[uri]
            == findings_for(publications, uri, n),
        !proposal(publications, n)->0.contains_key(uri) ==> findings_for(publications, uri, n).len()
            == 0,
    decreases n,
{
    if n > 0 {
        law_a_report_is_what_was_published(publications, uri, n - 1);
        let before = proposal(publications, n - 1)->0;
        let last = publications[n - 1];
        if last.uri == uri {
            assert(publications[n - 1].uri == uri);
            if !before.contains_key(uri) {
                assert(findings_for(publications, uri, n - 1) =~= seq![]);
                assert(Seq::<DiagnosticView>::empty() + last.diagnostics =~= last.diagnostics);
            }
        }
        if exists|i: int| 0 <= i < n && (#[trigger] publications[i]).uri == uri {
            let i = choose|i: int| 0 <= i < n && (#[trigger] publications[i]).uri == uri;
            if i < n - 1 {
                assert(publications[i].uri == uri);
            }
        }
    }
}

/// What is sent for documents is, in their order, one report for each of those that have one,
/// in the version that is open, with what their reports come to.
pub proof fn law_one_report_is_sent_for_each_document(
    reports: Map<Seq<char>, Report>,
    stale: Set<Seq<char>>,
    documents: Map<Seq<char>, DocumentView>,
    targets: Seq<Seq<char>>,
    n: int,
)
    requires
        0 <= n <= targets.len(),
    ensures
        forall|i: int|
            0 <= i < n && aggregated(
                reports,
                stale,
                in_order(reports.dom()),
                #[trigger] targets[i],
            ).0 is Some ==> is_sent(
                updates_for(reports, stale, documents, targets, n),
                targets[i],
                documents,
                aggregated(reports, stale, in_order(reports.dom()), targets[i]).0->0,
            ),
        forall|k: int|
            0 <= k < updates_for(reports, stale, documents, targets, n).len() ==> {
                let p = #[trigger] updates_for(reports, stale, documents, targets, n)[k];
                &&& targets.contains(p.uri)
                &&& aggregated(reports, stale, in_order(reports.dom()), p.uri).0 == Some(
                    p.diagnostics,
                )
                &&& p.version == (if documents.contains_key(p.uri) {
                    Some(documents[p.uri].version)
                } else {
                    None
                })
            },
        updates_for(reports, stale, documents, targets, n).len() <= n,
    decreases n,
{
    if n > 0 {
        law_one_report_is_sent_for_each_document(reports, stale, documents, targets, n - 1);
        let before = updates_for(reports, stale, documents, targets, n - 1);
        let after = updates_for(reports, stale, documents, targets, n);
        let roots = in_order(reports.dom());
        assert forall|i: int|
            0 <= i < n && aggregated(reports, stale, roots, #[trigger] targets[i]).0 is Some implies is_sent(
        after, targets[i], documents, aggregated(reports, stale, roots, targets[i]).0->0) by {
            let findings = aggregated(reports, stale, roots, targets[i]).0->0;
            if i < n - 1 {
                assert(is_sent(before, targets[i], documents, findings));
                let k = choose|k: int|
                    0 <= k < before.len() && (#[trigger] before[k]).uri == targets[i]
                        && before[k].diagnostics == findings && before[k].version == (
                    if documents.contains_key(targets[i]) {
                        Some(documents[targets[i]].version)
                    } else {
                        None
                    });
                assert(after[k] == before[k]);
            } else {
                assert(after[before.len() as int].uri == targets[i]);
            }
        }
        assert forall|k: int| 0 <= k < after.len() implies {
            let p = #[trigger] after[k];
            &&& targets.contains(p.uri)
            &&& aggregated(reports, stale, roots, p.uri).0 == Some(p.diagnostics)
            &&& p.version == (if documents.contains_key(p.uri) {
                Some(documents[p.uri].version)
            } else {
                None
            })
        } by {
            if k < before.len() {
                assert(after[k] == before[k]);
            } else {
                assert(after[k].uri == targets[n - 1]);
            }
        }
    }
}

/// One of the reports is for a document, in the version that is open, with these findings.
pub open spec fn is_sent(
    list: Seq<PublicationView>,
    uri: Seq<char>,
    documents: Map<Seq<char>, DocumentView>,
    findings: Seq<DiagnosticView>,
) -> bool {
    exists|k: int|
        0 <= k < list.len() && (#[trigger] list[k]).uri == uri && list[k].diagnostics == findings
            && list[k].version == (if documents.contains_key(uri) {
            Some(documents[uri].version)
        } else {
            None
        })
}

/// What an analysis publishes takes the place of what it published before, and the reports of
/// other analyses stay. Where it is more than can be kept, the former report stays, does not
/// count as current, and something is said to be missing.
pub proof fn law_a_new_report_takes_the_place_of_the_old(
    before: &Publications,
    after: &Publications,
    r: DiagnosticPublicationReplacement,
    documents: Map<Seq<char>, DocumentView>,
    root: Seq<char>,
    publications: Seq<PublicationView>,
    staged: bool,
    other: Seq<char>,
)
    requires
        Publications::replaced(
            before,
            after,
            r,
            documents,
            root,
            publications,
            staged,
        ),
        other != root,
    ensures
        after@.contains_key(other) == before@.contains_key(other),
        before@.contains_key(other) ==> after@[other] == before@[other],
        after.incomplete_roots@.contains(other) == before.incomplete_roots@.contains(other),
        before.replacement(root, publications, staged) is Some ==> {
            &&& after@.contains_key(root)
            &&& Some(after@[root]) == proposal(publications, publications.len() as int)
            &&& !after.incomplete_roots@.contains(root)
            &&& staged ==> r.updates@.len() == 0 && !r.incomplete && forall|uri: Seq<char>| #[trigger]
                after@[root].contains_key(uri) ==> after.pending_targets@.contains(uri)
        },
        before.replacement(root, publications, staged) is None ==> {
            &&& r.incomplete && r.updates@.len() == 0
            &&& after@ == before@
            &&& before@.contains_key(root) ==> after.incomplete_roots@.contains(root)
        },
{
}

/// A publication is taken up into a report exactly where its URI is not too long and, for a
/// document that the report does not name yet, where there is room for one more.
pub proof fn law_when_a_publication_is_taken_up(publications: Seq<PublicationView>, n: int)
    requires
        0 < n <= publications.len(),
    ensures
        ({
            let before = proposal(publications, n - 1);
            let uri = publications[n - 1].uri;
            proposal(publications, n) is Some <==> before is Some && byte_len(uri)
                <= MAX_PUBLISHED_DIAGNOSTIC_URI_BYTES && (before->0.contains_key(uri) || (
            before->0.dom().len() < MAX_RETAINED_DIAGNOSTIC_PUBLICATION_TARGETS && uri_bytes(
                before->0.dom(),
            ) + byte_len(uri) <= MAX_RETAINED_DIAGNOSTIC_PUBLICATION_URI_BYTES))
        }),
        proposal(publications, 0) == Some(Map::<Seq<char>, Seq<DiagnosticView>>::empty()),
{
}

/// A finding is taken up exactly where it can be sent and where it is there already or there is
/// room for it; it is there then.
pub proof fn law_when_a_finding_is_taken_up(a: Aggregate, d: DiagnosticView)
    requires
        a.visits < MAX_DIAGNOSTIC_PUBLICATION_AGGREGATE_VISITS,
    ensures
        ({
            let after = aggregate_one(a, d);
            let form = d.encoded();
            &&& after is Some <==> form is Some && (has_encoded(a.diagnostics, form->0) || (
            a.diagnostics.len() < MAX_PUBLISHED_DIAGNOSTICS && a.bytes + form->0.len()
                <= MAX_PUBLISHED_DIAGNOSTIC_BYTES))
            &&& after is Some ==> has_encoded(after->0.diagnostics, form->0)
            &&& after is Some && has_encoded(a.diagnostics, form->0) ==> after->0.diagnostics
                == a.diagnostics && after->0.bytes == a.bytes
            &&& after is Some && !has_encoded(a.diagnostics, form->0) ==> after->0.diagnostics
                == a.diagnostics.push(d) && after->0.bytes == a.bytes + form->0.len()
        }),
{
    let after = aggregate_one(a, d);
    if after is Some && !has_encoded(a.diagnostics, d.encoded()->0) {
        assert(after->0.diagnostics[a.diagnostics.len() as int].encoded() == d.encoded());
    }
}

/// A report is kept exactly where the documents that it touches, those of all reports together
/// and, for one that waits, those of the queue are no more than may be kept, by number and by
/// the bytes of their URIs; it is then what was published.
pub proof fn law_when_a_report_is_kept(
    before: &Publications,
    root: Seq<char>,
    publications: Seq<PublicationView>,
    staged: bool,
)
    ensures
        ({
            let whole = proposal(publications, publications.len() as int);
            let kept = before.replacement(root, publications, staged);
            let known = before@.contains_key(root);
            let touched = if known {
                before@[root].dom().union(whole->0.dom())
            } else {
                whole->0.dom()
            };
            let others = before@.remove(root);
            let queue = before.pending_targets@.union(touched);
            &&& kept is Some ==> kept == whole
            &&& kept is Some <==> {
                &&& whole is Some
                &&& known || before@.dom().len() < MAX_OPEN_DOCUMENTS
                &&& touched.len() <= MAX_RETAINED_DIAGNOSTIC_PUBLICATION_TARGETS
                &&& uri_bytes(touched) <= MAX_RETAINED_DIAGNOSTIC_PUBLICATION_URI_BYTES
                &&& target_count(others) + whole->0.dom().len()
                    <= MAX_RETAINED_DIAGNOSTIC_PUBLICATION_TARGETS
                &&& target_bytes(others) + uri_bytes(whole->0.dom())
                    <= MAX_RETAINED_DIAGNOSTIC_PUBLICATION_URI_BYTES
                &&& staged ==> queue.len() <= MAX_PENDING_DIAGNOSTIC_PUBLICATION_TARGETS
                    && uri_bytes(queue) <= MAX_PENDING_DIAGNOSTIC_PUBLICATION_URI_BYTES
            }
        }),
{
    let whole = proposal(publications, publications.len() as int);
    if whole is Some && !before@.contains_key(root) {
        assert(targets_of(before@, root).union(whole->0.dom()) =~= whole->0.dom());
    }
}

} // verus!
