//! The diagnostics that have been reported, by the document they were found from and
//! the document they were reported for.

use vstd::prelude::*;

use crate::documents::{DocumentView, OpenDocuments};
use crate::limits::MAX_OPEN_DOCUMENTS;
use crate::strings::{byte_len, byte_length, same_str};
use crate::strmap::{
    deep_of, in_order, lemma_deep_insert, lemma_deep_remove, lemma_finite_set_has_order,
    lemma_take_set, StrMap, StrSet,
};
use crate::sums::{lemma_sum_bounds, lemma_sum_insert, lemma_sum_remove, map_sum};
use crate::text::Range;
use crate::uris::optional_text;

verus! {

pub const MAX_PUBLISHED_DIAGNOSTIC_URI_BYTES: usize = 16 * 1024;

pub const MAX_RETAINED_DIAGNOSTIC_PUBLICATION_TARGETS: usize = 20_000;

pub const MAX_RETAINED_DIAGNOSTIC_PUBLICATION_URI_BYTES: usize = 16 * 1024 * 1024;

pub const MAX_PENDING_DIAGNOSTIC_PUBLICATION_TARGETS: usize = 20_000 * 2;

pub const MAX_PENDING_DIAGNOSTIC_PUBLICATION_URI_BYTES: usize = 16 * 1024 * 1024 * 2;

pub const MAX_DIAGNOSTIC_PUBLICATION_AGGREGATE_VISITS: usize = 20_000;

pub const MAX_PUBLISHED_DIAGNOSTICS: usize = 10_000;

pub const MAX_PUBLISHED_DIAGNOSTIC_BYTES: usize = 64 * 1024;

/// How grave a finding is.
#[derive(Clone, Copy, Debug, PartialEq, Eq, Structural)]
pub enum Severity {
    Error,
    Warning,
    Information,
    Hint,
}

/// A finding.
#[derive(Debug, PartialEq)]
pub struct Diagnostic {
    pub range: Range,
    pub severity: Severity,
    pub code: Option<String>,
    pub source: Option<String>,
    pub message: String,
}

/// What a finding stands for.
pub struct DiagnosticView {
    pub range: Range,
    pub severity: Severity,
    pub code: Option<Seq<char>>,
    pub source: Option<Seq<char>>,
    pub message: Seq<char>,
}

/// What `serde_json::to_vec` makes of a finding that stands between two positions, each by
/// its line and character, and has a severity by its number in the protocol.
pub uninterp spec fn finding_json(
    start: (u32, u32),
    end: (u32, u32),
    severity: int,
    code: Option<Seq<char>>,
    source: Option<Seq<char>>,
    message: Seq<char>,
) -> Option<Seq<u8>>;

impl Severity {
    /// The number of the severity in the protocol.
    pub open spec fn number(self) -> int {
        match self {
            Severity::Error => 1,
            Severity::Warning => 2,
            Severity::Information => 3,
            Severity::Hint => 4,
        }
    }
}

impl DiagnosticView {
    /// The form in which the finding goes to the client. Findings with the same form are the
    /// same finding; one that has no form cannot be sent.
    pub open spec fn encoded(self) -> Option<Seq<u8>> {
        finding_json(
            (self.range.start.line, self.range.start.character),
            (self.range.end.line, self.range.end.character),
            self.severity.number(),
            self.code,
            self.source,
            self.message,
        )
    }
}

/// What bytes that may be missing stand for.
pub open spec fn optional_bytes(bytes: Option<Vec<u8>>) -> Option<Seq<u8>> {
    match bytes {
        Some(bytes) => Some(bytes@),
        None => None,
    }
}

/// `serde_json::to_vec` on the `lsp_types::Diagnostic` with the values of a finding and
/// nothing else. The bytes depend on these values alone; which bytes they are is left to the
/// two crates.
#[verifier::external_body]
fn encode(d: &Diagnostic) -> (r: Option<Vec<u8>>)
    ensures
        optional_bytes(r) == finding_json(
            (d@.range.start.line, d@.range.start.character),
            (d@.range.end.line, d@.range.end.character),
            d@.severity.number(),
            d@.code,
            d@.source,
            d@.message,
        ),
{
    let start = lsp_types::Position::new(d.range.start.line, d.range.start.character);
    let end = lsp_types::Position::new(d.range.end.line, d.range.end.character);
    let severity = match d.severity {
        Severity::Error => lsp_types::DiagnosticSeverity::ERROR,
        Severity::Warning => lsp_types::DiagnosticSeverity::WARNING,
        Severity::Information => lsp_types::DiagnosticSeverity::INFORMATION,
        Severity::Hint => lsp_types::DiagnosticSeverity::HINT,
    };
    let code = d.code.clone().map(lsp_types::NumberOrString::String);
    let (range, text) = (lsp_types::Range::new(start, end), d.message.clone());
    let source = d.source.clone();
    let sent = lsp_types::Diagnostic::new(range, Some(severity), code, source, text, None, None);
    serde_json::to_vec(&sent).ok()
}

impl View for Diagnostic {
    type V = DiagnosticView;

    open spec fn view(&self) -> DiagnosticView {
        DiagnosticView {
            range: self.range,
            severity: self.severity,
            code: optional_text(self.code),
            source: optional_text(self.source),
            message: self.message@,
        }
    }
}

fn copy_optional(s: &Option<String>) -> (r: Option<String>)
    ensures
        optional_text(r) == optional_text(*s),
{
    match s {
        Some(s) => Some(s.clone()),
        None => None,
    }
}

/// Whether two lists of bytes are the same.
pub fn same_bytes(a: &Vec<u8>, b: &Vec<u8>) -> (r: bool)
    ensures
        r == (a@ == b@),
{
    if a.len() != b.len() {
        return false;
    }
    let mut i: usize = 0;
    while i < a.len()
        invariant
            a@.len() == b@.len(),
            i <= a@.len(),
            forall|j: int| 0 <= j < i ==> a@[j] == b@[j],
        decreases a@.len() - i,
    {
        if a[i] != b[i] {
            return false;
        }
        i += 1;
    }
    proof {
        assert(a@ =~= b@);
    }
    true
}

impl Diagnostic {
    /// A finding that stands for the same.
    pub fn copy(&self) -> (r: Diagnostic)
        ensures
            r@ == self@,
    {
        Diagnostic {
            range: self.range,
            severity: self.severity,
            code: copy_optional(&self.code),
            source: copy_optional(&self.source),
            message: self.message.clone(),
        }
    }
}

/// What each finding of a list stands for.
pub open spec fn diagnostic_views(list: Seq<Diagnostic>) -> Seq<DiagnosticView> {
    list.map_values(|d: Diagnostic| d@)
}

/// A list of findings.
#[derive(Debug, PartialEq)]
pub struct DiagnosticList {
    pub items: Vec<Diagnostic>,
}

impl View for DiagnosticList {
    type V = Seq<DiagnosticView>;

    open spec fn view(&self) -> Seq<DiagnosticView> {
        diagnostic_views(self.items@)
    }
}

/// The findings of one document, by the document they are reported for.
pub type Report = Map<Seq<char>, Seq<DiagnosticView>>;

/// The findings of one document, by the document they are reported for.
pub struct Reports {
    pub targets: StrMap<DiagnosticList>,
}

impl View for Reports {
    type V = Report;

    open spec fn view(&self) -> Report {
        self.targets.deep()
    }
}

/// Findings for one document.
#[derive(Debug)]
pub struct DiagnosticPublication {
    pub uri: String,
    pub version: Option<i32>,
    pub diagnostics: Vec<Diagnostic>,
}

/// What findings for a document stand for.
pub struct PublicationView {
    pub uri: Seq<char>,
    pub version: Option<i32>,
    pub diagnostics: Seq<DiagnosticView>,
}

impl View for DiagnosticPublication {
    type V = PublicationView;

    open spec fn view(&self) -> PublicationView {
        PublicationView {
            uri: self.uri@,
            version: self.version,
            diagnostics: diagnostic_views(self.diagnostics@),
        }
    }
}

pub open spec fn publication_views(list: Seq<DiagnosticPublication>) -> Seq<PublicationView> {
    list.map_values(|p: DiagnosticPublication| p@)
}

/// What came of new findings: the reports to send, and whether something is missing
/// from them.
pub struct DiagnosticPublicationReplacement {
    pub updates: Vec<DiagnosticPublication>,
    pub incomplete: bool,
}

/// The bytes of a set of URIs.
pub open spec fn uri_bytes(uris: Set<Seq<char>>) -> int {
    map_sum(uris.mk_map(|uri: Seq<char>| ()), |uri: Seq<char>, v: ()| byte_len(uri) as int)
}

proof fn lemma_uri_bytes_insert(uris: Set<Seq<char>>, uri: Seq<char>)
    requires
        uris.finite(),
    ensures
        uri_bytes(uris.insert(uri)) == uri_bytes(uris) + (if uris.contains(uri) {
            0
        } else {
            byte_len(uri) as int
        }),
{
    let w = |uri: Seq<char>, v: ()| byte_len(uri) as int;
    let m = uris.mk_map(|uri: Seq<char>| ());
    let n = uris.insert(uri).mk_map(|uri: Seq<char>| ());
    assert(n =~= m.insert(uri, ()));
    assert(m.dom() =~= uris);
    lemma_sum_insert(m, w, uri, ());
}

proof fn lemma_uri_bytes_remove(uris: Set<Seq<char>>, uri: Seq<char>)
    requires
        uris.finite(),
    ensures
        uri_bytes(uris.remove(uri)) == uri_bytes(uris) - (if uris.contains(uri) {
            byte_len(uri) as int
        } else {
            0
        }),
{
    let w = |uri: Seq<char>, v: ()| byte_len(uri) as int;
    let m = uris.mk_map(|uri: Seq<char>| ());
    let n = uris.remove(uri).mk_map(|uri: Seq<char>| ());
    assert(n =~= m.remove(uri));
    assert(m.dom() =~= uris);
    lemma_sum_remove(m, w, uri);
}

proof fn lemma_uri_bytes_bounds(uris: Set<Seq<char>>)
    ensures
        uri_bytes(uris) >= 0,
        uri_bytes(Set::<Seq<char>>::empty()) == 0,
{
    let w = |uri: Seq<char>, v: ()| byte_len(uri) as int;
    lemma_sum_bounds(uris.mk_map(|uri: Seq<char>| ()), w);
    let none = Set::<Seq<char>>::empty().mk_map(|uri: Seq<char>| ());
    assert(none.dom() =~= Set::<Seq<char>>::empty());
}

/// The number of targets of all reports.
pub open spec fn target_count(reports: Map<Seq<char>, Report>) -> int {
    map_sum(reports, |root: Seq<char>, report: Report| report.dom().len() as int)
}

/// The bytes of the URIs of the targets of all reports.
pub open spec fn target_bytes(reports: Map<Seq<char>, Report>) -> int {
    map_sum(reports, |root: Seq<char>, report: Report| uri_bytes(report.dom()))
}

/// The report that the first `n` publications make up; none where they are more than a
/// report may hold.
pub open spec fn proposal(publications: Seq<PublicationView>, n: int) -> Option<Report>
    decreases n,
{
    if n <= 0 {
        Some(Map::empty())
    } else {
        match proposal(publications, n - 1) {
            None => None,
            Some(report) => {
                let p = publications[n - 1];
                let is_new = !report.contains_key(p.uri);
                if byte_len(p.uri) > MAX_PUBLISHED_DIAGNOSTIC_URI_BYTES || (is_new && (
                report.dom().len() >= MAX_RETAINED_DIAGNOSTIC_PUBLICATION_TARGETS || uri_bytes(
                    report.dom(),
                ) + byte_len(p.uri) > MAX_RETAINED_DIAGNOSTIC_PUBLICATION_URI_BYTES)) {
                    None
                } else if is_new {
                    Some(report.insert(p.uri, p.diagnostics))
                } else {
                    Some(report.insert(p.uri, report[p.uri] + p.diagnostics))
                }
            },
        }
    }
}

/// What is left in the sequence of findings for one target, as it is put together from
/// the reports: the findings so far without repetitions, and the counts that bound them.
pub struct Aggregate {
    pub diagnostics: Seq<DiagnosticView>,
    pub bytes: int,
    pub visits: int,
}

/// A finding of the same form is there.
pub open spec fn has_encoded(list: Seq<DiagnosticView>, encoded: Seq<u8>) -> bool {
    exists|i: int| 0 <= i < list.len() && #[trigger] list[i].encoded() == Some(encoded)
}

/// The forms of findings, one for each.
pub open spec fn forms_of(forms: Seq<Vec<u8>>, list: Seq<DiagnosticView>) -> bool {
    &&& forms.len() == list.len()
    &&& forall|i: int| 0 <= i < list.len() ==> (#[trigger] list[i]).encoded() == Some(forms[i]@)
}

/// The aggregate with one more finding; none where it would be more than one report
/// may hold, or where the finding cannot be sent.
pub open spec fn aggregate_one(a: Aggregate, d: DiagnosticView) -> Option<Aggregate> {
    if a.visits + 1 > MAX_DIAGNOSTIC_PUBLICATION_AGGREGATE_VISITS || d.encoded() is None {
        None
    } else if has_encoded(a.diagnostics, d.encoded()->0) {
        Some(Aggregate { visits: a.visits + 1, ..a })
    } else if a.diagnostics.len() >= MAX_PUBLISHED_DIAGNOSTICS || a.bytes + d.encoded()->0.len()
        > MAX_PUBLISHED_DIAGNOSTIC_BYTES {
        None
    } else {
        Some(
            Aggregate {
                diagnostics: a.diagnostics.push(d),
                bytes: a.bytes + d.encoded()->0.len(),
                visits: a.visits + 1,
            },
        )
    }
}

/// The aggregate with the first `n` findings of a list.
pub open spec fn aggregate_list(
    a: Aggregate,
    list: Seq<DiagnosticView>,
    n: int,
) -> Option<Aggregate>
    decreases n,
{
    if n <= 0 {
        Some(a)
    } else {
        match aggregate_list(a, list, n - 1) {
            Some(before) => aggregate_one(before, list[n - 1]),
            None => None,
        }
    }
}

/// The root reports something for the target, and what it reports is current.
pub open spec fn current_owner(
    reports: Map<Seq<char>, Report>,
    stale: Set<Seq<char>>,
    root: Seq<char>,
    uri: Seq<char>,
) -> bool {
    reports.contains_key(root) && reports[root].contains_key(uri) && !stale.contains(root)
}

/// The root reported something for the target, but has since been found to be stale.
pub open spec fn stale_owner(
    reports: Map<Seq<char>, Report>,
    stale: Set<Seq<char>>,
    root: Seq<char>,
    uri: Seq<char>,
) -> bool {
    reports.contains_key(root) && reports[root].contains_key(uri) && stale.contains(root)
}

/// The findings for a target from the first `n` roots whose reports are current.
pub open spec fn aggregate_roots(
    reports: Map<Seq<char>, Report>,
    stale: Set<Seq<char>>,
    roots: Seq<Seq<char>>,
    uri: Seq<char>,
    n: int,
) -> Option<Aggregate>
    decreases n,
{
    if n <= 0 {
        Some(Aggregate { diagnostics: seq![], bytes: 0, visits: 0 })
    } else {
        match aggregate_roots(reports, stale, roots, uri, n - 1) {
            None => None,
            Some(a) => if current_owner(reports, stale, roots[n - 1], uri) {
                let list = reports[roots[n - 1]][uri];
                aggregate_list(a, list, list.len() as int)
            } else {
                Some(a)
            },
        }
    }
}

/// What is to be reported for a target, and whether something is missing from it. With
/// no current report but a stale one, or with too many findings, there is nothing that
/// can be reported.
pub open spec fn aggregated(
    reports: Map<Seq<char>, Report>,
    stale: Set<Seq<char>>,
    roots: Seq<Seq<char>>,
    uri: Seq<char>,
) -> (Option<Seq<DiagnosticView>>, bool) {
    let has_current = exists|root: Seq<char>| #[trigger]
        roots.contains(root) && current_owner(reports, stale, root, uri);
    let has_stale = exists|root: Seq<char>| #[trigger]
        roots.contains(root) && stale_owner(reports, stale, root, uri);
    match aggregate_roots(reports, stale, roots, uri, roots.len() as int) {
        None => (None, true),
        Some(a) => if !has_current && has_stale {
            (None, true)
        } else {
            (Some(a.diagnostics), has_stale)
        },
    }
}

/// What has been reported, and what is waiting to be sent.
pub struct Publications {
    pub reports: StrMap<Reports>,
    /// The roots whose reports are no longer current.
    pub incomplete_roots: StrSet,
    pub target_count: usize,
    pub uri_bytes: usize,
    pub pending_targets: StrSet,
    pub pending_uri_bytes: usize,
    pub pending_incomplete: bool,
}

impl View for Publications {
    type V = Map<Seq<char>, Report>;

    open spec fn view(&self) -> Map<Seq<char>, Report> {
        self.reports.deep()
    }
}

/// Every target of every report has a URI that may be published.
pub open spec fn published_uris(reports: Map<Seq<char>, Report>) -> bool {
    forall|root: Seq<char>, uri: Seq<char>|
        reports.contains_key(root) && #[trigger] reports[root].contains_key(uri) ==> byte_len(uri)
            <= MAX_PUBLISHED_DIAGNOSTIC_URI_BYTES
}

pub open spec fn finite_reports(reports: Map<Seq<char>, Report>) -> bool {
    &&& reports.dom().finite()
    &&& forall|root: Seq<char>| #[trigger] reports.contains_key(root)
        ==> reports[root].dom().finite()
}

impl Publications {
    /// The counts are those of the reports and within the bounds, and only roots that
    /// have a report are marked.
    pub open spec fn wf(&self) -> bool {
        &&& finite_reports(self@)
        &&& published_uris(self@)
        &&& self.target_count == target_count(self@)
        &&& self.uri_bytes == target_bytes(self@)
        &&& self.target_count <= MAX_RETAINED_DIAGNOSTIC_PUBLICATION_TARGETS
        &&& self.uri_bytes <= MAX_RETAINED_DIAGNOSTIC_PUBLICATION_URI_BYTES
        &&& self@.dom().len() <= MAX_OPEN_DOCUMENTS
        &&& self.incomplete_roots@.subset_of(self@.dom())
        &&& self.pending_targets@.finite()
        &&& self.pending_uri_bytes == uri_bytes(self.pending_targets@)
    }

    /// Nothing reported.
    pub fn new() -> (r: Self)
        ensures
            r.wf(),
            r@ == Map::<Seq<char>, Report>::empty(),
            r.incomplete_roots@ == Set::<Seq<char>>::empty(),
            r.pending_targets@ == Set::<Seq<char>>::empty(),
            !r.pending_incomplete,
    {
        let r = Publications {
            reports: StrMap::new(),
            incomplete_roots: StrSet::new(),
            target_count: 0,
            uri_bytes: 0,
            pending_targets: StrSet::new(),
            pending_uri_bytes: 0,
            pending_incomplete: false,
        };
        proof {
            assert(r@ =~= Map::<Seq<char>, Report>::empty());
            assert(r@.dom() =~= Set::<Seq<char>>::empty());
            lemma_uri_bytes_bounds(Set::<Seq<char>>::empty());
        }
        r
    }

    /// Whether a finding of the same form is in the list, the forms of which are given.
    fn is_seen(Ghost(list): Ghost<Seq<DiagnosticView>>, forms: &Vec<Vec<u8>>, encoded: &Vec<u8>) -> (r:
        bool)
        requires
            forms_of(forms@, list),
        ensures
            r == has_encoded(list, encoded@),
    {
        let mut i: usize = 0;
        while i < forms.len()
            invariant
                i <= forms@.len(),
                forms_of(forms@, list),
                forall|j: int| 0 <= j < i ==> (#[trigger] list[j]).encoded() != Some(encoded@),
            decreases forms@.len() - i,
        {
            proof {
                assert(list[i as int].encoded() == Some(forms@[i as int]@));
            }
            if same_bytes(&forms[i], encoded) {
                return true;
            }
            i += 1;
        }
        false
    }

    /// What is to be reported for a document, and whether something is missing from it.
    pub fn aggregate_diagnostic_publication(&self, documents: &OpenDocuments, uri: &str) -> (r: (
        Option<DiagnosticPublication>,
        bool,
    ))
        ensures
            ({
                let expected = aggregated(
                    self@,
                    self.incomplete_roots@,
                    in_order(self@.dom()),
                    uri@,
                );
                &&& r.1 == expected.1
                &&& match r.0 {
                    Some(publication) => expected.0 == Some(publication@.diagnostics)
                        && publication@.uri == uri@ && publication@.version == (
                    if documents@.contains_key(uri@) {
                        Some(documents@[uri@].version)
                    } else {
                        None
                    }),
                    None => expected.0 is None,
                }
            }),
    {
        let count: usize = self.reports.len();
        proof {
            assert(self@.dom() =~= self.reports@.dom());
        }
        let mut has_current = false;
        let mut has_stale = false;
        let mut diagnostics: Vec<Diagnostic> = Vec::new();
        let mut forms: Vec<Vec<u8>> = Vec::new();
        let mut bytes: usize = 0;
        let mut visits: usize = 0;
        let ghost reports = self@;
        let ghost stale = self.incomplete_roots@;
        let ghost roots = self.reports.keys();
        let ghost u = uri@;
        let mut i: usize = 0;
        proof {
            assert(diagnostic_views(diagnostics@) =~= seq![]);
        }
        while i < count
            invariant
                reports == self@,
                stale == self.incomplete_roots@,
                roots == self.reports.keys(),
                roots == in_order(self@.dom()),
                u == uri@,
                count == roots.len(),
                i <= count,
                visits <= MAX_DIAGNOSTIC_PUBLICATION_AGGREGATE_VISITS,
                bytes <= MAX_PUBLISHED_DIAGNOSTIC_BYTES,
                forms_of(forms@, diagnostic_views(diagnostics@)),
                aggregate_roots(reports, stale, roots, u, i as int) == Some(
                    Aggregate {
                        diagnostics: diagnostic_views(diagnostics@),
                        bytes: bytes as int,
                        visits: visits as int,
                    },
                ),
                has_current == exists|j: int|
                    0 <= j < i && current_owner(reports, stale, #[trigger] roots[j], u),
                has_stale == exists|j: int|
                    0 <= j < i && stale_owner(reports, stale, #[trigger] roots[j], u),
            decreases count - i,
        {
            let root = self.reports.key_at(i);
            let report = self.reports.value_at(i);
            proof {
                assert(reports[roots[i as int]] == report@);
            }
            match report.targets.get(uri) {
                Some(contribution) => {
                    if self.incomplete_roots.contains(root.as_str()) {
                        proof {
                            assert(stale_owner(reports, stale, roots[i as int], u));
                        }
                        has_stale = true;
                    } else {
                        proof {
                            assert(current_owner(reports, stale, roots[i as int], u));
                        }
                        has_current = true;
                        let ghost start = Aggregate {
                            diagnostics: diagnostic_views(diagnostics@),
                            bytes: bytes as int,
                            visits: visits as int,
                        };
                        let ghost list = contribution@;
                        proof {
                            assert(reports[roots[i as int]][u] == list);
                        }
                        let mut j: usize = 0;
                        while j < contribution.items.len()
                            invariant
                                list == contribution@,
                                j <= contribution.items@.len(),
                                i < count,
                                count == roots.len(),
                                current_owner(reports, stale, roots[i as int], u),
                                reports[roots[i as int]][u] == list,
                                aggregate_roots(reports, stale, roots, u, i as int) == Some(
                                    start,
                                ),
                                visits <= MAX_DIAGNOSTIC_PUBLICATION_AGGREGATE_VISITS,
                                bytes <= MAX_PUBLISHED_DIAGNOSTIC_BYTES,
                                forms_of(forms@, diagnostic_views(diagnostics@)),
                                aggregate_list(start, list, j as int) == Some(
                                    Aggregate {
                                        diagnostics: diagnostic_views(diagnostics@),
                                        bytes: bytes as int,
                                        visits: visits as int,
                                    },
                                ),
                                reports == self@,
                                stale == self.incomplete_roots@,
                                roots == in_order(self@.dom()),
                                u == uri@,
                            decreases contribution.items@.len() - j,
                        {
                            let diagnostic = &contribution.items[j];
                            proof {
                                assert(list[j as int] == diagnostic@);
                            }
                            visits += 1;
                            if visits > MAX_DIAGNOSTIC_PUBLICATION_AGGREGATE_VISITS {
                                proof {
                                    assert(aggregate_list(start, list, j + 1) is None);
                                    lemma_list_stops(start, list, j + 1);
                                    lemma_roots_stop(reports, stale, roots, u, i + 1);
                                }
                                return (None, true);
                            }
                            let encoded = match encode(diagnostic) {
                                Some(encoded) => encoded,
                                None => {
                                    proof {
                                        assert(aggregate_list(start, list, j + 1) is None);
                                        lemma_list_stops(start, list, j + 1);
                                        lemma_roots_stop(reports, stale, roots, u, i + 1);
                                    }
                                    return (None, true);
                                },
                            };
                            if !Self::is_seen(
                                Ghost(diagnostic_views(diagnostics@)),
                                &forms,
                                &encoded,
                            ) {
                                if diagnostics.len() >= MAX_PUBLISHED_DIAGNOSTICS || encoded.len()
                                    > MAX_PUBLISHED_DIAGNOSTIC_BYTES - bytes {
                                    proof {
                                        assert(aggregate_list(start, list, j + 1) is None);
                                        lemma_list_stops(start, list, j + 1);
                                        lemma_roots_stop(reports, stale, roots, u, i + 1);
                                    }
                                    return (None, true);
                                }
                                bytes += encoded.len();
                                let ghost held = diagnostics@;
                                diagnostics.push(diagnostic.copy());
                                forms.push(encoded);
                                proof {
                                    assert(diagnostic_views(diagnostics@) =~= diagnostic_views(
                                        held,
                                    ).push(list[j as int]));
                                }
                            }
                            j += 1;
                        }
                    }
                },
                None => {},
            }
            i += 1;
        }
        proof {
            assert(has_current == exists|root: Seq<char>| #[trigger]
                roots.contains(root) && current_owner(reports, stale, root, u)) by {
                if has_current {
                    let j = choose|j: int|
                        0 <= j < i && current_owner(reports, stale, #[trigger] roots[j], u);
                    assert(roots.contains(roots[j]));
                }
            }
            assert(has_stale == exists|root: Seq<char>| #[trigger]
                roots.contains(root) && stale_owner(reports, stale, root, u)) by {
                if has_stale {
                    let j = choose|j: int|
                        0 <= j < i && stale_owner(reports, stale, #[trigger] roots[j], u);
                    assert(roots.contains(roots[j]));
                }
            }
        }
        if !has_current && has_stale {
            return (None, true);
        }
        (
            Some(
                DiagnosticPublication {
                    version: documents.document_version(uri),
                    uri: uri.to_owned(),
                    diagnostics,
                },
            ),
            has_stale,
        )
    }
}

proof fn lemma_list_stops(a: Aggregate, list: Seq<DiagnosticView>, n: int)
    requires
        0 <= n <= list.len(),
        aggregate_list(a, list, n) is None,
    ensures
        aggregate_list(a, list, list.len() as int) is None,
    decreases list.len() - n,
{
    if n < list.len() {
        lemma_list_stops(a, list, n + 1);
    }
}

proof fn lemma_roots_stop(
    reports: Map<Seq<char>, Report>,
    stale: Set<Seq<char>>,
    roots: Seq<Seq<char>>,
    uri: Seq<char>,
    n: int,
)
    requires
        0 <= n <= roots.len(),
        aggregate_roots(reports, stale, roots, uri, n) is None,
    ensures
        aggregate_roots(reports, stale, roots, uri, roots.len() as int) is None,
    decreases roots.len() - n,
{
    if n < roots.len() {
        lemma_roots_stop(reports, stale, roots, uri, n + 1);
    }
}

proof fn lemma_uri_bytes_subset(a: Set<Seq<char>>, b: Set<Seq<char>>)
    requires
        b.finite(),
        a.subset_of(b),
    ensures
        uri_bytes(a) <= uri_bytes(b),
        a.finite(),
        a.len() <= b.len(),
    decreases b.len(),
{
    if b.len() == 0 {
        assert(b =~= Set::<Seq<char>>::empty());
        assert(a =~= b);
    } else {
        let x = b.choose();
        assert(a.remove(x).subset_of(b.remove(x)));
        lemma_uri_bytes_subset(a.remove(x), b.remove(x));
        assert(a.finite()) by {
            if a.contains(x) {
                assert(a =~= a.remove(x).insert(x));
            } else {
                assert(a =~= a.remove(x));
            }
        }
        lemma_uri_bytes_remove(a, x);
        lemma_uri_bytes_remove(b, x);
    }
}

/// The bytes of the URIs of a set.
fn set_bytes(set: &StrSet) -> (r: usize)
    requires
        uri_bytes(set@) <= usize::MAX,
    ensures
        r == uri_bytes(set@),
{
    let n = set.len();
    let mut r: usize = 0;
    let mut i: usize = 0;
    let ghost m = set.members();
    proof {
        assert(m.take(0).to_set() =~= Set::<Seq<char>>::empty());
        lemma_uri_bytes_bounds(set@);
    }
    while i < n
        invariant
            m == set.members(),
            n == m.len(),
            i <= n,
            set@ == m.to_set(),
            set@.finite(),
            m.no_duplicates(),
            uri_bytes(set@) <= usize::MAX,
            r == uri_bytes(m.take(i as int).to_set()),
        decreases n - i,
    {
        let length: usize = byte_length(set.at(i).as_str());
        proof {
            let before = m.take(i as int).to_set();
            lemma_take_set(m, i as int);
            let after = m.take(i + 1).to_set();
            assert(after.subset_of(set@)) by {
                assert forall|k: Seq<char>| after.contains(k) implies set@.contains(k) by {
                    let t = m.take(i + 1);
                    let j = choose|j: int| 0 <= j < t.len() && t[j] == k;
                    assert(m[j] == k);
                }
            }
            lemma_uri_bytes_subset(after, set@);
            assert(before.subset_of(after));
            lemma_uri_bytes_subset(before, set@);
            assert(!before.contains(m[i as int])) by {
                if before.contains(m[i as int]) {
                    let t = m.take(i as int);
                    let j = choose|j: int| 0 <= j < t.len() && t[j] == m[i as int];
                    assert(m[j] == m[i as int]);
                }
            }
            lemma_uri_bytes_insert(before, m[i as int]);
        }
        r += length;
        i += 1;
    }
    proof {
        assert(m.take(n as int) =~= m);
    }
    r
}

/// The members of both sets.
fn union_of(a: &StrSet, b: &StrSet) -> (r: StrSet)
    ensures
        r@ == a@.union(b@),
        r@.finite(),
{
    let mut r = a.copy();
    let n = b.len();
    let ghost m = b.members();
    let mut i: usize = 0;
    proof {
        assert(a@.union(m.take(0).to_set()) =~= a@);
    }
    while i < n
        invariant
            m == b.members(),
            n == m.len(),
            i <= n,
            r@ == a@.union(m.take(i as int).to_set()),
        decreases n - i,
    {
        let _added = r.insert(b.at(i).clone());
        proof {
            lemma_take_set(m, i as int);
            assert(r@ =~= a@.union(m.take(i + 1).to_set()));
        }
        i += 1;
    }
    proof {
        assert(m.take(n as int) =~= m);
    }
    let _count = r.len();
    r
}

/// The reports for the first `n` targets that have one.
pub open spec fn updates_for(
    reports: Map<Seq<char>, Report>,
    stale: Set<Seq<char>>,
    documents: Map<Seq<char>, DocumentView>,
    targets: Seq<Seq<char>>,
    n: int,
) -> Seq<PublicationView>
    decreases n,
{
    if n <= 0 {
        seq![]
    } else {
        let before = updates_for(reports, stale, documents, targets, n - 1);
        let uri = targets[n - 1];
        match aggregated(reports, stale, in_order(reports.dom()), uri).0 {
            Some(diagnostics) => before.push(
                PublicationView {
                    uri,
                    version: if documents.contains_key(uri) {
                        Some(documents[uri].version)
                    } else {
                        None
                    },
                    diagnostics,
                },
            ),
            None => before,
        }
    }
}

/// What is sent for the targets is what their reports come to, and something is missing
/// where it is missing for one of them.
pub open spec fn updates_are(
    r: DiagnosticPublicationReplacement,
    reports: Map<Seq<char>, Report>,
    stale: Set<Seq<char>>,
    documents: Map<Seq<char>, DocumentView>,
    targets: Set<Seq<char>>,
) -> bool {
    &&& publication_views(r.updates@) == updates_for(
        reports,
        stale,
        documents,
        in_order(targets),
        in_order(targets).len() as int,
    )
    &&& r.incomplete == exists|uri: Seq<char>| #[trigger]
        targets.contains(uri) && aggregated(reports, stale, in_order(reports.dom()), uri).1
}

/// The targets of a root's report.
pub open spec fn targets_of(reports: Map<Seq<char>, Report>, root: Seq<char>) -> Set<Seq<char>> {
    if reports.contains_key(root) {
        reports[root].dom()
    } else {
        Set::empty()
    }
}

proof fn lemma_report_sums(reports: Map<Seq<char>, Report>, root: Seq<char>)
    requires
        finite_reports(reports),
    ensures
        finite_reports(reports.remove(root)),
        target_count(reports.remove(root)) == target_count(reports) - targets_of(
            reports,
            root,
        ).len(),
        target_bytes(reports.remove(root)) == target_bytes(reports) - uri_bytes(
            targets_of(reports, root),
        ),
        target_count(reports.remove(root)) >= 0,
        target_bytes(reports.remove(root)) >= 0,
        uri_bytes(targets_of(reports, root)) >= 0,
        targets_of(reports, root).finite(),
        reports.remove(root).dom() == reports.dom().remove(root),
{
    let count = |root: Seq<char>, report: Report| report.dom().len() as int;
    let bytes = |root: Seq<char>, report: Report| uri_bytes(report.dom());
    lemma_sum_remove(reports, count, root);
    lemma_sum_remove(reports, bytes, root);
    assert forall|k: Seq<char>, v: Report| #[trigger] bytes(k, v) >= 0 by {
        lemma_uri_bytes_bounds(v.dom());
    }
    lemma_sum_bounds(reports.remove(root), count);
    lemma_sum_bounds(reports.remove(root), bytes);
    lemma_uri_bytes_bounds(targets_of(reports, root));
    assert(reports.remove(root).dom() =~= reports.dom().remove(root));
}

proof fn lemma_report_insert(reports: Map<Seq<char>, Report>, root: Seq<char>, report: Report)
    requires
        finite_reports(reports),
        report.dom().finite(),
    ensures
        finite_reports(reports.insert(root, report)),
        target_count(reports.insert(root, report)) == target_count(reports.remove(root))
            + report.dom().len(),
        target_bytes(reports.insert(root, report)) == target_bytes(reports.remove(root))
            + uri_bytes(report.dom()),
        reports.insert(root, report).dom() == reports.dom().insert(root),
{
    let count = |root: Seq<char>, report: Report| report.dom().len() as int;
    let bytes = |root: Seq<char>, report: Report| uri_bytes(report.dom());
    lemma_sum_insert(reports, count, root, report);
    lemma_sum_insert(reports, bytes, root, report);
    assert(reports.insert(root, report).dom() =~= reports.dom().insert(root));
}

/// A proposal holds a bounded number of targets with URIs that may be published.
proof fn lemma_proposal(publications: Seq<PublicationView>, n: int)
    ensures
        proposal(publications, n) matches Some(report) ==> {
            &&& report.dom().finite()
            &&& report.dom().len() <= MAX_RETAINED_DIAGNOSTIC_PUBLICATION_TARGETS
            &&& uri_bytes(report.dom()) <= MAX_RETAINED_DIAGNOSTIC_PUBLICATION_URI_BYTES
            &&& forall|uri: Seq<char>| #[trigger]
                report.contains_key(uri) ==> byte_len(uri) <= MAX_PUBLISHED_DIAGNOSTIC_URI_BYTES
        },
    decreases n,
{
    lemma_uri_bytes_bounds(Set::empty());
    if n <= 0 {
        assert(Map::<Seq<char>, Seq<DiagnosticView>>::empty().dom() =~= Set::empty());
    } else {
        lemma_proposal(publications, n - 1);
        if let Some(before) = proposal(publications, n - 1) {
            let uri = publications[n - 1].uri;
            lemma_uri_bytes_insert(before.dom(), uri);
            if let Some(report) = proposal(publications, n) {
                assert(report.dom() =~= before.dom().insert(uri));
            }
        }
    }
}

/// A proposal that is refused stays refused, whatever follows.
proof fn lemma_proposal_stops(publications: Seq<PublicationView>, n: int)
    requires
        0 <= n <= publications.len(),
        proposal(publications, n) is None,
    ensures
        proposal(publications, publications.len() as int) is None,
    decreases publications.len() - n,
{
    if n < publications.len() {
        lemma_proposal_stops(publications, n + 1);
    }
}

/// Findings that stand for the same.
pub fn copy_diagnostics(list: &Vec<Diagnostic>) -> (r: Vec<Diagnostic>)
    ensures
        diagnostic_views(r@) == diagnostic_views(list@),
{
    let mut r: Vec<Diagnostic> = Vec::new();
    let mut i: usize = 0;
    while i < list.len()
        invariant
            i <= list@.len(),
            diagnostic_views(r@) == diagnostic_views(list@).take(i as int),
        decreases list@.len() - i,
    {
        let ghost held = r@;
        r.push(list[i].copy());
        proof {
            assert(diagnostic_views(r@) =~= diagnostic_views(held).push(list@[i as int]@));
            assert(diagnostic_views(list@).take(i + 1) =~= diagnostic_views(list@).take(
                i as int,
            ).push(list@[i as int]@));
        }
        i += 1;
    }
    proof {
        assert(diagnostic_views(list@).take(list@.len() as int) =~= diagnostic_views(list@));
    }
    r
}

/// The report that a list of publications makes up.
fn propose(publications: &Vec<DiagnosticPublication>) -> (r: Option<Reports>)
    ensures
        match r {
            Some(report) => proposal(
                publication_views(publications@),
                publications@.len() as int,
            ) == Some(report@),
            None => proposal(
                publication_views(publications@),
                publications@.len() as int,
            ) is None,
        },
{
    let ghost views = publication_views(publications@);
    let mut proposed: StrMap<DiagnosticList> = StrMap::new();
    let mut bytes: usize = 0;
    let count: usize = publications.len();
    let mut i: usize = 0;
    proof {
        assert(deep_of(proposed@) =~= Map::empty());
        lemma_uri_bytes_bounds(Set::empty());
        assert(deep_of(proposed@).dom() =~= Set::empty());
    }
    while i < count
        invariant
            i <= count,
            views == publication_views(publications@),
            publications@.len() == count,
            proposal(views, i as int) == Some(deep_of(proposed@)),
            bytes == uri_bytes(deep_of(proposed@).dom()),
            bytes <= MAX_RETAINED_DIAGNOSTIC_PUBLICATION_URI_BYTES,
        decreases count - i,
    {
        let ghost before = deep_of(proposed@);
        let ghost held = proposed@;
        proof {
            lemma_proposal(views, i as int);
            assert(publications@[i as int]@ == views[i as int]);
            assert(before.dom() =~= held.dom());
        }
        let publication = &publications[i];
        let length: usize = byte_length(publication.uri.as_str());
        let mut diagnostics = copy_diagnostics(&publication.diagnostics);
        let ghost uri = publication.uri@;
        let ghost added = diagnostic_views(diagnostics@);
        if length > MAX_PUBLISHED_DIAGNOSTIC_URI_BYTES {
            proof {
                assert(proposal(views, i + 1) is None);
                lemma_proposal_stops(views, i + 1);
            }
            return None;
        }
        match proposed.remove(publication.uri.as_str()) {
            Some(mut list) => {
                let ghost existing = list.items@;
                list.items.append(&mut diagnostics);
                proof {
                    assert(diagnostic_views(list.items@) =~= diagnostic_views(existing) + added);
                    lemma_deep_insert(held.remove(uri), uri, list);
                    lemma_deep_remove(held, uri);
                    assert(before.remove(uri).insert(uri, list@) =~= before.insert(uri, list@));
                    lemma_uri_bytes_insert(before.dom(), uri);
                    assert(before.insert(uri, list@).dom() =~= before.dom().insert(uri));
                }
                let _none = proposed.insert(publication.uri.clone(), list);
            },
            None => {
                proof {
                    assert(held.remove(uri) =~= held);
                }
                if proposed.len() >= MAX_RETAINED_DIAGNOSTIC_PUBLICATION_TARGETS || length
                    > MAX_RETAINED_DIAGNOSTIC_PUBLICATION_URI_BYTES - bytes {
                    proof {
                        assert(proposal(views, i + 1) is None);
                        lemma_proposal_stops(views, i + 1);
                    }
                    return None;
                }
                bytes += length;
                let list = DiagnosticList { items: diagnostics };
                proof {
                    lemma_deep_insert(held, uri, list);
                    lemma_uri_bytes_insert(before.dom(), uri);
                    assert(before.insert(uri, list@).dom() =~= before.dom().insert(uri));
                }
                let _none = proposed.insert(publication.uri.clone(), list);
            },
        }
        i += 1;
    }
    Some(Reports { targets: proposed })
}

impl Publications {
    /// The report that a root gets from its publications. There is none where they are
    /// more than one report, all reports or the queue may hold.
    pub open spec fn replacement(
        &self,
        root: Seq<char>,
        publications: Seq<PublicationView>,
        staged: bool,
    ) -> Option<Report> {
        match proposal(publications, publications.len() as int) {
            None => None,
            Some(report) => {
                let affected = targets_of(self@, root).union(report.dom());
                let without = self@.remove(root);
                let queue = self.pending_targets@.union(affected);
                if !self@.contains_key(root) && self@.dom().len() >= MAX_OPEN_DOCUMENTS {
                    None
                } else if affected.len() > MAX_RETAINED_DIAGNOSTIC_PUBLICATION_TARGETS
                    || uri_bytes(affected) > MAX_RETAINED_DIAGNOSTIC_PUBLICATION_URI_BYTES {
                    None
                } else if target_count(without) + report.dom().len()
                    > MAX_RETAINED_DIAGNOSTIC_PUBLICATION_TARGETS || target_bytes(without)
                    + uri_bytes(report.dom()) > MAX_RETAINED_DIAGNOSTIC_PUBLICATION_URI_BYTES {
                    None
                } else if staged && (queue.len() > MAX_PENDING_DIAGNOSTIC_PUBLICATION_TARGETS
                    || uri_bytes(queue) > MAX_PENDING_DIAGNOSTIC_PUBLICATION_URI_BYTES) {
                    None
                } else {
                    Some(report)
                }
            },
        }
    }

    /// The report of a root was replaced by its publications, or kept and marked as stale
    /// where they are more than can be kept.
    pub open spec fn replaced(
        before: &Self,
        after: &Self,
        r: DiagnosticPublicationReplacement,
        documents: Map<Seq<char>, DocumentView>,
        root: Seq<char>,
        publications: Seq<PublicationView>,
        staged: bool,
    ) -> bool {
        match before.replacement(root, publications, staged) {
            None => {
                &&& r.incomplete
                &&& r.updates@.len() == 0
                &&& after@ == before@
                &&& after.incomplete_roots@ == (if before@.contains_key(root) {
                    before.incomplete_roots@.insert(root)
                } else {
                    before.incomplete_roots@
                })
                &&& after.pending_targets@ == before.pending_targets@
            },
            Some(report) => {
                let affected = targets_of(before@, root).union(report.dom());
                &&& after@ == before@.insert(root, report)
                &&& after.incomplete_roots@ == before.incomplete_roots@.remove(root)
                &&& staged ==> !r.incomplete && r.updates@.len() == 0 && after.pending_targets@
                    == before.pending_targets@.union(affected)
                &&& !staged ==> updates_are(
                    r,
                    after@,
                    after.incomplete_roots@,
                    documents,
                    affected,
                ) && after.pending_targets@ == before.pending_targets@
            },
        }
    }

    /// What is to be reported for the documents of a set, in their order.
    pub fn aggregate_diagnostic_publications(
        &self,
        documents: &OpenDocuments,
        affected: &StrSet,
    ) -> (r: DiagnosticPublicationReplacement)
        ensures
            updates_are(r, self@, self.incomplete_roots@, documents@, affected@),
    {
        let n = affected.len();
        let ghost targets = affected.members();
        let ghost roots = in_order(self@.dom());
        let ghost stale = self.incomplete_roots@;
        let mut updates: Vec<DiagnosticPublication> = Vec::new();
        let mut incomplete = false;
        let mut i: usize = 0;
        proof {
            assert(publication_views(updates@) =~= seq![]);
        }
        while i < n
            invariant
                targets == affected.members(),
                targets == in_order(affected@),
                roots == in_order(self@.dom()),
                stale == self.incomplete_roots@,
                n == targets.len(),
                i <= n,
                publication_views(updates@) == updates_for(
                    self@,
                    stale,
                    documents@,
                    targets,
                    i as int,
                ),
                incomplete == exists|j: int|
                    0 <= j < i && aggregated(self@, stale, roots, #[trigger] targets[j]).1,
            decreases n - i,
        {
            let uri = affected.at(i);
            let (publication, missing) = self.aggregate_diagnostic_publication(
                documents,
                uri.as_str(),
            );
            proof {
                assert(missing == aggregated(self@, stale, roots, targets[i as int]).1);
            }
            incomplete = incomplete || missing;
            if let Some(publication) = publication {
                let ghost held = updates@;
                let ghost view = publication@;
                updates.push(publication);
                proof {
                    assert(publication_views(updates@) =~= publication_views(held).push(view));
                }
            }
            i += 1;
        }
        proof {
            assert(incomplete == exists|uri: Seq<char>| #[trigger]
                affected@.contains(uri) && aggregated(self@, stale, roots, uri).1) by {
                if incomplete {
                    let j = choose|j: int|
                        0 <= j < i && aggregated(self@, stale, roots, #[trigger] targets[j]).1;
                    assert(targets.contains(targets[j]));
                    assert(affected@.contains(targets[j]));
                }
                if exists|uri: Seq<char>| #[trigger]
                    affected@.contains(uri) && aggregated(self@, stale, roots, uri).1 {
                    let uri = choose|uri: Seq<char>| #[trigger]
                        affected@.contains(uri) && aggregated(self@, stale, roots, uri).1;
                    assert(targets.contains(uri));
                    let j = choose|j: int| 0 <= j < targets.len() && targets[j] == uri;
                    assert(aggregated(self@, stale, roots, targets[j]).1);
                }
            }
        }
        DiagnosticPublicationReplacement { updates, incomplete }
    }

    /// Puts targets in the queue.
    pub fn enqueue_diagnostic_publication_targets(&mut self, targets: &StrSet)
        requires
            old(self).wf(),
            uri_bytes(old(self).pending_targets@.union(targets@)) <= usize::MAX,
        ensures
            final(self).wf(),
            final(self)@ == old(self)@,
            final(self).incomplete_roots == old(self).incomplete_roots,
            final(self).pending_targets@ == old(self).pending_targets@.union(targets@),
            final(self).pending_incomplete == old(self).pending_incomplete,
    {
        let queue = union_of(&self.pending_targets, targets);
        let bytes = set_bytes(&queue);
        self.pending_targets = queue;
        self.pending_uri_bytes = bytes;
    }

    fn retain_report(&mut self, root: &str, report: Reports)
        requires
            old(self).wf(),
            report@.dom().finite(),
            forall|uri: Seq<char>| #[trigger]
                report@.contains_key(uri) ==> byte_len(uri) <= MAX_PUBLISHED_DIAGNOSTIC_URI_BYTES,
            old(self)@.contains_key(root@) || old(self)@.dom().len() < MAX_OPEN_DOCUMENTS,
            target_count(old(self)@.remove(root@)) + report@.dom().len()
                <= MAX_RETAINED_DIAGNOSTIC_PUBLICATION_TARGETS,
            target_bytes(old(self)@.remove(root@)) + uri_bytes(report@.dom())
                <= MAX_RETAINED_DIAGNOSTIC_PUBLICATION_URI_BYTES,
        ensures
            final(self).wf(),
            final(self)@ == old(self)@.insert(root@, report@),
            final(self).incomplete_roots@ == old(self).incomplete_roots@.remove(root@),
            final(self).pending_targets == old(self).pending_targets,
            final(self).pending_incomplete == old(self).pending_incomplete,
    {
        let ghost before = self@;
        let ghost added = report@;
        proof {
            lemma_report_sums(before, root@);
            lemma_report_insert(before, root@, added);
            lemma_deep_insert(self.reports@, root@, report);
            assert(report.targets@.dom() =~= added.dom());
            lemma_uri_bytes_bounds(added.dom());
        }
        let previous = match self.reports.get(root) {
            Some(previous) => previous.targets.key_set(),
            None => StrSet::new(),
        };
        proof {
            assert(previous@ =~= targets_of(before, root@));
            lemma_uri_bytes_bounds(previous@);
        }
        let fresh = report.targets.key_set();
        proof {
            assert(fresh@ == added.dom());
        }
        self.target_count = self.target_count - previous.len() + fresh.len();
        self.uri_bytes = self.uri_bytes - set_bytes(&previous) + set_bytes(&fresh);
        let _stale = self.incomplete_roots.remove(root);
        let _previous = self.reports.insert(root.to_owned(), report);
        proof {
            assert(published_uris(self@)) by {
                assert forall|r: Seq<char>, uri: Seq<char>|
                    self@.contains_key(r) && #[trigger] self@[r].contains_key(uri) implies byte_len(
                    uri,
                ) <= MAX_PUBLISHED_DIAGNOSTIC_URI_BYTES by {
                    if r != root@ {
                        assert(before[r].contains_key(uri));
                    }
                }
            }
        }
    }

    /// Replaces the report of a root. Where its publications are more than can be kept,
    /// the report stays as it was, and what it says counts as stale until it is
    /// replaced. Reports of what changed are put in the queue where `staged`, and handed
    /// back otherwise.
    pub fn replace_diagnostic_publications_inner(
        &mut self,
        documents: &OpenDocuments,
        root: &str,
        publications: Vec<DiagnosticPublication>,
        staged: bool,
    ) -> (r: DiagnosticPublicationReplacement)
        requires
            old(self).wf(),
        ensures
            final(self).wf(),
            final(self).pending_incomplete == old(self).pending_incomplete,
            Self::replaced(
                old(self),
                final(self),
                r,
                documents@,
                root@,
                publication_views(publications@),
                staged,
            ),
    {
        let ghost views = publication_views(publications@);
        let ghost before = self@;
        proof {
            lemma_proposal(views, views.len() as int);
            lemma_report_sums(before, root@);
            assert(before.dom() =~= self.reports@.dom());
        }
        let mut incomplete = !self.reports.contains_key(root) && self.reports.len()
            >= MAX_OPEN_DOCUMENTS;
        let proposed = propose(&publications);
        let report = match proposed {
            Some(report) => report,
            None => {
                return self.refuse_report(root);
            },
        };
        let ghost added = report@;
        let previous = match self.reports.get(root) {
            Some(previous) => previous.targets.key_set(),
            None => StrSet::new(),
        };
        let fresh = report.targets.key_set();
        proof {
            assert(previous@ =~= targets_of(before, root@));
            assert(fresh@ =~= added.dom());
            lemma_uri_bytes_bounds(fresh@);
            lemma_uri_bytes_bounds(previous@);
        }
        let affected = union_of(&previous, &fresh);
        proof {
            lemma_union_bytes(previous@, fresh@);
        }
        let affected_bytes: usize = set_bytes(&affected);
        if affected.len() > MAX_RETAINED_DIAGNOSTIC_PUBLICATION_TARGETS || affected_bytes
            > MAX_RETAINED_DIAGNOSTIC_PUBLICATION_URI_BYTES {
            incomplete = true;
        }
        let retained_count: usize = self.target_count - previous.len();
        let retained_bytes: usize = self.uri_bytes - set_bytes(&previous);
        if retained_count + fresh.len() > MAX_RETAINED_DIAGNOSTIC_PUBLICATION_TARGETS
            || retained_bytes + set_bytes(&fresh)
            > MAX_RETAINED_DIAGNOSTIC_PUBLICATION_URI_BYTES {
            incomplete = true;
        }
        if staged {
            let queue = union_of(&self.pending_targets, &affected);
            proof {
                lemma_union_bytes(self.pending_targets@, affected@);
            }
            if queue.len() > MAX_PENDING_DIAGNOSTIC_PUBLICATION_TARGETS || !self.queue_fits(
                &affected,
                affected_bytes,
            ) {
                incomplete = true;
            }
        }
        if incomplete {
            return self.refuse_report(root);
        }
        self.retain_report(root, report);
        if staged {
            self.enqueue_diagnostic_publication_targets(&affected);
            DiagnosticPublicationReplacement { updates: Vec::new(), incomplete: false }
        } else {
            self.aggregate_diagnostic_publications(documents, &affected)
        }
    }

    /// Replaces the report of a root, and hands back what is to be reported.
    pub fn replace_diagnostic_publications(
        &mut self,
        documents: &OpenDocuments,
        root: &str,
        publications: Vec<DiagnosticPublication>,
    ) -> (r: DiagnosticPublicationReplacement)
        requires
            old(self).wf(),
        ensures
            final(self).wf(),
            final(self).pending_incomplete == old(self).pending_incomplete,
            Self::replaced(
                old(self),
                final(self),
                r,
                documents@,
                root@,
                publication_views(publications@),
                false,
            ),
    {
        self.replace_diagnostic_publications_inner(documents, root, publications, false)
    }

    /// Replaces the report of a root, and puts what is to be reported in the queue.
    pub fn stage_diagnostic_publications(
        &mut self,
        documents: &OpenDocuments,
        root: &str,
        publications: Vec<DiagnosticPublication>,
    ) -> (r: DiagnosticPublicationReplacement)
        requires
            old(self).wf(),
        ensures
            final(self).wf(),
            final(self).pending_incomplete == old(self).pending_incomplete,
            Self::replaced(
                old(self),
                final(self),
                r,
                documents@,
                root@,
                publication_views(publications@),
                true,
            ),
    {
        self.replace_diagnostic_publications_inner(documents, root, publications, true)
    }

    /// Whether the URIs of the queue and of these targets are within bounds together.
    fn queue_fits(&self, affected: &StrSet, affected_bytes: usize) -> (r: bool)
        requires
            self.wf(),
            affected@.finite(),
            affected_bytes == uri_bytes(affected@),
        ensures
            r == (uri_bytes(self.pending_targets@.union(affected@))
                <= MAX_PENDING_DIAGNOSTIC_PUBLICATION_URI_BYTES),
    {
        let n = affected.len();
        let ghost m = affected.members();
        let ghost queue = self.pending_targets@;
        let mut total: usize = self.pending_uri_bytes;
        let mut i: usize = 0;
        if total > MAX_PENDING_DIAGNOSTIC_PUBLICATION_URI_BYTES {
            proof {
                lemma_uri_bytes_subset(queue, queue.union(affected@));
            }
            return false;
        }
        proof {
            assert(queue.union(m.take(0).to_set()) =~= queue);
        }
        while i < n
            invariant
                m == affected.members(),
                n == m.len(),
                i <= n,
                queue == self.pending_targets@,
                queue.finite(),
                affected@.finite(),
                affected@ == m.to_set(),
                m.no_duplicates(),
                total <= MAX_PENDING_DIAGNOSTIC_PUBLICATION_URI_BYTES,
                total == uri_bytes(queue.union(m.take(i as int).to_set())),
            decreases n - i,
        {
            let uri = affected.at(i);
            let ghost part = queue.union(m.take(i as int).to_set());
            let ghost next = queue.union(m.take(i + 1).to_set());
            proof {
                lemma_take_set(m, i as int);
                assert(next =~= part.insert(m[i as int]));
                assert(next.subset_of(queue.union(affected@))) by {
                    assert forall|k: Seq<char>| next.contains(k) implies queue.union(
                        affected@,
                    ).contains(k) by {
                        let t = m.take(i + 1);
                        if t.contains(k) {
                            let j = choose|j: int| 0 <= j < t.len() && t[j] == k;
                            assert(m[j] == k);
                            assert(m.contains(k));
                        }
                    }
                }
                lemma_uri_bytes_subset(next, queue.union(affected@));
                assert(part.subset_of(next));
                lemma_uri_bytes_subset(part, next);
                lemma_uri_bytes_insert(part, m[i as int]);
                let t = m.take(i as int);
                assert(!t.contains(m[i as int])) by {
                    if t.contains(m[i as int]) {
                        let j = choose|j: int| 0 <= j < t.len() && t[j] == m[i as int];
                        assert(m[j] == m[i as int]);
                    }
                }
            }
            if !self.pending_targets.contains(uri.as_str()) {
                let length: usize = byte_length(uri.as_str());
                if length > MAX_PENDING_DIAGNOSTIC_PUBLICATION_URI_BYTES - total {
                    return false;
                }
                total += length;
            }
            i += 1;
        }
        proof {
            assert(m.take(n as int) =~= m);
        }
        true
    }

    /// Keeps the report of a root as it is, and marks it as stale.
    fn refuse_report(&mut self, root: &str) -> (r: DiagnosticPublicationReplacement)
        requires
            old(self).wf(),
        ensures
            final(self).wf(),
            r.incomplete,
            r.updates@.len() == 0,
            final(self)@ == old(self)@,
            final(self).incomplete_roots@ == (if old(self)@.contains_key(root@) {
                old(self).incomplete_roots@.insert(root@)
            } else {
                old(self).incomplete_roots@
            }),
            final(self).pending_targets == old(self).pending_targets,
            final(self).pending_incomplete == old(self).pending_incomplete,
    {
        if self.reports.contains_key(root) {
            let _added = self.incomplete_roots.insert(root.to_owned());
        }
        DiagnosticPublicationReplacement { updates: Vec::new(), incomplete: true }
    }

    /// Forgets the report of a root.
    fn drop_report(&mut self, root: &str) -> (r: StrSet)
        requires
            old(self).wf(),
        ensures
            final(self).wf(),
            r@ == targets_of(old(self)@, root@),
            r@.finite(),
            final(self)@ == old(self)@.remove(root@),
            final(self).incomplete_roots@ == old(self).incomplete_roots@.remove(root@),
            final(self).pending_targets == old(self).pending_targets,
            final(self).pending_incomplete == old(self).pending_incomplete,
    {
        let ghost before = self@;
        proof {
            lemma_report_sums(before, root@);
            lemma_deep_remove(self.reports@, root@);
        }
        let previous = match self.reports.remove(root) {
            Some(previous) => previous.targets.key_set(),
            None => StrSet::new(),
        };
        proof {
            assert(previous@ =~= targets_of(before, root@));
        }
        let _stale = self.incomplete_roots.remove(root);
        self.target_count = self.target_count - previous.len();
        self.uri_bytes = self.uri_bytes - set_bytes(&previous);
        proof {
            assert(published_uris(self@)) by {
                assert forall|r: Seq<char>, uri: Seq<char>|
                    self@.contains_key(r) && #[trigger] self@[r].contains_key(uri) implies byte_len(
                    uri,
                ) <= MAX_PUBLISHED_DIAGNOSTIC_URI_BYTES by {
                    assert(before[r].contains_key(uri));
                }
            }
        }
        previous
    }

    /// Forgets the report of a root, and hands back what is left to report for its
    /// targets.
    pub fn clear_diagnostic_publications(&mut self, documents: &OpenDocuments, root: &str) -> (r:
        DiagnosticPublicationReplacement)
        requires
            old(self).wf(),
        ensures
            final(self).wf(),
            final(self)@ == old(self)@.remove(root@),
            final(self).incomplete_roots@ == old(self).incomplete_roots@.remove(root@),
            final(self).pending_targets@ == old(self).pending_targets@,
            final(self).pending_incomplete == old(self).pending_incomplete,
            updates_are(
                r,
                final(self)@,
                final(self).incomplete_roots@,
                documents@,
                targets_of(old(self)@, root@),
            ),
    {
        let previous = self.drop_report(root);
        self.aggregate_diagnostic_publications(documents, &previous)
    }

    /// Forgets the report of a root, and puts its targets and the root itself in the
    /// queue.
    pub fn stage_clear_diagnostic_publications(&mut self, root: &str)
        requires
            old(self).wf(),
            uri_bytes(
                old(self).pending_targets@.union(
                    targets_of(old(self)@, root@).insert(root@),
                ),
            ) <= usize::MAX,
        ensures
            final(self).wf(),
            final(self)@ == old(self)@.remove(root@),
            final(self).incomplete_roots@ == old(self).incomplete_roots@.remove(root@),
            final(self).pending_targets@ == old(self).pending_targets@.union(
                targets_of(old(self)@, root@).insert(root@),
            ),
            final(self).pending_incomplete == old(self).pending_incomplete,
    {
        let mut affected = self.drop_report(root);
        let _added = affected.insert(root.to_owned());
        self.enqueue_diagnostic_publication_targets(&affected);
    }

    /// Marks the report of a root as stale and puts its targets in the queue.
    pub fn mark_diagnostic_publication_root_stale(&mut self, root: &str) -> (r: StrSet)
        requires
            old(self).wf(),
            uri_bytes(old(self).pending_targets@.union(targets_of(old(self)@, root@)))
                <= usize::MAX,
        ensures
            final(self).wf(),
            final(self)@ == old(self)@,
            r@ == targets_of(old(self)@, root@),
            final(self).incomplete_roots@ == (if old(self)@.contains_key(root@) {
                old(self).incomplete_roots@.insert(root@)
            } else {
                old(self).incomplete_roots@
            }),
            final(self).pending_targets@ == old(self).pending_targets@.union(
                targets_of(old(self)@, root@),
            ),
            final(self).pending_incomplete == old(self).pending_incomplete,
    {
        let targets = match self.reports.get(root) {
            Some(report) => report.targets.key_set(),
            None => {
                let none = StrSet::new();
                proof {
                    assert(self.pending_targets@.union(none@) =~= self.pending_targets@);
                }
                return none;
            },
        };
        proof {
            assert(targets@ =~= targets_of(self@, root@));
        }
        let _added = self.incomplete_roots.insert(root.to_owned());
        self.enqueue_diagnostic_publication_targets(&targets);
        targets
    }

    /// The first target of the queue, with what is to be reported for it.
    pub fn peek_pending_diagnostic_publication(&self, documents: &OpenDocuments) -> (r: Option<
        (String, Option<DiagnosticPublication>, bool),
    >)
        ensures
            match r {
                Some((uri, publication, incomplete)) => {
                    let expected = aggregated(
                        self@,
                        self.incomplete_roots@,
                        in_order(self@.dom()),
                        uri@,
                    );
                    &&& self.pending_targets@.len() > 0
                    &&& uri@ == in_order(self.pending_targets@)[0]
                    &&& self.pending_targets@.contains(uri@)
                    &&& incomplete == expected.1
                    &&& match publication {
                        Some(publication) => expected.0 == Some(publication@.diagnostics)
                            && publication@.uri == uri@,
                        None => expected.0 is None,
                    }
                },
                None => self.pending_targets@.len() == 0,
            },
    {
        if self.pending_targets.len() == 0 {
            return None;
        }
        let uri = self.pending_targets.at(0);
        let (publication, incomplete) = self.aggregate_diagnostic_publication(
            documents,
            uri.as_str(),
        );
        Some((uri.clone(), publication, incomplete))
    }

    /// Takes a target out of the queue.
    pub fn complete_pending_diagnostic_publication(&mut self, uri: &str)
        requires
            old(self).wf(),
        ensures
            final(self).wf(),
            final(self)@ == old(self)@,
            final(self).incomplete_roots == old(self).incomplete_roots,
            final(self).pending_targets@ == old(self).pending_targets@.remove(uri@),
            final(self).pending_incomplete == old(self).pending_incomplete,
    {
        proof {
            lemma_uri_bytes_remove(self.pending_targets@, uri@);
            lemma_uri_bytes_bounds(self.pending_targets@.remove(uri@));
        }
        if self.pending_targets.remove(uri) {
            self.pending_uri_bytes = self.pending_uri_bytes - byte_length(uri);
        }
    }

    /// The number of targets in the queue.
    pub fn pending_diagnostic_publication_count(&self) -> (r: usize)
        ensures
            r == self.pending_targets@.len(),
    {
        self.pending_targets.len()
    }

    /// Keeps in mind that something is missing from what was sent.
    pub fn mark_pending_diagnostic_publication_incomplete(&mut self)
        ensures
            *final(self) == (Publications { pending_incomplete: true, ..*old(self) }),
    {
        self.pending_incomplete = true;
    }

    /// Whether something is missing from what was sent; asked once, it is forgotten.
    pub fn take_pending_diagnostic_publication_incomplete(&mut self) -> (r: bool)
        ensures
            r == old(self).pending_incomplete,
            *final(self) == (Publications { pending_incomplete: false, ..*old(self) }),
    {
        let r = self.pending_incomplete;
        self.pending_incomplete = false;
        r
    }
}

proof fn lemma_union_bytes(a: Set<Seq<char>>, b: Set<Seq<char>>)
    requires
        a.finite(),
        b.finite(),
    ensures
        a.union(b).finite(),
        uri_bytes(a.union(b)) <= uri_bytes(a) + uri_bytes(b),
        a.union(b).len() <= a.len() + b.len(),
    decreases b.len(),
{
    lemma_uri_bytes_bounds(a);
    if b.len() == 0 {
        assert(b =~= Set::<Seq<char>>::empty());
        assert(a.union(b) =~= a);
    } else {
        let x = b.choose();
        lemma_union_bytes(a, b.remove(x));
        assert(a.union(b) =~= a.union(b.remove(x)).insert(x));
        lemma_uri_bytes_insert(a.union(b.remove(x)), x);
        lemma_uri_bytes_remove(b, x);
    }
}

/// A code that says that the finding rests on what other units declare.
pub open spec fn semantic_code(code: Option<Seq<char>>) -> bool {
    ||| code == Some("pascal-unresolved-identifier"@)
    ||| code == Some("pascal-missing-member"@)
    ||| code == Some("pascal-type-mismatch"@)
    ||| code == Some("pascal-incompatible-argument"@)
}

fn is_semantic_code(code: &Option<String>) -> (r: bool)
    ensures
        r == semantic_code(optional_text(*code)),
{
    match code {
        Some(code) => same_str(code.as_str(), "pascal-unresolved-identifier") || same_str(
            code.as_str(),
            "pascal-missing-member",
        ) || same_str(code.as_str(), "pascal-type-mismatch") || same_str(
            code.as_str(),
            "pascal-incompatible-argument",
        ),
        None => false,
    }
}

pub open spec fn list_has_claim(list: Seq<DiagnosticView>) -> bool {
    exists|i: int| 0 <= i < list.len() && semantic_code((#[trigger] list[i]).code)
}

/// A report has a finding that rests on what other units declare.
pub open spec fn report_has_claim(report: Report) -> bool {
    exists|uri: Seq<char>| #[trigger] report.contains_key(uri) && list_has_claim(report[uri])
}

impl DiagnosticList {
    fn has_claim(&self) -> (r: bool)
        ensures
            r == list_has_claim(self@),
    {
        let mut i: usize = 0;
        while i < self.items.len()
            invariant
                i <= self.items@.len(),
                forall|j: int| 0 <= j < i ==> !semantic_code((#[trigger] self@[j]).code),
            decreases self.items@.len() - i,
        {
            if is_semantic_code(&self.items[i].code) {
                proof {
                    assert(semantic_code(self@[i as int].code));
                }
                return true;
            }
            i += 1;
        }
        false
    }
}

impl Reports {
    fn has_claim(&self) -> (r: bool)
        ensures
            r == report_has_claim(self@),
    {
        let n = self.targets.len();
        let ghost keys = self.targets.keys();
        let mut i: usize = 0;
        while i < n
            invariant
                keys == self.targets.keys(),
                n == keys.len(),
                i <= n,
                forall|j: int| 0 <= j < i ==> !list_has_claim(self@[#[trigger] keys[j]]),
            decreases n - i,
        {
            if self.targets.value_at(i).has_claim() {
                proof {
                    assert(self@.contains_key(keys[i as int]));
                }
                return true;
            }
            i += 1;
        }
        proof {
            assert forall|uri: Seq<char>| #[trigger] self@.contains_key(uri) implies !list_has_claim(
                self@[uri],
            ) by {
                assert(keys.contains(uri));
                let j = choose|j: int| 0 <= j < keys.len() && keys[j] == uri;
            }
        }
        false
    }
}

impl Publications {
    /// The open documents whose reports hold a finding that rests on other units.
    pub fn open_diagnostic_roots_with_semantic_claims(&self, documents: &OpenDocuments) -> (r:
        StrSet)
        ensures
            forall|root: Seq<char>|
                r@.contains(root) <==> #[trigger] self@.contains_key(root) && documents@.contains_key(
                    root,
                ) && report_has_claim(self@[root]),
    {
        let n = self.reports.len();
        let ghost keys = self.reports.keys();
        let mut r = StrSet::new();
        let mut i: usize = 0;
        while i < n
            invariant
                keys == self.reports.keys(),
                n == keys.len(),
                i <= n,
                keys.no_duplicates(),
                forall|root: Seq<char>|
                    r@.contains(root) <==> exists|j: int|
                        0 <= j < i && root == #[trigger] keys[j] && documents@.contains_key(root)
                            && report_has_claim(self@[root]),
            decreases n - i,
        {
            let root = self.reports.key_at(i);
            let report = self.reports.value_at(i);
            proof {
                assert(self@[keys[i as int]] == report@);
            }
            if documents.contains(root.as_str()) && report.has_claim() {
                let _added = r.insert(root.clone());
            }
            i += 1;
        }
        proof {
            assert forall|root: Seq<char>|
                r@.contains(root) <==> #[trigger] self@.contains_key(root) && documents@.contains_key(
                    root,
                ) && report_has_claim(self@[root]) by {
                if self@.contains_key(root) {
                    assert(keys.contains(root));
                    let j = choose|j: int| 0 <= j < keys.len() && keys[j] == root;
                }
                if r@.contains(root) {
                    let j = choose|j: int|
                        0 <= j < i && root == #[trigger] keys[j] && documents@.contains_key(root)
                            && report_has_claim(self@[root]);
                    assert(keys.contains(keys[j]));
                }
            }
        }
        r
    }
}

/// A target that only stale reports name is not reported at all, not even as free of
/// findings.
pub proof fn law_stale_reports_alone_say_nothing(
    reports: Map<Seq<char>, Report>,
    stale: Set<Seq<char>>,
    uri: Seq<char>,
    owner: Seq<char>,
)
    requires
        finite_reports(reports),
        stale_owner(reports, stale, owner, uri),
        forall|root: Seq<char>| !current_owner(reports, stale, root, uri),
    ensures
        aggregated(reports, stale, in_order(reports.dom()), uri) == (
            None::<Seq<DiagnosticView>>,
            true,
        ),
{
    lemma_finite_set_has_order(reports.dom());
    assert(in_order(reports.dom()).to_set().contains(owner));
    assert(in_order(reports.dom()).contains(owner));
}

/// A target that no report names is reported as free of findings: so the last root that
/// named it clears it when it is forgotten.
pub proof fn law_unowned_target_is_cleared(
    reports: Map<Seq<char>, Report>,
    stale: Set<Seq<char>>,
    uri: Seq<char>,
)
    requires
        forall|root: Seq<char>|
            reports.contains_key(root) ==> !(#[trigger] reports[root]).contains_key(uri),
    ensures
        aggregated(reports, stale, in_order(reports.dom()), uri) == (
            Some(Seq::<DiagnosticView>::empty()),
            false,
        ),
{
    let roots = in_order(reports.dom());
    lemma_no_owner(reports, stale, roots, uri, roots.len() as int);
    assert forall|root: Seq<char>|
        !current_owner(reports, stale, root, uri) && !stale_owner(reports, stale, root, uri) by {
        if reports.contains_key(root) {
            assert(!reports[root].contains_key(uri));
        }
    }
}

proof fn lemma_no_owner(
    reports: Map<Seq<char>, Report>,
    stale: Set<Seq<char>>,
    roots: Seq<Seq<char>>,
    uri: Seq<char>,
    n: int,
)
    requires
        n <= roots.len(),
        forall|root: Seq<char>|
            reports.contains_key(root) ==> !(#[trigger] reports[root]).contains_key(uri),
    ensures
        aggregate_roots(reports, stale, roots, uri, n) == Some(
            Aggregate { diagnostics: Seq::empty(), bytes: 0, visits: 0 },
        ),
    decreases n,
{
    if n > 0 {
        lemma_no_owner(reports, stale, roots, uri, n - 1);
        let root = roots[n - 1];
        if reports.contains_key(root) {
            assert(!reports[root].contains_key(uri));
        }
    }
}

/// The finding is in a current report for the target.
pub open spec fn found_now(
    reports: Map<Seq<char>, Report>,
    stale: Set<Seq<char>>,
    uri: Seq<char>,
    d: DiagnosticView,
) -> bool {
    exists|root: Seq<char>| #[trigger]
        current_owner(reports, stale, root, uri) && reports[root][uri].contains(d)
}

/// What is reported for a target was found by roots whose reports are current, no
/// finding of a stale root is among it, none is there twice, and it is within bounds.
pub proof fn law_reported_findings_are_current(
    reports: Map<Seq<char>, Report>,
    stale: Set<Seq<char>>,
    roots: Seq<Seq<char>>,
    uri: Seq<char>,
)
    ensures
        aggregated(reports, stale, roots, uri).0 matches Some(list) ==> {
            &&& list.len() <= MAX_PUBLISHED_DIAGNOSTICS
            &&& forall|i: int|
                0 <= i < list.len() ==> found_now(reports, stale, uri, #[trigger] list[i])
            &&& forall|i: int, j: int|
                0 <= i < j < list.len() ==> (#[trigger] list[i]).encoded() != (
                #[trigger] list[j]).encoded()
        },
{
    lemma_roots_findings(reports, stale, roots, uri, roots.len() as int);
}

spec fn sound_findings(
    reports: Map<Seq<char>, Report>,
    stale: Set<Seq<char>>,
    uri: Seq<char>,
    list: Seq<DiagnosticView>,
) -> bool {
    &&& list.len() <= MAX_PUBLISHED_DIAGNOSTICS
    &&& forall|i: int| 0 <= i < list.len() ==> found_now(reports, stale, uri, #[trigger] list[i])
    &&& forall|i: int| 0 <= i < list.len() ==> (#[trigger] list[i]).encoded() is Some
    &&& forall|i: int, j: int|
        0 <= i < j < list.len() ==> (#[trigger] list[i]).encoded() != (#[trigger] list[j]).encoded()
}

proof fn lemma_roots_findings(
    reports: Map<Seq<char>, Report>,
    stale: Set<Seq<char>>,
    roots: Seq<Seq<char>>,
    uri: Seq<char>,
    n: int,
)
    requires
        n <= roots.len(),
    ensures
        aggregate_roots(reports, stale, roots, uri, n) matches Some(a) ==> sound_findings(
            reports,
            stale,
            uri,
            a.diagnostics,
        ),
    decreases n,
{
    if n > 0 {
        lemma_roots_findings(reports, stale, roots, uri, n - 1);
        if let Some(a) = aggregate_roots(reports, stale, roots, uri, n - 1) {
            let root = roots[n - 1];
            if current_owner(reports, stale, root, uri) {
                let list = reports[root][uri];
                lemma_list_findings(reports, stale, root, uri, a, list.len() as int);
            }
        }
    }
}

proof fn lemma_list_findings(
    reports: Map<Seq<char>, Report>,
    stale: Set<Seq<char>>,
    root: Seq<char>,
    uri: Seq<char>,
    a: Aggregate,
    n: int,
)
    requires
        current_owner(reports, stale, root, uri),
        n <= reports[root][uri].len(),
        sound_findings(reports, stale, uri, a.diagnostics),
    ensures
        aggregate_list(a, reports[root][uri], n) matches Some(b) ==> sound_findings(
            reports,
            stale,
            uri,
            b.diagnostics,
        ),
    decreases n,
{
    if n > 0 {
        lemma_list_findings(reports, stale, root, uri, a, n - 1);
        if let Some(b) = aggregate_list(a, reports[root][uri], n - 1) {
            let d = reports[root][uri][n - 1];
            assert(reports[root][uri].contains(d));
            assert(found_now(reports, stale, uri, d));
            if let Some(c) = aggregate_one(b, d) {
                if !has_encoded(b.diagnostics, d.encoded()->0) {
                    assert forall|i: int, j: int| 0 <= i < j < c.diagnostics.len() implies (
                    #[trigger] c.diagnostics[i]).encoded() != (
                    #[trigger] c.diagnostics[j]).encoded() by {
                        if j == b.diagnostics.len() {
                            assert(b.diagnostics[i].encoded() != Some(d.encoded()->0));
                        }
                    }
                }
            }
        }
    }
}


} // verus!
