//! Whether a result still holds, and who has to be told of a change.

use vstd::prelude::*;

use crate::access::{scope_accepts, scope_path_is_accepted};
use crate::budget::{
    ReconciliationBudget, ReconciliationWorkUsed, MAX_NOTIFICATION_DIAGNOSTIC_RECORD_CHECKS,
    MAX_NOTIFICATION_RECONCILIATION_DEPENDENCY_EDGES,
};
use crate::cancel::Interrupt;
use crate::documents::{DocumentView, OpenDocuments};
use crate::excludes::WorkspaceRoot;
use crate::generations::{Generations, GenerationsView};
use crate::keymap::KeyMap;
use crate::paths::{equal_ci, paths_equal_ci, FilePath, Parts};
use crate::project::DiskStamp;
use crate::records::{
    concerned, dependency_uri_of, source_record_matches_change, RecordView, SourceRecord,
};
use crate::sorting::views;
use crate::strings::{concat3, same_str, texts};
use crate::strmap::{in_order, StrMap};
use crate::uris::{canonical, canonical_file_uri, normal, normal_path, path_uri, uri_of_path};

verus! {

/// Why a result does not hold any more.
#[derive(Debug)]
pub enum Staleness {
    EmptyReadSet,
    Structure,
    Dependency(String),
    Disappeared(String),
    Unreadable(String),
    Source(String),
    Closed(String),
}

/// Why a result does not hold any more.
pub enum StalenessView {
    EmptyReadSet,
    Structure,
    Dependency(Seq<char>),
    Disappeared(Seq<char>),
    Unreadable(Seq<char>),
    Source(Seq<char>),
    Closed(Seq<char>),
}

impl View for Staleness {
    type V = StalenessView;

    open spec fn view(&self) -> StalenessView {
        match self {
            Staleness::EmptyReadSet => StalenessView::EmptyReadSet,
            Staleness::Structure => StalenessView::Structure,
            Staleness::Dependency(uri) => StalenessView::Dependency(uri@),
            Staleness::Disappeared(uri) => StalenessView::Disappeared(uri@),
            Staleness::Unreadable(uri) => StalenessView::Unreadable(uri@),
            Staleness::Source(uri) => StalenessView::Source(uri@),
            Staleness::Closed(uri) => StalenessView::Closed(uri@),
        }
    }
}

/// How the reason reads.
pub open spec fn staleness_text(reason: StalenessView) -> Seq<char> {
    match reason {
        StalenessView::EmptyReadSet =>
            "analysis read set was empty after workspace state changed"@,
        StalenessView::Structure => "workspace structure changed while resolving the request"@,
        StalenessView::Dependency(uri) => "analysis dependency changed while resolving "@ + uri
            + "; retry the request"@,
        StalenessView::Disappeared(uri) => "open document disappeared while resolving "@ + uri
            + "; retry the request"@,
        StalenessView::Unreadable(uri) => "open document became unreadable while resolving "@
            + uri + "; retry the request"@,
        StalenessView::Source(uri) => "source changed while resolving "@ + uri
            + "; retry the request"@,
        StalenessView::Closed(uri) => "closed source changed while resolving "@ + uri
            + "; retry the request"@,
    }
}

impl Staleness {
    /// How the reason reads.
    pub fn message(&self) -> (r: String)
        ensures
            r@ == staleness_text(self@),
    {
        match self {
            Staleness::EmptyReadSet =>
                "analysis read set was empty after workspace state changed".to_owned(),
            Staleness::Structure =>
                "workspace structure changed while resolving the request".to_owned(),
            Staleness::Dependency(uri) => concat3(
                "analysis dependency changed while resolving ",
                uri.as_str(),
                "; retry the request",
            ),
            Staleness::Disappeared(uri) => concat3(
                "open document disappeared while resolving ",
                uri.as_str(),
                "; retry the request",
            ),
            Staleness::Unreadable(uri) => concat3(
                "open document became unreadable while resolving ",
                uri.as_str(),
                "; retry the request",
            ),
            Staleness::Source(uri) => concat3(
                "source changed while resolving ",
                uri.as_str(),
                "; retry the request",
            ),
            Staleness::Closed(uri) => concat3(
                "closed source changed while resolving ",
                uri.as_str(),
                "; retry the request",
            ),
        }
    }
}

/// A changed path that a search for providers would look at, and whether the text that is
/// open there provides anything.
#[derive(Debug)]
pub struct AutoImportHit {
    pub path: FilePath,
    pub relevant: bool,
}

/// What the text that is open under the URI of a record hashes to, and whether it parses
/// otherwise than the recorded one.
#[derive(Clone, Copy, Debug, PartialEq, Eq, Structural)]
pub struct OverlayFacts {
    pub bytes_hash: u64,
    pub text_hash: u64,
    pub parsed_changed: bool,
}

/// What is known of a record besides what it holds.
#[derive(Debug)]
pub struct RecordFacts {
    /// The changed paths that its scope speaks of and allows.
    pub scope_paths: Vec<FilePath>,
    /// The changed paths that its searches for providers would look at.
    pub auto_imports: Vec<AutoImportHit>,
    /// Nothing that is searched for is in the text that is open in its place.
    pub overlay_irrelevant: bool,
    pub overlay: OverlayFacts,
}

/// What a result is held against.
pub struct Current<'a> {
    pub generations: &'a Generations,
    pub documents: &'a OpenDocuments,
    pub roots: &'a Vec<WorkspaceRoot>,
    pub disk_stamps: &'a StrMap<DiskStamp>,
}

/// A path changed after a generation.
pub open spec fn changed_after(v: GenerationsView, path: Parts, generation: u64) -> bool {
    v.observations.contains_key(path) && v.observations[path] > generation
}

/// A path that is this one but for its case changed after a generation.
pub open spec fn changed_after_ci(v: GenerationsView, path: Parts, generation: u64) -> bool {
    exists|other: Parts| #[trigger]
        changed_after(v, other, generation) && equal_ci(other, path)
}

/// One of the candidates of a record changed after a generation.
pub open spec fn candidate_changed(v: GenerationsView, record: RecordView, generation: u64) -> bool {
    exists|i: int|
        0 <= i < record.candidates.len() && changed_after_ci(
            v,
            #[trigger] record.candidates[i],
            generation,
        )
}

/// One of the paths that a scope speaks of changed after a generation, and counts in it.
pub open spec fn scope_changed(current: Current, record: RecordView, paths: Seq<Parts>, generation: u64) -> bool {
    record.missing_provider_scope is Some && exists|i: int|
        0 <= i < paths.len() && changed_after(
            current.generations@,
            #[trigger] paths[i],
            generation,
        ) && scope_accepts(
            current.roots@,
            paths[i],
            record.missing_provider_scope->0.path_entry.provenance is Mapped,
        )
}

/// What is open at a path has a text.
pub open spec fn text_open_at(documents: Map<Seq<char>, DocumentView>, path: Parts) -> bool {
    path_uri(path) is Some && documents.contains_key(path_uri(path)->0)
        && documents[path_uri(path)->0].text is Some
}

/// A change matters to a search for providers. A closed source always may.
pub open spec fn provider_hit(current: Current, hit: AutoImportHit, generation: u64) -> bool {
    changed_after(current.generations@, hit.path@, generation) && (!text_open_at(
        current.documents@,
        hit.path@,
    ) || hit.relevant)
}

/// Some change matters to a search for providers.
pub open spec fn provider_changed(current: Current, hits: Seq<AutoImportHit>, generation: u64) -> bool {
    exists|i: int| 0 <= i < hits.len() && provider_hit(current, #[trigger] hits[i], generation)
}

/// What is open in the place of a record takes the place of what it recorded, and nothing
/// that is searched for is in it.
pub open spec fn superseded(documents: Map<Seq<char>, DocumentView>, record: RecordView, irrelevant: bool) -> bool {
    &&& record.auto_import_provider_observation
    &&& record.path is Some
    &&& path_uri(normal(record.path->0)) is Some
    &&& documents.contains_key(canonical(path_uri(normal(record.path->0))->0))
    &&& documents[canonical(path_uri(normal(record.path->0))->0)].text is Some
    &&& irrelevant
}

/// A URI changed after a generation.
pub open spec fn noted_after(changes: Map<Seq<char>, u64>, uri: Seq<char>, generation: u64) -> bool {
    changes.contains_key(uri) && changes[uri] > generation
}

/// The text that is open is not the one that was recorded.
pub open spec fn overlay_changed(record: RecordView, text: Seq<char>, overlay: OverlayFacts) -> bool {
    (match record.content_hash {
        None => text != record.text,
        Some(expected) => if record.text.len() == 0 {
            overlay.bytes_hash != expected
        } else {
            overlay.text_hash != expected
        },
    }) || overlay.parsed_changed
}

/// Something that a record rests on changed after the generations.
pub open spec fn dependency_changed(
    current: Current,
    record: RecordView,
    facts: RecordFacts,
    source: u64,
    configuration: u64,
) -> bool {
    let v = current.generations@;
    let uri = dependency_uri_of(record);
    ||| !record.open && noted_after(v.source_changes, uri, source) && !superseded(
        current.documents@,
        record,
        facts.overlay_irrelevant,
    )
    ||| record.missing_provider_candidate && record.path is Some && changed_after_ci(
        v,
        record.path->0,
        source,
    )
    ||| scope_changed(current, record, views(facts.scope_paths@), source)
    ||| candidate_changed(v, record, source)
    ||| provider_changed(current, facts.auto_imports@, source)
    ||| noted_after(v.configuration_changes, uri, configuration)
}

/// Why a record does not hold any more.
pub open spec fn record_staleness(
    current: Current,
    record: RecordView,
    facts: RecordFacts,
    source: u64,
    configuration: u64,
) -> Option<StalenessView> {
    let documents = current.documents@;
    let stamps = current.disk_stamps@;
    let uri = dependency_uri_of(record);
    if dependency_changed(current, record, facts, source, configuration) {
        Some(StalenessView::Dependency(record.uri))
    } else if record.open {
        if !documents.contains_key(record.uri) {
            Some(StalenessView::Disappeared(record.uri))
        } else if documents[record.uri].text is None {
            Some(StalenessView::Unreadable(record.uri))
        } else if overlay_changed(record, documents[record.uri].text->0, facts.overlay) {
            Some(StalenessView::Source(record.uri))
        } else {
            None
        }
    } else if record.path is None && record.stamp is Some && stamps.contains_key(uri)
        && record.stamp->0 != stamps[uri] {
        Some(StalenessView::Closed(record.uri))
    } else {
        None
    }
}

/// Why one of the records from the `i`-th on does not hold any more: the first.
pub open spec fn records_staleness(
    current: Current,
    records: Seq<RecordView>,
    facts: Seq<RecordFacts>,
    source: u64,
    configuration: u64,
    i: int,
) -> Option<StalenessView>
    decreases records.len() - i,
{
    if i < 0 || i >= records.len() {
        None
    } else {
        match record_staleness(current, records[i], facts[i], source, configuration) {
            Some(reason) => Some(reason),
            None => records_staleness(current, records, facts, source, configuration, i + 1),
        }
    }
}

/// Why a result that was computed in some generations does not hold any more.
pub open spec fn result_staleness(
    current: Current,
    records: Seq<RecordView>,
    facts: Seq<RecordFacts>,
    source: u64,
    configuration: u64,
) -> Option<StalenessView> {
    let v = current.generations@;
    if records.len() == 0 && (source != v.source || configuration != v.configuration) {
        Some(StalenessView::EmptyReadSet)
    } else if v.global_source > source || v.global_configuration > configuration {
        Some(StalenessView::Structure)
    } else {
        records_staleness(current, records, facts, source, configuration, 0)
    }
}

fn path_changed(observations: &KeyMap<FilePath, u64>, path: &FilePath, generation: u64) -> (r: bool)
    ensures
        r == (observations@.contains_key(path@) && observations@[path@] > generation),
{
    match observations.get(path) {
        Some(changed) => *changed > generation,
        None => false,
    }
}

fn path_changed_ci(generations: &Generations, path: &FilePath, generation: u64) -> (r: bool)
    ensures
        r == changed_after_ci(generations@, path@, generation),
{
    let n: usize = generations.observations.len();
    let ghost keys = generations.observations.keys();
    let ghost v = generations@;
    let mut i: usize = 0;
    while i < n
        invariant
            i <= n,
            n == keys.len(),
            keys == generations.observations.keys(),
            v == generations@,
            forall|j: int|
                0 <= j < i ==> !(changed_after(v, #[trigger] keys[j], generation) && equal_ci(
                    keys[j],
                    path@,
                )),
        decreases n - i,
    {
        if *generations.observations.value_at(i) > generation && paths_equal_ci(
            generations.observations.key_at(i),
            path,
        ) {
            proof {
                assert(changed_after(v, keys[i as int], generation));
            }
            return true;
        }
        i += 1;
    }
    proof {
        assert forall|other: Parts| #[trigger] changed_after(v, other, generation) implies !equal_ci(
            other,
            path@,
        ) by {
            assert(keys.contains(other));
            let j = choose|j: int| 0 <= j < keys.len() && keys[j] == other;
            assert(!(changed_after(v, keys[j], generation) && equal_ci(keys[j], path@)));
        }
    }
    false
}

fn any_candidate_changed(generations: &Generations, record: &SourceRecord, generation: u64) -> (r:
    bool)
    ensures
        r == candidate_changed(generations@, record@, generation),
{
    let ghost list = record@.candidates;
    let mut i: usize = 0;
    while i < record.candidates.len()
        invariant
            i <= record.candidates@.len(),
            list == record@.candidates,
            list == views(record.candidates@),
            forall|j: int|
                0 <= j < i ==> !changed_after_ci(generations@, #[trigger] list[j], generation),
        decreases record.candidates@.len() - i,
    {
        proof {
            assert(list[i as int] == record.candidates@[i as int]@);
        }
        if path_changed_ci(generations, &record.candidates[i], generation) {
            return true;
        }
        i += 1;
    }
    false
}

impl<'a> Current<'a> {
    fn scope_is_changed(&self, record: &SourceRecord, paths: &Vec<FilePath>, generation: u64) -> (r:
        bool)
        ensures
            r == scope_changed(*self, record@, views(paths@), generation),
    {
        let mapped = match &record.missing_provider_scope {
            Some(scope) => scope.path_entry.provenance.is_mapped(),
            None => {
                return false;
            },
        };
        let ghost list = views(paths@);
        let mut i: usize = 0;
        while i < paths.len()
            invariant
                i <= paths@.len(),
                list == views(paths@),
                record@.missing_provider_scope is Some,
                mapped == (record@.missing_provider_scope->0.path_entry.provenance is Mapped),
                forall|j: int|
                    0 <= j < i ==> !(changed_after(
                        self.generations@,
                        #[trigger] list[j],
                        generation,
                    ) && scope_accepts(self.roots@, list[j], mapped)),
            decreases paths@.len() - i,
        {
            proof {
                assert(list[i as int] == paths@[i as int]@);
            }
            if path_changed(&self.generations.observations, &paths[i], generation)
                && scope_path_is_accepted(self.roots, &paths[i], mapped) {
                return true;
            }
            i += 1;
        }
        false
    }

    fn has_text_at(&self, path: &FilePath) -> (r: bool)
        ensures
            r == text_open_at(self.documents@, path@),
    {
        match uri_of_path(path) {
            Some(uri) => match self.documents.get(uri.as_str()) {
                Some(document) => document.text.is_some(),
                None => false,
            },
            None => false,
        }
    }

    fn provider_is_changed(&self, hits: &Vec<AutoImportHit>, generation: u64) -> (r: bool)
        ensures
            r == provider_changed(*self, hits@, generation),
    {
        let mut i: usize = 0;
        while i < hits.len()
            invariant
                i <= hits@.len(),
                forall|j: int|
                    0 <= j < i ==> !provider_hit(*self, #[trigger] hits@[j], generation),
            decreases hits@.len() - i,
        {
            if path_changed(&self.generations.observations, &hits[i].path, generation) && (
            !self.has_text_at(&hits[i].path) || hits[i].relevant) {
                proof {
                    assert(provider_hit(*self, hits@[i as int], generation));
                }
                return true;
            }
            i += 1;
        }
        false
    }

    /// Whether what is open in the place of a record takes its place, with nothing in it
    /// that is searched for.
    pub fn path_record_is_superseded_by_irrelevant_overlay(
        &self,
        record: &SourceRecord,
        irrelevant: bool,
    ) -> (r: bool)
        ensures
            r == superseded(self.documents@, record@, irrelevant),
    {
        if !record.auto_import_provider_observation {
            return false;
        }
        match &record.path {
            Some(path) => match uri_of_path(&normal_path(path)) {
                Some(uri) => match self.documents.get(canonical_file_uri(uri.as_str()).as_str()) {
                    Some(document) => document.text.is_some() && irrelevant,
                    None => false,
                },
                None => false,
            },
            None => false,
        }
    }

    fn judge_record(
        &self,
        record: &SourceRecord,
        facts: &RecordFacts,
        source: u64,
        configuration: u64,
    ) -> (r: Option<Staleness>)
        ensures
            (match r {
                Some(reason) => Some(reason@),
                None => None,
            }) == record_staleness(*self, record@, *facts, source, configuration),
    {
        let uri = record.dependency_uri();
        let noted = match self.generations.source_changes.get(uri.as_str()) {
            Some(generation) => *generation > source,
            None => false,
        };
        let configured = match self.generations.configuration_changes.get(uri.as_str()) {
            Some(generation) => *generation > configuration,
            None => false,
        };
        let missed = record.missing_provider_candidate && match &record.path {
            Some(path) => path_changed_ci(self.generations, path, source),
            None => false,
        };
        let changed = (!record.open && noted
            && !self.path_record_is_superseded_by_irrelevant_overlay(
            record,
            facts.overlay_irrelevant,
        )) || missed || self.scope_is_changed(record, &facts.scope_paths, source)
            || any_candidate_changed(self.generations, record, source)
            || self.provider_is_changed(&facts.auto_imports, source) || configured;
        if changed {
            return Some(Staleness::Dependency(record.uri.clone()));
        }
        if record.open {
            let document = match self.documents.get(record.uri.as_str()) {
                Some(document) => document,
                None => {
                    return Some(Staleness::Disappeared(record.uri.clone()));
                },
            };
            let text = match &document.text {
                Some(text) => text,
                None => {
                    return Some(Staleness::Unreadable(record.uri.clone()));
                },
            };
            let recorded = crate::strings::chars_of(record.text.as_str());
            let other = match record.content_hash {
                None => !same_str(text.as_str(), record.text.as_str()),
                Some(expected) => if recorded.len() == 0 {
                    facts.overlay.bytes_hash != expected
                } else {
                    facts.overlay.text_hash != expected
                },
            };
            if other || facts.overlay.parsed_changed {
                return Some(Staleness::Source(record.uri.clone()));
            }
            return None;
        }
        if record.path.is_none() {
            if let Some(expected) = record.stamp {
                if let Some(stamp) = self.disk_stamps.get(uri.as_str()) {
                    if expected != *stamp {
                        return Some(Staleness::Closed(record.uri.clone()));
                    }
                }
            }
        }
        None
    }

    /// Whether a result that was computed in some generations from what its records speak of
    /// still holds, without a look at the file system.
    pub fn dependency_scoped_result_is_fresh(
        &self,
        source_generation: u64,
        configuration_generation: u64,
        records: &Vec<SourceRecord>,
        facts: &Vec<RecordFacts>,
    ) -> (r: Result<(), Staleness>)
        requires
            records@.len() == facts@.len(),
        ensures
            (match r {
                Ok(_) => None,
                Err(reason) => Some(reason@),
            }) == result_staleness(
                *self,
                views(records@),
                facts@,
                source_generation,
                configuration_generation,
            ),
    {
        let ghost list = views(records@);
        proof {
            assert(list.len() == records@.len());
        }
        if records.len() == 0 && (source_generation != self.generations.source
            || configuration_generation != self.generations.configuration) {
            return Err(Staleness::EmptyReadSet);
        }
        if self.generations.global_source > source_generation
            || self.generations.global_configuration > configuration_generation {
            return Err(Staleness::Structure);
        }
        let mut i: usize = 0;
        while i < records.len()
            invariant
                i <= records@.len(),
                records@.len() == facts@.len(),
                list == views(records@),
                list.len() == records@.len(),
                result_staleness(
                    *self,
                    list,
                    facts@,
                    source_generation,
                    configuration_generation,
                ) == records_staleness(
                    *self,
                    list,
                    facts@,
                    source_generation,
                    configuration_generation,
                    i as int,
                ),
            decreases records@.len() - i,
        {
            proof {
                assert(list[i as int] == records@[i as int]@);
            }
            if let Some(reason) = self.judge_record(
                &records[i],
                &facts[i],
                source_generation,
                configuration_generation,
            ) {
                return Err(reason);
            }
            i += 1;
        }
        Ok(())
    }
}

proof fn lemma_staleness_found(
    current: Current,
    records: Seq<RecordView>,
    facts: Seq<RecordFacts>,
    source: u64,
    configuration: u64,
    i: int,
    k: int,
)
    requires
        0 <= i <= k < records.len(),
        record_staleness(current, records[k], facts[k], source, configuration) is Some,
    ensures
        records_staleness(current, records, facts, source, configuration, i) is Some,
    decreases k - i,
{
    if i < k && record_staleness(current, records[i], facts[i], source, configuration) is None {
        lemma_staleness_found(current, records, facts, source, configuration, i + 1, k);
    }
}

/// A result is never taken for current after a closed source that it was computed from
/// changed, unless the source was only looked at for what it might provide.
pub proof fn law_a_changed_source_makes_results_stale(
    current: Current,
    records: Seq<RecordView>,
    facts: Seq<RecordFacts>,
    source: u64,
    configuration: u64,
    k: int,
)
    requires
        0 <= k < records.len(),
        !records[k].open,
        !records[k].auto_import_provider_observation,
        noted_after(
            current.generations@.source_changes,
            dependency_uri_of(records[k]),
            source,
        ),
    ensures
        result_staleness(current, records, facts, source, configuration) is Some,
{
    lemma_staleness_found(current, records, facts, source, configuration, 0, k);
}

/// A result is never taken for current after the workspace as a whole changed.
pub proof fn law_a_global_change_makes_results_stale(
    current: Current,
    records: Seq<RecordView>,
    facts: Seq<RecordFacts>,
    source: u64,
    configuration: u64,
)
    requires
        current.generations@.global_source > source || current.generations@.global_configuration
            > configuration,
    ensures
        result_staleness(current, records, facts, source, configuration) is Some,
{
}

/// A result is never taken for current where the text of an open source that it was
/// computed from is another one now.
pub proof fn law_a_changed_text_makes_results_stale(
    current: Current,
    records: Seq<RecordView>,
    facts: Seq<RecordFacts>,
    source: u64,
    configuration: u64,
    k: int,
)
    requires
        0 <= k < records.len(),
        records[k].open,
        records[k].content_hash is None,
        current.documents@.contains_key(records[k].uri) ==> current.documents@[records[k].uri].text
            != Some(records[k].text),
    ensures
        result_staleness(current, records, facts, source, configuration) is Some,
{
    lemma_staleness_found(current, records, facts, source, configuration, 0, k);
}

/// The records of one document.
#[derive(Debug)]
pub struct RecordList {
    pub records: Vec<SourceRecord>,
}

impl View for RecordList {
    type V = Seq<RecordView>;

    open spec fn view(&self) -> Seq<RecordView> {
        views(self.records@)
    }
}

/// What the diagnostics of open documents were computed from.
#[derive(Debug)]
pub struct DiagnosticDependencies {
    pub by_document: StrMap<RecordList>,
}

impl View for DiagnosticDependencies {
    type V = Map<Seq<char>, Seq<RecordView>>;

    open spec fn view(&self) -> Map<Seq<char>, Seq<RecordView>> {
        self.by_document.deep()
    }
}

/// How many of the records from the `i`-th on are looked at until a change concerns one,
/// and whether it concerns one.
pub open spec fn search_records(
    records: Seq<RecordView>,
    changed: Seq<char>,
    include_parent: bool,
    i: int,
) -> (nat, bool)
    decreases records.len() - i,
{
    if i < 0 || i >= records.len() {
        (0, false)
    } else if concerned(records[i], changed, include_parent) {
        (1, true)
    } else {
        let rest = search_records(records, changed, include_parent, i + 1);
        (1 + rest.0, rest.1)
    }
}

/// The open documents of the first `n` whose diagnostics a change concerns, and how many
/// records are looked at to find them.
pub open spec fn dependents_of(
    dependencies: Map<Seq<char>, Seq<RecordView>>,
    documents: Map<Seq<char>, DocumentView>,
    changed: Seq<char>,
    include_parent: bool,
    n: int,
) -> (Seq<Seq<char>>, nat)
    decreases n,
{
    if n <= 0 {
        (seq![], 0)
    } else {
        let before = dependents_of(dependencies, documents, changed, include_parent, n - 1);
        let uri = in_order(dependencies.dom())[n - 1];
        if !documents.contains_key(uri) {
            before
        } else {
            let found = search_records(dependencies[uri], changed, include_parent, 0);
            (
                if found.1 {
                    before.0.push(uri)
                } else {
                    before.0
                },
                before.1 + found.0,
            )
        }
    }
}

/// Records were looked at on an account, as edges of the graph and as checks.
pub open spec fn looked_at_records(
    before: ReconciliationBudget,
    after: ReconciliationBudget,
    count: nat,
) -> bool {
    &&& after.same_records(&before)
    &&& after.exhausted == before.exhausted
    &&& after.used == (ReconciliationWorkUsed {
        dependency_edges: (before.used.dependency_edges + count) as usize,
        diagnostic_record_checks: (before.used.diagnostic_record_checks + count) as usize,
        ..before.used
    })
    &&& before.used.dependency_edges + count <= usize::MAX
    &&& before.used.diagnostic_record_checks + count <= usize::MAX
}

/// So many records can be looked at on an account.
pub open spec fn records_fit(budget: ReconciliationBudget, count: nat) -> bool {
    count > 0 ==> {
        &&& !budget.exhausted
        &&& budget.used.dependency_edges + count
            <= MAX_NOTIFICATION_RECONCILIATION_DEPENDENCY_EDGES
        &&& budget.used.diagnostic_record_checks + count
            <= MAX_NOTIFICATION_DIAGNOSTIC_RECORD_CHECKS
    }
}

/// At most so many records were looked at on an account before it was stopped.
pub open spec fn partly_looked_at_records(
    before: ReconciliationBudget,
    after: ReconciliationBudget,
    count: nat,
) -> bool {
    &&& after.used == (ReconciliationWorkUsed {
        dependency_edges: after.used.dependency_edges,
        diagnostic_record_checks: after.used.diagnostic_record_checks,
        ..before.used
    })
    &&& before.used.dependency_edges <= after.used.dependency_edges
        <= before.used.dependency_edges + count
    &&& before.used.diagnostic_record_checks <= after.used.diagnostic_record_checks
        <= before.used.diagnostic_record_checks + count
}

proof fn lemma_dependents_grow(
    dependencies: Map<Seq<char>, Seq<RecordView>>,
    documents: Map<Seq<char>, DocumentView>,
    changed: Seq<char>,
    include_parent: bool,
    i: int,
    n: int,
)
    requires
        i <= n,
    ensures
        dependents_of(dependencies, documents, changed, include_parent, i).1 <= dependents_of(
            dependencies,
            documents,
            changed,
            include_parent,
            n,
        ).1,
    decreases n - i,
{
    if i < n {
        lemma_dependents_grow(dependencies, documents, changed, include_parent, i, n - 1);
    }
}

impl DiagnosticDependencies {
    /// Nothing.
    pub fn new() -> (r: Self)
        ensures
            r@ == Map::<Seq<char>, Seq<RecordView>>::empty(),
    {
        let r = DiagnosticDependencies { by_document: StrMap::new() };
        proof {
            assert(r@ =~= Map::<Seq<char>, Seq<RecordView>>::empty());
        }
        r
    }

    /// Keeps what the diagnostics of a document were computed from, while it is open.
    pub fn record_diagnostic_dependencies(
        &mut self,
        documents: &OpenDocuments,
        uri: &str,
        records: Vec<SourceRecord>,
    )
        ensures
            final(self)@ == (if documents@.contains_key(uri@) {
                old(self)@.insert(uri@, views(records@))
            } else {
                old(self)@
            }),
    {
        if documents.contains(uri) {
            let list = RecordList { records };
            proof {
                crate::strmap::lemma_deep_insert(self.by_document@, uri@, list);
            }
            let _before = self.by_document.insert(uri.to_owned(), list);
        }
    }

    /// Forgets what the diagnostics of a document were computed from.
    pub fn forget_diagnostic_dependencies(&mut self, uri: &str)
        ensures
            final(self)@ == old(self)@.remove(uri@),
    {
        proof {
            crate::strmap::lemma_deep_remove(self.by_document@, uri@);
        }
        let _before = self.by_document.remove(uri);
    }

    /// Forgets everything.
    pub fn clear(&mut self)
        ensures
            final(self)@ == Map::<Seq<char>, Seq<RecordView>>::empty(),
    {
        *self = DiagnosticDependencies::new();
    }

    /// The open documents whose diagnostics a change concerns.
    pub fn diagnostic_dependents_for_change(
        &self,
        documents: &OpenDocuments,
        changed_uri: &str,
        include_parent: bool,
    ) -> (r: Vec<String>)
        ensures
            texts(r@) == dependents_of(
                self@,
                documents@,
                changed_uri@,
                include_parent,
                self@.dom().len() as int,
            ).0,
    {
        let ghost all = self@;
        let n: usize = self.by_document.len();
        let ghost keys = self.by_document.keys();
        proof {
            assert(all.dom() =~= self.by_document@.dom());
        }
        let mut found: Vec<String> = Vec::new();
        let mut i: usize = 0;
        proof {
            assert(texts(found@) =~= seq![]);
        }
        while i < n
            invariant
                i <= n,
                n == keys.len(),
                all == self@,
                keys == self.by_document.keys(),
                keys == in_order(all.dom()),
                texts(found@) == dependents_of(
                    all,
                    documents@,
                    changed_uri@,
                    include_parent,
                    i as int,
                ).0,
            decreases n - i,
        {
            let uri = self.by_document.key_at(i);
            if documents.contains(uri.as_str()) {
                let list = self.by_document.value_at(i);
                let ghost records = list@;
                proof {
                    assert(all[keys[i as int]] == records);
                }
                let mut k: usize = 0;
                let mut hit = false;
                while k < list.records.len() && !hit
                    invariant
                        k <= list.records@.len(),
                        records == views(list.records@),
                        hit ==> search_records(records, changed_uri@, include_parent, 0).1,
                        !hit ==> search_records(records, changed_uri@, include_parent, 0).1
                            == search_records(
                            records,
                            changed_uri@,
                            include_parent,
                            k as int,
                        ).1,
                    decreases list.records@.len() - k,
                {
                    proof {
                        assert(records[k as int] == list.records@[k as int]@);
                    }
                    hit = source_record_matches_change(
                        &list.records[k],
                        changed_uri,
                        include_parent,
                    );
                    k += 1;
                }
                if hit {
                    let ghost held = found@;
                    let copied = uri.clone();
                    found.push(copied);
                    proof {
                        assert(texts(found@) =~= texts(held).push(copied@));
                    }
                }
            }
            i += 1;
        }
        found
    }

    /// The open documents whose diagnostics a change concerns, found on the account of a
    /// batch.
    pub fn visit_diagnostic_dependents_for_change(
        &self,
        documents: &OpenDocuments,
        changed_uri: &str,
        include_parent: bool,
        budget: &mut ReconciliationBudget,
    ) -> (r: Result<Vec<String>, Interrupt>)
        ensures
            final(budget).same_records(old(budget)),
            old(budget).used.within_limits() ==> final(budget).used.within_limits(),
            ({
                let found = dependents_of(
                    self@,
                    documents@,
                    changed_uri@,
                    include_parent,
                    self@.dom().len() as int,
                );
                match r {
                    Ok(list) => {
                        &&& texts(list@) == found.0
                        &&& looked_at_records(*old(budget), *final(budget), found.1)
                    },
                    Err(interrupt) => {
                        &&& partly_looked_at_records(*old(budget), *final(budget), found.1)
                        &&& interrupt is BudgetExceeded ==> final(budget).exhausted
                            && !records_fit(*old(budget), found.1)
                        &&& interrupt is Cancelled ==> final(budget).exhausted == old(
                            budget,
                        ).exhausted
                    },
                }
            }),
    {
        let ghost all = self@;
        let ghost start = *budget;
        let n: usize = self.by_document.len();
        let ghost keys = self.by_document.keys();
        let ghost total = dependents_of(
            all,
            documents@,
            changed_uri@,
            include_parent,
            all.dom().len() as int,
        ).1;
        proof {
            assert(all.dom() =~= self.by_document@.dom());
        }
        let mut found: Vec<String> = Vec::new();
        let mut i: usize = 0;
        proof {
            assert(texts(found@) =~= seq![]);
            assert(start.used =~= (ReconciliationWorkUsed {
                dependency_edges: (start.used.dependency_edges + 0) as usize,
                diagnostic_record_checks: (start.used.diagnostic_record_checks + 0) as usize,
                ..start.used
            }));
        }
        while i < n
            invariant
                i <= n,
                n == keys.len(),
                n == all.dom().len(),
                all == self@,
                start == *old(budget),
                total == dependents_of(
                    all,
                    documents@,
                    changed_uri@,
                    include_parent,
                    n as int,
                ).1,
                keys == self.by_document.keys(),
                keys == in_order(all.dom()),
                budget.same_records(&start),
                start.used.within_limits() ==> budget.used.within_limits(),
                ({
                    let so_far = dependents_of(
                        all,
                        documents@,
                        changed_uri@,
                        include_parent,
                        i as int,
                    );
                    texts(found@) == so_far.0 && looked_at_records(start, *budget, so_far.1)
                }),
            decreases n - i,
        {
            let uri = self.by_document.key_at(i);
            if documents.contains(uri.as_str()) {
                let list = self.by_document.value_at(i);
                let ghost records = list@;
                let ghost base = dependents_of(
                    all,
                    documents@,
                    changed_uri@,
                    include_parent,
                    i as int,
                ).1;
                proof {
                    assert(all[keys[i as int]] == records);
                    lemma_dependents_grow(
                        all,
                        documents@,
                        changed_uri@,
                        include_parent,
                        i + 1,
                        n as int,
                    );
                }
                let mut k: usize = 0;
                let mut hit = false;
                while k < list.records.len() && !hit
                    invariant
                        k <= list.records@.len(),
                        records == views(list.records@),
                        start == *old(budget),
                        budget.same_records(&start),
                        start.used.within_limits() ==> budget.used.within_limits(),
                        looked_at_records(start, *budget, base + k as nat),
                        base + search_records(records, changed_uri@, include_parent, 0).0
                            <= total,
                        all == self@,
                        total == dependents_of(
                            all,
                            documents@,
                            changed_uri@,
                            include_parent,
                            all.dom().len() as int,
                        ).1,
                        hit ==> search_records(records, changed_uri@, include_parent, 0) == (
                            k as nat,
                            true,
                        ),
                        !hit ==> search_records(records, changed_uri@, include_parent, 0) == ({
                            let rest = search_records(
                                records,
                                changed_uri@,
                                include_parent,
                                k as int,
                            );
                            (k as nat + rest.0, rest.1)
                        }),
                    decreases list.records@.len() - k,
                {
                    proof {
                        assert(records[k as int] == list.records@[k as int]@);
                    }
                    budget.charge_dependency_edges(1)?;
                    budget.charge_diagnostic_check()?;
                    hit = source_record_matches_change(
                        &list.records[k],
                        changed_uri,
                        include_parent,
                    );
                    proof {
                        assert(budget.used =~= (ReconciliationWorkUsed {
                            dependency_edges: (start.used.dependency_edges + (base + k + 1)) as usize,
                            diagnostic_record_checks: (start.used.diagnostic_record_checks + (base
                                + k + 1)) as usize,
                            ..start.used
                        }));
                    }
                    k += 1;
                }
                if hit {
                    let ghost held = found@;
                    let copied = uri.clone();
                    found.push(copied);
                    proof {
                        assert(texts(found@) =~= texts(held).push(copied@));
                    }
                }
            }
            i += 1;
        }
        Ok(found)
    }
}

proof fn lemma_all_hold(
    current: Current,
    records: Seq<RecordView>,
    facts: Seq<RecordFacts>,
    source: u64,
    configuration: u64,
    i: int,
)
    requires
        0 <= i <= records.len(),
    ensures
        records_staleness(current, records, facts, source, configuration, i) is None <==> (forall|
            k: int,
        |
            i <= k < records.len() ==> record_staleness(
                current,
                #[trigger] records[k],
                facts[k],
                source,
                configuration,
            ) is None),
    decreases records.len() - i,
{
    if i < records.len() {
        lemma_all_hold(current, records, facts, source, configuration, i + 1);
    }
}

/// A result is taken for current exactly where the workspace as a whole did not change after
/// it, everything that it was computed from still holds, and something is known of that or
/// nothing changed at all.
pub proof fn law_a_result_holds_while_all_of_it_does(
    current: Current,
    records: Seq<RecordView>,
    facts: Seq<RecordFacts>,
    source: u64,
    configuration: u64,
)
    ensures
        result_staleness(current, records, facts, source, configuration) is None <==> ({
            let v = current.generations@;
            &&& records.len() > 0 || (source == v.source && configuration == v.configuration)
            &&& v.global_source <= source && v.global_configuration <= configuration
            &&& forall|k: int|
                0 <= k < records.len() ==> record_staleness(
                    current,
                    #[trigger] records[k],
                    facts[k],
                    source,
                    configuration,
                ) is None
        }),
{
    lemma_all_hold(current, records, facts, source, configuration, 0);
}

} // verus!
