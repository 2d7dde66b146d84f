//! What a result was computed from, and what depends on it.

use vstd::prelude::*;

use crate::includes::{IncludeObservation, ObservationView};
use crate::paths::{
    equal_ci, joined, parent_of, parse_parts, path_text, paths_equal_ci, FilePath, Parts,
};
use crate::project::{optional_entry, DiskStamp, EntryView, PathEntry, PathStamp};
use crate::sorting::views;
use crate::strings::{
    concat, concat3, eq_ignore_case, lower, same_ci, same_str, texts, to_lower,
};
use crate::strmap::{lemma_deep_insert, lemma_deep_remove, StrMap};
use crate::uris::{
    canonical, canonical_file_uri, file_path_of, normal, normal_path, optional_parts, optional_text,
    path_uri, uri_of_path, uri_path,
};

verus! {

/// A place in which a unit may turn up: any of the names below a root.
#[derive(Debug)]
pub struct MissingProviderScope {
    pub root: FilePath,
    pub names: Vec<String>,
    pub read_policy: String,
    pub path_entry: PathEntry,
}

/// A place in which a unit may turn up.
#[verifier::ext_equal]
pub struct ScopeView {
    pub root: Parts,
    pub names: Seq<Seq<char>>,
    pub read_policy: Seq<char>,
    pub path_entry: EntryView,
}

impl View for MissingProviderScope {
    type V = ScopeView;

    open spec fn view(&self) -> ScopeView {
        ScopeView {
            root: self.root@,
            names: texts(self.names@),
            read_policy: self.read_policy@,
            path_entry: self.path_entry@,
        }
    }
}

/// What a scope that may be missing stands for.
pub open spec fn optional_scope(scope: Option<MissingProviderScope>) -> Option<ScopeView> {
    match scope {
        Some(scope) => Some(scope@),
        None => None,
    }
}

/// Something that a result was computed from.
#[derive(Debug)]
pub struct SourceRecord {
    pub uri: String,
    pub text: String,
    pub version: Option<i32>,
    pub stamp: Option<DiskStamp>,
    pub open: bool,
    pub path: Option<FilePath>,
    pub path_stamp: Option<PathStamp>,
    pub content_hash: Option<u64>,
    pub parsed_text_hash: Option<u64>,
    /// The project files of a directory were looked at.
    pub observes_membership: bool,
    /// The project files whose contents were looked at.
    pub candidates: Vec<FilePath>,
    pub read_policy: Option<String>,
    pub path_entry: Option<PathEntry>,
    pub include_payload: bool,
    /// The file of a unit was looked for here and is missing.
    pub missing_provider_candidate: bool,
    pub directory_observation: bool,
    pub missing_provider_scope: Option<MissingProviderScope>,
    /// The source was looked at for what it might provide.
    pub auto_import_provider_observation: bool,
}

/// Something that a result was computed from.
#[verifier::ext_equal]
pub struct RecordView {
    pub uri: Seq<char>,
    pub text: Seq<char>,
    pub version: Option<i32>,
    pub stamp: Option<DiskStamp>,
    pub open: bool,
    pub path: Option<Parts>,
    pub path_stamp: Option<PathStamp>,
    pub content_hash: Option<u64>,
    pub parsed_text_hash: Option<u64>,
    pub observes_membership: bool,
    pub candidates: Seq<Parts>,
    pub read_policy: Option<Seq<char>>,
    pub path_entry: Option<EntryView>,
    pub include_payload: bool,
    pub missing_provider_candidate: bool,
    pub directory_observation: bool,
    pub missing_provider_scope: Option<ScopeView>,
    pub auto_import_provider_observation: bool,
}

impl View for SourceRecord {
    type V = RecordView;

    open spec fn view(&self) -> RecordView {
        RecordView {
            uri: self.uri@,
            text: self.text@,
            version: self.version,
            stamp: self.stamp,
            open: self.open,
            path: optional_parts(self.path),
            path_stamp: self.path_stamp,
            content_hash: self.content_hash,
            parsed_text_hash: self.parsed_text_hash,
            observes_membership: self.observes_membership,
            candidates: views(self.candidates@),
            read_policy: optional_text(self.read_policy),
            path_entry: optional_entry(self.path_entry),
            include_payload: self.include_payload,
            missing_provider_candidate: self.missing_provider_candidate,
            directory_observation: self.directory_observation,
            missing_provider_scope: optional_scope(self.missing_provider_scope),
            auto_import_provider_observation: self.auto_import_provider_observation,
        }
    }
}

/// A record of which nothing but its URI is known.
pub open spec fn blank_record(uri: Seq<char>) -> RecordView {
    RecordView {
        uri,
        text: seq![],
        version: None,
        stamp: None,
        open: false,
        path: None,
        path_stamp: None,
        content_hash: None,
        parsed_text_hash: None,
        observes_membership: false,
        candidates: seq![],
        read_policy: None,
        path_entry: None,
        include_payload: false,
        missing_provider_candidate: false,
        directory_observation: false,
        missing_provider_scope: None,
        auto_import_provider_observation: false,
    }
}

impl SourceRecord {
    /// A record of which nothing but its URI is known.
    pub fn blank(uri: &str) -> (r: Self)
        ensures
            r@ == blank_record(uri@),
    {
        let r = SourceRecord {
            uri: uri.to_owned(),
            text: String::new(),
            version: None,
            stamp: None,
            open: false,
            path: None,
            path_stamp: None,
            content_hash: None,
            parsed_text_hash: None,
            observes_membership: false,
            candidates: Vec::new(),
            read_policy: None,
            path_entry: None,
            include_payload: false,
            missing_provider_candidate: false,
            directory_observation: false,
            missing_provider_scope: None,
            auto_import_provider_observation: false,
        };
        proof {
            assert(r@ =~= blank_record(uri@));
        }
        r
    }

    /// The URI under which changes of the record are noted.
    pub fn dependency_uri(&self) -> (r: String)
        ensures
            r@ == dependency_uri_of(self@),
    {
        if let Some(path) = &self.path {
            if let Some(uri) = uri_of_path(&normal_path(path)) {
                return canonical_file_uri(uri.as_str());
            }
        }
        canonical_file_uri(self.uri.as_str())
    }
}

/// The URI under which changes of a record are noted.
pub open spec fn dependency_uri_of(record: RecordView) -> Seq<char> {
    let own = match record.path {
        Some(path) => path_uri(normal(path)),
        None => None,
    };
    match own {
        Some(uri) => canonical(uri),
        None => canonical(record.uri),
    }
}

/// The path is one of the candidates, whatever its case.
pub open spec fn observes_candidate(record: RecordView, path: Parts) -> bool {
    exists|i: int|
        0 <= i < record.candidates.len() && equal_ci(#[trigger] record.candidates[i], path)
}

/// A change of a file concerns a record: it is the file of the record, one of the project
/// files that it looked at, one in the directory that it looked at where that counts, or
/// the file that it missed.
pub open spec fn concerned(record: RecordView, changed: Seq<char>, include_parent: bool) -> bool {
    let path = uri_path(canonical(changed));
    ||| dependency_uri_of(record) == canonical(changed)
    ||| path is Some && observes_candidate(record, path->0)
    ||| include_parent && (record.directory_observation || record.observes_membership)
        && record.path is Some && path is Some && parent_of(path->0) is Some && equal_ci(
        record.path->0,
        parent_of(path->0)->0,
    )
    ||| record.missing_provider_candidate && record.path is Some && path is Some && equal_ci(
        record.path->0,
        path->0,
    )
}

fn has_candidate(record: &SourceRecord, path: &FilePath) -> (r: bool)
    ensures
        r == observes_candidate(record@, path@),
{
    let ghost list = views(record.candidates@);
    let mut i: usize = 0;
    while i < record.candidates.len()
        invariant
            i <= record.candidates@.len(),
            list == views(record.candidates@),
            forall|j: int| 0 <= j < i ==> !equal_ci(#[trigger] list[j], path@),
        decreases record.candidates@.len() - i,
    {
        proof {
            assert(list[i as int] == record.candidates@[i as int]@);
        }
        if paths_equal_ci(&record.candidates[i], path) {
            proof {
                assert(equal_ci(record@.candidates[i as int], path@));
            }
            return true;
        }
        i += 1;
    }
    false
}

/// Whether a change of a file concerns a record.
pub fn source_record_matches_change(record: &SourceRecord, changed_uri: &str, include_parent: bool) -> (r:
    bool)
    ensures
        r == concerned(record@, changed_uri@, include_parent),
{
    let changed = canonical_file_uri(changed_uri);
    if same_str(record.dependency_uri().as_str(), changed.as_str()) {
        return true;
    }
    let path = match file_path_of(changed.as_str()) {
        Some(path) => path,
        None => {
            return false;
        },
    };
    if has_candidate(record, &path) {
        return true;
    }
    match &record.path {
        Some(own) => {
            if include_parent && (record.directory_observation || record.observes_membership) {
                if let Some(parent) = path.parent() {
                    if paths_equal_ci(own, &parent) {
                        return true;
                    }
                }
            }
            record.missing_provider_candidate && paths_equal_ci(own, &path)
        },
        None => false,
    }
}

/// What is said of a configuration file that cannot be looked at.
pub open spec fn uninspected_text(path: Parts, error: Seq<char>) -> Seq<char> {
    "could not inspect configuration candidate "@ + path_text(path) + ": "@ + error
}

pub fn uninspected_configuration(path: &FilePath, error: &str) -> (r: String)
    ensures
        r@ == uninspected_text(path@, error@),
{
    let head = concat3("could not inspect configuration candidate ", path.text().as_str(), ": ");
    concat(head.as_str(), error)
}

/// The records of what is computed, by their URIs, where they are kept.
#[derive(Debug)]
pub struct AnalysisRecords {
    pub records: Option<StrMap<SourceRecord>>,
}

impl View for AnalysisRecords {
    type V = Option<Map<Seq<char>, RecordView>>;

    open spec fn view(&self) -> Option<Map<Seq<char>, RecordView>> {
        match self.records {
            Some(records) => Some(records.deep()),
            None => None,
        }
    }
}

/// The records with one more, where they are kept.
pub open spec fn with_record(
    records: Option<Map<Seq<char>, RecordView>>,
    uri: Seq<char>,
    record: RecordView,
) -> Option<Map<Seq<char>, RecordView>> {
    match records {
        Some(map) => Some(map.insert(uri, record)),
        None => None,
    }
}

/// The record of an open source.
pub open spec fn open_record(uri: Seq<char>, text: Seq<char>, version: i32, text_hash: u64) -> RecordView {
    RecordView {
        text,
        version: Some(version),
        open: true,
        parsed_text_hash: Some(text_hash),
        ..blank_record(uri)
    }
}

/// What was read of a closed source.
#[derive(Debug)]
pub struct DiskReading<'a> {
    pub text: &'a str,
    pub stamp: DiskStamp,
    pub content_hash: u64,
    pub text_hash: u64,
    pub path_stamp: Option<PathStamp>,
}

/// The record of a closed source.
pub open spec fn closed_record(
    uri: Seq<char>,
    reading: DiskReading,
    path: Parts,
    read_policy: Seq<char>,
    entry: EntryView,
) -> RecordView {
    RecordView {
        text: reading.text@,
        stamp: Some(reading.stamp),
        path: Some(path),
        path_stamp: reading.path_stamp,
        content_hash: Some(reading.content_hash),
        parsed_text_hash: Some(reading.text_hash),
        read_policy: Some(read_policy),
        path_entry: Some(entry),
        ..blank_record(uri)
    }
}

/// The record of a place where an include file was looked for.
pub open spec fn include_record(
    uri: Seq<char>,
    observation: ObservationView,
    read_policy: Seq<char>,
    entry: EntryView,
) -> RecordView {
    RecordView {
        path: Some(normal(observation.path)),
        path_stamp: observation.stamp,
        read_policy: Some(read_policy),
        path_entry: Some(entry),
        missing_provider_candidate: !observation.present,
        ..blank_record(uri)
    }
}

/// The record of a configuration file.
pub open spec fn configuration_record(
    uri: Seq<char>,
    path: Parts,
    stamp: Option<PathStamp>,
    content_hash: Option<u64>,
) -> RecordView {
    RecordView { path: Some(path), path_stamp: stamp, content_hash, ..blank_record(uri) }
}

/// The records with a file that was missed.
pub open spec fn with_missing(
    records: Map<Seq<char>, RecordView>,
    path: Parts,
    stamp: Option<PathStamp>,
) -> Map<Seq<char>, RecordView> {
    match path_uri(path) {
        None => records,
        Some(uri) => records.insert(
            uri,
            if records.contains_key(uri) {
                RecordView { missing_provider_candidate: true, ..records[uri] }
            } else {
                RecordView {
                    path: Some(path),
                    path_stamp: stamp,
                    missing_provider_candidate: true,
                    ..blank_record(uri)
                }
            },
        ),
    }
}

/// The records with the first `n` files that were missed in a directory.
pub open spec fn with_all_missing(
    records: Map<Seq<char>, RecordView>,
    directory: Parts,
    names: Seq<Seq<char>>,
    stamps: Seq<Option<PathStamp>>,
    n: int,
) -> Map<Seq<char>, RecordView>
    decreases n,
{
    if n <= 0 {
        records
    } else {
        with_missing(
            with_all_missing(records, directory, names, stamps, n - 1),
            joined(directory, parse_parts(names[n - 1])),
            stamps[n - 1],
        )
    }
}

/// A name is among others, whatever its case.
pub open spec fn named_ci(names: Seq<Seq<char>>, name: Seq<char>) -> bool {
    exists|i: int| 0 <= i < names.len() && same_ci(#[trigger] names[i], name)
}

/// The names with the first `n` of others that were not among them.
pub open spec fn with_new_names(names: Seq<Seq<char>>, more: Seq<Seq<char>>, n: int) -> Seq<Seq<char>>
    decreases n,
{
    if n <= 0 {
        names
    } else {
        let before = with_new_names(names, more, n - 1);
        if named_ci(before, more[n - 1]) {
            before
        } else {
            before.push(more[n - 1])
        }
    }
}

/// The names in lower case.
pub open spec fn lowered(names: Seq<Seq<char>>) -> Seq<Seq<char>> {
    names.map_values(|name: Seq<char>| lower(name))
}

/// The records with a scope in which a unit may turn up. It is kept with the first of the
/// files that it speaks of.
pub open spec fn with_scope(
    records: Map<Seq<char>, RecordView>,
    scope: ScopeView,
    path: Parts,
    stamp: Option<PathStamp>,
) -> Map<Seq<char>, RecordView> {
    match path_uri(path) {
        None => records,
        Some(uri) => records.insert(
            uri,
            if !records.contains_key(uri) {
                RecordView {
                    path: Some(path),
                    path_stamp: stamp,
                    missing_provider_scope: Some(scope),
                    ..blank_record(uri)
                }
            } else {
                match records[uri].missing_provider_scope {
                    None => RecordView { missing_provider_scope: Some(scope), ..records[uri] },
                    Some(kept) => RecordView {
                        missing_provider_scope: Some(
                            ScopeView {
                                names: with_new_names(
                                    kept.names,
                                    scope.names,
                                    scope.names.len() as int,
                                ),
                                ..kept
                            },
                        ),
                        ..records[uri]
                    },
                }
            },
        ),
    }
}

fn is_named(names: &Vec<String>, name: &str) -> (r: bool)
    ensures
        r == named_ci(texts(names@), name@),
{
    let ghost list = texts(names@);
    let mut i: usize = 0;
    while i < names.len()
        invariant
            i <= names@.len(),
            list == texts(names@),
            forall|j: int| 0 <= j < i ==> !same_ci(#[trigger] list[j], name@),
        decreases names@.len() - i,
    {
        proof {
            assert(list[i as int] == names@[i as int]@);
        }
        if eq_ignore_case(names[i].as_str(), name) {
            return true;
        }
        i += 1;
    }
    false
}

fn add_names(names: &mut Vec<String>, more: &Vec<String>)
    ensures
        texts(final(names)@) == with_new_names(
            texts(old(names)@),
            texts(more@),
            more@.len() as int,
        ),
{
    let ghost start = texts(names@);
    let ghost list = texts(more@);
    let mut i: usize = 0;
    while i < more.len()
        invariant
            i <= more@.len(),
            list == texts(more@),
            start == texts(old(names)@),
            texts(names@) == with_new_names(start, list, i as int),
        decreases more@.len() - i,
    {
        proof {
            assert(list[i as int] == more@[i as int]@);
        }
        if !is_named(names, more[i].as_str()) {
            let ghost held = names@;
            let copied = more[i].clone();
            names.push(copied);
            proof {
                assert(texts(names@) =~= texts(held).push(copied@));
            }
        }
        i += 1;
    }
}

/// The names in lower case.
pub fn lower_names(names: &Vec<String>) -> (r: Vec<String>)
    ensures
        texts(r@) == lowered(texts(names@)),
{
    let ghost goal = lowered(texts(names@));
    let mut result: Vec<String> = Vec::new();
    let mut i: usize = 0;
    proof {
        assert(texts(result@) =~= goal.take(0));
    }
    while i < names.len()
        invariant
            i <= names@.len(),
            goal == lowered(texts(names@)),
            texts(result@) == goal.take(i as int),
        decreases names@.len() - i,
    {
        let ghost held = result@;
        let small = to_lower(names[i].as_str());
        result.push(small);
        proof {
            assert(texts(names@)[i as int] == names@[i as int]@);
            assert(texts(result@) =~= texts(held).push(small@));
            assert(goal.take(i + 1) =~= goal.take(i as int).push(goal[i as int]));
        }
        i += 1;
    }
    proof {
        assert(goal.take(goal.len() as int) =~= goal);
    }
    result
}

fn put_record(map: &mut StrMap<SourceRecord>, uri: String, record: SourceRecord)
    ensures
        final(map).deep() == old(map).deep().insert(uri@, record@),
{
    proof {
        lemma_deep_insert(map@, uri@, record);
    }
    let _before = map.insert(uri, record);
}

impl AnalysisRecords {
    /// No records; none are kept unless `recording` is set.
    pub fn new(recording: bool) -> (r: Self)
        ensures
            r@ == (if recording {
                Some(Map::<Seq<char>, RecordView>::empty())
            } else {
                None
            }),
    {
        if recording {
            let records: StrMap<SourceRecord> = StrMap::new();
            proof {
                assert(records.deep() =~= Map::empty());
            }
            AnalysisRecords { records: Some(records) }
        } else {
            AnalysisRecords { records: None }
        }
    }

    fn put(&mut self, uri: &str, record: SourceRecord)
        ensures
            final(self)@ == with_record(old(self)@, uri@, record@),
    {
        match self.records.take() {
            Some(mut map) => {
                put_record(&mut map, uri.to_owned(), record);
                self.records = Some(map);
            },
            None => {},
        }
    }

    /// Records an open source.
    pub fn record_open_analysis_source(
        &mut self,
        uri: &str,
        text: &str,
        version: i32,
        text_hash: u64,
    )
        ensures
            final(self)@ == with_record(
                old(self)@,
                uri@,
                open_record(uri@, text@, version, text_hash),
            ),
    {
        let mut record = SourceRecord::blank(uri);
        record.text = text.to_owned();
        record.version = Some(version);
        record.open = true;
        record.parsed_text_hash = Some(text_hash);
        proof {
            assert(record@ =~= open_record(uri@, text@, version, text_hash));
        }
        self.put(uri, record);
    }

    /// Records a closed source.
    pub fn record_closed_analysis_source(
        &mut self,
        uri: &str,
        reading: &DiskReading,
        path: &FilePath,
        read_policy: &str,
        entry: &PathEntry,
    )
        ensures
            final(self)@ == with_record(
                old(self)@,
                uri@,
                closed_record(uri@, *reading, path@, read_policy@, entry@),
            ),
    {
        let mut record = SourceRecord::blank(uri);
        record.text = reading.text.to_owned();
        record.stamp = Some(reading.stamp);
        record.path = Some(path.copy());
        record.path_stamp = reading.path_stamp;
        record.content_hash = Some(reading.content_hash);
        record.parsed_text_hash = Some(reading.text_hash);
        record.read_policy = Some(read_policy.to_owned());
        record.path_entry = Some(entry.copy());
        proof {
            assert(record@ =~= closed_record(uri@, *reading, path@, read_policy@, entry@));
        }
        self.put(uri, record);
    }

    /// The record of a URI, if there is one. What is found of a source later is merged with
    /// it.
    pub fn recorded(&self, uri: &str) -> (r: Option<&SourceRecord>)
        ensures
            match r {
                Some(record) => self@ is Some && self@->0.contains_key(uri@) && record@
                    == self@->0[uri@],
                None => self@ is None || !self@->0.contains_key(uri@),
            },
    {
        match &self.records {
            Some(records) => records.get(uri),
            None => None,
        }
    }

    /// Records a source that was resolved, or what a resolution came upon: `record` is what
    /// was made of it and of the record that there was.
    pub fn record_resolved_source(&mut self, record: SourceRecord)
        ensures
            final(self)@ == with_record(old(self)@, record@.uri, record@),
    {
        let uri = record.uri.clone();
        self.put(uri.as_str(), record);
    }

    /// Records a place where an include file was looked for, unless there is a record of it
    /// already.
    pub fn record_include_analysis_observation(
        &mut self,
        observation: &IncludeObservation,
        read_policy: &str,
        entry: &PathEntry,
    )
        ensures
            final(self)@ == (match path_uri(normal(observation@.path)) {
                Some(own) => {
                    let uri = canonical(own);
                    if old(self)@ is Some && old(self)@->0.contains_key(uri) {
                        old(self)@
                    } else {
                        with_record(
                            old(self)@,
                            uri,
                            include_record(uri, observation@, read_policy@, entry@),
                        )
                    }
                },
                None => old(self)@,
            }),
    {
        let path = normal_path(&observation.path);
        let uri = match uri_of_path(&path) {
            Some(uri) => canonical_file_uri(uri.as_str()),
            None => {
                return ;
            },
        };
        let known = match &self.records {
            Some(map) => map.contains_key(uri.as_str()),
            None => false,
        };
        if known {
            return ;
        }
        let mut record = SourceRecord::blank(uri.as_str());
        record.path = Some(path);
        record.path_stamp = observation.stamp;
        record.read_policy = Some(read_policy.to_owned());
        record.path_entry = Some(entry.copy());
        record.missing_provider_candidate = !observation.present;
        proof {
            assert(record@ =~= include_record(uri@, observation@, read_policy@, entry@));
        }
        self.put(uri.as_str(), record);
    }

    /// Records a configuration file that was looked at.
    pub fn record_configuration_read(
        &mut self,
        path: &FilePath,
        stamp: Option<PathStamp>,
        content_hash: Option<u64>,
    )
        ensures
            final(self)@ == (match path_uri(normal(path@)) {
                Some(uri) => with_record(
                    old(self)@,
                    uri,
                    configuration_record(uri, normal(path@), stamp, content_hash),
                ),
                None => old(self)@,
            }),
    {
        let path = normal_path(path);
        let uri = match uri_of_path(&path) {
            Some(uri) => uri,
            None => {
                return ;
            },
        };
        let mut record = SourceRecord::blank(uri.as_str());
        record.path = Some(path);
        record.path_stamp = stamp;
        record.content_hash = content_hash;
        proof {
            assert(record@ =~= configuration_record(uri@, path@, stamp, content_hash));
        }
        self.put(uri.as_str(), record);
    }

    /// Notes that a recorded source was included in another.
    pub fn mark_include_payload(&mut self, uri: &str)
        ensures
            final(self)@ == (match old(self)@ {
                Some(map) => if map.contains_key(uri@) {
                    Some(map.insert(uri@, RecordView { include_payload: true, ..map[uri@] }))
                } else {
                    Some(map)
                },
                None => None,
            }),
    {
        let ghost before = self@;
        match self.records.take() {
            Some(mut map) => {
                let ghost held = map@;
                let ghost deep = map.deep();
                match map.remove(uri) {
                    Some(mut record) => {
                        let ghost kept = record@;
                        record.include_payload = true;
                        proof {
                            lemma_deep_remove(held, uri@);
                            assert(record@ =~= (RecordView { include_payload: true, ..kept }));
                        }
                        put_record(&mut map, uri.to_owned(), record);
                        proof {
                            assert(map.deep() =~= deep.insert(uri@, record@));
                        }
                    },
                    None => {
                        proof {
                            assert(map@ =~= held);
                        }
                    },
                }
                self.records = Some(map);
            },
            None => {},
        }
    }

    /// Records the files that were missed in a directory. `stamps` are those that their
    /// paths have.
    pub fn record_missing_provider_candidates(
        &mut self,
        directory: &FilePath,
        names: &Vec<String>,
        stamps: &Vec<Option<PathStamp>>,
    )
        requires
            names@.len() == stamps@.len(),
        ensures
            final(self)@ == (match old(self)@ {
                Some(map) => Some(
                    with_all_missing(
                        map,
                        normal(directory@),
                        texts(names@),
                        stamps@,
                        names@.len() as int,
                    ),
                ),
                None => None,
            }),
    {
        let mut map = match self.records.take() {
            Some(map) => map,
            None => {
                return ;
            },
        };
        let ghost start = map.deep();
        let ghost list = texts(names@);
        let directory = normal_path(directory);
        let mut i: usize = 0;
        while i < names.len()
            invariant
                i <= names@.len(),
                names@.len() == stamps@.len(),
                list == texts(names@),
                map.deep() == with_all_missing(start, directory@, list, stamps@, i as int),
            decreases names@.len() - i,
        {
            proof {
                assert(list[i as int] == names@[i as int]@);
            }
            let path = directory.join_name(names[i].as_str());
            if let Some(uri) = uri_of_path(&path) {
                let ghost held = map@;
                let ghost deep = map.deep();
                let record = match map.remove(uri.as_str()) {
                    Some(mut record) => {
                        let ghost kept = record@;
                        record.missing_provider_candidate = true;
                        proof {
                            assert(record@ =~= (RecordView {
                                missing_provider_candidate: true,
                                ..kept
                            }));
                        }
                        record
                    },
                    None => {
                        let mut record = SourceRecord::blank(uri.as_str());
                        record.path = Some(path);
                        record.path_stamp = stamps[i];
                        record.missing_provider_candidate = true;
                        proof {
                            assert(record@ =~= (RecordView {
                                path: Some(path@),
                                path_stamp: stamps@[i as int],
                                missing_provider_candidate: true,
                                ..blank_record(uri@)
                            }));
                        }
                        record
                    },
                };
                proof {
                    lemma_deep_remove(held, uri@);
                    assert(deep.remove(uri@).insert(uri@, record@) =~= deep.insert(
                        uri@,
                        record@,
                    ));
                }
                put_record(&mut map, uri, record);
            }
            i += 1;
        }
        self.records = Some(map);
    }

    /// Records that a file below a root may come to bear one of the names. `stamp` is the
    /// one that the first of these files has.
    pub fn record_missing_provider_scope(
        &mut self,
        root: &FilePath,
        names: &Vec<String>,
        read_policy: &str,
        entry: &PathEntry,
        stamp: Option<PathStamp>,
    )
        ensures
            final(self)@ == (if old(self)@ is None || names@.len() == 0 {
                old(self)@
            } else {
                Some(
                    with_scope(
                        old(self)@->0,
                        ScopeView {
                            root: normal(root@),
                            names: lowered(texts(names@)),
                            read_policy: read_policy@,
                            path_entry: entry@,
                        },
                        joined(normal(root@), parse_parts(names@[0]@)),
                        stamp,
                    ),
                )
            }),
    {
        if names.len() == 0 {
            return ;
        }
        let mut map = match self.records.take() {
            Some(map) => map,
            None => {
                return ;
            },
        };
        let root = normal_path(root);
        let path = root.join_name(names[0].as_str());
        let ghost held = map@;
        let ghost deep = map.deep();
        let ghost first_path = path@;
        let scope = MissingProviderScope {
            root,
            names: lower_names(names),
            read_policy: read_policy.to_owned(),
            path_entry: entry.copy(),
        };
        let ghost spec_scope = scope@;
        proof {
            assert(texts(names@)[0] == names@[0]@);
        }
        if let Some(uri) = uri_of_path(&path) {
            let record = match map.remove(uri.as_str()) {
                Some(mut record) => {
                    let ghost kept = record@;
                    match record.missing_provider_scope.take() {
                        Some(mut known) => {
                            let ghost was = known@;
                            add_names(&mut known.names, &scope.names);
                            proof {
                                assert(texts(scope.names@).len() == scope.names@.len());
                                assert(known@ =~= (ScopeView {
                                    names: with_new_names(
                                        was.names,
                                        spec_scope.names,
                                        spec_scope.names.len() as int,
                                    ),
                                    ..was
                                }));
                            }
                            record.missing_provider_scope = Some(known);
                            proof {
                                assert(record@ =~= (RecordView {
                                    missing_provider_scope: Some(known@),
                                    ..kept
                                }));
                            }
                        },
                        None => {
                            record.missing_provider_scope = Some(scope);
                            proof {
                                assert(record@ =~= (RecordView {
                                    missing_provider_scope: Some(spec_scope),
                                    ..kept
                                }));
                            }
                        },
                    }
                    record
                },
                None => {
                    let mut record = SourceRecord::blank(uri.as_str());
                    record.path = Some(path);
                    record.path_stamp = stamp;
                    record.missing_provider_scope = Some(scope);
                    proof {
                        assert(record@ =~= (RecordView {
                            path: Some(first_path),
                            path_stamp: stamp,
                            missing_provider_scope: Some(spec_scope),
                            ..blank_record(uri@)
                        }));
                    }
                    record
                },
            };
            proof {
                lemma_deep_remove(held, uri@);
                assert(deep.remove(uri@).insert(uri@, record@) =~= deep.insert(uri@, record@));
            }
            put_record(&mut map, uri, record);
        }
        self.records = Some(map);
    }

    /// Forgets all records.
    pub fn clear(&mut self)
        ensures
            final(self)@ == (match old(self)@ {
                Some(_) => Some(Map::<Seq<char>, RecordView>::empty()),
                None => None,
            }),
    {
        if self.records.is_some() {
            let records: StrMap<SourceRecord> = StrMap::new();
            proof {
                assert(records.deep() =~= Map::empty());
            }
            self.records = Some(records);
        }
    }
}

} // verus!
