//! What is recorded of the sources that an expansion read, so that a finding can later be
//! told to be stale.

use vstd::prelude::*;

use crate::documents::{DocumentView, OpenDocuments};
use crate::includes::{ExpansionRecord, IncludeGraph};
use crate::limits::ResourceLimits;
use crate::paths::{FilePath, Parts};
use crate::project::{optional_entry, EntryView, PathEntry, Provenance, ProvenanceView};
use crate::records::{
    closed_record, open_record, with_record, AnalysisRecords, DiskReading, RecordView,
};
use crate::strings::{concat, concat3, same_str, texts};
use crate::strmap::in_order;
use crate::uris::{file_path_of, uri_path};

verus! {

/// What is said of a source that was expanded, and of which nothing is kept.
pub open spec fn unretained_text(uri: Seq<char>) -> Seq<char> {
    "include expansion was not retained for "@ + uri
}

/// The expansion of a source.
pub fn retained_expansion<'a>(graph: &'a IncludeGraph, uri: &str) -> (r: Result<
    &'a ExpansionRecord,
    String,
>)
    ensures
        match r {
            Ok(record) => graph.expansions@.contains_key(uri@) && *record
                == graph.expansions@[uri@],
            Err(reason) => !graph.expansions@.contains_key(uri@) && reason@ == unretained_text(uri@),
        },
{
    match graph.expansions.get(uri) {
        Some(record) => Ok(record),
        None => Err(concat("include expansion was not retained for ", uri)),
    }
}

/// What is said of an expanded source that is no file.
pub open spec fn no_root_file_text(uri: Seq<char>) -> Seq<char> {
    "include root is not a file URI: "@ + uri
}

/// What is said of an expanded source whose file is gone.
pub open spec fn root_gone_text(uri: Seq<char>) -> Seq<char> {
    "include root disappeared while expanding "@ + uri
}

/// What is said of an included source that is no file.
pub open spec fn no_file_text(uri: Seq<char>) -> Seq<char> {
    "include source is not a file URI: "@ + uri
}

/// What is said of an included source that is another now.
pub open spec fn included_changed_text(uri: Seq<char>) -> Seq<char> {
    "include source "@ + uri + " changed during diagnostics"@
}

/// What is said of an included source that was refused.
pub open spec fn included_rejected_text(uri: Seq<char>) -> Seq<char> {
    "include source "@ + uri + " was rejected during diagnostics"@
}

/// An open document with a text.
pub open spec fn has_text(open: Map<Seq<char>, DocumentView>, uri: Seq<char>) -> bool {
    open.contains_key(uri) && open[uri].text is Some
}

/// The record of an open document.
pub open spec fn document_record(
    open: Map<Seq<char>, DocumentView>,
    uri: Seq<char>,
    text_hash: u64,
) -> RecordView {
    open_record(uri, open[uri].text->0, open[uri].version, text_hash)
}

fn changed_message(uri: &str) -> (r: String)
    ensures
        r@ == included_changed_text(uri@),
{
    concat3("include source ", uri, " changed during diagnostics")
}

impl AnalysisRecords {
    /// Records the text of an expanded source, where it is open. `text_hash` is the hash of
    /// that text. Else the path of the file is returned, whose stamp is then needed.
    pub fn record_expanded_root(
        &mut self,
        documents: &OpenDocuments,
        uri: &str,
        text_hash: u64,
    ) -> (r: Result<Option<FilePath>, String>)
        ensures
            match r {
                Ok(None) => has_text(documents@, uri@) && final(self)@ == with_record(
                    old(self)@,
                    uri@,
                    document_record(documents@, uri@, text_hash),
                ),
                Ok(Some(path)) => {
                    &&& !has_text(documents@, uri@)
                    &&& uri_path(uri@) == Some(path@)
                    &&& *final(self) == *old(self)
                },
                Err(reason) => {
                    &&& !has_text(documents@, uri@)
                    &&& uri_path(uri@) is None
                    &&& reason@ == no_root_file_text(uri@)
                    &&& *final(self) == *old(self)
                },
            },
    {
        if let Some(document) = documents.get(uri) {
            if let Some(text) = &document.text {
                self.record_open_analysis_source(uri, text.as_str(), document.version, text_hash);
                return Ok(None);
            }
        }
        match file_path_of(uri) {
            Some(path) => Ok(Some(path)),
            None => Err(concat("include root is not a file URI: ", uri)),
        }
    }

    /// Records an expanded source that is not open, as it was when it was expanded.
    pub fn record_expanded_file(
        &mut self,
        uri: &str,
        reading: Option<&DiskReading>,
        path: &FilePath,
        read_policy: &str,
        entry: &PathEntry,
    ) -> (r: Result<(), String>)
        ensures
            match r {
                Ok(_) => reading is Some && final(self)@ == with_record(
                    old(self)@,
                    uri@,
                    closed_record(uri@, *reading->0, path@, read_policy@, entry@),
                ),
                Err(reason) => {
                    &&& reading is None
                    &&& reason@ == root_gone_text(uri@)
                    &&& *final(self) == *old(self)
                },
            },
    {
        match reading {
            Some(reading) => {
                self.record_closed_analysis_source(uri, reading, path, read_policy, entry);
                Ok(())
            },
            None => Err(concat("include root disappeared while expanding ", uri)),
        }
    }

    /// Records an included source, where it is open: it must have the text that was
    /// included. Else the path of the file is returned, which is then read.
    pub fn record_included_document(
        &mut self,
        documents: &OpenDocuments,
        uri: &str,
        source: &str,
        text_hash: u64,
    ) -> (r: Result<Option<FilePath>, String>)
        ensures
            match r {
                Ok(None) => {
                    &&& has_text(documents@, uri@)
                    &&& documents@[uri@].text == Some(source@)
                    &&& final(self)@ == with_record(
                        old(self)@,
                        uri@,
                        document_record(documents@, uri@, text_hash),
                    )
                },
                Ok(Some(path)) => {
                    &&& !documents@.contains_key(uri@)
                    &&& uri_path(uri@) == Some(path@)
                    &&& *final(self) == *old(self)
                },
                Err(reason) => {
                    &&& *final(self) == *old(self)
                    &&& if has_text(documents@, uri@) {
                        documents@[uri@].text != Some(source@) && reason@
                            == included_changed_text(uri@)
                    } else if documents@.contains_key(uri@) {
                        reason@ == included_rejected_text(uri@)
                    } else {
                        uri_path(uri@) is None && reason@ == no_file_text(uri@)
                    }
                },
            },
    {
        if let Some(document) = documents.get(uri) {
            return match &document.text {
                Some(text) => if same_str(text.as_str(), source) {
                    self.record_open_analysis_source(
                        uri,
                        text.as_str(),
                        document.version,
                        text_hash,
                    );
                    Ok(None)
                } else {
                    Err(changed_message(uri))
                },
                None => Err(concat3("include source ", uri, " was rejected during diagnostics")),
            };
        }
        match file_path_of(uri) {
            Some(path) => Ok(Some(path)),
            None => Err(concat("include source is not a file URI: ", uri)),
        }
    }

    /// Records an included source that was read again: it must have the text that was
    /// included.
    pub fn record_included_file(
        &mut self,
        uri: &str,
        source: &str,
        reading: &DiskReading,
        path: &FilePath,
        read_policy: &str,
        entry: &PathEntry,
    ) -> (r: Result<(), String>)
        ensures
            match r {
                Ok(_) => {
                    &&& reading.text@ == source@
                    &&& final(self)@ == with_record(
                        old(self)@,
                        uri@,
                        RecordView {
                            include_payload: true,
                            ..closed_record(uri@, *reading, path@, read_policy@, entry@)
                        },
                    )
                },
                Err(reason) => {
                    &&& reading.text@ != source@
                    &&& reason@ == included_changed_text(uri@)
                    &&& *final(self) == *old(self)
                },
            },
    {
        if !same_str(reading.text, source) {
            return Err(changed_message(uri));
        }
        let ghost before = self@;
        self.record_closed_analysis_source(uri, reading, path, read_policy, entry);
        self.mark_include_payload(uri);
        proof {
            if before is Some {
                let record = closed_record(uri@, *reading, path@, read_policy@, entry@);
                assert(self@->0 =~= before->0.insert(
                    uri@,
                    RecordView { include_payload: true, ..record },
                ));
            }
        }
        Ok(())
    }
}

/// The sources of an expansion, but for the expanded one, in their order.
pub open spec fn included_of(sources: Set<Seq<char>>, root: Seq<char>) -> Seq<Seq<char>> {
    in_order(sources).filter(|uri: Seq<char>| uri != root)
}

/// The sources of an expansion, but for the expanded one, in their order.
pub fn included_sources(record: &ExpansionRecord, root: &str) -> (r: Vec<String>)
    ensures
        texts(r@) == included_of(record@.source_texts.dom(), root@),
{
    let n: usize = record.source_texts.len();
    let ghost keys = record.source_texts.keys();
    let ghost other = |uri: Seq<char>| uri != root@;
    let mut r: Vec<String> = Vec::new();
    let mut i: usize = 0;
    proof {
        assert(record@.source_texts.dom() =~= record.source_texts@.dom());
        assert(keys.take(0) =~= seq![]);
        reveal(Seq::filter);
        assert(texts(r@) =~= keys.take(0).filter(other));
    }
    while i < n
        invariant
            i <= n,
            n == keys.len(),
            keys == record.source_texts.keys(),
            other == (|uri: Seq<char>| uri != root@),
            texts(r@) == keys.take(i as int).filter(other),
        decreases n - i,
    {
        let ghost held = r@;
        let uri = record.source_texts.key_at(i);
        proof {
            let more = keys.take(i + 1);
            assert(more.drop_last() =~= keys.take(i as int));
            assert(more.last() == keys[i as int]);
            reveal(Seq::filter);
        }
        if !same_str(uri.as_str(), root) {
            let copied = uri.clone();
            r.push(copied);
            proof {
                assert(texts(r@) =~= texts(held).push(copied@));
            }
        }
        i += 1;
    }
    proof {
        assert(keys.take(n as int) =~= keys);
    }
    r
}

/// The entry under which an included source is read: the one that it was included under,
/// else the one that its project has for it, else that of a file that only the file system
/// leads to.
pub open spec fn included_entry(
    known: Option<EntryView>,
    project: Option<EntryView>,
    path: Parts,
) -> EntryView {
    match known {
        Some(entry) => entry,
        None => match project {
            Some(entry) => entry,
            None => EntryView { path, provenance: ProvenanceView::LegacyNative },
        },
    }
}

/// The entry under which an included source is read, and whether it is one that only the
/// file system leads to.
pub fn entry_of_included(
    record: &ExpansionRecord,
    uri: &str,
    project: Option<PathEntry>,
    path: &FilePath,
) -> (r: (PathEntry, bool))
    ensures
        ({
            let entries = record@.dependency_entries;
            let known = if entries.contains_key(uri@) {
                Some(entries[uri@])
            } else {
                None
            };
            &&& r.0@ == included_entry(known, optional_entry(project), path@)
            &&& r.1 == (r.0@.provenance == ProvenanceView::LegacyNative)
        }),
{
    let entry = match record.dependency_entries.get(uri) {
        Some(entry) => entry.copy(),
        None => match project {
            Some(entry) => entry,
            None => PathEntry { path: path.copy(), provenance: Provenance::LegacyNative },
        },
    };
    let legacy = match &entry.provenance {
        Provenance::LegacyNative => true,
        _ => false,
    };
    (entry, legacy)
}

/// What bounds the expansion of a source.
#[derive(Clone, Copy, Debug, PartialEq, Eq, Structural)]
pub struct ExpansionLimits {
    pub max_sources: usize,
    pub max_expanded_bytes: usize,
    pub max_depth: usize,
}

/// What bounds expansions in a workspace: no more than the workspace may keep.
pub fn include_expansion_limits(general: ExpansionLimits, limits: &ResourceLimits) -> (r:
    ExpansionLimits)
    ensures
        r == (ExpansionLimits {
            max_sources: if general.max_sources <= limits.max_files {
                general.max_sources
            } else {
                limits.max_files
            },
            max_expanded_bytes: if general.max_expanded_bytes <= limits.max_total_bytes {
                general.max_expanded_bytes
            } else {
                limits.max_total_bytes
            },
            ..general
        }),
{
    ExpansionLimits {
        max_sources: if general.max_sources <= limits.max_files {
            general.max_sources
        } else {
            limits.max_files
        },
        max_expanded_bytes: if general.max_expanded_bytes <= limits.max_total_bytes {
            general.max_expanded_bytes
        } else {
            limits.max_total_bytes
        },
        ..general
    }
}

} // verus!
