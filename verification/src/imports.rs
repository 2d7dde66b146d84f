//! How the imports of a source are followed: whether they are, what is recorded of files that
//! may turn up for them, and what is kept of the sources that they lead to.

use vstd::prelude::*;

use crate::excludes::WorkspaceRoot;
use crate::loaded::with_granted_route;
use crate::names::{candidate_tiers, flat, unit_filename_candidates};
use crate::paths::{joined, parse_parts, path_text, FilePath, Parts};
use crate::project::{
    context_path_entry, optional_entry, path_entry, ContextKey, DiskStamp, EntryView, KeyView,
    PathEntry, PathStamp, ProjectContext, ProvenanceView,
};
use crate::records::{
    lower_names, lowered, with_scope, AnalysisRecords, RecordView, ScopeView,
};
use crate::sources::{Sources, SourcesView};
use crate::strings::{concat, concat3, same_str, texts};
use crate::strmap::StrSet;
use crate::uris::{file_path_of, normal, path_uri, uri_of_path, uri_path};
use crate::workspace::{Workspace, WorkspaceView};

verus! {

/// What is done first with the imports of a source.
#[derive(Clone, Copy, Debug, PartialEq, Eq, Structural)]
pub enum ImportStart {
    /// Nothing: nothing is known of its project.
    Stop,
    /// They are bound to nothing: there are none.
    BindNothing,
    /// They are resolved. Without a project, a file for them may turn up anywhere.
    Resolve { anywhere: bool },
}

/// What is done first with imports in a context.
pub open spec fn import_start(v: SourcesView, key: KeyView, imports: nat) -> ImportStart {
    if !v.store.contexts.contains_key(key) {
        ImportStart::Stop
    } else if imports == 0 {
        ImportStart::BindNothing
    } else {
        ImportStart::Resolve { anywhere: v.store.contexts[key].context.project_file is None }
    }
}

/// Why the imports of a source cannot be resolved.
pub open spec fn import_refusal(uri: Seq<char>, named: bool, read: bool) -> Option<Seq<char>> {
    if uri_path(uri) is None {
        Some("unit imports require a file URI: "@ + uri)
    } else if !named {
        Some("indexed source "@ + uri + " has no declared unit name"@)
    } else if !read {
        Some("indexed source "@ + uri + " has no decoded source text"@)
    } else {
        None
    }
}

/// The file of a source whose imports are resolved. `named` says that it declares a unit, and
/// `read` that it is indexed with a text.
pub fn importing_file(uri: &str, named: bool, read: bool) -> (r: Result<FilePath, String>)
    ensures
        match r {
            Ok(path) => import_refusal(uri@, named, read) is None && Some(path@) == uri_path(uri@),
            Err(reason) => import_refusal(uri@, named, read) == Some(reason@),
        },
{
    match file_path_of(uri) {
        None => Err(concat("unit imports require a file URI: ", uri)),
        Some(path) => if !named {
            Err(concat3("indexed source ", uri, " has no declared unit name"))
        } else if !read {
            Err(concat3("indexed source ", uri, " has no decoded source text"))
        } else {
            Ok(path)
        },
    }
}

/// What is said of an indexed source that the resolver cannot load.
pub open spec fn unloaded_text(uri: Seq<char>, error: Seq<char>) -> Seq<char> {
    "could not load indexed source "@ + uri + ": "@ + error
}

pub fn unloaded_message(uri: &str, error: &str) -> (r: String)
    ensures
        r@ == unloaded_text(uri@, error@),
{
    let head = concat3("could not load indexed source ", uri, ": ");
    concat(head.as_str(), error)
}

/// The URI of a source that an import was resolved to.
pub fn dependency_uri(path: &FilePath) -> (r: Result<String, String>)
    ensures
        match r {
            Ok(uri) => path_uri(path@) == Some(uri@),
            Err(reason) => path_uri(path@) is None && reason@
                == "resolved unit is not a file URI: "@ + path_text(path@),
        },
{
    match uri_of_path(path) {
        Some(uri) => Ok(uri),
        None => Err(concat("resolved unit is not a file URI: ", path.text().as_str())),
    }
}

/// The names, in lower case, of the files that a unit may be in.
pub open spec fn provider_names(name: Seq<char>, namespaces: Seq<Seq<char>>) -> Seq<Seq<char>> {
    let tiers = candidate_tiers(name, namespaces);
    lowered(flat(tiers, tiers.len() as int))
}

/// The entry that a folder is searched under: the one that it may be read under, or none but
/// the file system.
pub open spec fn folder_entry(
    context: ProjectContext,
    root: Parts,
    policy: Option<EntryView>,
) -> EntryView {
    match path_entry(context, root, policy) {
        Some(entry) => entry,
        None => EntryView { path: root, provenance: ProvenanceView::LegacyNative },
    }
}

/// The records with a folder in which one of the names may turn up.
pub open spec fn scope_recorded(
    records: Option<Map<Seq<char>, RecordView>>,
    root: Parts,
    names: Seq<Seq<char>>,
    read_policy: Seq<char>,
    entry: EntryView,
    stamp: Option<PathStamp>,
) -> Option<Map<Seq<char>, RecordView>> {
    if records is None || names.len() == 0 {
        records
    } else {
        Some(
            with_scope(
                records->0,
                ScopeView {
                    root: normal(root),
                    names: lowered(names),
                    read_policy,
                    path_entry: entry,
                },
                joined(normal(root), parse_parts(names[0])),
                stamp,
            ),
        )
    }
}

/// What the records of folders rest on: the project, what its read policy says of each
/// folder, and what the policy is called.
pub struct ScopeFacts<'a> {
    pub context: &'a ProjectContext,
    pub roots: &'a Vec<WorkspaceRoot>,
    pub policies: &'a Vec<Option<PathEntry>>,
    pub read_policy: &'a str,
}

/// The records with the first `n` folders, in which one of the names may turn up.
pub open spec fn folders_recorded(
    records: Option<Map<Seq<char>, RecordView>>,
    facts: ScopeFacts,
    names: Seq<Seq<char>>,
    stamps: Seq<Option<PathStamp>>,
    n: int,
) -> Option<Map<Seq<char>, RecordView>>
    decreases n,
{
    if n <= 0 {
        records
    } else {
        let root = facts.roots@[n - 1].path@;
        scope_recorded(
            folders_recorded(records, facts, names, stamps, n - 1),
            root,
            names,
            facts.read_policy@,
            folder_entry(*facts.context, root, optional_entry(facts.policies@[n - 1])),
            stamps[n - 1],
        )
    }
}

/// The records with the folders in which a file for one of the first `n` imports may turn up.
pub open spec fn imports_recorded(
    records: Option<Map<Seq<char>, RecordView>>,
    facts: ScopeFacts,
    imports: Seq<Seq<char>>,
    stamps: Seq<Vec<Option<PathStamp>>>,
    n: int,
) -> Option<Map<Seq<char>, RecordView>>
    decreases n,
{
    if n <= 0 {
        records
    } else {
        folders_recorded(
            imports_recorded(records, facts, imports, stamps, n - 1),
            facts,
            provider_names(imports[n - 1], texts(facts.context.unit_namespaces@)),
            stamps[n - 1]@,
            facts.roots@.len() as int,
        )
    }
}

impl AnalysisRecords {
    fn record_folders(
        &mut self,
        facts: &ScopeFacts,
        names: &Vec<String>,
        stamps: &Vec<Option<PathStamp>>,
    )
        requires
            facts.policies@.len() == facts.roots@.len(),
            stamps@.len() == facts.roots@.len(),
        ensures
            final(self)@ == folders_recorded(
                old(self)@,
                *facts,
                texts(names@),
                stamps@,
                facts.roots@.len() as int,
            ),
    {
        let ghost start = self@;
        let ghost list = texts(names@);
        proof {
            assert(list.len() == names@.len());
        }
        let mut j: usize = 0;
        while j < facts.roots.len()
            invariant
                j <= facts.roots@.len(),
                list == texts(names@),
                list.len() == names@.len(),
                facts.policies@.len() == facts.roots@.len(),
                stamps@.len() == facts.roots@.len(),
                self@ == folders_recorded(start, *facts, list, stamps@, j as int),
            decreases facts.roots@.len() - j,
        {
            let root = &facts.roots[j].path;
            let policy = match &facts.policies[j] {
                Some(entry) => Some(entry.copy()),
                None => None,
            };
            let entry = match context_path_entry(facts.context, root, policy) {
                Some(entry) => entry,
                None => PathEntry::legacy(root.copy()),
            };
            let ghost held = self@;
            self.record_missing_provider_scope(root, names, facts.read_policy, &entry, stamps[j]);
            proof {
                if names@.len() > 0 {
                    assert(list[0] == names@[0]@);
                }
                assert(self@ == scope_recorded(
                    held,
                    root@,
                    list,
                    facts.read_policy@,
                    entry@,
                    stamps@[j as int],
                ));
            }
            j += 1;
        }
    }

    /// Records, for each import, the folders in which a file for it may turn up. `stamps` has,
    /// for each import and each folder, the stamp of the first of these files.
    pub fn record_import_scopes(
        &mut self,
        facts: &ScopeFacts,
        imports: &Vec<String>,
        stamps: &Vec<Vec<Option<PathStamp>>>,
    )
        requires
            facts.policies@.len() == facts.roots@.len(),
            stamps@.len() == imports@.len(),
            forall|i: int|
                0 <= i < stamps@.len() ==> (#[trigger] stamps@[i])@.len() == facts.roots@.len(),
        ensures
            final(self)@ == imports_recorded(
                old(self)@,
                *facts,
                texts(imports@),
                stamps@,
                imports@.len() as int,
            ),
    {
        let ghost start = self@;
        let ghost list = texts(imports@);
        let mut i: usize = 0;
        while i < imports.len()
            invariant
                i <= imports@.len(),
                list == texts(imports@),
                facts.policies@.len() == facts.roots@.len(),
                stamps@.len() == imports@.len(),
                forall|i: int|
                    0 <= i < stamps@.len() ==> (#[trigger] stamps@[i])@.len()
                        == facts.roots@.len(),
                self@ == imports_recorded(start, *facts, list, stamps@, i as int),
            decreases imports@.len() - i,
        {
            let names = lower_names(
                &unit_filename_candidates(imports[i].as_str(), &facts.context.unit_namespaces),
            );
            proof {
                assert(list[i as int] == imports@[i as int]@);
                assert(stamps@[i as int]@.len() == facts.roots@.len());
            }
            self.record_folders(facts, &names, &stamps[i]);
            i += 1;
        }
    }
}

/// What is done with a source that an import was resolved to.
#[derive(Clone, Copy, Debug, PartialEq, Eq, Structural)]
pub enum DependencyStep {
    /// Nothing: it is the importing source.
    Skip,
    /// It is indexed as it was resolved.
    Use,
    /// It is indexed first.
    Index,
}

/// The source is indexed in the context, with this text.
pub open spec fn indexed_as(
    v: SourcesView,
    uri: Seq<char>,
    key: KeyView,
    indexed_text: Option<Seq<char>>,
    text: Seq<char>,
) -> bool {
    v.sizes.contains_key(uri) && v.store.document_contexts.contains_key(uri)
        && v.store.document_contexts[uri] == key && indexed_text == Some(text)
}

impl Sources {
    /// What is done first with the imports of a source in a context.
    pub fn begin_imports(&self, key: &ContextKey, imports: usize) -> (r: ImportStart)
        ensures
            r == import_start(self@, key@, imports as nat),
    {
        match self.contexts.contexts.get(key) {
            None => ImportStart::Stop,
            Some(state) => if imports == 0 {
                ImportStart::BindNothing
            } else {
                ImportStart::Resolve { anywhere: state.context.project_file.is_none() }
            },
        }
    }

    /// What is done with a source that an import of `uri` was resolved to, with this text.
    /// `indexed_text` is the text that it is indexed with.
    pub fn consider_dependency(
        &self,
        uri: &str,
        dependency: &str,
        key: &ContextKey,
        indexed_text: Option<&str>,
        text: &str,
    ) -> (r: DependencyStep)
        ensures
            r == (if dependency@ == uri@ {
                DependencyStep::Skip
            } else if indexed_as(
                self@,
                dependency@,
                key@,
                match indexed_text {
                    Some(indexed) => Some(indexed@),
                    None => None,
                },
                text@,
            ) {
                DependencyStep::Use
            } else {
                DependencyStep::Index
            }),
    {
        if same_str(dependency, uri) {
            DependencyStep::Skip
        } else if self.already_indexed(dependency, key, indexed_text, text) {
            DependencyStep::Use
        } else {
            DependencyStep::Index
        }
    }
}

impl Workspace {
    /// Keeps a source that an import was resolved to, once it is indexed. `stamp` is that of
    /// its file, where its text is from there. `routed` says that nothing but the file system
    /// leads to it, from a source of which the same holds.
    pub fn keep_dependency(
        &mut self,
        uri: &str,
        path: &FilePath,
        key: &ContextKey,
        stamp: Option<DiskStamp>,
        routed: bool,
        pinned: &mut StrSet,
    )
        requires
            old(self).wf(),
        ensures
            final(self).wf(),
            final(self).same_rest(old(self)),
            final(pinned)@ == old(pinned)@.insert(uri@),
            final(self)@ == (WorkspaceView {
                sources: with_granted_route(
                    match stamp {
                        Some(stamp) => SourcesView {
                            stamps: old(self)@.sources.stamps.insert(uri@, stamp),
                            ..old(self)@.sources
                        },
                        None => old(self)@.sources,
                    },
                    routed,
                    uri@,
                    key@,
                    path@,
                ),
                ..old(self)@
            }),
    {
        let ghost before = self@;
        if let Some(stamp) = stamp {
            let _previous = self.sources.stamps.insert(uri.to_owned(), stamp);
            proof {
                assert(self.sources@ =~= (SourcesView {
                    stamps: before.sources.stamps.insert(uri@, stamp),
                    ..before.sources
                }));
            }
        }
        let _new = pinned.insert(uri.to_owned());
        self.sources.grant_route(routed, uri, key, path);
        proof {
            assert(self@ =~= (WorkspaceView { sources: self@.sources, ..before }));
        }
    }
}

} // verus!
