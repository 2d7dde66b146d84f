//! What becomes of a workspace as its options change, and which configuration files it
//! watches.

use std::sync::atomic::AtomicBool;

use vstd::prelude::*;

use crate::cancel::{check_workspace_cancel, Interrupt};
use crate::contexts::{KnownDocumentOwner, OwnerChange};
use crate::deleted::DeletedFiles;
use crate::documents::{DocumentView, OpenDocument, OpenDocuments};
use crate::events::{all_changed, no_records, nothing_derived};
use crate::excludes::{compile_exclude_patterns_with_cancel, compiled, set_patterns, WorkspaceRoot};
use crate::folders::folder_paths;
use crate::generations::GenerationsView;
use crate::keymap::KeyMap;
use crate::names::{
    add_configuration_watch_directories, add_configuration_watch_directory,
    add_configuration_watch_path, is_live_configuration_file, live_configuration, path_views,
    with_configuration_of, with_configuration_of_all, with_path,
};
use crate::paths::{absolute_parts, absolute_path, FilePath, Parts};
use crate::project::PathStamp;
use crate::records::AnalysisRecords;
use crate::selection::Selections;
use crate::settings::{WorkspaceOptions, WorkspaceOptionsView};
use crate::sorting::{sort, sorted_list, views};
use crate::sources::SourcesView;
use crate::strings::{same_str, texts};
use crate::strmap::{in_order, StrMap};
use crate::uris::{optional_parts, optional_text, path_uri, uri_of_path};
use crate::workspace::{fresh_workspace, roots_describe, scheduled, Workspace, WorkspaceView};

verus! {

/// Options that are ready to be taken up, with the folders as they come with them.
pub struct PreparedWorkspaceOptions {
    pub options: WorkspaceOptions,
    pub root_paths: Vec<FilePath>,
    pub roots: Vec<WorkspaceRoot>,
}

/// Paths from the root.
pub open spec fn absolute_all(cwd: Parts, paths: Seq<Parts>) -> Seq<Parts> {
    paths.map_values(|p: Parts| absolute_parts(cwd, p))
}

/// Makes options ready to be taken up. The request for them may be taken back meanwhile.
pub fn prepare_runtime_options_for_roots(
    cwd: &FilePath,
    root_paths: &Vec<FilePath>,
    options: WorkspaceOptions,
    cancel: &AtomicBool,
) -> (r: Result<PreparedWorkspaceOptions, Interrupt>)
    ensures
        match r {
            Ok(prepared) => {
                let whole = absolute_all(cwd@, views(root_paths@));
                &&& prepared.options == options
                &&& views(prepared.root_paths@) == whole
                &&& roots_describe(prepared.roots@, cwd@, whole, options@)
            },
            Err(interrupt) => interrupt is Cancelled,
        },
{
    check_workspace_cancel(Some(cancel))?;
    let ghost given = views(root_paths@);
    let ghost whole = absolute_all(cwd@, given);
    let mut paths: Vec<FilePath> = Vec::new();
    let mut i: usize = 0;
    proof {
        assert(views(paths@) =~= whole.take(0));
    }
    while i < root_paths.len()
        invariant
            i <= root_paths@.len(),
            given == views(root_paths@),
            whole == absolute_all(cwd@, given),
            views(paths@) == whole.take(i as int),
        decreases root_paths@.len() - i,
    {
        let ghost held = paths@;
        let path = absolute_path(cwd, &root_paths[i]);
        paths.push(path);
        proof {
            assert(given[i as int] == root_paths@[i as int]@);
            assert(views(paths@) =~= views(held).push(path@));
            assert(whole.take(i + 1) =~= whole.take(i as int).push(whole[i as int]));
        }
        i += 1;
    }
    let patterns = compile_exclude_patterns_with_cancel(&options.exclude, Some(cancel))?;
    let mut roots: Vec<WorkspaceRoot> = Vec::new();
    let mut k: usize = 0;
    proof {
        assert(whole.take(whole.len() as int) =~= whole);
    }
    while k < paths.len()
        invariant
            k <= paths@.len(),
            views(paths@) == whole,
            roots@.len() == k,
            (match patterns {
                Some(set) => Some(set_patterns(set)),
                None => None,
            }) == compiled(texts(options.exclude@)),
            forall|j: int|
                0 <= j < k ==> (#[trigger] roots@[j]).describes(
                    cwd@,
                    whole[j],
                    options@.source_paths,
                    compiled(options@.exclude),
                ),
        decreases paths@.len() - k,
    {
        proof {
            assert(views(paths@)[k as int] == paths@[k as int]@);
        }
        roots.push(
            WorkspaceRoot::new_with_patterns(
                cwd,
                &paths[k],
                &options.source_paths,
                patterns.as_ref(),
            ),
        );
        k += 1;
    }
    proof {
        assert(whole.len() == paths@.len());
    }
    Ok(PreparedWorkspaceOptions { options, root_paths: paths, roots })
}

fn same_texts(a: &Vec<String>, b: &Vec<String>) -> (r: bool)
    ensures
        r == (texts(a@) == texts(b@)),
{
    if a.len() != b.len() {
        proof {
            assert(texts(a@).len() != texts(b@).len());
        }
        return false;
    }
    let mut i: usize = 0;
    while i < a.len()
        invariant
            i <= a@.len(),
            a@.len() == b@.len(),
            forall|j: int| 0 <= j < i ==> #[trigger] a@[j]@ == b@[j]@,
        decreases a@.len() - i,
    {
        if !same_str(a[i].as_str(), b[i].as_str()) {
            proof {
                assert(texts(a@)[i as int] != texts(b@)[i as int]);
            }
            return false;
        }
        i += 1;
    }
    proof {
        assert(texts(a@) =~= texts(b@));
    }
    true
}

fn same_optional_text(a: &Option<String>, b: &Option<String>) -> (r: bool)
    ensures
        r == (optional_text(*a) == optional_text(*b)),
{
    match (a, b) {
        (Some(a), Some(b)) => same_str(a.as_str(), b.as_str()),
        (None, None) => true,
        _ => false,
    }
}

fn same_optional_path(a: &Option<FilePath>, b: &Option<FilePath>) -> (r: bool)
    ensures
        r == (optional_parts(*a) == optional_parts(*b)),
{
    match (a, b) {
        (Some(a), Some(b)) => a.same(b),
        (None, None) => true,
        _ => false,
    }
}

impl WorkspaceOptions {
    /// Whether both stand for the same.
    pub fn same(&self, other: &Self) -> (r: bool)
        ensures
            r == (self@ == other@),
    {
        let same = same_texts(&self.source_paths, &other.source_paths) && same_texts(
            &self.exclude,
            &other.exclude,
        ) && same_optional_path(&self.project_file, &other.project_file) && same_optional_text(
            &self.build_config,
            &other.build_config,
        ) && same_optional_text(&self.platform, &other.platform) && self.conditional_context.same(
            &other.conditional_context,
        ) && self.limits == other.limits;
        proof {
            if same {
                assert(self@ =~= other@);
            }
        }
        same
    }
}

fn same_folders(roots: &Vec<WorkspaceRoot>, paths: &Vec<FilePath>) -> (r: bool)
    ensures
        r == (folder_paths(roots@) == views(paths@)),
{
    if roots.len() != paths.len() {
        proof {
            assert(folder_paths(roots@).len() != views(paths@).len());
        }
        return false;
    }
    let mut i: usize = 0;
    while i < roots.len()
        invariant
            i <= roots@.len(),
            roots@.len() == paths@.len(),
            forall|j: int| 0 <= j < i ==> (#[trigger] roots@[j]).path@ == paths@[j]@,
        decreases roots@.len() - i,
    {
        if !roots[i].path.same(&paths[i]) {
            proof {
                assert(folder_paths(roots@)[i as int] != views(paths@)[i as int]);
            }
            return false;
        }
        i += 1;
    }
    proof {
        assert(folder_paths(roots@) =~= views(paths@));
    }
    true
}

/// The workspace after it got other options: nothing that was derived holds, and all
/// documents are diagnosed again.
pub open spec fn reconfigured(
    ws: WorkspaceView,
    options: WorkspaceOptionsView,
    project_file_changed: bool,
    now: u64,
) -> WorkspaceView {
    let open = in_order(ws.documents.dom());
    WorkspaceView {
        generations: all_changed(ws.generations),
        sources: nothing_derived(ws.sources, OwnerChange::OptionsChanged(project_file_changed)),
        records: no_records(ws.records),
        schedule: scheduled(ws.schedule, open, now, open.len() as int),
        limits: options.limits,
        project_configured: options.project_file is Some,
        ..ws
    }
}

impl Workspace {
    /// Takes other options up. Nothing happens where they are the same, or were prepared for
    /// other folders. Returns whether anything happened.
    pub fn apply_prepared_runtime_options(&mut self, prepared: PreparedWorkspaceOptions, now: u64) -> (r:
        bool)
        requires
            old(self).wf(),
        ensures
            final(self).wf(),
            r == (old(self).options@ != prepared.options@ && folder_paths(old(self).roots@)
                == views(prepared.root_paths@)),
            !r ==> *final(self) == *old(self),
            r ==> {
                &&& final(self).options == prepared.options
                &&& final(self).roots == prepared.roots
                &&& final(self).publications == old(self).publications
                &&& final(self).selections == old(self).selections
                &&& final(self).catalogues_empty()
                &&& final(self)@ == reconfigured(
                    old(self)@,
                    prepared.options@,
                    old(self).options@.project_file != prepared.options@.project_file,
                    now,
                )
            },
    {
        if self.options.same(&prepared.options) || !same_folders(&self.roots, &prepared.root_paths) {
            return false;
        }
        let ghost start = self@;
        let ghost new = prepared.options@;
        let project_file_changed = !same_optional_path(
            &self.options.project_file,
            &prepared.options.project_file,
        );
        self.options = prepared.options;
        self.roots = prepared.roots;
        self.generations.bump_source_generation();
        self.generations.bump_configuration_generation();
        self.generations.mark_global_change();
        self.generations.clear_changes();
        self.sources.forget_derived(&OwnerChange::OptionsChanged(project_file_changed));
        self.records.clear();
        self.directories.kept.clear();
        self.filenames.kept.clear();
        self.packages.cache.clear();
        self.package_metadata.readings.clear();
        let ghost base = self@;
        proof {
            assert(base =~= (WorkspaceView {
                generations: all_changed(start.generations),
                sources: nothing_derived(
                    start.sources,
                    OwnerChange::OptionsChanged(project_file_changed),
                ),
                records: no_records(start.records),
                limits: new.limits,
                project_configured: new.project_file is Some,
                ..start
            }));
        }
        let _count: usize = self.documents.documents.len();
        let open = self.documents.documents.key_list();
        proof {
            assert(self@.documents.dom() =~= self.documents.documents@.dom());
            assert(texts(open@).len() == open@.len());
        }
        self.schedule_all(&open, now);
        proof {
            assert(self@ =~= reconfigured(start, new, project_file_changed, now));
        }
        true
    }

    /// The URI of the one folder of the workspace.
    pub fn configuration_scope_uri(&self) -> (r: Option<String>)
        ensures
            optional_text(r) == (if self.roots@.len() == 1 {
                path_uri(self.roots@[0].path@)
            } else {
                None
            }),
    {
        if self.roots.len() == 1 {
            uri_of_path(&self.roots[0].path)
        } else {
            None
        }
    }
}

/// The paths with the configuration files among the first `n` that are watched.
pub open spec fn with_live_files(paths: Seq<Parts>, watched: Seq<Parts>, n: int) -> Seq<Parts>
    decreases n,
{
    if n <= 0 {
        paths
    } else {
        let before = with_live_files(paths, watched, n - 1);
        if live_configuration(watched[n - 1]) {
            with_path(before, watched[n - 1])
        } else {
            before
        }
    }
}

/// The paths with the configuration files of the first `n` folders, and of the directories
/// above them where configuration is looked for.
pub open spec fn with_folder_files(
    paths: Seq<Parts>,
    folders: Seq<Parts>,
    above: Seq<Seq<Parts>>,
    n: int,
) -> Seq<Parts>
    decreases n,
{
    if n <= 0 {
        paths
    } else {
        with_configuration_of_all(
            with_configuration_of(
                with_folder_files(paths, folders, above, n - 1),
                folders[n - 1],
            ),
            above[n - 1],
            above[n - 1].len() as int,
        )
    }
}

/// The paths with the configuration files of the first `n` lists of directories.
pub open spec fn with_listed_files(paths: Seq<Parts>, lists: Seq<Seq<Parts>>, n: int) -> Seq<Parts>
    decreases n,
{
    if n <= 0 {
        paths
    } else {
        with_configuration_of_all(
            with_listed_files(paths, lists, n - 1),
            lists[n - 1],
            lists[n - 1].len() as int,
        )
    }
}

/// Lists of directories.
pub open spec fn directory_lists(lists: Seq<Vec<FilePath>>) -> Seq<Seq<Parts>> {
    lists.map_values(|list: Vec<FilePath>| path_views(list@))
}

/// Where configuration is looked for: above each folder, for each project file that the
/// options name, and for each scope in which a project is selected.
#[derive(Debug)]
pub struct ConfigurationPlaces {
    pub above_folders: Vec<Vec<FilePath>>,
    pub for_projects: Vec<Vec<FilePath>>,
    pub for_selections: Vec<Vec<FilePath>>,
}

fn add_live_files(paths: &mut Vec<FilePath>, watched: &KeyMap<FilePath, Option<PathStamp>>)
    ensures
        path_views(final(paths)@) == with_live_files(
            path_views(old(paths)@),
            watched.keys(),
            watched.keys().len() as int,
        ),
{
    let n: usize = watched.len();
    let ghost keys = watched.keys();
    let ghost start = path_views(paths@);
    let mut i: usize = 0;
    while i < n
        invariant
            i <= n,
            n == keys.len(),
            keys == watched.keys(),
            start == path_views(old(paths)@),
            path_views(paths@) == with_live_files(start, keys, i as int),
        decreases n - i,
    {
        let path = watched.key_at(i);
        if is_live_configuration_file(path) {
            add_configuration_watch_path(paths, path.copy());
        }
        i += 1;
    }
}

fn add_listed_files(paths: &mut Vec<FilePath>, lists: &Vec<Vec<FilePath>>)
    ensures
        path_views(final(paths)@) == with_listed_files(
            path_views(old(paths)@),
            directory_lists(lists@),
            lists@.len() as int,
        ),
{
    let ghost start = path_views(paths@);
    let ghost all = directory_lists(lists@);
    let mut i: usize = 0;
    while i < lists.len()
        invariant
            i <= lists@.len(),
            all == directory_lists(lists@),
            start == path_views(old(paths)@),
            path_views(paths@) == with_listed_files(start, all, i as int),
        decreases lists@.len() - i,
    {
        proof {
            assert(all[i as int] == path_views(lists@[i as int]@));
            assert(path_views(lists@[i as int]@).len() == lists@[i as int]@.len());
        }
        add_configuration_watch_directories(paths, &lists[i]);
        i += 1;
    }
}

/// The files that are watched in the first `n` contexts.
pub open spec fn with_context_files(
    paths: Seq<Parts>,
    workspace: Workspace,
    n: int,
) -> Seq<Parts>
    decreases n,
{
    if n <= 0 {
        paths
    } else {
        let store = workspace.sources.contexts.contexts;
        let watched = store@[store.keys()[n - 1]].watched_paths.keys();
        with_live_files(
            with_context_files(paths, workspace, n - 1),
            watched,
            watched.len() as int,
        )
    }
}

/// The files that are watched on account of the first `n` owners.
pub open spec fn with_owner_files(
    paths: Seq<Parts>,
    workspace: Workspace,
    n: int,
) -> Seq<Parts>
    decreases n,
{
    if n <= 0 {
        paths
    } else {
        let owners = workspace.sources.contexts.owners;
        let watched = owners@[owners.keys()[n - 1]].state.watched_paths.keys();
        with_live_files(
            with_owner_files(paths, workspace, n - 1),
            watched,
            watched.len() as int,
        )
    }
}

/// The configuration files that may affect what a workspace knows, each once.
pub open spec fn watched_configuration(workspace: Workspace, places: ConfigurationPlaces) -> Seq<
    Parts,
> {
    let folders = folder_paths(workspace.roots@);
    let above = directory_lists(places.above_folders@);
    let first = with_folder_files(seq![], folders, above, folders.len() as int);
    let projects = directory_lists(places.for_projects@);
    let second = with_listed_files(first, projects, projects.len() as int);
    let selected = directory_lists(places.for_selections@);
    let third = with_listed_files(second, selected, selected.len() as int);
    let fourth = with_context_files(
        third,
        workspace,
        workspace.sources.contexts.contexts.keys().len() as int,
    );
    with_owner_files(fourth, workspace, workspace.sources.contexts.owners.keys().len() as int)
}

impl Workspace {
    /// The configuration files that may affect what is known, in the order of their texts.
    /// `places` are the directories in which configuration is looked for.
    pub fn configuration_watch_paths(&self, places: &ConfigurationPlaces) -> (r: Vec<FilePath>)
        requires
            places.above_folders@.len() == self.roots@.len(),
        ensures
            views(r@) == sorted_list::<FilePath>(watched_configuration(*self, *places)),
    {
        let mut paths: Vec<FilePath> = Vec::new();
        let ghost folders = folder_paths(self.roots@);
        let ghost above = directory_lists(places.above_folders@);
        let mut i: usize = 0;
        proof {
            assert(path_views(paths@) =~= seq![]);
        }
        while i < self.roots.len()
            invariant
                i <= self.roots@.len(),
                places.above_folders@.len() == self.roots@.len(),
                folders == folder_paths(self.roots@),
                above == directory_lists(places.above_folders@),
                path_views(paths@) == with_folder_files(seq![], folders, above, i as int),
            decreases self.roots@.len() - i,
        {
            proof {
                assert(folders[i as int] == self.roots@[i as int].path@);
                assert(above[i as int] == path_views(places.above_folders@[i as int]@));
                assert(path_views(places.above_folders@[i as int]@).len()
                    == places.above_folders@[i as int]@.len());
            }
            add_configuration_watch_directory(&mut paths, &self.roots[i].path);
            add_configuration_watch_directories(&mut paths, &places.above_folders[i]);
            i += 1;
        }
        add_listed_files(&mut paths, &places.for_projects);
        add_listed_files(&mut paths, &places.for_selections);
        let ghost third = path_views(paths@);
        let n: usize = self.sources.contexts.contexts.len();
        let ghost keys = self.sources.contexts.contexts.keys();
        let mut k: usize = 0;
        while k < n
            invariant
                k <= n,
                n == keys.len(),
                keys == self.sources.contexts.contexts.keys(),
                path_views(paths@) == with_context_files(third, *self, k as int),
            decreases n - k,
        {
            add_live_files(&mut paths, &self.sources.contexts.contexts.value_at(k).watched_paths);
            k += 1;
        }
        let ghost fourth = path_views(paths@);
        let m: usize = self.sources.contexts.owners.len();
        let ghost names = self.sources.contexts.owners.keys();
        let mut j: usize = 0;
        while j < m
            invariant
                j <= m,
                m == names.len(),
                names == self.sources.contexts.owners.keys(),
                path_views(paths@) == with_owner_files(fourth, *self, j as int),
            decreases m - j,
        {
            add_live_files(
                &mut paths,
                &self.sources.contexts.owners.value_at(j).state.watched_paths,
            );
            j += 1;
        }
        proof {
            assert(views(paths@) =~= path_views(paths@));
        }
        sort(paths)
    }
}

/// What stands in the place of a reason that was not given.
pub const REJECTED_BY_LIMITS: &'static str = "open document was rejected by workspace limits";

/// An open document as a worker sees it.
pub fn overlay_document(text: &str, version: i32, source_generation: u64) -> (r: OpenDocument)
    ensures
        r@ == (DocumentView {
            text: Some(text@),
            version,
            rejection: None,
            identity_generation: source_generation,
        }),
{
    OpenDocument {
        text: Some(text.to_owned()),
        version,
        rejection: None,
        identity_generation: source_generation,
    }
}

/// A refused document as a worker sees it.
pub fn rejected_document(
    reason: Option<String>,
    version: Option<i32>,
    source_generation: u64,
) -> (r: OpenDocument)
    ensures
        r@ == (DocumentView {
            text: None,
            version: match version {
                Some(version) => version,
                None => 0,
            },
            rejection: Some(
                match reason {
                    Some(reason) => reason@,
                    None => REJECTED_BY_LIMITS@,
                },
            ),
            identity_generation: source_generation,
        }),
{
    OpenDocument {
        text: None,
        version: match version {
            Some(version) => version,
            None => 0,
        },
        rejection: Some(
            match reason {
                Some(reason) => reason,
                None => REJECTED_BY_LIMITS.to_owned(),
            },
        ),
        identity_generation: source_generation,
    }
}

/// What a worker is handed to answer one question.
pub struct AnalysisInput {
    pub options: WorkspaceOptions,
    pub roots: Vec<FilePath>,
    pub documents: OpenDocuments,
    pub deleted: DeletedFiles,
    pub owners: StrMap<KnownDocumentOwner>,
    pub selections: Selections,
    pub source_generation: u64,
    pub configuration_generation: u64,
}

impl Workspace {
    /// The workspace of a worker: what the client said, and nothing derived. What it computes
    /// is recorded.
    pub fn from_analysis_input(cwd: &FilePath, input: AnalysisInput) -> (r: Self)
        requires
            input.documents.wf(),
            input.deleted.wf(),
        ensures
            r.wf(),
            r.options == input.options,
            r.selections == input.selections,
            r.nothing_kept(),
            roots_describe(r.roots@, cwd@, views(input.roots@), input.options@),
            ({
                let fresh = fresh_workspace(
                    input.options.limits,
                    input.options.project_file is Some,
                    seq![],
                );
                r@ == (WorkspaceView {
                    documents: input.documents@,
                    deleted: input.deleted@,
                    sources: SourcesView {
                        store: crate::contexts::StoreView {
                            owners: input.owners.deep(),
                            ..fresh.sources.store
                        },
                        ..fresh.sources
                    },
                    records: Some(Map::empty()),
                    generations: GenerationsView {
                        source: input.source_generation,
                        configuration: input.configuration_generation,
                        ..fresh.generations
                    },
                    ..fresh
                })
            }),
    {
        let none: Vec<String> = Vec::new();
        proof {
            assert(texts(none@) =~= seq![]);
        }
        let mut r = Workspace::with_override_session(cwd, &input.roots, input.options, &none);
        let ghost fresh = r@;
        r.documents = input.documents;
        r.deleted = input.deleted;
        r.sources.contexts.owners = input.owners;
        r.selections = input.selections;
        r.records = AnalysisRecords::new(true);
        r.generations.source = input.source_generation;
        r.generations.configuration = input.configuration_generation;
        proof {
            assert(r@.sources.store =~= (crate::contexts::StoreView {
                owners: input.owners.deep(),
                ..fresh.sources.store
            }));
            assert(r@.sources =~= (SourcesView { store: r@.sources.store, ..fresh.sources }));
            assert(r@.generations =~= (GenerationsView {
                source: input.source_generation,
                configuration: input.configuration_generation,
                ..fresh.generations
            }));
            assert(r@ =~= (WorkspaceView {
                documents: input.documents@,
                deleted: input.deleted@,
                sources: r@.sources,
                records: Some(Map::empty()),
                generations: r@.generations,
                ..fresh
            }));
        }
        r
    }
}

} // verus!
