//! Which project a source belongs to: selections, keys, and the steps by which its context
//! is found.

use vstd::prelude::*;

use crate::conditional::{no_facts, ConditionalContext};
use crate::contexts::{
    known_origin, owner_clock, with_owner, ContextStore, KnownDocumentOwner, OwnerOrigin,
    OwnerView, StoreView,
};
use crate::discovery::{folder_of, root_for_path};
use crate::excludes::WorkspaceRoot;
use crate::keymap::{Identity, KeyMap};
use crate::lint::referenced_context;
use crate::names::is_analyzable_source_path;
use crate::access::analyzable;
use crate::budget::Work;
use crate::cancel::Interrupt;
use crate::paths::{equal_ci, parent_of, path_text, paths_equal_ci, FilePath, Parts};
use crate::project::{
    ContextKey, EffectiveOverrides, KeyView, OverridesView, PathEntry, ProjectContext,
};
use crate::settings::{copy_optional_path, copy_optional_text};
use crate::sources::{invalidated, invalidation_visits, partly_invalidated, SourcesView};
use crate::strings::{concat, concat3, texts};
use crate::uris::{file_path_of, optional_parts, optional_text, uri_path};
use crate::workspace::{Workspace, WorkspaceView};


verus! {

/// The projects that a client selected, by the directory for which it did.
pub type Selections = KeyMap<FilePath, FilePath>;

/// What is selected for a source: the directory, and the project there.
#[derive(Debug)]
pub struct Selected {
    pub scope: FilePath,
    pub project: FilePath,
}

/// What is found of the projects around a source: the selection that applies to it, and
/// the nearest directory with candidates.
#[derive(Debug)]
pub struct Surroundings {
    pub selected: Option<Selected>,
    pub directory: Option<FilePath>,
}

impl Surroundings {
    pub open spec fn scope(&self) -> Option<Parts> {
        match self.selected {
            Some(selected) => Some(selected.scope@),
            None => None,
        }
    }

    pub open spec fn project(&self) -> Option<Parts> {
        match self.selected {
            Some(selected) => Some(selected.project@),
            None => None,
        }
    }
}

/// The directory of the project's file.
pub open spec fn own_directory(context: Option<ProjectContext>) -> Option<Parts> {
    match context {
        Some(context) => match context.project_file {
            Some(file) => parent_of(file@),
            None => None,
        },
        None => None,
    }
}

/// The directory that a project holds for: that of its file, else the one of the
/// selection, else the nearest one with candidates.
pub open spec fn scope_of(context: Option<ProjectContext>, around: Surroundings) -> Option<Parts> {
    match own_directory(context) {
        Some(directory) => Some(directory),
        None => match around.scope() {
            Some(scope) => Some(scope),
            None => optional_parts(around.directory),
        },
    }
}

fn own_directory_of(context: Option<&ProjectContext>) -> (r: Option<FilePath>)
    ensures
        optional_parts(r) == own_directory(referenced_context(context)),
{
    match context {
        Some(context) => match &context.project_file {
            Some(file) => file.parent(),
            None => None,
        },
        None => None,
    }
}

/// The directory that a project holds for.
pub fn project_scope(context: Option<&ProjectContext>, around: &Surroundings) -> (r: Option<FilePath>)
    ensures
        optional_parts(r) == scope_of(referenced_context(context), *around),
{
    if let Some(directory) = own_directory_of(context) {
        return Some(directory);
    }
    match &around.selected {
        Some(selected) => Some(selected.scope.copy()),
        None => copy_optional_path(&around.directory),
    }
}

/// The key of a source's project.
pub open spec fn key_of(
    roots: Seq<WorkspaceRoot>,
    path: Parts,
    context: Option<ProjectContext>,
    around: Surroundings,
) -> KeyView {
    KeyView {
        project_file: match context {
            Some(context) => optional_parts(context.project_file),
            None => None,
        },
        workspace_root: folder_of(roots, path),
        project_scope: scope_of(context, around),
        selection_scope: around.scope(),
        selection_project: around.project(),
        config: match context {
            Some(context) => optional_text(context.config),
            None => None,
        },
        platform: match context {
            Some(context) => optional_text(context.platform),
            None => None,
        },
        conditional_context: match context {
            Some(context) => context.conditional_context@,
            None => no_facts(),
        },
        overrides: match context {
            Some(context) => context.overrides@,
            None => OverridesView { fingerprint: ""@, read_roots: Seq::empty() },
        },
    }
}

/// The key of a source's project.
pub fn context_key_for_path(
    roots: &Vec<WorkspaceRoot>,
    path: &FilePath,
    context: Option<&ProjectContext>,
    around: &Surroundings,
) -> (r: ContextKey)
    ensures
        r@ == key_of(roots@, path@, referenced_context(context), *around),
{
    let project_scope = project_scope(context, around);
    let (selection_scope, selection_project) = match &around.selected {
        Some(selected) => (Some(selected.scope.copy()), Some(selected.project.copy())),
        None => (None, None),
    };
    let workspace_root = root_for_path(roots, path);
    let key = match context {
        Some(context) => ContextKey {
            project_file: copy_optional_path(&context.project_file),
            workspace_root,
            project_scope,
            selection_scope,
            selection_project,
            config: copy_optional_text(&context.config),
            platform: copy_optional_text(&context.platform),
            conditional_context: context.conditional_context.copy(),
            overrides: context.overrides.copy(),
        },
        None => ContextKey {
            project_file: None,
            workspace_root,
            project_scope,
            selection_scope,
            selection_project,
            config: None,
            platform: None,
            conditional_context: ConditionalContext::new(),
            overrides: EffectiveOverrides::none(),
        },
    };
    proof {
        assert(key@ =~= key_of(roots@, path@, referenced_context(context), *around));
    }
    key
}

pub open spec fn first_of(a: Option<Parts>, b: Option<Parts>) -> Option<Parts> {
    match a {
        Some(path) => Some(path),
        None => b,
    }
}

fn either_path(a: &Option<FilePath>, b: Option<FilePath>) -> (r: Option<FilePath>)
    ensures
        optional_parts(r) == first_of(optional_parts(*a), optional_parts(b)),
{
    match a {
        Some(path) => Some(path.copy()),
        None => b,
    }
}

/// The key of a project that is found again for its owner: where it was, and as it was
/// selected.
pub open spec fn owner_key(owner: KeyView, found: KeyView) -> KeyView {
    KeyView {
        workspace_root: first_of(owner.workspace_root, found.workspace_root),
        project_scope: first_of(owner.project_scope, found.project_scope),
        selection_scope: owner.selection_scope,
        selection_project: owner.selection_project,
        ..found
    }
}

/// The key of a project that is found again for its owner.
pub fn key_for_known_owner(
    roots: &Vec<WorkspaceRoot>,
    path: &FilePath,
    owner: &KnownDocumentOwner,
    context: &ProjectContext,
    around: &Surroundings,
) -> (r: ContextKey)
    ensures
        r@ == owner_key(owner@.key, key_of(roots@, path@, Some(*context), *around)),
{
    let found = context_key_for_path(roots, path, Some(context), around);
    ContextKey {
        project_file: found.project_file,
        workspace_root: either_path(&owner.key.workspace_root, found.workspace_root),
        project_scope: either_path(&owner.key.project_scope, found.project_scope),
        selection_scope: copy_optional_path(&owner.key.selection_scope),
        selection_project: copy_optional_path(&owner.key.selection_project),
        config: found.config,
        platform: found.platform,
        conditional_context: found.conditional_context,
        overrides: found.overrides,
    }
}

/// The project selected for a directory is this one, but for case.
pub open spec fn selects(selections: Map<Parts, FilePath>, scope: Parts, project: Parts) -> bool {
    selections.contains_key(scope) && equal_ci(selections[scope]@, project)
}

fn is_selected(selections: &Selections, scope: &FilePath, project: &FilePath) -> (r: bool)
    ensures
        r == selects(selections@, scope@, project@),
{
    match selections.get(scope) {
        Some(selected) => paths_equal_ci(selected, project),
        None => false,
    }
}

/// An owner is still what was selected. An automatic owner never is: it has to be found
/// again. One that was selected for a directory is where no nearer directory has
/// candidates and the selection is the same; one that was not is where no selection applies
/// to the source, or the one of its directory is its project.
pub open spec fn selection_current(
    owner: OwnerView,
    selections: Map<Parts, FilePath>,
    around: Surroundings,
) -> bool {
    if owner.origin == OwnerOrigin::Automatic {
        false
    } else {
        match owner.key.selection_scope {
            None => if owner.key.project_scope is Some && owner.key.project_file is Some
                && selections.contains_key(owner.key.project_scope->0) {
                selects(selections, owner.key.project_scope->0, owner.key.project_file->0)
            } else {
                around.selected is None
            },
            Some(scope) => owner.key.selection_project is Some && (around.directory is None
                || equal_ci(around.directory->0@, scope)) && selects(
                selections,
                scope,
                owner.key.selection_project->0,
            ),
        }
    }
}

/// Whether an owner is still what was selected.
pub fn known_owner_selection_is_current(
    owner: &KnownDocumentOwner,
    selections: &Selections,
    around: &Surroundings,
) -> (r: bool)
    ensures
        r == selection_current(owner@, selections@, *around),
{
    if owner.origin == OwnerOrigin::Automatic {
        return false;
    }
    match &owner.key.selection_scope {
        None => {
            if let Some(scope) = &owner.key.project_scope {
                if let Some(file) = &owner.key.project_file {
                    if selections.contains_key(scope) {
                        return is_selected(selections, scope, file);
                    }
                }
            }
            around.selected.is_none()
        },
        Some(scope) => match &owner.key.selection_project {
            None => false,
            Some(selected) => {
                if let Some(directory) = &around.directory {
                    if !paths_equal_ci(directory, scope) {
                        return false;
                    }
                }
                is_selected(selections, scope, selected)
            },
        },
    }
}

/// A context is the one of a selection.
pub open spec fn of_selection(store: StoreView, key: KeyView, scope: Parts, project: Parts) -> bool {
    &&& key.selection_scope is Some && equal_ci(key.selection_scope->0, scope)
    &&& key.selection_project is Some && equal_ci(key.selection_project->0, project)
    &&& store.contexts.contains_key(key)
    &&& store.contexts[key].context.project_file is Some ==> equal_ci(
        store.contexts[key].context.project_file->0@,
        project,
    )
}

/// A context is the one that the current selections lead to.
pub open spec fn matches_selections(
    store: StoreView,
    key: KeyView,
    selections: Map<Parts, FilePath>,
    around: Surroundings,
) -> bool {
    match around.selected {
        Some(selected) => of_selection(store, key, selected.scope@, selected.project@),
        None => match key.selection_scope {
            None => true,
            Some(scope) => if selections.contains_key(scope) {
                key.selection_project is Some && equal_ci(
                    key.selection_project->0,
                    selections[scope]@,
                )
            } else {
                key.selection_project is None
            },
        },
    }
}

impl ContextStore {
    /// Whether a context is the one of a selection.
    pub fn context_matches_selection(
        &self,
        key: &ContextKey,
        scope: &FilePath,
        selected: &FilePath,
    ) -> (r: bool)
        ensures
            r == of_selection(self@, key@, scope@, selected@),
    {
        let scope_matches = match &key.selection_scope {
            Some(key_scope) => paths_equal_ci(key_scope, scope),
            None => false,
        };
        let project_matches = match &key.selection_project {
            Some(key_project) => paths_equal_ci(key_project, selected),
            None => false,
        };
        if !scope_matches || !project_matches {
            return false;
        }
        match self.contexts.get(key) {
            Some(state) => match &state.context.project_file {
                Some(file) => paths_equal_ci(file, selected),
                None => true,
            },
            None => false,
        }
    }

    /// Whether a context is the one that the current selections lead to.
    pub fn context_matches_current_selection(
        &self,
        key: &ContextKey,
        selections: &Selections,
        around: &Surroundings,
    ) -> (r: bool)
        ensures
            r == matches_selections(self@, key@, selections@, *around),
    {
        match &around.selected {
            Some(selected) => self.context_matches_selection(
                key,
                &selected.scope,
                &selected.project,
            ),
            None => match &key.selection_scope {
                None => true,
                Some(scope) => match selections.get(scope) {
                    Some(selected) => match &key.selection_project {
                        Some(project) => paths_equal_ci(project, selected),
                        None => false,
                    },
                    None => key.selection_project.is_none(),
                },
            },
        }
    }
}

/// The directory whose configuration holds for a source: that of its project's file, else
/// the scope of its key, else that of the selection, else the nearest one with candidates.
pub open spec fn configuration_directory(
    context: ProjectContext,
    key: Option<KeyView>,
    around: Surroundings,
) -> Option<Parts> {
    match own_directory(Some(context)) {
        Some(directory) => Some(directory),
        None => if key is Some && key->0.project_scope is Some {
            key->0.project_scope
        } else {
            first_of(around.scope(), optional_parts(around.directory))
        },
    }
}

pub open spec fn referenced_key(key: Option<&ContextKey>) -> Option<KeyView> {
    match key {
        Some(key) => Some(key@),
        None => None,
    }
}

/// The directory whose configuration holds for a source.
pub fn configuration_project_directory(
    context: &ProjectContext,
    key: Option<&ContextKey>,
    around: &Surroundings,
) -> (r: Option<FilePath>)
    ensures
        optional_parts(r) == configuration_directory(*context, referenced_key(key), *around),
{
    if let Some(directory) = own_directory_of(Some(context)) {
        return Some(directory);
    }
    if let Some(key) = key {
        if let Some(scope) = &key.project_scope {
            return Some(scope.copy());
        }
    }
    match &around.selected {
        Some(selected) => Some(selected.scope.copy()),
        None => copy_optional_path(&around.directory),
    }
}

/// A source that was found beside others, and the directory in which those are.
#[derive(Debug)]
pub struct LegacyRoute {
    pub source_path: FilePath,
    pub sibling_directory: FilePath,
}

/// The route by which a source's imports may be looked for beside it: there is one where
/// nothing but the file system led to the source. `entry` is the entry that the project
/// has for it, and `current` says that it is known to have been found beside another.
pub fn legacy_route_for_resolver(path: &FilePath, entry: Option<&PathEntry>, current: bool) -> (r:
    Option<LegacyRoute>)
    ensures
        ({
            let legacy = current || entry is Some && entry->0@.provenance is LegacyNative;
            match r {
                Some(route) => legacy && route.source_path@ == path@ && route.sibling_directory@
                    == (match parent_of(path@) {
                    Some(parent) => parent,
                    None => path@,
                }),
                None => !legacy,
            }
        }),
{
    let legacy = current || match entry {
        Some(entry) => entry.provenance.is_legacy(),
        None => false,
    };
    if !legacy {
        return None;
    }
    let sibling_directory = match path.parent() {
        Some(parent) => parent,
        None => path.copy(),
    };
    Some(LegacyRoute { source_path: path.copy(), sibling_directory })
}

/// Why no context is looked for.
#[derive(Debug)]
pub enum SearchRefusal {
    NotAFile,
    Unsupported(FilePath),
}

impl SearchRefusal {
    pub open spec fn text(&self, uri: Seq<char>) -> Seq<char> {
        match self {
            SearchRefusal::NotAFile => "project context requires a file URI: "@ + uri,
            SearchRefusal::Unsupported(path) => "unsupported Pascal document path: "@ + path_text(
                path@,
            ),
        }
    }

    pub fn message(&self, uri: &str) -> (r: String)
        ensures
            r@ == self.text(uri@),
    {
        match self {
            SearchRefusal::NotAFile => concat("project context requires a file URI: ", uri),
            SearchRefusal::Unsupported(path) => concat(
                "unsupported Pascal document path: ",
                path.text().as_str(),
            ),
        }
    }
}

/// Whether a context is looked for at all.
pub fn searchable(uri: &str) -> (r: Result<FilePath, SearchRefusal>)
    ensures
        match r {
            Ok(path) => uri_path(uri@) == Some(path@) && analyzable(path@),
            Err(SearchRefusal::NotAFile) => uri_path(uri@) is None,
            Err(SearchRefusal::Unsupported(path)) => uri_path(uri@) == Some(path@) && !analyzable(
                path@,
            ),
        },
{
    match file_path_of(uri) {
        None => Err(SearchRefusal::NotAFile),
        Some(path) => if is_analyzable_source_path(&path) {
            Ok(path)
        } else {
            Err(SearchRefusal::Unsupported(path))
        },
    }
}

/// Where the search for a document's context begins.
#[derive(Debug)]
pub enum SearchStart {
    /// With a context that it is read in, which is used where it still holds. `open` says
    /// that it is read in it because it is open.
    Check { key: ContextKey, open: bool },
    /// With its owner. `rediscover` says that it was open in a context that is gone.
    Owner { rediscover: bool },
}

/// Where the search for a document's context begins.
pub enum StartView {
    Check { key: KeyView, open: bool },
    Owner { rediscover: bool },
}

impl View for SearchStart {
    type V = StartView;

    open spec fn view(&self) -> StartView {
        match self {
            SearchStart::Check { key, open } => StartView::Check { key: key@, open: *open },
            SearchStart::Owner { rediscover } => StartView::Owner { rediscover: *rediscover },
        }
    }
}

/// Where the search begins: with the context that the document is open in, else with the
/// one that it is read in, else with its owner.
pub open spec fn search_start(store: StoreView, uri: Seq<char>) -> StartView {
    if store.open_document_contexts.contains_key(uri) {
        let key = store.open_document_contexts[uri];
        if store.contexts.contains_key(key) {
            StartView::Check { key, open: true }
        } else {
            StartView::Owner { rediscover: true }
        }
    } else if store.document_contexts.contains_key(uri) && store.contexts.contains_key(
        store.document_contexts[uri],
    ) {
        StartView::Check { key: store.document_contexts[uri], open: false }
    } else {
        StartView::Owner { rediscover: false }
    }
}

/// What is done with the owner of a document.
#[derive(Clone, Copy, Debug, PartialEq, Eq, Structural)]
pub enum OwnerStep {
    /// Its project is used again, or found again.
    Restore,
    /// Its project is used as it is kept.
    Reuse,
    /// The project is discovered anew.
    Discover,
}

/// What is done with the owner of a document: an owner that was chosen is restored while
/// the choice holds; an automatic one is used while a source that was opened has lost its
/// file and nothing else changed.
pub open spec fn owner_step(
    owner: Option<OwnerView>,
    rediscover: bool,
    current: bool,
    overlaid: bool,
    fresh: bool,
) -> OwnerStep {
    match owner {
        None => OwnerStep::Discover,
        Some(owner) => if owner.origin != OwnerOrigin::Automatic
            && !owner.follow_current_project_file && (rediscover || current) {
            OwnerStep::Restore
        } else if owner.origin == OwnerOrigin::Automatic && !rediscover && overlaid && fresh {
            OwnerStep::Reuse
        } else {
            OwnerStep::Discover
        },
    }
}

pub open spec fn owner_of(store: StoreView, uri: Seq<char>) -> Option<OwnerView> {
    if store.owners.contains_key(uri) {
        Some(store.owners[uri])
    } else {
        None
    }
}

/// What is done with an owner that is restored.
#[derive(Clone, Copy, Debug, PartialEq, Eq, Structural)]
pub enum RestoreStep {
    Reuse,
    Rediscover,
}

/// How the project of an owner is found again.
#[derive(Debug)]
pub enum Rediscovery {
    /// With this project, whatever is selected.
    Project(FilePath),
    /// As for any document.
    Current,
    /// Not at all: the selected project is not a candidate any more.
    Gone { key: ContextKey, metadata_file: FilePath, warnings: Vec<String> },
}

/// What is said of a selection that does not hold any more.
pub open spec fn gone_text(project: Parts, scope: Parts) -> Seq<char> {
    "selected project "@ + path_text(project) + " is not a current candidate in "@ + path_text(
        scope,
    )
}

/// The key of a project that is not a candidate any more.
pub open spec fn gone_key(owner: KeyView, scope: Parts) -> KeyView {
    KeyView {
        project_file: None,
        config: None,
        platform: None,
        project_scope: Some(scope),
        ..owner
    }
}

/// Whether the selected project of an owner is still a candidate.
#[derive(Debug)]
pub enum CandidateStatus {
    Current,
    Absent,
    /// It could not be told, for this reason.
    Unknown(String),
}

/// The warnings for a project that is not a candidate any more.
pub open spec fn gone_warnings(project: Parts, scope: Parts, status: CandidateStatus) -> Seq<
    Seq<char>,
> {
    match status {
        CandidateStatus::Unknown(error) => seq![gone_text(project, scope), error@],
        _ => seq![gone_text(project, scope)],
    }
}

/// How the project of an owner is found again.
pub open spec fn rediscovered(
    owner: KeyView,
    status: CandidateStatus,
    r: Rediscovery,
) -> bool {
    if owner.selection_scope is Some && owner.selection_project is Some {
        let scope = owner.selection_scope->0;
        let project = owner.selection_project->0;
        match r {
            Rediscovery::Project(path) => status is Current && path@ == project,
            Rediscovery::Gone { key, metadata_file, warnings } => !(status is Current) && key@
                == gone_key(owner, scope) && metadata_file@ == project && texts(warnings@)
                == gone_warnings(project, scope, status),
            Rediscovery::Current => false,
        }
    } else {
        match r {
            Rediscovery::Project(path) => owner.project_file == Some(path@),
            Rediscovery::Current => owner.project_file is None,
            Rediscovery::Gone { .. } => false,
        }
    }
}

/// How the project of an owner is found again. `status` says whether its selected project
/// is still a candidate.
pub fn rediscover_known_owner(owner: &KnownDocumentOwner, status: &CandidateStatus) -> (r:
    Rediscovery)
    ensures
        rediscovered(owner@.key, *status, r),
{
    if let Some(scope) = &owner.key.selection_scope {
        if let Some(selected) = &owner.key.selection_project {
            if let CandidateStatus::Current = status {
                return Rediscovery::Project(selected.copy());
            }
            let head = concat3(
                "selected project ",
                selected.text().as_str(),
                " is not a current candidate in ",
            );
            let mut warnings: Vec<String> = Vec::new();
            let gone = concat(head.as_str(), scope.text().as_str());
            warnings.push(gone);
            proof {
                assert(texts(warnings@) =~= seq![gone_text(selected@, scope@)]);
            }
            if let CandidateStatus::Unknown(error) = status {
                warnings.push(error.clone());
                proof {
                    assert(texts(warnings@) =~= seq![gone_text(selected@, scope@), error@]);
                }
            }
            let mut key = owner.key.duplicate();
            key.project_file = None;
            key.config = None;
            key.platform = None;
            key.project_scope = Some(scope.copy());
            proof {
                assert(key@ =~= gone_key(owner@.key, scope@));
            }
            return Rediscovery::Gone { key, metadata_file: selected.copy(), warnings };
        }
    }
    match &owner.key.project_file {
        Some(file) => Rediscovery::Project(file.copy()),
        None => Rediscovery::Current,
    }
}

impl ContextStore {
    /// Where the search for a document's context begins.
    pub fn begin_search(&self, uri: &str) -> (r: SearchStart)
        ensures
            r@ == search_start(self@, uri@),
    {
        if let Some(key) = self.open_document_contexts.get(uri) {
            return if self.contexts.contains_key(key) {
                SearchStart::Check { key: key.duplicate(), open: true }
            } else {
                SearchStart::Owner { rediscover: true }
            };
        }
        if let Some(key) = self.document_contexts.get(uri) {
            if self.contexts.contains_key(key) {
                return SearchStart::Check { key: key.duplicate(), open: false };
            }
        }
        SearchStart::Owner { rediscover: false }
    }

    /// What is done with the owner of a document. `overlaid` says that a source of its
    /// project is open whose file is gone, `fresh` that nothing else changed.
    pub fn consider_owner(
        &self,
        uri: &str,
        rediscover: bool,
        selections: &Selections,
        around: &Surroundings,
        overlaid: bool,
        fresh: bool,
    ) -> (r: OwnerStep)
        ensures
            r == owner_step(
                owner_of(self@, uri@),
                rediscover,
                owner_of(self@, uri@) is Some && selection_current(
                    owner_of(self@, uri@)->0,
                    selections@,
                    *around,
                ),
                overlaid,
                fresh,
            ),
    {
        match self.owners.get(uri) {
            None => OwnerStep::Discover,
            Some(owner) => {
                if owner.origin != OwnerOrigin::Automatic && !owner.follow_current_project_file && (
                rediscover || known_owner_selection_is_current(owner, selections, around)) {
                    OwnerStep::Restore
                } else if owner.origin == OwnerOrigin::Automatic && !rediscover && overlaid
                    && fresh {
                    OwnerStep::Reuse
                } else {
                    OwnerStep::Discover
                }
            },
        }
    }

    /// What is done with an owner that is restored: its project is used as it is kept
    /// where it still holds and nothing asks for another look.
    pub fn restore_step(&self, uri: &str, fresh: bool) -> (r: RestoreStep)
        ensures
            r == (match owner_of(self@, uri@) {
                Some(owner) => if !owner.needs_revalidation && fresh {
                    RestoreStep::Reuse
                } else {
                    RestoreStep::Rediscover
                },
                None => RestoreStep::Rediscover,
            }),
    {
        match self.owners.get(uri) {
            Some(owner) => if !owner.needs_revalidation && fresh {
                RestoreStep::Reuse
            } else {
                RestoreStep::Rediscover
            },
            None => RestoreStep::Rediscover,
        }
    }

    /// Where the context of a document is found without changing anything: with the owner's
    /// project as it is kept, with that project found again, or with one discovered anew.
    pub fn readonly_step(
        &self,
        uri: &str,
        selections: &Selections,
        around: &Surroundings,
        fresh: bool,
    ) -> (r: OwnerStep)
        ensures
            r == (match owner_of(self@, uri@) {
                Some(owner) => if owner.origin != OwnerOrigin::Automatic
                    && !owner.follow_current_project_file && selection_current(
                    owner,
                    selections@,
                    *around,
                ) {
                    if !owner.needs_revalidation && fresh {
                        OwnerStep::Reuse
                    } else {
                        OwnerStep::Restore
                    }
                } else {
                    OwnerStep::Discover
                },
                None => OwnerStep::Discover,
            }),
    {
        match self.owners.get(uri) {
            None => OwnerStep::Discover,
            Some(owner) => {
                if owner.origin != OwnerOrigin::Automatic && !owner.follow_current_project_file
                    && known_owner_selection_is_current(owner, selections, around) {
                    if !owner.needs_revalidation && fresh {
                        OwnerStep::Reuse
                    } else {
                        OwnerStep::Restore
                    }
                } else {
                    OwnerStep::Discover
                }
            },
        }
    }

    /// Forgets that the document was found beside another.
    pub fn forget_legacy_route(&mut self, uri: &str)
        ensures
            final(self)@ == (StoreView {
                owners: if old(self)@.owners.contains_key(uri@) {
                    old(self)@.owners.insert(
                        uri@,
                        OwnerView { legacy_route: None, ..old(self)@.owners[uri@] },
                    )
                } else {
                    old(self)@.owners
                },
                ..old(self)@
            }),
    {
        let ghost store = self@;
        let ghost held = self.owners@;
        match self.owners.remove(uri) {
            Some(mut owner) => {
                owner.legacy_route = None;
                proof {
                    crate::strmap::lemma_deep_remove(held, uri@);
                    crate::strmap::lemma_deep_insert(held.remove(uri@), uri@, owner);
                    assert(store.owners.remove(uri@).insert(uri@, owner@) =~= store.owners.insert(
                        uri@,
                        owner@,
                    ));
                }
                let _none = self.owners.insert(uri.to_owned(), owner);
            },
            None => {
                proof {
                    assert(held.remove(uri@) =~= held);
                }
            },
        }
        proof {
            assert(self@ =~= (StoreView { owners: self@.owners, ..store }));
        }
    }

    /// Puts the project that is kept of a document's owner among the contexts again.
    /// Returns its key.
    pub fn reuse_owner(&mut self, uri: &str) -> (r: Option<ContextKey>)
        ensures
            match owner_of(old(self)@, uri@) {
                Some(owner) => r is Some && r->0@ == owner.key && final(self)@ == (StoreView {
                    contexts: old(self)@.contexts.insert(owner.key, owner.state),
                    ..old(self)@
                }),
                None => r is None && final(self)@ == old(self)@,
            },
    {
        let ghost store = self@;
        let (key, state) = match self.owners.get(uri) {
            Some(owner) => (owner.key.duplicate(), owner.state.clone()),
            None => {
                return None;
            },
        };
        let _previous = self.contexts.insert(key.duplicate(), state);
        proof {
            assert(self@ =~= (StoreView { contexts: self@.contexts, ..store }));
        }
        Some(key)
    }

    /// Puts the project that is kept of a document's owner among the contexts, unless its
    /// context is there. Returns its key.
    pub fn hold_owner(&mut self, uri: &str) -> (r: Option<ContextKey>)
        ensures
            match owner_of(old(self)@, uri@) {
                Some(owner) => r is Some && r->0@ == owner.key && final(self)@ == (StoreView {
                    contexts: if old(self)@.contexts.contains_key(owner.key) {
                        old(self)@.contexts
                    } else {
                        old(self)@.contexts.insert(owner.key, owner.state)
                    },
                    ..old(self)@
                }),
                None => r is None && final(self)@ == old(self)@,
            },
    {
        match self.owners.get(uri) {
            Some(owner) => if self.contexts.contains_key(&owner.key) {
                Some(owner.key.duplicate())
            } else {
                self.reuse_owner(uri)
            },
            None => None,
        }
    }
}

/// Which context a document is read in when it is loaded for another.
#[derive(Clone, Copy, Debug, PartialEq, Eq, Structural)]
pub enum EffectiveChoice {
    /// That of its owner, as it is kept.
    Owner,
    /// That of its owner, found again.
    Rediscover,
    /// The one of the source that needs it.
    Given,
    /// The one that is found for it.
    Find,
}

/// Which context a document is read in when it is loaded for another: that of its owner
/// while the choice of it holds, else the given one unless a selection says otherwise.
pub open spec fn effective_choice(
    store: StoreView,
    uri: Seq<char>,
    given: KeyView,
    selections: Map<Parts, FilePath>,
    around: Surroundings,
    fresh: bool,
) -> EffectiveChoice {
    let owner = owner_of(store, uri);
    if uri_path(uri) is Some && owner is Some && selection_current(owner->0, selections, around) {
        if fresh {
            EffectiveChoice::Owner
        } else {
            EffectiveChoice::Rediscover
        }
    } else if uri_path(uri) is Some && around.selected is Some && !of_selection(
        store,
        given,
        around.selected->0.scope@,
        around.selected->0.project@,
    ) {
        EffectiveChoice::Find
    } else {
        EffectiveChoice::Given
    }
}

impl ContextStore {
    /// Which context a document is read in when it is loaded for another. `fresh` says
    /// that what is kept of its owner's project still holds.
    pub fn choose_effective_context(
        &self,
        uri: &str,
        given: &ContextKey,
        selections: &Selections,
        around: &Surroundings,
        fresh: bool,
    ) -> (r: EffectiveChoice)
        ensures
            r == effective_choice(self@, uri@, given@, selections@, *around, fresh),
    {
        if file_path_of(uri).is_none() {
            return EffectiveChoice::Given;
        }
        if let Some(owner) = self.owners.get(uri) {
            if known_owner_selection_is_current(owner, selections, around) {
                return if fresh {
                    EffectiveChoice::Owner
                } else {
                    EffectiveChoice::Rediscover
                };
            }
        }
        match &around.selected {
            Some(selected) => if self.context_matches_selection(
                given,
                &selected.scope,
                &selected.project,
            ) {
                EffectiveChoice::Given
            } else {
                EffectiveChoice::Find
            },
            None => EffectiveChoice::Given,
        }
    }
}

impl Workspace {
    /// Goes on from the context that a document is read in, once it is known whether that
    /// still `holds`: its owner is remembered, or the context is forgotten with what was
    /// read in it.
    pub fn settle_context(&mut self, uri: &str, key: &ContextKey, holds: bool, work: &mut Work) -> (r:
        Result<(), Interrupt>)
        requires
            old(self).wf(),
        ensures
            final(self).wf(),
            final(self).same_rest(old(self)),
            final(work).continues(old(work)),
            old(work).unbounded() || holds ==> r is Ok,
            final(self)@ == (WorkspaceView { sources: final(self)@.sources, ..old(self)@ }),
            holds ==> {
                let v = old(self)@.sources;
                &&& final(self)@.sources == (SourcesView {
                    store: with_owner(
                        v.store,
                        old(self)@.documents,
                        uri@,
                        key@,
                        known_origin(
                            v.store,
                            old(self)@.documents,
                            uri@,
                            key@,
                            old(self)@.project_configured,
                        ),
                        v.clock,
                    ),
                    clock: owner_clock(v.store, key@, v.clock),
                    ..v
                })
                &&& *final(work) == *old(work)
            },
            !holds ==> {
                let v = old(self)@.sources;
                let gone = Set::empty().insert(key@);
                let visits = invalidation_visits(v, gone, old(self)@.documents) as int;
                &&& r is Ok ==> final(self)@.sources == invalidated(v, gone, old(self)@.documents)
                &&& r is Ok ==> final(work).visited(old(work), visits)
                &&& r is Err ==> partly_invalidated(
                    v,
                    final(self)@.sources,
                    gone,
                    old(self)@.documents,
                )
                &&& r matches Err(Interrupt::BudgetExceeded) ==> final(work).used_up() && !old(
                    work,
                ).affords(visits, 0)
            },
    {
        let ghost before = self@;
        if holds {
            let configured = self.options.project_file.is_some();
            let mut clock: u64 = self.sources.clock;
            self.sources.contexts.remember_document_owner(
                &self.documents,
                uri,
                key,
                configured,
                &mut clock,
            );
            self.sources.clock = clock;
            proof {
                assert(self@.sources =~= (SourcesView {
                    store: self@.sources.store,
                    clock,
                    ..before.sources
                }));
                assert(self@ =~= (WorkspaceView { sources: self@.sources, ..before }));
            }
            return Ok(());
        }
        let mut keys: KeyMap<ContextKey, ()> = KeyMap::new();
        let _none = keys.insert(key.duplicate(), ());
        proof {
            assert(keys@.dom() =~= Set::empty().insert(key@));
        }
        let told = self.sources.invalidate_contexts(&keys, &self.documents, work);
        proof {
            assert(self@ =~= (WorkspaceView { sources: self@.sources, ..before }));
        }
        match told {
            Ok(_) => Ok(()),
            Err(interrupt) => Err(interrupt),
        }
    }
}

} // verus!
