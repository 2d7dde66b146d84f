//! What is known of the project that a source belongs to.

use std::sync::Arc;
use vstd::prelude::*;

use crate::conditional::{no_facts, ConditionalContext, ConditionalView};
use crate::keymap::{deep_values, Identity, KeyMap};
use crate::paths::{native_paths_equal, path_starts_with_native, starts_with, FilePath, Parts};
use crate::settings::{copy_optional_path, copy_optional_text};
use crate::sorting::views;
use crate::strings::same_str;
use crate::uris::{optional_parts, optional_text};

verus! {

/// What a file looked like when it was last read.
#[derive(Clone, Copy, Debug, PartialEq, Eq, Structural)]
pub struct DiskStamp {
    pub bytes: u64,
    pub modified: Option<u64>,
}

/// What a path looked like when it was last inspected.
#[derive(Clone, Copy, Debug, PartialEq, Eq, Structural)]
pub struct PathStamp {
    pub bytes: u64,
    pub modified: Option<u64>,
    pub is_dir: bool,
    pub is_symlink: bool,
}

/// Why a path may be read.
#[derive(Debug)]
pub enum Provenance {
    /// The project or the workspace names it.
    Configured,
    /// It lies under the root that a mapping leads to.
    Mapped(FilePath),
    /// Nothing but the file system leads to it.
    LegacyNative,
}

/// Why a path may be read.
pub enum ProvenanceView {
    Configured,
    Mapped(Parts),
    LegacyNative,
}

impl View for Provenance {
    type V = ProvenanceView;

    open spec fn view(&self) -> ProvenanceView {
        match self {
            Provenance::Configured => ProvenanceView::Configured,
            Provenance::Mapped(root) => ProvenanceView::Mapped(root@),
            Provenance::LegacyNative => ProvenanceView::LegacyNative,
        }
    }
}

impl Provenance {
    pub fn copy(&self) -> (r: Provenance)
        ensures
            r@ == self@,
    {
        match self {
            Provenance::Configured => Provenance::Configured,
            Provenance::Mapped(root) => Provenance::Mapped(root.copy()),
            Provenance::LegacyNative => Provenance::LegacyNative,
        }
    }

    pub fn is_legacy(&self) -> (r: bool)
        ensures
            r == (self@ is LegacyNative),
    {
        match self {
            Provenance::LegacyNative => true,
            _ => false,
        }
    }

    pub fn is_mapped(&self) -> (r: bool)
        ensures
            r == (self@ is Mapped),
    {
        match self {
            Provenance::Mapped(_) => true,
            _ => false,
        }
    }
}

/// A path that may be read, and why.
#[derive(Debug)]
pub struct PathEntry {
    pub path: FilePath,
    pub provenance: Provenance,
}

/// A path that may be read, and why.
pub struct EntryView {
    pub path: Parts,
    pub provenance: ProvenanceView,
}

impl View for PathEntry {
    type V = EntryView;

    open spec fn view(&self) -> EntryView {
        EntryView { path: self.path@, provenance: self.provenance@ }
    }
}

/// What an entry that may be missing stands for.
pub open spec fn optional_entry(entry: Option<PathEntry>) -> Option<EntryView> {
    match entry {
        Some(entry) => Some(entry@),
        None => None,
    }
}

impl PathEntry {
    pub fn copy(&self) -> (r: PathEntry)
        ensures
            r@ == self@,
    {
        PathEntry { path: self.path.copy(), provenance: self.provenance.copy() }
    }

    /// An entry for a path that nothing but the file system leads to.
    pub fn legacy(path: FilePath) -> (r: PathEntry)
        ensures
            r@ == (EntryView { path: path@, provenance: ProvenanceView::LegacyNative }),
    {
        PathEntry { path, provenance: Provenance::LegacyNative }
    }
}

/// The overrides that a project is read with: what tells them apart, and the roots that
/// they open.
#[derive(Debug)]
pub struct EffectiveOverrides {
    pub fingerprint: String,
    pub read_roots: Vec<FilePath>,
}

/// What overrides stand for.
#[verifier::ext_equal]
pub struct OverridesView {
    pub fingerprint: Seq<char>,
    pub read_roots: Seq<Parts>,
}

/// What a list of paths stands for.
pub open spec fn paths_of(paths: Seq<FilePath>) -> Seq<Parts> {
    paths.map_values(|p: FilePath| p@)
}

impl View for EffectiveOverrides {
    type V = OverridesView;

    open spec fn view(&self) -> OverridesView {
        OverridesView { fingerprint: self.fingerprint@, read_roots: paths_of(self.read_roots@) }
    }
}

/// A copy of a list of paths.
pub fn copy_paths(paths: &Vec<FilePath>) -> (r: Vec<FilePath>)
    ensures
        paths_of(r@) == paths_of(paths@),
{
    let mut copied: Vec<FilePath> = Vec::new();
    let mut i: usize = 0;
    while i < paths.len()
        invariant
            i <= paths@.len(),
            paths_of(copied@) == paths_of(paths@).take(i as int),
        decreases paths@.len() - i,
    {
        let ghost before = copied@;
        copied.push(paths[i].copy());
        proof {
            assert(paths_of(copied@) =~= paths_of(before).push(paths_of(paths@)[i as int]));
            assert(paths_of(paths@).take(i + 1) =~= paths_of(paths@).take(i as int).push(
                paths_of(paths@)[i as int],
            ));
        }
        i += 1;
    }
    proof {
        assert(paths_of(paths@).take(paths@.len() as int) =~= paths_of(paths@));
    }
    copied
}

/// Whether two lists hold the same paths in the same order.
pub fn same_paths(a: &Vec<FilePath>, b: &Vec<FilePath>) -> (r: bool)
    ensures
        r == (paths_of(a@) == paths_of(b@)),
{
    if a.len() != b.len() {
        proof {
            assert(paths_of(a@).len() != paths_of(b@).len());
        }
        return false;
    }
    let mut i: usize = 0;
    while i < a.len()
        invariant
            i <= a@.len(),
            a@.len() == b@.len(),
            forall|j: int| 0 <= j < i ==> #[trigger] a@[j]@ == b@[j]@,
        decreases a@.len() - i,
    {
        if !a[i].same(&b[i]) {
            proof {
                assert(paths_of(a@)[i as int] != paths_of(b@)[i as int]);
            }
            return false;
        }
        i += 1;
    }
    proof {
        assert(paths_of(a@) =~= paths_of(b@));
    }
    true
}

impl EffectiveOverrides {
    /// No overrides.
    pub fn none() -> (r: Self)
        ensures
            r@ == (OverridesView { fingerprint: ""@, read_roots: Seq::empty() }),
    {
        let r = EffectiveOverrides { fingerprint: "".to_owned(), read_roots: Vec::new() };
        proof {
            assert(paths_of(r.read_roots@) =~= Seq::<Parts>::empty());
        }
        r
    }

    pub fn copy(&self) -> (r: Self)
        ensures
            r@ == self@,
    {
        EffectiveOverrides {
            fingerprint: self.fingerprint.clone(),
            read_roots: copy_paths(&self.read_roots),
        }
    }

    pub fn same(&self, other: &Self) -> (r: bool)
        ensures
            r == (self@ == other@),
    {
        let same = same_str(self.fingerprint.as_str(), other.fingerprint.as_str()) && same_paths(
            &self.read_roots,
            &other.read_roots,
        );
        same
    }
}

/// What tells one project context from another.
#[derive(Debug)]
pub struct ContextKey {
    pub project_file: Option<FilePath>,
    pub workspace_root: Option<FilePath>,
    pub project_scope: Option<FilePath>,
    pub selection_scope: Option<FilePath>,
    pub selection_project: Option<FilePath>,
    pub config: Option<String>,
    pub platform: Option<String>,
    pub conditional_context: ConditionalContext,
    pub overrides: EffectiveOverrides,
}

/// What tells one project context from another.
#[verifier::ext_equal]
pub struct KeyView {
    pub project_file: Option<Parts>,
    pub workspace_root: Option<Parts>,
    pub project_scope: Option<Parts>,
    pub selection_scope: Option<Parts>,
    pub selection_project: Option<Parts>,
    pub config: Option<Seq<char>>,
    pub platform: Option<Seq<char>>,
    pub conditional_context: ConditionalView,
    pub overrides: OverridesView,
}

impl View for ContextKey {
    type V = KeyView;

    open spec fn view(&self) -> KeyView {
        KeyView {
            project_file: optional_parts(self.project_file),
            workspace_root: optional_parts(self.workspace_root),
            project_scope: optional_parts(self.project_scope),
            selection_scope: optional_parts(self.selection_scope),
            selection_project: optional_parts(self.selection_project),
            config: optional_text(self.config),
            platform: optional_text(self.platform),
            conditional_context: self.conditional_context@,
            overrides: self.overrides@,
        }
    }
}

fn same_optional_path(a: &Option<FilePath>, b: &Option<FilePath>) -> (r: bool)
    ensures
        r == (optional_parts(*a) == optional_parts(*b)),
{
    match (a, b) {
        (Some(a), Some(b)) => a.same(b),
        (None, None) => true,
        _ => false,
    }
}

fn same_optional_text(a: &Option<String>, b: &Option<String>) -> (r: bool)
    ensures
        r == (optional_text(*a) == optional_text(*b)),
{
    match (a, b) {
        (Some(a), Some(b)) => same_str(a.as_str(), b.as_str()),
        (None, None) => true,
        _ => false,
    }
}

impl Identity for ContextKey {
    fn same_as(&self, other: &Self) -> (r: bool) {
        same_optional_path(&self.project_file, &other.project_file) && same_optional_path(
            &self.workspace_root,
            &other.workspace_root,
        ) && same_optional_path(&self.project_scope, &other.project_scope) && same_optional_path(
            &self.selection_scope,
            &other.selection_scope,
        ) && same_optional_path(&self.selection_project, &other.selection_project)
            && same_optional_text(&self.config, &other.config) && same_optional_text(
            &self.platform,
            &other.platform,
        ) && self.conditional_context.same(&other.conditional_context) && self.overrides.same(
            &other.overrides,
        )
    }

    fn duplicate(&self) -> (r: Self) {
        ContextKey {
            project_file: copy_optional_path(&self.project_file),
            workspace_root: copy_optional_path(&self.workspace_root),
            project_scope: copy_optional_path(&self.project_scope),
            selection_scope: copy_optional_path(&self.selection_scope),
            selection_project: copy_optional_path(&self.selection_project),
            config: copy_optional_text(&self.config),
            platform: copy_optional_text(&self.platform),
            conditional_context: self.conditional_context.copy(),
            overrides: self.overrides.copy(),
        }
    }
}

/// What was read of a project's metadata: that a file is there, or what is in it.
#[derive(Debug)]
pub struct MetadataObservation {
    pub path: FilePath,
    /// The stamp and the hash of the contents, where they were read.
    pub payload: Option<(Option<PathStamp>, u64)>,
}

/// What was read of a project's metadata.
pub struct MetadataView {
    pub path: Parts,
    pub payload: Option<(Option<PathStamp>, u64)>,
}

impl View for MetadataObservation {
    type V = MetadataView;

    open spec fn view(&self) -> MetadataView {
        MetadataView { path: self.path@, payload: self.payload }
    }
}

impl MetadataObservation {
    pub fn copy(&self) -> (r: Self)
        ensures
            r@ == self@,
    {
        MetadataObservation { path: self.path.copy(), payload: self.payload }
    }
}

/// A file that was read while a project was discovered.
#[derive(Debug)]
pub struct ReadObservation {
    pub path: FilePath,
    pub stamp: PathStamp,
}

/// A file that was read while a project was discovered.
pub struct ReadView {
    pub path: Parts,
    pub stamp: PathStamp,
}

impl View for ReadObservation {
    type V = ReadView;

    open spec fn view(&self) -> ReadView {
        ReadView { path: self.path@, stamp: self.stamp }
    }
}

impl ReadObservation {
    pub fn copy(&self) -> (r: Self)
        ensures
            r@ == self@,
    {
        ReadObservation { path: self.path.copy(), stamp: self.stamp }
    }
}

/// The project files in a directory, as a text that tells two states apart, or why they
/// could not be listed.
#[derive(Debug)]
pub struct Membership {
    pub listed: bool,
    pub text: String,
}

/// The project files in a directory.
pub struct MembershipView {
    pub listed: bool,
    pub text: Seq<char>,
}

impl View for Membership {
    type V = MembershipView;

    open spec fn view(&self) -> MembershipView {
        MembershipView { listed: self.listed, text: self.text@ }
    }
}

impl Membership {
    pub fn copy(&self) -> (r: Self)
        ensures
            r@ == self@,
    {
        Membership { listed: self.listed, text: self.text.clone() }
    }
}

/// What was discovered of a project.
#[derive(Debug)]
pub struct ProjectContext {
    pub project_file: Option<FilePath>,
    pub main_source: Option<FilePath>,
    pub main_source_entry: Option<PathEntry>,
    /// The units that the project names, with their files.
    pub explicit_units: Vec<(String, FilePath)>,
    pub explicit_unit_entries: Vec<(String, PathEntry)>,
    pub search_paths: Vec<FilePath>,
    pub search_path_entries: Vec<PathEntry>,
    pub include_path_entries: Vec<PathEntry>,
    pub packages: Vec<String>,
    pub unit_namespaces: Vec<String>,
    pub unit_aliases: Vec<(String, String)>,
    pub warnings: Vec<String>,
    pub override_error: Option<String>,
    /// A selected project is not one of the current candidates.
    pub selection_invalid: bool,
    pub discovery_complete: bool,
    pub config: Option<String>,
    pub platform: Option<String>,
    /// The facts that its sources are read with.
    pub conditional_context: ConditionalContext,
    pub overrides: EffectiveOverrides,
}

impl ProjectContext {
    /// A context in which nothing was found.
    pub fn none() -> (r: Self)
        ensures
            r.project_file is None,
            r.main_source is None,
            r.main_source_entry is None,
            r.explicit_units@.len() == 0,
            r.explicit_unit_entries@.len() == 0,
            r.search_paths@.len() == 0,
            r.search_path_entries@.len() == 0,
            r.include_path_entries@.len() == 0,
            r.packages@.len() == 0,
            r.unit_namespaces@.len() == 0,
            r.unit_aliases@.len() == 0,
            r.warnings@.len() == 0,
            r.config is None,
            r.platform is None,
            r.conditional_context@ == no_facts(),
            r.overrides@ == (OverridesView { fingerprint: ""@, read_roots: Seq::empty() }),
            r.override_error is None,
            !r.selection_invalid,
            r.discovery_complete,
    {
        ProjectContext {
            project_file: None,
            main_source: None,
            main_source_entry: None,
            explicit_units: Vec::new(),
            explicit_unit_entries: Vec::new(),
            search_paths: Vec::new(),
            search_path_entries: Vec::new(),
            include_path_entries: Vec::new(),
            packages: Vec::new(),
            unit_namespaces: Vec::new(),
            unit_aliases: Vec::new(),
            warnings: Vec::new(),
            override_error: None,
            selection_invalid: false,
            discovery_complete: true,
            config: None,
            platform: None,
            conditional_context: ConditionalContext::new(),
            overrides: EffectiveOverrides::none(),
        }
    }
}

/// The first explicit unit entry from `i` on that is the path.
pub open spec fn explicit_entry_from(
    entries: Seq<(String, PathEntry)>,
    path: Parts,
    i: int,
) -> Option<EntryView>
    decreases entries.len() - i,
{
    if i < 0 || i >= entries.len() {
        None
    } else if entries[i].1.path@ == path {
        Some(entries[i].1@)
    } else {
        explicit_entry_from(entries, path, i + 1)
    }
}

/// The entry that the project itself has for a path: its main source or one of its units.
pub open spec fn own_entry(context: ProjectContext, path: Parts) -> Option<EntryView> {
    if context.main_source_entry is Some && context.main_source_entry->0.path@ == path {
        Some(context.main_source_entry->0@)
    } else {
        explicit_entry_from(context.explicit_unit_entries@, path, 0)
    }
}

/// What a reference to an entry that may be missing stands for.
pub open spec fn referenced_entry(entry: Option<&PathEntry>) -> Option<EntryView> {
    match entry {
        Some(entry) => Some(entry@),
        None => None,
    }
}

/// The entry that the project itself has for a path.
pub fn project_path_entry_for<'a>(context: &'a ProjectContext, path: &FilePath) -> (r: Option<
    &'a PathEntry,
>)
    ensures
        referenced_entry(r) == own_entry(*context, path@),
{
    if let Some(entry) = &context.main_source_entry {
        if native_paths_equal(&entry.path, path) {
            return Some(entry);
        }
    }
    let mut i: usize = 0;
    while i < context.explicit_unit_entries.len()
        invariant
            i <= context.explicit_unit_entries@.len(),
            !(context.main_source_entry is Some && context.main_source_entry->0.path@ == path@),
            explicit_entry_from(context.explicit_unit_entries@, path@, 0) == explicit_entry_from(
                context.explicit_unit_entries@,
                path@,
                i as int,
            ),
        decreases context.explicit_unit_entries@.len() - i,
    {
        if native_paths_equal(&context.explicit_unit_entries[i].1.path, path) {
            return Some(&context.explicit_unit_entries[i].1);
        }
        i += 1;
    }
    None
}

/// Of the first `n` entries, the one with the longest path that the path lies under, the
/// last of several.
pub open spec fn nearest_entry(entries: Seq<PathEntry>, path: Parts, n: int) -> Option<EntryView>
    decreases n,
{
    if n <= 0 {
        None
    } else {
        let before = nearest_entry(entries, path, n - 1);
        let here = entries[n - 1]@;
        if starts_with(path, here.path) && (before is None || here.path.len()
            >= before->0.path.len()) {
            Some(here)
        } else {
            before
        }
    }
}

fn nearest_path_entry<'a>(entries: &'a Vec<PathEntry>, path: &FilePath) -> (r: Option<&'a PathEntry>)
    ensures
        referenced_entry(r) == nearest_entry(entries@, path@, entries@.len() as int),
{
    let mut nearest: Option<&PathEntry> = None;
    let mut i: usize = 0;
    while i < entries.len()
        invariant
            i <= entries@.len(),
            referenced_entry(nearest) == nearest_entry(entries@, path@, i as int),
        decreases entries@.len() - i,
    {
        let entry = &entries[i];
        if path_starts_with_native(path, &entry.path) {
            proof {
                assert(entry.path@.len() == entry.path.parts@.len());
            }
            match nearest {
                Some(best) => {
                    proof {
                        assert(best.path@.len() == best.path.parts@.len());
                    }
                    if entry.path.parts.len() >= best.path.parts.len() {
                        nearest = Some(entry);
                    }
                },
                None => {
                    nearest = Some(entry);
                },
            }
        }
        i += 1;
    }
    nearest
}

/// The entry under which a path may be read: the project's own, or the nearest search
/// path's, or the one that the read policy has.
pub open spec fn path_entry(
    context: ProjectContext,
    path: Parts,
    policy: Option<EntryView>,
) -> Option<EntryView> {
    match own_entry(context, path) {
        Some(entry) => Some(EntryView { path, provenance: entry.provenance }),
        None => match nearest_entry(
            context.search_path_entries@,
            path,
            context.search_path_entries@.len() as int,
        ) {
            Some(entry) => Some(EntryView { path, provenance: entry.provenance }),
            None => policy,
        },
    }
}

/// The entry under which a path may be read, where `policy` is the one that the read
/// policy has for it.
pub fn context_path_entry(
    context: &ProjectContext,
    path: &FilePath,
    policy: Option<PathEntry>,
) -> (r: Option<PathEntry>)
    ensures
        optional_entry(r) == path_entry(*context, path@, optional_entry(policy)),
{
    if let Some(entry) = project_path_entry_for(context, path) {
        return Some(PathEntry { path: path.copy(), provenance: entry.provenance.copy() });
    }
    if let Some(entry) = nearest_path_entry(&context.search_path_entries, path) {
        return Some(PathEntry { path: path.copy(), provenance: entry.provenance.copy() });
    }
    policy
}

/// What is kept of a discovered project, to tell whether it still holds.
#[derive(Debug)]
pub struct ContextState {
    pub context: Arc<ProjectContext>,
    pub metadata_files: Vec<FilePath>,
    pub metadata_observations: Vec<MetadataObservation>,
    pub watched_paths: KeyMap<FilePath, Option<PathStamp>>,
    pub memberships: KeyMap<FilePath, Membership>,
    pub read_observations: Vec<ReadObservation>,
}

/// What is kept of a discovered project.
#[verifier::ext_equal]
pub struct StateView {
    pub context: ProjectContext,
    pub metadata_files: Seq<Parts>,
    pub metadata_observations: Seq<MetadataView>,
    pub watched: Map<Parts, Option<PathStamp>>,
    pub memberships: Map<Parts, MembershipView>,
    pub reads: Seq<ReadView>,
}

impl View for ContextState {
    type V = StateView;

    open spec fn view(&self) -> StateView {
        StateView {
            context: *self.context,
            metadata_files: views(self.metadata_files@),
            metadata_observations: views(self.metadata_observations@),
            watched: self.watched_paths@,
            memberships: deep_values(self.memberships@),
            reads: views(self.read_observations@),
        }
    }
}

} // verus!
