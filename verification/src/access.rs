//! Which files a workspace may read, and under which entry.

use vstd::prelude::*;

use crate::excludes::{any_includes, accepts_path, has_default_exclusion, WorkspaceRoot};
use crate::names::{
    default_excluded, is_analyzable_source_path, is_default_excluded_component, pascal_path,
    has_extension,
};
use crate::native::{show, shown};
use crate::paths::{
    absolute_parts, absolute_path, joined, native_paths_equal, native_relative_path,
    path_starts_with_native, starts_with, FilePath, Parts,
};
use crate::project::{
    context_path_entry, optional_entry, own_entry, path_entry, project_path_entry_for, ContextKey,
    EntryView, KeyView, PathEntry, ProjectContext, ProvenanceView,
};
use crate::strings::{eq_ignore_case, same_ci, same_str, texts};
use crate::uris::{normal, optional_parts};

verus! {

/// A root that a mapping leads to, and whether the path in question lies under it without
/// a link on the way.
#[derive(Debug)]
pub struct NativeRoot {
    pub path: FilePath,
    pub safe: bool,
}

/// What the read policy of a project says of a path.
#[derive(Debug)]
pub struct ReadFacts {
    /// The policy's own entry for the path.
    pub policy_entry: Option<PathEntry>,
    /// The path may be read although nothing but the file system leads to it.
    pub legacy_allowed: bool,
    /// The path may be read for what its entry says.
    pub path_allowed: bool,
}

impl ReadFacts {
    pub open spec fn entry(&self) -> Option<EntryView> {
        optional_entry(self.policy_entry)
    }
}

/// The folder at this place of the workspace.
pub open spec fn folder_at(roots: Seq<WorkspaceRoot>, path: Parts, i: int) -> Option<WorkspaceRoot>
    decreases roots.len() - i,
{
    if i < 0 || i >= roots.len() {
        None
    } else if roots[i].path@ == path {
        Some(roots[i])
    } else {
        folder_at(roots, path, i + 1)
    }
}

fn find_folder<'a>(roots: &'a Vec<WorkspaceRoot>, path: &FilePath) -> (r: Option<&'a WorkspaceRoot>)
    ensures
        match r {
            Some(root) => folder_at(roots@, path@, 0) == Some(*root),
            None => folder_at(roots@, path@, 0) is None,
        },
{
    let mut i: usize = 0;
    while i < roots.len()
        invariant
            i <= roots@.len(),
            folder_at(roots@, path@, 0) == folder_at(roots@, path@, i as int),
        decreases roots@.len() - i,
    {
        if native_paths_equal(&roots[i].path, path) {
            return Some(&roots[i]);
        }
        i += 1;
    }
    None
}

/// The path is left out of a mapped root: by its parts below the root, or by the patterns
/// of the context's folder.
pub open spec fn mapped_out(
    roots: Seq<WorkspaceRoot>,
    path: Parts,
    mapped_root: Parts,
    key: KeyView,
) -> bool {
    ||| has_default_exclusion(path, mapped_root)
    ||| key.workspace_root is Some && folder_at(roots, key.workspace_root->0, 0) is Some
        && folder_at(roots, key.workspace_root->0, 0)->0.excludes.excludes(path, mapped_root)
}

/// Whether the path is left out of a mapped root.
pub fn mapped_path_is_excluded(
    roots: &Vec<WorkspaceRoot>,
    path: &FilePath,
    mapped_root: &FilePath,
    key: &ContextKey,
) -> (r: bool)
    ensures
        r == mapped_out(roots@, path@, mapped_root@, key@),
{
    if let Some(relative) = native_relative_path(path, mapped_root) {
        let mut i: usize = 0;
        while i < relative.parts.len()
            invariant
                i <= relative.parts@.len(),
                starts_with(path@, mapped_root@),
                relative@ == path@.skip(mapped_root@.len() as int),
                forall|j: int|
                    mapped_root@.len() <= j < mapped_root@.len() + i ==> !default_excluded(
                        #[trigger] path@[j],
                    ),
            decreases relative.parts@.len() - i,
        {
            proof {
                assert(relative@.len() == relative.parts@.len());
                assert(relative@[i as int] == relative.parts@[i as int]@);
                assert(path@.skip(mapped_root@.len() as int)[i as int] == path@[i
                    + mapped_root@.len()]);
            }
            if is_default_excluded_component(relative.parts[i].as_str()) {
                return true;
            }
            i += 1;
        }
        proof {
            assert(relative@.len() == relative.parts@.len());
            assert(path@.skip(mapped_root@.len() as int).len() == path@.len()
                - mapped_root@.len());
        }
    }
    match &key.workspace_root {
        Some(workspace_root) => match find_folder(roots, workspace_root) {
            Some(root) => root.excludes.is_excluded(path, mapped_root),
            None => false,
        },
        None => false,
    }
}

/// The path may be read under a root that a mapping leads to.
pub open spec fn mapped_readable(
    roots: Seq<WorkspaceRoot>,
    path: Parts,
    natives: Seq<NativeRoot>,
    key: KeyView,
) -> bool {
    exists|i: int|
        0 <= i < natives.len() && starts_with(path, (#[trigger] natives[i]).path@) && !mapped_out(
            roots,
            path,
            natives[i].path@,
            key,
        ) && natives[i].safe
}

/// Whether the path may be read under a root that a mapping leads to.
pub fn mapped_path_is_readable(
    roots: &Vec<WorkspaceRoot>,
    path: &FilePath,
    natives: &Vec<NativeRoot>,
    key: &ContextKey,
) -> (r: bool)
    ensures
        r == mapped_readable(roots@, path@, natives@, key@),
{
    let mut i: usize = 0;
    while i < natives.len()
        invariant
            i <= natives@.len(),
            forall|j: int|
                0 <= j < i ==> !(starts_with(path@, (#[trigger] natives@[j]).path@) && !mapped_out(
                    roots@,
                    path@,
                    natives@[j].path@,
                    key@,
                ) && natives@[j].safe),
        decreases natives@.len() - i,
    {
        let native = &natives[i];
        if path_starts_with_native(path, &native.path) && !mapped_path_is_excluded(
            roots,
            path,
            &native.path,
            key,
        ) && native.safe {
            return true;
        }
        i += 1;
    }
    false
}

/// The path lies under a source root of the folder.
pub open spec fn under_root(root: WorkspaceRoot, path: Parts) -> bool {
    exists|i: int|
        0 <= i < root.source_roots@.len() && starts_with(path, (#[trigger] root.source_roots@[i])@)
}

/// The path lies under a source root of the workspace.
pub open spec fn under_sources(roots: Seq<WorkspaceRoot>, path: Parts) -> bool {
    exists|i: int| 0 <= i < roots.len() && under_root(#[trigger] roots[i], path)
}

fn is_under_root(root: &WorkspaceRoot, path: &FilePath) -> (r: bool)
    ensures
        r == under_root(*root, path@),
{
    let mut i: usize = 0;
    while i < root.source_roots.len()
        invariant
            i <= root.source_roots@.len(),
            forall|j: int|
                0 <= j < i ==> !starts_with(path@, (#[trigger] root.source_roots@[j])@),
        decreases root.source_roots@.len() - i,
    {
        if path_starts_with_native(path, &root.source_roots[i]) {
            return true;
        }
        i += 1;
    }
    false
}

/// Whether the path lies under a source root of the workspace.
pub fn is_under_sources(roots: &Vec<WorkspaceRoot>, path: &FilePath) -> (r: bool)
    ensures
        r == under_sources(roots@, path@),
{
    let mut i: usize = 0;
    while i < roots.len()
        invariant
            i <= roots@.len(),
            forall|j: int| 0 <= j < i ==> !under_root(#[trigger] roots@[j], path@),
        decreases roots@.len() - i,
    {
        if is_under_root(&roots[i], path) {
            return true;
        }
        i += 1;
    }
    false
}

/// Whether the workspace holds a path that starts at the root.
pub fn workspace_accepts(roots: &Vec<WorkspaceRoot>, path: &FilePath) -> (r: bool)
    ensures
        r == any_includes(roots@, normal(path@)),
{
    let nowhere = FilePath { parts: Vec::new() };
    proof {
        assert(joined(nowhere@, path@) =~= path@);
    }
    accepts_path(roots, &nowhere, path)
}

/// The path is one that is analysed.
pub open spec fn analyzable(path: Parts) -> bool {
    pascal_path(path) || has_extension(path, "inc"@)
}

/// A source of the path may be read in the context. `mapped` says that it may be read
/// under a root that a mapping leads to.
pub open spec fn supported(
    roots: Seq<WorkspaceRoot>,
    path: Parts,
    context: ProjectContext,
    facts: ReadFacts,
    mapped: bool,
    legacy_route: bool,
) -> bool {
    analyzable(path) && match path_entry(context, path, facts.entry()) {
        None => legacy_route && facts.legacy_allowed,
        Some(entry) => {
            let explicit_legacy = own_entry(context, path) is Some && own_entry(
                context,
                path,
            )->0.provenance is LegacyNative;
            if entry.provenance is LegacyNative && (legacy_route || explicit_legacy) {
                facts.legacy_allowed
            } else {
                facts.path_allowed && (!under_sources(roots, path) || any_includes(
                    roots,
                    normal(path),
                ) || (entry.provenance is Mapped && mapped))
            }
        },
    }
}

/// Whether a source of the path may be read in the context.
pub fn ensure_supported_project_context(
    roots: &Vec<WorkspaceRoot>,
    path: &FilePath,
    context: &ProjectContext,
    facts: &ReadFacts,
    mapped: bool,
    legacy_route: bool,
) -> (r: bool)
    ensures
        r == supported(roots@, path@, *context, *facts, mapped, legacy_route),
{
    if !is_analyzable_source_path(path) {
        return false;
    }
    let policy = match &facts.policy_entry {
        Some(entry) => Some(entry.copy()),
        None => None,
    };
    match context_path_entry(context, path, policy) {
        None => legacy_route && facts.legacy_allowed,
        Some(entry) => {
            let explicit_legacy = match project_path_entry_for(context, path) {
                Some(own) => own.provenance.is_legacy(),
                None => false,
            };
            if entry.provenance.is_legacy() && (legacy_route || explicit_legacy) {
                return facts.legacy_allowed;
            }
            if !facts.path_allowed {
                return false;
            }
            !is_under_sources(roots, path) || workspace_accepts(roots, path) || (
            entry.provenance.is_mapped() && mapped)
        },
    }
}

/// A change of a path counts in a scope: it lies outside the workspace's sources, or the
/// workspace holds it, or the scope is a mapped one.
pub open spec fn scope_accepts(roots: Seq<WorkspaceRoot>, path: Parts, mapped_scope: bool) -> bool {
    !under_sources(roots, path) || any_includes(roots, normal(path)) || mapped_scope
}

/// Whether a change of a path counts in a scope.
pub fn scope_path_is_accepted(roots: &Vec<WorkspaceRoot>, path: &FilePath, mapped_scope: bool) -> (r:
    bool)
    ensures
        r == scope_accepts(roots@, path@, mapped_scope),
{
    !is_under_sources(roots, path) || workspace_accepts(roots, path) || mapped_scope
}

/// How a closed source is read: under which entry, and whether although nothing but the
/// file system leads to it.
#[derive(Debug)]
pub struct ReadPlan {
    pub entry: PathEntry,
    pub legacy_payload: bool,
}

/// How a closed source is read.
pub struct PlanView {
    pub entry: EntryView,
    pub legacy_payload: bool,
}

impl View for ReadPlan {
    type V = PlanView;

    open spec fn view(&self) -> PlanView {
        PlanView { entry: self.entry@, legacy_payload: self.legacy_payload }
    }
}

/// The entry of the path is one that the project itself has, for no other reason than
/// that the file is there.
pub open spec fn own_legacy(context: ProjectContext, path: Parts) -> bool {
    own_entry(context, path) is Some && own_entry(context, path)->0.provenance is LegacyNative
}

fn has_own_legacy(context: &ProjectContext, path: &FilePath) -> (r: bool)
    ensures
        r == own_legacy(*context, path@),
{
    match project_path_entry_for(context, path) {
        Some(entry) => entry.provenance.is_legacy(),
        None => false,
    }
}

/// How a closed document is read: under the entry that the context has for it, or because
/// it was found beside another. Without either it is not read.
pub open spec fn read_plan(
    context: ProjectContext,
    path: Parts,
    policy: Option<EntryView>,
    legacy_route: bool,
) -> Option<PlanView> {
    match path_entry(context, path, policy) {
        Some(entry) => Some(
            PlanView {
                entry,
                legacy_payload: entry.provenance is LegacyNative && (legacy_route || own_legacy(
                    context,
                    path,
                )),
            },
        ),
        None => if legacy_route {
            Some(
                PlanView {
                    entry: EntryView { path, provenance: ProvenanceView::LegacyNative },
                    legacy_payload: true,
                },
            )
        } else {
            None
        },
    }
}

pub open spec fn optional_plan(plan: Option<ReadPlan>) -> Option<PlanView> {
    match plan {
        Some(plan) => Some(plan@),
        None => None,
    }
}

/// How a closed document is read.
pub fn closed_read_plan(
    context: &ProjectContext,
    path: &FilePath,
    policy: Option<PathEntry>,
    legacy_route: bool,
) -> (r: Option<ReadPlan>)
    ensures
        optional_plan(r) == read_plan(*context, path@, optional_entry(policy), legacy_route),
{
    match context_path_entry(context, path, policy) {
        Some(entry) => {
            let legacy_payload = entry.provenance.is_legacy() && (legacy_route || has_own_legacy(
                context,
                path,
            ));
            Some(ReadPlan { entry, legacy_payload })
        },
        None => if legacy_route {
            Some(ReadPlan { entry: PathEntry::legacy(path.copy()), legacy_payload: true })
        } else {
            None
        },
    }
}

/// How a source is loaded: as it is read, and whether it is to be kept in mind that it
/// was found beside another.
#[derive(Debug)]
pub struct LoadPlan {
    pub entry: PathEntry,
    pub legacy_payload: bool,
    pub route_granted: bool,
}

/// How a source is loaded.
pub struct LoadView {
    pub entry: EntryView,
    pub legacy_payload: bool,
    pub route_granted: bool,
}

impl View for LoadPlan {
    type V = LoadView;

    open spec fn view(&self) -> LoadView {
        LoadView {
            entry: self.entry@,
            legacy_payload: self.legacy_payload,
            route_granted: self.route_granted,
        }
    }
}

pub open spec fn optional_load(plan: Option<LoadPlan>) -> Option<LoadView> {
    match plan {
        Some(plan) => Some(plan@),
        None => None,
    }
}

/// What leads to a source that is loaded for another.
#[derive(Clone, Copy, Debug, PartialEq, Eq, Structural)]
pub struct LegacyRoutes {
    /// It lies in the directory of the source that needs it, which was itself found so.
    pub sibling: bool,
    /// It lies on a search path that nothing but the file system leads to.
    pub search_path: bool,
    /// It is known to have been found so before, in this context.
    pub known: bool,
}

/// How a source is loaded, where it may be.
pub open spec fn load_plan(
    roots: Seq<WorkspaceRoot>,
    context: ProjectContext,
    path: Parts,
    facts: ReadFacts,
    mapped: bool,
    routes: LegacyRoutes,
) -> Option<LoadView> {
    let authorized = routes.search_path || routes.known;
    let found = path_entry(context, path, facts.entry());
    let entry = match found {
        Some(entry) => Some(entry),
        None => if routes.sibling || authorized {
            Some(EntryView { path, provenance: ProvenanceView::LegacyNative })
        } else {
            None
        },
    };
    match entry {
        None => None,
        Some(entry) => {
            let restricted = !(entry.provenance is LegacyNative) || own_entry(context, path) is Some;
            let granted = (routes.sibling || routes.search_path) && !restricted;
            let explicit = own_legacy(context, path);
            let verified = entry.provenance is LegacyNative && (authorized || granted || explicit);
            let readable = if verified {
                facts.legacy_allowed
            } else {
                supported(
                    roots,
                    path,
                    context,
                    facts,
                    mapped,
                    authorized || granted || explicit,
                )
            };
            if readable {
                Some(LoadView { entry, legacy_payload: verified, route_granted: granted })
            } else {
                None
            }
        },
    }
}

/// How a source is loaded, where it may be.
pub fn plan_load(
    roots: &Vec<WorkspaceRoot>,
    context: &ProjectContext,
    path: &FilePath,
    facts: &ReadFacts,
    mapped: bool,
    routes: LegacyRoutes,
) -> (r: Option<LoadPlan>)
    ensures
        optional_load(r) == load_plan(roots@, *context, path@, *facts, mapped, routes),
{
    let authorized = routes.search_path || routes.known;
    let policy = match &facts.policy_entry {
        Some(entry) => Some(entry.copy()),
        None => None,
    };
    let entry = match context_path_entry(context, path, policy) {
        Some(entry) => entry,
        None => {
            if routes.sibling || authorized {
                PathEntry::legacy(path.copy())
            } else {
                return None;
            }
        },
    };
    let owned = project_path_entry_for(context, path).is_some();
    let explicit = has_own_legacy(context, path);
    let legacy = entry.provenance.is_legacy();
    let granted = (routes.sibling || routes.search_path) && legacy && !owned;
    let verified = legacy && (authorized || granted || explicit);
    let readable = if verified {
        facts.legacy_allowed
    } else {
        ensure_supported_project_context(
            roots,
            path,
            context,
            facts,
            mapped,
            authorized || granted || explicit,
        )
    };
    if readable {
        Some(LoadPlan { entry, legacy_payload: verified, route_granted: granted })
    } else {
        None
    }
}

/// The place of a name among the entries of a directory: the name itself, or the only one
/// that is shown the same up to case.
pub open spec fn entry_place(entries: Seq<Seq<char>>, wanted: Seq<char>, place: int) -> bool {
    &&& 0 <= place < entries.len()
    &&& same_ci(shown(entries[place]), shown(wanted))
    &&& entries[place] == wanted || ({
        &&& forall|j: int| 0 <= j < entries.len() ==> #[trigger] entries[j] != wanted
        &&& forall|j: int| 0 <= j < entries.len() && j != place ==> !same_ci(shown(#[trigger] entries[j]), shown(wanted))
    })
}

/// The place of a name among the entries of a directory.
pub fn matching_entry(entries: &Vec<String>, wanted: &str) -> (r: Option<usize>)
    ensures
        match r {
            Some(place) => entry_place(texts(entries@), wanted@, place as int),
            None => forall|place: int| !entry_place(texts(entries@), wanted@, place),
        },
{
    let ghost names = texts(entries@);
    let mut found: Option<usize> = None;
    let mut many = false;
    let mut i: usize = 0;
    let shown_as = show(wanted);
    while i < entries.len()
        invariant
            shown_as@ == shown(wanted@),
            i <= entries@.len(),
            names == texts(entries@),
            forall|j: int| 0 <= j < i ==> #[trigger] names[j] != wanted@,
            match found {
                Some(f) => f < i && same_ci(shown(names[f as int]), shown(wanted@)) && (!many ==> forall|j: int|
                    0 <= j < i && j != f ==> !same_ci(shown(#[trigger] names[j]), shown(wanted@))) && (many
                    ==> exists|j: int|
                    0 <= j < i && j != f && same_ci(shown(#[trigger] names[j]), shown(wanted@))),
                None => !many && forall|j: int|
                    0 <= j < i ==> !same_ci(shown(#[trigger] names[j]), shown(wanted@)),
            },
        decreases entries@.len() - i,
    {
        proof {
            assert(names[i as int] == entries@[i as int]@);
        }
        if same_str(entries[i].as_str(), wanted) {
            proof {
                assert(entry_place(names, wanted@, i as int));
            }
            return Some(i);
        }
        if eq_ignore_case(show(entries[i].as_str()).as_str(), shown_as.as_str()) {
            match found {
                Some(f) => {
                    many = true;
                    proof {
                        assert(same_ci(shown(names[i as int]), shown(wanted@)));
                    }
                },
                None => {
                    found = Some(i);
                },
            }
        }
        i += 1;
    }
    match found {
        Some(f) => {
            if many {
                proof {
                    assert forall|place: int| !entry_place(names, wanted@, place) by {
                        if entry_place(names, wanted@, place) {
                            let j = choose|j: int|
                                0 <= j < names.len() && j != f && same_ci(shown(#[trigger] names[j]), shown(wanted@));
                            if place == f {
                                assert(same_ci(shown(names[j]), shown(wanted@)));
                            } else {
                                assert(same_ci(shown(names[f as int]), shown(wanted@)));
                            }
                        }
                    }
                }
                None
            } else {
                proof {
                    assert(entry_place(names, wanted@, f as int));
                }
                Some(f)
            }
        },
        None => None,
    }
}

/// A path that is followed part by part, up to case.
#[derive(Debug)]
pub struct CasePath {
    pub current: FilePath,
    pub wanted: Vec<String>,
    pub next: usize,
}

/// What following a path came to.
#[derive(Debug)]
pub enum CaseStep {
    /// The entries of the current directory are needed.
    List,
    /// The path is there, under this spelling.
    Found,
    /// It is not there, or more than one entry may be meant.
    Missing,
}

impl CasePath {
    /// Starts at the root of a path that starts there.
    pub fn new(path: &FilePath) -> (r: Self)
        requires
            path@.len() > 0,
        ensures
            r.current@ == path@.take(1),
            texts(r.wanted@) == path@.skip(1),
            r.next == 0,
    {
        let mut first: Vec<String> = Vec::new();
        first.push(path.parts[0].clone());
        let current = FilePath { parts: first };
        let mut wanted: Vec<String> = Vec::new();
        let mut i: usize = 1;
        proof {
            assert(path@.len() == path.parts@.len());
            assert(path@[0] == path.parts@[0]@);
            assert(current@ =~= path@.take(1));
            assert(texts(wanted@) =~= path@.subrange(1, 1));
        }
        while i < path.parts.len()
            invariant
                1 <= i <= path.parts@.len(),
                path@.len() == path.parts@.len(),
                texts(wanted@) == path@.subrange(1, i as int),
            decreases path.parts@.len() - i,
        {
            let ghost held = wanted@;
            wanted.push(path.parts[i].clone());
            proof {
                assert(path@[i as int] == path.parts@[i as int]@);
                assert(texts(wanted@) =~= texts(held).push(path@[i as int]));
                assert(path@.subrange(1, i + 1) =~= path@.subrange(1, i as int).push(
                    path@[i as int],
                ));
            }
            i += 1;
        }
        proof {
            assert(path@.subrange(1, path@.len() as int) =~= path@.skip(1));
        }
        CasePath { current, wanted, next: 0 }
    }

    /// What is needed next.
    pub fn step(&self) -> (r: CaseStep)
        ensures
            r is Found <==> self.next >= self.wanted@.len(),
            r is List <==> self.next < self.wanted@.len(),
    {
        if self.next < self.wanted.len() {
            CaseStep::List
        } else {
            CaseStep::Found
        }
    }

    /// Goes on with the names of the entries of the current directory, or without them where
    /// it cannot be read.
    pub fn advance(&mut self, entries: Option<&Vec<String>>) -> (r: CaseStep)
        requires
            old(self).next < old(self).wanted@.len(),
        ensures
            ({
                let wanted = old(self).wanted@[old(self).next as int]@;
                &&& r is Missing <==> entries is None || forall|place: int|
                    !entry_place(texts(entries->0@), wanted, place)
                &&& r is Missing ==> *final(self) == *old(self)
                &&& !(r is Missing) ==> final(self).next == old(self).next + 1
                    && final(self).wanted == old(self).wanted && exists|place: int|
                    #![trigger entry_place(texts(entries->0@), wanted, place)]
                    entry_place(texts(entries->0@), wanted, place) && final(self).current@
                        == old(self).current@.push(texts(entries->0@)[place])
                &&& !(r is Missing) ==> (r is Found <==> final(self).next
                    >= final(self).wanted@.len())
            }),
    {
        match entries {
            None => CaseStep::Missing,
            Some(entries) => match matching_entry(entries, self.wanted[self.next].as_str()) {
                None => CaseStep::Missing,
                Some(place) => {
                    proof {
                        assert(texts(entries@)[place as int] == entries@[place as int]@);
                        assert(entry_place(
                            texts(entries@),
                            self.wanted@[self.next as int]@,
                            place as int,
                        ));
                    }
                    let mut current = self.current.copy();
                    current.parts.push(entries[place].clone());
                    proof {
                        assert(current@ =~= self.current@.push(entries@[place as int]@));
                    }
                    self.current = current;
                    proof {
                        assert(self.wanted.len() == self.wanted@.len());
                    }
                    self.next = self.next + 1;
                    self.step()
                },
            },
        }
    }
}

/// The root that a mapping leads to: as the file system spells it, or as it is written.
pub fn native_mapping_root(cwd: &FilePath, root: &FilePath, resolved: Option<FilePath>) -> (r: FilePath)
    ensures
        r@ == (match optional_parts(resolved) {
            Some(path) => path,
            None => absolute_parts(cwd@, root@),
        }),
{
    match resolved {
        Some(path) => path,
        None => absolute_path(cwd, root),
    }
}

/// A path is safe under a root: what both lead to lies so, and nothing on the way is a
/// link.
pub fn safe_path_under_root(
    canonical_path: Option<&FilePath>,
    canonical_root: Option<&FilePath>,
    link_on_the_way: bool,
) -> (r: bool)
    ensures
        r == (canonical_path is Some && canonical_root is Some && starts_with(
            canonical_path->0@,
            canonical_root->0@,
        ) && !link_on_the_way),
{
    match (canonical_path, canonical_root) {
        (Some(path), Some(root)) => path_starts_with_native(path, root) && !link_on_the_way,
        _ => false,
    }
}

/// The paths that must not be links: the root, and every path on the way from it to the
/// path. A path that does not lie under the root has none.
pub fn paths_on_the_way(path: &FilePath, root: &FilePath) -> (r: Option<Vec<FilePath>>)
    ensures
        r is Some <==> starts_with(path@, root@),
        r is Some ==> r->0@.len() == path@.len() - root@.len() + 1 && forall|i: int|
            0 <= i < r->0@.len() ==> (#[trigger] r->0@[i])@ == path@.take(root@.len() + i),
{
    if !path_starts_with_native(path, root) {
        return None;
    }
    proof {
        assert(path@.len() == path.parts@.len());
        assert(root@.len() == root.parts@.len());
    }
    let mut probes: Vec<FilePath> = Vec::new();
    let mut n: usize = root.parts.len();
    while n <= path.parts.len()
        invariant
            path@.len() == path.parts@.len(),
            root@.len() == root.parts@.len(),
            root@.len() <= n <= path@.len() + 1,
            starts_with(path@, root@),
            probes@.len() == n - root@.len(),
            forall|i: int|
                0 <= i < probes@.len() ==> (#[trigger] probes@[i])@ == path@.take(root@.len() + i),
        decreases path@.len() + 1 - n,
    {
        let mut parts: Vec<String> = Vec::new();
        let mut k: usize = 0;
        while k < n
            invariant
                k <= n <= path.parts@.len(),
                path@.len() == path.parts@.len(),
                parts@.len() == k,
                forall|j: int| 0 <= j < k ==> (#[trigger] parts@[j])@ == path@[j],
            decreases n - k,
        {
            proof {
                assert(path@[k as int] == path.parts@[k as int]@);
            }
            parts.push(path.parts[k].clone());
            k += 1;
        }
        let probe = FilePath { parts };
        proof {
            assert(probe@ =~= path@.take(n as int));
        }
        probes.push(probe);
        if n == path.parts.len() {
            return Some(probes);
        }
        n = n + 1;
    }
    Some(probes)
}

/// A source is loaded only where its project may read it. What nothing but the file system
/// leads to has to be allowed as such; anything else has to be allowed by its path and, below
/// the sources of the workspace, not be left out of them unless a mapping leads to it. A route
/// is granted only to what no entry of the project restricts.
pub proof fn law_sources_are_loaded_only_where_allowed(
    roots: Seq<WorkspaceRoot>,
    context: ProjectContext,
    path: Parts,
    facts: ReadFacts,
    mapped: bool,
    routes: LegacyRoutes,
)
    ensures
        load_plan(roots, context, path, facts, mapped, routes) matches Some(plan) ==> {
            &&& plan.legacy_payload ==> plan.entry.provenance is LegacyNative
                && facts.legacy_allowed
            &&& !plan.legacy_payload ==> {
                &&& analyzable(path)
                &&& facts.path_allowed
                &&& !under_sources(roots, path) || any_includes(roots, normal(path)) || (
                plan.entry.provenance is Mapped && mapped)
            }
            &&& plan.route_granted ==> plan.legacy_payload && own_entry(context, path) is None
        },
{
}

} // verus!
