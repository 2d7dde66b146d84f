//! How a source comes to be indexed: whether it may be read, whether it has to be, and
//! what is done where it cannot be.

use vstd::prelude::*;

use crate::access::{analyzable, load_plan, plan_load, LegacyRoutes, LoadPlan, LoadView, ReadFacts};
use crate::budget::{lemma_spent_adds, Work};
use crate::cancel::Interrupt;
use crate::contexts::{route_holds, StoreView};
use crate::deleted::DeletedFiles;
use crate::documents::{DocumentView, OpenDocuments};
use crate::excludes::WorkspaceRoot;
use crate::includes::exact;
use crate::keymap::Identity;
use crate::limits::ResourceLimits;
use crate::lint::referenced_path;
use crate::names::is_analyzable_source_path;
use crate::paths::{native_paths_equal, parent_of, path_text, FilePath, Parts};
use crate::project::{ContextKey, DiskStamp, KeyView};
use crate::sources::{
    eviction_list, file_limit_text, has_space, keeps, over_bytes, over_files, room_visits,
    stopped_at, stopped_forgetting, total_limit_text,
    with_pruned_contexts, with_space, Sources, SourcesView,
};
use crate::strings::{
    byte_length, chars_of, concat, concat3, list_contains, lower, same_str, texts, to_lower,
};
use crate::strmap::{StrMap, StrSet};
use crate::uris::{file_path_of, uri_path};
use crate::warnings::{warned_with, WarningLog};

verus! {

/// What is done next to load a source.
#[derive(Debug)]
pub enum LoadStep {
    /// It is not loaded.
    Skip,
    /// The request that needs it ends, for this reason.
    Fail(String),
    /// It is open, and indexed as it stands.
    UseOpen(LoadPlan),
    /// It is open, and this text is to be indexed.
    IndexOpen(LoadPlan, String),
    /// Its file is looked at.
    Stat(LoadPlan),
}

/// What is done next to load a source.
pub enum LoadStepView {
    Skip,
    Fail(Seq<char>),
    UseOpen(LoadView),
    IndexOpen(LoadView, Seq<char>),
    Stat(LoadView),
}

impl View for LoadStep {
    type V = LoadStepView;

    open spec fn view(&self) -> LoadStepView {
        match self {
            LoadStep::Skip => LoadStepView::Skip,
            LoadStep::Fail(reason) => LoadStepView::Fail(reason@),
            LoadStep::UseOpen(plan) => LoadStepView::UseOpen(plan@),
            LoadStep::IndexOpen(plan, text) => LoadStepView::IndexOpen(plan@, text@),
            LoadStep::Stat(plan) => LoadStepView::Stat(plan@),
        }
    }
}

/// What leads to a source that is loaded for another: the directory in which its like are
/// looked for, and whether it lies on a search path that nothing but the file system
/// leads to.
pub struct LoadReason<'a> {
    pub sibling_directory: Option<&'a FilePath>,
    pub search_path: bool,
}

/// The document is known to have been found beside another, in this context.
pub open spec fn route_known(store: StoreView, uri: Seq<char>, path: Parts, key: KeyView) -> bool {
    store.owners.contains_key(uri) && store.owners[uri].key == key && route_holds(
        store.owners[uri],
        path,
    )
}

/// What leads to a source.
pub open spec fn routes_to(
    store: StoreView,
    uri: Seq<char>,
    path: Parts,
    key: KeyView,
    sibling: Option<Parts>,
    search_path: bool,
) -> LegacyRoutes {
    LegacyRoutes {
        sibling: sibling is Some && parent_of(path) == sibling,
        search_path,
        known: route_known(store, uri, path, key),
    }
}

pub open spec fn outside_text(path: Parts) -> Seq<char> {
    "source path is outside the effective project read roots: "@ + path_text(path)
}

/// The first step to load a source, and what is said of it.
pub open spec fn load_start(
    v: SourcesView,
    open: Map<Seq<char>, DocumentView>,
    roots: Seq<WorkspaceRoot>,
    uri: Seq<char>,
    key: KeyView,
    facts: ReadFacts,
    mapped: bool,
    sibling: Option<Parts>,
    search_path: bool,
) -> (LoadStepView, Option<Seq<char>>) {
    match uri_path(uri) {
        None => (
            LoadStepView::Skip,
            Some("cannot load non-file navigation URI: "@ + uri),
        ),
        Some(path) => if !analyzable(path) {
            (
                LoadStepView::Skip,
                Some("unsupported Pascal dependency path: "@ + path_text(path)),
            )
        } else if !v.store.contexts.contains_key(key) {
            (LoadStepView::Skip, None)
        } else {
            match load_plan(
                roots,
                *v.store.contexts[key].context,
                path,
                facts,
                mapped,
                routes_to(v.store, uri, path, key, sibling, search_path),
            ) {
                None => (LoadStepView::Skip, Some(outside_text(path))),
                Some(plan) => (planned_step(v, open, uri, plan), None),
            }
        },
    }
}

/// The step once it is known how a source is loaded.
pub open spec fn planned_step(
    v: SourcesView,
    open: Map<Seq<char>, DocumentView>,
    uri: Seq<char>,
    plan: LoadView,
) -> LoadStepView {
    if !open.contains_key(uri) {
        LoadStepView::Stat(plan)
    } else if open[uri].rejection is Some {
        LoadStepView::Fail(
            "document "@ + uri + " was rejected and cannot be used for analysis: "@
                + open[uri].rejection->0,
        )
    } else if open[uri].text is None {
        LoadStepView::Skip
    } else if v.sizes.contains_key(uri) {
        LoadStepView::UseOpen(plan)
    } else {
        LoadStepView::IndexOpen(plan, open[uri].text->0)
    }
}

/// The log with what is said, if anything.
pub open spec fn told(log: Seq<Seq<char>>, message: Option<Seq<char>>) -> Seq<Seq<char>> {
    match message {
        Some(message) => warned_with(log, message),
        None => log,
    }
}

impl Sources {
    /// The first step to load a source for a context.
    pub fn begin_load(
        &self,
        documents: &OpenDocuments,
        roots: &Vec<WorkspaceRoot>,
        uri: &str,
        key: &ContextKey,
        facts: &ReadFacts,
        mapped: bool,
        reason: &LoadReason,
        warnings: &mut WarningLog,
    ) -> (r: LoadStep)
        requires
            old(warnings).wf(),
        ensures
            final(warnings).wf(),
            ({
                let (step, message) = load_start(
                    self@,
                    documents@,
                    roots@,
                    uri@,
                    key@,
                    *facts,
                    mapped,
                    referenced_path(reason.sibling_directory),
                    reason.search_path,
                );
                r@ == step && final(warnings)@ == told(old(warnings)@, message)
            }),
    {
        let path = match file_path_of(uri) {
            Some(path) => path,
            None => {
                warnings.warn(concat("cannot load non-file navigation URI: ", uri));
                return LoadStep::Skip;
            },
        };
        if !is_analyzable_source_path(&path) {
            warnings.warn(concat("unsupported Pascal dependency path: ", path.text().as_str()));
            return LoadStep::Skip;
        }
        let state = match self.contexts.contexts.get(key) {
            Some(state) => state,
            None => {
                return LoadStep::Skip;
            },
        };
        let sibling = match reason.sibling_directory {
            Some(directory) => match path.parent() {
                Some(parent) => native_paths_equal(&parent, directory),
                None => false,
            },
            None => false,
        };
        let routes = LegacyRoutes {
            sibling,
            search_path: reason.search_path,
            known: self.contexts.legacy_route_is_current(uri, &path, key),
        };
        let plan = match plan_load(roots, &state.context, &path, facts, mapped, routes) {
            Some(plan) => plan,
            None => {
                warnings.warn(
                    concat(
                        "source path is outside the effective project read roots: ",
                        path.text().as_str(),
                    ),
                );
                return LoadStep::Skip;
            },
        };
        match documents.get(uri) {
            None => LoadStep::Stat(plan),
            Some(document) => {
                if let Some(rejection) = &document.rejection {
                    let head = concat3(
                        "document ",
                        uri,
                        " was rejected and cannot be used for analysis: ",
                    );
                    return LoadStep::Fail(concat(head.as_str(), rejection.as_str()));
                }
                match &document.text {
                    None => LoadStep::Skip,
                    Some(text) => if self.is_indexed(uri) {
                        LoadStep::UseOpen(plan)
                    } else {
                        LoadStep::IndexOpen(plan, text.clone())
                    },
                }
            },
        }
    }
}

/// What is done with a closed source once its file was looked at.
#[derive(Clone, Copy, Debug, PartialEq, Eq, Structural)]
pub enum ClosedStep {
    /// It is forgotten: there is no file.
    Forget,
    /// It is indexed as it stands.
    Use,
    /// It is read.
    Read,
}

/// What is done with a closed source once its file was looked at.
pub open spec fn closed_load(
    v: SourcesView,
    deleted: Map<Seq<char>, Option<DiskStamp>>,
    uri: Seq<char>,
    now: Option<DiskStamp>,
) -> ClosedStep {
    if now is None || (deleted.contains_key(uri) && deleted[uri] == now) {
        ClosedStep::Forget
    } else if v.sizes.contains_key(uri) && v.stamps.contains_key(uri) && Some(v.stamps[uri]) == now {
        ClosedStep::Use
    } else {
        ClosedStep::Read
    }
}

impl Sources {
    /// What is done with a closed source whose file has the stamp `now`. A report that it
    /// was deleted is forgotten where its file is back.
    pub fn consider_closed(
        &self,
        deleted: &mut DeletedFiles,
        uri: &str,
        now: Option<DiskStamp>,
        work: &mut Work,
    ) -> (r: Result<ClosedStep, Interrupt>)
        requires
            old(deleted).wf(),
        ensures
            final(deleted).wf(),
            final(work).continues(old(work)),
            old(work).unbounded() ==> r is Ok,
            r matches Err(Interrupt::BudgetExceeded) ==> final(work).used_up(),
            r matches Err(Interrupt::BudgetExceeded) ==> !old(work).affords(
                if now is Some && old(deleted)@.contains_key(uri@) { 2 } else { 1 },
                0,
            ),
            r is Ok ==> ({
                let reported = old(deleted)@.contains_key(uri@);
                let looked = now is Some && reported;
                &&& r->Ok_0 == closed_load(self@, old(deleted)@, uri@, now)
                &&& final(deleted)@ == (if looked && old(deleted)@[uri@] != now {
                    old(deleted)@.remove(uri@)
                } else {
                    old(deleted)@
                })
                &&& final(work).spent(
                    old(work),
                    if looked {
                        2
                    } else {
                        1
                    },
                    0,
                )
            }),
            r is Err ==> final(deleted)@ == old(deleted)@,
    {
        let ghost start = *work;
        work.check()?;
        work.visit(1)?;
        work.check()?;
        let stamp = match now {
            Some(stamp) => stamp,
            None => {
                return Ok(ClosedStep::Forget);
            },
        };
        let ghost before = *work;
        let ghost reports = deleted@;
        let blocked = deleted.deletion_blocks_load(uri, now, work)?;
        proof {
            lemma_spent_adds(
                &start,
                &before,
                &*work,
                1,
                0,
                if reports.contains_key(uri@) {
                    1
                } else {
                    0
                },
                0,
            );
            if !reports.contains_key(uri@) {
                assert(reports.remove(uri@) =~= reports);
            }
        }
        if blocked {
            return Ok(ClosedStep::Forget);
        }
        let same = match self.stamps.get(uri) {
            Some(kept) => *kept == stamp,
            None => false,
        };
        if self.is_indexed(uri) && same {
            Ok(ClosedStep::Use)
        } else {
            Ok(ClosedStep::Read)
        }
    }
}

/// What is said of a source that could not be read.
pub open spec fn unread_text(path: Parts, error: Seq<char>) -> Seq<char> {
    "skipping "@ + path_text(path) + ": "@ + error
}

pub fn unread_message(path: &FilePath, error: &str) -> (r: String)
    ensures
        r@ == unread_text(path@, error@),
{
    let head = concat3("skipping ", path.text().as_str(), ": ");
    concat(head.as_str(), error)
}

/// What is said of a source that could not be indexed.
pub open spec fn unindexed_text(uri: Seq<char>, error: Seq<char>) -> Seq<char> {
    "cannot index "@ + uri + ": "@ + error
}

pub fn unindexed_message(uri: &str, error: &str) -> (r: String)
    ensures
        r@ == unindexed_text(uri@, error@),
{
    let head = concat3("cannot index ", uri, ": ");
    concat(head.as_str(), error)
}

/// What is said of a source for which there is no room.
pub open spec fn no_room_text(uri: Seq<char>) -> Seq<char> {
    "source cache limit prevented retaining "@ + uri + "; navigation is incomplete"@
}

/// The log once a limit was reached for the first time.
pub open spec fn limits_told(
    before: SourcesView,
    log: Seq<Seq<char>>,
    after: SourcesView,
    uri: Seq<char>,
    size: usize,
    limits: ResourceLimits,
) -> Seq<Seq<char>> {
    let files = if over_files(after, uri, limits) && !before.file_cap_warning_sent {
        warned_with(log, file_limit_text(limits.max_files, uri))
    } else {
        log
    };
    if over_bytes(after, uri, size, 0, limits) && !before.total_cap_warning_sent {
        warned_with(files, total_limit_text(limits.max_total_bytes, uri))
    } else {
        files
    }
}

impl Sources {
    /// Makes room for a source that is to be indexed. Its size is that of its file, or of
    /// its text where it is open.
    pub fn admit_source(
        &mut self,
        uri: &str,
        text: &str,
        file_size: Option<usize>,
        pinned: &StrSet,
        documents: &OpenDocuments,
        limits: &ResourceLimits,
        warnings: &mut WarningLog,
        work: &mut Work,
    ) -> (r: Result<bool, Interrupt>)
        requires
            old(self).wf(),
            old(warnings).wf(),
        ensures
            final(self).wf(),
            final(warnings).wf(),
            final(work).continues(old(work)),
            old(work).unbounded() ==> r is Ok,
            r matches Err(Interrupt::BudgetExceeded) ==> final(work).used_up(),
            r matches Err(Interrupt::BudgetExceeded) ==> !old(work).affords(
                room_visits(
                    old(self)@,
                    pinned@,
                    documents@,
                    uri@,
                    match file_size { Some(size) => size, None => crate::strings::byte_len(text@) as usize, },
                    0,
                    *limits,
                ),
                0,
            ),
            r is Ok && exact(old(self)@.graph) ==> exact(final(self)@.graph),
            keeps(old(self)@.sizes, final(self)@.sizes, uri@, pinned@, documents@),
            r is Err ==> final(warnings)@ == old(warnings)@,
            r is Err ==> stopped_forgetting(
                old(self)@,
                final(self)@,
                eviction_list(old(self)@, uri@, pinned@, documents@),
            ),
            r is Ok ==> final(work).visited(
                old(work),
                room_visits(
                    old(self)@,
                    pinned@,
                    documents@,
                    uri@,
                    match file_size {
                        Some(size) => size,
                        None => crate::strings::byte_len(text@) as usize,
                    },
                    0,
                    *limits,
                ),
            ),
            ({
                let before = old(self)@;
                let size = match file_size {
                    Some(size) => size,
                    None => crate::strings::byte_len(text@) as usize,
                };
                let after = with_space(before, pinned@, documents@, uri@, size, 0, *limits);
                let limited = limits_told(before, old(warnings)@, after, uri@, size, *limits);
                &&& r is Ok ==> r->Ok_0 == has_space(after, uri@, size, 0, *limits)
                &&& r is Ok && r->Ok_0 ==> final(self)@ == with_pruned_contexts(after)
                    && final(warnings)@ == old(warnings)@
                &&& r is Ok && !r->Ok_0 ==> final(self)@ == (SourcesView {
                    file_cap_warning_sent: before.file_cap_warning_sent || over_files(
                        after,
                        uri@,
                        *limits,
                    ),
                    total_cap_warning_sent: before.total_cap_warning_sent || over_bytes(
                        after,
                        uri@,
                        size,
                        0,
                        *limits,
                    ),
                    ..with_pruned_contexts(after)
                }) && final(warnings)@ == (if documents@.contains_key(uri@) {
                    limited
                } else {
                    warned_with(limited, no_room_text(uri@))
                })
            }),
    {
        proof {
            assert(stopped_at(
                self@,
                self@,
                eviction_list(self@, uri@, pinned@, documents@),
                0,
            ));
        }
        work.check()?;
        let size: usize = match file_size {
            Some(size) => size,
            None => byte_length(text),
        };
        let admitted = self.make_room_for(uri, size, pinned, 0, documents, limits, warnings, work)?;
        if !admitted && !documents.contains(uri) {
            warnings.warn(
                concat3(
                    "source cache limit prevented retaining ",
                    uri,
                    "; navigation is incomplete",
                ),
            );
        }
        Ok(admitted)
    }

    /// A dependency is indexed as it was resolved: in the context, and with the same text.
    /// `indexed_text` is the text that it is indexed with.
    pub fn already_indexed(
        &self,
        uri: &str,
        key: &ContextKey,
        indexed_text: Option<&str>,
        text: &str,
    ) -> (r: bool)
        ensures
            r == (self@.sizes.contains_key(uri@) && self@.store.document_contexts.contains_key(uri@)
                && self@.store.document_contexts[uri@] == key@ && indexed_text is Some
                && indexed_text->0@ == text@),
    {
        if !self.is_indexed(uri) {
            return false;
        }
        let in_context = match self.contexts.document_contexts.get(uri) {
            Some(kept) => kept.same_as(key),
            None => false,
        };
        in_context && match indexed_text {
            Some(indexed) => same_str(indexed, text),
            None => false,
        }
    }

    /// The context in which the imports of a source are looked for: the one that it is
    /// read in, else the one of the request.
    pub fn import_context(&self, uri: &str, key: &ContextKey) -> (r: ContextKey)
        ensures
            r@ == (if self@.store.document_contexts.contains_key(uri@) {
                self@.store.document_contexts[uri@]
            } else {
                key@
            }),
    {
        match self.contexts.document_contexts.get(uri) {
            Some(kept) => kept.duplicate(),
            None => key.duplicate(),
        }
    }
}

/// A source that an import was resolved to.
#[derive(Debug)]
pub struct ResolvedDependency {
    /// What the resolver calls it.
    pub id: String,
    pub uri: String,
    /// It was or could be indexed.
    pub indexed: bool,
}

/// A source that an import was resolved to.
pub struct DependencyView {
    pub id: Seq<char>,
    pub uri: Seq<char>,
    pub indexed: bool,
}

impl View for ResolvedDependency {
    type V = DependencyView;

    open spec fn view(&self) -> DependencyView {
        DependencyView { id: self.id@, uri: self.uri@, indexed: self.indexed }
    }
}

/// The dependency counts: it is another source, and it is indexed.
pub open spec fn counts(dependency: DependencyView, uri: Seq<char>) -> bool {
    dependency.uri != uri && dependency.indexed
}

/// The dependencies of a source, each once.
pub open spec fn dependencies_of(dependencies: Seq<DependencyView>, uri: Seq<char>, n: int) -> Seq<
    Seq<char>,
>
    decreases n,
{
    if n <= 0 {
        seq![]
    } else {
        let before = dependencies_of(dependencies, uri, n - 1);
        let dependency = dependencies[n - 1];
        if counts(dependency, uri) && !before.contains(dependency.uri) {
            before.push(dependency.uri)
        } else {
            before
        }
    }
}

/// The dependencies of a source, each once.
pub fn list_dependencies(dependencies: &Vec<ResolvedDependency>, uri: &str) -> (r: Vec<String>)
    ensures
        texts(r@) == dependencies_of(
            crate::sorting::views(dependencies@),
            uri@,
            dependencies@.len() as int,
        ),
{
    let ghost all = crate::sorting::views(dependencies@);
    let mut list: Vec<String> = Vec::new();
    let mut i: usize = 0;
    proof {
        assert(texts(list@) =~= seq![]);
    }
    while i < dependencies.len()
        invariant
            i <= dependencies@.len(),
            all == crate::sorting::views(dependencies@),
            texts(list@) == dependencies_of(all, uri@, i as int),
        decreases dependencies@.len() - i,
    {
        let dependency = &dependencies[i];
        proof {
            assert(all[i as int] == dependency@);
        }
        if !same_str(dependency.uri.as_str(), uri) && dependency.indexed && !list_contains(
            &list,
            dependency.uri.as_str(),
        ) {
            let ghost held = list@;
            list.push(dependency.uri.clone());
            proof {
                assert(texts(list@) =~= texts(held).push(dependency.uri@));
            }
        }
        i += 1;
    }
    list
}

/// The document that a resolved source is: the last dependency of that name that counts.
pub open spec fn document_of(
    dependencies: Seq<DependencyView>,
    uri: Seq<char>,
    id: Seq<char>,
    n: int,
) -> Option<Seq<char>>
    decreases n,
{
    if n <= 0 {
        None
    } else if counts(dependencies[n - 1], uri) && dependencies[n - 1].id == id {
        Some(dependencies[n - 1].uri)
    } else {
        document_of(dependencies, uri, id, n - 1)
    }
}

fn find_document(dependencies: &Vec<ResolvedDependency>, uri: &str, id: &str) -> (r: Option<String>)
    ensures
        crate::uris::optional_text(r) == document_of(
            crate::sorting::views(dependencies@),
            uri@,
            id@,
            dependencies@.len() as int,
        ),
{
    let ghost all = crate::sorting::views(dependencies@);
    let mut n: usize = dependencies.len();
    while n > 0
        invariant
            n <= dependencies@.len(),
            all == crate::sorting::views(dependencies@),
            document_of(all, uri@, id@, dependencies@.len() as int) == document_of(
                all,
                uri@,
                id@,
                n as int,
            ),
        decreases n,
    {
        let dependency = &dependencies[n - 1];
        proof {
            assert(all[n - 1] == dependency@);
        }
        if !same_str(dependency.uri.as_str(), uri) && dependency.indexed && same_str(
            dependency.id.as_str(),
            id,
        ) {
            return Some(dependency.uri.clone());
        }
        n = n - 1;
    }
    None
}

/// An import and the source that it was resolved to.
#[derive(Debug)]
pub struct ImportBinding {
    pub name: String,
    pub target: Option<String>,
}

/// Which document each of the first `n` imports leads to.
pub open spec fn bindings_of(
    bindings: Seq<ImportBinding>,
    dependencies: Seq<DependencyView>,
    uri: Seq<char>,
    n: int,
) -> Map<Seq<char>, Seq<char>>
    decreases n,
{
    if n <= 0 {
        Map::empty()
    } else {
        let before = bindings_of(bindings, dependencies, uri, n - 1);
        match bindings[n - 1].target {
            Some(id) => match document_of(dependencies, uri, id@, dependencies.len() as int) {
                Some(document) => before.insert(bindings[n - 1].name@, document),
                None => before,
            },
            None => before,
        }
    }
}

/// Which document each import leads to.
pub fn bind_imports(
    bindings: &Vec<ImportBinding>,
    dependencies: &Vec<ResolvedDependency>,
    uri: &str,
) -> (r: StrMap<String>)
    ensures
        r.deep() == bindings_of(
            bindings@,
            crate::sorting::views(dependencies@),
            uri@,
            bindings@.len() as int,
        ),
{
    let ghost all = crate::sorting::views(dependencies@);
    let mut bound: StrMap<String> = StrMap::new();
    let mut i: usize = 0;
    proof {
        assert(bound.deep() =~= Map::empty());
    }
    while i < bindings.len()
        invariant
            i <= bindings@.len(),
            all == crate::sorting::views(dependencies@),
            bound.deep() == bindings_of(bindings@, all, uri@, i as int),
        decreases bindings@.len() - i,
    {
        if let Some(id) = &bindings[i].target {
            if let Some(document) = find_document(dependencies, uri, id.as_str()) {
                proof {
                    crate::strmap::lemma_deep_insert(bound@, bindings@[i as int].name@, document);
                }
                let _before = bound.insert(bindings[i].name.clone(), document);
            }
        }
        i += 1;
    }
    bound
}

/// The text occurs in the other.
pub open spec fn occurs(part: Seq<char>, s: Seq<char>) -> bool {
    exists|i: int|
        0 <= i && i + part.len() <= s.len() && #[trigger] s.subrange(i, i + part.len()) == part
}

fn matches_at(part: &Vec<char>, s: &Vec<char>, at: usize) -> (r: bool)
    requires
        at + part@.len() <= s@.len(),
    ensures
        r == (s@.subrange(at as int, at + part@.len()) == part@),
{
    let mut i: usize = 0;
    while i < part.len()
        invariant
            i <= part@.len(),
            at + part@.len() <= s@.len(),
            forall|j: int| 0 <= j < i ==> s@[at + j] == #[trigger] part@[j],
        decreases part@.len() - i,
    {
        proof {
            assert(s.len() == s@.len());
        }
        if s[at + i] != part[i] {
            proof {
                assert(s@.subrange(at as int, at + part@.len())[i as int] != part@[i as int]);
            }
            return false;
        }
        i += 1;
    }
    proof {
        assert(s@.subrange(at as int, at + part@.len()) =~= part@);
    }
    true
}

/// Whether the text occurs in the other.
pub fn text_occurs(part: &str, s: &str) -> (r: bool)
    ensures
        r == occurs(part@, s@),
{
    let needle = chars_of(part);
    let chars = chars_of(s);
    if needle.len() > chars.len() {
        return false;
    }
    let last: usize = chars.len() - needle.len();
    let mut i: usize = 0;
    while i < last
        invariant
            needle@ == part@,
            chars@ == s@,
            last + needle@.len() == chars@.len(),
            i <= last,
            forall|j: int| 0 <= j < i ==> #[trigger] s@.subrange(j, j + part@.len()) != part@,
        decreases last - i,
    {
        if matches_at(&needle, &chars, i) {
            proof {
                assert(s@.subrange(i as int, i + part@.len()) == part@);
            }
            return true;
        }
        i += 1;
    }
    matches_at(&needle, &chars, last)
}

/// The first of the warnings, from the `i`-th on, that speaks of something rejected.
pub open spec fn first_rejection(warnings: Seq<Seq<char>>, i: int) -> Option<Seq<char>>
    decreases warnings.len() - i,
{
    if i < 0 || i >= warnings.len() {
        None
    } else if occurs("rejected"@, lower(warnings[i])) {
        Some(warnings[i])
    } else {
        first_rejection(warnings, i + 1)
    }
}

/// Refuses dependencies of which one was rejected.
pub fn refuse_rejected(warnings: &Vec<String>) -> (r: Result<(), String>)
    ensures
        match r {
            Ok(_) => first_rejection(texts(warnings@), 0) is None,
            Err(text) => first_rejection(texts(warnings@), 0) is Some && text@
                == "required dependency was rejected: "@ + first_rejection(texts(warnings@), 0)->0,
        },
{
    let ghost list = texts(warnings@);
    let mut i: usize = 0;
    while i < warnings.len()
        invariant
            i <= warnings@.len(),
            list == texts(warnings@),
            first_rejection(list, 0) == first_rejection(list, i as int),
        decreases warnings@.len() - i,
    {
        proof {
            assert(list[i as int] == warnings@[i as int]@);
        }
        if text_occurs("rejected", to_lower(warnings[i].as_str()).as_str()) {
            return Err(concat("required dependency was rejected: ", warnings[i].as_str()));
        }
        i += 1;
    }
    Ok(())
}

} // verus!
