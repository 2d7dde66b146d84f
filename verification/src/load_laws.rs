//! Which sources are loaded, under which entry, and what they lead to.

use vstd::prelude::*;

use crate::access::{
    analyzable, load_plan, read_plan, supported, under_sources, LegacyRoutes, ReadFacts,
};
use crate::documents::DocumentView;
use crate::excludes::{any_includes, WorkspaceRoot};
use crate::limits::ResourceLimits;
use crate::loading::{
    bindings_of, closed_load, dependencies_of, document_of, limits_told, load_start, routes_to,
    ClosedStep, DependencyView, ImportBinding, LoadStepView,
};
use crate::navigation::{newly_met, next_round, taken, FrontierView, MAX_DEPENDENCY_WORK};
use crate::paths::{parent_of, starts_with, Parts};
use crate::project::{
    explicit_entry_from, nearest_entry, own_entry, path_entry, DiskStamp, EntryView, KeyView,
    PathEntry, ProjectContext, ProvenanceView,
};
use crate::sources::{file_limit_text, over_bytes, over_files, total_limit_text, SourcesView};
use crate::strmap::{in_order, lemma_finite_set_has_order};
use crate::unit_laws::lemma_told;
use crate::uris::{normal, uri_path};
use crate::warnings::{warned_with, MAX_WORKSPACE_WARNINGS};

verus! {

/// Of the entries that a path lies under, the one with the longest path is taken, and of
/// several the last. None is taken only where the path lies under none.
pub proof fn law_the_nearest_entry_is_taken(entries: Seq<PathEntry>, path: Parts, n: int)
    requires
        0 <= n <= entries.len(),
    ensures
        nearest_entry(entries, path, n) is None <==> forall|i: int|
            0 <= i < n ==> !starts_with(path, (#[trigger] entries[i])@.path),
        nearest_entry(entries, path, n) is Some ==> exists|k: int|
            0 <= k < n && nearest_entry(entries, path, n) == Some(#[trigger] entries[k]@)
                && starts_with(path, entries[k]@.path) && forall|i: int|
                0 <= i < n && starts_with(path, (#[trigger] entries[i])@.path)
                    ==> entries[i]@.path.len() < entries[k]@.path.len() || (entries[i]@.path.len()
                    == entries[k]@.path.len() && i <= k),
    decreases n,
{
    if n > 0 {
        law_the_nearest_entry_is_taken(entries, path, n - 1);
        let before = nearest_entry(entries, path, n - 1);
        let here = entries[n - 1]@;
        if starts_with(path, here.path) && (before is None || here.path.len()
            >= before->0.path.len()) {
            assert(nearest_entry(entries, path, n) == Some(entries[n - 1]@));
        } else if before is Some {
            let k = choose|k: int|
                0 <= k < n - 1 && nearest_entry(entries, path, n - 1) == Some(
                    #[trigger] entries[k]@,
                ) && starts_with(path, entries[k]@.path) && forall|i: int|
                    0 <= i < n - 1 && starts_with(path, (#[trigger] entries[i])@.path)
                        ==> entries[i]@.path.len() < entries[k]@.path.len() || (
                    entries[i]@.path.len() == entries[k]@.path.len() && i <= k);
            assert(nearest_entry(entries, path, n) == Some(entries[k]@));
        }
    }
}

proof fn lemma_explicit(entries: Seq<(String, PathEntry)>, path: Parts, i: int)
    requires
        0 <= i <= entries.len(),
    ensures
        explicit_entry_from(entries, path, i) is None <==> forall|k: int|
            i <= k < entries.len() ==> (#[trigger] entries[k]).1.path@ != path,
        explicit_entry_from(entries, path, i) is Some ==> exists|k: int|
            i <= k < entries.len() && explicit_entry_from(entries, path, i) == Some(
                (#[trigger] entries[k]).1@,
            ) && entries[k].1.path@ == path,
    decreases entries.len() - i,
{
    if i < entries.len() {
        lemma_explicit(entries, path, i + 1);
        if entries[i].1.path@ != path && explicit_entry_from(entries, path, i + 1) is Some {
            let k = choose|k: int|
                i + 1 <= k < entries.len() && explicit_entry_from(entries, path, i + 1) == Some(
                    (#[trigger] entries[k]).1@,
                ) && entries[k].1.path@ == path;
            assert(explicit_entry_from(entries, path, i) == Some(entries[k].1@));
        }
    }
}

/// A path is read under an entry of its own where the project has one, as its main source or
/// as one of its units; else under the nearest search path that it lies under; else as the read
/// policy says. The entry is that of the path, however it came to be.
pub proof fn law_what_a_path_is_read_under(
    context: ProjectContext,
    path: Parts,
    policy: Option<EntryView>,
)
    ensures
        ({
            let main = context.main_source_entry is Some && context.main_source_entry->0.path@
                == path;
            let listed = exists|k: int|
                0 <= k < context.explicit_unit_entries@.len() && (
                #[trigger] context.explicit_unit_entries@[k]).1.path@ == path;
            let searched = exists|k: int|
                0 <= k < context.search_path_entries@.len() && starts_with(
                    path,
                    (#[trigger] context.search_path_entries@[k])@.path,
                );
            let entry = path_entry(context, path, policy);
            &&& own_entry(context, path) is Some <==> main || listed
            &&& main ==> entry == Some(
                EntryView { path, provenance: context.main_source_entry->0@.provenance },
            )
            &&& main || listed || searched ==> entry is Some && entry->0.path == path
            &&& !main && !listed && !searched ==> entry == policy
        }),
{
    lemma_explicit(context.explicit_unit_entries@, path, 0);
    law_the_nearest_entry_is_taken(
        context.search_path_entries@,
        path,
        context.search_path_entries@.len() as int,
    );
}

/// A source may be read in a context exactly where it is one that is analysed and: nothing leads
/// to it but the file system, which then has to be allowed and has to lead to it; or an entry
/// does, and the path is allowed and, below the workspace's sources, not left out of them unless
/// by a mapping.
pub proof fn law_where_a_source_may_be_read(
    roots: Seq<WorkspaceRoot>,
    path: Parts,
    context: ProjectContext,
    facts: ReadFacts,
    mapped: bool,
    legacy_route: bool,
)
    ensures
        ({
            let entry = path_entry(context, path, facts.entry());
            let native = entry is Some && entry->0.provenance is LegacyNative;
            let own = own_entry(context, path);
            let by_file_system = if entry is None {
                legacy_route
            } else {
                native && (legacy_route || (own is Some && own->0.provenance is LegacyNative))
            };
            let outside = !under_sources(roots, path);
            &&& !analyzable(path) ==> !supported(roots, path, context, facts, mapped, legacy_route)
            &&& analyzable(path) && by_file_system ==> supported(
                roots,
                path,
                context,
                facts,
                mapped,
                legacy_route,
            ) == facts.legacy_allowed
            &&& entry is None && !legacy_route ==> !supported(
                roots,
                path,
                context,
                facts,
                mapped,
                legacy_route,
            )
            &&& analyzable(path) && entry is Some && !by_file_system ==> (supported(
                roots,
                path,
                context,
                facts,
                mapped,
                legacy_route,
            ) <==> facts.path_allowed && (outside || any_includes(roots, normal(path)) || (
            entry->0.provenance is Mapped && mapped)))
        }),
{
}

/// A closed document is read under the entry that the context has for it, or, without one, only
/// because the file system leads to it. Its text is taken as such a one's exactly where the file
/// system is all that leads to it.
pub proof fn law_how_a_closed_document_is_read(
    context: ProjectContext,
    path: Parts,
    policy: Option<EntryView>,
    legacy_route: bool,
)
    ensures
        ({
            let plan = read_plan(context, path, policy, legacy_route);
            let entry = path_entry(context, path, policy);
            let own = own_entry(context, path);
            &&& plan is None <==> entry is None && !legacy_route
            &&& entry is Some ==> plan->0.entry == entry->0
            &&& entry is None && plan is Some ==> plan->0.entry == (EntryView {
                path,
                provenance: ProvenanceView::LegacyNative,
            }) && plan->0.legacy_payload
            &&& entry is Some && !(entry->0.provenance is LegacyNative) ==> !plan->0.legacy_payload
            &&& entry is Some && entry->0.provenance is LegacyNative ==> (plan->0.legacy_payload
                <==> legacy_route || (own is Some && own->0.provenance is LegacyNative))
        }),
{
}

/// A source is loaded exactly where something leads to it and it may be read: where an entry
/// has it or the file system leads to it, as a neighbour, by a search path or because it is
/// known. A route is granted exactly to a neighbour and to what a search path leads to, where no
/// entry of the project restricts it.
pub proof fn law_when_a_source_is_loaded(
    roots: Seq<WorkspaceRoot>,
    context: ProjectContext,
    path: Parts,
    facts: ReadFacts,
    mapped: bool,
    routes: LegacyRoutes,
)
    ensures
        ({
            let plan = load_plan(roots, context, path, facts, mapped, routes);
            let entry = path_entry(context, path, facts.entry());
            let own = own_entry(context, path);
            let led = routes.sibling || routes.search_path || routes.known;
            let native = entry is None || entry->0.provenance is LegacyNative;
            let granted = (routes.sibling || routes.search_path) && native && own is None;
            let by_file_system = native && (routes.search_path || routes.known || granted || (own
                is Some && own->0.provenance is LegacyNative));
            &&& entry is None && !led ==> plan is None
            &&& entry is Some || led ==> {
                &&& by_file_system ==> (plan is Some <==> facts.legacy_allowed)
                &&& !by_file_system && native && entry is Some ==> (plan is Some <==> supported(
                    roots,
                    path,
                    context,
                    facts,
                    mapped,
                    false,
                ))
                &&& plan is Some ==> plan->0.legacy_payload == by_file_system
                    && plan->0.route_granted == granted
            }
            &&& entry is Some && plan is Some ==> plan->0.entry == entry->0
        }),
{
}

/// The first step of loading a source: what has no file, what is not analysed, and what may not
/// be read is passed over, and said to be. An open document is used as the client has it: one
/// that was refused ends the work, one that is indexed is used, and one that is not is indexed
/// with its text. A closed one is looked at on disk.
pub proof fn law_open_documents_are_loaded_as_the_client_has_them(
    v: SourcesView,
    open: Map<Seq<char>, DocumentView>,
    roots: Seq<WorkspaceRoot>,
    uri: Seq<char>,
    key: KeyView,
    facts: ReadFacts,
    mapped: bool,
    sibling: Option<Parts>,
    search_path: bool,
)
    ensures
        ({
            let (step, said) = load_start(
                v,
                open,
                roots,
                uri,
                key,
                facts,
                mapped,
                sibling,
                search_path,
            );
            let path = uri_path(uri);
            let known = v.store.contexts.contains_key(key);
            let plan = load_plan(
                roots,
                *v.store.contexts[key].context,
                path->0,
                facts,
                mapped,
                routes_to(v.store, uri, path->0, key, sibling, search_path),
            );
            let may = path is Some && analyzable(path->0) && known && plan is Some;
            &&& !may ==> step == LoadStepView::Skip
            &&& said is Some <==> path is None || !analyzable(path->0) || (known && plan is None)
            &&& may && !open.contains_key(uri) ==> step == LoadStepView::Stat(plan->0)
            &&& may && open.contains_key(uri) && open[uri].rejection is Some ==> step is Fail
            &&& may && open.contains_key(uri) && open[uri].rejection is None
                && open[uri].text is Some ==> step == (if v.sizes.contains_key(uri) {
                LoadStepView::UseOpen(plan->0)
            } else {
                LoadStepView::IndexOpen(plan->0, open[uri].text->0)
            })
            &&& step is Fail ==> may && open.contains_key(uri) && open[uri].rejection is Some
        }),
{
}

/// A neighbour leads to a source in the same directory, and only there.
pub proof fn law_neighbours_lie_in_one_directory(
    v: SourcesView,
    uri: Seq<char>,
    path: Parts,
    key: KeyView,
    sibling: Option<Parts>,
    search_path: bool,
)
    ensures
        ({
            let routes = routes_to(v.store, uri, path, key, sibling, search_path);
            let owners = v.store.owners;
            &&& routes.sibling <==> sibling is Some && parent_of(path) == sibling
            &&& routes.search_path == search_path
            &&& routes.known ==> owners.contains_key(uri) && owners[uri].key == key
                && owners[uri].legacy_route is Some && owners[uri].legacy_route->0.source == path
                && owners[uri].legacy_route->0.context == key
        }),
{
}

/// A closed source whose file is gone is forgotten, and so is one whose file is still what it
/// was when it was deleted. One that did not change since it was indexed is used as it is, and
/// every other is read.
pub proof fn law_a_closed_source_is_read_where_it_changed(
    v: SourcesView,
    deleted: Map<Seq<char>, Option<DiskStamp>>,
    uri: Seq<char>,
    now: Option<DiskStamp>,
)
    ensures
        now is None ==> closed_load(v, deleted, uri, now) == ClosedStep::Forget,
        now is Some && deleted.contains_key(uri) && deleted[uri] == now ==> closed_load(
            v,
            deleted,
            uri,
            now,
        ) == ClosedStep::Forget,
        now is Some && !(deleted.contains_key(uri) && deleted[uri] == now) ==> (closed_load(
            v,
            deleted,
            uri,
            now,
        ) == ClosedStep::Use <==> v.sizes.contains_key(uri) && v.stamps.contains_key(uri)
            && v.stamps[uri] == now->0),
        closed_load(v, deleted, uri, now) == ClosedStep::Forget ==> now is None
            || deleted.contains_key(uri),
{
}

/// The dependencies of a source are the other indexed sources among those it uses, each once.
pub proof fn law_dependencies_are_other_indexed_sources(
    dependencies: Seq<DependencyView>,
    uri: Seq<char>,
    n: int,
)
    requires
        0 <= n <= dependencies.len(),
    ensures
        dependencies_of(dependencies, uri, n).no_duplicates(),
        forall|i: int|
            0 <= i < n && (#[trigger] dependencies[i]).uri != uri && dependencies[i].indexed
                ==> dependencies_of(dependencies, uri, n).contains(dependencies[i].uri),
        forall|k: int|
            0 <= k < dependencies_of(dependencies, uri, n).len() ==> uri
                != #[trigger] dependencies_of(dependencies, uri, n)[k] && is_used(
                dependencies,
                dependencies_of(dependencies, uri, n)[k],
            ),
    decreases n,
{
    if n > 0 {
        law_dependencies_are_other_indexed_sources(dependencies, uri, n - 1);
        let before = dependencies_of(dependencies, uri, n - 1);
        let after = dependencies_of(dependencies, uri, n);
        let last = dependencies[n - 1];
        assert forall|i: int|
            0 <= i < n && (#[trigger] dependencies[i]).uri != uri && dependencies[i].indexed implies after.contains(
        dependencies[i].uri) by {
            if before.contains(dependencies[i].uri) {
                let k = choose|k: int|
                    0 <= k < before.len() && before[k] == dependencies[i].uri;
                assert(after[k] == dependencies[i].uri);
            } else {
                assert(i == n - 1);
                assert(after[before.len() as int] == dependencies[i].uri);
            }
        }
        assert forall|k: int| 0 <= k < after.len() implies uri != #[trigger] after[k] && is_used(
            dependencies,
            after[k],
        ) by {
            if k < before.len() {
                assert(after[k] == before[k]);
            } else {
                assert(dependencies[n - 1].indexed && dependencies[n - 1].uri == after[k]);
            }
        }
    }
}

/// An indexed source of the URI is used.
pub open spec fn is_used(dependencies: Seq<DependencyView>, uri: Seq<char>) -> bool {
    exists|i: int|
        0 <= i < dependencies.len() && (#[trigger] dependencies[i]).uri == uri
            && dependencies[i].indexed
}

proof fn lemma_document_of(
    dependencies: Seq<DependencyView>,
    uri: Seq<char>,
    id: Seq<char>,
    n: int,
)
    requires
        0 <= n <= dependencies.len(),
    ensures
        document_of(dependencies, uri, id, n) is None <==> forall|i: int|
            0 <= i < n ==> !((#[trigger] dependencies[i]).id == id && dependencies[i].uri != uri
                && dependencies[i].indexed),
        document_of(dependencies, uri, id, n) is Some ==> exists|i: int|
            0 <= i < n && (#[trigger] dependencies[i]).id == id && dependencies[i].uri != uri
                && dependencies[i].indexed && document_of(dependencies, uri, id, n) == Some(
                dependencies[i].uri,
            ),
    decreases n,
{
    if n > 0 {
        lemma_document_of(dependencies, uri, id, n - 1);
        if !(dependencies[n - 1].id == id && dependencies[n - 1].uri != uri
            && dependencies[n - 1].indexed) && document_of(dependencies, uri, id, n - 1) is Some {
            let i = choose|i: int|
                0 <= i < n - 1 && (#[trigger] dependencies[i]).id == id && dependencies[i].uri
                    != uri && dependencies[i].indexed && document_of(dependencies, uri, id, n - 1)
                    == Some(dependencies[i].uri);
            assert(dependencies[i].id == id);
        }
    }
}

/// An import is bound to a document exactly where one of the bindings of its name leads to
/// another indexed source, and the document is such a one.
pub proof fn law_imports_are_bound_to_what_they_lead_to(
    bindings: Seq<ImportBinding>,
    dependencies: Seq<DependencyView>,
    uri: Seq<char>,
    n: int,
    name: Seq<char>,
)
    requires
        0 <= n <= bindings.len(),
    ensures
        bindings_of(bindings, dependencies, uri, n).contains_key(name) <==> exists|k: int|
            0 <= k < n && #[trigger] is_bound(bindings[k], dependencies, uri, name),
        bindings_of(bindings, dependencies, uri, n).contains_key(name) ==> exists|k: int, i: int|
            0 <= k < n && 0 <= i < dependencies.len() && #[trigger] leads_to(
                bindings[k],
                dependencies[i],
                uri,
                name,
            ) && bindings_of(bindings, dependencies, uri, n)[name] == dependencies[i].uri,
    decreases n,
{
    if n > 0 {
        law_imports_are_bound_to_what_they_lead_to(bindings, dependencies, uri, n - 1, name);
        let before = bindings_of(bindings, dependencies, uri, n - 1);
        let after = bindings_of(bindings, dependencies, uri, n);
        let last = bindings[n - 1];
        if last.target is Some {
            lemma_document_of(dependencies, uri, last.target->0@, dependencies.len() as int);
        }
        let here = last.name@ == name && last.target is Some && document_of(
            dependencies,
            uri,
            last.target->0@,
            dependencies.len() as int,
        ) is Some;
        if here {
            let i = choose|i: int|
                0 <= i < dependencies.len() && (#[trigger] dependencies[i]).id == last.target->0@
                    && dependencies[i].uri != uri && dependencies[i].indexed && document_of(
                    dependencies,
                    uri,
                    last.target->0@,
                    dependencies.len() as int,
                ) == Some(dependencies[i].uri);
            assert(leads_to(bindings[n - 1], dependencies[i], uri, name));
            assert(is_bound(bindings[n - 1], dependencies, uri, name));
        } else {
            assert(!is_bound(bindings[n - 1], dependencies, uri, name)) by {
                if is_bound(bindings[n - 1], dependencies, uri, name) {
                    let i = choose|i: int|
                        0 <= i < dependencies.len() && #[trigger] leads_to(
                            last,
                            dependencies[i],
                            uri,
                            name,
                        );
                    assert(dependencies[i].id == last.target->0@);
                }
            }
            assert(after.contains_key(name) == before.contains_key(name));
            if before.contains_key(name) {
                assert(after[name] == before[name]);
                let (k, i) = choose|k: int, i: int|
                    0 <= k < n - 1 && 0 <= i < dependencies.len() && #[trigger] leads_to(
                        bindings[k],
                        dependencies[i],
                        uri,
                        name,
                    ) && before[name] == dependencies[i].uri;
                assert(leads_to(bindings[k], dependencies[i], uri, name));
                assert(is_bound(bindings[k], dependencies, uri, name));
            }
            if exists|k: int|
                0 <= k < n && #[trigger] is_bound(bindings[k], dependencies, uri, name) {
                let k = choose|k: int|
                    0 <= k < n && #[trigger] is_bound(bindings[k], dependencies, uri, name);
                assert(k < n - 1);
            }
        }
    }
}

/// A binding leads from a name to another indexed source.
pub open spec fn leads_to(
    binding: ImportBinding,
    dependency: DependencyView,
    uri: Seq<char>,
    name: Seq<char>,
) -> bool {
    &&& binding.name@ == name
    &&& binding.target is Some && binding.target->0@ == dependency.id
    &&& dependency.uri != uri
    &&& dependency.indexed
}

/// A binding leads from a name to one of the sources.
pub open spec fn is_bound(
    binding: ImportBinding,
    dependencies: Seq<DependencyView>,
    uri: Seq<char>,
    name: Seq<char>,
) -> bool {
    exists|i: int|
        0 <= i < dependencies.len() && #[trigger] leads_to(binding, dependencies[i], uri, name)
}

/// While there is work left, the next source of a round is the first that was not visited. It
/// counts as visited then, and its work as done. Nothing comes only where all that is left of
/// the round was visited or no more work may be done.
pub proof fn law_each_source_of_a_round_comes_once(v: FrontierView)
    requires
        0 <= v.at <= v.frontier.len(),
    ensures
        ({
            let (after, next) = taken(v);
            &&& next is Some ==> {
                &&& v.work < MAX_DEPENDENCY_WORK
                &&& v.at < after.at <= v.frontier.len()
                &&& v.frontier[after.at - 1] == next->0
                &&& !v.visited.contains(next->0)
                &&& after.visited == v.visited.insert(next->0)
                &&& after.work == v.work + 1
                &&& forall|i: int|
                    v.at <= i < after.at - 1 ==> v.visited.contains(#[trigger] v.frontier[i])
            }
            &&& next is None ==> {
                &&& after.visited == v.visited && after.work == v.work
                &&& v.work >= MAX_DEPENDENCY_WORK || forall|i: int|
                    v.at <= i < v.frontier.len() ==> v.visited.contains(#[trigger] v.frontier[i])
            }
            &&& after.frontier == v.frontier && after.next == v.next && after.initialized
                == v.initialized
        }),
    decreases v.frontier.len() - v.at,
{
    if v.at < v.frontier.len() && v.work < MAX_DEPENDENCY_WORK && v.visited.contains(
        v.frontier[v.at],
    ) {
        law_each_source_of_a_round_comes_once(FrontierView { at: v.at + 1, ..v });
    }
}

/// Of the dependencies of a source those are new that were not met before, each once.
pub proof fn law_dependencies_are_met_once(
    initialized: Set<Seq<char>>,
    dependencies: Seq<Seq<char>>,
    n: int,
)
    requires
        0 <= n <= dependencies.len(),
    ensures
        newly_met(initialized, dependencies, n).no_duplicates(),
        forall|k: int|
            0 <= k < newly_met(initialized, dependencies, n).len() ==> !initialized.contains(
                #[trigger] newly_met(initialized, dependencies, n)[k],
            ) && dependencies.take(n).contains(newly_met(initialized, dependencies, n)[k]),
        forall|i: int|
            0 <= i < n && !initialized.contains(#[trigger] dependencies[i]) ==> newly_met(
                initialized,
                dependencies,
                n,
            ).contains(dependencies[i]),
    decreases n,
{
    if n > 0 {
        law_dependencies_are_met_once(initialized, dependencies, n - 1);
        let before = newly_met(initialized, dependencies, n - 1);
        let after = newly_met(initialized, dependencies, n);
        let last = dependencies[n - 1];
        let fore = dependencies.take(n - 1);
        let whole = dependencies.take(n);
        assert forall|x: Seq<char>| fore.contains(x) implies #[trigger] whole.contains(x) by {
            let k = choose|k: int| 0 <= k < fore.len() && fore[k] == x;
            assert(whole[k] == x);
        }
        assert(whole[n - 1] == last);
        assert forall|k: int| 0 <= k < after.len() implies !initialized.contains(
            #[trigger] after[k],
        ) && whole.contains(after[k]) by {
            if k < before.len() {
                assert(after[k] == before[k]);
                assert(fore.contains(before[k]));
            } else {
                assert(after[k] == last);
            }
        }
        if !initialized.contains(last) && !fore.contains(last) {
            assert(after == before.push(last));
            assert forall|i: int, j: int| 0 <= i < after.len() && 0 <= j < after.len() && i
                != j implies after[i] != after[j] by {
                if i < before.len() {
                    assert(fore.contains(before[i]));
                }
                if j < before.len() {
                    assert(fore.contains(before[j]));
                }
            }
        }
        assert forall|i: int| 0 <= i < n && !initialized.contains(#[trigger] dependencies[i]) implies after.contains(
        dependencies[i]) by {
            if i < n - 1 || fore.contains(last) {
                let j = if i < n - 1 {
                    i
                } else {
                    choose|j: int| 0 <= j < fore.len() && fore[j] == last
                };
                assert(dependencies[j] == dependencies[i]);
                assert(before.contains(dependencies[j]));
                let k = choose|k: int| 0 <= k < before.len() && before[k] == dependencies[j];
                assert(after[k] == dependencies[i]);
            } else {
                assert(after[before.len() as int] == dependencies[i]);
            }
        }
    }
}

/// The round that follows holds exactly what the one before led to and what was not visited.
pub proof fn law_the_next_round_holds_what_is_left(v: FrontierView, uri: Seq<char>)
    requires
        v.next.finite(),
    ensures
        next_round(v).frontier.contains(uri) <==> v.next.contains(uri) && !v.visited.contains(uri),
        next_round(v).at == 0,
        next_round(v).visited == v.visited,
        next_round(v).work == v.work,
        !next_round(v).next.contains(uri),
{
    let left = v.next.difference(v.visited);
    assert(left.subset_of(v.next));
    vstd::set_lib::lemma_set_subset_finite(v.next, left);
    lemma_finite_set_has_order(left);
    assert(in_order(left).to_set().contains(uri) <==> left.contains(uri));
}

/// That a limit was reached is told exactly where it was and was not told before, and nothing
/// else is told.
pub proof fn law_a_limit_is_told_when_it_is_reached_first(
    before: SourcesView,
    log: Seq<Seq<char>>,
    after: SourcesView,
    uri: Seq<char>,
    size: usize,
    limits: ResourceLimits,
    message: Seq<char>,
)
    requires
        log.len() + 1 < MAX_WORKSPACE_WARNINGS,
    ensures
        limits_told(before, log, after, uri, size, limits).contains(message) <==> log.contains(
            message,
        ) || (message == file_limit_text(limits.max_files, uri) && over_files(after, uri, limits)
            && !before.file_cap_warning_sent) || (message == total_limit_text(
            limits.max_total_bytes,
            uri,
        ) && over_bytes(after, uri, size, 0, limits) && !before.total_cap_warning_sent),
{
    let first = file_limit_text(limits.max_files, uri);
    let second = total_limit_text(limits.max_total_bytes, uri);
    lemma_told(log, first);
    lemma_told(log, second);
    lemma_told(warned_with(log, first), second);
}

} // verus!
