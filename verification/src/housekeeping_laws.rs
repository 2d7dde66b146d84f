//! What is noted of documents, owners and files beside the work itself.

use vstd::prelude::*;

use crate::access::folder_at;
use crate::conditional::ConditionalFact;
use crate::contexts::{
    kept_route, law_owners_are_bounded, tick, with_owner, OwnerOrigin, OwnerView, StoreView,
    MAX_DOCUMENT_OWNERS,
};
use crate::deleted::{deleted_paths, snapshot_of, without_case_repeats};
use crate::documents::DocumentView;
use crate::events::metadata_owners;
use crate::excludes::WorkspaceRoot;
use crate::installation::{merged_metadata, metadata_place, project_directory_of, unknown_of};
use crate::lifecycle::{ready_to_open, renames_after_close};
use crate::lint::symbols_of;
use crate::loading::{first_rejection, occurs};
use crate::names::{flat, with_configuration_of_all, FORMAT_CONFIG_NAME, LINT_CONFIG_NAME};
use crate::path_laws::law_case_does_not_tell_paths_apart;
use crate::paths::{equal_ci, joined, parent_of, parse_parts, FilePath, Parts};
use crate::picks::{lemma_none_picked, lemma_picked, picked};
use crate::project::{EntryView, KeyView, MetadataView, PathEntry, ProjectContext, ProvenanceView};
use crate::reconfigure::with_live_files;
use crate::sorting::{law_sorting_orders_and_keeps, sorted_list};
use crate::source_laws::hangs_on;
use crate::sources::watching;
use crate::strings::lower;
use crate::strmap::{in_order, lemma_finite_set_has_order};
use crate::units::{entry_of_root, search_entry};
use crate::uris::uri_path;
use crate::workspace::{no_room_reason, WorkspaceView};

verus! {

proof fn lemma_pushed<A>(list: Seq<A>, last: A, item: A)
    ensures
        list.push(last).contains(item) <==> list.contains(item) || item == last,
{
    let more = list.push(last);
    if list.contains(item) {
        let i = choose|i: int| 0 <= i < list.len() && list[i] == item;
        assert(more[i] == item);
    }
    if item == last {
        assert(more[list.len() as int] == item);
    }
    if more.contains(item) && item != last {
        let i = choose|i: int| 0 <= i < more.len() && more[i] == item;
        assert(list[i] == item);
    }
}

/// A document that comes to an owner has it from then on, while it is open: the owner is of the
/// context, with its state and as it came to be, and it does not have to be looked at again. A
/// route that was known stays only in the same context. A context that is not known changes
/// nothing.
pub proof fn law_a_document_comes_to_its_owner(
    store: StoreView,
    open: Map<Seq<char>, DocumentView>,
    uri: Seq<char>,
    key: KeyView,
    origin: OwnerOrigin,
    clock: u64,
)
    requires
        store.owners.dom().finite(),
        open.dom().finite(),
        open.dom().len() <= MAX_DOCUMENT_OWNERS,
        open.contains_key(uri),
    ensures
        ({
            let after = with_owner(store, open, uri, key, origin, clock);
            let route = store.owners[uri].legacy_route;
            let stays = store.owners.contains_key(uri) && store.owners[uri].key == key && route is Some
                && route->0.context == key;
            &&& !store.contexts.contains_key(key) ==> after == store
            &&& store.contexts.contains_key(key) ==> {
                &&& after.owners.contains_key(uri)
                &&& after.owners[uri].key == key && after.owners[uri].origin == origin
                &&& after.owners[uri].state == store.contexts[key]
                &&& !after.owners[uri].needs_revalidation
                &&& !after.owners[uri].follow_current_project_file
                &&& after.owners[uri].legacy_route == (if stays {
                    route
                } else {
                    None
                })
                &&& after.owners.dom().len() <= MAX_DOCUMENT_OWNERS
            }
        }),
{
    if store.contexts.contains_key(key) {
        let placed = StoreView {
            owners: store.owners.insert(
                uri,
                OwnerView {
                    key,
                    state: store.contexts[key],
                    origin,
                    needs_revalidation: false,
                    follow_current_project_file: false,
                    legacy_route: kept_route(store, uri, key),
                },
            ),
            owner_last_used: store.owner_last_used.insert(uri, tick(clock)),
            ..store
        };
        assert(placed.owners.dom() =~= store.owners.dom().insert(uri));
        law_owners_are_bounded(placed, open, placed.owners.dom().len());
        assert(placed.owners.contains_key(uri));
    }
}

proof fn lemma_deleted_paths(uris: Seq<Seq<char>>, n: int, path: Parts)
    requires
        0 <= n <= uris.len(),
    ensures
        deleted_paths(uris, n).contains(path) <==> exists|i: int|
            0 <= i < n && uri_path(#[trigger] uris[i]) == Some(path),
    decreases n,
{
    if n > 0 {
        lemma_deleted_paths(uris, n - 1, path);
        if uri_path(uris[n - 1]) is Some {
            lemma_pushed(deleted_paths(uris, n - 1), uri_path(uris[n - 1])->0, path);
        }
        if exists|i: int| 0 <= i < n && uri_path(#[trigger] uris[i]) == Some(path) {
            let i = choose|i: int| 0 <= i < n && uri_path(#[trigger] uris[i]) == Some(path);
            if i < n - 1 {
                assert(uri_path(uris[i]) == Some(path));
            }
        }
        if uri_path(uris[n - 1]) == Some(path) {
            assert(exists|i: int| 0 <= i < n && uri_path(#[trigger] uris[i]) == Some(path));
        }
    }
}

proof fn lemma_case_repeats(paths: Seq<Parts>, n: int)
    requires
        0 <= n <= paths.len(),
    ensures
        forall|i: int| 0 <= i < n ==> is_kept(without_case_repeats(paths, n), #[trigger] paths[i]),
        forall|k: int|
            0 <= k < without_case_repeats(paths, n).len() ==> paths.contains(
                #[trigger] without_case_repeats(paths, n)[k],
            ),
    decreases n,
{
    if n > 0 {
        lemma_case_repeats(paths, n - 1);
        let before = without_case_repeats(paths, n - 1);
        let after = without_case_repeats(paths, n);
        let last = paths[n - 1];
        law_case_does_not_tell_paths_apart(last, last, last);
        assert forall|i: int| 0 <= i < n implies is_kept(after, #[trigger] paths[i]) by {
            if i < n - 1 {
                assert(is_kept(before, paths[i]));
                let k = choose|k: int|
                    0 <= k < before.len() && equal_ci(#[trigger] before[k], paths[i]);
                assert(after[k] == before[k]);
                assert(equal_ci(after[k], paths[i]));
            } else if before.len() > 0 && equal_ci(before.last(), last) {
                assert(equal_ci(after[before.len() - 1], paths[i]));
            } else {
                assert(after[before.len() as int] == last);
                assert(equal_ci(after[before.len() as int], paths[i]));
            }
        }
        assert forall|k: int| 0 <= k < after.len() implies paths.contains(#[trigger] after[k]) by {
            if k < before.len() {
                assert(after[k] == before[k]);
            } else {
                assert(after[k] == last);
            }
        }
    }
}

/// A path is among others, whatever its case.
pub open spec fn is_kept(paths: Seq<Parts>, path: Parts) -> bool {
    exists|k: int| 0 <= k < paths.len() && equal_ci(#[trigger] paths[k], path)
}

/// The paths of the deleted files are those of all that count as deleted, whatever their case,
/// and of no others.
pub proof fn law_the_deleted_files_are_named(
    deleted: Map<Seq<char>, Option<crate::project::DiskStamp>>,
    uri: Seq<char>,
    k: int,
)
    requires
        deleted.dom().finite(),
    ensures
        deleted.contains_key(uri) && uri_path(uri) is Some ==> is_kept(
            snapshot_of(deleted),
            uri_path(uri)->0,
        ),
        0 <= k < snapshot_of(deleted).len() ==> exists|u: Seq<char>| #[trigger]
            deleted.contains_key(u) && uri_path(u) == Some(snapshot_of(deleted)[k]),
{
    let uris = in_order(deleted.dom());
    let all = deleted_paths(uris, uris.len() as int);
    let sorted = sorted_list::<FilePath>(all);
    lemma_finite_set_has_order(deleted.dom());
    law_sorting_orders_and_keeps::<FilePath>(all);
    lemma_case_repeats(sorted, sorted.len() as int);
    if deleted.contains_key(uri) && uri_path(uri) is Some {
        let path = uri_path(uri)->0;
        lemma_deleted_paths(uris, uris.len() as int, path);
        assert(uris.to_set().contains(uri));
        assert(uris.contains(uri));
        let i = choose|i: int| 0 <= i < uris.len() && uris[i] == uri;
        assert(uri_path(uris[i]) == Some(path));
        assert(all.contains(path));
        assert(sorted.contains(path));
        let j = choose|j: int| 0 <= j < sorted.len() && sorted[j] == path;
        assert(is_kept(without_case_repeats(sorted, sorted.len() as int), sorted[j]));
    }
    if 0 <= k < snapshot_of(deleted).len() {
        let path = snapshot_of(deleted)[k];
        assert(sorted.contains(path));
        assert(all.contains(path));
        lemma_deleted_paths(uris, uris.len() as int, path);
        let i = choose|i: int| 0 <= i < uris.len() && uri_path(#[trigger] uris[i]) == Some(path);
        assert(uris.to_set().contains(uris[i]));
        assert(deleted.dom().contains(uris[i]));
        assert(deleted.contains_key(uris[i]));
    }
}

/// The documents to diagnose again for a changed file are the open ones with a text that hang
/// on a context which watches it.
pub proof fn law_which_documents_a_watched_file_concerns(
    ws: WorkspaceView,
    uri: Seq<char>,
    document: Seq<char>,
    key: KeyView,
)
    requires
        ws.sources.store.document_contexts.dom().finite(),
        ws.sources.store.open_document_contexts.dom().finite(),
    ensures
        uri_path(uri) is None ==> !metadata_owners(ws, uri).contains(document),
        uri_path(uri) is Some ==> (metadata_owners(ws, uri).contains(document) <==> hangs_on(
            ws.sources,
            watching(ws.sources.store, uri_path(uri)->0),
            ws.documents,
            document,
        ) && ws.documents.contains_key(document) && ws.documents[document].text is Some),
{
    if uri_path(uri) is Some {
        crate::source_laws::law_contexts_go_with_what_hangs_on_them(
            ws.sources,
            watching(ws.sources.store, uri_path(uri)->0),
            ws.documents,
            document,
            key,
        );
    }
}

/// That a document was closed as planned is noted with its rename exactly where it has the
/// planned text, is the document for which that was planned, and is in a later version.
pub proof fn law_what_closing_notes_of_a_rename(ws: WorkspaceView, uri: Seq<char>, other: Seq<char>)
    requires
        other != uri,
    ensures
        ({
            let after = renames_after_close(ws, uri);
            let plan = ws.renames[uri];
            let document = ws.documents[uri];
            let planned = ws.documents.contains_key(uri) && ws.renames.contains_key(uri)
                && plan.expected_text is Some && document.text == plan.expected_text
                && document.rejection is None && plan.original_identity_generation == Some(
                document.identity_generation,
            ) && plan.original_version is Some && document.version > plan.original_version->0;
            &&& planned ==> after[uri].closed_verified_version == Some(document.version)
                && after[uri].new_uri == plan.new_uri && after[uri].expected_text
                == plan.expected_text
            &&& !planned ==> after == ws.renames
            &&& after.contains_key(other) == ws.renames.contains_key(other) && after[other]
                == ws.renames[other]
        }),
{
}

/// Before a document is opened, what was known of it from its file is forgotten, unless it is
/// open already, may not be opened, or was handed down over a mapping that still holds.
pub proof fn law_an_opened_document_starts_without_its_file(
    ws: WorkspaceView,
    uri: Seq<char>,
    mapped_readable: bool,
)
    ensures
        ({
            let after = ready_to_open(ws, uri, mapped_readable);
            let owners = ws.sources.store.owners;
            let handed_down = owners.contains_key(uri) && owners[uri].origin
                == OwnerOrigin::Inherited && mapped_readable;
            let admitted = crate::workspace::admitted(ws, uri);
            &&& ws.documents.contains_key(uri) || !admitted || handed_down ==> after == ws
            &&& !ws.documents.contains_key(uri) && admitted && !handed_down
                ==> !after.sources.store.owners.contains_key(uri)
                && !after.sources.store.document_contexts.contains_key(uri)
            &&& after.documents == ws.documents
        }),
{
}

proof fn lemma_metadata_place(list: Seq<MetadataView>, path: Parts, i: int)
    requires
        0 <= i <= list.len(),
    ensures
        metadata_place(list, path, i) is None <==> forall|k: int|
            i <= k < list.len() ==> (#[trigger] list[k]).path != path,
        metadata_place(list, path, i) is Some ==> i <= metadata_place(list, path, i)->0 < list.len()
            && list[metadata_place(list, path, i)->0].path == path,
    decreases list.len() - i,
{
    if i < list.len() {
        lemma_metadata_place(list, path, i + 1);
    }
}

/// A path is among observations.
pub open spec fn is_observed(list: Seq<MetadataView>, path: Parts) -> bool {
    exists|k: int| 0 <= k < list.len() && (#[trigger] list[k]).path == path
}

/// Observations that are brought together name every path that either names, in the places that
/// the kept ones had, and what was read of a file is not lost.
pub proof fn law_observations_are_brought_together(
    kept: Seq<MetadataView>,
    new: Seq<MetadataView>,
    n: int,
)
    requires
        0 <= n <= new.len(),
    ensures
        merged_metadata(kept, new, n).len() >= kept.len(),
        forall|k: int|
            0 <= k < kept.len() ==> (#[trigger] merged_metadata(kept, new, n)[k]).path
                == kept[k].path && (kept[k].payload is Some ==> merged_metadata(kept, new, n)[k]
                == kept[k]),
        forall|i: int|
            0 <= i < n ==> is_observed(merged_metadata(kept, new, n), (#[trigger] new[i]).path),
    decreases n,
{
    if n > 0 {
        law_observations_are_brought_together(kept, new, n - 1);
        let before = merged_metadata(kept, new, n - 1);
        let after = merged_metadata(kept, new, n);
        let last = new[n - 1];
        lemma_metadata_place(before, last.path, 0);
        assert forall|k: int| 0 <= k < before.len() implies (#[trigger] after[k]).path
            == before[k].path && (before[k].payload is Some ==> after[k] == before[k]) by {}
        assert forall|k: int| 0 <= k < kept.len() implies (#[trigger] after[k]).path == kept[k].path
            && (kept[k].payload is Some ==> after[k] == kept[k]) by {
            assert(before[k].path == kept[k].path);
        }
        assert forall|i: int| 0 <= i < n implies is_observed(after, (#[trigger] new[i]).path) by {
            if i < n - 1 {
                assert(is_observed(before, new[i].path));
                let k = choose|k: int| 0 <= k < before.len() && (#[trigger] before[k]).path
                    == new[i].path;
                assert(after[k].path == new[i].path);
            } else {
                match metadata_place(before, last.path, 0) {
                    Some(place) => {
                        assert(after[place].path == new[i].path);
                    },
                    None => {
                        assert(after[before.len() as int].path == new[i].path);
                    },
                }
            }
        }
    }
}

/// Of directories those are unknown that are not among the known ones, in their order.
pub proof fn law_which_directories_are_unknown(known: Seq<Parts>, directories: Seq<Parts>, n: int)
    requires
        0 <= n <= directories.len(),
    ensures
        unknown_of(known, directories, n) == picked(
            n,
            |i: int| !known.contains(directories[i]),
            |i: int| directories[i],
        ),
    decreases n,
{
    let keep = |i: int| !known.contains(directories[i]);
    let show = |i: int| directories[i];
    if n == 0 {
        lemma_none_picked(keep, show);
    } else {
        law_which_directories_are_unknown(known, directories, n - 1);
        lemma_picked(n, keep, show);
    }
}

/// A project is in the directory of its file, else in the scope of its key.
pub proof fn law_where_a_project_is(context: ProjectContext, key: KeyView)
    ensures
        context.project_file is Some && parent_of(context.project_file->0@) is Some
            ==> project_directory_of(context, key) == parent_of(context.project_file->0@),
        context.project_file is None || parent_of(context.project_file->0@) is None
            ==> project_directory_of(context, key) == key.project_scope,
{
}

/// The first warning that speaks of something rejected is found, whatever its case.
pub proof fn law_the_first_rejection_is_found(warnings: Seq<Seq<char>>, i: int)
    requires
        0 <= i <= warnings.len(),
    ensures
        first_rejection(warnings, i) is None <==> forall|k: int|
            i <= k < warnings.len() ==> !occurs("rejected"@, lower(#[trigger] warnings[k])),
        first_rejection(warnings, i) is Some ==> exists|k: int|
            i <= k < warnings.len() && first_rejection(warnings, i) == Some(#[trigger] warnings[k])
                && occurs("rejected"@, lower(warnings[k])) && forall|j: int|
                i <= j < k ==> !occurs("rejected"@, lower(#[trigger] warnings[j])),
    decreases warnings.len() - i,
{
    if i < warnings.len() {
        law_the_first_rejection_is_found(warnings, i + 1);
        if occurs("rejected"@, lower(warnings[i])) {
            assert(first_rejection(warnings, i) == Some(warnings[i]));
        } else if first_rejection(warnings, i + 1) is Some {
            let k = choose|k: int|
                i + 1 <= k < warnings.len() && first_rejection(warnings, i + 1) == Some(
                    #[trigger] warnings[k],
                ) && occurs("rejected"@, lower(warnings[k])) && forall|j: int|
                    i + 1 <= j < k ==> !occurs("rejected"@, lower(#[trigger] warnings[j]));
            assert(first_rejection(warnings, i) == Some(warnings[k]));
        }
    }
}

/// Of watched files those are configuration files that the linter or the formatter reads; each
/// is added to what is watched unless it is there.
pub proof fn law_configuration_files_are_watched(
    paths: Seq<Parts>,
    watched: Seq<Parts>,
    n: int,
    path: Parts,
)
    requires
        0 <= n <= watched.len(),
    ensures
        with_live_files(paths, watched, n).contains(path) <==> paths.contains(path) || exists|i: int|
            0 <= i < n && #[trigger] watched[i] == path && crate::names::live_configuration(path),
    decreases n,
{
    if n > 0 {
        law_configuration_files_are_watched(paths, watched, n - 1, path);
        lemma_pushed(with_live_files(paths, watched, n - 1), watched[n - 1], path);
        if exists|i: int|
            0 <= i < n && #[trigger] watched[i] == path && crate::names::live_configuration(path) {
            let i = choose|i: int|
                0 <= i < n && #[trigger] watched[i] == path && crate::names::live_configuration(
                    path,
                );
            if i < n - 1 {
                assert(watched[i] == path);
            }
        }
        if watched[n - 1] == path && crate::names::live_configuration(path) {
            assert(exists|i: int|
                0 <= i < n && #[trigger] watched[i] == path && crate::names::live_configuration(
                    path,
                ));
        }
    }
}

/// For directories the files of the linter and of the formatter in each are watched.
pub proof fn law_the_configuration_of_directories_is_watched(
    paths: Seq<Parts>,
    directories: Seq<Parts>,
    n: int,
    path: Parts,
)
    requires
        0 <= n <= directories.len(),
    ensures
        with_configuration_of_all(paths, directories, n).contains(path) <==> paths.contains(path)
            || exists|i: int|
            0 <= i < n && #[trigger] is_configuration_of(directories[i], path),
    decreases n,
{
    if n > 0 {
        law_the_configuration_of_directories_is_watched(paths, directories, n - 1, path);
        let before = with_configuration_of_all(paths, directories, n - 1);
        let lint = joined(directories[n - 1], parse_parts(LINT_CONFIG_NAME@));
        let format = joined(directories[n - 1], parse_parts(FORMAT_CONFIG_NAME@));
        let first = crate::names::with_path(before, lint);
        lemma_pushed(before, lint, path);
        lemma_pushed(first, format, path);
        if is_configuration_of(directories[n - 1], path) {
            assert(exists|i: int|
                0 <= i < n && #[trigger] is_configuration_of(directories[i], path));
        }
        if exists|i: int| 0 <= i < n && #[trigger] is_configuration_of(directories[i], path) {
            let i = choose|i: int|
                0 <= i < n && #[trigger] is_configuration_of(directories[i], path);
            if i < n - 1 {
                assert(is_configuration_of(directories[i], path));
            }
        }
    }
}

/// A path is that of the linter's or the formatter's file in a directory.
pub open spec fn is_configuration_of(directory: Parts, path: Parts) -> bool {
    path == joined(directory, parse_parts(LINT_CONFIG_NAME@)) || path == joined(
        directory,
        parse_parts(FORMAT_CONFIG_NAME@),
    )
}

/// A document has no room for too many files where there would be more than may be kept, and
/// for too many bytes otherwise.
pub proof fn law_why_a_document_has_no_room(ws: WorkspaceView, uri: Seq<char>)
    ensures
        no_room_reason(ws, uri) is TooManyFiles <==> crate::workspace::files_kept(ws, uri)
            > ws.limits.max_files,
        no_room_reason(ws, uri) is NoRoom <==> crate::workspace::files_kept(ws, uri)
            <= ws.limits.max_files,
{
}

proof fn lemma_entry_of_root(entries: Seq<PathEntry>, root: Parts, i: int)
    requires
        0 <= i <= entries.len(),
    ensures
        entry_of_root(entries, root, i) is None <==> forall|k: int|
            i <= k < entries.len() ==> !equal_ci((#[trigger] entries[k]).path@, root),
        entry_of_root(entries, root, i) is Some ==> exists|k: int|
            i <= k < entries.len() && entry_of_root(entries, root, i) == Some(
                (#[trigger] entries[k])@,
            ) && equal_ci(entries[k].path@, root),
    decreases entries.len() - i,
{
    if i < entries.len() {
        lemma_entry_of_root(entries, root, i + 1);
        if !equal_ci(entries[i].path@, root) && entry_of_root(entries, root, i + 1) is Some {
            let k = choose|k: int|
                i + 1 <= k < entries.len() && entry_of_root(entries, root, i + 1) == Some(
                    (#[trigger] entries[k])@,
                ) && equal_ci(entries[k].path@, root);
            assert(entry_of_root(entries, root, i) == Some(entries[k]@));
        } else if equal_ci(entries[i].path@, root) {
            assert(entry_of_root(entries, root, i) == Some(entries[i]@));
        }
    }
}

/// A root is searched under the entry of a search path that is the root, whatever the case;
/// else under the one that it may be read under; else as one that only the file system leads to.
pub proof fn law_what_a_root_is_searched_under(
    context: ProjectContext,
    root: Parts,
    policy: Option<EntryView>,
)
    ensures
        ({
            let entries = context.search_path_entries@;
            let own = exists|k: int|
                0 <= k < entries.len() && equal_ci((#[trigger] entries[k]).path@, root);
            let entry = crate::project::path_entry(context, root, policy);
            &&& own ==> exists|k: int|
                0 <= k < entries.len() && search_entry(context, root, policy) == (
                #[trigger] entries[k])@ && equal_ci(entries[k].path@, root)
            &&& !own && entry is Some ==> search_entry(context, root, policy) == entry->0
            &&& !own && entry is None ==> search_entry(context, root, policy) == (EntryView {
                path: root,
                provenance: ProvenanceView::LegacyNative,
            })
        }),
{
    lemma_entry_of_root(context.search_path_entries@, root, 0);
}

/// The symbols of a fact are those of which it is known, in their order.
pub proof fn law_the_symbols_of_a_fact(
    keys: Seq<Seq<char>>,
    facts: Map<Seq<char>, ConditionalFact>,
    fact: ConditionalFact,
    n: int,
)
    requires
        0 <= n <= keys.len(),
    ensures
        symbols_of(keys, facts, fact, n) == picked(
            n,
            |i: int| facts[keys[i]] == fact,
            |i: int| keys[i],
        ),
    decreases n,
{
    let keep = |i: int| facts[keys[i]] == fact;
    let show = |i: int| keys[i];
    if n == 0 {
        lemma_none_picked(keep, show);
    } else {
        law_the_symbols_of_a_fact(keys, facts, fact, n - 1);
        lemma_picked(n, keep, show);
    }
}

/// The files of ranks follow one another, those of each rank together.
pub proof fn law_ranks_follow_one_another(tiers: Seq<Seq<Seq<char>>>, n: int, name: Seq<char>)
    requires
        0 <= n <= tiers.len(),
    ensures
        flat(tiers, n).contains(name) <==> exists|i: int|
            0 <= i < n && (#[trigger] tiers[i]).contains(name),
    decreases n,
{
    if n > 0 {
        law_ranks_follow_one_another(tiers, n - 1, name);
        let before = flat(tiers, n - 1);
        let last = tiers[n - 1];
        let both = before + last;
        if before.contains(name) {
            let k = choose|k: int| 0 <= k < before.len() && before[k] == name;
            assert(both[k] == name);
        }
        if last.contains(name) {
            let k = choose|k: int| 0 <= k < last.len() && last[k] == name;
            assert(both[before.len() + k] == name);
        }
        if both.contains(name) {
            let k = choose|k: int| 0 <= k < both.len() && both[k] == name;
            if k < before.len() {
                assert(before[k] == name);
                assert(before.contains(name));
            } else {
                assert(last[k - before.len()] == name);
            }
        }
        if exists|i: int| 0 <= i < n && (#[trigger] tiers[i]).contains(name) {
            let i = choose|i: int| 0 <= i < n && (#[trigger] tiers[i]).contains(name);
            if i < n - 1 {
                assert(tiers[i].contains(name));
            }
        }
    }
}

/// The first folder of the workspace at a path is the one there.
pub proof fn law_the_first_folder_at_a_path(roots: Seq<WorkspaceRoot>, path: Parts, i: int)
    requires
        0 <= i <= roots.len(),
    ensures
        folder_at(roots, path, i) is None <==> forall|k: int|
            i <= k < roots.len() ==> (#[trigger] roots[k]).path@ != path,
        folder_at(roots, path, i) is Some ==> folder_at(roots, path, i)->0.path@ == path
            && roots.contains(folder_at(roots, path, i)->0),
    decreases roots.len() - i,
{
    if i < roots.len() {
        law_the_first_folder_at_a_path(roots, path, i + 1);
        if roots[i].path@ == path {
            assert(roots.contains(roots[i]));
        }
    }
}

} // verus!
