//! What is kept of projects and sources as they are looked at, and what starts anew.

use vstd::prelude::*;

use crate::access::analyzable;
use crate::contexts::{OwnerChange, StoreView};
use crate::discovery::WatchedView;
use crate::documents::DocumentView;
use crate::edits::RejectReason;
use crate::event_laws::{due_after, lemma_scheduled};
use crate::events::{all_changed, all_rejected, no_records, nothing_derived, overflowed};
use crate::excludes::WorkspaceRoot;
use crate::expansion_records::included_entry;
use crate::folders::folders_changed;
use crate::handover::joined_stores;
use crate::imports::{import_refusal, import_start, ImportStart};
use crate::include_owners::{file_owners, open_owners};
use crate::indexing::{indexed, Expanded};
use crate::installation::{installed, with_all_seen, with_looked, with_watched, Discovered};
use crate::limits::MAX_OPEN_DOCUMENT_URI_BYTES;
use crate::lint::{node_depth, resolution_warning, rule_run, Resolution, RuleRun};
use crate::loaded::{with_granted_route, with_open_record};
use crate::paths::{equal_ci, Parts};
use crate::project::{EntryView, KeyView, MembershipView, PathStamp, StateView};
use crate::reconfigure::reconfigured;
use crate::records::RecordView;
use crate::renames::endpoints;
use crate::settings::WorkspaceOptionsView;
use crate::sorting::views;
use crate::sources::SourcesView;
use crate::strings::byte_len;
use crate::strmap::{in_order, lemma_finite_set_has_order};
use crate::uris::{canonical, path_uri, uri_path};
use crate::workspace::{scheduled, WorkspaceView};

verus! {

/// Once the options changed, no source is known and none is read in a project, every result that
/// was computed before is stale, and every open document is diagnosed again. The documents
/// themselves stay, and the limits are the new ones.
pub proof fn law_new_options_start_anew(
    ws: WorkspaceView,
    options: WorkspaceOptionsView,
    project_file_changed: bool,
    now: u64,
    uri: Seq<char>,
)
    requires
        ws.documents.dom().finite(),
        ws.generations.source < u64::MAX,
        ws.generations.configuration < u64::MAX,
    ensures
        ({
            let after = reconfigured(ws, options, project_file_changed, now);
            &&& after.documents == ws.documents
            &&& after.limits == options.limits
            &&& after.project_configured == options.project_file is Some
            &&& !after.sources.sizes.contains_key(uri) && !after.sources.expansions.contains_key(uri)
            &&& !after.sources.store.document_contexts.contains_key(uri)
                && !after.sources.store.open_document_contexts.contains_key(uri)
            &&& after.sources.store.contexts.dom() =~= Set::empty()
            &&& after.generations.global_source > ws.generations.source
            &&& after.generations.global_configuration > ws.generations.configuration
            &&& ws.documents.contains_key(uri) ==> after.schedule.contains_key(uri)
                && after.schedule[uri] == due_after(now)
            &&& after.sources.store.owners.contains_key(uri) == ws.sources.store.owners.contains_key(
                uri,
            )
            &&& ws.sources.store.owners.contains_key(uri)
                ==> after.sources.store.owners[uri].needs_revalidation
        }),
{
    let open = in_order(ws.documents.dom());
    lemma_finite_set_has_order(ws.documents.dom());
    lemma_scheduled(ws.schedule, open, now, open.len() as int);
    assert(open.to_set().contains(uri) <==> ws.documents.dom().contains(uri));
    if ws.documents.contains_key(uri) {
        assert(open.contains(uri));
        let i = choose|i: int| 0 <= i < open.len() && open[i] == uri;
        assert(scheduled(ws.schedule, open, now, open.len() as int).contains_key(
            open[i],
        ));
    }
}

/// Once the folders of a workspace changed, no project is known and nothing of what sources take
/// in, no file counts as deleted, and every result that was computed before is stale. The
/// documents stay.
pub proof fn law_new_folders_start_anew(
    ws: WorkspaceView,
    roots: Seq<WorkspaceRoot>,
    cwd: Parts,
    added: Seq<Parts>,
    removed: Seq<Parts>,
    problems: Seq<Option<String>>,
    uri: Seq<char>,
)
    requires
        ws.generations.source < u64::MAX,
        ws.generations.configuration < u64::MAX,
    ensures
        ({
            let after = folders_changed(ws, roots, cwd, added, removed, problems);
            &&& after.documents == ws.documents && after.schedule == ws.schedule
            &&& !after.sources.expansions.contains_key(uri)
            &&& !after.sources.store.document_contexts.contains_key(uri)
                && !after.sources.store.open_document_contexts.contains_key(uri)
            &&& after.sources.store.contexts.dom() =~= Set::empty()
            &&& !after.deleted.contains_key(uri)
            &&& after.generations.global_source > ws.generations.source
            &&& after.generations.global_configuration > ws.generations.configuration
        }),
{
}

proof fn lemma_all_rejected(
    ws: WorkspaceView,
    list: Seq<Seq<char>>,
    reason: RejectReason,
    with_text: bool,
    now: u64,
    n: int,
)
    requires
        0 <= n <= list.len(),
        forall|uri: Seq<char>| #[trigger]
            ws.documents.contains_key(uri) ==> byte_len(uri)
                <= MAX_OPEN_DOCUMENT_URI_BYTES,
    ensures
        ({
            let after = all_rejected(ws, list, reason, with_text, now, n);
            &&& after.documents.dom() =~= ws.documents.dom()
            &&& forall|i: int|
                0 <= i < n && ws.documents.contains_key(#[trigger] list[i]) && (!with_text
                    || ws.documents[list[i]].text is Some)
                    ==> after.documents[list[i]].rejection is Some
                    && after.documents[list[i]].text is None
            &&& forall|uri: Seq<char>| #[trigger]
                after.documents.contains_key(uri) ==> after.documents[uri] == ws.documents[uri] || (
                after.documents[uri].text is None && after.documents[uri].rejection is Some
                    && exists|i: int| 0 <= i < n && #[trigger] list[i] == uri)
            &&& after.renames == ws.renames && after.deleted == ws.deleted
        }),
    decreases n,
{
    if n > 0 {
        lemma_all_rejected(ws, list, reason, with_text, now, n - 1);
        let before = all_rejected(ws, list, reason, with_text, now, n - 1);
        let after = all_rejected(ws, list, reason, with_text, now, n);
        let last = list[n - 1];
        if before.documents.contains_key(last) {
            assert(ws.documents.dom().contains(last));
            assert(ws.documents.contains_key(last));
        }
        assert(after.documents.dom() =~= ws.documents.dom());
        assert forall|i: int|
            0 <= i < n && ws.documents.contains_key(#[trigger] list[i]) && (!with_text
                || ws.documents[list[i]].text is Some) implies after.documents[list[i]].rejection is Some
        && after.documents[list[i]].text is None by {
            assert(before.documents.dom().contains(list[i]));
            assert(before.documents.contains_key(list[i]));
            assert(before.documents[list[i]] == ws.documents[list[i]]
                || before.documents[list[i]].text is None);
        }
        assert forall|uri: Seq<char>| #[trigger]
            after.documents.contains_key(uri) implies after.documents[uri] == ws.documents[uri] || (
        after.documents[uri].text is None && after.documents[uri].rejection is Some && exists|
            i: int,
        |
            0 <= i < n && #[trigger] list[i] == uri) by {
            assert(before.documents.contains_key(uri));
            if uri == last {
                assert(list[n - 1] == uri);
            } else if before.documents[uri] != ws.documents[uri] {
                let i = choose|i: int| 0 <= i < n - 1 && #[trigger] list[i] == uri;
                assert(list[i] == uri);
            }
        }
    }
}

/// After more files changed than could be looked at, every open document is diagnosed again and
/// no rename is pending; documents stay open, and only those of a pending rename lose their
/// texts.
pub proof fn law_an_overflow_has_all_diagnosed_again(ws: WorkspaceView, now: u64, uri: Seq<char>)
    requires
        ws.documents.dom().finite(),
        forall|u: Seq<char>| #[trigger]
            ws.documents.contains_key(u) ==> byte_len(u)
                <= MAX_OPEN_DOCUMENT_URI_BYTES,
    ensures
        ({
            let after = overflowed(ws, now);
            &&& after.documents.contains_key(uri) == ws.documents.contains_key(uri)
            &&& ws.documents.contains_key(uri) ==> after.schedule.contains_key(uri)
                && after.schedule[uri] == due_after(now)
            &&& !after.renames.contains_key(uri)
            &&& !after.deleted.contains_key(uri)
            &&& ws.documents.contains_key(uri) ==> after.documents[uri] == ws.documents[uri] || (
            after.documents[uri].text is None && after.documents[uri].rejection is Some)
        }),
{
    let base = WorkspaceView {
        generations: all_changed(ws.generations),
        renames: Map::empty(),
        sources: nothing_derived(
            ws.sources,
            OwnerChange::Revalidate,
        ),
        dependencies: Map::empty(),
        deleted: Map::empty(),
        schedule: Map::empty(),
        records: no_records(ws.records),
        ..ws
    };
    let list = in_order(
        endpoints(ws.renames, ws.renames.dom().len() as int).to_set(),
    );
    lemma_all_rejected(
        base,
        list,
        RejectReason::RenameOverflow,
        false,
        now,
        list.len() as int,
    );
    let told = all_rejected(
        base,
        list,
        RejectReason::RenameOverflow,
        false,
        now,
        list.len() as int,
    );
    assert(told.documents.dom() =~= ws.documents.dom());
    let open = in_order(told.documents.dom());
    lemma_finite_set_has_order(told.documents.dom());
    lemma_scheduled(told.schedule, open, now, open.len() as int);
    assert(open.to_set().contains(uri) <==> told.documents.dom().contains(uri));
    assert(told.documents.contains_key(uri) == told.documents.dom().contains(uri));
    if ws.documents.contains_key(uri) {
        assert(told.documents.dom().contains(uri));
        assert(open.contains(uri));
        let i = choose|i: int| 0 <= i < open.len() && open[i] == uri;
        assert(scheduled(
            told.schedule,
            open,
            now,
            open.len() as int,
        ).contains_key(open[i]));
    }
}

/// The open documents that may take a file in are those with a text that are analysed, but for
/// the file itself.
pub proof fn law_which_open_documents_may_take_a_file_in(
    uris: Seq<Seq<char>>,
    open: Map<Seq<char>, DocumentView>,
    included: Seq<char>,
    n: int,
    owner: Seq<char>,
)
    requires
        0 <= n <= uris.len(),
    ensures
        open_owners(uris, open, included, n).contains(owner) <==> exists|i: int|
            0 <= i < n && #[trigger] may_take_in(uris[i], open, included) && canonical(uris[i])
                == owner,
    decreases n,
{
    if n > 0 {
        law_which_open_documents_may_take_a_file_in(uris, open, included, n - 1, owner);
        if may_take_in(uris[n - 1], open, included) && canonical(uris[n - 1]) == owner {
            assert(exists|i: int|
                0 <= i < n && #[trigger] may_take_in(uris[i], open, included) && canonical(uris[i])
                    == owner);
        }
        if exists|i: int|
            0 <= i < n && #[trigger] may_take_in(uris[i], open, included) && canonical(uris[i])
                == owner {
            let i = choose|i: int|
                0 <= i < n && #[trigger] may_take_in(uris[i], open, included) && canonical(uris[i])
                    == owner;
            if i < n - 1 {
                assert(may_take_in(uris[i], open, included));
            }
        }
    }
}

/// A document may take a file in: it has a text, it is analysed, and it is another one.
pub open spec fn may_take_in(
    uri: Seq<char>,
    open: Map<Seq<char>, DocumentView>,
    included: Seq<char>,
) -> bool {
    &&& open[uri].text is Some
    &&& uri != included
    &&& uri_path(uri) is Some && analyzable(uri_path(uri)->0)
}

/// The files of a folder that may take a file in are all others, whatever the case.
pub proof fn law_which_files_may_take_a_file_in(
    paths: Seq<Parts>,
    included: Parts,
    n: int,
    owner: Seq<char>,
)
    requires
        0 <= n <= paths.len(),
    ensures
        file_owners(paths, included, n).contains(owner) <==> exists|i: int|
            0 <= i < n && !equal_ci(#[trigger] paths[i], included) && path_uri(paths[i]) is Some
                && canonical(path_uri(paths[i])->0) == owner,
    decreases n,
{
    if n > 0 {
        law_which_files_may_take_a_file_in(paths, included, n - 1, owner);
        let here = !equal_ci(paths[n - 1], included) && path_uri(paths[n - 1]) is Some && canonical(
            path_uri(paths[n - 1])->0,
        ) == owner;
        if exists|i: int|
            0 <= i < n && !equal_ci(#[trigger] paths[i], included) && path_uri(paths[i]) is Some
                && canonical(path_uri(paths[i])->0) == owner {
            let i = choose|i: int|
                0 <= i < n && !equal_ci(#[trigger] paths[i], included) && path_uri(paths[i]) is Some
                    && canonical(path_uri(paths[i])->0) == owner;
            if i < n - 1 {
                assert(!equal_ci(paths[i], included));
            }
        }
        if here {
            assert(!equal_ci(paths[n - 1], included));
        }
    }
}

/// An indexed source is known with its size and as the one used last, and what it takes in is
/// kept where it was expanded; the sizes of others stay.
pub proof fn law_an_indexed_source_is_known(
    v: SourcesView,
    documents: Map<Seq<char>, DocumentView>,
    uri: Seq<char>,
    size: usize,
    key: KeyView,
    owned: bool,
    configured: bool,
    expanded: Option<Expanded>,
    other: Seq<char>,
)
    requires
        other != uri,
        v.clock < u64::MAX - 1,
        v.last_used.contains_key(other) ==> v.last_used[other] <= v.clock,
    ensures
        ({
            let after = indexed(v, documents, uri, size, key, owned, configured, expanded);
            &&& after.sizes.contains_key(uri) && after.sizes[uri] == size
            &&& after.sizes.contains_key(other) == v.sizes.contains_key(other)
            &&& after.sizes[other] == v.sizes[other]
            &&& after.last_used.contains_key(uri)
            &&& after.last_used.contains_key(other) ==> after.last_used[other]
                < after.last_used[uri]
            &&& expanded is Some ==> after.expansions.contains_key(uri)
                && after.expansions[uri].context_key == key
                && after.expansions[uri].physical_source == expanded->0.source@
            &&& expanded is None ==> after.expansions == v.expansions
        }),
{
}

/// A route to a source is kept exactly where it was granted and its owner is of the same
/// context.
pub proof fn law_a_granted_route_is_kept(
    v: SourcesView,
    granted: bool,
    uri: Seq<char>,
    key: KeyView,
    path: Parts,
)
    ensures
        ({
            let after = with_granted_route(v, granted, uri, key, path).store.owners;
            let owners = v.store.owners;
            let same = owners.contains_key(uri) && owners[uri].key == key;
            &&& granted && same ==> after[uri].legacy_route is Some
                && after[uri].legacy_route->0.source == path
                && after[uri].legacy_route->0.context == key
            &&& !granted || !same ==> after == owners
        }),
{
}

/// A document with a text is recorded as it is open; nothing is recorded of another, and nothing
/// at all where records are not kept.
pub proof fn law_open_documents_are_recorded_as_they_are(
    records: Option<Map<Seq<char>, RecordView>>,
    open: Map<Seq<char>, DocumentView>,
    uri: Seq<char>,
    hash: u64,
)
    ensures
        ({
            let after = with_open_record(records, open, uri, hash);
            let edited = open.contains_key(uri) && open[uri].text is Some;
            &&& records is None ==> after is None
            &&& records is Some && edited ==> after is Some && after->0.contains_key(uri)
                && after->0[uri].uri == uri && after->0[uri].open && after->0[uri].text
                == open[uri].text->0 && after->0[uri].version == Some(open[uri].version)
            &&& !edited ==> after == records
        }),
{
}

/// Of what two stores know of a project or an owner, that of the second counts, unless it is
/// not whole, that of the first is, and a source of the project is open whose file is gone.
pub proof fn law_the_newer_store_counts(
    kept: StoreView,
    incoming: StoreView,
    overlaid: Set<KeyView>,
    owners: Set<Seq<char>>,
    key: KeyView,
    uri: Seq<char>,
)
    ensures
        ({
            let after = joined_stores(kept, incoming, overlaid, owners);
            let both = kept.contexts.contains_key(key) && incoming.contexts.contains_key(key);
            let stays = both && !incoming.contexts[key].context.discovery_complete
                && kept.contexts[key].context.discovery_complete && overlaid.contains(key);
            &&& after.contexts.contains_key(key) <==> kept.contexts.contains_key(key)
                || incoming.contexts.contains_key(key)
            &&& incoming.contexts.contains_key(key) && !stays ==> after.contexts[key]
                == incoming.contexts[key]
            &&& kept.contexts.contains_key(key) && (stays || !incoming.contexts.contains_key(key))
                ==> after.contexts[key] == kept.contexts[key]
            &&& incoming.document_contexts.contains_key(uri) ==> after.document_contexts[uri]
                == incoming.document_contexts[uri]
            &&& !incoming.document_contexts.contains_key(uri)
                && kept.document_contexts.contains_key(uri) ==> after.document_contexts[uri]
                == kept.document_contexts[uri]
            &&& incoming.open_document_contexts.contains_key(uri)
                ==> after.open_document_contexts[uri] == incoming.open_document_contexts[uri]
            &&& after.owners.contains_key(uri) <==> kept.owners.contains_key(uri)
                || incoming.owners.contains_key(uri)
            &&& incoming.owners.contains_key(uri) && !owners.contains(uri) ==> after.owners[uri]
                == incoming.owners[uri]
            &&& kept.owners.contains_key(uri) && !incoming.owners.contains_key(uri)
                ==> after.owners[uri] == kept.owners[uri]
        }),
{
}

/// A file that is taken in is read under the entry it was taken in under, else under the one
/// that its project has for it, else as one that only the file system leads to.
pub proof fn law_what_a_file_taken_in_is_read_under(
    known: Option<EntryView>,
    project: Option<EntryView>,
    path: Parts,
)
    ensures
        known is Some ==> included_entry(known, project, path) == known->0,
        known is None && project is Some ==> included_entry(known, project, path) == project->0,
        known is None && project is None ==> included_entry(known, project, path).path == path
            && included_entry(known, project, path).provenance is LegacyNative,
{
}

/// The stamp of a watched path is the one it had when it was read, and the one it has now only
/// where it was not; the last of several for one path counts, and others stay.
pub proof fn law_watched_paths_are_kept_as_they_were_read(
    stamps: Map<Parts, Option<PathStamp>>,
    watched: Seq<WatchedView>,
    now: Seq<Option<PathStamp>>,
    n: int,
    i: int,
    path: Parts,
)
    requires
        0 <= n <= watched.len(),
    ensures
        0 <= i < n && (forall|j: int|
            i < j < n ==> (#[trigger] watched[j]).path != watched[i].path) ==> with_watched(
            stamps,
            watched,
            now,
            n,
        ).contains_key(watched[i].path) && with_watched(stamps, watched, now, n)[watched[i].path]
            == (if watched[i].read is Some {
            watched[i].read
        } else {
            now[i]
        }),
        (forall|j: int| 0 <= j < n ==> (#[trigger] watched[j]).path != path) ==> with_watched(
            stamps,
            watched,
            now,
            n,
        ).contains_key(path) == stamps.contains_key(path) && with_watched(stamps, watched, now, n)[path]
            == stamps[path],
    decreases n,
{
    if n > 0 {
        law_watched_paths_are_kept_as_they_were_read(stamps, watched, now, n - 1, i, path);
    }
}

/// What was seen of a path fills in a stamp that is missing and replaces none.
pub proof fn law_a_stamp_that_is_there_stays(
    stamps: Map<Parts, Option<PathStamp>>,
    seen: Seq<WatchedView>,
    n: int,
    path: Parts,
)
    requires
        0 <= n <= seen.len(),
    ensures
        stamps.contains_key(path) ==> with_all_seen(stamps, seen, n).contains_key(path),
        stamps.contains_key(path) && stamps[path] is Some ==> with_all_seen(stamps, seen, n)[path]
            == stamps[path],
        (forall|j: int| 0 <= j < n ==> (#[trigger] seen[j]).path != path) ==> with_all_seen(
            stamps,
            seen,
            n,
        ).contains_key(path) == stamps.contains_key(path) && with_all_seen(stamps, seen, n)[path]
            == stamps[path],
        (exists|j: int| 0 <= j < n && (#[trigger] seen[j]).path == path && seen[j].read is Some)
            ==> with_all_seen(stamps, seen, n).contains_key(path) && with_all_seen(
            stamps,
            seen,
            n,
        )[path] is Some,
    decreases n,
{
    if n > 0 {
        law_a_stamp_that_is_there_stays(stamps, seen, n - 1, path);
        if exists|j: int| 0 <= j < n && (#[trigger] seen[j]).path == path && seen[j].read is Some {
            let j = choose|j: int|
                0 <= j < n && (#[trigger] seen[j]).path == path && seen[j].read is Some;
            if j < n - 1 {
                assert(seen[j].path == path);
            }
        }
    }
}

/// What is kept of a project that is taken up is the new context with what it was found from.
/// What was seen of directories before outlives what is seen now, and of a file that was read
/// before the first reading counts.
pub proof fn law_a_project_is_taken_up_as_it_was_found(
    kept: Option<StateView>,
    discovered: Discovered,
    watched: Seq<WatchedView>,
    now: Seq<Option<PathStamp>>,
    memberships: Map<Parts, MembershipView>,
    directory: Parts,
)
    ensures
        ({
            let after = installed(kept, discovered, watched, now, memberships);
            &&& after.context == *discovered.context
            &&& after.metadata_files == views(discovered.metadata_files@)
            &&& kept is None && memberships.contains_key(directory)
                ==> after.memberships[directory] == memberships[directory]
            &&& kept is Some && kept->0.memberships.contains_key(directory)
                ==> after.memberships[directory] == kept->0.memberships[directory]
            &&& kept is Some && !kept->0.memberships.contains_key(directory)
                && memberships.contains_key(directory) ==> after.memberships[directory]
                == memberships[directory]
            &&& kept is None ==> after.reads == views(discovered.reads@)
        }),
{
}

/// What was found in directories is kept for each, and the rest stays.
pub proof fn law_what_was_found_in_directories_is_kept(
    known: Map<Parts, MembershipView>,
    missing: Seq<Parts>,
    looked: Seq<MembershipView>,
    n: int,
    i: int,
    directory: Parts,
)
    requires
        0 <= n <= missing.len(),
        missing.no_duplicates(),
    ensures
        0 <= i < n ==> with_looked(known, missing, looked, n).contains_key(missing[i])
            && with_looked(known, missing, looked, n)[missing[i]] == looked[i],
        (forall|j: int| 0 <= j < n ==> #[trigger] missing[j] != directory) ==> with_looked(
            known,
            missing,
            looked,
            n,
        ).contains_key(directory) == known.contains_key(directory) && with_looked(
            known,
            missing,
            looked,
            n,
        )[directory] == known[directory],
    decreases n,
{
    if n > 0 {
        law_what_was_found_in_directories_is_kept(known, missing, looked, n - 1, i, directory);
        if 0 <= i < n - 1 {
            assert(missing[i] != missing[n - 1]);
        }
    }
}

/// Imports are resolved exactly where the context is known and there are some; units may lie
/// anywhere only where the project has no file.
pub proof fn law_when_imports_are_resolved(v: SourcesView, key: KeyView, imports: nat)
    ensures
        import_start(v, key, imports) == ImportStart::Stop <==> !v.store.contexts.contains_key(key),
        import_start(v, key, imports) == ImportStart::BindNothing <==> v.store.contexts.contains_key(
            key,
        ) && imports == 0,
        import_start(v, key, imports) is Resolve ==> (import_start(v, key, imports)->anywhere
            <==> v.store.contexts[key].context.project_file is None),
{
}

/// The imports of a source cannot be resolved exactly where it has no file, no name or no text.
pub proof fn law_when_imports_cannot_be_resolved(uri: Seq<char>, named: bool, read: bool)
    ensures
        import_refusal(uri, named, read) is None <==> uri_path(uri) is Some && named && read,
{
}

/// The rules of a project are run exactly where it was built whole, and on the text of the file
/// exactly where that is what the rules see. A project that could not be resolved or built is
/// spoken of, and no other.
pub proof fn law_which_rules_are_run(resolution: Resolution, same_text: bool, uri: Seq<char>)
    ensures
        ({
            let whole = resolution is Built && resolution->complete;
            &&& rule_run(resolution, same_text) == RuleRun::Project <==> whole && same_text
            &&& rule_run(resolution, same_text) == RuleRun::FileFlow <==> whole && !same_text
            &&& rule_run(resolution, same_text) == RuleRun::FileOnly <==> !whole
            &&& resolution_warning(uri, resolution) is Some <==> resolution is Unresolved
                || resolution is Unbuilt
        }),
{
}

/// A node lies one deeper than the one above it, and the first node lies at the top.
pub proof fn law_a_node_lies_below_its_parent(parents: Seq<usize>, i: int)
    requires
        0 < i < parents.len(),
        parents[i] < i,
    ensures
        node_depth(parents, 0) == 0,
        node_depth(parents, i) == node_depth(parents, parents[i] as int) + 1,
{
}

} // verus!
