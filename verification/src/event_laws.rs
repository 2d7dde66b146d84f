//! What the event of a file leads to.

use vstd::prelude::*;

use crate::access::analyzable;
use crate::deleted::{law_deleted_files_are_bounded, MAX_DELETED_OVERRIDES};
use crate::documents::DocumentView;
use crate::events::{
    configuration_noted, configured_documents, deletion_noted, event_finished, event_noted,
    event_taken, metadata_noted, override_file, texts_open, with_others,
};
use crate::limits::FileChange;
use crate::names::{
    configuration_path, has_file_name, pascal_path, FORMAT_CONFIG_NAME, LINT_CONFIG_NAME,
    LOCAL_CONFIG_NAME,
};
use crate::native::shown;
use crate::paths::{extension_of, file_name_of, Parts};
use crate::project::{DiskStamp, KeyView};
use crate::schedule::DIAGNOSTIC_DEBOUNCE;
use crate::source_laws::law_what_takes_a_changed_file_in_is_forgotten;
use crate::sources::{
    concerned_roots, concerns, readers, watching, without_contexts, without_sources, SourcesView,
};
use crate::strings::same_ci;
use crate::strmap::{in_order, lemma_finite_set_has_order, lemma_order_holds_each_once};
use crate::uris::{canonical, uri_path};
use crate::workspace::{scheduled, WorkspaceView};

verus! {

proof fn lemma_texts_open(documents: Map<Seq<char>, DocumentView>, n: int)
    requires
        documents.dom().finite(),
        0 <= n <= in_order(documents.dom()).len(),
    ensures
        forall|uri: Seq<char>| #[trigger]
            texts_open(documents, n).contains(uri) <==> exists|i: int|
                0 <= i < n && #[trigger] in_order(documents.dom())[i] == uri
                    && documents[uri].text is Some,
    decreases n,
{
    let list = texts_open(documents, n);
    let keys = in_order(documents.dom());
    if n > 0 {
        lemma_texts_open(documents, n - 1);
        let before = texts_open(documents, n - 1);
        assert forall|uri: Seq<char>| #[trigger] list.contains(uri) <==> exists|i: int|
            0 <= i < n && #[trigger] keys[i] == uri && documents[uri].text is Some by {
            if list.contains(uri) {
                let k = choose|k: int| 0 <= k < list.len() && list[k] == uri;
                if k < before.len() {
                    assert(before[k] == uri);
                    assert(before.contains(uri));
                } else {
                    assert(keys[n - 1] == uri);
                }
            }
            if exists|i: int| 0 <= i < n && #[trigger] keys[i] == uri && documents[uri].text is Some {
                let i = choose|i: int|
                    0 <= i < n && #[trigger] keys[i] == uri && documents[uri].text is Some;
                if i < n - 1 {
                    assert(before.contains(uri));
                    let k = choose|k: int| 0 <= k < before.len() && before[k] == uri;
                    assert(list[k] == uri);
                } else {
                    assert(list[list.len() - 1] == uri);
                }
            }
        }
    } else {
        assert forall|uri: Seq<char>| #[trigger] list.contains(uri) <==> exists|i: int|
            0 <= i < n && #[trigger] keys[i] == uri && documents[uri].text is Some by {}
    }
}

pub proof fn lemma_scheduled(schedule: Map<Seq<char>, u64>, list: Seq<Seq<char>>, now: u64, n: int)
    requires
        0 <= n <= list.len(),
    ensures
        forall|i: int|
            0 <= i < n ==> scheduled(schedule, list, now, n).contains_key(#[trigger] list[i])
                && scheduled(schedule, list, now, n)[list[i]] == due_after(now),
        forall|uri: Seq<char>|
            (forall|i: int| 0 <= i < n ==> #[trigger] list[i] != uri) ==> #[trigger] scheduled(
                schedule,
                list,
                now,
                n,
            ).contains_key(uri) == schedule.contains_key(uri) && (schedule.contains_key(uri)
                ==> scheduled(schedule, list, now, n)[uri] == schedule[uri]),
    decreases n,
{
    if n > 0 {
        lemma_scheduled(schedule, list, now, n - 1);
        let before = scheduled(schedule, list, now, n - 1);
        let after = scheduled(schedule, list, now, n);
        assert forall|i: int| 0 <= i < n implies after.contains_key(#[trigger] list[i])
            && after[list[i]] == due_after(now) by {
            if i < n - 1 {
                assert(before.contains_key(list[i]));
            }
        }
        assert forall|uri: Seq<char>|
            (forall|i: int| 0 <= i < n ==> #[trigger] list[i] != uri) implies #[trigger] after.contains_key(
            uri,
        ) == schedule.contains_key(uri) && (schedule.contains_key(uri) ==> after[uri]
            == schedule[uri]) by {
            assert(list[n - 1] != uri);
            assert(before.contains_key(uri) == schedule.contains_key(uri));
        }
    }
}

/// When something that is scheduled now is due: after the pause that follows a change, or at
/// the end of time where that comes first.
pub open spec fn due_after(now: u64) -> int {
    if now + DIAGNOSTIC_DEBOUNCE <= u64::MAX {
        now + DIAGNOSTIC_DEBOUNCE
    } else {
        u64::MAX as int
    }
}

proof fn lemma_with_others(list: Seq<Seq<char>>, more: Seq<Seq<char>>, n: int)
    requires
        0 <= n <= more.len(),
    ensures
        forall|uri: Seq<char>| #[trigger]
            with_others(list, more, n).contains(uri) <==> list.contains(uri) || exists|i: int|
                0 <= i < n && #[trigger] more[i] == uri,
    decreases n,
{
    if n > 0 {
        lemma_with_others(list, more, n - 1);
        let before = with_others(list, more, n - 1);
        let after = with_others(list, more, n);
        assert forall|uri: Seq<char>| #[trigger] after.contains(uri) <==> list.contains(uri)
            || exists|i: int| 0 <= i < n && #[trigger] more[i] == uri by {
            if before.contains(uri) {
                let k = choose|k: int| 0 <= k < before.len() && before[k] == uri;
                assert(after[k] == uri);
            }
            if uri == more[n - 1] && !before.contains(uri) {
                assert(after[after.len() - 1] == uri);
            }
            if after.contains(uri) && !before.contains(uri) {
                let k = choose|k: int| 0 <= k < after.len() && after[k] == uri;
                if k < before.len() {
                    assert(before[k] == uri);
                }
                assert(more[n - 1] == uri);
            }
        }
    }
}

/// A change of a file that configures a project has every open document with a text diagnosed
/// again, and no other document is scheduled. A change of any other file schedules nothing, and
/// only the documents are told that were given or loaded again. These are told in any case.
pub proof fn law_a_configuration_change_reaches_every_open_document(
    ws: WorkspaceView,
    uri: Seq<char>,
    change: FileChange,
    now: u64,
    diagnostics: Seq<Seq<char>>,
    reloaded: Seq<Seq<char>>,
)
    requires
        ws.documents.dom().finite(),
    ensures
        ({
            let told = with_others(diagnostics, reloaded, reloaded.len() as int)
                + configured_documents(ws, uri);
            let schedule = event_finished(ws, uri, change, now).schedule;
            let configures = uri_path(uri) is Some && configuration_path(uri_path(uri)->0);
            &&& configures ==> forall|d: Seq<char>| #[trigger]
                ws.documents.contains_key(d) && ws.documents[d].text is Some ==> told.contains(d)
                    && schedule.contains_key(d) && schedule[d] == due_after(now)
            &&& forall|d: Seq<char>| #[trigger]
                told.contains(d) ==> diagnostics.contains(d) || reloaded.contains(d) || (configures
                    && ws.documents.contains_key(d) && ws.documents[d].text is Some)
            &&& forall|d: Seq<char>|
                diagnostics.contains(d) || reloaded.contains(d) ==> #[trigger] told.contains(d)
            &&& forall|d: Seq<char>|
                !(configures && ws.documents.contains_key(d) && ws.documents[d].text is Some)
                    ==> #[trigger] schedule.contains_key(d) == ws.schedule.contains_key(d) && (
                ws.schedule.contains_key(d) ==> schedule[d] == ws.schedule[d])
            &&& !configures ==> schedule == ws.schedule
        }),
{
    let more = with_others(diagnostics, reloaded, reloaded.len() as int);
    let all = configured_documents(ws, uri);
    let told = more + all;
    let schedule = event_finished(ws, uri, change, now).schedule;
    let configures = uri_path(uri) is Some && configuration_path(uri_path(uri)->0);
    let keys = in_order(ws.documents.dom());
    lemma_with_others(diagnostics, reloaded, reloaded.len() as int);
    lemma_finite_set_has_order(ws.documents.dom());
    lemma_order_holds_each_once(ws.documents.dom());
    lemma_texts_open(ws.documents, keys.len() as int);
    lemma_scheduled(ws.schedule, all, now, all.len() as int);
    assert(schedule == scheduled(ws.schedule, all, now, all.len() as int));
    assert forall|d: Seq<char>| #[trigger] all.contains(d) <==> configures
        && ws.documents.contains_key(d) && ws.documents[d].text is Some by {
        assert(keys.to_set().contains(d) <==> ws.documents.dom().contains(d));
        assert(keys.to_set().contains(d) <==> keys.contains(d));
        if configures && all.contains(d) {
            assert(all == texts_open(ws.documents, keys.len() as int));
            let i = choose|i: int| 0 <= i < keys.len() && #[trigger] keys[i] == d;
            assert(keys.contains(d));
        }
        if configures && ws.documents.contains_key(d) && ws.documents[d].text is Some {
            let i = choose|i: int| 0 <= i < keys.len() && keys[i] == d;
            assert(keys[i] == d);
        }
    }
    assert forall|d: Seq<char>| #[trigger] told.contains(d) <==> more.contains(d) || all.contains(
        d,
    ) by {
        if more.contains(d) {
            let k = choose|k: int| 0 <= k < more.len() && more[k] == d;
            assert(told[k] == d);
        }
        if all.contains(d) {
            let k = choose|k: int| 0 <= k < all.len() && all[k] == d;
            assert(told[more.len() + k] == d);
        }
    }
    assert forall|d: Seq<char>| #[trigger]
        ws.documents.contains_key(d) && ws.documents[d].text is Some && configures implies told.contains(
        d,
    ) && schedule.contains_key(d) && schedule[d] == due_after(now) by {
        assert(all.contains(d));
        let k = choose|k: int| 0 <= k < all.len() && all[k] == d;
        assert(schedule.contains_key(all[k]));
    }
    assert forall|d: Seq<char>| diagnostics.contains(d) || reloaded.contains(d) implies
        #[trigger] told.contains(d) by {
        if reloaded.contains(d) {
            let i = choose|i: int| 0 <= i < reloaded.len() && reloaded[i] == d;
            assert(reloaded[i] == d);
        }
        assert(more.contains(d));
    }
    assert forall|d: Seq<char>| #[trigger] told.contains(d) implies diagnostics.contains(d)
        || reloaded.contains(d) || (configures && ws.documents.contains_key(d)
        && ws.documents[d].text is Some) by {
        assert(more.contains(d) || all.contains(d));
    }
    assert forall|d: Seq<char>|
        !(configures && ws.documents.contains_key(d) && ws.documents[d].text is Some) implies
        #[trigger] schedule.contains_key(d) == ws.schedule.contains_key(d) && (
    ws.schedule.contains_key(d) ==> schedule[d] == ws.schedule[d]) by {
        assert(!all.contains(d));
        assert forall|i: int| 0 <= i < all.len() implies #[trigger] all[i] != d by {
            if all[i] == d {
                assert(all.contains(d));
            }
        }
    }
    if !configures {
        assert(all.len() == 0);
    }
}

/// The files that configure a project are, whatever their case, those of the linter and the
/// formatter, and the files of projects, programs, packages and option sets.
pub proof fn law_what_configures_a_project(p: Parts)
    ensures
        configuration_path(p) <==> {
            ||| file_name_of(p) is Some && (same_ci(shown(file_name_of(p)->0), LINT_CONFIG_NAME@)
                || same_ci(shown(file_name_of(p)->0), FORMAT_CONFIG_NAME@))
            ||| extension_of(p) is Some && (same_ci(shown(extension_of(p)->0), "dproj"@) || same_ci(
                shown(extension_of(p)->0),
                "dpr"@,
            ) || same_ci(shown(extension_of(p)->0), "dpk"@) || same_ci(
                shown(extension_of(p)->0),
                "optset"@,
            ))
        },
{
}

/// The sources that are analysed are, whatever their case, units, programs, packages and the
/// files that others take in. Only the last are not formatted.
pub proof fn law_what_is_analysed(p: Parts)
    ensures
        analyzable(p) <==> pascal_path(p) || extension_of(p) is Some && same_ci(
            shown(extension_of(p)->0),
            "inc"@,
        ),
        pascal_path(p) <==> extension_of(p) is Some && (same_ci(shown(extension_of(p)->0), "pas"@)
            || same_ci(shown(extension_of(p)->0), "dpr"@) || same_ci(
            shown(extension_of(p)->0),
            "dpk"@,
        )),
{
}

/// The event of a file is taken up whole. The file counts as deleted exactly where it was. A
/// change of a source is counted, unless it is of the file of overrides; one of a file that
/// configures a project is counted as that, and so is one of the overrides that comes in a batch.
/// Whatever takes the file in is forgotten, contexts that watch it do not hold any more, and the
/// file's own document is diagnosed again where it is open. No document changes.
pub proof fn law_what_the_event_of_a_file_does(
    ws: WorkspaceView,
    uri: Seq<char>,
    change: FileChange,
    stamp: Option<DiskStamp>,
    batched: bool,
    now: u64,
    root: Seq<char>,
    key: KeyView,
)
    requires
        ws.sources.expansions.dom().finite(),
        ws.deleted.dom().finite(),
        ws.deleted.dom().len() <= MAX_DELETED_OVERRIDES,
        ws.generations.source < u64::MAX,
        ws.generations.configuration < u64::MAX,
    ensures
        ({
            let after = event_taken(ws, uri, change, stamp, batched, now);
            let path = uri_path(uri);
            let overrides = path is Some && has_file_name(path->0, LOCAL_CONFIG_NAME@);
            let configures = path is Some && configuration_path(path->0);
            &&& after.deleted.contains_key(uri) <==> change is Deleted
            &&& change is Deleted ==> after.deleted[uri] == stamp
            &&& after.generations.source == ws.generations.source + (if overrides {
                0int
            } else {
                1
            })
            &&& after.generations.configuration == ws.generations.configuration + (if configures || (
            overrides && batched) {
                1int
            } else {
                0
            })
            &&& configures || (overrides && batched)
                ==> after.generations.configuration_changes.contains_key(canonical(uri))
                && after.generations.configuration_changes[canonical(uri)]
                == ws.generations.configuration + 1
            &&& !overrides && ws.sources.expansions.contains_key(root) && concerns(
                ws.sources,
                uri,
                root,
            ) ==> !after.sources.expansions.contains_key(root)
            &&& path is Some && watching(ws.sources.store, path->0).contains(key)
                ==> !after.sources.store.contexts.contains_key(key)
            &&& ws.documents.contains_key(uri) ==> after.schedule.contains_key(uri)
                && after.schedule[uri] == due_after(now)
            &&& after.documents == ws.documents && after.renames == ws.renames && after.fence
                == ws.fence
        }),
{
    let noted = event_noted(ws, uri, now).0;
    let counted = deletion_noted(configuration_noted(noted, uri, batched), uri, change, stamp);
    let known = metadata_noted(counted, uri);
    law_deleted_files_are_bounded(ws.deleted, uri, stamp);
    law_what_takes_a_changed_file_in_is_forgotten(ws.sources, uri, ws.documents, root);
    assert(counted.sources == noted.sources);
    if uri_path(uri) is Some {
        let keys = watching(counted.sources.store, uri_path(uri)->0);
        let list = in_order(readers(counted.sources, keys, counted.documents));
        lemma_forgetting_adds_nothing(
            without_contexts(counted.sources, keys),
            list,
            list.len() as int,
        );
        assert(known.sources.expansions.contains_key(root)
            ==> counted.sources.expansions.contains_key(root));
        if known.sources.store.contexts.contains_key(key) {
            assert(counted.sources.store.contexts.contains_key(key));
            assert(!keys.contains(key));
        }
    }
    if !override_file(uri) {
        let roots = in_order(concerned_roots(ws.sources, uri));
        lemma_forgetting_adds_nothing(ws.sources, roots, roots.len() as int);
    }
}

proof fn lemma_forgetting_adds_nothing(v: SourcesView, list: Seq<Seq<char>>, n: int)
    ensures
        without_sources(v, list, n).store.contexts == v.store.contexts,
        forall|uri: Seq<char>| #[trigger]
            without_sources(v, list, n).expansions.contains_key(uri) ==> v.expansions.contains_key(
                uri,
            ),
        forall|uri: Seq<char>| #[trigger]
            without_sources(v, list, n).sizes.contains_key(uri) ==> v.sizes.contains_key(uri),
    decreases n,
{
    if n > 0 {
        lemma_forgetting_adds_nothing(v, list, n - 1);
    }
}

} // verus!
