//! What a project is found in, and what changes make it be looked at again.

use vstd::prelude::*;

use crate::access::scope_accepts;
use crate::contexts::StoreView;
use crate::discovery::{
    deepest_folder, discovered_from, known_of, merged_reads, missing_of, read_stamp, stamp_read,
    upward, watch_list, with_configuration_files,
};
use crate::documents::DocumentView;
use crate::excludes::{
    has_default_exclusion, is_glob, source_roots_of, valid_patterns, ExcludeMatcher, WorkspaceRoot,
};
use crate::folders::{
    forgotten_each, new_folders, roots_without, sources_without_folder, store_without_folder,
    those_in, without_keys,
};
use crate::freshness::{overlay_paths, rebound, selected_key};
use crate::paths::{
    absolute_parts, equal_ci, joined, parent_of, parse_parts, starts_with, starts_with_ci, FilePath,
    Parts,
};
use crate::picks::{lemma_none_picked, lemma_picked, lemma_picked_holds, picked};
use crate::project::{path_entry, EntryView, KeyView, MembershipView, ProjectContext, ReadView};
use crate::records::{concerned, dependency_uri_of, RecordView};
use crate::sorting::{
    law_leaving_out_repeats_keeps_every_item, law_sorting_orders_and_keeps, sorted_list,
    without_repeats,
};
use crate::source_laws::is_listed;
use crate::sources::SourcesView;
use crate::staleness::{dependents_of, record_staleness, search_records, Current, RecordFacts};
use crate::strings::replaced;
use crate::strmap::{in_order, lemma_finite_set_has_order};
use crate::uris::{canonical, normal, path_uri, uri_path};

verus! {

/// Of the folders that hold a path, whatever the case, the deepest is its own, and of several
/// as deep the last or the first, as asked for.
pub proof fn law_a_path_belongs_to_the_deepest_folder(
    roots: Seq<WorkspaceRoot>,
    path: Parts,
    last: bool,
    n: int,
)
    requires
        0 <= n <= roots.len(),
    ensures
        deepest_folder(roots, path, last, n) is None <==> forall|i: int|
            0 <= i < n ==> !starts_with_ci(path, (#[trigger] roots[i]).path@),
        deepest_folder(roots, path, last, n) is Some ==> exists|k: int|
            0 <= k < n && deepest_folder(roots, path, last, n) == Some((#[trigger] roots[k]).path@)
                && starts_with_ci(path, roots[k].path@) && forall|i: int|
                0 <= i < n && starts_with_ci(path, (#[trigger] roots[i]).path@)
                    ==> roots[i].path@.len() < roots[k].path@.len() || (roots[i].path@.len()
                    == roots[k].path@.len() && (if last {
                    i <= k
                } else {
                    k <= i
                })),
    decreases n,
{
    if n > 0 {
        law_a_path_belongs_to_the_deepest_folder(roots, path, last, n - 1);
        let before = deepest_folder(roots, path, last, n - 1);
        let root = roots[n - 1].path@;
        if starts_with_ci(path, root) && (before is None || root.len() > before->0.len() || (last
            && root.len() == before->0.len())) {
            assert(deepest_folder(roots, path, last, n) == Some(roots[n - 1].path@));
        } else if before is Some {
            let k = choose|k: int|
                0 <= k < n - 1 && deepest_folder(roots, path, last, n - 1) == Some(
                    (#[trigger] roots[k]).path@,
                ) && starts_with_ci(path, roots[k].path@) && forall|i: int|
                    0 <= i < n - 1 && starts_with_ci(path, (#[trigger] roots[i]).path@)
                        ==> roots[i].path@.len() < roots[k].path@.len() || (roots[i].path@.len()
                        == roots[k].path@.len() && (if last {
                        i <= k
                    } else {
                        k <= i
                    }));
            assert(deepest_folder(roots, path, last, n) == Some(roots[k].path@));
        }
    }
}

/// A project is looked for in a directory first and then in those above it, each in the one
/// before it, and not above the boundary.
pub proof fn law_projects_are_looked_for_upward(directory: Parts, boundary: Option<Parts>)
    ensures
        upward(directory, boundary).len() > 0,
        upward(directory, boundary)[0] == directory,
        forall|i: int|
            0 < i < upward(directory, boundary).len() ==> parent_of(
                upward(directory, boundary)[i - 1],
            ) == Some(#[trigger] upward(directory, boundary)[i]),
        forall|i: int|
            0 <= i < upward(directory, boundary).len() - 1 ==> !(boundary is Some && equal_ci(
                boundary->0,
                #[trigger] upward(directory, boundary)[i],
            )),
        ({
            let top = upward(directory, boundary)[upward(directory, boundary).len() - 1];
            ||| boundary is Some && equal_ci(boundary->0, top)
            ||| parent_of(top) is None
            ||| parent_of(top)->0.len() >= top.len()
        }),
    decreases directory.len(),
{
    let list = upward(directory, boundary);
    if !(boundary is Some && equal_ci(boundary->0, directory)) && parent_of(directory) is Some
        && parent_of(directory)->0.len() < directory.len() {
        let parent = parent_of(directory)->0;
        let rest = upward(parent, boundary);
        law_projects_are_looked_for_upward(parent, boundary);
        assert(list == seq![directory] + rest);
        assert forall|i: int| 0 < i < list.len() implies parent_of(list[i - 1]) == Some(
            #[trigger] list[i],
        ) by {
            assert(list[i] == rest[i - 1]);
            if i > 1 {
                assert(list[i - 1] == rest[i - 2]);
            }
        }
        assert forall|i: int| 0 <= i < list.len() - 1 implies !(boundary is Some && equal_ci(
            boundary->0,
            #[trigger] list[i],
        )) by {
            if i > 0 {
                assert(list[i] == rest[i - 1]);
            }
        }
        assert(list[list.len() - 1] == rest[rest.len() - 1]);
    }
}

/// What is known of directories is taken from what was found for exactly these, and what was
/// not found is missing.
pub proof fn law_directories_are_known_or_missing(
    directories: Seq<Parts>,
    found: Map<Parts, MembershipView>,
    n: int,
    i: int,
)
    requires
        0 <= i < n <= directories.len(),
    ensures
        found.contains_key(directories[i]) ==> known_of(directories, found, n).contains_key(
            directories[i],
        ) && known_of(directories, found, n)[directories[i]] == found[directories[i]],
        !found.contains_key(directories[i]) ==> missing_of(directories, found, n).contains(
            directories[i],
        ) && !known_of(directories, found, n).contains_key(directories[i]),
        forall|d: Parts| #[trigger]
            missing_of(directories, found, n).contains(d) ==> !found.contains_key(d),
    decreases n,
{
    lemma_known(directories, found, n);
    assert(known_of(directories, found, n).contains_key(directories[i])
        ==> found.contains_key(directories[i]));
    if found.contains_key(directories[i]) {
        assert(is_at(directories, directories[i], n));
        assert(known_of(directories, found, n).contains_key(directories[i]));
    } else {
        assert(is_at(directories, directories[i], n));
    }
}

spec fn is_at(list: Seq<Parts>, path: Parts, n: int) -> bool {
    exists|i: int| 0 <= i < n && #[trigger] list[i] == path
}

proof fn lemma_known(directories: Seq<Parts>, found: Map<Parts, MembershipView>, n: int)
    requires
        0 <= n <= directories.len(),
    ensures
        forall|d: Parts| #[trigger]
            known_of(directories, found, n).contains_key(d) <==> is_at(directories, d, n)
                && found.contains_key(d),
        forall|d: Parts|
            known_of(directories, found, n).contains_key(d) ==> #[trigger] known_of(
                directories,
                found,
                n,
            )[d] == found[d],
        forall|d: Parts| #[trigger]
            missing_of(directories, found, n).contains(d) <==> is_at(directories, d, n)
                && !found.contains_key(d),
    decreases n,
{
    if n > 0 {
        lemma_known(directories, found, n - 1);
        let last = directories[n - 1];
        let before = missing_of(directories, found, n - 1);
        let after = missing_of(directories, found, n);
        assert forall|d: Parts| #[trigger] is_at(directories, d, n) <==> is_at(
            directories,
            d,
            n - 1,
        ) || d == last by {
            if is_at(directories, d, n - 1) {
                let i = choose|i: int| 0 <= i < n - 1 && #[trigger] directories[i] == d;
                assert(directories[i] == d);
            }
            if d == last {
                assert(directories[n - 1] == d);
            }
            if is_at(directories, d, n) && d != last {
                let i = choose|i: int| 0 <= i < n && #[trigger] directories[i] == d;
                assert(directories[i] == d && i < n - 1);
            }
        }
        assert forall|d: Parts| #[trigger]
            known_of(directories, found, n).contains_key(d) <==> is_at(directories, d, n)
                && found.contains_key(d) by {
            assert(is_at(directories, d, n) <==> is_at(directories, d, n - 1) || d == last);
            assert(known_of(directories, found, n - 1).contains_key(d) <==> is_at(
                directories,
                d,
                n - 1,
            ) && found.contains_key(d));
        }
        assert forall|d: Parts| known_of(directories, found, n).contains_key(d) implies #[trigger] known_of(
        directories, found, n)[d] == found[d] by {
            if d != last {
                assert(known_of(directories, found, n - 1)[d] == found[d]);
            }
        }
        assert forall|d: Parts| #[trigger] after.contains(d) <==> is_at(directories, d, n)
            && !found.contains_key(d) by {
            assert(is_at(directories, d, n) <==> is_at(directories, d, n - 1) || d == last);
            assert(before.contains(d) <==> is_at(directories, d, n - 1) && !found.contains_key(d));
            lemma_pushed(before, last, d);
        }
    }
}

proof fn lemma_pushed<A>(list: Seq<A>, last: A, item: A)
    ensures
        list.push(last).contains(item) <==> list.contains(item) || item == last,
{
    let more = list.push(last);
    if list.contains(item) {
        let i = choose|i: int| 0 <= i < list.len() && list[i] == item;
        assert(more[i] == item);
    }
    if item == last {
        assert(more[list.len() as int] == item);
    }
    if more.contains(item) && item != last {
        let i = choose|i: int| 0 <= i < more.len() && more[i] == item;
        assert(list[i] == item);
    }
}

proof fn lemma_configuration_files(paths: Seq<Parts>, directories: Seq<Parts>, n: int, path: Parts)
    requires
        0 <= n <= directories.len(),
    ensures
        with_configuration_files(paths, directories, n).contains(path) <==> paths.contains(path)
            || exists|i: int| 0 <= i < n && #[trigger] configures(directories[i], path),
    decreases n,
{
    if n > 0 {
        lemma_configuration_files(paths, directories, n - 1, path);
        let before = with_configuration_files(paths, directories, n - 1);
        let lint = joined(directories[n - 1], parse_parts(".lint4d.toml"@));
        let format = joined(directories[n - 1], parse_parts(".fmt4d.toml"@));
        lemma_pushed(before, lint, path);
        lemma_pushed(before.push(lint), format, path);
        if configures(directories[n - 1], path) {
            assert(exists|i: int| 0 <= i < n && #[trigger] configures(directories[i], path));
        }
        if exists|i: int| 0 <= i < n && #[trigger] configures(directories[i], path) {
            let i = choose|i: int| 0 <= i < n && #[trigger] configures(directories[i], path);
            if i < n - 1 {
                assert(configures(directories[i], path));
            }
        }
    }
}

/// A path is the file of the linter or of the formatter in a directory.
pub open spec fn configures(directory: Parts, path: Parts) -> bool {
    ||| path == joined(directory, parse_parts(".lint4d.toml"@))
    ||| path == joined(directory, parse_parts(".fmt4d.toml"@))
}

/// For a project exactly the files are watched that it was found from, its own file, its main
/// source, and the files of the linter and the formatter in the directories searched.
pub proof fn law_what_is_watched_for_a_project(
    files: Seq<Parts>,
    context: ProjectContext,
    directories: Seq<Parts>,
    path: Parts,
)
    ensures
        watch_list(files, context, directories).contains(path) <==> {
            ||| files.contains(path)
            ||| context.project_file is Some && context.project_file->0@ == path
            ||| context.main_source is Some && context.main_source->0@ == path
            ||| exists|i: int|
                0 <= i < directories.len() && #[trigger] configures(directories[i], path)
        },
{
    let found = discovered_from(files, context);
    let all = with_configuration_files(found, directories, directories.len() as int);
    let sorted = sorted_list::<FilePath>(all);
    lemma_configuration_files(found, directories, directories.len() as int, path);
    law_sorting_orders_and_keeps::<FilePath>(all);
    law_leaving_out_repeats_keeps_every_item(sorted, sorted.len() as int);
    let project = match context.project_file {
        Some(file) => files.push(file@),
        None => files,
    };
    if context.project_file is Some {
        lemma_pushed(files, context.project_file->0@, path);
    }
    if context.main_source is Some {
        lemma_pushed(project, context.main_source->0@, path);
    }
    assert(sorted.contains(path) <==> all.contains(path));
    assert(sorted.take(sorted.len() as int) =~= sorted);
    assert(without_repeats(sorted, sorted.len() as int).contains(path) <==> sorted.contains(path));
}

proof fn lemma_read_stamp(reads: Seq<ReadView>, path: Parts, i: int)
    requires
        0 <= i <= reads.len(),
    ensures
        read_stamp(reads, path, i) is None <==> forall|k: int|
            i <= k < reads.len() ==> (#[trigger] reads[k]).path != path,
        forall|k: int|
            i <= k < reads.len() && (#[trigger] reads[k]).path == path && (forall|j: int|
                i <= j < k ==> (#[trigger] reads[j]).path != path) ==> read_stamp(reads, path, i)
                == Some(reads[k].stamp),
    decreases reads.len() - i,
{
    if i < reads.len() {
        lemma_read_stamp(reads, path, i + 1);
        if reads[i].path != path {
            assert forall|k: int|
                i <= k < reads.len() && (#[trigger] reads[k]).path == path && (forall|j: int|
                    i <= j < k ==> (#[trigger] reads[j]).path != path) implies read_stamp(
                reads,
                path,
                i,
            ) == Some(reads[k].stamp) by {
                assert(k > i);
            }
        }
    }
}

/// A file has the stamp of its first new reading, and of its first kept one only where it was
/// not read anew. It has none exactly where it was not read at all.
pub proof fn law_a_file_has_the_stamp_of_its_first_reading(
    new: Seq<ReadView>,
    kept: Seq<ReadView>,
    path: Parts,
    k: int,
)
    ensures
        0 <= k < new.len() && new[k].path == path && (forall|j: int|
            0 <= j < k ==> (#[trigger] new[j]).path != path) ==> stamp_read(new, kept, path)
            == Some(new[k].stamp),
        (forall|j: int| 0 <= j < new.len() ==> (#[trigger] new[j]).path != path) && 0 <= k
            < kept.len() && kept[k].path == path && (forall|j: int|
            0 <= j < k ==> (#[trigger] kept[j]).path != path) ==> stamp_read(new, kept, path)
            == Some(kept[k].stamp),
        stamp_read(new, kept, path) is None <==> (forall|j: int|
            0 <= j < new.len() ==> (#[trigger] new[j]).path != path) && (forall|j: int|
            0 <= j < kept.len() ==> (#[trigger] kept[j]).path != path),
{
    lemma_read_stamp(new, path, 0);
    lemma_read_stamp(kept, path, 0);
}

/// Readings that are brought together keep the first of each file.
pub proof fn law_the_first_reading_of_a_file_counts(
    kept: Seq<ReadView>,
    new: Seq<ReadView>,
    n: int,
    path: Parts,
)
    requires
        0 <= n <= new.len(),
    ensures
        read_stamp(kept, path, 0) is Some ==> read_stamp(merged_reads(kept, new, n), path, 0)
            == read_stamp(kept, path, 0),
        read_stamp(kept, path, 0) is None ==> read_stamp(merged_reads(kept, new, n), path, 0)
            == read_stamp(new.take(n), path, 0),
    decreases n,
{
    if n > 0 {
        law_the_first_reading_of_a_file_counts(kept, new, n - 1, path);
        let before = merged_reads(kept, new, n - 1);
        let last = new[n - 1];
        assert(new.take(n) =~= new.take(n - 1).push(last));
        lemma_one_more_reading(before, last, path);
        lemma_one_more_reading(new.take(n - 1), last, path);
        if last.path == path {
        } else {
        }
    } else {
        assert(new.take(0) =~= Seq::empty());
    }
}

proof fn lemma_one_more_reading(reads: Seq<ReadView>, last: ReadView, path: Parts)
    ensures
        read_stamp(reads, path, 0) is Some ==> read_stamp(reads.push(last), path, 0) == read_stamp(
            reads,
            path,
            0,
        ),
        read_stamp(reads, path, 0) is None ==> read_stamp(reads.push(last), path, 0) == (
        if last.path == path {
            Some(last.stamp)
        } else {
            None
        }),
{
    let more = reads.push(last);
    lemma_read_stamp(reads, path, 0);
    lemma_read_stamp(more, path, 0);
    if read_stamp(reads, path, 0) is Some {
        lemma_first_reading(reads, path);
        let k = choose|k: int|
            0 <= k < reads.len() && (#[trigger] reads[k]).path == path && forall|j: int|
                0 <= j < k ==> (#[trigger] reads[j]).path != path;
        assert(more[k] == reads[k]);
        assert forall|j: int| 0 <= j < k implies (#[trigger] more[j]).path != path by {
            assert(more[j] == reads[j]);
        }
    } else {
        assert forall|j: int| 0 <= j < reads.len() implies (#[trigger] more[j]).path != path by {
            assert(more[j] == reads[j]);
        }
        assert(more[reads.len() as int] == last);
    }
}

proof fn lemma_first_reading(reads: Seq<ReadView>, path: Parts)
    requires
        exists|k: int| 0 <= k < reads.len() && (#[trigger] reads[k]).path == path,
    ensures
        exists|k: int|
            0 <= k < reads.len() && (#[trigger] reads[k]).path == path && forall|j: int|
                0 <= j < k ==> (#[trigger] reads[j]).path != path,
    decreases reads.len(),
{
    let rest = reads.drop_last();
    if exists|k: int| 0 <= k < rest.len() && (#[trigger] rest[k]).path == path {
        lemma_first_reading(rest, path);
        let k = choose|k: int|
            0 <= k < rest.len() && (#[trigger] rest[k]).path == path && forall|j: int|
                0 <= j < k ==> (#[trigger] rest[j]).path != path;
        assert(reads[k] == rest[k]);
        assert forall|j: int| 0 <= j < k implies (#[trigger] reads[j]).path != path by {
            assert(reads[j] == rest[j]);
        }
    } else {
        let k = reads.len() - 1;
        assert forall|j: int| 0 <= j < k implies (#[trigger] reads[j]).path != path by {
            assert(reads[j] == rest[j]);
        }
        assert(reads[k].path == path);
    }
}

/// Of folders, those that a removed one is, whatever the case, go, and all others stay as they
/// are.
pub proof fn law_removed_folders_go(roots: Seq<WorkspaceRoot>, folder: Parts, n: int)
    requires
        0 <= n <= roots.len(),
    ensures
        roots_without(roots, folder, n) == picked(
            n,
            |i: int| !equal_ci(roots[i].path@, folder),
            |i: int| roots[i],
        ),
    decreases n,
{
    let keep = |i: int| !equal_ci(roots[i].path@, folder);
    let show = |i: int| roots[i];
    if n == 0 {
        lemma_none_picked(keep, show);
    } else {
        law_removed_folders_go(roots, folder, n - 1);
        lemma_picked(n, keep, show);
    }
}

/// Of files, those lie in a folder that are below it, whatever the case.
pub proof fn law_which_files_lie_in_a_folder(list: Seq<Seq<char>>, folder: Parts, n: int)
    requires
        0 <= n <= list.len(),
    ensures
        those_in(list, folder, n) == picked(
            n,
            |i: int| uri_path(list[i]) is Some && starts_with_ci(uri_path(list[i])->0, folder),
            |i: int| list[i],
        ),
    decreases n,
{
    let keep = |i: int| uri_path(list[i]) is Some && starts_with_ci(uri_path(list[i])->0, folder);
    let show = |i: int| list[i];
    if n == 0 {
        lemma_none_picked(keep, show);
    } else {
        law_which_files_lie_in_a_folder(list, folder, n - 1);
        lemma_picked(n, keep, show);
    }
}

/// The folders that are added are those that were not known, each once.
pub proof fn law_which_folders_are_new(known: Seq<Parts>, cwd: Parts, added: Seq<Parts>, n: int)
    requires
        0 <= n <= added.len(),
    ensures
        new_folders(known, cwd, added, n).no_duplicates(),
        forall|i: int|
            0 <= i < n && !known.contains(#[trigger] absolute_parts(cwd, added[i])) ==> new_folders(
                known,
                cwd,
                added,
                n,
            ).contains(absolute_parts(cwd, added[i])),
        forall|k: int|
            0 <= k < new_folders(known, cwd, added, n).len() ==> !known.contains(
                #[trigger] new_folders(known, cwd, added, n)[k],
            ) && is_added(cwd, added, new_folders(known, cwd, added, n)[k]),
    decreases n,
{
    if n > 0 {
        law_which_folders_are_new(known, cwd, added, n - 1);
        let before = new_folders(known, cwd, added, n - 1);
        let after = new_folders(known, cwd, added, n);
        let folder = absolute_parts(cwd, added[n - 1]);
        assert forall|i: int|
            0 <= i < n && !known.contains(#[trigger] absolute_parts(cwd, added[i])) implies after.contains(
        absolute_parts(cwd, added[i])) by {
            lemma_pushed(before, folder, absolute_parts(cwd, added[i]));
        }
        assert forall|k: int| 0 <= k < after.len() implies !known.contains(#[trigger] after[k])
            && is_added(cwd, added, after[k]) by {
            if k < before.len() {
                assert(after[k] == before[k]);
            } else {
                assert(absolute_parts(cwd, added[n - 1]) == after[k]);
            }
        }
    }
}

/// A path is that of an added folder.
pub open spec fn is_added(cwd: Parts, added: Seq<Parts>, folder: Parts) -> bool {
    exists|i: int| 0 <= i < added.len() && #[trigger] absolute_parts(cwd, added[i]) == folder
}

/// The sources of a folder are in the folder itself and in the configured paths, seen from it.
pub proof fn law_where_the_sources_of_a_folder_are(
    cwd: Parts,
    folder: Parts,
    sources: Seq<Seq<char>>,
    n: int,
    root: Parts,
)
    requires
        0 <= n <= sources.len(),
    ensures
        source_roots_of(cwd, folder, sources, n).contains(root) <==> root == folder || exists|i: int|
            0 <= i < n && absolute_parts(cwd, joined(folder, parse_parts(#[trigger] sources[i])))
                == root,
        source_roots_of(cwd, folder, sources, n)[0] == folder,
        source_roots_of(cwd, folder, sources, n).len() > 0,
    decreases n,
{
    if n > 0 {
        law_where_the_sources_of_a_folder_are(cwd, folder, sources, n - 1, root);
        let before = source_roots_of(cwd, folder, sources, n - 1);
        let last = absolute_parts(cwd, joined(folder, parse_parts(sources[n - 1])));
        lemma_pushed(before, last, root);
        if last == root {
            assert(exists|i: int|
                0 <= i < n && absolute_parts(
                    cwd,
                    joined(folder, parse_parts(#[trigger] sources[i])),
                ) == root);
        }
        if exists|i: int|
            0 <= i < n && absolute_parts(cwd, joined(folder, parse_parts(#[trigger] sources[i])))
                == root {
            let i = choose|i: int|
                0 <= i < n && absolute_parts(
                    cwd,
                    joined(folder, parse_parts(#[trigger] sources[i])),
                ) == root;
            if i < n - 1 {
                assert(absolute_parts(cwd, joined(folder, parse_parts(sources[i]))) == root);
            }
        }
    } else {
        assert(seq![folder][0] == folder);
        if source_roots_of(cwd, folder, sources, 0).contains(root) {
            let k = choose|k: int| 0 <= k < 1 && seq![folder][k] == root;
        }
    }
}

/// Whatever the patterns say, nothing is searched below a directory of version control, of an
/// editor or of a build that lies in a source root.
pub proof fn law_what_is_never_searched(
    excludes: ExcludeMatcher,
    path: Parts,
    root: Parts,
    i: int,
)
    requires
        starts_with(path, root),
        root.len() <= i < path.len(),
        path[i] == ".git"@ || path[i] == ".hg"@ || path[i] == ".svn"@ || path[i] == ".worktrees"@
            || path[i] == ".idea"@ || path[i] == ".vscode"@ || path[i] == "target"@ || path[i]
            == "node_modules"@ || path[i] == "dist"@ || path[i] == "build"@ || path[i]
            == "coverage"@,
    ensures
        excludes.excludes(path, root),
{
    assert(has_default_exclusion(path, root));
}

/// Of the texts that a client gives as patterns, those count that are patterns, in their order,
/// with one mark between the parts of a path.
pub proof fn law_which_patterns_count(patterns: Seq<Seq<char>>, n: int)
    requires
        0 <= n <= patterns.len(),
    ensures
        valid_patterns(patterns, n) == picked(
            n,
            |i: int| is_glob(replaced(patterns[i], '\\', '/')),
            |i: int| replaced(patterns[i], '\\', '/'),
        ),
    decreases n,
{
    let keep = |i: int| is_glob(replaced(patterns[i], '\\', '/'));
    let show = |i: int| replaced(patterns[i], '\\', '/');
    if n == 0 {
        lemma_none_picked(keep, show);
    } else {
        law_which_patterns_count(patterns, n - 1);
        lemma_picked(n, keep, show);
    }
}

/// A document that is loaded stays in the context that it is read in, unless that is given as
/// its owner's. An open document is read in the context that it is open in.
pub proof fn law_documents_stay_in_their_context(
    store: StoreView,
    open: Map<Seq<char>, DocumentView>,
    uri: Seq<char>,
    key: KeyView,
    owned: bool,
)
    ensures
        ({
            let after = rebound(store, open, uri, key, owned);
            let opened = store.open_document_contexts;
            let read = store.document_contexts;
            &&& owned ==> after.document_contexts.contains_key(uri) && after.document_contexts[uri]
                == key
            &&& open.contains_key(uri) ==> after.open_document_contexts.contains_key(uri)
                && after.document_contexts.contains_key(uri) && after.document_contexts[uri]
                == after.open_document_contexts[uri] && selected_key(after, uri)
                == after.open_document_contexts[uri]
            &&& open.contains_key(uri) && !owned && opened.contains_key(uri)
                ==> after.open_document_contexts[uri] == opened[uri]
            &&& open.contains_key(uri) && !opened.contains_key(uri)
                ==> after.open_document_contexts[uri] == key
            &&& !open.contains_key(uri) && !owned && read.contains_key(uri) ==> after == store
            &&& !open.contains_key(uri) && !read.contains_key(uri)
                ==> after.document_contexts.contains_key(uri) && after.document_contexts[uri] == key
            &&& !open.contains_key(uri) ==> after.open_document_contexts == opened
            &&& after.contexts == store.contexts && after.owners == store.owners
        }),
{
}

/// Of open documents those count as nothing but their text whose file is gone and that only the
/// file system leads to.
pub proof fn law_which_documents_are_but_their_text(
    uris: Seq<Seq<char>>,
    open: Map<Seq<char>, DocumentView>,
    gone: Set<Seq<char>>,
    context: ProjectContext,
    policies: Map<Seq<char>, EntryView>,
    n: int,
)
    requires
        0 <= n <= uris.len(),
    ensures
        overlay_paths(uris, open, gone, context, policies, n) == picked(
            n,
            |i: int| is_but_text(open, gone, context, policies, uris[i]),
            |i: int| uri_path(uris[i])->0,
        ),
    decreases n,
{
    let keep = |i: int| is_but_text(open, gone, context, policies, uris[i]);
    let show = |i: int| uri_path(uris[i])->0;
    if n == 0 {
        lemma_none_picked(keep, show);
    } else {
        law_which_documents_are_but_their_text(uris, open, gone, context, policies, n - 1);
        lemma_picked(n, keep, show);
    }
}

/// A document is open with a text, its file is gone, and nothing but the file system leads to
/// it.
pub open spec fn is_but_text(
    open: Map<Seq<char>, DocumentView>,
    gone: Set<Seq<char>>,
    context: ProjectContext,
    policies: Map<Seq<char>, EntryView>,
    uri: Seq<char>,
) -> bool {
    let entry = path_entry(
        context,
        uri_path(uri)->0,
        if policies.contains_key(uri) {
            Some(policies[uri])
        } else {
            None
        },
    );
    &&& open.contains_key(uri) && open[uri].text is Some
    &&& uri_path(uri) is Some && gone.contains(uri)
    &&& entry is Some && entry->0.provenance is LegacyNative
}

proof fn lemma_search(records: Seq<RecordView>, changed: Seq<char>, parent: bool, i: int)
    requires
        0 <= i <= records.len(),
    ensures
        search_records(records, changed, parent, i).1 <==> exists|k: int|
            i <= k < records.len() && concerned(#[trigger] records[k], changed, parent),
    decreases records.len() - i,
{
    if i < records.len() {
        lemma_search(records, changed, parent, i + 1);
        if concerned(records[i], changed, parent) {
            assert(exists|k: int|
                i <= k < records.len() && concerned(#[trigger] records[k], changed, parent));
        }
    }
}

/// A change of a file concerns exactly the open documents whose findings were computed from
/// something that it is.
pub proof fn law_a_change_concerns_what_was_computed_from_it(
    dependencies: Map<Seq<char>, Seq<RecordView>>,
    documents: Map<Seq<char>, DocumentView>,
    changed: Seq<char>,
    parent: bool,
    uri: Seq<char>,
)
    requires
        dependencies.dom().finite(),
    ensures
        dependents_of(
            dependencies,
            documents,
            changed,
            parent,
            in_order(dependencies.dom()).len() as int,
        ).0.contains(uri) <==> dependencies.contains_key(uri) && documents.contains_key(uri)
            && exists|k: int|
            0 <= k < dependencies[uri].len() && concerned(
                #[trigger] dependencies[uri][k],
                changed,
                parent,
            ),
{
    let keys = in_order(dependencies.dom());
    lemma_finite_set_has_order(dependencies.dom());
    lemma_dependents(dependencies, documents, changed, parent, uri, keys.len() as int);
    assert(keys.to_set().contains(uri) <==> dependencies.dom().contains(uri));
    if dependencies.contains_key(uri) {
        assert(keys.contains(uri));
        let i = choose|i: int| 0 <= i < keys.len() && keys[i] == uri;
        assert(keys[i] == uri);
    }
}

proof fn lemma_dependents(
    dependencies: Map<Seq<char>, Seq<RecordView>>,
    documents: Map<Seq<char>, DocumentView>,
    changed: Seq<char>,
    parent: bool,
    uri: Seq<char>,
    n: int,
)
    requires
        0 <= n <= in_order(dependencies.dom()).len(),
    ensures
        dependents_of(dependencies, documents, changed, parent, n).0.contains(uri) <==> (exists|
            i: int,
        |
            0 <= i < n && #[trigger] in_order(dependencies.dom())[i] == uri)
            && documents.contains_key(uri) && exists|k: int|
            0 <= k < dependencies[uri].len() && concerned(
                #[trigger] dependencies[uri][k],
                changed,
                parent,
            ),
    decreases n,
{
    if n > 0 {
        lemma_dependents(dependencies, documents, changed, parent, uri, n - 1);
        let keys = in_order(dependencies.dom());
        let before = dependents_of(dependencies, documents, changed, parent, n - 1).0;
        lemma_search(dependencies[keys[n - 1]], changed, parent, 0);
        lemma_pushed(before, keys[n - 1], uri);
        if keys[n - 1] == uri {
            assert(exists|i: int| 0 <= i < n && #[trigger] keys[i] == uri);
        }
        if exists|i: int| 0 <= i < n && #[trigger] keys[i] == uri {
            let i = choose|i: int| 0 <= i < n && #[trigger] keys[i] == uri;
            if i < n - 1 {
                assert(keys[i] == uri);
            }
        }
    }
}

/// A change of a file concerns a record exactly where it is the file that the record stands
/// for, one of the candidates that it looked at, one in a directory that it looked at where that
/// counts, or one that it missed, all whatever the case.
pub proof fn law_which_records_a_change_concerns(
    record: RecordView,
    changed: Seq<char>,
    parent: bool,
)
    ensures
        ({
            let path = uri_path(canonical(changed));
            let own = dependency_uri_of(record) == canonical(changed);
            let looked = path is Some && exists|i: int|
                0 <= i < record.candidates.len() && equal_ci(
                    #[trigger] record.candidates[i],
                    path->0,
                );
            let beside = parent && (record.directory_observation || record.observes_membership)
                && record.path is Some && path is Some && parent_of(path->0) is Some && equal_ci(
                record.path->0,
                parent_of(path->0)->0,
            );
            let missed = record.missing_provider_candidate && record.path is Some && path is Some
                && equal_ci(record.path->0, path->0);
            concerned(record, changed, parent) <==> own || looked || beside || missed
        }),
        record.path is Some && path_uri(normal(record.path->0)) is Some ==> dependency_uri_of(
            record,
        ) == canonical(path_uri(normal(record.path->0))->0),
        record.path is None ==> dependency_uri_of(record) == canonical(record.uri),
{
}

/// A record of an open source holds exactly where nothing that it rests on changed, where the
/// source is still open with a text, and where that is the text that was read. One of a closed
/// source holds exactly where nothing changed and where its file has the stamp that it had.
pub proof fn law_when_a_record_holds(
    current: Current,
    record: RecordView,
    facts: RecordFacts,
    source: u64,
    configuration: u64,
)
    requires
        record.content_hash is None,
        !facts.overlay.parsed_changed,
        !record.auto_import_provider_observation,
        record.missing_provider_scope is None,
        record.candidates.len() == 0,
        facts.auto_imports@.len() == 0,
        !record.missing_provider_candidate,
    ensures
        ({
            let v = current.generations@;
            let uri = dependency_uri_of(record);
            let documents = current.documents@;
            let stamps = current.disk_stamps@;
            let read_later = !record.open && v.source_changes.contains_key(uri)
                && v.source_changes[uri] > source;
            let configured_later = v.configuration_changes.contains_key(uri)
                && v.configuration_changes[uri] > configuration;
            record_staleness(current, record, facts, source, configuration) is None <==> {
                &&& !read_later && !configured_later
                &&& record.open ==> documents.contains_key(record.uri)
                    && documents[record.uri].text == Some(record.text)
                &&& !record.open && record.path is None && record.stamp is Some
                    && stamps.contains_key(uri) ==> stamps[uri] == record.stamp->0
            }
        }),
{
}

/// A path changed after a generation, whatever its case.
pub open spec fn changed_since(current: Current, path: Parts, generation: u64) -> bool {
    exists|other: Parts| #[trigger]
        current.generations@.observations.contains_key(other)
            && current.generations@.observations[other] > generation && equal_ci(other, path)
}

/// A record does not hold where a file changed that it looked at among others, that it missed,
/// or in a scope that it searched, or where its configuration did.
pub proof fn law_what_makes_a_record_stale(
    current: Current,
    record: RecordView,
    facts: RecordFacts,
    source: u64,
    configuration: u64,
    i: int,
)
    ensures
        ({
            let v = current.generations@;
            let stale = record_staleness(current, record, facts, source, configuration) is Some;
            &&& record.missing_provider_candidate && record.path is Some && changed_since(
                current,
                record.path->0,
                source,
            ) ==> stale
            &&& 0 <= i < record.candidates.len() && changed_since(
                current,
                record.candidates[i],
                source,
            ) ==> stale
            &&& 0 <= i < facts.scope_paths@.len() && record.missing_provider_scope is Some
                && v.observations.contains_key(facts.scope_paths@[i]@)
                && v.observations[facts.scope_paths@[i]@] > source && scope_accepts(
                current.roots@,
                facts.scope_paths@[i]@,
                record.missing_provider_scope->0.path_entry.provenance is Mapped,
            ) ==> stale
            &&& v.configuration_changes.contains_key(dependency_uri_of(record))
                && v.configuration_changes[dependency_uri_of(record)] > configuration ==> stale
            &&& record.open && !current.documents@.contains_key(record.uri) ==> stale
        }),
{
    let v = current.generations@;
    if record.missing_provider_candidate && record.path is Some && changed_since(
        current,
        record.path->0,
        source,
    ) {
        let other = choose|other: Parts| #[trigger]
            v.observations.contains_key(other) && v.observations[other] > source && equal_ci(
                other,
                record.path->0,
            );
        assert(crate::staleness::changed_after(v, other, source));
        assert(crate::staleness::changed_after_ci(v, record.path->0, source));
    }
    if 0 <= i < record.candidates.len() && changed_since(current, record.candidates[i], source) {
        let other = choose|other: Parts| #[trigger]
            v.observations.contains_key(other) && v.observations[other] > source && equal_ci(
                other,
                record.candidates[i],
            );
        assert(crate::staleness::changed_after(v, other, source));
        assert(crate::staleness::changed_after_ci(v, record.candidates[i], source));
    }
    if 0 <= i < facts.scope_paths@.len() && v.observations.contains_key(facts.scope_paths@[i]@)
        && v.observations[facts.scope_paths@[i]@] > source {
        let paths = crate::sorting::views(facts.scope_paths@);
        assert(paths[i] == facts.scope_paths@[i]@);
        assert(crate::staleness::changed_after(v, paths[i], source));
    }
}

proof fn lemma_one_more_uri(list: Seq<Seq<char>>, uri: Seq<char>, n: int)
    requires
        0 < n <= list.len(),
    ensures
        is_listed(list, uri, n) <==> is_listed(list, uri, n - 1) || uri == list[n - 1],
{
    if is_listed(list, uri, n - 1) {
        let i = choose|i: int| 0 <= i < n - 1 && #[trigger] list[i] == uri;
        assert(list[i] == uri);
    }
    if is_listed(list, uri, n) && uri != list[n - 1] {
        let i = choose|i: int| 0 <= i < n && #[trigger] list[i] == uri;
        assert(list[i] == uri && i < n - 1);
    }
}

proof fn lemma_forgotten_each(v: SourcesView, list: Seq<Seq<char>>, n: int, uri: Seq<char>)
    requires
        0 <= n <= list.len(),
    ensures
        forgotten_each(v, list, n).sizes.contains_key(uri) <==> v.sizes.contains_key(uri)
            && !is_listed(list, uri, n),
        forgotten_each(v, list, n).sizes.contains_key(uri) ==> forgotten_each(
            v,
            list,
            n,
        ).sizes[uri] == v.sizes[uri],
        forgotten_each(v, list, n).store.owners == v.store.owners,
    decreases n,
{
    if n > 0 {
        lemma_forgotten_each(v, list, n - 1, uri);
        lemma_one_more_uri(list, uri, n);
    }
}

proof fn lemma_without_keys<V>(m: Map<Seq<char>, V>, list: Seq<Seq<char>>, n: int, uri: Seq<char>)
    requires
        0 <= n <= list.len(),
    ensures
        without_keys(m, list, n).contains_key(uri) <==> m.contains_key(uri) && !is_listed(
            list,
            uri,
            n,
        ),
        without_keys(m, list, n).contains_key(uri) ==> without_keys(m, list, n)[uri] == m[uri],
    decreases n,
{
    if n > 0 {
        lemma_without_keys(m, list, n - 1, uri);
        lemma_one_more_uri(list, uri, n);
    }
}

proof fn lemma_those_in(keys: Set<Seq<char>>, folder: Parts, uri: Seq<char>)
    requires
        keys.finite(),
    ensures
        ({
            let all = in_order(keys);
            let some = those_in(all, folder, all.len() as int);
            is_listed(some, uri, some.len() as int) <==> keys.contains(uri) && uri_path(uri) is Some
                && starts_with_ci(uri_path(uri)->0, folder)
        }),
{
    let all = in_order(keys);
    let some = those_in(all, folder, all.len() as int);
    lemma_finite_set_has_order(keys);
    law_which_files_lie_in_a_folder(all, folder, all.len() as int);
    let keep = |i: int| uri_path(all[i]) is Some && starts_with_ci(uri_path(all[i])->0, folder);
    let show = |i: int| all[i];
    lemma_picked_holds(all.len() as int, keep, show, uri);
    assert(all.to_set().contains(uri) <==> keys.contains(uri));
    if keys.contains(uri) && uri_path(uri) is Some && starts_with_ci(uri_path(uri)->0, folder) {
        assert(all.contains(uri));
        let i = choose|i: int| 0 <= i < all.len() && all[i] == uri;
        assert(keep(i) && show(i) == uri);
        assert(some.contains(uri));
        let k = choose|k: int| 0 <= k < some.len() && some[k] == uri;
        assert(some[k] == uri);
    }
    if is_listed(some, uri, some.len() as int) {
        let k = choose|k: int| 0 <= k < some.len() && #[trigger] some[k] == uri;
        assert(some.contains(uri));
        let i = choose|i: int| 0 <= i < all.len() && #[trigger] keep(i) && show(i) == uri;
        assert(all[i] == uri);
        assert(all.contains(uri));
    }
}

/// When a folder is removed, exactly the sources and the owners of files in it are forgotten.
pub proof fn law_what_lies_in_a_removed_folder_is_forgotten(
    v: SourcesView,
    folder: Parts,
    uri: Seq<char>,
)
    requires
        v.sizes.dom().finite(),
        v.store.owners.dom().finite(),
    ensures
        ({
            let after = sources_without_folder(v, folder);
            let inside = uri_path(uri) is Some && starts_with_ci(uri_path(uri)->0, folder);
            &&& after.sizes.contains_key(uri) <==> v.sizes.contains_key(uri) && !inside
            &&& after.sizes.contains_key(uri) ==> after.sizes[uri] == v.sizes[uri]
            &&& after.store.owners.contains_key(uri) <==> v.store.owners.contains_key(uri)
                && !inside
            &&& after.store.owners.contains_key(uri) ==> after.store.owners[uri]
                == v.store.owners[uri]
        }),
{
    let known = SourcesView { store: store_without_folder(v.store, folder), ..v };
    let all = in_order(v.sizes.dom());
    let list = those_in(all, folder, all.len() as int);
    lemma_those_in(v.sizes.dom(), folder, uri);
    lemma_forgotten_each(known, list, list.len() as int, uri);
    let owners = in_order(v.store.owners.dom());
    let gone = those_in(owners, folder, owners.len() as int);
    lemma_those_in(v.store.owners.dom(), folder, uri);
    lemma_without_keys(v.store.owners, gone, gone.len() as int, uri);
}

} // verus!
