//! Which packages are found, and what is found in them.

use vstd::prelude::*;

use crate::caches::Kept;
use crate::discovery::read_stamp;
use crate::excludes::{ExcludeMatcher, WorkspaceRoot};
use crate::names::{has_extension, names_unit};
use crate::native::shown;
use crate::package_lookup::{
    entries_taken, lookup_start, package_step, package_taken, units_taken, with_facts, LookupView,
    PackageEntryView, PackageFacts, PackageUnitView, MAX_PACKAGE_LOOKUPS,
    MAX_PACKAGE_UNIT_CANDIDATES,
};
use crate::package_scan::{
    chosen_descriptors, descriptors_in, directories_in, directory_scanned, entries_in, kinds_known,
    read_entries, scan_start, searched_in, with_descriptors, CatalogueView, Listed,
    PackageCatalogue, PackageScanView, ScanEntry, ScanEntryView, ScanKind, StampedView,
    MAX_PACKAGE_CATALOGUE_ENTRIES,
};
use crate::package_watch::{among_ci, metadata_stamp, rests_on, with_package_paths};
use crate::packages::{
    catalogue_fresh, catalogued, folder_of_context, folder_roots, readable_from, unchanged_from,
    uses_root, with_mapped_roots, with_new_paths, CatalogueKeyView, MappedRoot,
};
use crate::paths::{stem_of, Parts};
use crate::picks::{lemma_none_picked, lemma_picked, lemma_picked_holds, picked};
use crate::project::{KeyView, PathStamp, ProjectContext, ReadView, StateView};
use crate::sorting::{law_sorting_orders_and_keeps, sorted_list, views};
use crate::strings::lower;

verus! {

/// A package is looked into exactly where all the places were searched in which it may be and
/// exactly one descriptor was found. Where not all were searched, the lookup names nothing and
/// ends; where none or several were found, it goes on and says so.
pub proof fn law_a_package_has_one_descriptor(
    lookup: LookupView,
    package: Seq<char>,
    descriptors: Seq<Parts>,
    complete: bool,
)
    ensures
        ({
            let (after, next) = package_step(lookup, package, descriptors, complete);
            &&& !complete ==> next is None && !after.complete && after.candidates.len() == 0
            &&& complete && descriptors.len() == 1 ==> after == lookup && next == Some(
                Some(descriptors[0]),
            )
            &&& complete && descriptors.len() != 1 ==> next == Some(None::<Parts>)
                && after.warnings.len() == lookup.warnings.len() + 1 && after.candidates
                == lookup.candidates && after.complete == lookup.complete
        }),
{
}

/// No package is looked into where there are too many, and nothing is named or said before the
/// first otherwise.
pub proof fn law_not_too_many_packages_are_looked_into(packages: nat, requested: Seq<char>)
    ensures
        lookup_start(packages, requested).complete <==> packages <= MAX_PACKAGE_LOOKUPS,
        lookup_start(packages, requested).candidates.len() == 0,
        lookup_start(packages, requested).warnings.len() == (if packages <= MAX_PACKAGE_LOOKUPS {
            0int
        } else {
            1
        }),
{
}

/// A path is that of one of the first `n` files that may be read.
pub open spec fn is_allowed(entries: Seq<PackageEntryView>, path: Parts, n: int) -> bool {
    exists|i: int|
        0 <= i < n && (#[trigger] entries[i]).allowed && entries[i].path == path
}

/// A path is that of a file that may be read, of one of the first `n` units that is meant.
pub open spec fn is_of_meant_unit(
    units: Seq<PackageUnitView>,
    requested: Seq<char>,
    lookup_name: Seq<char>,
    namespaces: Seq<Seq<char>>,
    path: Parts,
    n: int,
) -> bool {
    exists|u: int|
        0 <= u < n && #[trigger] names_unit(units[u].name, requested, lookup_name, namespaces)
            && is_allowed(units[u].entries, path, units[u].entries.len() as int)
}

proof fn lemma_pushed<A>(list: Seq<A>, last: A, item: A)
    ensures
        list.push(last).contains(item) <==> list.contains(item) || item == last,
{
    let more = list.push(last);
    if list.contains(item) {
        let i = choose|i: int| 0 <= i < list.len() && list[i] == item;
        assert(more[i] == item);
    }
    if item == last {
        assert(more[list.len() as int] == item);
    }
    if more.contains(item) && item != last {
        let i = choose|i: int| 0 <= i < more.len() && more[i] == item;
        assert(list[i] == item);
    }
}

proof fn lemma_entries(
    lookup: LookupView,
    package: Seq<char>,
    requested: Seq<char>,
    entries: Seq<PackageEntryView>,
    path: Parts,
    n: int,
)
    requires
        0 <= n <= entries.len(),
        lookup.candidates.len() <= MAX_PACKAGE_UNIT_CANDIDATES,
    ensures
        ({
            let (after, goes_on, _) = entries_taken(lookup, package, requested, entries, n);
            &&& goes_on ==> (after.candidates.contains(path) <==> lookup.candidates.contains(path)
                || is_allowed(entries, path, n))
            &&& goes_on ==> after.complete == lookup.complete
            &&& !goes_on ==> !after.complete && after.candidates.len() == 0
            &&& after.candidates.len() <= MAX_PACKAGE_UNIT_CANDIDATES
        }),
    decreases n,
{
    if n > 0 {
        lemma_entries(lookup, package, requested, entries, path, n - 1);
        let before = entries_taken(lookup, package, requested, entries, n - 1);
        let last = entries[n - 1];
        if before.1 {
            lemma_pushed(before.0.candidates, last.path, path);
            if is_allowed(entries, path, n - 1) {
                let i = choose|i: int|
                    0 <= i < n - 1 && (#[trigger] entries[i]).allowed && entries[i].path == path;
                assert(entries[i].allowed);
                assert(is_allowed(entries, path, n));
            }
            if is_allowed(entries, path, n) && !(last.allowed && last.path == path) {
                let i = choose|i: int|
                    0 <= i < n && (#[trigger] entries[i]).allowed && entries[i].path == path;
                assert(entries[i].allowed && i < n - 1);
                assert(is_allowed(entries, path, n - 1));
            }
            if last.allowed && last.path == path {
                assert(is_allowed(entries, path, n));
            }
        }
    }
}

proof fn lemma_units(
    lookup: LookupView,
    package: Seq<char>,
    requested: Seq<char>,
    lookup_name: Seq<char>,
    namespaces: Seq<Seq<char>>,
    units: Seq<PackageUnitView>,
    path: Parts,
    n: int,
)
    requires
        0 <= n <= units.len(),
        lookup.candidates.len() <= MAX_PACKAGE_UNIT_CANDIDATES,
    ensures
        ({
            let (after, goes_on, _, meant) = units_taken(
                lookup,
                package,
                requested,
                lookup_name,
                namespaces,
                units,
                n,
            );
            &&& goes_on ==> (after.candidates.contains(path) <==> lookup.candidates.contains(path)
                || is_of_meant_unit(units, requested, lookup_name, namespaces, path, n))
            &&& goes_on ==> after.complete == lookup.complete
            &&& goes_on ==> (meant <==> exists|u: int|
                0 <= u < n && #[trigger] names_unit(
                    units[u].name,
                    requested,
                    lookup_name,
                    namespaces,
                ))
            &&& !goes_on ==> !after.complete && after.candidates.len() == 0
            &&& after.candidates.len() <= MAX_PACKAGE_UNIT_CANDIDATES
        }),
    decreases n,
{
    if n > 0 {
        lemma_units(
            lookup,
            package,
            requested,
            lookup_name,
            namespaces,
            units,
            path,
            n - 1,
        );
        let before = units_taken(
            lookup,
            package,
            requested,
            lookup_name,
            namespaces,
            units,
            n - 1,
        );
        let last = units[n - 1];
        if before.1 {
            let was = is_of_meant_unit(units, requested, lookup_name, namespaces, path, n - 1);
            let is = is_of_meant_unit(units, requested, lookup_name, namespaces, path, n);
            let here = names_unit(last.name, requested, lookup_name, namespaces) && is_allowed(
                last.entries,
                path,
                last.entries.len() as int,
            );
            if was {
                let u = choose|u: int|
                    0 <= u < n - 1 && #[trigger] names_unit(
                        units[u].name,
                        requested,
                        lookup_name,
                        namespaces,
                    ) && is_allowed(units[u].entries, path, units[u].entries.len() as int);
                assert(names_unit(units[u].name, requested, lookup_name, namespaces));
                assert(is);
            }
            if is && !here {
                let u = choose|u: int|
                    0 <= u < n && #[trigger] names_unit(
                        units[u].name,
                        requested,
                        lookup_name,
                        namespaces,
                    ) && is_allowed(units[u].entries, path, units[u].entries.len() as int);
                assert(names_unit(units[u].name, requested, lookup_name, namespaces) && u < n - 1);
                assert(was);
            }
            if here {
                assert(names_unit(units[n - 1].name, requested, lookup_name, namespaces));
                assert(is);
            }
            if names_unit(last.name, requested, lookup_name, namespaces) {
                lemma_entries(
                    before.0,
                    package,
                    requested,
                    last.entries,
                    path,
                    last.entries.len() as int,
                );
            }
        }
    }
}

/// A package adds exactly the files of the units that are meant and that may be read to the
/// candidates, as far as these are not too many; then the lookup ends and names none.
pub proof fn law_a_package_gives_the_units_that_are_meant(
    lookup: LookupView,
    package: Seq<char>,
    descriptor: Parts,
    requested: Seq<char>,
    lookup_name: Seq<char>,
    namespaces: Seq<Seq<char>>,
    facts: PackageFacts,
    path: Parts,
)
    requires
        lookup.candidates.len() <= MAX_PACKAGE_UNIT_CANDIDATES,
    ensures
        ({
            let (after, goes_on) = package_taken(
                lookup,
                package,
                descriptor,
                requested,
                lookup_name,
                namespaces,
                facts,
            );
            let units = views(facts.units@);
            &&& goes_on ==> (after.candidates.contains(path) <==> lookup.candidates.contains(path)
                || is_of_meant_unit(
                units,
                requested,
                lookup_name,
                namespaces,
                path,
                units.len() as int,
            ))
            &&& goes_on ==> after.complete == lookup.complete
            &&& !goes_on ==> !after.complete && after.candidates.len() == 0
            &&& after.candidates.len() <= MAX_PACKAGE_UNIT_CANDIDATES
        }),
{
    let units = views(facts.units@);
    lemma_units(
        with_facts(lookup, descriptor, facts),
        package,
        requested,
        lookup_name,
        namespaces,
        units,
        path,
        units.len() as int,
    );
}

/// A unit of a package is meant by a request for its own name, for a name that stands for it,
/// or for its name without a namespace of the project.
pub proof fn law_which_names_mean_a_unit(
    actual: Seq<char>,
    requested: Seq<char>,
    lookup_name: Seq<char>,
    namespaces: Seq<Seq<char>>,
    i: int,
)
    ensures
        actual == requested || actual == lookup_name ==> names_unit(
            actual,
            requested,
            lookup_name,
            namespaces,
        ),
        0 <= i < namespaces.len() && !lookup_name.contains('.') && actual == namespaces[i] + "."@
            + lookup_name ==> names_unit(actual, requested, lookup_name, namespaces),
        names_unit(actual, requested, lookup_name, namespaces) && lower(actual) != lower(requested)
            && lower(actual) != lower(lookup_name) ==> !lookup_name.contains('.') && exists|k: int|
            0 <= k < namespaces.len() && lower(actual) == lower(
                #[trigger] namespaces[k] + "."@ + lookup_name,
            ),
{
    if 0 <= i < namespaces.len() {
        assert(namespaces[i] + "."@ + lookup_name == namespaces[i] + "."@ + lookup_name);
    }
}

/// An entry of a directory is a descriptor of a package: a file with its name, whatever the
/// case, of this extension, that is not left out.
pub open spec fn is_descriptor(
    entry: ScanEntryView,
    name: Seq<char>,
    extension: Seq<char>,
    excludes: ExcludeMatcher,
    root: Parts,
) -> bool {
    &&& entry.kind == Some(ScanKind::File)
    &&& !excludes.excludes(entry.path, root)
    &&& has_extension(entry.path, extension)
    &&& stem_of(entry.path) is Some && lower(shown(stem_of(entry.path)->0)) == name
}

proof fn lemma_descriptors(
    entries: Seq<ScanEntryView>,
    name: Seq<char>,
    extension: Seq<char>,
    excludes: ExcludeMatcher,
    root: Parts,
    n: int,
)
    requires
        0 <= n <= entries.len(),
    ensures
        descriptors_in(entries, name, extension, excludes, root, n) == picked(
            n,
            |i: int| is_descriptor(entries[i], name, extension, excludes, root),
            |i: int| entries[i].path,
        ),
    decreases n,
{
    let keep = |i: int| is_descriptor(entries[i], name, extension, excludes, root);
    let show = |i: int| entries[i].path;
    if n == 0 {
        lemma_none_picked(keep, show);
    } else {
        lemma_descriptors(entries, name, extension, excludes, root, n - 1);
        lemma_picked(n, keep, show);
    }
}

/// The descriptors of a package in a directory are its package sources, all of them, and only
/// where there is none its project files.
pub proof fn law_package_sources_come_before_project_files(
    entries: Seq<ScanEntryView>,
    name: Seq<char>,
    excludes: ExcludeMatcher,
    root: Parts,
)
    ensures
        ({
            let sources = picked(
                entries.len() as int,
                |i: int| is_descriptor(entries[i], name, "dpk"@, excludes, root),
                |i: int| entries[i].path,
            );
            let projects = picked(
                entries.len() as int,
                |i: int| is_descriptor(entries[i], name, "dproj"@, excludes, root),
                |i: int| entries[i].path,
            );
            let found = chosen_descriptors(entries, name, excludes, root);
            &&& sources.len() > 0 ==> found == sources
            &&& sources.len() == 0 ==> found == projects
        }),
{
    lemma_descriptors(entries, name, "dpk"@, excludes, root, entries.len() as int);
    lemma_descriptors(entries, name, "dproj"@, excludes, root, entries.len() as int);
}

/// A catalogue gets the descriptors of each of the packages that are looked for, behind those
/// that it has, and nothing else.
pub proof fn law_a_directory_adds_its_descriptors(
    catalogue: Map<Seq<char>, Seq<Parts>>,
    entries: Seq<ScanEntryView>,
    names: Seq<Seq<char>>,
    excludes: ExcludeMatcher,
    root: Parts,
    n: int,
    name: Seq<char>,
)
    requires
        names.no_duplicates(),
        0 <= n <= names.len(),
    ensures
        ({
            let after = with_descriptors(catalogue, entries, names, excludes, root, n);
            let had = if catalogue.contains_key(name) {
                catalogue[name]
            } else {
                seq![]
            };
            let has = if after.contains_key(name) {
                after[name]
            } else {
                seq![]
            };
            &&& names.take(n).contains(name) ==> has == had + chosen_descriptors(
                entries,
                name,
                excludes,
                root,
            )
            &&& !names.take(n).contains(name) ==> has == had && after.contains_key(name)
                == catalogue.contains_key(name)
        }),
    decreases n,
{
    if n > 0 {
        law_a_directory_adds_its_descriptors(
            catalogue,
            entries,
            names,
            excludes,
            root,
            n - 1,
            name,
        );
        let fore = names.take(n - 1);
        let whole = names.take(n);
        assert(whole =~= fore.push(names[n - 1]));
        lemma_pushed(fore, names[n - 1], name);
        let had = if catalogue.contains_key(name) {
            catalogue[name]
        } else {
            seq![]
        };
        let found = chosen_descriptors(entries, name, excludes, root);
        if name == names[n - 1] {
            if fore.contains(name) {
                let k = choose|k: int| 0 <= k < fore.len() && fore[k] == name;
                assert(names[k] == name);
                assert(false);
            }
            assert(Seq::<Parts>::empty() + found =~= found);
            assert(had + Seq::<Parts>::empty() =~= had);
            if found.len() == 0 {
                assert(had + found =~= had);
            }
        }
    } else {
        assert(names.take(0) =~= Seq::empty());
    }
}

/// Of the entries of a directory those are searched that are directories and not left out, and
/// the stamps are kept of all that are directories.
pub proof fn law_directories_are_searched_unless_left_out(
    entries: Seq<ScanEntryView>,
    excludes: ExcludeMatcher,
    root: Parts,
    n: int,
)
    requires
        0 <= n <= entries.len(),
    ensures
        searched_in(entries, excludes, root, n) == picked(
            n,
            |i: int|
                entries[i].kind == Some(ScanKind::Directory) && !excludes.excludes(
                    entries[i].path,
                    root,
                ),
            |i: int| entries[i].path,
        ),
        directories_in(entries, n) == picked(
            n,
            |i: int| entries[i].kind == Some(ScanKind::Directory),
            |i: int| (StampedView { path: entries[i].path, stamp: entries[i].stamp }),
        ),
    decreases n,
{
    let search = |i: int|
        entries[i].kind == Some(ScanKind::Directory) && !excludes.excludes(entries[i].path, root);
    let path = |i: int| entries[i].path;
    let keep = |i: int| entries[i].kind == Some(ScanKind::Directory);
    let stamped = |i: int| (StampedView { path: entries[i].path, stamp: entries[i].stamp });
    if n == 0 {
        lemma_none_picked(search, path);
        lemma_none_picked(keep, stamped);
    } else {
        law_directories_are_searched_unless_left_out(entries, excludes, root, n - 1);
        lemma_picked(n, search, path);
        lemma_picked(n, keep, stamped);
    }
}

/// A listing is read up to the first entry that fails and as long as there were not too many.
pub proof fn law_a_listing_is_read_to_its_end(listing: Seq<Listed>, visited: int, i: int)
    requires
        0 <= i <= listing.len(),
    ensures
        i <= read_entries(listing, visited, i) <= listing.len(),
        forall|k: int|
            i <= k < read_entries(listing, visited, i) ==> !(#[trigger] listing[k] is Failed)
                && visited + k < MAX_PACKAGE_CATALOGUE_ENTRIES,
        read_entries(listing, visited, i) < listing.len() ==> listing[read_entries(
            listing,
            visited,
            i,
        )] is Failed || visited + read_entries(listing, visited, i)
            >= MAX_PACKAGE_CATALOGUE_ENTRIES,
    decreases listing.len() - i,
{
    if i < listing.len() && visited + i < MAX_PACKAGE_CATALOGUE_ENTRIES && !(listing[i] is Failed) {
        law_a_listing_is_read_to_its_end(listing, visited, i + 1);
    }
}

proof fn lemma_readable(directories: Seq<StampedView>, readable: Seq<bool>, i: int)
    requires
        0 <= i <= directories.len(),
    ensures
        readable_from(directories, readable, i).0 <==> forall|k: int|
            i <= k < directories.len() && (#[trigger] directories[k]).stamp is Some
                && directories[k].stamp->0.is_dir && !directories[k].stamp->0.is_symlink
                ==> readable[k],
    decreases directories.len() - i,
{
    if i < directories.len() {
        lemma_readable(directories, readable, i + 1);
    }
}

proof fn lemma_unchanged(paths: Seq<StampedView>, now: Seq<Option<PathStamp>>, i: int)
    requires
        0 <= i <= paths.len(),
    ensures
        unchanged_from(paths, now, i).0 <==> forall|k: int|
            i <= k < paths.len() ==> now[k] == (#[trigger] paths[k]).stamp,
    decreases paths.len() - i,
{
    if i < paths.len() {
        lemma_unchanged(paths, now, i + 1);
    }
}

/// A catalogue still holds exactly where it is whole, where it was made for all that is asked
/// for, where every directory that was searched can still be read, and where none of them
/// changed, which is not looked at twice in one go.
pub proof fn law_when_a_catalogue_holds(
    catalogue: CatalogueView,
    requested: Set<Seq<char>>,
    readable: Seq<bool>,
    now: Seq<Option<PathStamp>>,
    epoch: u64,
)
    ensures
        catalogue_fresh(catalogue, requested, readable, now, epoch).0 <==> {
            &&& catalogue.complete
            &&& forall|name: Seq<char>| #[trigger]
                requested.contains(name) ==> catalogue.requested.contains(name)
            &&& forall|k: int|
                0 <= k < catalogue.directories.len() && (
                #[trigger] catalogue.directories[k]).stamp is Some
                    && catalogue.directories[k].stamp->0.is_dir
                    && !catalogue.directories[k].stamp->0.is_symlink ==> readable[k]
            &&& catalogue.validated_epoch == epoch || forall|k: int|
                0 <= k < catalogue.directories.len() ==> now[k] == (
                #[trigger] catalogue.directories[k]).stamp
        },
{
    lemma_readable(catalogue.directories, readable, 0);
    lemma_unchanged(catalogue.directories, now, 0);
}

proof fn lemma_new_paths(paths: Seq<Parts>, more: Seq<Parts>, path: Parts, n: int)
    requires
        0 <= n <= more.len(),
    ensures
        with_new_paths(paths, more, n).contains(path) <==> paths.contains(path) || exists|i: int|
            0 <= i < n && #[trigger] more[i] == path,
    decreases n,
{
    if n > 0 {
        lemma_new_paths(paths, more, path, n - 1);
        let before = with_new_paths(paths, more, n - 1);
        lemma_pushed(before, more[n - 1], path);
        if more[n - 1] == path {
            assert(exists|i: int| 0 <= i < n && #[trigger] more[i] == path);
        }
    }
}

/// A descriptor is in the catalogue that a root has in a project.
pub open spec fn is_catalogued(
    cache: Map<CatalogueKeyView, Kept<PackageCatalogue>>,
    context: KeyView,
    root: Parts,
    name: Seq<char>,
    path: Parts,
) -> bool {
    let key = CatalogueKeyView { context, root };
    &&& cache.contains_key(key)
    &&& cache[key].value@.entries.contains_key(name)
    &&& cache[key].value@.entries[name].contains(path)
}

/// What is known of a root is whole.
pub open spec fn is_whole(
    cache: Map<CatalogueKeyView, Kept<PackageCatalogue>>,
    context: KeyView,
    root: Parts,
) -> bool {
    let key = CatalogueKeyView { context, root };
    cache.contains_key(key) && cache[key].value@.complete
}

/// The descriptors of a package are those in the catalogues of all roots, and they are all
/// exactly where each root has a catalogue that is whole.
pub proof fn law_descriptors_are_those_of_all_roots(
    cache: Map<CatalogueKeyView, Kept<PackageCatalogue>>,
    context: KeyView,
    roots: Seq<Parts>,
    name: Seq<char>,
    path: Parts,
    n: int,
)
    requires
        0 <= n <= roots.len(),
    ensures
        catalogued(cache, context, roots, name, n).0.contains(path) <==> exists|i: int|
            0 <= i < n && #[trigger] is_catalogued(cache, context, roots[i], name, path),
        catalogued(cache, context, roots, name, n).1 <==> forall|i: int|
            0 <= i < n ==> #[trigger] is_whole(cache, context, roots[i]),
    decreases n,
{
    if n > 0 {
        law_descriptors_are_those_of_all_roots(cache, context, roots, name, path, n - 1);
        let before = catalogued(cache, context, roots, name, n - 1);
        let key = CatalogueKeyView { context, root: roots[n - 1] };
        let paths = if cache.contains_key(key) && cache[key].value@.entries.contains_key(name) {
            cache[key].value@.entries[name]
        } else {
            seq![]
        };
        lemma_new_paths(before.0, paths, path, paths.len() as int);
        let here = is_catalogued(cache, context, roots[n - 1], name, path);
        assert(here <==> exists|i: int| 0 <= i < paths.len() && #[trigger] paths[i] == path) by {
            if here {
                let i = choose|i: int| 0 <= i < paths.len() && paths[i] == path;
                assert(paths[i] == path);
            }
        }
        let now = catalogued(cache, context, roots, name, n);
        assert(now.0.contains(path) <==> before.0.contains(path) || here);
        assert((exists|i: int|
            0 <= i < n && #[trigger] is_catalogued(cache, context, roots[i], name, path)) <==> (
        exists|i: int|
            0 <= i < n - 1 && #[trigger] is_catalogued(cache, context, roots[i], name, path))
            || here) by {
            if exists|i: int|
                0 <= i < n && #[trigger] is_catalogued(cache, context, roots[i], name, path) {
                let i = choose|i: int|
                    0 <= i < n && #[trigger] is_catalogued(cache, context, roots[i], name, path);
                if i < n - 1 {
                    assert(is_catalogued(cache, context, roots[i], name, path));
                }
            }
        }
        assert(now.1 <==> before.1 && is_whole(cache, context, roots[n - 1]));
        assert((forall|i: int| 0 <= i < n ==> #[trigger] is_whole(cache, context, roots[i])) <==> (
        forall|i: int| 0 <= i < n - 1 ==> #[trigger] is_whole(cache, context, roots[i]))
            && is_whole(cache, context, roots[n - 1])) by {
            if (forall|i: int| 0 <= i < n - 1 ==> #[trigger] is_whole(cache, context, roots[i]))
                && is_whole(cache, context, roots[n - 1]) {
                assert forall|i: int| 0 <= i < n implies #[trigger] is_whole(
                    cache,
                    context,
                    roots[i],
                ) by {
                    if i == n - 1 {
                    }
                }
            }
        }
    }
}

/// A mapped root is searched where it was seen or the project uses it.
pub open spec fn is_searched_root(root: MappedRoot, context: ProjectContext) -> bool {
    root.seen || uses_root(context, root.configured@, root.resolved@, root.exists_now)
}

/// Packages are looked for in the given roots and in exactly those mapped roots that were seen
/// or that the project uses.
pub proof fn law_packages_are_looked_for_in_mapped_roots(
    paths: Seq<Parts>,
    mapped: Seq<MappedRoot>,
    context: ProjectContext,
    path: Parts,
    n: int,
)
    requires
        0 <= n <= mapped.len(),
    ensures
        with_mapped_roots(paths, mapped, context, n).contains(path) <==> paths.contains(path)
            || exists|i: int|
            0 <= i < n && #[trigger] is_searched_root(mapped[i], context) && mapped[i].resolved@
                == path,
    decreases n,
{
    if n > 0 {
        law_packages_are_looked_for_in_mapped_roots(paths, mapped, context, path, n - 1);
        let before = with_mapped_roots(paths, mapped, context, n - 1);
        let last = mapped[n - 1];
        lemma_pushed(before, last.resolved@, path);
        if is_searched_root(mapped[n - 1], context) && last.resolved@ == path {
            assert(exists|i: int|
                0 <= i < n && #[trigger] is_searched_root(mapped[i], context)
                    && mapped[i].resolved@ == path);
        }
        if exists|i: int|
            0 <= i < n && #[trigger] is_searched_root(mapped[i], context) && mapped[i].resolved@
                == path {
            let i = choose|i: int|
                0 <= i < n && #[trigger] is_searched_root(mapped[i], context)
                    && mapped[i].resolved@ == path;
            if i < n - 1 {
                assert(is_searched_root(mapped[i], context));
            }
        }
    }
}

/// A search begins at its root, unless that is a link, which is then not searched.
pub proof fn law_where_a_search_begins(
    root: Parts,
    stamp: Option<PathStamp>,
    link: bool,
    requested: Set<Seq<char>>,
)
    ensures
        ({
            let scan = scan_start(root, stamp, link, requested);
            &&& scan.root == root && scan.requested == requested && scan.at == 0
            &&& scan.complete <==> !link
            &&& link ==> scan.pending.len() == 0
            &&& !link ==> scan.pending == seq![root]
            &&& scan.directories == seq![StampedView { path: root, stamp }]
            &&& scan.entries.dom() =~= Set::empty()
            &&& !scan.stopped
        }),
{
}

/// A directory that could not be read to its end stops the search and adds nothing. One that
/// could adds its descriptors and its directories, and leaves the search whole exactly where of
/// every entry it is known what it is.
pub proof fn law_what_a_searched_directory_adds(
    scan: PackageScanView,
    listing: Seq<Listed>,
    excludes: ExcludeMatcher,
)
    requires
        0 <= scan.visited,
    ensures
        ({
            let after = directory_scanned(scan, listing, excludes);
            let all = read_entries(listing, scan.visited, 0) == listing.len();
            &&& !all ==> !after.complete && after.stopped && after.entries == scan.entries
                && after.pending == scan.pending && after.directories == scan.directories
            &&& all ==> after.visited == scan.visited + listing.len() && after.stopped
                == scan.stopped
            &&& all ==> (after.complete <==> scan.complete && forall|i: int|
                0 <= i < listing.len() ==> (#[trigger] listing[i])->Entry_0.kind is Some)
            &&& all ==> forall|i: int|
                0 <= i < listing.len() && (#[trigger] listing[i])->Entry_0.kind == Some(
                    ScanKind::Directory,
                ) && !excludes.excludes(listing[i]->Entry_0.path@, scan.root)
                    ==> after.pending.contains(listing[i]->Entry_0.path@)
            &&& after.requested == scan.requested && after.root == scan.root && after.at == scan.at
        }),
{
    let read = read_entries(listing, scan.visited, 0);
    law_a_listing_is_read_to_its_end(listing, scan.visited, 0);
    if read == listing.len() {
        let found = entries_in(listing, listing.len() as int);
        let entries = sorted_list::<ScanEntry>(found);
        let n = entries.len() as int;
        law_sorting_orders_and_keeps::<ScanEntry>(found);
        lemma_entries_in(listing, listing.len() as int);
        let after = directory_scanned(scan, listing, excludes);
        assert forall|i: int| 0 <= i < listing.len() implies entries.contains(
            (#[trigger] listing[i])->Entry_0@,
        ) by {
            assert(found[i] == listing[i]->Entry_0@);
            assert(found.contains(found[i]));
        }
        if kinds_known(entries, n) {
            assert forall|i: int| 0 <= i < listing.len() implies (
            #[trigger] listing[i])->Entry_0.kind is Some by {
                let e = listing[i]->Entry_0@;
                assert(entries.contains(e));
                let k = choose|k: int| 0 <= k < entries.len() && entries[k] == e;
                assert(entries[k].kind is Some);
            }
        } else {
            let k = choose|k: int| 0 <= k < n && !((#[trigger] entries[k]).kind is Some);
            assert(entries.contains(entries[k]));
            assert(found.contains(entries[k]));
            let i = choose|i: int| 0 <= i < found.len() && found[i] == entries[k];
            assert(found[i] == listing[i]->Entry_0@);
            assert(!(listing[i]->Entry_0.kind is Some));
        }
        law_directories_are_searched_unless_left_out(entries, excludes, scan.root, n);
        let more = searched_in(entries, excludes, scan.root, n);
        assert forall|i: int|
            0 <= i < listing.len() && (#[trigger] listing[i])->Entry_0.kind == Some(
                ScanKind::Directory,
            ) && !excludes.excludes(
                listing[i]->Entry_0.path@,
                scan.root,
            ) implies after.pending.contains(listing[i]->Entry_0.path@) by {
            let e = listing[i]->Entry_0@;
            assert(entries.contains(e));
            let k = choose|k: int| 0 <= k < entries.len() && entries[k] == e;
            let search = |i: int|
                entries[i].kind == Some(ScanKind::Directory) && !excludes.excludes(
                    entries[i].path,
                    scan.root,
                );
            let path = |i: int| entries[i].path;
            lemma_picked_holds(n, search, path, e.path);
            assert(search(k) && path(k) == e.path);
            assert(more.contains(e.path));
            let j = choose|j: int| 0 <= j < more.len() && more[j] == e.path;
            assert(after.pending[scan.pending.len() + j] == e.path);
        }
    }
}

proof fn lemma_entries_in(listing: Seq<Listed>, n: int)
    requires
        0 <= n <= listing.len(),
    ensures
        entries_in(listing, n).len() == n,
        forall|i: int| 0 <= i < n ==> #[trigger] entries_in(listing, n)[i] == listing[i]->Entry_0@,
    decreases n,
{
    if n > 0 {
        lemma_entries_in(listing, n - 1);
    }
}

/// What is kept of a project after a lookup watches every path that the lookup came upon, with
/// the stamp that it had where it was watched before; and descriptors that were not known become
/// files of its metadata.
pub proof fn law_what_a_lookup_came_upon_is_watched(
    state: StateView,
    known: Seq<Parts>,
    paths: Seq<Parts>,
    now: Seq<Option<PathStamp>>,
    n: int,
    path: Parts,
)
    requires
        0 <= n <= paths.len(),
    ensures
        ({
            let after = with_package_paths(state, known, paths, now, n);
            let met = exists|i: int| 0 <= i < n && #[trigger] paths[i] == path;
            let descriptor = has_extension(path, "dpk"@) || has_extension(path, "dproj"@);
            &&& after.watched.contains_key(path) <==> state.watched.contains_key(path) || met
            &&& state.watched.contains_key(path) ==> after.watched[path] == state.watched[path]
            &&& after.metadata_files.contains(path) <==> state.metadata_files.contains(path) || (met
                && descriptor && !among_ci(known, path))
            &&& after.context == state.context && after.reads == state.reads && after.memberships
                == state.memberships
        }),
    decreases n,
{
    if n > 0 {
        law_what_a_lookup_came_upon_is_watched(state, known, paths, now, n - 1, path);
        let before = with_package_paths(state, known, paths, now, n - 1);
        lemma_pushed(before.metadata_files, paths[n - 1], path);
        if exists|i: int| 0 <= i < n && #[trigger] paths[i] == path {
            let i = choose|i: int| 0 <= i < n && #[trigger] paths[i] == path;
            if i < n - 1 {
                assert(paths[i] == path);
            }
        }
    }
}

/// A file of a package's metadata goes by the stamp that the descriptor had before it was read,
/// for the descriptor itself; by the one that the reading saw; and by the one that it has now
/// only where it was not read.
pub proof fn law_which_stamp_a_file_of_metadata_goes_by(
    path: Parts,
    descriptor: Parts,
    own: Option<PathStamp>,
    reads: Seq<ReadView>,
    now: Option<PathStamp>,
)
    ensures
        path == descriptor ==> metadata_stamp(path, descriptor, own, reads, now) == own,
        path != descriptor && read_stamp(reads, path, 0) is Some ==> metadata_stamp(
            path,
            descriptor,
            own,
            reads,
            now,
        ) == read_stamp(reads, path, 0),
        path != descriptor && read_stamp(reads, path, 0) is None ==> metadata_stamp(
            path,
            descriptor,
            own,
            reads,
            now,
        ) == now,
{
}

/// A reading rests on the files that the descriptor names; where it failed, on those that the
/// one before rested on, and at least on the descriptor.
pub proof fn law_what_a_reading_rests_on(
    descriptor: Parts,
    result: Result<PackageFacts, String>,
    kept: Option<Seq<StampedView>>,
    i: int,
)
    ensures
        result is Ok ==> rests_on(descriptor, result, kept) == views(
            result->Ok_0.metadata_files@,
        ),
        result is Err && kept is Some && 0 <= i < kept->0.len() ==> rests_on(
            descriptor,
            result,
            kept,
        ).contains(kept->0[i].path),
        result is Err && kept is None ==> rests_on(descriptor, result, kept) == seq![descriptor],
{
    if result is Err && kept is Some && 0 <= i < kept->0.len() {
        assert(rests_on(descriptor, result, kept)[i] == kept->0[i].path);
    }
}

/// Packages are looked for in the source roots of all folders.
pub proof fn law_packages_are_looked_for_in_all_folders(
    roots: Seq<WorkspaceRoot>,
    path: Parts,
    n: int,
)
    requires
        0 <= n <= roots.len(),
    ensures
        folder_roots(roots, n).contains(path) <==> exists|i: int|
            0 <= i < n && #[trigger] is_source_root(roots[i], path),
    decreases n,
{
    if n > 0 {
        law_packages_are_looked_for_in_all_folders(roots, path, n - 1);
        let sources = views(roots[n - 1].source_roots@);
        lemma_new_paths(folder_roots(roots, n - 1), sources, path, sources.len() as int);
        let here = is_source_root(roots[n - 1], path);
        assert(here <==> exists|k: int| 0 <= k < sources.len() && #[trigger] sources[k] == path) by {
            if here {
                let k = choose|k: int|
                    0 <= k < roots[n - 1].source_roots@.len() && (
                    #[trigger] roots[n - 1].source_roots@[k])@ == path;
                assert(sources[k] == path);
            }
            if exists|k: int| 0 <= k < sources.len() && #[trigger] sources[k] == path {
                let k = choose|k: int| 0 <= k < sources.len() && #[trigger] sources[k] == path;
                assert(roots[n - 1].source_roots@[k]@ == path);
            }
        }
        if exists|i: int| 0 <= i < n && #[trigger] is_source_root(roots[i], path) {
            let i = choose|i: int| 0 <= i < n && #[trigger] is_source_root(roots[i], path);
            if i < n - 1 {
                assert(is_source_root(roots[i], path));
            }
        }
    }
}

/// A path is one of the source roots of a folder.
pub open spec fn is_source_root(root: WorkspaceRoot, path: Parts) -> bool {
    exists|k: int|
        0 <= k < root.source_roots@.len() && (#[trigger] root.source_roots@[k])@ == path
}

/// The folder of a context is the first whose path is that of the context's workspace.
pub proof fn law_a_context_has_the_first_folder_of_its_path(
    roots: Seq<WorkspaceRoot>,
    key: KeyView,
    i: int,
)
    requires
        0 <= i <= roots.len(),
    ensures
        folder_of_context(roots, key, i) is None <==> forall|k: int|
            i <= k < roots.len() ==> key.workspace_root != Some((#[trigger] roots[k]).path@),
        folder_of_context(roots, key, i) is Some ==> {
            let at = folder_of_context(roots, key, i)->0;
            &&& i <= at < roots.len() && key.workspace_root == Some(roots[at].path@)
            &&& forall|k: int|
                i <= k < at ==> key.workspace_root != Some((#[trigger] roots[k]).path@)
        },
    decreases roots.len() - i,
{
    if i < roots.len() {
        law_a_context_has_the_first_folder_of_its_path(roots, key, i + 1);
    }
}

} // verus!
