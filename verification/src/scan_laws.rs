//! Which units are found by looking through directories.

use vstd::prelude::*;

use crate::external_units::{
    own_stems, scanned, stepped, unit_stem, walked, with_stem, with_unit_stems, EntryKind,
    ExternalListing, ScanView, WalkStep, MAX_FORMAT_EXTERNAL_TRAVERSAL_ENTRIES,
};
use crate::filenames::{
    goes_by, missing_names, with_walked, FilenamesView, WalkedView, MAX_FILENAME_CATALOGUE_ENTRIES,
};
use crate::limits::ResourceLimits;
use crate::names::has_extension;
use crate::native::shown;
use crate::package_scan::ScanKind;
use crate::paths::{file_name_of, FilePath, Parts};
use crate::picks::{lemma_none_picked, lemma_picked, picked};
use crate::project::ProjectContext;
use crate::strings::{lower, same_ci};
use crate::units::{bearing, bearing_any, unborne};

verus! {

/// A step of a walk comes upon a unit: a file with the extension of one.
pub open spec fn is_unit(step: WalkStep) -> bool {
    &&& step.entry is Entry
    &&& step.entry->kind == EntryKind::File
    &&& has_extension(step.entry->path@, "pas"@)
}

/// A step of a walk comes upon a unit of the name.
pub open spec fn is_unit_named(step: WalkStep, name: Seq<char>) -> bool {
    is_unit(step) && unit_stem(step.entry->path@) == Some(name)
}

/// One of the first `n` steps comes upon a unit of the name.
pub open spec fn is_met(steps: Seq<WalkStep>, name: Seq<char>, n: int) -> bool {
    exists|i: int| 0 <= i < n && #[trigger] is_unit_named(steps[i], name)
}

proof fn lemma_walked(
    scan: ScanView,
    root: Parts,
    steps: Seq<WalkStep>,
    limits: ResourceLimits,
    name: Seq<char>,
    n: int,
)
    requires
        0 <= n <= steps.len(),
        walked(scan, root, steps, limits, n) is Ok,
        scan.files <= limits.max_files,
        scan.bytes <= limits.max_total_bytes,
        scan.visited <= MAX_FORMAT_EXTERNAL_TRAVERSAL_ENTRIES,
    ensures
        walked(scan, root, steps, limits, n)->Ok_0.units.contains(name) <==> scan.units.contains(
            name,
        ) || is_met(steps, name, n),
        walked(scan, root, steps, limits, n)->Ok_0.files <= limits.max_files,
        walked(scan, root, steps, limits, n)->Ok_0.bytes <= limits.max_total_bytes,
        walked(scan, root, steps, limits, n)->Ok_0.visited
            <= MAX_FORMAT_EXTERNAL_TRAVERSAL_ENTRIES,
        forall|i: int| 0 <= i < n ==> (#[trigger] steps[i]).entry is Entry,
    decreases n,
{
    if n > 0 {
        lemma_walked(scan, root, steps, limits, name, n - 1);
        let last = steps[n - 1];
        if is_met(steps, name, n - 1) {
            let i = choose|i: int| 0 <= i < n - 1 && #[trigger] is_unit_named(steps[i], name);
            assert(is_unit_named(steps[i], name));
            assert(is_met(steps, name, n));
        }
        if is_unit_named(last, name) {
            assert(is_unit_named(steps[n - 1], name));
            assert(is_met(steps, name, n));
        } else if is_met(steps, name, n) {
            let i = choose|i: int| 0 <= i < n && #[trigger] is_unit_named(steps[i], name);
            assert(i < n - 1);
            assert(is_met(steps, name, n - 1));
        }
    }
}

/// The external units are exactly those that are met in the configured directories. Nothing is
/// found where one of these is no directory or a link, where a walk failed, or where there is
/// more than may be looked at.
pub proof fn law_external_units_are_those_that_are_met(
    cwd: Parts,
    project_root: Parts,
    listings: Seq<ExternalListing>,
    limits: ResourceLimits,
    name: Seq<char>,
    n: int,
)
    requires
        0 <= n <= listings.len(),
        scanned(cwd, project_root, listings, limits, n) is Ok,
    ensures
        scanned(cwd, project_root, listings, limits, n)->Ok_0.units.contains(name) <==> exists|
            k: int,
        |
            0 <= k < n && #[trigger] is_met(
                listings[k].steps@,
                name,
                listings[k].steps@.len() as int,
            ),
        scanned(cwd, project_root, listings, limits, n)->Ok_0.files <= limits.max_files,
        scanned(cwd, project_root, listings, limits, n)->Ok_0.bytes <= limits.max_total_bytes,
        scanned(cwd, project_root, listings, limits, n)->Ok_0.visited
            <= MAX_FORMAT_EXTERNAL_TRAVERSAL_ENTRIES,
        forall|k: int| 0 <= k < n ==> (#[trigger] listings[k]).kind is Directory,
    decreases n,
{
    if n > 0 {
        law_external_units_are_those_that_are_met(
            cwd,
            project_root,
            listings,
            limits,
            name,
            n - 1,
        );
        let before = scanned(cwd, project_root, listings, limits, n - 1)->Ok_0;
        let last = listings[n - 1];
        let root = crate::external_units::external_root_parts(cwd, project_root, last.configured@);
        lemma_walked(before, root, last.steps@, limits, name, last.steps@.len() as int);
        if exists|k: int|
            0 <= k < n && #[trigger] is_met(
                listings[k].steps@,
                name,
                listings[k].steps@.len() as int,
            ) {
            let k = choose|k: int|
                0 <= k < n && #[trigger] is_met(
                    listings[k].steps@,
                    name,
                    listings[k].steps@.len() as int,
                );
            if k < n - 1 {
                assert(is_met(listings[k].steps@, name, listings[k].steps@.len() as int));
            }
        }
    }
}

/// A unit is measured exactly where a walk comes upon one; it is counted with its bytes where it
/// is not too large, alone or with the others; and a link in the place of the root ends the walk.
pub proof fn law_what_a_step_of_a_walk_does(
    scan: ScanView,
    root: Parts,
    step: WalkStep,
    limits: ResourceLimits,
)
    requires
        0 <= scan.visited < MAX_FORMAT_EXTERNAL_TRAVERSAL_ENTRIES,
        0 <= scan.files < usize::MAX,
        0 <= scan.bytes,
        step.measured is Bytes ==> scan.bytes + step.measured->Bytes_0 <= usize::MAX,
    ensures
        ({
            let after = stepped(scan, root, step, limits);
            let link = step.entry is Entry && step.entry->top && step.entry->kind
                == EntryKind::Link;
            let bytes = step.measured->Bytes_0;
            &&& step.entry is Failed || link ==> after is Err
            &&& step.entry is Entry && !link && !is_unit(step) ==> after == Ok::<
                ScanView,
                Seq<char>,
            >(ScanView { visited: scan.visited + 1, ..scan })
            &&& step.entry is Entry && !link && is_unit(step) ==> (after is Ok
                <==> step.measured is Bytes && bytes <= limits.max_file_bytes && scan.files + 1
                <= limits.max_files && scan.bytes + bytes <= limits.max_total_bytes)
            &&& after is Ok && is_unit(step) ==> after->Ok_0.files == scan.files + 1
                && after->Ok_0.bytes == scan.bytes + bytes && after->Ok_0.visited == scan.visited
                + 1
        }),
{
}

proof fn lemma_unit_stems(
    names: Set<Seq<char>>,
    units: Seq<(String, FilePath)>,
    name: Seq<char>,
    n: int,
)
    requires
        0 <= n <= units.len(),
    ensures
        with_unit_stems(names, units, n).contains(name) <==> names.contains(name) || exists|i: int|
            0 <= i < n && unit_stem((#[trigger] units[i]).1@) == Some(name),
    decreases n,
{
    if n > 0 {
        lemma_unit_stems(names, units, name, n - 1);
        if unit_stem(units[n - 1].1@) == Some(name) {
            assert(exists|i: int|
                0 <= i < n && unit_stem((#[trigger] units[i]).1@) == Some(name));
        }
        if exists|i: int| 0 <= i < n && unit_stem((#[trigger] units[i]).1@) == Some(name) {
            let i = choose|i: int|
                0 <= i < n && unit_stem((#[trigger] units[i]).1@) == Some(name);
            if i < n - 1 {
                assert(unit_stem(units[i].1@) == Some(name));
            }
        }
    }
}

/// The project's own units are the source at hand, its main source, and those that it names.
pub proof fn law_which_units_are_the_projects_own(
    context: ProjectContext,
    path: Parts,
    name: Seq<char>,
)
    ensures
        own_stems(context, path).contains(name) <==> {
            ||| unit_stem(path) == Some(name)
            ||| context.main_source is Some && unit_stem(context.main_source->0@) == Some(name)
            ||| exists|i: int|
                0 <= i < context.explicit_units@.len() && unit_stem(
                    (#[trigger] context.explicit_units@[i]).1@,
                ) == Some(name)
        },
{
    let current = with_stem(Set::empty(), path);
    let main = match context.main_source {
        Some(main) => with_stem(current, main@),
        None => current,
    };
    lemma_unit_stems(main, context.explicit_units@, name, context.explicit_units@.len() as int);
}

/// A walk adds a file to a catalogue exactly where it is a unit that is not left out, under its
/// name whatever the case, behind those of the same name; and the stamp of a directory, as long
/// as there are not too many.
pub proof fn law_what_a_catalogue_of_names_takes_up(
    catalogue: FilenamesView,
    entry: WalkedView,
    name: Seq<char>,
)
    ensures
        ({
            let after = with_walked(catalogue, entry);
            let file = file_name_of(entry.path);
            let taken = entry.kind == ScanKind::File && !entry.excluded && has_extension(
                entry.path,
                "pas"@,
            ) && file is Some;
            let had = if catalogue.entries.contains_key(name) {
                catalogue.entries[name]
            } else {
                seq![]
            };
            let here = taken && lower(shown(file->0)) == name;
            &&& here ==> after.entries.contains_key(name) && after.entries[name] == had.push(
                entry.path,
            )
            &&& !here ==> after.entries.contains_key(name) == catalogue.entries.contains_key(name)
                && after.entries[name] == catalogue.entries[name]
            &&& entry.kind != ScanKind::Directory ==> after.directories == catalogue.directories
            &&& entry.kind == ScanKind::Directory && catalogue.directories.len()
                < MAX_FILENAME_CATALOGUE_ENTRIES ==> after.directories.len()
                == catalogue.directories.len() + 1 && after.directories.last().path == entry.path
                && after.directories.last().stamp == entry.stamp
            &&& after.complete == catalogue.complete
        }),
{
    if !catalogue.entries.contains_key(name) {
        assert(seq![entry.path] =~= Seq::<Parts>::empty().push(entry.path));
    }
}

/// The names that nothing in a directory goes by are missing, in their order.
pub proof fn law_which_names_are_missing(entries: Seq<Parts>, names: Seq<Seq<char>>, n: int)
    requires
        0 <= n <= names.len(),
    ensures
        missing_names(entries, names, n) == picked(
            n,
            |i: int| !is_gone_by(entries, names[i]),
            |i: int| names[i],
        ),
    decreases n,
{
    let keep = |i: int| !is_gone_by(entries, names[i]);
    let show = |i: int| names[i];
    if n == 0 {
        lemma_none_picked(keep, show);
    } else {
        law_which_names_are_missing(entries, names, n - 1);
        lemma_picked(n, keep, show);
        if crate::filenames::some_goes_by(entries, names[n - 1]) {
            let i = choose|i: int|
                0 <= i < entries.len() && goes_by(#[trigger] entries[i], names[n - 1]);
            assert(file_name_of(entries[i]) is Some);
            assert(is_gone_by(entries, names[n - 1]));
        }
        if is_gone_by(entries, names[n - 1]) {
            let i = choose|i: int|
                0 <= i < entries.len() && file_name_of(#[trigger] entries[i]) is Some && same_ci(
                    shown(file_name_of(entries[i])->0),
                    names[n - 1],
                );
            assert(goes_by(entries[i], names[n - 1]));
        }
    }
}

/// One of the files has the name, whatever its case.
pub open spec fn is_gone_by(entries: Seq<Parts>, name: Seq<char>) -> bool {
    exists|i: int|
        0 <= i < entries.len() && file_name_of(#[trigger] entries[i]) is Some && same_ci(
            shown(file_name_of(entries[i])->0),
            name,
        )
}

proof fn lemma_bearing(
    found: Seq<Parts>,
    catalogue: FilenamesView,
    open: Seq<Parts>,
    name: Seq<char>,
    path: Parts,
)
    ensures
        bearing(found, catalogue, open, name).contains(path) <==> found.contains(path) || (
        catalogue.entries.contains_key(name) && catalogue.entries[name].contains(path)) || (
        open.contains(path) && goes_by(path, name)),
{
    let first = if catalogue.entries.contains_key(name) {
        found + catalogue.entries[name]
    } else {
        found
    };
    let rest = open.filter(|p: Parts| goes_by(p, name));
    lemma_concat(found, catalogue.entries[name], path);
    lemma_concat(first, rest, path);
    lemma_filter(open, name, path);
}

proof fn lemma_concat<A>(a: Seq<A>, b: Seq<A>, item: A)
    ensures
        (a + b).contains(item) <==> a.contains(item) || b.contains(item),
{
    let both = a + b;
    if a.contains(item) {
        let i = choose|i: int| 0 <= i < a.len() && a[i] == item;
        assert(both[i] == item);
    }
    if b.contains(item) {
        let i = choose|i: int| 0 <= i < b.len() && b[i] == item;
        assert(both[a.len() + i] == item);
    }
    if both.contains(item) {
        let i = choose|i: int| 0 <= i < both.len() && both[i] == item;
        if i < a.len() {
            assert(a[i] == item);
        } else {
            assert(b[i - a.len()] == item);
        }
    }
}

proof fn lemma_filter(open: Seq<Parts>, name: Seq<char>, path: Parts)
    ensures
        open.filter(|p: Parts| goes_by(p, name)).contains(path) <==> open.contains(path) && goes_by(
            path,
            name,
        ),
    decreases open.len(),
{
    reveal(Seq::filter);
    let keep = |p: Parts| goes_by(p, name);
    if open.len() > 0 {
        let rest = open.drop_last();
        lemma_filter(rest, name, path);
        assert(open =~= rest.push(open.last()));
        lemma_concat(rest, seq![open.last()], path);
        assert(rest + seq![open.last()] =~= open);
        lemma_concat(rest.filter(keep), seq![open.last()], path);
        assert(rest.filter(keep).push(open.last()) =~= rest.filter(keep) + seq![open.last()]);
        assert(seq![open.last()].contains(path) <==> path == open.last()) by {
            assert(seq![open.last()][0] == open.last());
        }
    }
}

/// The files that bear one of some names are those that the catalogue has under one of these
/// and the open ones that go by one.
pub proof fn law_which_files_bear_a_name(
    catalogue: FilenamesView,
    open: Seq<Parts>,
    names: Seq<Seq<char>>,
    path: Parts,
    n: int,
)
    requires
        0 <= n <= names.len(),
    ensures
        bearing_any(catalogue, open, names, n).contains(path) <==> exists|i: int|
            0 <= i < n && #[trigger] is_borne(catalogue, open, names[i], path),
    decreases n,
{
    if n > 0 {
        law_which_files_bear_a_name(catalogue, open, names, path, n - 1);
        lemma_bearing(
            bearing_any(catalogue, open, names, n - 1),
            catalogue,
            open,
            names[n - 1],
            path,
        );
        if is_borne(catalogue, open, names[n - 1], path) {
            assert(exists|i: int|
                0 <= i < n && #[trigger] is_borne(catalogue, open, names[i], path));
        }
        if exists|i: int| 0 <= i < n && #[trigger] is_borne(catalogue, open, names[i], path) {
            let i = choose|i: int|
                0 <= i < n && #[trigger] is_borne(catalogue, open, names[i], path);
            if i < n - 1 {
                assert(is_borne(catalogue, open, names[i], path));
            }
        }
    }
}

/// A file bears a name: the catalogue has it under the name, or it is open and goes by it.
pub open spec fn is_borne(
    catalogue: FilenamesView,
    open: Seq<Parts>,
    name: Seq<char>,
    path: Parts,
) -> bool {
    ||| catalogue.entries.contains_key(name) && catalogue.entries[name].contains(path)
    ||| open.contains(path) && file_name_of(path) is Some && same_ci(
        shown(file_name_of(path)->0),
        name,
    )
}

/// The names that nothing bears are those that the catalogue does not have and that no open
/// file goes by, in their order.
pub proof fn law_which_names_nothing_bears(
    catalogue: FilenamesView,
    open: Seq<Parts>,
    names: Seq<Seq<char>>,
    n: int,
)
    requires
        0 <= n <= names.len(),
    ensures
        unborne(catalogue, open, names, n) == picked(
            n,
            |i: int| !catalogue.entries.contains_key(names[i]) && !is_gone_by(open, names[i]),
            |i: int| names[i],
        ),
    decreases n,
{
    let keep = |i: int|
        !catalogue.entries.contains_key(names[i]) && !is_gone_by(open, names[i]);
    let show = |i: int| names[i];
    if n == 0 {
        lemma_none_picked(keep, show);
    } else {
        law_which_names_nothing_bears(catalogue, open, names, n - 1);
        lemma_picked(n, keep, show);
        if crate::filenames::some_goes_by(open, names[n - 1]) {
            let i = choose|i: int|
                0 <= i < open.len() && goes_by(#[trigger] open[i], names[n - 1]);
            assert(file_name_of(open[i]) is Some);
            assert(is_gone_by(open, names[n - 1]));
        }
        if is_gone_by(open, names[n - 1]) {
            let i = choose|i: int|
                0 <= i < open.len() && file_name_of(#[trigger] open[i]) is Some && same_ci(
                    shown(file_name_of(open[i])->0),
                    names[n - 1],
                );
            assert(goes_by(open[i], names[n - 1]));
        }
    }
}

} // verus!
