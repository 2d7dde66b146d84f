//! How the file of a unit is found.

use vstd::prelude::*;

use crate::documents::{DocumentView, OpenDocuments};
use crate::excludes::WorkspaceRoot;
use crate::filenames::{
    any_goes_by, candidates_for, file_goes_by, filename_candidates_for_names, goes_by, holds_ci,
    some_goes_by, with_path_ci, FilenameCatalogue, FilenamesView, MAX_FILENAME_CATALOGUE_ENTRIES,
};
use crate::names::{
    candidate_tiers, names_unit, tier_texts, unit_filename_candidate_tiers, unit_name_matches,
};
use crate::package_lookup::{PackageLookup, UnitQuery};
use crate::package_scan::PathList;
use crate::paths::{
    equal_ci, joined, parent_of, parse_parts, path_starts_with_ci, path_starts_with_native,
    path_text, paths_equal_ci, starts_with, starts_with_ci, FilePath, Parts,
};
use crate::project::{
    context_path_entry, optional_entry, path_entry, EntryView, PathEntry, ProjectContext,
    ProvenanceView,
};
use crate::sorting::views;
use crate::strings::{chars_of, concat, concat3, copy_list, decimal, same_str, texts, to_decimal};
use crate::strmap::{in_order, StrSet};
use crate::uris::{file_path_of, path_uri, uri_of_path, uri_path};
use crate::warnings::{warned_with, warned_with_all, WarningLog};

verus! {

/// Where open documents are looked for.
pub enum Place<'a> {
    /// In a directory itself.
    In(&'a FilePath),
    /// Anywhere below a root.
    Under(&'a FilePath),
}

/// A file lies in a place.
pub open spec fn lies_in(path: Parts, place: Place) -> bool {
    match place {
        Place::In(directory) => parent_of(path) is Some && equal_ci(
            parent_of(path)->0,
            directory@,
        ),
        Place::Under(root) => starts_with_ci(path, root@),
    }
}

fn is_in_place(path: &FilePath, place: &Place) -> (r: bool)
    ensures
        r == lies_in(path@, *place),
{
    match place {
        Place::In(directory) => match path.parent() {
            Some(parent) => paths_equal_ci(&parent, directory),
            None => false,
        },
        Place::Under(root) => path_starts_with_ci(path, root),
    }
}

/// The files of the first `n` open documents that have a text, are supported and lie in a
/// place.
pub open spec fn open_files(
    documents: Map<Seq<char>, DocumentView>,
    supported: Set<Seq<char>>,
    place: Place,
    n: int,
) -> Seq<Parts>
    decreases n,
{
    if n <= 0 {
        seq![]
    } else {
        let before = open_files(documents, supported, place, n - 1);
        let uri = in_order(documents.dom())[n - 1];
        if documents[uri].text is Some && uri_path(uri) is Some && lies_in(uri_path(uri)->0, place)
            && supported.contains(uri) {
            before.push(uri_path(uri)->0)
        } else {
            before
        }
    }
}

/// The files of open documents that have a text, are supported and lie in a place.
pub fn open_document_entries(documents: &OpenDocuments, supported: &StrSet, place: &Place) -> (r:
    Vec<FilePath>)
    ensures
        views(r@) == open_files(
            documents@,
            supported@,
            *place,
            documents@.dom().len() as int,
        ),
{
    let ghost all = documents@;
    let n: usize = documents.documents.len();
    let ghost keys = documents.documents.keys();
    proof {
        assert(all.dom() =~= documents.documents@.dom());
    }
    let mut files: Vec<FilePath> = Vec::new();
    let mut i: usize = 0;
    proof {
        assert(views(files@) =~= seq![]);
    }
    while i < n
        invariant
            i <= n,
            n == keys.len(),
            all == documents@,
            keys == documents.documents.keys(),
            keys == in_order(all.dom()),
            views(files@) == open_files(all, supported@, *place, i as int),
        decreases n - i,
    {
        let uri = documents.documents.key_at(i);
        let document = documents.documents.value_at(i);
        proof {
            assert(all[keys[i as int]] == document@);
        }
        if document.text.is_some() && supported.contains(uri.as_str()) {
            if let Some(path) = file_path_of(uri.as_str()) {
                if is_in_place(&path, place) {
                    let ghost held = files@;
                    files.push(path);
                    proof {
                        assert(views(files@) =~= views(held).push(path@));
                    }
                }
            }
        }
        i += 1;
    }
    files
}

/// The names between the dots of the first `n` characters that are no empty texts, and
/// what follows the last dot.
pub open spec fn between_dots(s: Seq<char>, n: int) -> (Seq<Seq<char>>, Seq<char>)
    decreases n,
{
    if n <= 0 {
        (seq![], seq![])
    } else {
        let before = between_dots(s, n - 1);
        if s[n - 1] != '.' {
            (before.0, before.1.push(s[n - 1]))
        } else if before.1.len() == 0 {
            before
        } else {
            (before.0.push(before.1), seq![])
        }
    }
}

/// The names that a unit's name is made of.
pub open spec fn name_parts(name: Seq<char>) -> Seq<Seq<char>> {
    let all = between_dots(name, name.len() as int);
    if all.1.len() == 0 {
        all.0
    } else {
        all.0.push(all.1)
    }
}

/// The names that a unit's name is made of.
pub fn split_unit_name(name: &str) -> (r: Vec<String>)
    ensures
        texts(r@) == name_parts(name@),
{
    let chars = chars_of(name);
    let mut parts: Vec<String> = Vec::new();
    let mut current = String::new();
    let mut is_empty = true;
    let mut i: usize = 0;
    proof {
        assert(texts(parts@) =~= seq![]);
        assert(current@ =~= seq![]);
    }
    while i < chars.len()
        invariant
            i <= chars@.len(),
            chars@ == name@,
            is_empty == (current@.len() == 0),
            (texts(parts@), current@) == between_dots(name@, i as int),
        decreases chars@.len() - i,
    {
        if chars[i] != '.' {
            current.push(chars[i]);
            is_empty = false;
        } else if !is_empty {
            let ghost held = parts@;
            let ghost added = current@;
            parts.push(current);
            current = String::new();
            is_empty = true;
            proof {
                assert(texts(parts@) =~= texts(held).push(added));
                assert(current@ =~= seq![]);
            }
        }
        i += 1;
    }
    if !is_empty {
        let ghost held = parts@;
        let ghost added = current@;
        parts.push(current);
        proof {
            assert(texts(parts@) =~= texts(held).push(added));
        }
    }
    parts
}

/// A directory with the first `n` names below it.
pub open spec fn below(directory: Parts, names: Seq<Seq<char>>, n: int) -> Parts
    decreases n,
{
    if n <= 0 {
        directory
    } else {
        joined(below(directory, names, n - 1), parse_parts(names[n - 1]))
    }
}

/// The directory in which a unit with a dotted name may lie: below the one given, by all
/// names but the last.
pub fn nested_directory(directory: &FilePath, unit_name: &str) -> (r: Option<FilePath>)
    ensures
        ({
            let parts = name_parts(unit_name@);
            match r {
                Some(nested) => parts.len() > 1 && nested@ == below(
                    directory@,
                    parts,
                    parts.len() - 1,
                ),
                None => parts.len() <= 1,
            }
        }),
{
    let parts = split_unit_name(unit_name);
    proof {
        assert(texts(parts@).len() == parts@.len());
    }
    if parts.len() <= 1 {
        return None;
    }
    let mut nested = directory.copy();
    let mut i: usize = 0;
    while i < parts.len() - 1
        invariant
            1 < parts@.len(),
            i <= parts@.len() - 1,
            nested@ == below(directory@, texts(parts@), i as int),
        decreases parts@.len() - i,
    {
        proof {
            assert(texts(parts@)[i as int] == parts@[i as int]@);
        }
        nested = nested.join_name(parts[i].as_str());
        i += 1;
    }
    Some(nested)
}

/// The files that a unit with a dotted name may be in below that directory: those of its
/// last name.
pub fn nested_tiers(unit_name: &str) -> (r: Vec<Vec<String>>)
    ensures
        ({
            let parts = name_parts(unit_name@);
            tier_texts(r@) == (if parts.len() > 0 {
                candidate_tiers(parts.last(), seq![])
            } else {
                candidate_tiers(seq![], seq![])
            })
        }),
{
    let parts = split_unit_name(unit_name);
    let no_names: Vec<String> = Vec::new();
    proof {
        assert(texts(parts@).len() == parts@.len());
        assert(texts(no_names@) =~= seq![]);
    }
    if parts.len() == 0 {
        let empty = String::new();
        return unit_filename_candidate_tiers(empty.as_str(), &no_names);
    }
    let last: usize = parts.len() - 1;
    proof {
        assert(texts(parts@)[last as int] == parts@[last as int]@);
    }
    unit_filename_candidate_tiers(parts[last].as_str(), &no_names)
}

/// The roots below which a unit is looked for by its name alone: the search paths of the
/// project, or without any the folders of the workspace.
pub fn catalogue_roots(context: &ProjectContext, roots: &Vec<WorkspaceRoot>) -> (r: Vec<FilePath>)
    ensures
        views(r@) == (if context.search_paths@.len() == 0 {
            Seq::new(roots@.len(), |i: int| roots@[i].path@)
        } else {
            views(context.search_paths@)
        }),
{
    let mut paths: Vec<FilePath> = Vec::new();
    let mut i: usize = 0;
    if context.search_paths.len() == 0 {
        let ghost goal = Seq::new(roots@.len(), |i: int| roots@[i].path@);
        proof {
            assert(views(paths@) =~= goal.take(0));
        }
        while i < roots.len()
            invariant
                i <= roots@.len(),
                goal == Seq::new(roots@.len(), |i: int| roots@[i].path@),
                views(paths@) == goal.take(i as int),
            decreases roots@.len() - i,
        {
            let ghost held = paths@;
            let copied = roots[i].path.copy();
            paths.push(copied);
            proof {
                assert(views(paths@) =~= views(held).push(copied@));
                assert(goal.take(i + 1) =~= goal.take(i as int).push(goal[i as int]));
            }
            i += 1;
        }
        proof {
            assert(goal.take(goal.len() as int) =~= goal);
        }
    } else {
        let ghost goal = views(context.search_paths@);
        proof {
            assert(views(paths@) =~= goal.take(0));
        }
        while i < context.search_paths.len()
            invariant
                i <= context.search_paths@.len(),
                goal == views(context.search_paths@),
                views(paths@) == goal.take(i as int),
            decreases context.search_paths@.len() - i,
        {
            let ghost held = paths@;
            let copied = context.search_paths[i].copy();
            paths.push(copied);
            proof {
                assert(goal[i as int] == context.search_paths@[i as int]@);
                assert(views(paths@) =~= views(held).push(copied@));
                assert(goal.take(i + 1) =~= goal.take(i as int).push(goal[i as int]));
            }
            i += 1;
        }
        proof {
            assert(goal.take(goal.len() as int) =~= goal);
        }
    }
    paths
}

/// The candidates of each rank among the entries of a directory.
pub open spec fn ranked(entries: Seq<Parts>, tiers: Seq<Seq<Seq<char>>>) -> Seq<Seq<Parts>> {
    Seq::new(tiers.len(), |i: int| candidates_for(entries, tiers[i], tiers[i].len() as int))
}

fn rank_candidates(entries: &Vec<FilePath>, tiers: &Vec<Vec<String>>) -> (r: Vec<PathList>)
    ensures
        views(r@) == ranked(views(entries@), tier_texts(tiers@)),
{
    let ghost list = views(entries@);
    let ghost ranks = tier_texts(tiers@);
    let ghost goal = ranked(list, ranks);
    let mut groups: Vec<PathList> = Vec::new();
    let mut i: usize = 0;
    proof {
        assert(views(groups@) =~= goal.take(0));
    }
    while i < tiers.len()
        invariant
            i <= tiers@.len(),
            list == views(entries@),
            ranks == tier_texts(tiers@),
            goal == ranked(list, ranks),
            views(groups@) == goal.take(i as int),
        decreases tiers@.len() - i,
    {
        let ghost held = groups@;
        let group = PathList { paths: filename_candidates_for_names(entries, &tiers[i]) };
        groups.push(group);
        proof {
            assert(ranks[i as int] == texts(tiers@[i as int]@));
            assert(texts(tiers@[i as int]@).len() == tiers@[i as int]@.len());
            assert(group@ == goal[i as int]);
            assert(views(groups@) =~= views(held).push(group@));
            assert(goal.take(i + 1) =~= goal.take(i as int).push(goal[i as int]));
        }
        i += 1;
    }
    proof {
        assert(goal.take(goal.len() as int) =~= goal);
    }
    groups
}

/// The candidates for a unit in a directory, rank by rank, and after them those in the
/// directory that its dotted name leads to, if that is there.
pub open spec fn directory_groups(
    unit: Seq<char>,
    namespaces: Seq<Seq<char>>,
    entries: Seq<Parts>,
    nested: Option<Seq<Parts>>,
) -> Seq<Seq<Parts>> {
    let own = ranked(entries, candidate_tiers(unit, namespaces));
    let parts = name_parts(unit);
    if parts.len() > 1 && nested is Some {
        own + ranked(nested->0, candidate_tiers(parts.last(), seq![]))
    } else {
        own
    }
}

/// The candidates for a unit in a directory, rank by rank. `nested` are the entries of the
/// directory that its dotted name leads to, if that is there.
pub fn directory_unit_candidate_groups(
    unit_name: &str,
    namespaces: &Vec<String>,
    entries: &Vec<FilePath>,
    nested: Option<&Vec<FilePath>>,
) -> (r: Vec<PathList>)
    ensures
        views(r@) == directory_groups(
            unit_name@,
            texts(namespaces@),
            views(entries@),
            match nested {
                Some(list) => Some(views(list@)),
                None => None,
            },
        ),
{
    let mut groups = rank_candidates(
        entries,
        &unit_filename_candidate_tiers(unit_name, namespaces),
    );
    let parts = split_unit_name(unit_name);
    proof {
        assert(texts(parts@).len() == parts@.len());
    }
    if parts.len() > 1 {
        if let Some(list) = nested {
            let last: usize = parts.len() - 1;
            let no_names: Vec<String> = Vec::new();
            proof {
                assert(texts(parts@)[last as int] == parts@[last as int]@);
                assert(texts(no_names@) =~= seq![]);
            }
            let mut more = rank_candidates(
                list,
                &unit_filename_candidate_tiers(parts[last].as_str(), &no_names),
            );
            let ghost held = groups@;
            let ghost added = more@;
            groups.append(&mut more);
            proof {
                assert(views(groups@) =~= views(held) + views(added));
            }
        }
    }
    groups
}

/// Candidates for a unit that are tried together.
#[derive(Debug)]
pub struct UnitGroup {
    pub paths: Vec<FilePath>,
    /// They lie in a search path that nothing but the file system leads to.
    pub legacy_search_path: bool,
}

/// Candidates for a unit that are tried together.
pub struct GroupView {
    pub paths: Seq<Parts>,
    pub legacy_search_path: bool,
}

impl View for UnitGroup {
    type V = GroupView;

    open spec fn view(&self) -> GroupView {
        GroupView { paths: views(self.paths@), legacy_search_path: self.legacy_search_path }
    }
}

/// The files that a project names for a unit, of the first `n`.
pub open spec fn explicit_files(units: Seq<(String, FilePath)>, name: Seq<char>, n: int) -> Seq<
    Parts,
>
    decreases n,
{
    if n <= 0 {
        seq![]
    } else {
        let before = explicit_files(units, name, n - 1);
        if units[n - 1].0@ == name {
            before.push(units[n - 1].1@)
        } else {
            before
        }
    }
}

fn named_files(units: &Vec<(String, FilePath)>, name: &str) -> (r: Vec<FilePath>)
    ensures
        views(r@) == explicit_files(units@, name@, units@.len() as int),
{
    let mut files: Vec<FilePath> = Vec::new();
    let mut i: usize = 0;
    proof {
        assert(views(files@) =~= seq![]);
    }
    while i < units.len()
        invariant
            i <= units@.len(),
            views(files@) == explicit_files(units@, name@, i as int),
        decreases units@.len() - i,
    {
        if same_str(units[i].0.as_str(), name) {
            let ghost held = files@;
            let copied = units[i].1.copy();
            files.push(copied);
            proof {
                assert(views(files@) =~= views(held).push(copied@));
            }
        }
        i += 1;
    }
    files
}

/// An entry that nothing but the file system leads to is the path.
pub open spec fn legacy_entry_at(entries: Seq<PathEntry>, path: Parts) -> bool {
    exists|i: int|
        0 <= i < entries.len() && (#[trigger] entries[i]).provenance@ is LegacyNative
            && entries[i].path@ == path
}

/// The path lies under an entry that nothing but the file system leads to.
pub open spec fn under_legacy_entry(entries: Seq<PathEntry>, path: Parts) -> bool {
    exists|i: int|
        0 <= i < entries.len() && (#[trigger] entries[i]).provenance@ is LegacyNative
            && starts_with(path, entries[i].path@)
}

fn is_legacy_entry(entries: &Vec<PathEntry>, path: &FilePath) -> (r: bool)
    ensures
        r == legacy_entry_at(entries@, path@),
{
    let mut i: usize = 0;
    while i < entries.len()
        invariant
            i <= entries@.len(),
            forall|j: int|
                0 <= j < i ==> !((#[trigger] entries@[j]).provenance@ is LegacyNative
                    && entries@[j].path@ == path@),
        decreases entries@.len() - i,
    {
        if entries[i].provenance.is_legacy() && entries[i].path.same(path) {
            return true;
        }
        i += 1;
    }
    false
}

fn is_under_legacy_entry(entries: &Vec<PathEntry>, path: &FilePath) -> (r: bool)
    ensures
        r == under_legacy_entry(entries@, path@),
{
    let mut i: usize = 0;
    while i < entries.len()
        invariant
            i <= entries@.len(),
            forall|j: int|
                0 <= j < i ==> !((#[trigger] entries@[j]).provenance@ is LegacyNative
                    && starts_with(path@, entries@[j].path@)),
        decreases entries@.len() - i,
    {
        if entries[i].provenance.is_legacy() && path_starts_with_native(path, &entries[i].path) {
            return true;
        }
        i += 1;
    }
    false
}

/// A source that nothing but the file system leads to: as the project has it, or by the
/// route on which it was found.
pub open spec fn legacy_source(context: ProjectContext, path: Parts, route_is_current: bool) -> bool {
    ||| context.main_source_entry is Some && context.main_source_entry->0.provenance@ is LegacyNative
        && context.main_source_entry->0.path@ == path
    ||| exists|i: int|
        0 <= i < context.explicit_unit_entries@.len() && (
        #[trigger] context.explicit_unit_entries@[i]).1.provenance@ is LegacyNative
            && context.explicit_unit_entries@[i].1.path@ == path
    ||| route_is_current
}

/// Whether nothing but the file system leads to a source. Its siblings then may be read
/// from its own directory.
pub fn is_legacy_source(context: &ProjectContext, path: &FilePath, route_is_current: bool) -> (r:
    bool)
    ensures
        r == legacy_source(*context, path@, route_is_current),
{
    if let Some(entry) = &context.main_source_entry {
        if entry.provenance.is_legacy() && entry.path.same(path) {
            return true;
        }
    }
    let mut i: usize = 0;
    while i < context.explicit_unit_entries.len()
        invariant
            i <= context.explicit_unit_entries@.len(),
            forall|j: int|
                0 <= j < i ==> !((
                #[trigger] context.explicit_unit_entries@[j]).1.provenance@ is LegacyNative
                    && context.explicit_unit_entries@[j].1.path@ == path@),
        decreases context.explicit_unit_entries@.len() - i,
    {
        if context.explicit_unit_entries[i].1.provenance.is_legacy()
            && context.explicit_unit_entries[i].1.path.same(path) {
            return true;
        }
        i += 1;
    }
    route_is_current
}

/// The groups with each of the first `n` lists.
pub open spec fn with_lists(
    groups: Seq<GroupView>,
    lists: Seq<Seq<Parts>>,
    legacy: bool,
    n: int,
) -> Seq<GroupView>
    decreases n,
{
    if n <= 0 {
        groups
    } else {
        with_lists(groups, lists, legacy, n - 1).push(
            GroupView { paths: lists[n - 1], legacy_search_path: legacy },
        )
    }
}

/// The candidates in directories, each rank by rank.
pub open spec fn ranks_of(found: Seq<Vec<PathList>>) -> Seq<Seq<Seq<Parts>>> {
    found.map_values(|lists: Vec<PathList>| views(lists@))
}

/// The groups with those of the first `n` search paths.
pub open spec fn with_search_paths(
    groups: Seq<GroupView>,
    context: ProjectContext,
    found: Seq<Seq<Seq<Parts>>>,
    n: int,
) -> Seq<GroupView>
    decreases n,
{
    if n <= 0 {
        groups
    } else {
        with_lists(
            with_search_paths(groups, context, found, n - 1),
            found[n - 1],
            legacy_entry_at(context.search_path_entries@, context.search_paths@[n - 1]@),
            found[n - 1].len() as int,
        )
    }
}

/// The groups of candidates for a unit, in the order in which they are tried: the files
/// that the project names, those beside the source, those in the search paths, and without
/// a project those that bear its name anywhere.
pub open spec fn groups_for(
    context: ProjectContext,
    lookup: Seq<char>,
    beside: Seq<Seq<Parts>>,
    found: Seq<Seq<Seq<Parts>>>,
    anywhere: Seq<Parts>,
) -> Seq<GroupView> {
    let explicit = explicit_files(
        context.explicit_units@,
        lookup,
        context.explicit_units@.len() as int,
    );
    let first: Seq<GroupView> = if explicit.len() > 0 {
        seq![GroupView { paths: explicit, legacy_search_path: false }]
    } else {
        seq![]
    };
    let second = with_lists(first, beside, false, beside.len() as int);
    let third = with_search_paths(second, context, found, found.len() as int);
    if context.project_file is None {
        third.push(GroupView { paths: anywhere, legacy_search_path: false })
    } else {
        third
    }
}

fn add_lists(groups: &mut Vec<UnitGroup>, lists: &Vec<PathList>, legacy: bool)
    ensures
        views(final(groups)@) == with_lists(
            views(old(groups)@),
            views(lists@),
            legacy,
            lists@.len() as int,
        ),
{
    let ghost start = views(groups@);
    let ghost all = views(lists@);
    let n: usize = lists.len();
    let mut i: usize = 0;
    while i < n
        invariant
            i <= n,
            n == lists@.len(),
            all == views(lists@),
            start == views(old(groups)@),
            views(groups@) == with_lists(start, all, legacy, i as int),
        decreases n - i,
    {
        let ghost held = groups@;
        let group = UnitGroup {
            paths: crate::installation::copy_files(&lists[i].paths),
            legacy_search_path: legacy,
        };
        groups.push(group);
        proof {
            assert(all[i as int] == lists@[i as int]@);
            assert(views(groups@) =~= views(held).push(group@));
        }
        i += 1;
    }
}

/// The groups of candidates for a unit, in the order in which they are tried. `beside` are
/// the candidates in the directory of the source, `found` those in each search path, and
/// `anywhere` the files that bear the name of the unit.
pub fn unit_groups(
    context: &ProjectContext,
    lookup: &str,
    beside: &Vec<PathList>,
    found: &Vec<Vec<PathList>>,
    anywhere: Vec<FilePath>,
) -> (r: Vec<UnitGroup>)
    requires
        found@.len() == context.search_paths@.len(),
    ensures
        views(r@) == groups_for(
            *context,
            lookup@,
            views(beside@),
            ranks_of(found@),
            views(anywhere@),
        ),
{
    let ghost by_path = ranks_of(found@);
    let mut groups: Vec<UnitGroup> = Vec::new();
    let explicit = named_files(&context.explicit_units, lookup);
    proof {
        assert(views(explicit@).len() == explicit@.len());
        assert(views(groups@) =~= seq![]);
    }
    if explicit.len() > 0 {
        let first = UnitGroup { paths: explicit, legacy_search_path: false };
        groups.push(first);
        proof {
            assert(views(groups@) =~= seq![first@]);
        }
    }
    add_lists(&mut groups, beside, false);
    let ghost second = views(groups@);
    let mut i: usize = 0;
    while i < found.len()
        invariant
            i <= found@.len(),
            found@.len() == context.search_paths@.len(),
            by_path == ranks_of(found@),
            views(groups@) == with_search_paths(second, *context, by_path, i as int),
        decreases found@.len() - i,
    {
        let legacy = is_legacy_entry(&context.search_path_entries, &context.search_paths[i]);
        proof {
            assert(by_path[i as int] == views(found@[i as int]@));
            assert(views(found@[i as int]@).len() == found@[i as int]@.len());
        }
        add_lists(&mut groups, &found[i], legacy);
        i += 1;
    }
    if context.project_file.is_none() {
        let ghost held = groups@;
        let last = UnitGroup { paths: anywhere, legacy_search_path: false };
        groups.push(last);
        proof {
            assert(views(groups@) =~= views(held).push(last@));
        }
    }
    groups
}

/// The paths of the first `n`, none twice.
pub open spec fn unique_paths(paths: Seq<Parts>, n: int) -> Seq<Parts>
    decreases n,
{
    if n <= 0 {
        seq![]
    } else {
        with_path_ci(unique_paths(paths, n - 1), paths[n - 1])
    }
}

fn drop_same_paths(paths: &Vec<FilePath>) -> (r: Vec<FilePath>)
    ensures
        views(r@) == unique_paths(views(paths@), paths@.len() as int),
{
    let ghost list = views(paths@);
    let mut unique: Vec<FilePath> = Vec::new();
    let mut i: usize = 0;
    proof {
        assert(views(unique@) =~= seq![]);
    }
    while i < paths.len()
        invariant
            i <= paths@.len(),
            list == views(paths@),
            views(unique@) == unique_paths(list, i as int),
        decreases paths@.len() - i,
    {
        proof {
            assert(list[i as int] == paths@[i as int]@);
        }
        if !holds_ci(&unique, &paths[i]) {
            let ghost held = unique@;
            let copied = paths[i].copy();
            unique.push(copied);
            proof {
                assert(views(unique@) =~= views(held).push(copied@));
            }
        }
        i += 1;
    }
    unique
}

/// A source that is tried for a unit.
#[derive(Debug)]
pub struct UnitCandidate {
    pub uri: String,
    /// It may be read because it lies in a search path that nothing but the file system
    /// leads to.
    pub legacy_search_path_route: bool,
}

/// A source that is tried for a unit.
pub struct CandidateView {
    pub uri: Seq<char>,
    pub legacy_search_path_route: bool,
}

impl View for UnitCandidate {
    type V = CandidateView;

    open spec fn view(&self) -> CandidateView {
        CandidateView {
            uri: self.uri@,
            legacy_search_path_route: self.legacy_search_path_route,
        }
    }
}

/// The sources that the first `n` paths stand for, without the one that asks.
pub open spec fn sources_of(
    paths: Seq<Parts>,
    legacy: bool,
    entries: Seq<PathEntry>,
    current: Seq<char>,
    n: int,
) -> Seq<CandidateView>
    decreases n,
{
    if n <= 0 {
        seq![]
    } else {
        let before = sources_of(paths, legacy, entries, current, n - 1);
        match path_uri(paths[n - 1]) {
            Some(uri) => if uri == current {
                before
            } else {
                before.push(
                    CandidateView {
                        uri,
                        legacy_search_path_route: legacy && under_legacy_entry(
                            entries,
                            paths[n - 1],
                        ),
                    },
                )
            },
            None => before,
        }
    }
}

fn list_sources(
    paths: &Vec<FilePath>,
    legacy: bool,
    entries: &Vec<PathEntry>,
    current_uri: &str,
) -> (r: Vec<UnitCandidate>)
    ensures
        views(r@) == sources_of(
            views(paths@),
            legacy,
            entries@,
            current_uri@,
            paths@.len() as int,
        ),
{
    let ghost list = views(paths@);
    let mut candidates: Vec<UnitCandidate> = Vec::new();
    let mut i: usize = 0;
    proof {
        assert(views(candidates@) =~= seq![]);
    }
    while i < paths.len()
        invariant
            i <= paths@.len(),
            list == views(paths@),
            views(candidates@) == sources_of(list, legacy, entries@, current_uri@, i as int),
        decreases paths@.len() - i,
    {
        proof {
            assert(list[i as int] == paths@[i as int]@);
        }
        if let Some(uri) = uri_of_path(&paths[i]) {
            if !same_str(uri.as_str(), current_uri) {
                let ghost held = candidates@;
                let candidate = UnitCandidate {
                    uri,
                    legacy_search_path_route: legacy && is_under_legacy_entry(entries, &paths[i]),
                };
                candidates.push(candidate);
                proof {
                    assert(views(candidates@) =~= views(held).push(candidate@));
                }
            }
        }
        i += 1;
    }
    candidates
}

/// The names of units that sources hold.
pub open spec fn unit_names(names: Seq<Option<String>>) -> Seq<Option<Seq<char>>> {
    names.map_values(|name: Option<String>| crate::uris::optional_text(name))
}

/// The sources of the first `n` that hold a unit which is meant.
pub open spec fn meant(
    candidates: Seq<CandidateView>,
    names: Seq<Option<Seq<char>>>,
    requested: Seq<char>,
    lookup: Seq<char>,
    namespaces: Seq<Seq<char>>,
    n: int,
) -> Set<Seq<char>>
    decreases n,
{
    if n <= 0 {
        Set::empty()
    } else {
        let before = meant(candidates, names, requested, lookup, namespaces, n - 1);
        if names[n - 1] is Some && names_unit(names[n - 1]->0, requested, lookup, namespaces) {
            before.insert(candidates[n - 1].uri)
        } else {
            before
        }
    }
}

/// What trying candidates came to.
#[derive(Debug)]
pub enum Verdict {
    Missing,
    Found(String),
    /// More than one source holds the unit; these in order.
    Ambiguous(Vec<String>),
}

/// What trying candidates came to, where those sources hold the unit.
pub open spec fn verdict_is(verdict: Verdict, sources: Set<Seq<char>>) -> bool {
    match verdict {
        Verdict::Missing => sources.len() == 0,
        Verdict::Found(uri) => sources.len() == 1 && sources.contains(uri@),
        Verdict::Ambiguous(uris) => sources.len() > 1 && texts(uris@) == in_order(sources),
    }
}

/// Which of the candidates holds the unit. `names` are the names of the units that they
/// hold, where they could be read.
pub fn judge_candidates(
    query: &UnitQuery,
    candidates: &Vec<UnitCandidate>,
    names: &Vec<Option<String>>,
) -> (r: Verdict)
    requires
        candidates@.len() == names@.len(),
    ensures
        verdict_is(
            r,
            meant(
                views(candidates@),
                unit_names(names@),
                query.requested@,
                query.lookup@,
                texts(query.namespaces@),
                names@.len() as int,
            ),
        ),
{
    let ghost list = views(candidates@);
    let ghost known = unit_names(names@);
    let ghost spaces = texts(query.namespaces@);
    let mut valid = StrSet::new();
    let mut i: usize = 0;
    while i < candidates.len()
        invariant
            i <= candidates@.len(),
            candidates@.len() == names@.len(),
            list == views(candidates@),
            known == unit_names(names@),
            spaces == texts(query.namespaces@),
            valid@ == meant(list, known, query.requested@, query.lookup@, spaces, i as int),
        decreases candidates@.len() - i,
    {
        proof {
            assert(list[i as int] == candidates@[i as int]@);
            assert(known[i as int] == crate::uris::optional_text(names@[i as int]));
        }
        if let Some(name) = &names[i] {
            if unit_name_matches(name.as_str(), query.requested, query.lookup, query.namespaces) {
                let _new = valid.insert(candidates[i].uri.clone());
            }
        }
        i += 1;
    }
    let count: usize = valid.len();
    if count == 0 {
        return Verdict::Missing;
    }
    if count == 1 {
        let only = valid.at(0).clone();
        proof {
            assert(valid.members().contains(valid.members()[0]));
        }
        return Verdict::Found(only);
    }
    Verdict::Ambiguous(valid.list())
}

/// The texts of the first `n`, with commas between them.
pub open spec fn listed(items: Seq<Seq<char>>, n: int) -> Seq<char>
    decreases n,
{
    if n <= 0 {
        seq![]
    } else if n == 1 {
        items[0]
    } else {
        listed(items, n - 1) + ", "@ + items[n - 1]
    }
}

fn join_texts(items: &Vec<String>) -> (r: String)
    ensures
        r@ == listed(texts(items@), items@.len() as int),
{
    let ghost list = texts(items@);
    let mut text = String::new();
    let mut i: usize = 0;
    proof {
        assert(text@ =~= seq![]);
    }
    while i < items.len()
        invariant
            i <= items@.len(),
            list == texts(items@),
            text@ == listed(list, i as int),
        decreases items@.len() - i,
    {
        proof {
            assert(list[i as int] == items@[i as int]@);
        }
        if i == 0 {
            text = items[i].clone();
        } else {
            text = concat3(text.as_str(), ", ", items[i].as_str());
        }
        i += 1;
    }
    text
}

/// The warning that several sources hold a unit.
pub open spec fn ambiguous_text(requested: Seq<char>, place: Seq<char>, uris: Seq<Seq<char>>) -> Seq<
    char,
> {
    "ambiguous unit "@ + requested + place + listed(uris, uris.len() as int)
}

fn ambiguous_message(requested: &str, place: &str, uris: &Vec<String>) -> (r: String)
    ensures
        r@ == ambiguous_text(requested@, place@, texts(uris@)),
{
    let head = concat3("ambiguous unit ", requested, place);
    proof {
        assert(texts(uris@).len() == uris@.len());
    }
    concat(head.as_str(), join_texts(uris).as_str())
}

pub const IN_CONTEXT: &'static str = " in the current project context: ";

pub const IN_PACKAGES: &'static str = " in the named source packages: ";

/// Where the search for a unit goes on.
#[derive(Debug)]
pub enum UnitStep {
    /// These sources are tried.
    Try(Vec<UnitCandidate>),
    /// The unit is looked for in the packages of the project.
    LookInPackages,
    /// The search is over.
    Done(Option<String>),
}

/// Where the search for a unit goes on.
pub enum UnitStepView {
    Try(Seq<CandidateView>),
    LookInPackages,
    Done(Option<Seq<char>>),
}

impl View for UnitStep {
    type V = UnitStepView;

    open spec fn view(&self) -> UnitStepView {
        match self {
            UnitStep::Try(candidates) => UnitStepView::Try(views(candidates@)),
            UnitStep::LookInPackages => UnitStepView::LookInPackages,
            UnitStep::Done(uri) => UnitStepView::Done(crate::uris::optional_text(*uri)),
        }
    }
}

/// The search for a unit, with the groups of candidates and how many of them were tried.
#[derive(Debug)]
pub struct UnitSearch {
    pub current_uri: String,
    pub groups: Vec<UnitGroup>,
    pub tried: usize,
}

/// The step that leads to the group at a place, or past the last one.
pub open spec fn group_step(search: UnitSearch, context: ProjectContext, at: int) -> UnitStepView {
    if 0 <= at < search.groups@.len() {
        let group = search.groups@[at]@;
        let unique = unique_paths(group.paths, group.paths.len() as int);
        UnitStepView::Try(
            sources_of(
                unique,
                group.legacy_search_path,
                context.search_path_entries@,
                search.current_uri@,
                unique.len() as int,
            ),
        )
    } else {
        UnitStepView::LookInPackages
    }
}

/// Why a project that names its units does not lead to this one.
pub open spec fn unsupported_text(requested: Seq<char>) -> Seq<char> {
    "unsupported unit filename mapping for "@ + requested
        + ": no explicit project filename mapping; declaration filename mismatch cannot be inferred safely"@
}

/// The warnings after a unit was not found in the packages either.
pub open spec fn not_found_warnings(
    log: Seq<Seq<char>>,
    told: Seq<Seq<char>>,
    context: ProjectContext,
    requested: Seq<char>,
    lookup: Seq<char>,
) -> Seq<Seq<char>> {
    let after = warned_with_all(log, told, told.len() as int);
    let explicit = explicit_files(
        context.explicit_units@,
        lookup,
        context.explicit_units@.len() as int,
    );
    if context.project_file is Some && context.explicit_units@.len() > 0 && explicit.len() == 0 {
        warned_with(after, unsupported_text(requested))
    } else {
        after
    }
}

impl UnitSearch {
    /// The search before its first step.
    pub fn new(current_uri: &str, groups: Vec<UnitGroup>) -> (r: Self)
        ensures
            r.current_uri@ == current_uri@,
            r.groups == groups,
            r.tried == 0,
    {
        UnitSearch { current_uri: current_uri.to_owned(), groups, tried: 0 }
    }

    /// The step that the search is at.
    pub fn step(&self, context: &ProjectContext) -> (r: UnitStep)
        ensures
            r@ == group_step(*self, *context, self.tried as int),
    {
        if self.tried < self.groups.len() {
            let group = &self.groups[self.tried];
            let unique = drop_same_paths(&group.paths);
            proof {
                assert(views(group.paths@).len() == group.paths@.len());
                assert(views(unique@).len() == unique@.len());
            }
            UnitStep::Try(
                list_sources(
                    &unique,
                    group.legacy_search_path,
                    &context.search_path_entries,
                    self.current_uri.as_str(),
                ),
            )
        } else {
            UnitStep::LookInPackages
        }
    }

    /// Goes on after the candidates of a group were tried. The first group that holds the
    /// unit decides, and where it holds more than one source for it, none is taken.
    pub fn group_tried(
        &mut self,
        context: &ProjectContext,
        requested: &str,
        verdict: Verdict,
        warnings: &mut WarningLog,
    ) -> (r: UnitStep)
        requires
            old(self).tried < old(self).groups@.len(),
        ensures
            final(self).groups == old(self).groups,
            final(self).current_uri == old(self).current_uri,
            final(self).tried == old(self).tried + 1,
            old(warnings).wf() ==> final(warnings).wf(),
            match verdict {
                Verdict::Missing => {
                    &&& r@ == group_step(*old(self), *context, old(self).tried + 1)
                    &&& final(warnings)@ == old(warnings)@
                },
                Verdict::Found(uri) => {
                    &&& r@ == UnitStepView::Done(Some(uri@))
                    &&& final(warnings)@ == old(warnings)@
                },
                Verdict::Ambiguous(uris) => {
                    &&& r@ == UnitStepView::Done(None)
                    &&& final(warnings)@ == warned_with(
                        old(warnings)@,
                        ambiguous_text(requested@, IN_CONTEXT@, texts(uris@)),
                    )
                },
            },
    {
        proof {
            assert(self.groups.len() == self.groups@.len());
        }
        self.tried = self.tried + 1;
        match verdict {
            Verdict::Missing => self.step(context),
            Verdict::Found(uri) => UnitStep::Done(Some(uri)),
            Verdict::Ambiguous(uris) => {
                warnings.warn(ambiguous_message(requested, IN_CONTEXT, &uris));
                UnitStep::Done(None)
            },
        }
    }

    /// Goes on after the packages were looked into. What could not be looked into as a whole
    /// is not used.
    pub fn packages_found(
        &self,
        context: &ProjectContext,
        lookup: &PackageLookup,
        warnings: &mut WarningLog,
    ) -> (r: UnitStep)
        ensures
            old(warnings).wf() ==> final(warnings).wf(),
            lookup.complete ==> final(warnings)@ == old(warnings)@ && r@ == UnitStepView::Try(
                sources_of(
                    lookup@.candidates,
                    false,
                    context.search_path_entries@,
                    self.current_uri@,
                    lookup@.candidates.len() as int,
                ),
            ),
            !lookup.complete ==> r@ == UnitStepView::Done(None) && final(warnings)@
                == warned_with_all(
                old(warnings)@,
                lookup@.warnings,
                lookup@.warnings.len() as int,
            ),
    {
        proof {
            assert(lookup@.warnings.len() == lookup.warnings@.len());
            assert(lookup@.candidates.len() == lookup.candidates@.len());
        }
        if !lookup.complete {
            warnings.warn_all(&lookup.warnings);
            return UnitStep::Done(None);
        }
        UnitStep::Try(
            list_sources(
                &lookup.candidates,
                false,
                &context.search_path_entries,
                self.current_uri.as_str(),
            ),
        )
    }

    /// Ends the search after the candidates of the packages were tried.
    pub fn packages_tried(
        &self,
        context: &ProjectContext,
        query: &UnitQuery,
        lookup: &PackageLookup,
        verdict: Verdict,
        warnings: &mut WarningLog,
    ) -> (r: Option<String>)
        ensures
            old(warnings).wf() ==> final(warnings).wf(),
            match verdict {
                Verdict::Found(uri) => r is Some && r->0@ == uri@ && final(warnings)@ == old(
                    warnings,
                )@,
                Verdict::Ambiguous(uris) => r is None && final(warnings)@ == warned_with(
                    old(warnings)@,
                    ambiguous_text(query.requested@, IN_PACKAGES@, texts(uris@)),
                ),
                Verdict::Missing => r is None && final(warnings)@ == not_found_warnings(
                    old(warnings)@,
                    lookup@.warnings,
                    *context,
                    query.requested@,
                    query.lookup@,
                ),
            },
    {
        match verdict {
            Verdict::Found(uri) => Some(uri),
            Verdict::Ambiguous(uris) => {
                warnings.warn(ambiguous_message(query.requested, IN_PACKAGES, &uris));
                None
            },
            Verdict::Missing => {
                proof {
                    assert(lookup@.warnings.len() == lookup.warnings@.len());
                }
                warnings.warn_all(&lookup.warnings);
                let explicit = named_files(&context.explicit_units, query.lookup);
                proof {
                    assert(views(explicit@).len() == explicit@.len());
                }
                if context.project_file.is_some() && context.explicit_units.len() > 0
                    && explicit.len() == 0 {
                    warnings.warn(
                        concat3(
                            "unsupported unit filename mapping for ",
                            query.requested,
                            ": no explicit project filename mapping; declaration filename mismatch cannot be inferred safely",
                        ),
                    );
                }
                None
            },
        }
    }
}

/// The files of a catalogue that bear a name, and the open ones that do.
pub open spec fn bearing(
    found: Seq<Parts>,
    catalogue: FilenamesView,
    open: Seq<Parts>,
    name: Seq<char>,
) -> Seq<Parts> {
    let first = if catalogue.entries.contains_key(name) {
        found + catalogue.entries[name]
    } else {
        found
    };
    first + open.filter(|path: Parts| goes_by(path, name))
}

/// The files below a root that bear one of the first `n` names.
pub open spec fn bearing_any(
    catalogue: FilenamesView,
    open: Seq<Parts>,
    names: Seq<Seq<char>>,
    n: int,
) -> Seq<Parts>
    decreases n,
{
    if n <= 0 {
        seq![]
    } else {
        bearing(bearing_any(catalogue, open, names, n - 1), catalogue, open, names[n - 1])
    }
}

/// The files below a root that bear one of the names: of each name those of the catalogue
/// first, then those of open documents.
pub fn filename_unit_candidates(
    catalogue: &FilenameCatalogue,
    open: &Vec<FilePath>,
    names: &Vec<String>,
) -> (r: Vec<FilePath>)
    ensures
        views(r@) == bearing_any(
            catalogue@,
            views(open@),
            texts(names@),
            names@.len() as int,
        ),
{
    let ghost opened = views(open@);
    let ghost wanted = texts(names@);
    let ghost files = catalogue@;
    let mut found: Vec<FilePath> = Vec::new();
    let mut i: usize = 0;
    proof {
        assert(views(found@) =~= seq![]);
    }
    while i < names.len()
        invariant
            i <= names@.len(),
            opened == views(open@),
            wanted == texts(names@),
            files == catalogue@,
            views(found@) == bearing_any(files, opened, wanted, i as int),
        decreases names@.len() - i,
    {
        let ghost before = views(found@);
        let ghost name = names@[i as int]@;
        proof {
            assert(wanted[i as int] == name);
        }
        if let Some(list) = catalogue.entries.get(names[i].as_str()) {
            let mut more = crate::installation::copy_files(&list.paths);
            proof {
                assert(files.entries[name] == list@);
            }
            let ghost held = found@;
            let ghost added = more@;
            found.append(&mut more);
            proof {
                assert(views(found@) =~= views(held) + views(added));
            }
        }
        let ghost first = views(found@);
        let ghost keep = |path: Parts| goes_by(path, name);
        let mut k: usize = 0;
        proof {
            assert(opened.take(0) =~= seq![]);
            assert(first + opened.take(0).filter(keep) =~= first);
        }
        while k < open.len()
            invariant
                i < names@.len(),
                k <= open@.len(),
                opened == views(open@),
                name == names@[i as int]@,
                keep == (|path: Parts| goes_by(path, name)),
                views(found@) == first + opened.take(k as int).filter(keep),
            decreases open@.len() - k,
        {
            proof {
                assert(opened[k as int] == open@[k as int]@);
                assert(opened.take(k + 1).drop_last() =~= opened.take(k as int));
                reveal(Seq::filter);
            }
            if file_goes_by(&open[k], names[i].as_str()) {
                let ghost held = found@;
                let copied = open[k].copy();
                found.push(copied);
                proof {
                    assert(views(found@) =~= views(held).push(copied@));
                }
            }
            proof {
                assert(views(found@) =~= first + opened.take(k + 1).filter(keep));
            }
            k += 1;
        }
        proof {
            assert(opened.take(open@.len() as int) =~= opened);
        }
        i += 1;
    }
    found
}

/// The names of the first `n` that nothing below a root bears.
pub open spec fn unborne(
    catalogue: FilenamesView,
    open: Seq<Parts>,
    names: Seq<Seq<char>>,
    n: int,
) -> Seq<Seq<char>>
    decreases n,
{
    if n <= 0 {
        seq![]
    } else {
        let before = unborne(catalogue, open, names, n - 1);
        if catalogue.entries.contains_key(names[n - 1]) || some_goes_by(open, names[n - 1]) {
            before
        } else {
            before.push(names[n - 1])
        }
    }
}

/// The names that a file below a root may come to bear: those that nothing bears, and all
/// where not everything was seen.
pub fn scope_names(catalogue: &FilenameCatalogue, open: &Vec<FilePath>, names: &Vec<String>) -> (r:
    Vec<String>)
    ensures
        texts(r@) == (if catalogue@.complete {
            unborne(catalogue@, views(open@), texts(names@), names@.len() as int)
        } else {
            texts(names@)
        }),
{
    if !catalogue.complete {
        return copy_list(names);
    }
    let ghost opened = views(open@);
    let ghost wanted = texts(names@);
    let mut missing: Vec<String> = Vec::new();
    let mut i: usize = 0;
    proof {
        assert(texts(missing@) =~= seq![]);
    }
    while i < names.len()
        invariant
            i <= names@.len(),
            opened == views(open@),
            wanted == texts(names@),
            texts(missing@) == unborne(catalogue@, opened, wanted, i as int),
        decreases names@.len() - i,
    {
        proof {
            assert(wanted[i as int] == names@[i as int]@);
        }
        if !catalogue.entries.contains_key(names[i].as_str()) && !any_goes_by(
            open,
            names[i].as_str(),
        ) {
            let ghost held = missing@;
            let copied = names[i].clone();
            missing.push(copied);
            proof {
                assert(texts(missing@) =~= texts(held).push(copied@));
            }
        }
        i += 1;
    }
    missing
}

/// The warning that not everything below a root was seen.
pub fn catalogue_limit_warning(root: &FilePath) -> (r: String)
    ensures
        r@ == "projectless filename catalogue reached its bounded entry limit of "@ + decimal(
            MAX_FILENAME_CATALOGUE_ENTRIES as nat,
        ) + " under "@ + path_text(root@),
{
    let head = concat3(
        "projectless filename catalogue reached its bounded entry limit of ",
        to_decimal(MAX_FILENAME_CATALOGUE_ENTRIES).as_str(),
        " under ",
    );
    concat(head.as_str(), root.text().as_str())
}

/// The first entry that is the root, whatever its case, from the `i`-th on.
pub open spec fn entry_of_root(entries: Seq<PathEntry>, root: Parts, i: int) -> Option<EntryView>
    decreases entries.len() - i,
{
    if i < 0 || i >= entries.len() {
        None
    } else if equal_ci(entries[i].path@, root) {
        Some(entries[i]@)
    } else {
        entry_of_root(entries, root, i + 1)
    }
}

/// The entry that a root is searched under: its own, the one under which it may be read,
/// or none but the file system.
pub open spec fn search_entry(context: ProjectContext, root: Parts, policy: Option<EntryView>) -> EntryView {
    match entry_of_root(context.search_path_entries@, root, 0) {
        Some(entry) => entry,
        None => match path_entry(context, root, policy) {
            Some(entry) => entry,
            None => EntryView { path: root, provenance: ProvenanceView::LegacyNative },
        },
    }
}

/// The entry that a root is searched under.
pub fn root_search_entry(context: &ProjectContext, root: &FilePath, policy: Option<PathEntry>) -> (r:
    PathEntry)
    ensures
        r@ == search_entry(*context, root@, optional_entry(policy)),
{
    let mut i: usize = 0;
    while i < context.search_path_entries.len()
        invariant
            i <= context.search_path_entries@.len(),
            entry_of_root(context.search_path_entries@, root@, 0) == entry_of_root(
                context.search_path_entries@,
                root@,
                i as int,
            ),
        decreases context.search_path_entries@.len() - i,
    {
        if paths_equal_ci(&context.search_path_entries[i].path, root) {
            return context.search_path_entries[i].copy();
        }
        i += 1;
    }
    match context_path_entry(context, root, policy) {
        Some(entry) => entry,
        None => PathEntry::legacy(root.copy()),
    }
}

} // verus!
