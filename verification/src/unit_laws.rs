//! How a unit is found among its candidates.

use vstd::prelude::*;

use crate::filenames::{candidates_for, held_ci, with_path_ci};
use crate::names::{candidate_tiers, exact_tier};
use crate::path_laws::law_case_does_not_tell_paths_apart;
use crate::paths::{equal_ci, starts_with, Parts};
use crate::project::{PathEntry, ProjectContext};
use crate::strings::{same_ci, texts};
use crate::strmap::{in_order, lemma_finite_set_has_order};
use crate::units::{
    directory_groups, explicit_files, group_step, groups_for, legacy_entry_at, meant, name_parts,
    not_found_warnings, sources_of, under_legacy_entry, unique_paths, unsupported_text, verdict_is,
    with_lists, with_search_paths, CandidateView, GroupView, UnitSearch, Verdict,
};
use crate::uris::path_uri;
use crate::warnings::{warned_with, warned_with_all, MAX_WORKSPACE_WARNINGS};

verus! {

/// How many lists there are in the first `n` directories.
pub open spec fn lists_before(found: Seq<Seq<Seq<Parts>>>, n: int) -> nat
    decreases n,
{
    if n <= 0 {
        0
    } else {
        lists_before(found, n - 1) + found[n - 1].len()
    }
}

/// A project names a file for the unit.
pub open spec fn is_named(context: ProjectContext, lookup: Seq<char>) -> bool {
    exists|i: int|
        0 <= i < context.explicit_units@.len() && (#[trigger] context.explicit_units@[i]).0@ == lookup
}

/// How many groups come of the files that a project names for the unit.
pub open spec fn named_groups(context: ProjectContext, lookup: Seq<char>) -> int {
    if is_named(context, lookup) {
        1
    } else {
        0
    }
}

proof fn lemma_explicit_files(units: Seq<(String, crate::paths::FilePath)>, name: Seq<char>, n: int)
    requires
        0 <= n <= units.len(),
    ensures
        forall|path: Parts| #[trigger]
            explicit_files(units, name, n).contains(path) <==> exists|i: int|
                0 <= i < n && (#[trigger] units[i]).0@ == name && units[i].1@ == path,
    decreases n,
{
    let files = explicit_files(units, name, n);
    if n > 0 {
        lemma_explicit_files(units, name, n - 1);
        let before = explicit_files(units, name, n - 1);
        assert forall|path: Parts| #[trigger] files.contains(path) <==> exists|i: int|
            0 <= i < n && (#[trigger] units[i]).0@ == name && units[i].1@ == path by {
            if files.contains(path) {
                let j = choose|j: int| 0 <= j < files.len() && files[j] == path;
                if j < before.len() {
                    assert(before[j] == path);
                    assert(before.contains(path));
                } else {
                    assert(units[n - 1].1@ == path);
                }
            }
            if exists|i: int| 0 <= i < n && (#[trigger] units[i]).0@ == name && units[i].1@ == path {
                let i = choose|i: int|
                    0 <= i < n && (#[trigger] units[i]).0@ == name && units[i].1@ == path;
                if i < n - 1 {
                    assert(before.contains(path));
                    let j = choose|j: int| 0 <= j < before.len() && before[j] == path;
                    assert(files[j] == path);
                } else {
                    assert(files[files.len() - 1] == path);
                }
            }
        }
    } else {
        assert forall|path: Parts| #[trigger] files.contains(path) <==> exists|i: int|
            0 <= i < n && (#[trigger] units[i]).0@ == name && units[i].1@ == path by {}
    }
}

proof fn lemma_with_lists(groups: Seq<GroupView>, lists: Seq<Seq<Parts>>, legacy: bool, n: int)
    requires
        0 <= n <= lists.len(),
    ensures
        with_lists(groups, lists, legacy, n).len() == groups.len() + n,
        forall|i: int|
            0 <= i < groups.len() ==> #[trigger] with_lists(groups, lists, legacy, n)[i]
                == groups[i],
        forall|j: int|
            groups.len() <= j < groups.len() + n ==> #[trigger] with_lists(
                groups,
                lists,
                legacy,
                n,
            )[j] == (GroupView { paths: lists[j - groups.len()], legacy_search_path: legacy }),
    decreases n,
{
    if n > 0 {
        lemma_with_lists(groups, lists, legacy, n - 1);
    }
}

proof fn lemma_lists_before(found: Seq<Seq<Seq<Parts>>>, i: int, n: int)
    requires
        0 <= i <= n,
    ensures
        lists_before(found, i) <= lists_before(found, n),
    decreases n - i,
{
    if i < n {
        lemma_lists_before(found, i, n - 1);
    }
}

proof fn lemma_with_search_paths(
    groups: Seq<GroupView>,
    context: ProjectContext,
    found: Seq<Seq<Seq<Parts>>>,
    n: int,
)
    requires
        0 <= n <= found.len(),
    ensures
        with_search_paths(groups, context, found, n).len() == groups.len() + lists_before(found, n),
        forall|i: int|
            0 <= i < groups.len() ==> #[trigger] with_search_paths(groups, context, found, n)[i]
                == groups[i],
        forall|i: int, j: int|
            0 <= i < n && 0 <= j < found[i].len() ==> with_search_paths(
                groups,
                context,
                found,
                n,
            )[groups.len() + lists_before(found, i) + j] == (GroupView {
                paths: #[trigger] found[i][j],
                legacy_search_path: legacy_entry_at(
                    context.search_path_entries@,
                    context.search_paths@[i]@,
                ),
            }),
    decreases n,
{
    if n > 0 {
        lemma_with_search_paths(groups, context, found, n - 1);
        let before = with_search_paths(groups, context, found, n - 1);
        let legacy = legacy_entry_at(
            context.search_path_entries@,
            context.search_paths@[n - 1]@,
        );
        lemma_with_lists(before, found[n - 1], legacy, found[n - 1].len() as int);
        let after = with_search_paths(groups, context, found, n);
        assert forall|i: int, j: int|
            0 <= i < n && 0 <= j < found[i].len() implies after[groups.len() + lists_before(
            found,
            i,
        ) + j] == (GroupView {
            paths: #[trigger] found[i][j],
            legacy_search_path: legacy_entry_at(
                context.search_path_entries@,
                context.search_paths@[i]@,
            ),
        }) by {
            if i < n - 1 {
                lemma_lists_before(found, i + 1, n - 1);
                assert(lists_before(found, i + 1) == lists_before(found, i) + found[i].len());
                assert(after[groups.len() + lists_before(found, i) + j] == before[groups.len()
                    + lists_before(found, i) + j]);
            }
        }
    }
}

/// A search path is one that nothing but the file system leads to.
pub open spec fn only_file_system_leads_to(context: ProjectContext, path: Parts) -> bool {
    exists|k: int|
        0 <= k < context.search_path_entries@.len() && (
        #[trigger] context.search_path_entries@[k]).provenance@ is LegacyNative
            && context.search_path_entries@[k].path@ == path
}

/// A unit is looked for in four places, one after the other: in the files that the project
/// names for it, beside the source that asks, in each search path, and anywhere in the
/// workspace. Every path that was found in one of these is tried, in a group that comes after
/// all groups of the places before. Those found anywhere are tried exactly where there is no
/// project, and no other path is tried. Only what lies in a search path that nothing but the
/// file system leads to is tried as such.
#[verifier::spinoff_prover]
pub proof fn law_candidates_are_tried_place_by_place(
    context: ProjectContext,
    lookup: Seq<char>,
    beside: Seq<Seq<Parts>>,
    found: Seq<Seq<Seq<Parts>>>,
    anywhere: Seq<Parts>,
)
    requires
        found.len() == context.search_paths@.len(),
    ensures
        groups_for(context, lookup, beside, found, anywhere).len() == named_groups(context, lookup)
            + beside.len() + lists_before(found, found.len() as int) + (
        if context.project_file is None {
            1int
        } else {
            0
        }),
        is_named(context, lookup) ==> {
            let first = groups_for(context, lookup, beside, found, anywhere)[0];
            &&& !first.legacy_search_path
            &&& forall|path: Parts| #[trigger]
                first.paths.contains(path) <==> exists|i: int|
                    0 <= i < context.explicit_units@.len() && (
                    #[trigger] context.explicit_units@[i]).0@ == lookup
                        && context.explicit_units@[i].1@ == path
        },
        forall|j: int|
            0 <= j < beside.len() ==> groups_for(
                context,
                lookup,
                beside,
                found,
                anywhere,
            )[named_groups(context, lookup) + j] == (GroupView {
                paths: #[trigger] beside[j],
                legacy_search_path: false,
            }),
        forall|i: int, j: int|
            #![trigger found[i][j]]
            0 <= i < found.len() && 0 <= j < found[i].len() ==> {
                let group = groups_for(context, lookup, beside, found, anywhere)[named_groups(
                    context,
                    lookup,
                ) + beside.len() + lists_before(found, i) + j];
                &&& group.paths == found[i][j]
                &&& group.legacy_search_path == only_file_system_leads_to(
                    context,
                    context.search_paths@[i]@,
                )
            },
        forall|i: int|
            0 <= i < found.len() ==> lists_before(found, i) + (#[trigger] found[i]).len()
                <= lists_before(found, found.len() as int),
        context.project_file is None ==> {
            let last = groups_for(context, lookup, beside, found, anywhere).last();
            &&& !last.legacy_search_path
            &&& last.paths == anywhere
            &&& forall|path: Parts| #[trigger]
                anywhere.contains(path) ==> last.paths.contains(path)
        },
{
    let units = context.explicit_units@;
    let explicit = explicit_files(units, lookup, units.len() as int);
    lemma_explicit_files(units, lookup, units.len() as int);
    assert(is_named(context, lookup) == (explicit.len() > 0)) by {
        if explicit.len() > 0 {
            assert(explicit.contains(explicit[0]));
        }
        if is_named(context, lookup) {
            let i = choose|i: int| 0 <= i < units.len() && (#[trigger] units[i]).0@ == lookup;
            assert(explicit.contains(units[i].1@));
        }
    }
    let first: Seq<GroupView> = if explicit.len() > 0 {
        seq![GroupView { paths: explicit, legacy_search_path: false }]
    } else {
        seq![]
    };
    let second = with_lists(first, beside, false, beside.len() as int);
    let third = with_search_paths(second, context, found, found.len() as int);
    let r = groups_for(context, lookup, beside, found, anywhere);
    lemma_with_lists(first, beside, false, beside.len() as int);
    lemma_with_search_paths(second, context, found, found.len() as int);
    let named = named_groups(context, lookup);
    assert(first.len() == named);
    let in_paths = named + beside.len();
    assert(second.len() == in_paths);
    assert forall|i: int| 0 <= i < third.len() implies r[i] == third[i] by {}
    assert forall|j: int| 0 <= j < beside.len() implies r[named + j] == (GroupView {
        paths: #[trigger] beside[j],
        legacy_search_path: false,
    }) by {
        assert(second[named + j] == (GroupView { paths: beside[j], legacy_search_path: false }));
        assert(third[named + j] == second[named + j]);
    }
    if explicit.len() > 0 {
        assert(second[0] == first[0]);
        assert(third[0] == second[0]);
        assert(r[0] == first[0]);
    }
    assert forall|i: int| 0 <= i < found.len() implies lists_before(found, i) + (
    #[trigger] found[i]).len() <= lists_before(found, found.len() as int) by {
        lemma_lists_before(found, i + 1, found.len() as int);
    }
    assert forall|i: int, j: int|
        #![trigger found[i][j]]
        0 <= i < found.len() && 0 <= j < found[i].len() implies {
        let group = r[named + beside.len() + lists_before(found, i) + j];
        &&& group.paths == found[i][j]
        &&& group.legacy_search_path == only_file_system_leads_to(
            context,
            context.search_paths@[i]@,
        )
    } by {
        lemma_lists_before(found, i + 1, found.len() as int);
        assert(lists_before(found, i + 1) == lists_before(found, i) + found[i].len());
        let at = in_paths + lists_before(found, i) + j;
        assert(third[at] == r[at]);
        let path = context.search_paths@[i]@;
        assert(only_file_system_leads_to(context, path) == legacy_entry_at(
            context.search_path_entries@,
            path,
        ));
        assert(third[at] == (GroupView {
            paths: found[i][j],
            legacy_search_path: legacy_entry_at(context.search_path_entries@, path),
        }));
    }
}

proof fn lemma_unique_paths(paths: Seq<Parts>, n: int)
    requires
        0 <= n <= paths.len(),
    ensures
        forall|i: int| 0 <= i < n ==> held_ci(unique_paths(paths, n), #[trigger] paths[i]),
        forall|k: int|
            0 <= k < unique_paths(paths, n).len() ==> exists|i: int|
                0 <= i < n && #[trigger] unique_paths(paths, n)[k] == #[trigger] paths[i],
        forall|k: int, l: int|
            0 <= k < l < unique_paths(paths, n).len() ==> !equal_ci(
                #[trigger] unique_paths(paths, n)[k],
                #[trigger] unique_paths(paths, n)[l],
            ),
    decreases n,
{
    if n > 0 {
        lemma_unique_paths(paths, n - 1);
        let before = unique_paths(paths, n - 1);
        let after = unique_paths(paths, n);
        let x = paths[n - 1];
        law_case_does_not_tell_paths_apart(x, x, x);
        assert(after == with_path_ci(before, x));
        assert forall|i: int| 0 <= i < n implies held_ci(after, #[trigger] paths[i]) by {
            if i < n - 1 {
                assert(held_ci(before, paths[i]));
                let k = choose|k: int|
                    0 <= k < before.len() && equal_ci(#[trigger] before[k], paths[i]);
                assert(after[k] == before[k]);
                assert(equal_ci(after[k], paths[i]));
            } else if held_ci(before, x) {
                let k = choose|k: int| 0 <= k < before.len() && equal_ci(#[trigger] before[k], x);
                assert(after[k] == before[k]);
                assert(equal_ci(after[k], paths[i]));
            } else {
                assert(after[after.len() - 1] == x);
                assert(equal_ci(after[after.len() - 1], paths[i]));
            }
        }
        assert forall|k: int| 0 <= k < after.len() implies exists|i: int|
            0 <= i < n && #[trigger] after[k] == #[trigger] paths[i] by {
            if k < before.len() {
                assert(after[k] == before[k]);
                let i = choose|i: int| 0 <= i < n - 1 && before[k] == #[trigger] paths[i];
                assert(after[k] == paths[i]);
            } else {
                assert(after[k] == paths[n - 1]);
            }
        }
        assert forall|k: int, l: int| 0 <= k < l < after.len() implies !equal_ci(
            #[trigger] after[k],
            #[trigger] after[l],
        ) by {
            assert(after[k] == before[k]);
            if l < before.len() {
                assert(after[l] == before[l]);
            }
        }
    }
}

proof fn lemma_sources_of(
    paths: Seq<Parts>,
    legacy: bool,
    entries: Seq<PathEntry>,
    current: Seq<char>,
    n: int,
)
    requires
        0 <= n <= paths.len(),
    ensures
        forall|i: int|
            0 <= i < n && path_uri(#[trigger] paths[i]) is Some && path_uri(paths[i])->0 != current
                ==> sources_of(paths, legacy, entries, current, n).contains(
                CandidateView {
                    uri: path_uri(paths[i])->0,
                    legacy_search_path_route: legacy && under_legacy_entry(entries, paths[i]),
                },
            ),
        forall|c: CandidateView| #[trigger]
            sources_of(paths, legacy, entries, current, n).contains(c) ==> c.uri != current
                && exists|i: int|
                0 <= i < n && path_uri(#[trigger] paths[i]) == Some(c.uri)
                    && c.legacy_search_path_route == (legacy && under_legacy_entry(
                    entries,
                    paths[i],
                )),
    decreases n,
{
    let r = sources_of(paths, legacy, entries, current, n);
    if n > 0 {
        lemma_sources_of(paths, legacy, entries, current, n - 1);
        let before = sources_of(paths, legacy, entries, current, n - 1);
        assert forall|i: int|
            0 <= i < n && path_uri(#[trigger] paths[i]) is Some && path_uri(paths[i])->0
                != current implies r.contains(
            CandidateView {
                uri: path_uri(paths[i])->0,
                legacy_search_path_route: legacy && under_legacy_entry(entries, paths[i]),
            },
        ) by {
            let c = CandidateView {
                uri: path_uri(paths[i])->0,
                legacy_search_path_route: legacy && under_legacy_entry(entries, paths[i]),
            };
            if i < n - 1 {
                assert(before.contains(c));
                let k = choose|k: int| 0 <= k < before.len() && before[k] == c;
                assert(r[k] == c);
            } else {
                assert(r[r.len() - 1] == c);
            }
        }
        assert forall|c: CandidateView| #[trigger] r.contains(c) implies c.uri != current
            && exists|i: int|
            0 <= i < n && path_uri(#[trigger] paths[i]) == Some(c.uri)
                && c.legacy_search_path_route == (legacy && under_legacy_entry(entries, paths[i])) by {
            let k = choose|k: int| 0 <= k < r.len() && r[k] == c;
            if k < before.len() {
                assert(before[k] == c);
                assert(before.contains(c));
            } else {
                assert(path_uri(paths[n - 1]) == Some(c.uri));
            }
        }
    }
}

/// A path of a group is tried: of the paths that are the same but for case there is one that
/// has no URI, is the source that asks, or is among the sources that are tried.
pub open spec fn is_tried(
    paths: Seq<Parts>,
    path: Parts,
    current: Seq<char>,
    tried: Seq<CandidateView>,
) -> bool {
    exists|k: int|
        0 <= k < paths.len() && equal_ci(#[trigger] paths[k], path) && (path_uri(paths[k]) is None
            || path_uri(paths[k])->0 == current || exists|c: CandidateView| #[trigger]
            tried.contains(c) && c.uri == path_uri(paths[k])->0)
}

/// The sources that are tried for a group are those of its paths. Of paths that are the same
/// but for case one is tried, and the source that asks is not. A source may be read over a
/// search path that nothing but the file system leads to only where the group is of one and the
/// path lies under such an entry. Past the last group the packages are looked into.
pub proof fn law_a_group_leads_to_the_sources_of_its_paths(
    search: UnitSearch,
    context: ProjectContext,
    at: int,
)
    ensures
        !(0 <= at < search.groups@.len()) ==> group_step(search, context, at)
            is LookInPackages,
        0 <= at < search.groups@.len() ==> {
            let group = search.groups@[at]@;
            let step = group_step(search, context, at);
            let entries = context.search_path_entries@;
            &&& step is Try
            &&& forall|i: int|
                0 <= i < group.paths.len() ==> is_tried(
                    group.paths,
                    #[trigger] group.paths[i],
                    search.current_uri@,
                    step->Try_0,
                )
            &&& forall|c: CandidateView| #[trigger]
                step->Try_0.contains(c) ==> c.uri != search.current_uri@ && exists|i: int|
                    0 <= i < group.paths.len() && path_uri(#[trigger] group.paths[i]) == Some(c.uri)
                        && c.legacy_search_path_route == (group.legacy_search_path && exists|e: int|
                        0 <= e < entries.len() && (
                        #[trigger] entries[e]).provenance@ is LegacyNative && starts_with(
                            group.paths[i],
                            entries[e].path@,
                        ))
        },
{
    if 0 <= at < search.groups@.len() {
        let group = search.groups@[at]@;
        let paths = group.paths;
        let entries = context.search_path_entries@;
        let unique = unique_paths(paths, paths.len() as int);
        let legacy = group.legacy_search_path;
        let list = sources_of(
            unique,
            legacy,
            entries,
            search.current_uri@,
            unique.len() as int,
        );
        lemma_unique_paths(paths, paths.len() as int);
        lemma_sources_of(unique, legacy, entries, search.current_uri@, unique.len() as int);
        assert forall|i: int| 0 <= i < paths.len() implies is_tried(
            paths,
            #[trigger] paths[i],
            search.current_uri@,
            list,
        ) by {
            assert(held_ci(unique, paths[i]));
            let u = choose|u: int|
                0 <= u < unique.len() && equal_ci(#[trigger] unique[u], paths[i]);
            let k = choose|k: int| 0 <= k < paths.len() && unique[u] == #[trigger] paths[k];
            assert(equal_ci(paths[k], paths[i]));
            if path_uri(paths[k]) is Some && path_uri(paths[k])->0 != search.current_uri@ {
                let c = CandidateView {
                    uri: path_uri(unique[u])->0,
                    legacy_search_path_route: legacy && under_legacy_entry(entries, unique[u]),
                };
                assert(list.contains(c));
            }
        }
        assert forall|c: CandidateView| #[trigger] list.contains(c) implies c.uri
            != search.current_uri@ && exists|i: int|
            0 <= i < paths.len() && path_uri(#[trigger] paths[i]) == Some(c.uri)
                && c.legacy_search_path_route == (legacy && under_legacy_entry(entries, paths[i])) by {
            let u = choose|u: int|
                0 <= u < unique.len() && path_uri(#[trigger] unique[u]) == Some(c.uri)
                    && c.legacy_search_path_route == (legacy && under_legacy_entry(
                    entries,
                    unique[u],
                ));
            let k = choose|k: int| 0 <= k < paths.len() && unique[u] == #[trigger] paths[k];
            assert(path_uri(paths[k]) == Some(c.uri));
        }
    }
}

proof fn lemma_meant(
    candidates: Seq<CandidateView>,
    names: Seq<Option<Seq<char>>>,
    requested: Seq<char>,
    lookup: Seq<char>,
    namespaces: Seq<Seq<char>>,
    n: int,
)
    ensures
        meant(candidates, names, requested, lookup, namespaces, n).finite(),
        forall|uri: Seq<char>| #[trigger]
            meant(candidates, names, requested, lookup, namespaces, n).contains(uri)
                <==> exists|i: int|
                0 <= i < n && (#[trigger] candidates[i]).uri == uri && holds_unit(
                    names[i],
                    requested,
                    lookup,
                    namespaces,
                ),
    decreases n,
{
    let sources = meant(candidates, names, requested, lookup, namespaces, n);
    lemma_dot();
    if n > 0 {
        lemma_meant(candidates, names, requested, lookup, namespaces, n - 1);
        let before = meant(candidates, names, requested, lookup, namespaces, n - 1);
        assert forall|uri: Seq<char>| #[trigger] sources.contains(uri) <==> exists|i: int|
            0 <= i < n && (#[trigger] candidates[i]).uri == uri && holds_unit(
                names[i],
                requested,
                lookup,
                namespaces,
            ) by {
            if exists|i: int|
                0 <= i < n && (#[trigger] candidates[i]).uri == uri && holds_unit(
                    names[i],
                    requested,
                    lookup,
                    namespaces,
                ) {
                let i = choose|i: int|
                    0 <= i < n && (#[trigger] candidates[i]).uri == uri && holds_unit(
                        names[i],
                        requested,
                        lookup,
                        namespaces,
                    );
                if i < n - 1 {
                    assert(before.contains(uri));
                }
            }
            if sources.contains(uri) && !before.contains(uri) {
                assert(candidates[n - 1].uri == uri);
            }
        }
    }
}

/// A source holds the unit that is asked for: it declares a unit whose name is, but for case,
/// the name that was asked for, the name that this stands for, or, where that has no dot, that
/// name in a namespace of the project.
pub open spec fn holds_unit(
    declared: Option<Seq<char>>,
    requested: Seq<char>,
    lookup: Seq<char>,
    namespaces: Seq<Seq<char>>,
) -> bool {
    declared is Some && {
        ||| same_ci(declared->0, requested)
        ||| same_ci(declared->0, lookup)
        ||| !lookup.contains('.') && exists|k: int|
            0 <= k < namespaces.len() && same_ci(
                #[trigger] namespaces[k] + seq!['.'] + lookup,
                declared->0,
            )
    }
}

/// Of the candidates the one is found that holds the unit. Where none does there is none, and
/// where different sources do none is taken and all of them are named, in the order of their
/// URIs.
pub proof fn law_the_one_source_that_holds_the_unit_is_found(
    candidates: Seq<CandidateView>,
    names: Seq<Option<Seq<char>>>,
    requested: Seq<char>,
    lookup: Seq<char>,
    namespaces: Seq<Seq<char>>,
    verdict: Verdict,
)
    requires
        candidates.len() == names.len(),
        verdict_is(
            verdict,
            meant(candidates, names, requested, lookup, namespaces, names.len() as int),
        ),
    ensures
        match verdict {
            Verdict::Missing => forall|i: int|
                0 <= i < names.len() ==> !holds_unit(
                    #[trigger] names[i],
                    requested,
                    lookup,
                    namespaces,
                ),
            Verdict::Found(uri) => {
                &&& exists|i: int|
                    0 <= i < names.len() && (#[trigger] candidates[i]).uri == uri@ && holds_unit(
                        names[i],
                        requested,
                        lookup,
                        namespaces,
                    )
                &&& forall|i: int|
                    0 <= i < names.len() && holds_unit(
                        #[trigger] names[i],
                        requested,
                        lookup,
                        namespaces,
                    ) ==> candidates[i].uri == uri@
            },
            Verdict::Ambiguous(uris) => {
                &&& exists|i: int, j: int|
                    0 <= i < names.len() && 0 <= j < names.len() && holds_unit(
                        #[trigger] names[i],
                        requested,
                        lookup,
                        namespaces,
                    ) && holds_unit(#[trigger] names[j], requested, lookup, namespaces)
                        && candidates[i].uri != candidates[j].uri
                &&& forall|uri: Seq<char>| #[trigger]
                    texts(uris@).contains(uri) <==> exists|i: int|
                        0 <= i < names.len() && (#[trigger] candidates[i]).uri == uri && holds_unit(
                            names[i],
                            requested,
                            lookup,
                            namespaces,
                        )
            },
        },
{
    let n = names.len() as int;
    let sources = meant(candidates, names, requested, lookup, namespaces, n);
    lemma_dot();
    lemma_meant(candidates, names, requested, lookup, namespaces, n);
    assert forall|i: int|
        0 <= i < n && holds_unit(#[trigger] names[i], requested, lookup, namespaces) implies sources.contains(
        candidates[i].uri,
    ) by {
        assert(candidates[i].uri == candidates[i].uri);
    }
    match verdict {
        Verdict::Missing => {
            assert forall|i: int| 0 <= i < n implies !holds_unit(
                #[trigger] names[i],
                requested,
                lookup,
                namespaces,
            ) by {
                if holds_unit(names[i], requested, lookup, namespaces) {
                    assert(sources.contains(candidates[i].uri));
                    assert(sources.len() != 0);
                }
            }
        },
        Verdict::Found(uri) => {
            assert(sources.contains(uri@));
            assert forall|i: int|
                0 <= i < n && holds_unit(
                    #[trigger] names[i],
                    requested,
                    lookup,
                    namespaces,
                ) implies candidates[i].uri == uri@ by {
                assert(sources.contains(candidates[i].uri));
                if candidates[i].uri != uri@ {
                    assert(sources.remove(uri@).contains(candidates[i].uri));
                    assert(sources.remove(uri@).len() == 0);
                }
            }
        },
        Verdict::Ambiguous(uris) => {
            lemma_finite_set_has_order(sources);
            assert(in_order(sources).to_set() == sources);
            assert forall|uri: Seq<char>| #[trigger] texts(uris@).contains(uri) <==> exists|i: int|
                0 <= i < names.len() && (#[trigger] candidates[i]).uri == uri && holds_unit(
                    names[i],
                    requested,
                    lookup,
                    namespaces,
                ) by {
                assert(texts(uris@).to_set().contains(uri) <==> sources.contains(uri));
            }
            let one = sources.choose();
            assert(sources.contains(one));
            let rest = sources.remove(one);
            assert(rest.len() > 0);
            let two = rest.choose();
            assert(rest.contains(two));
            assert(sources.contains(two));
            let i = choose|i: int|
                0 <= i < n && (#[trigger] candidates[i]).uri == one && holds_unit(
                    names[i],
                    requested,
                    lookup,
                    namespaces,
                );
            let j = choose|j: int|
                0 <= j < n && (#[trigger] candidates[j]).uri == two && holds_unit(
                    names[j],
                    requested,
                    lookup,
                    namespaces,
                );
            assert(holds_unit(names[i], requested, lookup, namespaces) && holds_unit(
                names[j],
                requested,
                lookup,
                namespaces,
            ) && candidates[i].uri != candidates[j].uri);
        },
    }
}

proof fn lemma_dot()
    ensures
        "."@ == seq!['.'],
{
    reveal_strlit(".");
    assert("."@ =~= seq!['.']);
}

/// The file that goes by a unit's own name comes before any that goes by a namespace, and what
/// the directory that a dotted name leads to holds comes last, where there is such a directory.
pub proof fn law_own_names_come_first_and_nested_files_last(
    unit: Seq<char>,
    namespaces: Seq<Seq<char>>,
    entries: Seq<Parts>,
    nested: Option<Seq<Parts>>,
)
    ensures
        ({
            let groups = directory_groups(unit, namespaces, entries, nested);
            let own = candidate_tiers(unit, namespaces).len();
            let within = name_parts(unit).len() > 1 && nested is Some;
            &&& groups.len() == own + if within {
                1int
            } else {
                0int
            }
            &&& groups[0] == candidates_for(
                entries,
                exact_tier(unit),
                exact_tier(unit).len() as int,
            )
            &&& within ==> groups.last() == candidates_for(
                nested->0,
                exact_tier(name_parts(unit).last()),
                exact_tier(name_parts(unit).last()).len() as int,
            )
            &&& forall|i: int|
                0 <= i < own ==> #[trigger] groups[i] == candidates_for(
                    entries,
                    candidate_tiers(unit, namespaces)[i],
                    candidate_tiers(unit, namespaces)[i].len() as int,
                )
        }),
{
    let last = name_parts(unit).last();
    assert(candidate_tiers(last, seq![]) =~= seq![exact_tier(last)]);
}

/// Where a unit was not found, that it has no file of its own is told exactly for a project
/// that names files for some units, but none for this one.
pub proof fn law_a_unit_without_a_file_of_its_own_is_told(
    log: Seq<Seq<char>>,
    told: Seq<Seq<char>>,
    context: ProjectContext,
    requested: Seq<char>,
    lookup: Seq<char>,
)
    requires
        warned_with_all(log, told, told.len() as int).len() < MAX_WORKSPACE_WARNINGS,
    ensures
        ({
            let before = warned_with_all(log, told, told.len() as int);
            let after = not_found_warnings(log, told, context, requested, lookup);
            let units = context.explicit_units@;
            let named = exists|i: int| 0 <= i < units.len() && (#[trigger] units[i]).0@ == lookup;
            forall|message: Seq<char>| #[trigger]
                after.contains(message) <==> before.contains(message) || (message
                    == unsupported_text(requested) && context.project_file is Some && units.len()
                    > 0 && !named)
        }),
{
    let before = warned_with_all(log, told, told.len() as int);
    let units = context.explicit_units@;
    let files = explicit_files(units, lookup, units.len() as int);
    lemma_explicit_files(units, lookup, units.len() as int);
    if exists|i: int| 0 <= i < units.len() && (#[trigger] units[i]).0@ == lookup {
        let i = choose|i: int| 0 <= i < units.len() && (#[trigger] units[i]).0@ == lookup;
        assert(files.contains(units[i].1@));
    } else if files.len() > 0 {
        assert(files.contains(files[0]));
    }
    lemma_told(before, unsupported_text(requested));
}

/// A log with room holds a message once it was told, and nothing else that it did not hold.
pub proof fn lemma_told(log: Seq<Seq<char>>, message: Seq<char>)
    requires
        log.len() < MAX_WORKSPACE_WARNINGS,
    ensures
        forall|m: Seq<char>| #[trigger]
            warned_with(log, message).contains(m) <==> log.contains(m) || m == message,
{
    assert forall|m: Seq<char>| #[trigger]
        warned_with(log, message).contains(m) <==> log.contains(m) || m == message by {
        let after = log.push(message);
        if log.contains(m) {
            let i = choose|i: int| 0 <= i < log.len() && log[i] == m;
            assert(after[i] == m);
        }
        assert(after[log.len() as int] == message);
        if after.contains(m) && m != message {
            let i = choose|i: int| 0 <= i < after.len() && after[i] == m;
            assert(log[i] == m);
        }
    }
}

} // verus!
