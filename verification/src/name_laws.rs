//! The names of units and of the files that they are in.

use vstd::prelude::*;

use crate::conditional::alias_target;
use crate::documents::DocumentView;
use crate::filenames::{candidates_for, goes_by, held_ci, named_entries, with_path_ci};
use crate::names::{
    aliased_name, candidate_tiers, exact_tier, namespace_prefix, namespace_tiers, short_name,
};
use crate::native::shown;
use crate::path_laws::law_case_does_not_tell_paths_apart;
use crate::paths::{equal_ci, file_name_of, parent_of, starts_with_ci, Parts};
use crate::picks::{lemma_none_picked, lemma_picked, picked};
use crate::project::PathStamp;
use crate::records::{
    named_ci, with_missing, with_new_names, with_scope, RecordView, ScopeView,
};
use crate::strings::{lower, same_ci};
use crate::strmap::in_order;
use crate::units::{between_dots, name_parts, open_files, Place};
use crate::uris::{path_uri, uri_path};

verus! {

/// A unit is looked for in the file of its whole name first, and, where it has a dotted name,
/// in that of its last part beside it. One without dots is looked for in each namespace of the
/// project after that, and one with dots nowhere else.
pub proof fn law_which_files_a_unit_may_be_in(unit: Seq<char>, namespaces: Seq<Seq<char>>, i: int)
    ensures
        ({
            let tiers = candidate_tiers(unit, namespaces);
            let dotted = unit.contains('.');
            &&& tiers.len() > 0
            &&& tiers[0].len() > 0 && tiers[0][0] == unit + ".pas"@
            &&& dotted ==> tiers.len() == 1
            &&& !same_ci(short_name(unit), unit) ==> tiers[0].contains(short_name(unit) + ".pas"@)
            &&& same_ci(short_name(unit), unit) ==> tiers[0].len() == 1
            &&& !dotted && 0 <= i < namespaces.len() && namespace_prefix(namespaces[i]).len() > 0
                ==> tiers.contains(
                seq![namespace_prefix(namespaces[i]) + "."@ + unit + ".pas"@],
            )
            &&& !dotted ==> forall|k: int|
                1 <= k < tiers.len() ==> is_namespaced(#[trigger] tiers[k], unit, namespaces)
        }),
{
    let tiers = candidate_tiers(unit, namespaces);
    let first = exact_tier(unit);
    if !same_ci(short_name(unit), unit) {
        assert(first[1] == short_name(unit) + ".pas"@);
    }
    assert(tiers[0] == first);
    if !unit.contains('.') {
        let rest = namespace_tiers(unit, namespaces, namespaces.len() as int);
        lemma_namespaces(unit, namespaces, namespaces.len() as int);
        assert forall|k: int| 1 <= k < tiers.len() implies is_namespaced(
            #[trigger] tiers[k],
            unit,
            namespaces,
        ) by {
            assert(tiers[k] == rest[k - 1]);
        }
        if 0 <= i < namespaces.len() && namespace_prefix(namespaces[i]).len() > 0 {
            let tier = seq![namespace_prefix(namespaces[i]) + "."@ + unit + ".pas"@];
            assert(rest.contains(tier));
            let k = choose|k: int| 0 <= k < rest.len() && rest[k] == tier;
            assert(tiers[k + 1] == tier);
        }
    }
}

/// A rank holds one file: that of the unit in one of the namespaces.
pub open spec fn is_namespaced(
    tier: Seq<Seq<char>>,
    unit: Seq<char>,
    namespaces: Seq<Seq<char>>,
) -> bool {
    exists|i: int|
        0 <= i < namespaces.len() && namespace_prefix(#[trigger] namespaces[i]).len() > 0 && tier
            == seq![namespace_prefix(namespaces[i]) + "."@ + unit + ".pas"@]
}

proof fn lemma_namespaces(unit: Seq<char>, namespaces: Seq<Seq<char>>, n: int)
    requires
        0 <= n <= namespaces.len(),
    ensures
        forall|i: int|
            0 <= i < n && namespace_prefix(#[trigger] namespaces[i]).len() > 0 ==> namespace_tiers(
                unit,
                namespaces,
                n,
            ).contains(seq![namespace_prefix(namespaces[i]) + "."@ + unit + ".pas"@]),
        forall|k: int|
            0 <= k < namespace_tiers(unit, namespaces, n).len() ==> is_namespaced(
                #[trigger] namespace_tiers(unit, namespaces, n)[k],
                unit,
                namespaces,
            ),
    decreases n,
{
    if n > 0 {
        lemma_namespaces(unit, namespaces, n - 1);
        let before = namespace_tiers(unit, namespaces, n - 1);
        let after = namespace_tiers(unit, namespaces, n);
        assert forall|i: int|
            0 <= i < n && namespace_prefix(#[trigger] namespaces[i]).len() > 0 implies after.contains(
        seq![namespace_prefix(namespaces[i]) + "."@ + unit + ".pas"@]) by {
            let tier = seq![namespace_prefix(namespaces[i]) + "."@ + unit + ".pas"@];
            if i < n - 1 {
                assert(before.contains(tier));
                let k = choose|k: int| 0 <= k < before.len() && before[k] == tier;
                assert(after[k] == tier);
            } else {
                assert(after[before.len() as int] == tier);
            }
        }
        assert forall|k: int| 0 <= k < after.len() implies is_namespaced(
            #[trigger] after[k],
            unit,
            namespaces,
        ) by {
            if k < before.len() {
                assert(after[k] == before[k]);
            } else {
                assert(namespace_prefix(namespaces[n - 1]).len() > 0);
            }
        }
    }
}

/// A name stands for what the first alias of it says, whatever the case, and for itself where
/// there is none.
pub proof fn law_a_name_stands_for_its_first_alias(
    aliases: Seq<(Seq<char>, Seq<char>)>,
    name: Seq<char>,
    from: int,
    k: int,
)
    requires
        0 <= from <= aliases.len(),
    ensures
        from <= k < aliases.len() && same_ci(aliases[k].0, name) && (forall|j: int|
            from <= j < k ==> !same_ci((#[trigger] aliases[j]).0, name)) ==> aliased_name(
            aliases,
            name,
            from,
        ) == lower(aliases[k].1),
        (forall|j: int| from <= j < aliases.len() ==> !same_ci((#[trigger] aliases[j]).0, name))
            ==> aliased_name(aliases, name, from) == lower(name),
        from <= k < aliases.len() && aliases[k].0 == name && (forall|j: int|
            from <= j < k ==> (#[trigger] aliases[j]).0 != name) ==> alias_target(
            aliases,
            name,
            from,
        ) == aliases[k].1,
        (forall|j: int| from <= j < aliases.len() ==> (#[trigger] aliases[j]).0 != name)
            ==> alias_target(aliases, name, from) == name,
    decreases aliases.len() - from,
{
    if from < aliases.len() {
        law_a_name_stands_for_its_first_alias(aliases, name, from + 1, k);
    }
}

proof fn lemma_dots(s: Seq<char>, n: int)
    requires
        0 <= n <= s.len(),
    ensures
        !between_dots(s, n).1.contains('.'),
        forall|k: int|
            0 <= k < between_dots(s, n).0.len() ==> (#[trigger] between_dots(s, n).0[k]).len() > 0
                && !between_dots(s, n).0[k].contains('.'),
    decreases n,
{
    if n > 0 {
        lemma_dots(s, n - 1);
        let before = between_dots(s, n - 1);
        let after = between_dots(s, n);
        if s[n - 1] != '.' {
            assert(!after.1.contains('.')) by {
                if after.1.contains('.') {
                    let i = choose|i: int| 0 <= i < after.1.len() && after.1[i] == '.';
                    assert(before.1[i] == '.');
                }
            }
        }
        assert forall|k: int| 0 <= k < after.0.len() implies (#[trigger] after.0[k]).len() > 0
            && !after.0[k].contains('.') by {
            if k < before.0.len() {
                assert(after.0[k] == before.0[k]);
            }
        }
    }
}

proof fn lemma_dots_of_prefix(s: Seq<char>, t: Seq<char>, n: int)
    requires
        0 <= n <= s.len(),
    ensures
        between_dots(s + t, n) == between_dots(s, n),
    decreases n,
{
    if n > 0 {
        lemma_dots_of_prefix(s, t, n - 1);
        assert((s + t)[n - 1] == s[n - 1]);
    }
}

proof fn lemma_dots_after(s: Seq<char>, t: Seq<char>, n: int)
    requires
        0 <= n <= t.len(),
        between_dots(s, s.len() as int).1.len() == 0,
    ensures
        between_dots(s + t, s.len() + n).0 == between_dots(s, s.len() as int).0 + between_dots(
            t,
            n,
        ).0,
        between_dots(s + t, s.len() + n).1 == between_dots(t, n).1,
    decreases n,
{
    let whole = s + t;
    if n == 0 {
        lemma_dots_of_prefix(s, t, s.len() as int);
        assert(between_dots(t, 0).0 =~= Seq::empty());
        assert(between_dots(s, s.len() as int).0 + Seq::<Seq<char>>::empty() =~= between_dots(
            s,
            s.len() as int,
        ).0);
        assert(between_dots(s, s.len() as int).1 =~= Seq::empty());
    } else {
        lemma_dots_after(s, t, n - 1);
        assert(whole[s.len() + n - 1] == t[n - 1]);
        let a = between_dots(s, s.len() as int).0;
        let b = between_dots(t, n - 1);
        assert((a + b.0).push(b.1) =~= a + b.0.push(b.1));
    }
}

/// The parts of a name hold no dots, and none is empty. Those of two names with a dot between
/// are those of the first and then those of the second.
pub proof fn law_dots_part_a_name(a: Seq<char>, b: Seq<char>, k: int)
    ensures
        0 <= k < name_parts(a).len() ==> name_parts(a)[k].len() > 0 && !name_parts(a)[k].contains(
            '.',
        ),
        name_parts(a + seq!['.'] + b) == name_parts(a) + name_parts(b),
        a.len() > 0 && !a.contains('.') ==> name_parts(a) == seq![a],
{
    lemma_dots(a, a.len() as int);
    let head = a + seq!['.'];
    let n = a.len() as int;
    lemma_dots_of_prefix(a, seq!['.'], n);
    assert(head[n] == '.');
    assert(head.len() == n + 1);
    let whole = between_dots(head, n + 1);
    let before = between_dots(a, n);
    assert(whole.1.len() == 0);
    assert(whole.0 =~= name_parts(a));
    lemma_dots_after(head, b, b.len() as int);
    assert(head + b =~= a + seq!['.'] + b);
    let all = between_dots(head + b, (head.len() + b.len()) as int);
    let last = between_dots(b, b.len() as int);
    assert(all.0 =~= name_parts(a) + last.0);
    assert((name_parts(a) + last.0).push(last.1) =~= name_parts(a) + last.0.push(last.1));
    if a.len() > 0 && !a.contains('.') {
        lemma_no_dots(a, n);
        assert(a.take(n) =~= a);
        assert(name_parts(a) =~= seq![a]);
    }
}

proof fn lemma_no_dots(a: Seq<char>, n: int)
    requires
        0 <= n <= a.len(),
        !a.contains('.'),
    ensures
        between_dots(a, n).0.len() == 0,
        between_dots(a, n).1 == a.take(n),
    decreases n,
{
    if n > 0 {
        lemma_no_dots(a, n - 1);
        assert(a[n - 1] != '.') by {
            if a[n - 1] == '.' {
                assert(a.contains('.'));
            }
        }
        assert(a.take(n) =~= a.take(n - 1).push(a[n - 1]));
    } else {
        assert(a.take(0) =~= Seq::empty());
    }
}

proof fn lemma_held_more(paths: Seq<Parts>, path: Parts, other: Parts)
    requires
        held_ci(paths, other),
    ensures
        held_ci(with_path_ci(paths, path), other),
{
    let k = choose|k: int| 0 <= k < paths.len() && equal_ci(#[trigger] paths[k], other);
    let after = with_path_ci(paths, path);
    assert(after[k] == paths[k]);
    assert(equal_ci(after[k], other));
}

proof fn lemma_held_new(paths: Seq<Parts>, path: Parts)
    ensures
        held_ci(with_path_ci(paths, path), path),
{
    let after = with_path_ci(paths, path);
    law_case_does_not_tell_paths_apart(path, path, path);
    if !held_ci(paths, path) {
        assert(after[paths.len() as int] == path);
        assert(equal_ci(after[paths.len() as int], path));
    }
}

proof fn lemma_named_entries(
    candidates: Seq<Parts>,
    entries: Seq<Parts>,
    name: Seq<char>,
    n: int,
)
    requires
        0 <= n <= entries.len(),
    ensures
        forall|p: Parts| #[trigger]
            held_ci(candidates, p) ==> held_ci(named_entries(candidates, entries, name, n), p),
        forall|i: int|
            0 <= i < n && goes_by(#[trigger] entries[i], name) ==> held_ci(
                named_entries(candidates, entries, name, n),
                entries[i],
            ),
        forall|k: int|
            0 <= k < named_entries(candidates, entries, name, n).len() ==> {
                let p = #[trigger] named_entries(candidates, entries, name, n)[k];
                candidates.contains(p) || (entries.contains(p) && goes_by(p, name))
            },
    decreases n,
{
    if n > 0 {
        lemma_named_entries(candidates, entries, name, n - 1);
        let before = named_entries(candidates, entries, name, n - 1);
        let after = named_entries(candidates, entries, name, n);
        let last = entries[n - 1];
        assert forall|p: Parts| #[trigger] held_ci(candidates, p) implies held_ci(after, p) by {
            assert(held_ci(before, p));
            lemma_held_more(before, last, p);
        }
        assert forall|i: int| 0 <= i < n && goes_by(#[trigger] entries[i], name) implies held_ci(
            after,
            entries[i],
        ) by {
            if i < n - 1 {
                lemma_held_more(before, last, entries[i]);
            } else {
                lemma_held_new(before, last);
            }
        }
        assert forall|k: int| 0 <= k < after.len() implies {
            let p = #[trigger] after[k];
            candidates.contains(p) || (entries.contains(p) && goes_by(p, name))
        } by {
            if k < before.len() {
                assert(after[k] == before[k]);
            } else {
                assert(after[k] == last);
                assert(entries.contains(last));
            }
        }
    } else {
        assert forall|k: int| 0 <= k < candidates.len() implies candidates.contains(
            #[trigger] candidates[k],
        ) by {}
    }
}

/// The candidates among the entries of a directory are those that go by one of the names,
/// whatever the case, each once.
pub proof fn law_candidates_go_by_a_name(entries: Seq<Parts>, names: Seq<Seq<char>>, n: int)
    requires
        0 <= n <= names.len(),
    ensures
        forall|i: int, k: int|
            #![trigger entries[i], names[k]]
            0 <= i < entries.len() && 0 <= k < n && file_name_of(entries[i]) is Some && same_ci(
                shown(file_name_of(entries[i])->0),
                names[k],
            ) ==> held_ci(candidates_for(entries, names, n), entries[i]),
        forall|k: int|
            0 <= k < candidates_for(entries, names, n).len() ==> entries.contains(
                #[trigger] candidates_for(entries, names, n)[k],
            ) && is_wanted(candidates_for(entries, names, n)[k], names),
    decreases n,
{
    if n > 0 {
        law_candidates_go_by_a_name(entries, names, n - 1);
        let before = candidates_for(entries, names, n - 1);
        let after = candidates_for(entries, names, n);
        lemma_named_entries(before, entries, names[n - 1], entries.len() as int);
        assert forall|i: int, k: int|
            #![trigger entries[i], names[k]]
            0 <= i < entries.len() && 0 <= k < n && file_name_of(entries[i]) is Some && same_ci(
                shown(file_name_of(entries[i])->0),
                names[k],
            ) implies held_ci(after, entries[i]) by {
            if k < n - 1 {
                assert(held_ci(before, entries[i]));
            } else {
                assert(goes_by(entries[i], names[n - 1]));
            }
        }
        assert forall|k: int| 0 <= k < after.len() implies entries.contains(#[trigger] after[k])
            && is_wanted(after[k], names) by {
            if before.contains(after[k]) {
                let j = choose|j: int| 0 <= j < before.len() && before[j] == after[k];
                assert(entries.contains(before[j]));
            } else {
                assert(goes_by(after[k], names[n - 1]));
                assert(same_ci(shown(file_name_of(after[k])->0), names[n - 1]));
            }
        }
    }
}

/// A file has one of the names, whatever its case.
pub open spec fn is_wanted(path: Parts, names: Seq<Seq<char>>) -> bool {
    exists|k: int|
        0 <= k < names.len() && file_name_of(path) is Some && same_ci(
            shown(file_name_of(path)->0),
            #[trigger] names[k],
        )
}

/// The open documents count as files of a place that have a text, that may be read, and that
/// lie in the directory, or anywhere below the root, whatever the case.
pub proof fn law_which_open_documents_lie_in_a_place(
    documents: Map<Seq<char>, DocumentView>,
    supported: Set<Seq<char>>,
    place: Place,
    n: int,
)
    requires
        0 <= n <= in_order(documents.dom()).len(),
    ensures
        open_files(documents, supported, place, n) == picked(
            n,
            |i: int| is_open_at(documents, supported, place, in_order(documents.dom())[i]),
            |i: int| uri_path(in_order(documents.dom())[i])->0,
        ),
    decreases n,
{
    let keep = |i: int| is_open_at(documents, supported, place, in_order(documents.dom())[i]);
    let show = |i: int| uri_path(in_order(documents.dom())[i])->0;
    if n == 0 {
        lemma_none_picked(keep, show);
    } else {
        law_which_open_documents_lie_in_a_place(documents, supported, place, n - 1);
        lemma_picked(n, keep, show);
    }
}

/// A document has a text, may be read, and lies in a place.
pub open spec fn is_open_at(
    documents: Map<Seq<char>, DocumentView>,
    supported: Set<Seq<char>>,
    place: Place,
    uri: Seq<char>,
) -> bool {
    &&& documents[uri].text is Some
    &&& supported.contains(uri)
    &&& uri_path(uri) is Some
    &&& place is In ==> parent_of(uri_path(uri)->0) is Some && equal_ci(
        parent_of(uri_path(uri)->0)->0,
        place->In_0@,
    )
    &&& place is Under ==> starts_with_ci(uri_path(uri)->0, place->Under_0@)
}

/// A file that was missed is recorded as missed, whatever else is known of it; what is known of
/// others stays.
pub proof fn law_a_missed_file_is_recorded(
    records: Map<Seq<char>, RecordView>,
    path: Parts,
    stamp: Option<PathStamp>,
    other: Seq<char>,
)
    ensures
        ({
            let after = with_missing(records, path, stamp);
            let uri = path_uri(path);
            &&& uri is Some ==> after.contains_key(uri->0)
                && after[uri->0].missing_provider_candidate
            &&& uri is Some && records.contains_key(uri->0) ==> after[uri->0] == (RecordView {
                missing_provider_candidate: true,
                ..records[uri->0]
            })
            &&& uri is Some && !records.contains_key(uri->0) ==> after[uri->0].path == Some(path)
                && after[uri->0].path_stamp == stamp && after[uri->0].uri == uri->0
            &&& uri != Some(other) ==> after.contains_key(other) == records.contains_key(other)
                && after[other] == records[other]
        }),
{
}

proof fn lemma_new_names(names: Seq<Seq<char>>, more: Seq<Seq<char>>, n: int)
    requires
        0 <= n <= more.len(),
    ensures
        forall|i: int|
            0 <= i < names.len() ==> #[trigger] with_new_names(names, more, n)[i] == names[i],
        with_new_names(names, more, n).len() >= names.len(),
        forall|i: int|
            0 <= i < n ==> is_among(with_new_names(names, more, n), #[trigger] more[i]),
    decreases n,
{
    if n > 0 {
        lemma_new_names(names, more, n - 1);
        let before = with_new_names(names, more, n - 1);
        let after = with_new_names(names, more, n);
        assert forall|i: int| 0 <= i < names.len() implies #[trigger] after[i] == names[i] by {
            assert(before[i] == names[i]);
        }
        assert forall|i: int| 0 <= i < n implies is_among(after, #[trigger] more[i]) by {
            if i < n - 1 {
                assert(is_among(before, more[i]));
                let k = choose|k: int|
                    0 <= k < before.len() && same_ci(#[trigger] before[k], more[i]);
                assert(after[k] == before[k]);
                assert(same_ci(after[k], more[i]));
            } else if named_ci(before, more[n - 1]) {
                let k = choose|k: int|
                    0 <= k < before.len() && same_ci(#[trigger] before[k], more[n - 1]);
                assert(same_ci(after[k], more[i]));
            } else {
                assert(after[before.len() as int] == more[i]);
                assert(same_ci(after[before.len() as int], more[i]));
            }
        }
    }
}

/// A name is among others, whatever its case.
pub open spec fn is_among(names: Seq<Seq<char>>, name: Seq<char>) -> bool {
    exists|k: int| 0 <= k < names.len() && same_ci(#[trigger] names[k], name)
}

/// A scope in which a unit may turn up is recorded with all of its names, beside those that
/// were recorded with the same file before.
pub proof fn law_a_scope_is_recorded_with_its_names(
    records: Map<Seq<char>, RecordView>,
    scope: ScopeView,
    path: Parts,
    stamp: Option<PathStamp>,
    i: int,
)
    requires
        path_uri(path) is Some,
    ensures
        ({
            let uri = path_uri(path)->0;
            let after = with_scope(records, scope, path, stamp);
            let kept = records[uri].missing_provider_scope;
            &&& after.contains_key(uri) && after[uri].missing_provider_scope is Some
            &&& 0 <= i < scope.names.len() ==> is_among(
                after[uri].missing_provider_scope->0.names,
                scope.names[i],
            )
            &&& records.contains_key(uri) && kept is Some && 0 <= i < kept->0.names.len()
                ==> after[uri].missing_provider_scope->0.names[i] == kept->0.names[i]
                && after[uri].missing_provider_scope->0.root == kept->0.root
            &&& !records.contains_key(uri) || kept is None ==> after[uri].missing_provider_scope
                == Some(scope)
        }),
{
    let uri = path_uri(path)->0;
    if records.contains_key(uri) && records[uri].missing_provider_scope is Some {
        lemma_new_names(
            records[uri].missing_provider_scope->0.names,
            scope.names,
            scope.names.len() as int,
        );
        let names = with_new_names(
            records[uri].missing_provider_scope->0.names,
            scope.names,
            scope.names.len() as int,
        );
        if 0 <= i < scope.names.len() {
            assert(is_among(names, scope.names[i]));
        }
        if 0 <= i < records[uri].missing_provider_scope->0.names.len() {
            assert(names[i] == records[uri].missing_provider_scope->0.names[i]);
        }
    } else if 0 <= i < scope.names.len() {
        assert(same_ci(scope.names[i], scope.names[i]));
    }
}

} // verus!
