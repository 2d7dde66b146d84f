//! What is forgotten of the sources, and what is kept.

use vstd::prelude::*;

use crate::contexts::StoreView;
use crate::documents::DocumentView;
use crate::limits::ResourceLimits;
use crate::paths::{equal_ci, Parts};
use crate::project::KeyView;
use crate::sorting::{law_sorting_orders_and_keeps, sorted_list, Ordered};
use crate::sources::{
    candidates_of, concerned_roots, concerns, eviction_list, has_space, invalidated, open_among,
    open_dependents, readers, rediagnosed, texts_among, total_size, victims_needed, watching,
    with_space, without_contexts, without_dependents, without_sources, Candidate, CandidateView,
    SourcesView,
};
use crate::strings::{lemma_str_lt_order, str_lt};
use crate::strmap::{in_order, lemma_finite_set_has_order};

verus! {

/// A source is among the first `n` of a list.
pub open spec fn is_listed(list: Seq<Seq<char>>, uri: Seq<char>, n: int) -> bool {
    exists|i: int| 0 <= i < n && #[trigger] list[i] == uri
}

/// Those that are listed are forgotten, and no others.
proof fn lemma_without(v: SourcesView, list: Seq<Seq<char>>, n: int)
    requires
        0 <= n <= list.len(),
    ensures
        forall|uri: Seq<char>| #[trigger]
            without_sources(v, list, n).sizes.contains_key(uri) <==> v.sizes.contains_key(uri)
                && !is_listed(list, uri, n),
        forall|uri: Seq<char>|
            without_sources(v, list, n).sizes.contains_key(uri) ==> #[trigger] without_sources(
                v,
                list,
                n,
            ).sizes[uri] == v.sizes[uri],
        forall|uri: Seq<char>| #[trigger]
            without_sources(v, list, n).expansions.contains_key(uri) <==> v.expansions.contains_key(
                uri,
            ) && !is_listed(list, uri, n),
        forall|uri: Seq<char>| #[trigger]
            without_sources(v, list, n).store.document_contexts.contains_key(uri)
                <==> v.store.document_contexts.contains_key(uri) && !is_listed(list, uri, n),
        without_sources(v, list, n).store.owners == v.store.owners,
        without_sources(v, list, n).store.contexts == v.store.contexts,
        without_sources(v, list, n).store.open_document_contexts == v.store.open_document_contexts,
        without_sources(v, list, n).clock == v.clock,
    decreases n,
{
    if n > 0 {
        lemma_without(v, list, n - 1);
        assert forall|uri: Seq<char>| #[trigger] is_listed(list, uri, n) <==> is_listed(
            list,
            uri,
            n - 1,
        ) || uri == list[n - 1] by {
            if is_listed(list, uri, n) {
                let i = choose|i: int| 0 <= i < n && #[trigger] list[i] == uri;
                if i < n - 1 {
                    assert(list[i] == uri);
                }
            }
            if is_listed(list, uri, n - 1) {
                let i = choose|i: int| 0 <= i < n - 1 && #[trigger] list[i] == uri;
                assert(list[i] == uri);
            }
            if uri == list[n - 1] {
                assert(is_listed(list, uri, n));
            }
        }
        assert forall|uri: Seq<char>| #[trigger]
            without_sources(v, list, n).sizes.contains_key(uri) <==> v.sizes.contains_key(uri)
                && !is_listed(list, uri, n) by {
            assert(is_listed(list, uri, n) <==> is_listed(list, uri, n - 1) || uri == list[n - 1]);
        }
        assert forall|uri: Seq<char>| #[trigger]
            without_sources(v, list, n).expansions.contains_key(uri) <==> v.expansions.contains_key(
                uri,
            ) && !is_listed(list, uri, n) by {
            assert(is_listed(list, uri, n) <==> is_listed(list, uri, n - 1) || uri == list[n - 1]);
        }
        assert forall|uri: Seq<char>| #[trigger]
            without_sources(v, list, n).store.document_contexts.contains_key(uri)
                <==> v.store.document_contexts.contains_key(uri) && !is_listed(list, uri, n) by {
            assert(is_listed(list, uri, n) <==> is_listed(list, uri, n - 1) || uri == list[n - 1]);
        }
    }
}

proof fn lemma_open_among(list: Seq<Seq<char>>, open: Map<Seq<char>, DocumentView>, n: int)
    requires
        0 <= n <= list.len(),
    ensures
        forall|uri: Seq<char>| #[trigger]
            open_among(list, open, n).contains(uri) <==> is_listed(list, uri, n)
                && open.contains_key(uri),
        forall|uri: Seq<char>| #[trigger]
            texts_among(list, open, n).contains(uri) <==> is_listed(list, uri, n)
                && open.contains_key(uri) && open[uri].text is Some,
    decreases n,
{
    if n > 0 {
        lemma_open_among(list, open, n - 1);
        let some = open_among(list, open, n - 1);
        let more = open_among(list, open, n);
        let few = texts_among(list, open, n - 1);
        let rest = texts_among(list, open, n);
        assert forall|uri: Seq<char>| #[trigger] is_listed(list, uri, n) <==> is_listed(
            list,
            uri,
            n - 1,
        ) || uri == list[n - 1] by {
            if is_listed(list, uri, n - 1) {
                let i = choose|i: int| 0 <= i < n - 1 && #[trigger] list[i] == uri;
                assert(list[i] == uri);
            }
            if uri == list[n - 1] {
                assert(is_listed(list, uri, n));
            }
            if is_listed(list, uri, n) && uri != list[n - 1] {
                let i = choose|i: int| 0 <= i < n && #[trigger] list[i] == uri;
                assert(list[i] == uri && i < n - 1);
            }
        }
        assert forall|uri: Seq<char>| #[trigger] more.contains(uri) <==> is_listed(list, uri, n)
            && open.contains_key(uri) by {
            assert(is_listed(list, uri, n) <==> is_listed(list, uri, n - 1) || uri == list[n - 1]);
            lemma_pushed(some, list[n - 1], uri);
            assert(some.contains(uri) <==> is_listed(list, uri, n - 1) && open.contains_key(uri));
        }
        assert forall|uri: Seq<char>| #[trigger] rest.contains(uri) <==> is_listed(list, uri, n)
            && open.contains_key(uri) && open[uri].text is Some by {
            assert(is_listed(list, uri, n) <==> is_listed(list, uri, n - 1) || uri == list[n - 1]);
            lemma_pushed(few, list[n - 1], uri);
            assert(few.contains(uri) <==> is_listed(list, uri, n - 1) && open.contains_key(uri)
                && open[uri].text is Some);
        }
    }
}

proof fn lemma_pushed<A>(list: Seq<A>, last: A, item: A)
    ensures
        list.push(last).contains(item) <==> list.contains(item) || item == last,
{
    let more = list.push(last);
    if list.contains(item) {
        let i = choose|i: int| 0 <= i < list.len() && list[i] == item;
        assert(more[i] == item);
    }
    if item == last {
        assert(more[list.len() as int] == item);
    }
    if more.contains(item) && item != last {
        let i = choose|i: int| 0 <= i < more.len() && more[i] == item;
        assert(list[i] == item);
    }
}

proof fn lemma_listed(keys: Set<Seq<char>>, uri: Seq<char>)
    requires
        keys.finite(),
    ensures
        is_listed(in_order(keys), uri, in_order(keys).len() as int) <==> keys.contains(uri),
{
    let list = in_order(keys);
    lemma_finite_set_has_order(keys);
    assert(list.to_set().contains(uri) <==> keys.contains(uri));
    if list.contains(uri) {
        let i = choose|i: int| 0 <= i < list.len() && list[i] == uri;
        assert(list[i] == uri);
    }
    if is_listed(list, uri, list.len() as int) {
        let i = choose|i: int| 0 <= i < list.len() && #[trigger] list[i] == uri;
        assert(list.contains(uri));
    }
}

/// Once a file changed, exactly the expanded sources are forgotten that take it in, themselves
/// or over others, and of these the open documents are those to diagnose again.
pub proof fn law_what_takes_a_changed_file_in_is_forgotten(
    v: SourcesView,
    uri: Seq<char>,
    open: Map<Seq<char>, DocumentView>,
    root: Seq<char>,
)
    requires
        v.expansions.dom().finite(),
    ensures
        without_dependents(v, uri).expansions.contains_key(root) <==> v.expansions.contains_key(
            root,
        ) && !concerns(v, uri, root),
        without_dependents(v, uri).sizes.contains_key(root) <==> v.sizes.contains_key(root) && !(
        v.expansions.contains_key(root) && concerns(v, uri, root)),
        without_dependents(v, uri).sizes.contains_key(root) ==> without_dependents(
            v,
            uri,
        ).sizes[root] == v.sizes[root],
        open_dependents(v, uri, open).contains(root) <==> v.expansions.contains_key(root)
            && concerns(v, uri, root) && open.contains_key(root),
{
    let keys = concerned_roots(v, uri);
    let list = in_order(keys);
    assert(keys.subset_of(v.expansions.dom()));
    vstd::set_lib::lemma_set_subset_finite(v.expansions.dom(), keys);
    lemma_listed(keys, root);
    lemma_without(v, list, list.len() as int);
    lemma_open_among(list, open, list.len() as int);
    let gone = without_sources(v, list, list.len() as int);
    assert(gone.sizes.contains_key(root) <==> v.sizes.contains_key(root) && !is_listed(
        list,
        root,
        list.len() as int,
    ));
    assert(gone.expansions.contains_key(root) <==> v.expansions.contains_key(root) && !is_listed(
        list,
        root,
        list.len() as int,
    ));
    assert(gone.sizes.contains_key(root) ==> gone.sizes[root] == v.sizes[root]);
    assert(open_among(list, open, list.len() as int).contains(root) <==> is_listed(
        list,
        root,
        list.len() as int,
    ) && open.contains_key(root));
}

/// A source hangs on contexts: it is read in one of them and indexed or open, or open in one of
/// them, with a text.
pub open spec fn hangs_on(
    v: SourcesView,
    keys: Set<KeyView>,
    open: Map<Seq<char>, DocumentView>,
    uri: Seq<char>,
) -> bool {
    let edited = open.contains_key(uri) && open[uri].text is Some;
    ||| v.store.document_contexts.contains_key(uri) && keys.contains(
        v.store.document_contexts[uri],
    ) && (v.sizes.contains_key(uri) || edited)
    ||| v.store.open_document_contexts.contains_key(uri) && keys.contains(
        v.store.open_document_contexts[uri],
    ) && edited
}

/// Once contexts do not hold any more, exactly the sources are forgotten that hang on one of
/// them, and of these the open ones with a text are those to diagnose again. The contexts
/// themselves are gone, and their owners, and only theirs, have to be looked at again.
pub proof fn law_contexts_go_with_what_hangs_on_them(
    v: SourcesView,
    keys: Set<KeyView>,
    open: Map<Seq<char>, DocumentView>,
    uri: Seq<char>,
    key: KeyView,
)
    requires
        v.store.document_contexts.dom().finite(),
        v.store.open_document_contexts.dom().finite(),
    ensures
        invalidated(v, keys, open).sizes.contains_key(uri) <==> v.sizes.contains_key(uri)
            && !hangs_on(v, keys, open, uri),
        rediagnosed(v, keys, open).contains(uri) <==> hangs_on(v, keys, open, uri)
            && open.contains_key(uri) && open[uri].text is Some,
        keys.contains(key) ==> !invalidated(v, keys, open).store.contexts.contains_key(key),
        invalidated(v, keys, open).store.owners.contains_key(uri) <==> v.store.owners.contains_key(
            uri,
        ),
        v.store.owners.contains_key(uri) ==> {
            let owner = v.store.owners[uri];
            let after = invalidated(v, keys, open).store.owners[uri];
            &&& keys.contains(owner.key) ==> after.needs_revalidation && after.legacy_route is None
            &&& !keys.contains(owner.key) ==> after == owner
            &&& after.key == owner.key && after.origin == owner.origin
        },
{
    let all = v.store.document_contexts.dom().union(v.store.open_document_contexts.dom());
    let reading = readers(v, keys, open);
    let list = in_order(reading);
    assert(reading.subset_of(all));
    vstd::set_lib::lemma_set_subset_finite(all, reading);
    lemma_listed(reading, uri);
    let rest = without_contexts(v, keys);
    lemma_without(rest, list, list.len() as int);
    lemma_open_among(list, open, list.len() as int);
    let gone = without_sources(rest, list, list.len() as int);
    assert(gone.sizes.contains_key(uri) <==> rest.sizes.contains_key(uri) && !is_listed(
        list,
        uri,
        list.len() as int,
    ));
    assert(texts_among(list, open, list.len() as int).contains(uri) <==> is_listed(
        list,
        uri,
        list.len() as int,
    ) && open.contains_key(uri) && open[uri].text is Some);
    if keys =~= Set::empty() {
        assert(!hangs_on(v, keys, open, uri));
    } else {
        assert(reading.contains(uri) <==> hangs_on(v, keys, open, uri));
    }
}

/// A file is watched by exactly the contexts that name it among what they watch, whatever its
/// case.
pub proof fn law_a_file_is_watched_whatever_its_case(store: StoreView, path: Parts, key: KeyView)
    ensures
        watching(store, path).contains(key) <==> store.contexts.contains_key(key) && exists|i: int|
            0 <= i < store.contexts[key].watched_paths.keys().len() && equal_ci(
                #[trigger] store.contexts[key].watched_paths.keys()[i],
                path,
            ),
{
}

/// When a source was last used, the earliest time where it never was.
pub open spec fn time_of_use(v: SourcesView, uri: Seq<char>) -> int {
    if v.last_used.contains_key(uri) {
        v.last_used[uri] as int
    } else {
        0
    }
}

/// A source has to stay: it is the one that room is made for, one that is held, or open.
pub open spec fn has_to_stay(
    uri: Seq<char>,
    requested: Seq<char>,
    pinned: Set<Seq<char>>,
    open: Map<Seq<char>, DocumentView>,
) -> bool {
    uri == requested || pinned.contains(uri) || open.contains_key(uri)
}

proof fn lemma_candidates_are_those_that_may_go(
    v: SourcesView,
    requested: Seq<char>,
    pinned: Set<Seq<char>>,
    open: Map<Seq<char>, DocumentView>,
    keys: Seq<Seq<char>>,
    n: int,
)
    requires
        0 <= n <= keys.len(),
    ensures
        forall|c: CandidateView| #[trigger]
            candidates_of(v, requested, pinned, open, keys, n).contains(c) <==> is_listed(
                keys,
                c.uri,
                n,
            ) && !has_to_stay(c.uri, requested, pinned, open) && c.used == time_of_use(v, c.uri),
    decreases n,
{
    let list = candidates_of(v, requested, pinned, open, keys, n);
    if n > 0 {
        lemma_candidates_are_those_that_may_go(v, requested, pinned, open, keys, n - 1);
        let before = candidates_of(v, requested, pinned, open, keys, n - 1);
        assert forall|c: CandidateView| #[trigger] list.contains(c) <==> is_listed(keys, c.uri, n)
            && !has_to_stay(c.uri, requested, pinned, open) && c.used == time_of_use(v, c.uri) by {
            let last = CandidateView {
                used: time_of_use(v, keys[n - 1]) as u64,
                uri: keys[n - 1],
            };
            lemma_pushed(before, last, c);
            lemma_one_more_listed(keys, c.uri, n);
            assert(before.contains(c) <==> is_listed(keys, c.uri, n - 1) && !has_to_stay(
                c.uri,
                requested,
                pinned,
                open,
            ) && c.used == time_of_use(v, c.uri));
        }
    } else {
        assert forall|c: CandidateView| #[trigger] list.contains(c) <==> is_listed(keys, c.uri, n)
            && !has_to_stay(c.uri, requested, pinned, open) && c.used == time_of_use(v, c.uri) by {}
    }
}

proof fn lemma_one_more_listed(list: Seq<Seq<char>>, uri: Seq<char>, n: int)
    requires
        0 < n <= list.len(),
    ensures
        is_listed(list, uri, n) <==> is_listed(list, uri, n - 1) || uri == list[n - 1],
{
    if is_listed(list, uri, n - 1) {
        let i = choose|i: int| 0 <= i < n - 1 && #[trigger] list[i] == uri;
        assert(list[i] == uri);
    }
    if is_listed(list, uri, n) && uri != list[n - 1] {
        let i = choose|i: int| 0 <= i < n && #[trigger] list[i] == uri;
        assert(list[i] == uri && i < n - 1);
    }
}

proof fn lemma_no_more_go_than_have_to(
    v: SourcesView,
    list: Seq<Seq<char>>,
    uri: Seq<char>,
    size: usize,
    additional: usize,
    limits: ResourceLimits,
    k: int,
)
    requires
        0 <= k <= list.len(),
    ensures
        k <= victims_needed(v, list, uri, size, additional, limits, k) <= list.len(),
        forall|j: int|
            k <= j < victims_needed(v, list, uri, size, additional, limits, k) ==> !has_space(
                #[trigger] without_sources(v, list, j),
                uri,
                size,
                additional,
                limits,
            ),
        victims_needed(v, list, uri, size, additional, limits, k) < list.len() ==> has_space(
            without_sources(v, list, victims_needed(v, list, uri, size, additional, limits, k)),
            uri,
            size,
            additional,
            limits,
        ),
    decreases list.len() - k,
{
    if k < list.len() && !has_space(
        without_sources(v, list, k),
        uri,
        size,
        additional,
        limits,
    ) {
        lemma_no_more_go_than_have_to(v, list, uri, size, additional, limits, k + 1);
    }
}

/// There is room for a source where the files with it are no more than may be kept and the
/// bytes with its own and those beside are not either.
pub proof fn law_there_is_room_within_the_limits(
    v: SourcesView,
    uri: Seq<char>,
    size: usize,
    additional: usize,
    limits: ResourceLimits,
)
    requires
        v.sizes.dom().finite(),
        limits.max_total_bytes < usize::MAX,
        v.sizes.contains_key(uri) ==> v.sizes[uri] <= total_size(v.sizes),
    ensures
        has_space(v, uri, size, additional, limits) <==> v.sizes.dom().insert(uri).len()
            <= limits.max_files && total_size(v.sizes) - (if v.sizes.contains_key(uri) {
            v.sizes[uri] as int
        } else {
            0
        }) + size + additional <= limits.max_total_bytes,
{
    if v.sizes.contains_key(uri) {
        assert(v.sizes.dom().insert(uri) =~= v.sizes.dom());
    }
}

/// Room is made by letting sources go that do not have to stay, those first that were used
/// longest ago. Nothing goes where there is room, and where there is none in the end, nothing is
/// left that may go. What stays keeps its size.
pub proof fn law_room_is_made_of_what_was_used_longest_ago(
    v: SourcesView,
    pinned: Set<Seq<char>>,
    open: Map<Seq<char>, DocumentView>,
    uri: Seq<char>,
    size: usize,
    additional: usize,
    limits: ResourceLimits,
    gone: Seq<char>,
    kept: Seq<char>,
)
    requires
        v.sizes.dom().finite(),
        v.sizes.contains_key(gone),
        v.sizes.contains_key(kept),
        !with_space(v, pinned, open, uri, size, additional, limits).sizes.contains_key(gone),
        with_space(v, pinned, open, uri, size, additional, limits).sizes.contains_key(kept),
    ensures
        !has_to_stay(gone, uri, pinned, open),
        !has_space(v, uri, size, additional, limits),
        !has_to_stay(kept, uri, pinned, open) ==> time_of_use(v, gone) < time_of_use(v, kept) || (
        time_of_use(v, gone) == time_of_use(v, kept) && str_lt(gone, kept)),
        !has_to_stay(kept, uri, pinned, open) ==> has_space(
            with_space(v, pinned, open, uri, size, additional, limits),
            uri,
            size,
            additional,
            limits,
        ),
        with_space(v, pinned, open, uri, size, additional, limits).sizes[kept] == v.sizes[kept],
{
    let keys = in_order(v.sizes.dom());
    let all = candidates_of(v, uri, pinned, open, keys, keys.len() as int);
    let sorted = sorted_list::<Candidate>(all);
    let list = eviction_list(v, uri, pinned, open);
    let n = victims_needed(v, list, uri, size, additional, limits, 0);
    let after = without_sources(v, list, n);
    lemma_no_more_go_than_have_to(v, list, uri, size, additional, limits, 0);
    lemma_without(v, list, n);
    lemma_candidates_are_those_that_may_go(v, uri, pinned, open, keys, keys.len() as int);
    law_sorting_orders_and_keeps::<Candidate>(all);
    lemma_listed(v.sizes.dom(), gone);
    lemma_listed(v.sizes.dom(), kept);
    assert(after.sizes.contains_key(gone) <==> !is_listed(list, gone, n));
    assert(after.sizes.contains_key(kept) <==> !is_listed(list, kept, n));
    let i = choose|i: int| 0 <= i < n && #[trigger] list[i] == gone;
    assert(0 <= i < n && list[i] == gone);
    assert(list[i] == sorted[i].uri);
    assert(sorted.contains(sorted[i]));
    assert(all.contains(sorted[i]));
    assert(!has_space(without_sources(v, list, 0), uri, size, additional, limits));
    if !has_to_stay(kept, uri, pinned, open) {
        let c = CandidateView { used: time_of_use(v, kept) as u64, uri: kept };
        assert(all.contains(c));
        assert(sorted.contains(c));
        let j = choose|j: int| 0 <= j < sorted.len() && sorted[j] == c;
        assert(list[j] == kept);
        assert(j >= n);
        assert(!Candidate::precedes(sorted[j], sorted[i]));
        lemma_str_lt_order(gone, kept, gone);
    }
}

/// Where there is no room even then, everything that may go is gone.
pub proof fn law_without_room_nothing_is_left_that_may_go(
    v: SourcesView,
    pinned: Set<Seq<char>>,
    open: Map<Seq<char>, DocumentView>,
    uri: Seq<char>,
    size: usize,
    additional: usize,
    limits: ResourceLimits,
    kept: Seq<char>,
)
    requires
        v.sizes.dom().finite(),
        with_space(v, pinned, open, uri, size, additional, limits).sizes.contains_key(kept),
        !has_space(
            with_space(v, pinned, open, uri, size, additional, limits),
            uri,
            size,
            additional,
            limits,
        ),
    ensures
        v.sizes.contains_key(kept),
        has_to_stay(kept, uri, pinned, open),
{
    let keys = in_order(v.sizes.dom());
    let all = candidates_of(v, uri, pinned, open, keys, keys.len() as int);
    let sorted = sorted_list::<Candidate>(all);
    let list = eviction_list(v, uri, pinned, open);
    let n = victims_needed(v, list, uri, size, additional, limits, 0);
    let after = without_sources(v, list, n);
    lemma_no_more_go_than_have_to(v, list, uri, size, additional, limits, 0);
    lemma_without(v, list, n);
    lemma_candidates_are_those_that_may_go(v, uri, pinned, open, keys, keys.len() as int);
    law_sorting_orders_and_keeps::<Candidate>(all);
    lemma_listed(v.sizes.dom(), kept);
    assert(after.sizes.contains_key(kept) <==> v.sizes.contains_key(kept) && !is_listed(
        list,
        kept,
        n,
    ));
    assert(n == list.len());
    if !has_to_stay(kept, uri, pinned, open) {
        let c = CandidateView { used: time_of_use(v, kept) as u64, uri: kept };
        assert(all.contains(c));
        assert(sorted.contains(c));
        let j = choose|j: int| 0 <= j < sorted.len() && sorted[j] == c;
        assert(list[j] == kept);
    }
}

} // verus!
