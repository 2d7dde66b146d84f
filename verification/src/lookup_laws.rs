//! Where a place is looked up, and what comes of the locations that are found.

use vstd::prelude::*;

use crate::navigation::{
    expanded_places, lookup_places, mapped_somewhere, place_before, places_in, tidy, Location,
    LocationView, QueryPosition, QueryView, RootPlaces,
};
use crate::sorting::{
    is_sorted, law_leaving_out_repeats_keeps_every_item, law_sorting_orders_and_keeps, sorted_list,
    without_repeats, Ordered,
};
use crate::strings::lemma_str_lt_order;
use crate::text::Position;

verus! {

/// A place of a source that was expanded to its end, one of those at which the place that was
/// asked for shows up in it.
pub open spec fn shows_up_at(roots: Seq<RootPlaces>, place: QueryView) -> bool {
    exists|i: int, k: int|
        0 <= i < roots.len() && (#[trigger] roots[i]).complete && 0 <= k
            < roots[i].positions@.len() && place.uri == roots[i].uri@ && place.position
            == #[trigger] roots[i].positions@[k]
}

proof fn lemma_places_in(uri: Seq<char>, positions: Seq<Position>, n: int)
    requires
        0 <= n <= positions.len(),
    ensures
        places_in(uri, positions, n).len() == n,
        forall|k: int|
            0 <= k < n ==> #[trigger] places_in(uri, positions, n)[k] == (QueryView {
                uri,
                position: positions[k],
            }),
    decreases n,
{
    if n > 0 {
        lemma_places_in(uri, positions, n - 1);
    }
}

proof fn lemma_expanded_places(roots: Seq<RootPlaces>, n: int)
    requires
        0 <= n <= roots.len(),
    ensures
        forall|place: QueryView| #[trigger]
            expanded_places(roots, n).contains(place) <==> shows_up_at(roots.take(n), place),
    decreases n,
{
    let found = expanded_places(roots, n);
    if n > 0 {
        lemma_expanded_places(roots, n - 1);
        let before = expanded_places(roots, n - 1);
        let root = roots[n - 1];
        let fore = roots.take(n - 1);
        let here = roots.take(n);
        let own = places_in(root.uri@, root.positions@, root.positions@.len() as int);
        lemma_places_in(root.uri@, root.positions@, root.positions@.len() as int);
        assert forall|place: QueryView| #[trigger] found.contains(place) <==> shows_up_at(
            here,
            place,
        ) by {
            if found.contains(place) {
                let j = choose|j: int| 0 <= j < found.len() && found[j] == place;
                if j < before.len() {
                    assert(before[j] == place);
                    assert(before.contains(place));
                    let (i, k) = choose|i: int, k: int|
                        0 <= i < fore.len() && (#[trigger] fore[i]).complete && 0 <= k < fore[i].positions@.len()
                            && place.uri == fore[i].uri@ && place.position
                            == #[trigger] fore[i].positions@[k];
                    assert(here[i] == fore[i]);
                    assert(here[i].positions@[k] == place.position);
                } else {
                    let k = j - before.len();
                    assert(own[k] == place);
                    assert(here[n - 1] == root);
                    assert(here[n - 1].positions@[k] == place.position);
                }
            }
            if shows_up_at(here, place) {
                let (i, k) = choose|i: int, k: int|
                    0 <= i < here.len() && (#[trigger] here[i]).complete && 0
                        <= k < here[i].positions@.len() && place.uri == here[i].uri@ && place.position == #[trigger] here[i].positions@[k];
                if i < n - 1 {
                    assert(fore[i] == here[i]);
                    assert(fore[i].positions@[k] == place.position);
                    assert(shows_up_at(fore, place));
                    assert(before.contains(place));
                    let j = choose|j: int| 0 <= j < before.len() && before[j] == place;
                    assert(found[j] == place);
                } else {
                    assert(own[k] == place);
                    assert(found[before.len() + k] == place);
                }
            }
        }
    } else {
        assert forall|place: QueryView| #[trigger] found.contains(place) <==> shows_up_at(
            roots.take(n),
            place,
        ) by {}
    }
}

/// A place is looked up at every position at which it shows up in a source that was expanded
/// to its end, and nowhere else, but for one case: where it shows up in no such source, lies in
/// no expanded text and its own source is indexed, it is looked up where it was asked for.
/// Where it lies in the text of a source that was not expanded to its end alone, or its source
/// is not indexed, it is not looked up.
pub proof fn law_a_place_is_looked_up_where_it_shows_up(
    uri: Seq<char>,
    position: Position,
    roots: Seq<RootPlaces>,
    indexed: bool,
)
    ensures
        ({
            let r = lookup_places(uri, position, roots, indexed);
            let asked = QueryView { uri, position };
            let nowhere = forall|i: int|
                0 <= i < roots.len() && (#[trigger] roots[i]).complete ==> roots[i].positions@.len()
                    == 0;
            let unmapped = forall|i: int| 0 <= i < roots.len() ==> !(#[trigger] roots[i]).mapped;
            &&& forall|i: int, k: int|
                0 <= i < roots.len() && (#[trigger] roots[i]).complete && 0 <= k
                    < roots[i].positions@.len() ==> r.contains(
                    QueryView { uri: roots[i].uri@, position: #[trigger] roots[i].positions@[k] },
                )
            &&& forall|place: QueryView| #[trigger]
                r.contains(place) ==> (exists|i: int, k: int|
                    0 <= i < roots.len() && (#[trigger] roots[i]).complete && 0 <= k
                        < roots[i].positions@.len() && place.uri == roots[i].uri@ && place.position
                        == #[trigger] roots[i].positions@[k]) || (place == asked && nowhere
                    && unmapped && indexed)
            &&& nowhere && unmapped && indexed ==> r == seq![asked]
            &&& nowhere && !(unmapped && indexed) ==> r.len() == 0
        }),
{
    let r = lookup_places(uri, position, roots, indexed);
    let asked = QueryView { uri, position };
    let found = expanded_places(roots, roots.len() as int);
    let nowhere = forall|i: int|
        0 <= i < roots.len() && (#[trigger] roots[i]).complete ==> roots[i].positions@.len() == 0;
    lemma_expanded_places(roots, roots.len() as int);
    assert(roots.take(roots.len() as int) =~= roots);
    assert(nowhere == (found.len() == 0)) by {
        if found.len() > 0 {
            assert(found.contains(found[0]));
            assert(shows_up_at(roots, found[0]));
        } else if !nowhere {
            let i = choose|i: int|
                0 <= i < roots.len() && (#[trigger] roots[i]).complete && roots[i].positions@.len()
                    != 0;
            let place = QueryView { uri: roots[i].uri@, position: roots[i].positions@[0] };
            assert(roots[i].positions@[0] == place.position);
            assert(shows_up_at(roots, place));
            assert(found.contains(place));
        }
    }
    let all = if found.len() == 0 && !mapped_somewhere(roots) && indexed {
        seq![asked]
    } else {
        found
    };
    let sorted = sorted_list::<QueryPosition>(all);
    law_sorting_orders_and_keeps::<QueryPosition>(all);
    law_leaving_out_repeats_keeps_every_item(sorted, sorted.len() as int);
    assert(sorted.take(sorted.len() as int) =~= sorted);
    assert(forall|place: QueryView| #[trigger] r.contains(place) <==> all.contains(place)) by {
        assert forall|place: QueryView| #[trigger] r.contains(place) <==> all.contains(place) by {
            assert(sorted.contains(place) <==> all.contains(place));
        }
    }
    assert forall|i: int, k: int|
        0 <= i < roots.len() && (#[trigger] roots[i]).complete && 0 <= k
            < roots[i].positions@.len() implies r.contains(
        QueryView { uri: roots[i].uri@, position: #[trigger] roots[i].positions@[k] },
    ) by {
        let place = QueryView { uri: roots[i].uri@, position: roots[i].positions@[k] };
        assert(shows_up_at(roots, place));
        assert(found.contains(place));
    }
    assert forall|place: QueryView| #[trigger] r.contains(place) implies shows_up_at(roots, place)
        || (place == asked && found.len() == 0 && !mapped_somewhere(roots) && indexed) by {
        assert(all.contains(place));
    }
    if found.len() == 0 && !mapped_somewhere(roots) && indexed {
        assert(sorted.len() == 1);
        assert(sorted.contains(sorted[0]));
        assert(sorted =~= seq![asked]);
        assert(r.len() == 1 && r.last() == asked);
        assert(r =~= seq![asked]);
    }
}

/// The order of `a` and `b` in a list that is in order and has no repeats next to each other.
proof fn lemma_ascends<T: Ordered>(list: Seq<T::V>, i: int, j: int)
    requires
        is_sorted::<T>(list),
        0 <= i < j < list.len(),
        forall|k: int| 0 <= k < list.len() - 1 ==> #[trigger] list[k] != list[k + 1],
        forall|x: T::V, y: T::V| !T::precedes(x, y) && !T::precedes(y, x) ==> x == y,
    ensures
        T::precedes(list[i], list[j]),
    decreases j - i,
{
    assert(!T::precedes(list[i + 1], list[i]));
    assert(list[i] != list[i + 1]);
    assert(T::precedes(list[i], list[i + 1]));
    if i + 1 < j {
        lemma_ascends::<T>(list, i + 1, j);
        T::lemma_order(list[i], list[i + 1], list[j]);
    }
}

proof fn lemma_repeats_keep_order<T: Ordered>(list: Seq<T::V>, n: int)
    requires
        is_sorted::<T>(list),
        0 <= n <= list.len(),
    ensures
        is_sorted::<T>(without_repeats(list, n)),
    decreases n,
{
    if n > 0 {
        lemma_repeats_keep_order::<T>(list, n - 1);
        law_leaving_out_repeats_keeps_every_item(list, n - 1);
        let before = without_repeats(list, n - 1);
        let r = without_repeats(list, n);
        assert forall|i: int, j: int| 0 <= i < j < r.len() implies !T::precedes(
            #[trigger] r[j],
            #[trigger] r[i],
        ) by {
            if j < before.len() {
                assert(r[i] == before[i] && r[j] == before[j]);
            } else {
                assert(r[j] == list[n - 1]);
                assert(r[i] == before[i]);
                assert(before.contains(before[i]));
                let fore = list.take(n - 1);
                let k = choose|k: int| 0 <= k < fore.len() && fore[k] == before[i];
                assert(list[k] == before[i]);
                assert(!T::precedes(list[n - 1], list[k]));
            }
        }
    }
}

/// The places at which a place is looked up ascend, by their source and then by their
/// position, so that none is looked up twice.
pub proof fn law_lookups_ascend(
    uri: Seq<char>,
    position: Position,
    roots: Seq<RootPlaces>,
    indexed: bool,
    i: int,
    j: int,
)
    requires
        0 <= i < j < lookup_places(uri, position, roots, indexed).len(),
    ensures
        ({
            let r = lookup_places(uri, position, roots, indexed);
            place_before(r[i].uri, r[i].position, r[j].uri, r[j].position)
        }),
{
    let found = expanded_places(roots, roots.len() as int);
    let all = if found.len() == 0 && !mapped_somewhere(roots) && indexed {
        seq![QueryView { uri, position }]
    } else {
        found
    };
    let sorted = sorted_list::<QueryPosition>(all);
    law_sorting_orders_and_keeps::<QueryPosition>(all);
    law_leaving_out_repeats_keeps_every_item(sorted, sorted.len() as int);
    lemma_repeats_keep_order::<QueryPosition>(sorted, sorted.len() as int);
    assert forall|x: QueryView, y: QueryView|
        !QueryPosition::precedes(x, y) && !QueryPosition::precedes(y, x) implies x == y by {
        lemma_str_lt_order(x.uri, y.uri, x.uri);
    }
    lemma_ascends::<QueryPosition>(lookup_places(uri, position, roots, indexed), i, j);
}

/// Putting locations in order keeps every one of them and adds none. They come by their source,
/// and in one source by where they begin.
pub proof fn law_locations_are_kept_in_order(locations: Seq<LocationView>)
    ensures
        forall|x: LocationView| #[trigger] tidy(locations).contains(x) <==> locations.contains(x),
        forall|i: int, j: int|
            0 <= i < j < tidy(locations).len() ==> !place_before(
                (#[trigger] tidy(locations)[j]).uri,
                tidy(locations)[j].range.start,
                (#[trigger] tidy(locations)[i]).uri,
                tidy(locations)[i].range.start,
            ),
        forall|i: int|
            0 <= i < tidy(locations).len() - 1 ==> #[trigger] tidy(locations)[i] != tidy(
                locations,
            )[i + 1],
{
    let sorted = sorted_list::<Location>(locations);
    law_sorting_orders_and_keeps::<Location>(locations);
    law_leaving_out_repeats_keeps_every_item(sorted, sorted.len() as int);
    lemma_repeats_keep_order::<Location>(sorted, sorted.len() as int);
    assert(sorted.take(sorted.len() as int) =~= sorted);
    assert forall|x: LocationView| #[trigger] tidy(locations).contains(x) <==> locations.contains(
        x,
    ) by {
        assert(sorted.contains(x) <==> locations.contains(x));
    }
    let r = tidy(locations);
    assert forall|i: int, j: int| 0 <= i < j < r.len() implies !place_before(
        (#[trigger] r[j]).uri,
        r[j].range.start,
        (#[trigger] r[i]).uri,
        r[i].range.start,
    ) by {
        assert(!Location::precedes(r[j], r[i]));
    }
}

} // verus!
