//! Sorting lists so that items that tie stay in their order.

use vstd::prelude::*;

use crate::keymap::Identity;

verus! {

/// A type whose values come in an order. Two values that stand for different things may
/// tie.
pub trait Ordered: View + Sized {
    /// The first comes before the second.
    spec fn precedes(a: Self::V, b: Self::V) -> bool;

    /// Nothing comes before itself, and what comes before or ties is carried along.
    proof fn lemma_order(a: Self::V, b: Self::V, c: Self::V)
        ensures
            !Self::precedes(a, a),
            Self::precedes(a, b) && Self::precedes(b, c) ==> Self::precedes(a, c),
            !Self::precedes(a, b) && !Self::precedes(b, c) ==> !Self::precedes(a, c),
    ;

    /// Whether this comes before the other.
    fn is_before(&self, other: &Self) -> (r: bool)
        ensures
            r == Self::precedes(self@, other@),
    ;
}

/// What a list stands for.
pub open spec fn views<T: View>(items: Seq<T>) -> Seq<T::V> {
    items.map_values(|t: T| t@)
}

/// The first place from `i` on whose item comes after `x`.
pub open spec fn place_from<T: Ordered>(list: Seq<T::V>, x: T::V, i: int) -> int
    decreases list.len() - i,
{
    if i < 0 || i >= list.len() || T::precedes(x, list[i]) {
        i
    } else {
        place_from::<T>(list, x, i + 1)
    }
}

/// The list with `x` put before the first item that comes after it.
pub open spec fn put_in_order<T: Ordered>(list: Seq<T::V>, x: T::V) -> Seq<T::V> {
    list.insert(place_from::<T>(list, x, 0), x)
}

/// The first `n` items in order, items that tie as they came.
pub open spec fn ordered<T: Ordered>(list: Seq<T::V>, n: int) -> Seq<T::V>
    decreases n,
{
    if n <= 0 {
        Seq::empty()
    } else {
        put_in_order::<T>(ordered::<T>(list, n - 1), list[n - 1])
    }
}

/// All items in order, items that tie as they came.
pub open spec fn sorted_list<T: Ordered>(list: Seq<T::V>) -> Seq<T::V> {
    ordered::<T>(list, list.len() as int)
}

/// No item comes before an earlier one.
pub open spec fn is_sorted<T: Ordered>(list: Seq<T::V>) -> bool {
    forall|i: int, j: int|
        0 <= i < j < list.len() ==> !T::precedes(#[trigger] list[j], #[trigger] list[i])
}

proof fn lemma_place<T: Ordered>(list: Seq<T::V>, x: T::V, i: int)
    requires
        0 <= i <= list.len(),
    ensures
        i <= place_from::<T>(list, x, i) <= list.len(),
        forall|j: int|
            i <= j < place_from::<T>(list, x, i) ==> !T::precedes(x, #[trigger] list[j]),
        place_from::<T>(list, x, i) < list.len() ==> T::precedes(
            x,
            list[place_from::<T>(list, x, i)],
        ),
    decreases list.len() - i,
{
    if i < list.len() && !T::precedes(x, list[i]) {
        lemma_place::<T>(list, x, i + 1);
    }
}

proof fn lemma_put_in_order<T: Ordered>(list: Seq<T::V>, x: T::V)
    requires
        is_sorted::<T>(list),
    ensures
        is_sorted::<T>(put_in_order::<T>(list, x)),
        put_in_order::<T>(list, x).len() == list.len() + 1,
        forall|y: T::V| #[trigger]
            put_in_order::<T>(list, x).contains(y) <==> list.contains(y) || y == x,
{
    lemma_place::<T>(list, x, 0);
    let p = place_from::<T>(list, x, 0);
    let put = put_in_order::<T>(list, x);
    assert forall|i: int, j: int| 0 <= i < j < put.len() implies !T::precedes(
        #[trigger] put[j],
        #[trigger] put[i],
    ) by {
        if i < p && j == p {
            assert(put[i] == list[i]);
        } else if i < p && j > p {
            assert(put[i] == list[i] && put[j] == list[j - 1]);
            if i < j - 1 {
                assert(!T::precedes(list[j - 1], list[i]));
            } else {
                T::lemma_order(list[i], list[i], list[i]);
            }
        } else if i == p {
            assert(put[j] == list[j - 1]);
            T::lemma_order(x, list[p], list[p]);
            if j - 1 > p {
                assert(!T::precedes(list[j - 1], list[p]));
            }
            T::lemma_order(list[j - 1], x, list[p]);
            if T::precedes(list[j - 1], x) {
                T::lemma_order(list[j - 1], x, list[p]);
                if j - 1 == p {
                    T::lemma_order(list[p], x, list[p]);
                    T::lemma_order(list[p], list[p], list[p]);
                }
            }
        } else if i > p {
            assert(put[i] == list[i - 1] && put[j] == list[j - 1]);
            assert(!T::precedes(list[j - 1], list[i - 1]));
        } else {
            assert(put[i] == list[i] && put[j] == list[j]);
            assert(!T::precedes(list[j], list[i]));
        }
    }
    assert forall|y: T::V| #[trigger] put.contains(y) <==> list.contains(y) || y == x by {
        if put.contains(y) {
            let i = choose|i: int| 0 <= i < put.len() && put[i] == y;
            if i < p {
                assert(list[i] == y);
            } else if i > p {
                assert(list[i - 1] == y);
            }
        }
        if list.contains(y) {
            let i = choose|i: int| 0 <= i < list.len() && list[i] == y;
            if i < p {
                assert(put[i] == y);
            } else {
                assert(put[i + 1] == y);
            }
        }
        if y == x {
            assert(put[p] == x);
        }
    }
}

proof fn lemma_ordered<T: Ordered>(list: Seq<T::V>, n: int)
    requires
        0 <= n <= list.len(),
    ensures
        is_sorted::<T>(ordered::<T>(list, n)),
        ordered::<T>(list, n).len() == n,
        forall|y: T::V| #[trigger]
            ordered::<T>(list, n).contains(y) <==> list.take(n).contains(y),
    decreases n,
{
    if n > 0 {
        lemma_ordered::<T>(list, n - 1);
        let before = ordered::<T>(list, n - 1);
        lemma_put_in_order::<T>(before, list[n - 1]);
        let fore = list.take(n - 1);
        let whole = list.take(n);
        assert(whole =~= fore.push(list[n - 1]));
        assert forall|y: T::V| #[trigger] ordered::<T>(list, n).contains(y) <==> whole.contains(
            y,
        ) by {
            assert(before.contains(y) <==> fore.contains(y));
            if whole.contains(y) {
                let i = choose|i: int| 0 <= i < whole.len() && whole[i] == y;
                if i < n - 1 {
                    assert(fore[i] == y);
                }
            }
            if fore.contains(y) {
                let i = choose|i: int| 0 <= i < fore.len() && fore[i] == y;
                assert(whole[i] == y);
            }
            assert(whole[n - 1] == list[n - 1]);
        }
    }
}

/// Sorting a list keeps its items and brings them in order.
pub proof fn law_sorting_orders_and_keeps<T: Ordered>(list: Seq<T::V>)
    ensures
        is_sorted::<T>(sorted_list::<T>(list)),
        sorted_list::<T>(list).len() == list.len(),
        forall|y: T::V| #[trigger] sorted_list::<T>(list).contains(y) <==> list.contains(y),
{
    lemma_ordered::<T>(list, list.len() as int);
    assert(list.take(list.len() as int) =~= list);
}

fn place_of<T: Ordered>(list: &Vec<T>, x: &T) -> (r: usize)
    ensures
        r == place_from::<T>(views(list@), x@, 0),
        r <= list@.len(),
{
    let mut i: usize = 0;
    while i < list.len() && !x.is_before(&list[i])
        invariant
            i <= list@.len(),
            place_from::<T>(views(list@), x@, 0) == place_from::<T>(views(list@), x@, i as int),
        decreases list@.len() - i,
    {
        proof {
            assert(views(list@)[i as int] == list@[i as int]@);
        }
        i += 1;
    }
    proof {
        if i < list@.len() {
            assert(views(list@)[i as int] == list@[i as int]@);
        }
    }
    i
}

/// The list in order, items that tie as they came.
pub fn sort<T: Ordered>(list: Vec<T>) -> (r: Vec<T>)
    ensures
        views(r@) == sorted_list::<T>(views(list@)),
        r@.len() == list@.len(),
{
    let ghost all = views(list@);
    let total: usize = list.len();
    let mut rest: Vec<T> = list;
    let mut upside_down: Vec<T> = Vec::new();
    let mut n: usize = 0;
    while n < total
        invariant
            n <= total,
            total == all.len(),
            rest@.len() == total - n,
            upside_down@.len() == n,
            views(rest@) == all.take(total - n),
            forall|j: int| 0 <= j < n ==> #[trigger] upside_down@[j]@ == all[total - 1 - j],
        decreases total - n,
    {
        let ghost held = rest@;
        match rest.pop() {
            Some(item) => {
                proof {
                    assert(views(held)[total - 1 - n] == held[total - 1 - n]@);
                    assert(views(rest@) =~= all.take(total - n - 1));
                }
                upside_down.push(item);
            },
            None => {},
        }
        n += 1;
    }
    let mut result: Vec<T> = Vec::new();
    let mut i: usize = 0;
    proof {
        assert(views(result@) =~= Seq::<T::V>::empty());
    }
    while i < total
        invariant
            i <= total,
            total == all.len(),
            upside_down@.len() == total - i,
            result@.len() == i,
            forall|j: int|
                0 <= j < total - i ==> #[trigger] upside_down@[j]@ == all[total - 1 - j],
            views(result@) == ordered::<T>(all, i as int),
        decreases total - i,
    {
        match upside_down.pop() {
            Some(item) => {
                let place = place_of(&result, &item);
                let ghost before = result@;
                let ghost x = item@;
                result.insert(place, item);
                proof {
                    assert(x == all[i as int]);
                    assert(views(result@) =~= views(before).insert(place as int, x));
                }
            },
            None => {},
        }
        i += 1;
    }
    result
}

/// The first `n` items without those that repeat the one before them.
pub open spec fn without_repeats<V>(list: Seq<V>, n: int) -> Seq<V>
    decreases n,
{
    if n <= 0 {
        Seq::empty()
    } else if n >= 2 && list[n - 1] == list[n - 2] {
        without_repeats(list, n - 1)
    } else {
        without_repeats(list, n - 1).push(list[n - 1])
    }
}

/// Leaving out what repeats the item before it keeps every item that occurs, and adds none. In
/// what is left no item stands beside one like it.
pub proof fn law_leaving_out_repeats_keeps_every_item<V>(list: Seq<V>, n: int)
    requires
        0 <= n <= list.len(),
    ensures
        forall|y: V| #[trigger] without_repeats(list, n).contains(y) <==> list.take(n).contains(y),
        without_repeats(list, n).len() <= n,
        n > 0 ==> without_repeats(list, n).len() > 0 && without_repeats(list, n).last() == list[n
            - 1],
        forall|i: int|
            0 <= i < without_repeats(list, n).len() - 1 ==> #[trigger] without_repeats(list, n)[i]
                != without_repeats(list, n)[i + 1],
    decreases n,
{
    let r = without_repeats(list, n);
    if n > 0 {
        law_leaving_out_repeats_keeps_every_item(list, n - 1);
        let before = without_repeats(list, n - 1);
        let x = list[n - 1];
        let fore = list.take(n - 1);
        assert(list.take(n) =~= fore.push(x));
        assert forall|y: V| #[trigger] r.contains(y) <==> list.take(n).contains(y) by {
            if fore.contains(y) {
                let j = choose|j: int| 0 <= j < fore.len() && fore[j] == y;
                assert(list.take(n)[j] == y);
                assert(before.contains(y));
                let k = choose|k: int| 0 <= k < before.len() && before[k] == y;
                assert(r[k] == y);
            }
            if y == x {
                assert(list.take(n)[n - 1] == x);
                assert(r[r.len() - 1] == x);
            }
            if r.contains(y) {
                let k = choose|k: int| 0 <= k < r.len() && r[k] == y;
                if k < before.len() {
                    assert(before[k] == y);
                    assert(before.contains(y));
                    let j = choose|j: int| 0 <= j < fore.len() && fore[j] == y;
                    assert(list.take(n)[j] == y);
                }
            }
        }
        if n >= 2 && x != list[n - 2] {
            assert forall|i: int| 0 <= i < r.len() - 1 implies #[trigger] r[i] != r[i + 1] by {
                assert(r[i] == before[i]);
                if i + 1 < before.len() {
                    assert(r[i + 1] == before[i + 1]);
                } else {
                    assert(before.last() == before[i]);
                }
            }
        }
    } else {
        assert forall|y: V| #[trigger] r.contains(y) <==> list.take(n).contains(y) by {}
    }
}

/// The list without items that repeat the one before them.
pub fn drop_repeats<T: Identity>(list: &Vec<T>) -> (r: Vec<T>)
    ensures
        views(r@) == without_repeats(views(list@), list@.len() as int),
{
    let mut result: Vec<T> = Vec::new();
    let mut i: usize = 0;
    proof {
        assert(views(result@) =~= Seq::<T::V>::empty());
    }
    while i < list.len()
        invariant
            i <= list@.len(),
            views(result@) == without_repeats(views(list@), i as int),
        decreases list@.len() - i,
    {
        proof {
            assert(views(list@)[i as int] == list@[i as int]@);
            if i > 0 {
                assert(views(list@)[i - 1] == list@[i - 1]@);
            }
        }
        if i == 0 || !list[i].same_as(&list[i - 1]) {
            let ghost before = result@;
            result.push(list[i].duplicate());
            proof {
                assert(views(result@) =~= views(before).push(list@[i as int]@));
            }
        }
        i += 1;
    }
    result
}

} // verus!
