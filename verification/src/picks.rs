//! Those of a list that a rule keeps.

use vstd::prelude::*;

verus! {

/// What is shown for those of the first `n` that are kept, in their order.
pub open spec fn picked<B>(
    n: int,
    keep: spec_fn(int) -> bool,
    show: spec_fn(int) -> B,
) -> Seq<B> {
    Seq::new(n as nat, |i: int| i).filter(keep).map_values(show)
}

/// None are kept of none.
pub proof fn lemma_none_picked<B>(keep: spec_fn(int) -> bool, show: spec_fn(int) -> B)
    ensures
        picked(0, keep, show) == Seq::<B>::empty(),
{
    reveal(Seq::filter);
    assert(picked(0, keep, show) =~= Seq::<B>::empty());
}

/// One more comes last where it is kept.
pub proof fn lemma_picked<B>(n: int, keep: spec_fn(int) -> bool, show: spec_fn(int) -> B)
    requires
        0 < n,
    ensures
        picked(n, keep, show) == (if keep(n - 1) {
            picked(n - 1, keep, show).push(show(n - 1))
        } else {
            picked(n - 1, keep, show)
        }),
{
    let all = Seq::new(n as nat, |i: int| i);
    let before = all.drop_last().filter(keep);
    assert(all.drop_last() =~= Seq::new((n - 1) as nat, |i: int| i));
    assert(all.last() == n - 1);
    reveal(Seq::filter);
    assert(before.push(n - 1).map_values(show) =~= before.map_values(show).push(show(n - 1)));
}

/// What is shown is what is shown for one of those that are kept.
pub proof fn lemma_picked_holds<B>(
    n: int,
    keep: spec_fn(int) -> bool,
    show: spec_fn(int) -> B,
    item: B,
)
    requires
        0 <= n,
    ensures
        picked(n, keep, show).contains(item) <==> exists|i: int|
            0 <= i < n && #[trigger] keep(i) && show(i) == item,
    decreases n,
{
    let list = picked(n, keep, show);
    if n == 0 {
        lemma_none_picked(keep, show);
    } else {
        lemma_picked(n, keep, show);
        lemma_picked_holds(n - 1, keep, show, item);
        let before = picked(n - 1, keep, show);
        if list.contains(item) {
            let k = choose|k: int| 0 <= k < list.len() && list[k] == item;
            if k < before.len() {
                assert(before[k] == item);
                assert(before.contains(item));
            } else {
                assert(keep(n - 1) && show(n - 1) == item);
            }
        }
        if exists|i: int| 0 <= i < n && #[trigger] keep(i) && show(i) == item {
            let i = choose|i: int| 0 <= i < n && #[trigger] keep(i) && show(i) == item;
            if i < n - 1 {
                assert(before.contains(item));
                let k = choose|k: int| 0 <= k < before.len() && before[k] == item;
                assert(list[k] == item);
            } else {
                assert(list[list.len() - 1] == item);
            }
        }
    }
}

} // verus!
