//! What holds of all paths.

use vstd::prelude::*;

use crate::native::shown;
use crate::paths::{
    absolute_parts, common_parts, current_part, equal_ci, is_absolute, joined, normalized,
    parent_part, relative_parts, root_part, starts_with, starts_with_ci, Parts,
};
use crate::strings::same_ci;

verus! {

/// A path without `.` and `..`.
pub open spec fn is_straight(p: Parts) -> bool {
    forall|i: int|
        0 <= i < p.len() ==> #[trigger] p[i] != current_part() && p[i] != parent_part()
}

/// The normal form of a path has no `.` and no `..` in it.
pub proof fn law_normal_paths_are_straight(p: Parts, n: int)
    requires
        0 <= n <= p.len(),
    ensures
        is_straight(normalized(p, n)),
        normalized(p, n).len() <= n,
    decreases n,
{
    if n > 0 {
        law_normal_paths_are_straight(p, n - 1);
    }
}

proof fn lemma_straight_is_normal(p: Parts, n: int)
    requires
        0 <= n <= p.len(),
        is_straight(p),
    ensures
        normalized(p, n) == p.take(n),
    decreases n,
{
    if n > 0 {
        lemma_straight_is_normal(p, n - 1);
        assert(p.take(n) =~= p.take(n - 1).push(p[n - 1]));
    } else {
        assert(p.take(0) =~= seq![]);
    }
}

/// A path without `.` and `..` is its own normal form.
pub proof fn law_straight_paths_are_normal(p: Parts)
    requires
        is_straight(p),
    ensures
        normalized(p, p.len() as int) == p,
{
    lemma_straight_is_normal(p, p.len() as int);
    assert(p.take(p.len() as int) =~= p);
}

/// The normal form of a normal form is itself.
pub proof fn law_normalizing_again_changes_nothing(p: Parts)
    ensures
        ({
            let normal = normalized(p, p.len() as int);
            normalized(normal, normal.len() as int) == normal
        }),
{
    law_normal_paths_are_straight(p, p.len() as int);
    law_straight_paths_are_normal(normalized(p, p.len() as int));
}

proof fn lemma_root_stays(p: Parts, n: int)
    requires
        is_absolute(p),
        1 <= n <= p.len(),
    ensures
        is_absolute(normalized(p, n)),
    decreases n,
{
    if n > 1 {
        lemma_root_stays(p, n - 1);
    } else {
        assert(normalized(p, 0) =~= seq![]);
        assert(root_part().len() == 1 && parent_part().len() == 2);
        assert(root_part()[0] == '/' && current_part()[0] == '.');
        assert(p[0] != current_part());
        assert(p[0] != parent_part());
    }
}

/// Seen from an absolute directory every path is absolute, and taking it from there again
/// changes nothing.
pub proof fn law_absolute_paths_stay(cwd: Parts, p: Parts)
    requires
        is_absolute(cwd),
    ensures
        is_absolute(absolute_parts(cwd, p)),
        absolute_parts(cwd, absolute_parts(cwd, p)) == absolute_parts(cwd, p),
{
    let whole = joined(cwd, p);
    assert(is_absolute(whole));
    lemma_root_stays(whole, whole.len() as int);
    law_normalizing_again_changes_nothing(whole);
}

/// Every path lies under itself, and what lies under a directory lies under all that this
/// lies under.
pub proof fn law_lying_under_is_an_order(a: Parts, b: Parts, c: Parts)
    ensures
        starts_with(a, a),
        starts_with(a, b) && starts_with(b, c) ==> starts_with(a, c),
        starts_with(a, b) && starts_with(b, a) ==> a == b,
{
    assert(a.take(a.len() as int) =~= a);
    if starts_with(a, b) && starts_with(b, c) {
        assert(a.take(b.len() as int).take(c.len() as int) =~= a.take(c.len() as int));
    }
    if starts_with(a, b) && starts_with(b, a) {
        assert(a.take(b.len() as int) =~= a);
    }
}

/// Being the same but for case is an equivalence.
pub proof fn law_case_does_not_tell_paths_apart(a: Parts, b: Parts, c: Parts)
    ensures
        equal_ci(a, a),
        equal_ci(a, b) == equal_ci(b, a),
        equal_ci(a, b) && equal_ci(b, c) ==> equal_ci(a, c),
{
    if equal_ci(a, b) {
        assert forall|i: int| 0 <= i < b.len() implies same_ci(shown(#[trigger] b[i]), shown(a[i])) by {
            assert(same_ci(shown(a[i]), shown(b[i])));
        }
    }
    if equal_ci(b, a) {
        assert forall|i: int| 0 <= i < a.len() implies same_ci(shown(#[trigger] a[i]), shown(b[i])) by {
            assert(same_ci(shown(b[i]), shown(a[i])));
        }
    }
    if equal_ci(a, b) && equal_ci(b, c) {
        assert forall|i: int| 0 <= i < a.len() implies same_ci(shown(#[trigger] a[i]), shown(c[i])) by {
            assert(same_ci(shown(a[i]), shown(b[i])) && same_ci(shown(b[i]), shown(c[i])));
        }
    }
}

/// Lying under a directory but for case agrees with being the same but for case.
pub proof fn law_lying_under_but_for_case(a: Parts, b: Parts, c: Parts)
    ensures
        starts_with(a, b) ==> starts_with_ci(a, b),
        starts_with_ci(a, b) && starts_with_ci(b, c) ==> starts_with_ci(a, c),
        equal_ci(a, b) == (starts_with_ci(a, b) && starts_with_ci(b, a)),
{
    if starts_with(a, b) {
        assert forall|i: int| 0 <= i < b.len() implies same_ci(shown(#[trigger] a[i]), shown(b[i])) by {
            assert(a.take(b.len() as int)[i] == b[i]);
        }
    }
    if starts_with_ci(a, b) && starts_with_ci(b, c) {
        assert forall|i: int| 0 <= i < c.len() implies same_ci(shown(#[trigger] a[i]), shown(c[i])) by {
            assert(same_ci(shown(b[i]), shown(c[i])));
        }
    }
    if equal_ci(a, b) {
        assert forall|i: int| 0 <= i < a.len() implies same_ci(shown(#[trigger] b[i]), shown(a[i])) by {
            assert(same_ci(shown(a[i]), shown(b[i])));
        }
    }
}

proof fn lemma_common(a: Parts, b: Parts)
    ensures
        0 <= common_parts(a, b) <= a.len(),
        common_parts(a, b) <= b.len(),
        a.take(common_parts(a, b)) == b.take(common_parts(a, b)),
    decreases a.len(),
{
    if a.len() == 0 || b.len() == 0 || a[0] != b[0] {
        assert(a.take(0) =~= b.take(0));
    } else {
        lemma_common(a.drop_first(), b.drop_first());
        let n = common_parts(a.drop_first(), b.drop_first());
        assert(a.take(n + 1) =~= seq![a[0]] + a.drop_first().take(n));
        assert(b.take(n + 1) =~= seq![b[0]] + b.drop_first().take(n));
    }
}

spec fn ups(n: nat) -> Parts {
    Seq::new(n, |i: int| parent_part())
}

proof fn lemma_going_up(base: Parts, k: nat, rest: Parts)
    requires
        is_straight(base),
        forall|i: int| 1 <= i < base.len() ==> #[trigger] base[i] != root_part(),
        k < base.len(),
        is_straight(rest),
    ensures
        normalized(base + ups(k) + rest, (base.len() + k) as int) == base.take(base.len() - k),
    decreases k,
{
    let whole = base + ups(k) + rest;
    if k == 0 {
        assert(whole.take(base.len() as int) =~= base.take(base.len() as int));
        lemma_normalized_prefix(whole, base, base.len() as int);
        law_straight_paths_are_normal(base);
        assert(base.take(base.len() as int) =~= base);
    } else {
        let shorter = base + ups((k - 1) as nat) + rest;
        lemma_going_up(base, (k - 1) as nat, rest);
        assert(parent_part().len() == 2 && current_part().len() == 1);
        let n = (base.len() + k - 1) as int;
        assert(whole.take(n) =~= shorter.take(n));
        lemma_normalized_prefix(whole, shorter, n);
        let before = base.take(base.len() - k + 1);
        assert(normalized(whole, n) == before);
        assert(whole[n] == parent_part());
        assert(before.last() == base[base.len() - k]);
        assert(before.drop_last() =~= base.take(base.len() - k));
    }
}

proof fn lemma_normalized_prefix(a: Parts, b: Parts, n: int)
    requires
        0 <= n <= a.len(),
        n <= b.len(),
        a.take(n) == b.take(n),
    ensures
        normalized(a, n) == normalized(b, n),
    decreases n,
{
    if n > 0 {
        assert(a.take(n)[n - 1] == a[n - 1]);
        assert(b.take(n)[n - 1] == b[n - 1]);
        assert(a.take(n - 1) =~= a.take(n).take(n - 1));
        assert(b.take(n - 1) =~= b.take(n).take(n - 1));
        lemma_normalized_prefix(a, b, n - 1);
    }
}

proof fn lemma_normalized_straight_tail(a: Parts, n: int, m: int)
    requires
        0 <= n <= m <= a.len(),
        forall|i: int|
            n <= i < m ==> #[trigger] a[i] != current_part() && a[i] != parent_part(),
    ensures
        normalized(a, m) == normalized(a, n) + a.subrange(n, m),
    decreases m - n,
{
    if n < m {
        lemma_normalized_straight_tail(a, n, m - 1);
        assert(normalized(a, m) =~= normalized(a, n) + a.subrange(n, m));
    } else {
        assert(normalized(a, n) + a.subrange(n, n) =~= normalized(a, n));
    }
}

/// The way from one path to another leads there, where the paths begin with the same part.
/// Absolute paths do.
pub proof fn law_the_way_leads_there(base: Parts, p: Parts)
    requires
        base.len() > 0,
        p.len() > 0,
        base[0] == p[0],
        is_straight(base),
        is_straight(p),
        forall|i: int| 1 <= i < base.len() ==> #[trigger] base[i] != root_part(),
        forall|i: int| 1 <= i < p.len() ==> #[trigger] p[i] != root_part(),
    ensures
        relative_parts(base, p) is Some,
        absolute_parts(base, relative_parts(base, p)->0) == p,
{
    let common = common_parts(base, p);
    lemma_common(base, p);
    lemma_common(base.drop_first(), p.drop_first());
    assert(base[0] == p[0]);
    assert(common >= 1);
    let k = (base.len() - common) as nat;
    let rest = p.skip(common);
    let way = relative_parts(base, p)->0;
    assert(way =~= ups(k) + rest);
    assert(root_part().len() == 1 && parent_part().len() == 2 && current_part().len() == 1);
    assert(root_part()[0] == '/' && current_part()[0] == '.');
    if way.len() > 0 {
        if k > 0 {
            assert(way[0] == parent_part());
        } else {
            assert(way[0] == p[common]);
        }
        assert(way[0] != current_part());
        assert(way[0] != root_part());
    }
    let whole = base + ups(k) + rest;
    assert(joined(base, way) =~= whole);
    assert forall|i: int| 0 <= i < rest.len() implies #[trigger] rest[i] != current_part()
        && rest[i] != parent_part() by {
        assert(rest[i] == p[common + i]);
    }
    lemma_going_up(base, k, rest);
    let n = (base.len() + k) as int;
    assert forall|i: int| n <= i < whole.len() implies #[trigger] whole[i] != current_part()
        && whole[i] != parent_part() by {
        assert(whole[i] == rest[i - n]);
    }
    lemma_normalized_straight_tail(whole, n, whole.len() as int);
    assert(whole.subrange(n, whole.len() as int) =~= rest);
    assert(base.take(common) + rest =~= p) by {
        assert(base.take(common) == p.take(common));
        assert(p.take(common) + p.skip(common) =~= p);
    }
}

} // verus!
