//! Paths, the texts that they are read from, and their bytes.

use vstd::prelude::*;

use vstd::utf8::encode_scalar;

use crate::native::{
    bytewise, char_bytes, has_held, held_byte, is_held, is_settled, law_names_have_their_bytes,
    law_texts_are_names, lemma_bytewise, lemma_name_bytes_concat, name_bytes,
};
use crate::path_laws::is_straight;
use crate::paths::{
    all_pieces, bytes_parts, current_part, is_absolute, is_clean, kept, normalized, parent_part,
    path_bytes, pieces, root_part, settled, split_parts, tail_text, written, Parts,
};

verus! {

/// The first `k` of a list of pieces, with separators between them.
spec fn woven(list: Seq<Seq<char>>, k: int) -> Seq<char>
    decreases k,
{
    if k <= 0 {
        seq![]
    } else if k == 1 {
        list[0]
    } else {
        woven(list, k - 1) + seq!['/'] + list[k - 1]
    }
}

spec fn without_separator(piece: Seq<char>) -> bool {
    forall|j: int| 0 <= j < piece.len() ==> #[trigger] piece[j] != '/'
}

proof fn lemma_pieces_prefix(a: Seq<char>, b: Seq<char>, n: int)
    requires
        0 <= n <= a.len(),
        n <= b.len(),
        forall|i: int| 0 <= i < n ==> a[i] == b[i],
    ensures
        pieces(a, n) == pieces(b, n),
    decreases n,
{
    if n > 0 {
        lemma_pieces_prefix(a, b, n - 1);
    }
}

/// What has no separator in it goes to the piece that is being read.
proof fn lemma_pieces_go_on(s: Seq<char>, x: Seq<char>, j: int)
    requires
        0 <= j <= x.len(),
        without_separator(x),
    ensures
        pieces(s + x, s.len() + j) == (
            pieces(s, s.len() as int).0,
            pieces(s, s.len() as int).1 + x.take(j),
        ),
    decreases j,
{
    if j == 0 {
        lemma_pieces_prefix(s + x, s, s.len() as int);
        assert(pieces(s, s.len() as int).1 + x.take(0) =~= pieces(s, s.len() as int).1);
    } else {
        lemma_pieces_go_on(s, x, j - 1);
        assert((s + x)[s.len() + j - 1] == x[j - 1]);
        assert(x.take(j) =~= x.take(j - 1).push(x[j - 1]));
        assert((pieces(s, s.len() as int).1 + x.take(j - 1)).push(x[j - 1]) =~= pieces(
            s,
            s.len() as int,
        ).1 + x.take(j));
    }
}

proof fn lemma_woven_pieces(list: Seq<Seq<char>>, k: int)
    requires
        1 <= k <= list.len(),
        forall|i: int| 0 <= i < list.len() ==> without_separator(#[trigger] list[i]),
    ensures
        pieces(woven(list, k), woven(list, k).len() as int) == (list.take(k - 1), list[k - 1]),
    decreases k,
{
    let none: Seq<char> = seq![];
    assert(without_separator(list[k - 1]));
    if k == 1 {
        lemma_pieces_go_on(none, list[0], list[0].len() as int);
        assert(none + list[0] =~= list[0]);
        assert(none + list[0].take(list[0].len() as int) =~= list[0]);
        assert(list.take(0) =~= seq![]);
    } else {
        lemma_woven_pieces(list, k - 1);
        let before = woven(list, k - 1);
        let s = before + seq!['/'];
        lemma_pieces_prefix(s, before, before.len() as int);
        assert(s[s.len() - 1] == '/');
        assert(pieces(s, s.len() as int) == (list.take(k - 2).push(list[k - 2]), none));
        lemma_pieces_go_on(s, list[k - 1], list[k - 1].len() as int);
        assert(none + list[k - 1].take(list[k - 1].len() as int) =~= list[k - 1]);
        assert(list.take(k - 1) =~= list.take(k - 2).push(list[k - 2]));
        assert(s + list[k - 1] =~= woven(list, k));
    }
}

proof fn lemma_woven_tail(list: Seq<Seq<char>>, p: Parts, k: int)
    requires
        1 <= k <= list.len(),
        list.len() == p.len(),
        forall|i: int| 1 <= i < p.len() ==> list[i] == #[trigger] p[i],
    ensures
        woven(list, k) + tail_text(p, k) == woven(list, p.len() as int),
    decreases p.len() - k,
{
    if k < p.len() {
        lemma_woven_tail(list, p, k + 1);
        assert(woven(list, k) + tail_text(p, k) =~= woven(list, k + 1) + tail_text(p, k + 1));
    } else {
        assert(woven(list, k) + tail_text(p, k) =~= woven(list, k));
    }
}

proof fn lemma_kept_all(list: Seq<Seq<char>>, n: int)
    requires
        1 <= n <= list.len(),
        forall|i: int|
            1 <= i < list.len() ==> (#[trigger] list[i]).len() > 0 && list[i] != current_part(),
    ensures
        kept(list, n) == (if list[0].len() == 0 {
            list.subrange(1, n)
        } else {
            list.take(n)
        }),
    decreases n,
{
    if n == 1 {
        assert(kept(list, 0) =~= seq![]);
        assert(list.subrange(1, 1) =~= seq![]);
        assert(list.take(1) =~= seq![list[0]]);
        assert(kept(list, 1) =~= (if list[0].len() == 0 {
            seq![]
        } else {
            seq![list[0]]
        }));
    } else {
        lemma_kept_all(list, n - 1);
        assert(list.subrange(1, n) =~= list.subrange(1, n - 1).push(list[n - 1]));
        assert(list.take(n) =~= list.take(n - 1).push(list[n - 1]));
    }
}

/// A path whose parts could be read from a text is what its own text is read as.
pub proof fn law_paths_are_read_as_they_are_written(p: Parts)
    requires
        is_clean(p),
    ensures
        split_parts(written(p)) == p,
{
    let text = written(p);
    let none: Seq<char> = seq![];
    if p.len() == 0 {
        assert(all_pieces(text) =~= seq![none]);
        assert(kept(all_pieces(text), 1) =~= kept(all_pieces(text), 0));
        assert(split_parts(text) =~= p);
    } else if is_absolute(p) && p.len() == 1 {
        assert(pieces(text, 0) == (Seq::<Seq<char>>::empty(), none));
        assert(pieces(text, 1) == (Seq::<Seq<char>>::empty().push(none), none));
        let all = all_pieces(text);
        assert(all =~= seq![none, none]);
        assert(kept(all, 1) =~= kept(all, 0));
        assert(kept(all, 2) =~= kept(all, 1));
        assert(split_parts(text) =~= p);
    } else {
        let first = if is_absolute(p) {
            none
        } else {
            p[0]
        };
        let list = p.update(0, first);
        assert forall|i: int| 0 <= i < list.len() implies without_separator(#[trigger] list[i]) by {
            if i > 0 || !is_absolute(p) {
                assert forall|j: int| 0 <= j < p[i].len() implies #[trigger] p[i][j] != '/' by {}
            }
        }
        lemma_woven_tail(list, p, 1);
        assert(text =~= woven(list, p.len() as int));
        lemma_woven_pieces(list, p.len() as int);
        assert(all_pieces(text) =~= list);
        lemma_kept_all(list, list.len() as int);
        if is_absolute(p) {
            assert(text =~= tail_text(p, 1));
            assert(text[0] == '/');
            assert(seq![root_part()] + list.subrange(1, list.len() as int) =~= p);
        } else {
            assert(p[0].len() > 0);
            assert(text[0] == p[0][0]);
            assert(p[0][0] != '/');
            assert(list.take(list.len() as int) =~= p);
        }
    }
}

proof fn lemma_pieces_are_free(s: Seq<char>, n: int)
    requires
        0 <= n <= s.len(),
    ensures
        forall|i: int|
            0 <= i < pieces(s, n).0.len() ==> without_separator(#[trigger] pieces(s, n).0[i]),
        without_separator(pieces(s, n).1),
    decreases n,
{
    if n > 0 {
        lemma_pieces_are_free(s, n - 1);
    }
}

/// The pieces begin with an empty one where the text begins with a separator.
proof fn lemma_first_piece(s: Seq<char>, n: int)
    requires
        1 <= n <= s.len(),
        s[0] == '/',
    ensures
        pieces(s, n).0.len() > 0,
        pieces(s, n).0[0].len() == 0,
    decreases n,
{
    if n == 1 {
        assert(pieces(s, 0) == (Seq::<Seq<char>>::empty(), Seq::<char>::empty()));
    } else {
        lemma_first_piece(s, n - 1);
    }
}

proof fn lemma_kept_is_clean(list: Seq<Seq<char>>, n: int)
    requires
        0 <= n <= list.len(),
        forall|i: int| 0 <= i < list.len() ==> without_separator(#[trigger] list[i]),
    ensures
        forall|i: int|
            0 <= i < kept(list, n).len() ==> (#[trigger] kept(list, n)[i]).len() > 0
                && without_separator(kept(list, n)[i]),
        forall|i: int|
            0 < i < kept(list, n).len() ==> #[trigger] kept(list, n)[i] != current_part(),
        n > 0 && list[0].len() == 0 && kept(list, n).len() > 0 ==> kept(list, n)[0]
            != current_part(),
        n == 0 ==> kept(list, n).len() == 0,
    decreases n,
{
    if n > 0 {
        lemma_kept_is_clean(list, n - 1);
        assert(without_separator(list[n - 1]));
        let before = kept(list, n - 1);
        let after = kept(list, n);
        assert(after == before || (after == before.push(list[n - 1]) && list[n - 1].len() > 0 && (n
            > 1 ==> list[n - 1] != current_part())));
        assert forall|i: int| 0 <= i < after.len() implies (#[trigger] after[i]).len() > 0
            && without_separator(after[i]) by {
            if i < before.len() {
                assert(after[i] == before[i]);
            }
        }
        assert forall|i: int| 0 < i < after.len() implies #[trigger] after[i] != current_part() by {
            if i < before.len() {
                assert(after[i] == before[i]);
            }
        }
        if after.len() > 0 && before.len() > 0 {
            assert(after[0] == before[0]);
        }
    }
}

/// What a text is read as could be read from a text.
pub proof fn law_read_paths_are_clean(s: Seq<char>)
    ensures
        is_clean(split_parts(s)),
        is_absolute(split_parts(s)) == (s.len() > 0 && s[0] == '/'),
{
    let all = all_pieces(s);
    let n = all.len() as int;
    lemma_pieces_are_free(s, s.len() as int);
    assert forall|i: int| 0 <= i < n implies without_separator(#[trigger] all[i]) by {
        if i < n - 1 {
            assert(all[i] == pieces(s, s.len() as int).0[i]);
        }
    }
    lemma_kept_is_clean(all, n);
    let rest = kept(all, n);
    let p = split_parts(s);
    if s.len() > 0 && s[0] == '/' {
        lemma_first_piece(s, s.len() as int);
        assert(all[0].len() == 0);
        assert(p[0] == root_part());
        assert forall|i: int| 0 < i < p.len() implies p[i] == rest[i - 1] by {}
        assert forall|i: int, j: int|
            0 <= i < p.len() && 0 <= j < p[i].len() && !(i == 0 && p[0]
                == root_part()) implies #[trigger] p[i][j] != '/' by {
            assert(without_separator(rest[i - 1]));
        }
    } else {
        assert(p =~= rest);
        if p.len() > 0 {
            assert(without_separator(rest[0]));
            assert(rest[0][0] != '/');
        }
        assert forall|i: int, j: int|
            0 <= i < p.len() && 0 <= j < p[i].len() && !(i == 0 && p[0]
                == root_part()) implies #[trigger] p[i][j] != '/' by {
            assert(without_separator(rest[i]));
        }
    }
}

/// The normal form of an absolute path starts at the root too, and could be read from a text
/// if the path could.
pub proof fn law_normal_paths_are_clean(p: Parts, n: int)
    requires
        is_clean(p),
        is_absolute(p),
        1 <= n <= p.len(),
    ensures
        is_clean(normalized(p, n)),
        is_absolute(normalized(p, n)),
    decreases n,
{
    if n == 1 {
        assert(normalized(p, 0) =~= seq![]);
        assert(root_part()[0] != current_part()[0] && root_part()[0] != parent_part()[0]);
        assert(normalized(p, 1) =~= seq![root_part()]);
    } else {
        law_normal_paths_are_clean(p, n - 1);
        let before = normalized(p, n - 1);
        let after = normalized(p, n);
        assert forall|i: int, j: int|
            0 <= i < after.len() && 0 <= j < after[i].len() && !(i == 0 && after[0]
                == root_part()) implies #[trigger] after[i][j] != '/' by {
            if i < before.len() {
                assert(after[i] == before[i]);
                assert(before[i][j] != '/');
            } else {
                assert(after[i] == p[n - 1]);
                assert(p[n - 1][j] != '/');
            }
        }
    }
}

/// The bytes of a name, each held as a character.
pub open spec fn spelled(s: Seq<char>) -> Seq<char> {
    bytewise(name_bytes(s))
}

/// Each part with its bytes held as characters.
pub open spec fn spelled_parts(p: Parts) -> Parts {
    p.map_values(|part: Seq<char>| spelled(part))
}

/// Every part is held as its bytes are.
pub open spec fn all_settled(p: Parts) -> bool {
    forall|i: int| 0 <= i < p.len() ==> is_settled(#[trigger] p[i])
}

proof fn lemma_spelled_concat(a: Seq<char>, b: Seq<char>)
    ensures
        spelled(a + b) == spelled(a) + spelled(b),
{
    lemma_name_bytes_concat(a, b);
    assert(spelled(a + b) =~= spelled(a) + spelled(b));
}

proof fn lemma_high_bytes(c: u32)
    requires
        0x80 <= c <= 0x10FFFF,
    ensures
        forall|i: int|
            0 <= i < encode_scalar(c).len() ==> #[trigger] encode_scalar(c)[i] >= 0x80,
{
    assert(0xC0u8 | ((c >> 6) & 0x1F) as u8 >= 0x80) by (bit_vector);
    assert(0xE0u8 | ((c >> 12) & 0x0F) as u8 >= 0x80) by (bit_vector);
    assert(0xF0u8 | ((c >> 18) & 0x7) as u8 >= 0x80) by (bit_vector);
    assert(0x80u8 | (c & 0x3F) as u8 >= 0x80) by (bit_vector);
    assert(0x80u8 | ((c >> 6) & 0x3F) as u8 >= 0x80) by (bit_vector);
    assert(0x80u8 | ((c >> 12) & 0x3F) as u8 >= 0x80) by (bit_vector);
}

/// A character is spelled as itself below 128, and above with characters that stand for
/// bytes.
proof fn lemma_spelled_one(c: char)
    ensures
        (c as u32) < 0x80 ==> spelled(seq![c]) == seq![c],
        c as u32 >= 0x80 ==> spelled(seq![c]).len() > 0 && forall|i: int|
            0 <= i < spelled(seq![c]).len() ==> is_held(#[trigger] spelled(seq![c])[i]),
{
    let one = seq![c];
    let none: Seq<char> = seq![];
    assert(one.drop_last() =~= none);
    assert(name_bytes(none) =~= seq![]);
    assert(name_bytes(one) =~= char_bytes(c));
    let bytes = char_bytes(c);
    let u = c as u32;
    if u < 0x80 {
        assert((u & 0x7F) as u8 as u32 == u) by (bit_vector)
            requires
                u < 0x80,
        ;
        assert(bytes =~= seq![u as u8]);
        vstd::utf8::char_u32_cast(c, u);
        assert(held_byte(u as u8) == c);
        assert(spelled(one) =~= one);
    } else {
        if !is_held(c) {
            lemma_high_bytes(u);
        }
        assert forall|i: int| 0 <= i < spelled(one).len() implies is_held(
            #[trigger] spelled(one)[i],
        ) by {
            let b = bytes[i];
            assert(b >= 0x80);
            assert(spelled(one)[i] == held_byte(b));
        }
    }
}

/// What spelling keeps of a name: whether there is anything, whether a separator is in it,
/// and all of it where every character is below 128 before or after.
proof fn lemma_spelled(s: Seq<char>)
    ensures
        spelled(s).len() >= s.len(),
        s.len() == 0 ==> spelled(s).len() == 0,
        without_separator(spelled(s)) == without_separator(s),
        (forall|i: int| 0 <= i < s.len() ==> (#[trigger] s[i] as u32) < 0x80) ==> spelled(s) == s,
        (forall|i: int| 0 <= i < spelled(s).len() ==> (#[trigger] spelled(s)[i] as u32) < 0x80)
            ==> spelled(s) == s,
    decreases s.len(),
{
    if s.len() == 0 {
        assert(spelled(s) =~= s);
    } else {
        let before = s.drop_last();
        let c = s.last();
        lemma_spelled(before);
        lemma_spelled_one(c);
        assert(before + seq![c] =~= s);
        lemma_spelled_concat(before, seq![c]);
        let last = spelled(seq![c]);
        let all = spelled(s);
        assert(all == spelled(before) + last);
        assert(without_separator(all) == (without_separator(spelled(before)) && c != '/')) by {
            if without_separator(spelled(before)) && c != '/' {
                assert forall|j: int| 0 <= j < all.len() implies #[trigger] all[j] != '/' by {
                    if j < spelled(before).len() {
                        assert(all[j] == spelled(before)[j]);
                    } else {
                        assert(all[j] == last[j - spelled(before).len()]);
                    }
                }
            } else if !without_separator(spelled(before)) {
                let j = choose|j: int|
                    0 <= j < spelled(before).len() && #[trigger] spelled(before)[j] == '/';
                assert(all[j] == '/');
            } else {
                assert(all[all.len() - 1] == last[last.len() - 1]);
            }
        }
        assert(without_separator(s) == (without_separator(before) && c != '/')) by {
            if without_separator(before) && c != '/' {
                assert forall|j: int| 0 <= j < s.len() implies #[trigger] s[j] != '/' by {
                    if j < before.len() {
                        assert(s[j] == before[j]);
                    }
                }
            } else if !without_separator(before) {
                let j = choose|j: int| 0 <= j < before.len() && #[trigger] before[j] == '/';
                assert(s[j] == '/');
            } else {
                assert(s[s.len() - 1] == '/');
            }
        }
        if forall|i: int| 0 <= i < s.len() ==> (#[trigger] s[i] as u32) < 0x80 {
            assert forall|i: int| 0 <= i < before.len() implies (#[trigger] before[i] as u32)
                < 0x80 by {
                assert(before[i] == s[i]);
            }
            assert(s[s.len() - 1] == c);
            assert(spelled(s) =~= s);
        }
        if forall|i: int| 0 <= i < all.len() ==> (#[trigger] all[i] as u32) < 0x80 {
            assert forall|i: int| 0 <= i < spelled(before).len() implies (#[trigger] spelled(
                before,
            )[i] as u32) < 0x80 by {
                assert(spelled(before)[i] == all[i]);
            }
            if c as u32 >= 0x80 {
                assert(is_held(last[0]));
                assert(all[spelled(before).len() as int] == last[0]);
            }
            assert(spelled(s) =~= s);
        }
    }
}

/// The parts that have a meaning of their own are spelled as they are, and no other part is
/// spelled like one of them.
proof fn lemma_spelled_special(s: Seq<char>)
    ensures
        (spelled(s) == current_part()) == (s == current_part()),
        (spelled(s) == parent_part()) == (s == parent_part()),
        (spelled(s) == root_part()) == (s == root_part()),
{
    lemma_spelled(s);
}

proof fn lemma_spelled_pieces(s: Seq<char>)
    ensures
        pieces(spelled(s), spelled(s).len() as int) == (
            spelled_parts(pieces(s, s.len() as int).0),
            spelled(pieces(s, s.len() as int).1),
        ),
    decreases s.len(),
{
    if s.len() == 0 {
        let none: Seq<char> = seq![];
        lemma_spelled(none);
        assert(s =~= none);
        assert(spelled_parts(pieces(s, 0).0) =~= pieces(s, 0).0);
        assert(spelled(none) =~= none);
    } else {
        let before = s.drop_last();
        let n = before.len() as int;
        let c = s.last();
        lemma_spelled_pieces(before);
        lemma_spelled_one(c);
        assert(before + seq![c] =~= s);
        lemma_spelled_concat(before, seq![c]);
        lemma_pieces_prefix(s, before, n);
        let (done, piece) = pieces(before, n);
        let head = spelled(before);
        let last = spelled(seq![c]);
        if c == '/' {
            assert(last == seq!['/']);
            lemma_pieces_prefix(head + last, head, head.len() as int);
            assert((head + last)[head.len() as int] == '/');
            assert(spelled_parts(done.push(piece)) =~= spelled_parts(done).push(spelled(piece)));
            lemma_spelled(seq![]);
            assert(spelled(seq![]) =~= seq![]);
        } else {
            lemma_spelled(seq![c]);
            assert(without_separator(seq![c]));
            lemma_pieces_go_on(head, last, last.len() as int);
            assert(last.take(last.len() as int) =~= last);
            lemma_spelled_concat(piece, seq![c]);
            assert(piece + seq![c] =~= piece.push(c));
        }
    }
}

proof fn lemma_spelled_kept(list: Seq<Seq<char>>, n: int)
    requires
        0 <= n <= list.len(),
    ensures
        kept(spelled_parts(list), n) == spelled_parts(kept(list, n)),
    decreases n,
{
    if n == 0 {
        assert(kept(spelled_parts(list), 0) =~= spelled_parts(kept(list, 0)));
    } else {
        lemma_spelled_kept(list, n - 1);
        let piece = list[n - 1];
        lemma_spelled(piece);
        lemma_spelled_special(piece);
        assert(spelled_parts(list)[n - 1] == spelled(piece));
        assert(spelled_parts(kept(list, n - 1).push(piece)) =~= spelled_parts(
            kept(list, n - 1),
        ).push(spelled(piece)));
    }
}

/// What lies between separators is spelled for itself.
proof fn lemma_spelled_split(s: Seq<char>)
    ensures
        split_parts(spelled(s)) == spelled_parts(split_parts(s)),
{
    lemma_spelled_pieces(s);
    let (done, piece) = pieces(s, s.len() as int);
    assert(all_pieces(spelled(s)) =~= spelled_parts(all_pieces(s)));
    lemma_spelled_kept(all_pieces(s), all_pieces(s).len() as int);
    lemma_spelled(s);
    lemma_spelled_special(root_part());
    if s.len() > 0 {
        let first = seq![s[0]];
        assert(first + s.drop_first() =~= s);
        lemma_spelled_concat(first, s.drop_first());
        lemma_spelled_one(s[0]);
        assert(spelled(s)[0] == spelled(first)[0]);
        let rest = kept(all_pieces(s), all_pieces(s).len() as int);
        assert(spelled_parts(seq![root_part()] + rest) =~= seq![root_part()] + spelled_parts(rest));
    }
}

proof fn lemma_spelled_tail(p: Parts, i: int)
    requires
        0 <= i <= p.len(),
    ensures
        spelled(tail_text(p, i)) == tail_text(spelled_parts(p), i),
    decreases p.len() - i,
{
    if i < p.len() {
        lemma_spelled_tail(p, i + 1);
        lemma_spelled_one('/');
        lemma_spelled_concat(seq!['/'], p[i]);
        lemma_spelled_concat(seq!['/'] + p[i], tail_text(p, i + 1));
        assert(spelled_parts(p)[i] == spelled(p[i]));
    } else {
        lemma_spelled(seq![]);
        assert(spelled(tail_text(p, i)) =~= tail_text(spelled_parts(p), i));
    }
}

/// A path is spelled part by part.
pub proof fn lemma_spelled_path(p: Parts)
    ensures
        spelled(written(p)) == written(spelled_parts(p)),
{
    if p.len() == 0 {
        lemma_spelled(seq![]);
        assert(spelled(written(p)) =~= written(spelled_parts(p)));
    } else {
        lemma_spelled_tail(p, 1);
        lemma_spelled_special(p[0]);
        lemma_spelled_special(root_part());
        lemma_spelled_concat(p[0], tail_text(p, 1));
        assert(spelled_parts(p)[0] == spelled(p[0]));
    }
}

/// A text of characters below 128 is spelled as it is.
pub proof fn lemma_spelled_plain(s: Seq<char>)
    requires
        forall|i: int| 0 <= i < s.len() ==> (#[trigger] s[i] as u32) < 0x80,
    ensures
        bytewise(name_bytes(s)) == s,
{
    lemma_spelled(s);
}

/// A path without `.` and `..` is spelled without them.
pub proof fn lemma_spelled_straight(p: Parts)
    requires
        is_straight(p),
    ensures
        is_straight(spelled_parts(p)),
{
    assert forall|i: int| 0 <= i < p.len() implies spelled_parts(p)[i] != current_part()
        && spelled_parts(p)[i] != parent_part() by {
        lemma_spelled_special(p[i]);
        assert(p[i] != current_part() && p[i] != parent_part());
    }
}

/// A path whose parts could be read and are held as their bytes are is what its bytes are
/// read as.
pub proof fn law_paths_are_read_from_their_bytes(p: Parts)
    requires
        is_clean(p),
        all_settled(p),
    ensures
        bytes_parts(path_bytes(p)) == p,
        split_parts(bytewise(path_bytes(p))) == spelled_parts(p),
        written(spelled_parts(p)) == bytewise(path_bytes(p)),
{
    law_paths_are_read_as_they_are_written(p);
    lemma_spelled_split(written(p));
    lemma_spelled_path(p);
    let read = bytes_parts(path_bytes(p));
    assert forall|i: int| 0 <= i < p.len() implies read[i] == p[i] by {
        lemma_bytewise(name_bytes(p[i]));
        assert(is_settled(p[i]));
        assert(split_parts(bytewise(path_bytes(p)))[i] == spelled(p[i]));
    }
    assert(read =~= p);
}

/// What bytes are read as could be read, and is held as its bytes are.
pub proof fn law_bytes_are_read_as_clean_paths(bytes: Seq<u8>)
    ensures
        is_clean(bytes_parts(bytes)),
        all_settled(bytes_parts(bytes)),
        is_absolute(bytes_parts(bytes)) == (bytes.len() > 0 && bytes[0] == 0x2F),
{
    let text = bytewise(bytes);
    let q = split_parts(text);
    let p = bytes_parts(bytes);
    law_read_paths_are_clean(text);
    assert forall|i: int| 0 <= i < p.len() implies is_settled(#[trigger] p[i]) && spelled(p[i])
        == spelled(q[i]) && p[i] == settled(q[i]) by {
        law_names_have_their_bytes(name_bytes(q[i]));
    }
    assert forall|i: int| 0 <= i < p.len() implies #[trigger] p[i].len() > 0 by {
        lemma_spelled(p[i]);
        lemma_spelled(q[i]);
        assert(q[i].len() > 0);
    }
    assert forall|i: int| 0 <= i < p.len() implies (p[i] == root_part()) == (q[i] == root_part())
        && (p[i] == current_part()) == (q[i] == current_part()) by {
        lemma_spelled_special(p[i]);
        lemma_spelled_special(q[i]);
        assert(spelled(p[i]) == spelled(q[i]));
    }
    assert forall|i: int, j: int|
        0 <= i < p.len() && 0 <= j < p[i].len() && !(i == 0 && p[0]
            == root_part()) implies #[trigger] p[i][j] != '/' by {
        assert(spelled(p[i]) == spelled(q[i]));
        lemma_spelled(p[i]);
        lemma_spelled(q[i]);
        assert((p[0] == root_part()) == (q[0] == root_part()));
        assert(without_separator(q[i])) by {
            assert forall|k: int| 0 <= k < q[i].len() implies #[trigger] q[i][k] != '/' by {}
        }
        assert(without_separator(p[i]));
    }
    if bytes.len() > 0 {
        assert(text[0] == held_byte(bytes[0]));
        assert((held_byte(bytes[0]) == '/') == (bytes[0] == 0x2F));
    }
    if p.len() > 0 {
        assert((p[0] == root_part()) == (q[0] == root_part()));
    }
}

proof fn lemma_pieces_unheld(s: Seq<char>, n: int)
    requires
        0 <= n <= s.len(),
        !has_held(s),
    ensures
        forall|i: int| 0 <= i < pieces(s, n).0.len() ==> !has_held(#[trigger] pieces(s, n).0[i]),
        !has_held(pieces(s, n).1),
    decreases n,
{
    if n > 0 {
        lemma_pieces_unheld(s, n - 1);
        let piece = pieces(s, n - 1).1;
        assert(!is_held(s[n - 1]));
        assert forall|i: int| 0 <= i < piece.push(s[n - 1]).len() implies !is_held(
            #[trigger] piece.push(s[n - 1])[i],
        ) by {
            if i < piece.len() {
                assert(!is_held(piece[i]));
            }
        }
    }
}

proof fn lemma_kept_unheld(list: Seq<Seq<char>>, n: int)
    requires
        0 <= n <= list.len(),
        forall|i: int| 0 <= i < list.len() ==> !has_held(#[trigger] list[i]),
    ensures
        forall|i: int| 0 <= i < kept(list, n).len() ==> !has_held(#[trigger] kept(list, n)[i]),
    decreases n,
{
    if n > 0 {
        lemma_kept_unheld(list, n - 1);
        assert(!has_held(list[n - 1]));
        let before = kept(list, n - 1);
        let after = kept(list, n);
        assert forall|i: int| 0 <= i < after.len() implies !has_held(#[trigger] after[i]) by {
            if i < before.len() {
                assert(after[i] == before[i]);
            }
        }
    }
}

/// A text in which no character stands for a byte names the path that its bytes do.
pub proof fn law_texts_are_read_as_their_bytes(s: Seq<char>)
    requires
        !has_held(s),
    ensures
        bytes_parts(name_bytes(s)) == split_parts(s),
{
    lemma_spelled_split(s);
    lemma_pieces_unheld(s, s.len() as int);
    let all = all_pieces(s);
    assert forall|i: int| 0 <= i < all.len() implies !has_held(#[trigger] all[i]) by {
        if i < all.len() - 1 {
            assert(all[i] == pieces(s, s.len() as int).0[i]);
        }
    }
    lemma_kept_unheld(all, all.len() as int);
    let q = split_parts(s);
    let p = bytes_parts(name_bytes(s));
    assert forall|i: int| 0 <= i < q.len() implies p[i] == q[i] by {
        lemma_bytewise(name_bytes(q[i]));
        law_texts_are_names(q[i]);
        let rest = kept(all, all.len() as int);
        if s.len() > 0 && s[0] == '/' {
            assert(!is_held('/'));
            if i > 0 {
                assert(q[i] == rest[i - 1]);
            } else {
                assert(q[i] == root_part());
            }
        } else {
            assert(q[i] == rest[i]);
        }
        assert(!has_held(q[i]));
        assert(split_parts(spelled(s))[i] == spelled(q[i]));
    }
    assert(p =~= q);
}

/// The normal form of a path whose parts are held as their bytes are is one too.
pub proof fn law_normal_paths_are_settled(p: Parts, n: int)
    requires
        all_settled(p),
        0 <= n <= p.len(),
    ensures
        all_settled(normalized(p, n)),
    decreases n,
{
    if n > 0 {
        law_normal_paths_are_settled(p, n - 1);
        assert(is_settled(p[n - 1]));
    }
}

} // verus!
