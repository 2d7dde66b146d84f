//! Lines, columns and characters.

use vstd::prelude::*;

use crate::strings::byte_len;
use crate::text::{
    boundary, boundary_at_or_before, byte_offset_of, lemma_byte_len_push, lemma_chars_before,
    lemma_lines, lemma_prefix_lengths, lemma_take_next, line_scan, lines_of, position_of, units,
    unix_lines, utf16_len, without_bare_returns,
};

verus! {

/// The characters from `a` to `b` are a line: they begin with the text or behind a line end,
/// they end with the text or at a line end, and no line end is among them.
pub open spec fn is_line(s: Seq<char>, a: int, b: int) -> bool {
    &&& 0 <= a <= b <= s.len()
    &&& a == 0 || s[a - 1] == '\n'
    &&& b == s.len() || s[b] == '\n'
    &&& forall|i: int| a <= i < b ==> #[trigger] s[i] != '\n'
}

/// Bytes are those of the characters from `a` to `b`.
pub open spec fn are_bytes_of(s: Seq<char>, bytes: (int, int), a: int, b: int) -> bool {
    bytes.0 == byte_len(s.take(a)) && bytes.1 == byte_len(s.take(b))
}

/// Bytes are those of a line.
pub open spec fn are_bytes_of_a_line(s: Seq<char>, bytes: (int, int)) -> bool {
    exists|a: int, b: int| #[trigger] are_bytes_of(s, bytes, a, b) && is_line(s, a, b)
}

spec fn line_start(s: Seq<char>, k: int) -> int
    decreases k,
{
    if k <= 0 {
        0
    } else if s[k - 1] == '\n' {
        k
    } else {
        line_start(s, k - 1)
    }
}

proof fn lemma_line_start(s: Seq<char>, k: int)
    requires
        0 <= k <= s.len(),
    ensures
        0 <= line_start(s, k) <= k,
        line_start(s, k) == 0 || s[line_start(s, k) - 1] == '\n',
        forall|i: int| line_start(s, k) <= i < k ==> #[trigger] s[i] != '\n',
    decreases k,
{
    if k > 0 {
        lemma_line_start(s, k - 1);
    }
}

proof fn lemma_scan(s: Seq<char>, k: int)
    requires
        0 <= k <= s.len(),
    ensures
        line_scan(s, k).1 == byte_len(s.take(line_start(s, k))),
        forall|i: int|
            0 <= i < line_scan(s, k).0.len() ==> are_bytes_of_a_line(
                s,
                #[trigger] line_scan(s, k).0[i],
            ),
        forall|i: int|
            0 <= i < line_scan(s, k).0.len() - 1 ==> line_scan(s, k).0[i + 1].0 == (
            #[trigger] line_scan(s, k).0[i]).1 + 1,
        line_scan(s, k).0.len() > 0 ==> line_scan(s, k).0[0].0 == 0 && line_scan(s, k).1
            == line_scan(s, k).0[line_scan(s, k).0.len() - 1].1 + 1,
        line_scan(s, k).0.len() == 0 ==> line_scan(s, k).1 == 0,
    decreases k,
{
    assert(byte_len(s.take(0)) == 0) by {
        lemma_prefix_lengths(s, 0, 0);
    }
    if k > 0 {
        lemma_scan(s, k - 1);
        lemma_line_start(s, k - 1);
        let (lines, start) = line_scan(s, k - 1);
        let all = line_scan(s, k).0;
        if s[k - 1] == '\n' {
            lemma_take_next(s, k - 1);
            let last = (start, byte_len(s.take(k - 1)) as int);
            assert(are_bytes_of(s, last, line_start(s, k - 1), k - 1));
            assert(is_line(s, line_start(s, k - 1), k - 1));
            assert(are_bytes_of_a_line(s, last));
            assert(byte_len(s.take(k)) == byte_len(s.take(k - 1)) + 1) by {
                assert(s.take(k) =~= s.take(k - 1).push('\n'));
                lemma_byte_len_push(s.take(k - 1), '\n');
            }
            assert(all == lines.push(last));
            assert forall|i: int| 0 <= i < all.len() implies are_bytes_of_a_line(
                s,
                #[trigger] all[i],
            ) by {
                if i < lines.len() {
                    assert(all[i] == lines[i]);
                }
            }
            assert forall|i: int| 0 <= i < all.len() - 1 implies all[i + 1].0 == (
            #[trigger] all[i]).1 + 1 by {
                assert(all[i] == lines[i]);
                if i + 1 < lines.len() {
                    assert(all[i + 1] == lines[i + 1]);
                }
            }
            if lines.len() > 0 {
                assert(all[0] == lines[0]);
            }
        }
    }
}

/// The lines of a text begin with it, follow one another with one line end between, end with
/// it, and are lines.
pub proof fn law_a_text_is_its_lines(s: Seq<char>)
    ensures
        lines_of(s).len() > 0,
        lines_of(s)[0].0 == 0,
        lines_of(s)[lines_of(s).len() - 1].1 == byte_len(s),
        forall|i: int|
            0 <= i < lines_of(s).len() ==> are_bytes_of_a_line(s, #[trigger] lines_of(s)[i]),
        forall|i: int|
            0 <= i < lines_of(s).len() - 1 ==> lines_of(s)[i + 1].0 == (
            #[trigger] lines_of(s)[i]).1 + 1,
{
    let n = s.len() as int;
    lemma_scan(s, n);
    lemma_line_start(s, n);
    let (lines, start) = line_scan(s, n);
    let all = lines_of(s);
    assert(s.take(n) =~= s);
    let last = (start, byte_len(s) as int);
    assert(are_bytes_of(s, last, line_start(s, n), n));
    assert(is_line(s, line_start(s, n), n));
    assert(are_bytes_of_a_line(s, last));
    assert(all == lines.push(last));
    assert forall|i: int| 0 <= i < all.len() implies are_bytes_of_a_line(s, #[trigger] all[i]) by {
        if i < lines.len() {
            assert(all[i] == lines[i]);
        }
    }
    assert forall|i: int| 0 <= i < all.len() - 1 implies all[i + 1].0 == (#[trigger] all[i]).1
        + 1 by {
        assert(all[i] == lines[i]);
        if i + 1 < lines.len() {
            assert(all[i + 1] == lines[i + 1]);
        }
    }
    if lines.len() > 0 {
        assert(all[0] == lines[0]);
    }
}

proof fn lemma_last_boundary(s: Seq<char>, start: int, offset: int, other: int)
    requires
        boundary(s, start),
        start <= offset,
    ensures
        boundary(s, boundary_at_or_before(s, start, offset)),
        start <= boundary_at_or_before(s, start, offset) <= offset,
        boundary(s, other) && other <= offset && start <= other ==> other
            <= boundary_at_or_before(s, start, offset),
    decreases offset - start,
{
    if offset > start && !boundary(s, offset) {
        lemma_last_boundary(s, start, offset - 1, other);
    }
}

/// A line and a column lead to a byte exactly where there is such a line. It is where a
/// character of the line begins, or its end; it is no further than the column; and no other such
/// place of the line lies between.
pub proof fn law_a_column_leads_to_its_character(
    s: Seq<char>,
    line: int,
    column: int,
    other: int,
)
    ensures
        byte_offset_of(s, line, column) is Some <==> 1 <= line <= lines_of(s).len(),
        byte_offset_of(s, line, column) is Some ==> {
            let (start, end) = lines_of(s)[line - 1];
            let offset = byte_offset_of(s, line, column)->0;
            &&& boundary(s, offset)
            &&& start <= offset <= end
            &&& column >= 1 ==> offset <= start + column - 1
            &&& column < 1 ==> offset == start
            &&& boundary(s, other) && start <= other <= end && other <= start + column - 1
                ==> other <= offset
        },
{
    lemma_lines(s);
    if 1 <= line <= lines_of(s).len() {
        let (start, end) = lines_of(s)[line - 1];
        let from_start = if column < 1 {
            0
        } else if column - 1 > end - start {
            end - start
        } else {
            column - 1
        };
        lemma_last_boundary(s, start, start + from_start, other);
    }
}

proof fn lemma_units_add(s: Seq<char>, a: int, b: int)
    requires
        0 <= a <= b <= s.len(),
    ensures
        utf16_len(s.take(b)) == utf16_len(s.take(a)) + utf16_len(s.subrange(a, b)),
    decreases b - a,
{
    if a < b {
        lemma_units_add(s, a, b - 1);
        assert(s.take(b).drop_last() =~= s.take(b - 1));
        assert(s.subrange(a, b).drop_last() =~= s.subrange(a, b - 1));
        assert(s.take(b).last() == s[b - 1]);
        assert(s.subrange(a, b).last() == s[b - 1]);
    } else {
        assert(s.subrange(a, a) =~= Seq::empty());
    }
}

/// The place of a line and a column counts lines from zero and, within the line, the units of
/// the characters before it.
pub proof fn law_a_position_counts_units(s: Seq<char>, line: int, column: int, a: int, b: int)
    requires
        0 <= a <= b <= s.len(),
        1 <= line <= lines_of(s).len(),
        byte_len(s.take(a)) == lines_of(s)[line - 1].0,
        byte_offset_of(s, line, column) == Some(byte_len(s.take(b)) as int),
    ensures
        position_of(s, line, column) is Some <==> line - 1 <= u32::MAX && utf16_len(
            s.subrange(a, b),
        ) <= u32::MAX,
        position_of(s, line, column) is Some ==> position_of(s, line, column)->0.line == line - 1
            && position_of(s, line, column)->0.character == utf16_len(s.subrange(a, b)),
{
    lemma_chars_before(s, a);
    lemma_chars_before(s, b);
    lemma_units_add(s, a, b);
}

proof fn lemma_units_two(s: Seq<char>)
    ensures
        s.len() <= utf16_len(s) <= 2 * s.len(),
    decreases s.len(),
{
    if s.len() > 0 {
        lemma_units_two(s.drop_last());
    }
}

/// A character takes one unit, or two where it lies beyond the first plane.
pub proof fn law_characters_take_one_unit_or_two(s: Seq<char>, c: char)
    ensures
        utf16_len(s.push(c)) == utf16_len(s) + (if c as u32 > 0xffff {
            2int
        } else {
            1
        }),
        s.len() <= utf16_len(s) <= 2 * s.len(),
{
    assert(s.push(c).drop_last() =~= s);
    lemma_units_two(s);
}

proof fn lemma_shifted(s: Seq<char>, k: int, i: int)
    requires
        0 <= k <= s.len(),
        0 <= i,
    ensures
        unix_lines(s, k + i) == unix_lines(s.skip(k), i),
    decreases s.len() - k - i,
{
    let rest = s.skip(k);
    if k + i < s.len() {
        assert(rest[i] == s[k + i]);
        if k + i + 1 < s.len() {
            assert(rest[i + 1] == s[k + i + 1]);
        }
        lemma_shifted(s, k, i + 1);
        if s[k + i] == '\r' && k + i + 1 < s.len() && s[k + i + 1] == '\n' {
            lemma_shifted(s, k, i + 2);
        }
    }
}

proof fn lemma_after(t: Seq<char>, head: Seq<char>)
    ensures
        unix_lines(head + t, head.len() as int) == unix_lines(t, 0),
{
    let s = head + t;
    lemma_shifted(s, head.len() as int, 0);
    assert(s.skip(head.len() as int) =~= t);
}

/// Line ends of all three kinds come to one, each once, and every other character stays.
pub proof fn law_line_ends_come_to_one(t: Seq<char>, c: char)
    ensures
        unix_lines(seq!['\r', '\n'] + t, 0) == seq!['\n'] + unix_lines(t, 0),
        t.len() == 0 || t[0] != '\n' ==> unix_lines(seq!['\r'] + t, 0) == seq!['\n'] + unix_lines(
            t,
            0,
        ),
        c != '\r' ==> unix_lines(seq![c] + t, 0) == seq![c] + unix_lines(t, 0),
        unix_lines(seq![], 0) == Seq::<char>::empty(),
{
    let both = seq!['\r', '\n'] + t;
    lemma_after(t, seq!['\r', '\n']);
    assert(both[0] == '\r' && both[1] == '\n');
    let bare = seq!['\r'] + t;
    lemma_after(t, seq!['\r']);
    assert(bare[0] == '\r');
    if t.len() > 0 {
        assert(bare[1] == t[0]);
    }
    let plain = seq![c] + t;
    lemma_after(t, seq![c]);
    assert(plain[0] == c);
}

/// Of a text without bare returns every character stays but for the returns that no line end
/// follows, which become line ends.
pub proof fn law_bare_returns_become_line_ends(s: Seq<char>, i: int)
    requires
        0 <= i < s.len(),
    ensures
        without_bare_returns(s).len() == s.len(),
        s[i] != '\r' ==> without_bare_returns(s)[i] == s[i],
        s[i] == '\r' && i + 1 < s.len() && s[i + 1] == '\n' ==> without_bare_returns(s)[i] == '\r',
        s[i] == '\r' && (i + 1 == s.len() || s[i + 1] != '\n') ==> without_bare_returns(s)[i]
            == '\n',
{
}

} // verus!
