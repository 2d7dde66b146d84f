//! Source text: byte offsets, UTF-16 columns and line ends.

use vstd::prelude::*;

use crate::strings::{byte_len, byte_length, chars_of, utf8};

verus! {

/// The bytes that a character takes in UTF-8.
pub open spec fn width(c: char) -> nat {
    if c <= '\u{7f}' {
        1
    } else if c <= '\u{7ff}' {
        2
    } else if c <= '\u{ffff}' {
        3
    } else {
        4
    }
}

/// The units that a character takes in UTF-16.
pub open spec fn units(c: char) -> nat {
    if c <= '\u{ffff}' {
        1
    } else {
        2
    }
}

/// The length of a text in UTF-16 units.
pub open spec fn utf16_len(s: Seq<char>) -> nat
    decreases s.len(),
{
    if s.len() == 0 {
        0
    } else {
        utf16_len(s.drop_last()) + units(s.last())
    }
}

/// `offset` is where a character of the text begins, or its end.
pub open spec fn boundary(s: Seq<char>, offset: int) -> bool {
    exists|k: int| 0 <= k <= s.len() && #[trigger] byte_len(s.take(k)) == offset
}

/// How many characters come before the byte `offset`.
pub open spec fn chars_before(s: Seq<char>, offset: int) -> int {
    choose|k: int| 0 <= k <= s.len() && #[trigger] byte_len(s.take(k)) == offset
}

/// The bytes that a character takes in UTF-8.
pub fn char_width(c: char) -> (r: usize)
    ensures
        r == width(c),
        1 <= r <= 4,
{
    if c <= '\u{7f}' {
        1
    } else if c <= '\u{7ff}' {
        2
    } else if c <= '\u{ffff}' {
        3
    } else {
        4
    }
}

/// The units that a character takes in UTF-16.
pub fn char_units(c: char) -> (r: usize)
    ensures
        r == units(c),
        1 <= r <= 2,
{
    if c <= '\u{ffff}' {
        1
    } else {
        2
    }
}

pub proof fn lemma_utf8_concat(a: Seq<char>, b: Seq<char>)
    ensures
        utf8(a + b) == utf8(a) + utf8(b),
        byte_len(a + b) == byte_len(a) + byte_len(b),
    decreases a.len(),
{
    if a.len() == 0 {
        assert(a + b =~= b);
        assert(utf8(a) + utf8(b) =~= utf8(b));
    } else {
        assert((a + b).drop_first() =~= a.drop_first() + b);
        lemma_utf8_concat(a.drop_first(), b);
        assert(utf8(a + b) =~= utf8(a) + utf8(b));
    }
}

pub proof fn lemma_byte_len_one(c: char)
    ensures
        byte_len(seq![c]) == width(c),
        utf8(seq![c]) == vstd::utf8::encode_scalar(c as u32),
{
    assert(seq![c].drop_first() =~= seq![]);
    assert(utf8(seq![]) =~= seq![]);
    assert(utf8(seq![c]) =~= vstd::utf8::encode_scalar(c as u32));
}

pub proof fn lemma_byte_len_push(s: Seq<char>, c: char)
    ensures
        byte_len(s.push(c)) == byte_len(s) + width(c),
{
    assert(s.push(c) =~= s + seq![c]);
    lemma_utf8_concat(s, seq![c]);
    lemma_byte_len_one(c);
}

/// Taking one more character adds its width.
pub proof fn lemma_take_next(s: Seq<char>, k: int)
    requires
        0 <= k < s.len(),
    ensures
        byte_len(s.take(k + 1)) == byte_len(s.take(k)) + width(s[k]),
        utf16_len(s.take(k + 1)) == utf16_len(s.take(k)) + units(s[k]),
{
    assert(s.take(k + 1) =~= s.take(k).push(s[k]));
    lemma_byte_len_push(s.take(k), s[k]);
    assert(s.take(k + 1).drop_last() =~= s.take(k));
}

/// A prefix is no longer than what it is a prefix of, in bytes and in UTF-16 units.
pub proof fn lemma_prefix_lengths(s: Seq<char>, j: int, k: int)
    requires
        0 <= j <= k <= s.len(),
    ensures
        byte_len(s.take(j)) + (k - j) <= byte_len(s.take(k)),
        utf16_len(s.take(j)) <= utf16_len(s.take(k)),
        byte_len(s.take(k)) <= byte_len(s),
        utf16_len(s.take(k)) <= byte_len(s.take(k)),
        byte_len(s.take(0)) == 0,
        utf16_len(s.take(0)) == 0,
    decreases k,
{
    assert(s.take(0) =~= seq![]);
    if j < k {
        lemma_prefix_lengths(s, j, k - 1);
        lemma_take_next(s, k - 1);
    } else if k > 0 {
        lemma_prefix_lengths(s, 0, k - 1);
        lemma_take_next(s, k - 1);
    }
    assert(s.take(k) + s.skip(k) =~= s);
    lemma_utf8_concat(s.take(k), s.skip(k));
}

/// Different prefixes have different lengths.
pub proof fn lemma_chars_before(s: Seq<char>, k: int)
    requires
        0 <= k <= s.len(),
    ensures
        boundary(s, byte_len(s.take(k)) as int),
        chars_before(s, byte_len(s.take(k)) as int) == k,
{
    let j = chars_before(s, byte_len(s.take(k)) as int);
    if j < k {
        lemma_prefix_lengths(s, j, k);
    } else {
        lemma_prefix_lengths(s, k, j);
    }
}

/// The boundaries that a string's own bytes show are those of its characters.
pub proof fn lemma_boundary(s: Seq<char>, offset: int)
    ensures
        vstd::utf8::is_char_boundary(utf8(s), offset) == boundary(s, offset),
    decreases s.len(),
{
    vstd::utf8::encode_utf8_valid_utf8(s);
    lemma_prefix_lengths(s, 0, s.len() as int);
    if offset == 0 {
        assert(byte_len(s.take(0)) == 0);
    } else if offset < 0 || offset > byte_len(s) {
        if boundary(s, offset) {
            let k = chars_before(s, offset);
            lemma_prefix_lengths(s, 0, k);
        }
    } else {
        let rest = s.drop_first();
        let w = width(s[0]);
        vstd::utf8::encode_utf8_first_scalar(s);
        lemma_byte_len_one(s[0]);
        assert(vstd::utf8::pop_first_scalar(utf8(s)) =~= utf8(rest));
        lemma_boundary(rest, offset - w);
        if boundary(s, offset) {
            let k = chars_before(s, offset);
            assert(k > 0);
            assert(s.take(k) =~= seq![s[0]] + rest.take(k - 1));
            lemma_utf8_concat(seq![s[0]], rest.take(k - 1));
            assert(byte_len(rest.take(k - 1)) == offset - w);
        }
        if boundary(rest, offset - w) {
            let k = chars_before(rest, offset - w);
            assert(s.take(k + 1) =~= seq![s[0]] + rest.take(k));
            lemma_utf8_concat(seq![s[0]], rest.take(k));
            assert(byte_len(s.take(k + 1)) == offset);
        }
    }
}

/// The text with every line end, `\r\n` or `\r` or `\n`, as `\n`, from character `i` on.
pub open spec fn unix_lines(s: Seq<char>, i: int) -> Seq<char>
    decreases s.len() - i,
{
    if i < 0 || i >= s.len() {
        seq![]
    } else if s[i] == '\r' {
        if i + 1 < s.len() && s[i + 1] == '\n' {
            seq!['\n'] + unix_lines(s, i + 2)
        } else {
            seq!['\n'] + unix_lines(s, i + 1)
        }
    } else {
        seq![s[i]] + unix_lines(s, i + 1)
    }
}

/// For every byte of the normalized text from character `i` on, the offset in the raw
/// text behind it. `raw` is the offset of character `i`.
pub open spec fn unix_offsets(s: Seq<char>, i: int, raw: int) -> Seq<int>
    decreases s.len() - i,
{
    if i < 0 || i >= s.len() {
        seq![]
    } else if s[i] == '\r' {
        if i + 1 < s.len() && s[i + 1] == '\n' {
            seq![raw + 2] + unix_offsets(s, i + 2, raw + 2)
        } else {
            seq![raw + 1] + unix_offsets(s, i + 1, raw + 1)
        }
    } else {
        Seq::new(width(s[i]), |j: int| raw + 1 + j) + unix_offsets(s, i + 1, raw + width(s[i]))
    }
}

/// A list of machine numbers as mathematical ones.
pub open spec fn ints(list: Seq<usize>) -> Seq<int> {
    list.map_values(|n: usize| n as int)
}

/// Text with uniform line ends, and where each of its byte boundaries was before.
pub struct NormalizedSource {
    pub text: String,
    pub raw_offsets: Vec<usize>,
}

/// The offsets grow with the text, and the last of them is its raw length.
pub proof fn lemma_unix_offsets(s: Seq<char>, i: int, raw: int)
    requires
        0 <= i <= s.len(),
        raw == byte_len(s.take(i)),
    ensures
        unix_offsets(s, i, raw).len() == byte_len(unix_lines(s, i)),
        forall|j: int|
            0 <= j < unix_offsets(s, i, raw).len() ==> raw < #[trigger] unix_offsets(s, i, raw)[j],
        forall|j: int, k: int|
            0 <= j < k < unix_offsets(s, i, raw).len() ==> #[trigger] unix_offsets(s, i, raw)[j]
                < #[trigger] unix_offsets(s, i, raw)[k],
        i < s.len() ==> unix_offsets(s, i, raw).len() > 0 && unix_offsets(s, i, raw).last()
            == byte_len(s),
        !unix_lines(s, i).contains('\r'),
    decreases s.len() - i,
{
    if i < s.len() {
        lemma_take_next(s, i);
        let w: int = if s[i] == '\r' && i + 1 < s.len() && s[i + 1] == '\n' {
            lemma_take_next(s, i + 1);
            2
        } else {
            1
        };
        let c = if s[i] == '\r' {
            '\n'
        } else {
            s[i]
        };
        let raw_next = if s[i] == '\r' {
            raw + w
        } else {
            raw + width(s[i])
        };
        lemma_unix_offsets(s, i + w, raw_next);
        lemma_utf8_concat(seq![c], unix_lines(s, i + w));
        lemma_byte_len_one(c);
        assert(unix_lines(s, i) =~= seq![c] + unix_lines(s, i + w));
        let head = if s[i] == '\r' {
            seq![raw + w]
        } else {
            Seq::new(width(s[i]), |j: int| raw + 1 + j)
        };
        let tail = unix_offsets(s, i + w, raw_next);
        assert(unix_offsets(s, i, raw) =~= head + tail);
        if i + w == s.len() {
            assert(s.take(i + w) =~= s);
            assert(tail =~= seq![]);
            assert((head + tail).last() == head.last());
        } else {
            assert((head + tail).last() == tail.last());
        }
        assert forall|x: char| #[trigger] unix_lines(s, i).contains(x) && x == '\r' implies false by {
            let n = choose|n: int| 0 <= n < unix_lines(s, i).len() && unix_lines(s, i)[n] == x;
            if n > 0 {
                assert(unix_lines(s, i + w)[n - 1] == x);
                assert(unix_lines(s, i + w).contains(x));
            }
        }
    } else {
        assert(utf8(seq![]) =~= seq![]);
    }
}

/// The text with uniform line ends, and for each byte boundary of it the boundary of
/// the source that it stands for. The boundaries grow with the text, the first is the
/// beginning of the source and the last its end.
pub fn normalize_line_endings_with_offsets(source: &str) -> (r: NormalizedSource)
    ensures
        r.text@ == unix_lines(source@, 0),
        ints(r.raw_offsets@) == seq![0int] + unix_offsets(source@, 0, 0),
        !r.text@.contains('\r'),
        r.raw_offsets@.len() == byte_len(r.text@) + 1,
        r.raw_offsets@[0] == 0,
        r.raw_offsets@.last() == byte_len(source@),
        forall|j: int, k: int|
            0 <= j < k < r.raw_offsets@.len() ==> #[trigger] r.raw_offsets@[j]
                < #[trigger] r.raw_offsets@[k],
{
    let chars = chars_of(source);
    let total: usize = byte_length(source);
    let mut text = String::new();
    let mut raw_offsets: Vec<usize> = Vec::new();
    raw_offsets.push(0);
    let mut raw: usize = 0;
    let mut i: usize = 0;
    let ghost whole = seq![0int] + unix_offsets(source@, 0, 0);
    proof {
        assert(text@ + unix_lines(source@, 0) =~= unix_lines(source@, 0));
        assert(ints(raw_offsets@) + unix_offsets(source@, 0, 0) =~= whole);
        lemma_prefix_lengths(source@, 0, source@.len() as int);
    }
    while i < chars.len()
        invariant
            chars@ == source@,
            i <= chars@.len(),
            total == byte_len(source@),
            raw == byte_len(source@.take(i as int)),
            text@ + unix_lines(source@, i as int) == unix_lines(source@, 0),
            ints(raw_offsets@) + unix_offsets(source@, i as int, raw as int) == whole,
        decreases chars@.len() - i,
    {
        let ghost text_before = text@;
        let ghost offsets_before = raw_offsets@;
        let ghost raw_before = raw as int;
        proof {
            lemma_take_next(source@, i as int);
            lemma_prefix_lengths(source@, 0, i + 1);
        }
        if chars[i] == '\r' {
            text.push('\n');
            raw += 1;
            let crlf = i + 1 < chars.len() && chars[i + 1] == '\n';
            if crlf {
                proof {
                    lemma_take_next(source@, i + 1);
                    lemma_prefix_lengths(source@, 0, i + 2);
                }
                raw += 1;
            }
            raw_offsets.push(raw);
            let step: usize = if crlf { 2 } else { 1 };
            proof {
                assert(text@ + unix_lines(source@, i + step) =~= text_before + unix_lines(
                    source@,
                    i as int,
                ));
                assert(ints(raw_offsets@) + unix_offsets(source@, i + step, raw as int)
                    =~= ints(offsets_before) + unix_offsets(source@, i as int, raw_before));
            }
            i += step;
        } else {
            let character = chars[i];
            let w: usize = char_width(character);
            text.push(character);
            let mut offset: usize = 1;
            while offset <= w
                invariant
                    1 <= offset <= w + 1,
                    w <= 4,
                    raw + w <= total,
                    ints(raw_offsets@) == ints(offsets_before) + Seq::new(
                        (offset - 1) as nat,
                        |j: int| raw + 1 + j,
                    ),
                decreases w + 1 - offset,
            {
                let ghost held = raw_offsets@;
                raw_offsets.push(raw + offset);
                proof {
                    assert(ints(raw_offsets@) =~= ints(held).push(raw + offset));
                    assert(ints(raw_offsets@) =~= ints(offsets_before) + Seq::new(
                        offset as nat,
                        |j: int| raw + 1 + j,
                    ));
                }
                offset += 1;
            }
            raw += w;
            proof {
                assert(text@ + unix_lines(source@, i + 1) =~= text_before + unix_lines(
                    source@,
                    i as int,
                ));
                assert(ints(raw_offsets@) + unix_offsets(source@, i + 1, raw as int) =~= ints(
                    offsets_before,
                ) + unix_offsets(source@, i as int, raw_before)) by {
                    assert(ints(raw_offsets@) =~= ints(offsets_before) + Seq::new(
                        w as nat,
                        |j: int| raw_before + 1 + j,
                    ));
                    assert(Seq::new(w as nat, |j: int| raw_before + 1 + j) =~= Seq::new(
                        width(source@[i as int]),
                        |j: int| raw_before + 1 + j,
                    ));
                }
            }
            i += 1;
        }
    }
    proof {
        assert(text@ + seq![] =~= text@);
        assert(ints(raw_offsets@) + seq![] =~= ints(raw_offsets@));
        lemma_unix_offsets(source@, 0, 0);
        let offsets = unix_offsets(source@, 0, 0);
        assert(ints(raw_offsets@) == whole);
        assert(raw_offsets@.len() == whole.len());
        assert forall|j: int, k: int|
            0 <= j < k < raw_offsets@.len() implies #[trigger] raw_offsets@[j]
            < #[trigger] raw_offsets@[k] by {
            assert(ints(raw_offsets@)[j] == whole[j]);
            assert(ints(raw_offsets@)[k] == whole[k]);
            if j > 0 {
                assert(whole[j] == offsets[j - 1]);
            }
            assert(whole[k] == offsets[k - 1]);
        }
        assert(ints(raw_offsets@)[0] == whole[0]);
        assert(ints(raw_offsets@).last() == whole.last());
        if source@.len() == 0 {
            assert(utf8(source@) =~= seq![]);
        } else {
            assert(whole.last() == offsets.last());
        }
    }
    NormalizedSource { text, raw_offsets }
}

/// The text with every `\r` that no `\n` follows replaced by `\n`.
pub open spec fn without_bare_returns(s: Seq<char>) -> Seq<char> {
    Seq::new(
        s.len(),
        |i: int|
            if s[i] == '\r' && !(i + 1 < s.len() && s[i + 1] == '\n') {
                '\n'
            } else {
                s[i]
            },
    )
}

/// The text with every `\r` that no `\n` follows replaced by `\n`.
pub fn normalize_line_endings(source: &str) -> (r: String)
    ensures
        r@ == without_bare_returns(source@),
{
    let chars = chars_of(source);
    let mut r = String::new();
    let mut i: usize = 0;
    while i < chars.len()
        invariant
            chars@ == source@,
            i <= chars@.len(),
            r@ == without_bare_returns(source@).take(i as int),
        decreases chars@.len() - i,
    {
        let bare = chars[i] == '\r' && !(i + 1 < chars.len() && chars[i + 1] == '\n');
        let c = if bare { '\n' } else { chars[i] };
        r.push(c);
        proof {
            assert(without_bare_returns(source@).take(i + 1) =~= without_bare_returns(
                source@,
            ).take(i as int).push(c));
        }
        i += 1;
    }
    proof {
        assert(without_bare_returns(source@).take(source@.len() as int)
            =~= without_bare_returns(source@));
    }
    r
}

/// A place in a text: a line and a column in UTF-16 units, both from 0.
#[derive(Clone, Copy, Debug, PartialEq, Eq, Structural)]
pub struct Position {
    pub line: u32,
    pub character: u32,
}

/// What lies between two places of a text.
#[derive(Clone, Copy, Debug, PartialEq, Eq, Structural)]
pub struct Range {
    pub start: Position,
    pub end: Position,
}

/// The lines that end within the first `k` characters, as byte ranges without the line
/// end, and where the next line begins.
pub open spec fn line_scan(s: Seq<char>, k: int) -> (Seq<(int, int)>, int)
    decreases k,
{
    if k <= 0 {
        (seq![], 0)
    } else {
        let (lines, start) = line_scan(s, k - 1);
        if s[k - 1] == '\n' {
            (lines.push((start, byte_len(s.take(k - 1)) as int)), byte_len(s.take(k)) as int)
        } else {
            (lines, start)
        }
    }
}

/// The lines of a text, as byte ranges without the line end.
pub open spec fn lines_of(s: Seq<char>) -> Seq<(int, int)> {
    let (lines, start) = line_scan(s, s.len() as int);
    lines.push((start, byte_len(s) as int))
}

pub open spec fn int_pairs(list: Seq<(usize, usize)>) -> Seq<(int, int)> {
    list.map_values(|p: (usize, usize)| (p.0 as int, p.1 as int))
}

proof fn lemma_line_scan(s: Seq<char>, k: int)
    requires
        0 <= k <= s.len(),
    ensures
        boundary(s, line_scan(s, k).1),
        0 <= line_scan(s, k).1 <= byte_len(s.take(k)),
        forall|i: int|
            0 <= i < line_scan(s, k).0.len() ==> {
                let (from, to) = #[trigger] line_scan(s, k).0[i];
                &&& boundary(s, from)
                &&& boundary(s, to)
                &&& 0 <= from <= to <= byte_len(s)
            },
    decreases k,
{
    lemma_prefix_lengths(s, 0, k);
    if k > 0 {
        lemma_line_scan(s, k - 1);
        lemma_prefix_lengths(s, k - 1, k);
    }
    lemma_chars_before(s, 0);
    if k > 0 && s[k - 1] == '\n' {
        lemma_chars_before(s, k);
        lemma_chars_before(s, k - 1);
    }
}

/// The lines of a text lie in it, between boundaries.
pub proof fn lemma_lines(s: Seq<char>)
    ensures
        lines_of(s).len() > 0,
        forall|i: int|
            0 <= i < lines_of(s).len() ==> {
                let (from, to) = #[trigger] lines_of(s)[i];
                &&& boundary(s, from)
                &&& boundary(s, to)
                &&& 0 <= from <= to <= byte_len(s)
            },
{
    lemma_line_scan(s, s.len() as int);
    assert(s.take(s.len() as int) =~= s);
    lemma_chars_before(s, s.len() as int);
}

/// The last boundary that is not behind `offset`, but not before `start` either.
pub open spec fn boundary_at_or_before(s: Seq<char>, start: int, offset: int) -> int
    decreases offset - start,
{
    if offset <= start || boundary(s, offset) {
        offset
    } else {
        boundary_at_or_before(s, start, offset - 1)
    }
}

/// The byte that a line and a column in bytes, both from 1, fall on. A column behind
/// the line's end falls on its end, one within a character on its beginning.
pub open spec fn byte_offset_of(s: Seq<char>, line: int, column: int) -> Option<int> {
    if line < 1 || line > lines_of(s).len() {
        None
    } else {
        let (start, end) = lines_of(s)[line - 1];
        let from_start = if column < 1 {
            0
        } else if column - 1 > end - start {
            end - start
        } else {
            column - 1
        };
        Some(boundary_at_or_before(s, start, start + from_start))
    }
}

/// The UTF-16 units between two boundaries of a text.
pub open spec fn utf16_between(s: Seq<char>, from: int, to: int) -> int {
    utf16_len(s.take(chars_before(s, to))) - utf16_len(s.take(chars_before(s, from)))
}

proof fn lemma_boundary_at_or_before(s: Seq<char>, start: int, offset: int)
    requires
        boundary(s, start),
        start <= offset,
    ensures
        boundary(s, boundary_at_or_before(s, start, offset)),
        start <= boundary_at_or_before(s, start, offset) <= offset,
    decreases offset - start,
{
    if offset > start && !boundary(s, offset) {
        lemma_boundary_at_or_before(s, start, offset - 1);
    }
}

/// The lines of a text and its UTF-16 lengths, for the conversion of many places.
pub struct DiagnosticLineIndex<'a> {
    pub source: &'a str,
    pub lines: Vec<(usize, usize)>,
    pub utf16_prefix: Vec<usize>,
}

/// The place that a line and a column in bytes fall on, unless there is no such line or one
/// of the numbers is too large for a place.
pub open spec fn position_of(s: Seq<char>, line: int, column: int) -> Option<Position> {
    let offset = byte_offset_of(s, line, column);
    let character = utf16_between(s, lines_of(s)[line - 1].0, offset->0);
    if offset is Some && line - 1 <= u32::MAX && character <= u32::MAX {
        Some(Position { line: (line - 1) as u32, character: character as u32 })
    } else {
        None
    }
}

impl<'a> DiagnosticLineIndex<'a> {
    /// The index is that of its source.
    pub open spec fn wf(&self) -> bool {
        &&& int_pairs(self.lines@) == lines_of(self.source@)
        &&& self.utf16_prefix@.len() == byte_len(self.source@) + 1
        &&& forall|k: int|
            0 <= k <= self.source@.len() ==> self.utf16_prefix@[byte_len(
                (#[trigger] self.source@.take(k)),
            ) as int] == utf16_len(self.source@.take(k))
    }

    /// The index of a text.
    pub fn new(source: &'a str) -> (r: Self)
        requires
            byte_len(source@) < usize::MAX,
        ensures
            r.wf(),
            r.source@ == source@,
    {
        let chars = chars_of(source);
        let total: usize = byte_length(source);
        let mut lines: Vec<(usize, usize)> = Vec::new();
        let mut utf16_prefix: Vec<usize> = Vec::new();
        let mut filled: usize = 0;
        while filled <= total
            invariant
                filled <= total + 1,
                total < usize::MAX,
                utf16_prefix@.len() == filled,
                forall|j: int| 0 <= j < filled ==> utf16_prefix@[j] == 0,
            decreases total + 1 - filled,
        {
            utf16_prefix.push(0);
            filled += 1;
        }
        let mut start: usize = 0;
        let mut byte: usize = 0;
        let mut counted: usize = 0;
        let mut i: usize = 0;
        let ghost s = source@;
        proof {
            lemma_prefix_lengths(s, 0, s.len() as int);
            assert(int_pairs(lines@) =~= line_scan(s, 0).0);
        }
        while i < chars.len()
            invariant
                s == source@,
                chars@ == s,
                i <= chars@.len(),
                total == byte_len(s),
                byte == byte_len(s.take(i as int)),
                counted == utf16_len(s.take(i as int)),
                utf16_prefix@.len() == total + 1,
                int_pairs(lines@) == line_scan(s, i as int).0,
                start == line_scan(s, i as int).1,
                forall|k: int|
                    0 <= k <= i ==> utf16_prefix@[byte_len((#[trigger] s.take(k))) as int]
                        == utf16_len(s.take(k)),
            decreases chars@.len() - i,
        {
            let c = chars[i];
            let w: usize = char_width(c);
            let u: usize = char_units(c);
            let ghost lines_before = lines@;
            let ghost prefix_before = utf16_prefix@;
            proof {
                lemma_take_next(s, i as int);
                lemma_prefix_lengths(s, i as int, i + 1);
            }
            if c == '\n' {
                lines.push((start, byte));
                start = byte + w;
                proof {
                    assert(int_pairs(lines@) =~= int_pairs(lines_before).push(
                        (line_scan(s, i as int).1, byte as int),
                    ));
                }
            }
            byte += w;
            counted += u;
            utf16_prefix.set(byte, counted);
            proof {
                assert forall|k: int| 0 <= k <= i + 1 implies utf16_prefix@[byte_len(
                    (#[trigger] s.take(k)),
                ) as int] == utf16_len(s.take(k)) by {
                    if k <= i {
                        lemma_prefix_lengths(s, k, i + 1);
                        assert(byte_len(s.take(k)) < byte);
                        assert(prefix_before[byte_len(s.take(k)) as int] == utf16_len(s.take(k)));
                    }
                }
            }
            i += 1;
        }
        lines.push((start, total));
        proof {
            assert(s.take(s.len() as int) =~= s);
            assert(int_pairs(lines@) =~= lines_of(s));
        }
        DiagnosticLineIndex { source, lines, utf16_prefix }
    }

    /// The byte that a line and a column in bytes fall on.
    pub fn byte_offset(&self, line: usize, column: usize) -> (r: Option<usize>)
        requires
            self.wf(),
        ensures
            match r {
                Some(offset) => byte_offset_of(self.source@, line as int, column as int) == Some(
                    offset as int,
                ) && boundary(self.source@, offset as int) && offset <= byte_len(self.source@),
                None => byte_offset_of(self.source@, line as int, column as int) is None,
            },
    {
        let ghost s = self.source@;
        proof {
            lemma_lines(s);
        }
        if line < 1 || line > self.lines.len() {
            return None;
        }
        let bounds = self.lines[line - 1];
        let start: usize = bounds.0;
        let end: usize = bounds.1;
        proof {
            assert(int_pairs(self.lines@)[line - 1] == (start as int, end as int));
        }
        let wanted: usize = if column < 1 {
            0
        } else {
            column - 1
        };
        let span: usize = end - start;
        let mut offset: usize = if wanted > span {
            span
        } else {
            wanted
        };
        let ghost result = boundary_at_or_before(s, start as int, start + offset);
        proof {
            lemma_boundary_at_or_before(s, start as int, start + offset);
            lemma_boundary(s, start + offset);
            vstd::utf8::encode_utf8_valid_utf8(s);
        }
        while offset > 0 && !self.source.is_char_boundary(start + offset)
            invariant
                s == self.source@,
                start + offset <= end <= byte_len(s),
                result == boundary_at_or_before(s, start as int, start + offset),
                vstd::utf8::is_char_boundary(utf8(s), start + offset) == boundary(
                    s,
                    start + offset,
                ),
            decreases offset,
        {
            offset -= 1;
            proof {
                lemma_boundary(s, start + offset);
            }
        }
        Some(start + offset)
    }

    /// The bytes between two places. An end before the start counts as the start.
    pub fn byte_range(
        &self,
        line: usize,
        column: usize,
        end_line: usize,
        end_column: usize,
    ) -> (r: Option<(usize, usize)>)
        requires
            self.wf(),
        ensures
            ({
                let start = byte_offset_of(self.source@, line as int, column as int);
                let end = byte_offset_of(self.source@, end_line as int, end_column as int);
                match r {
                    Some((from, to)) => start == Some(from as int) && end is Some && to == (
                    if end->0 < from {
                        from as int
                    } else {
                        end->0
                    }),
                    None => start is None || end is None,
                }
            }),
    {
        let start: usize = match self.byte_offset(line, column) {
            Some(start) => start,
            None => {
                return None;
            },
        };
        let end: usize = match self.byte_offset(end_line, end_column) {
            Some(end) => end,
            None => {
                return None;
            },
        };
        Some((start, if end < start { start } else { end }))
    }

    /// The place that a line and a column in bytes fall on. There is none for a line
    /// that is not there, or where a number is too large.
    pub fn position(&self, line: usize, column: usize) -> (r: Option<Position>)
        requires
            self.wf(),
        ensures
            r == position_of(self.source@, line as int, column as int),
    {
        let ghost s = self.source@;
        let offset: usize = match self.byte_offset(line, column) {
            Some(offset) => offset,
            None => {
                return None;
            },
        };
        let line_number: usize = line - 1;
        let start: usize = self.lines[line_number].0;
        proof {
            lemma_lines(s);
            assert(int_pairs(self.lines@)[line_number as int] == (
                start as int,
                self.lines@[line_number as int].1 as int,
            ));
            let (from, to) = lines_of(s)[line_number as int];
            assert(from == start);
            let from_start = if column < 1 {
                0
            } else if column - 1 > to - from {
                to - from
            } else {
                column - 1
            };
            lemma_boundary_at_or_before(s, from, from + from_start);
            let a = chars_before(s, start as int);
            let b = chars_before(s, offset as int);
            assert(byte_len(s.take(a)) == start);
            assert(byte_len(s.take(b)) == offset);
            if b < a {
                lemma_prefix_lengths(s, b, a);
            } else {
                lemma_prefix_lengths(s, a, b);
            }
        }
        let character: usize = self.utf16_prefix[offset] - self.utf16_prefix[start];
        if line_number > u32::MAX as usize || character > u32::MAX as usize {
            return None;
        }
        Some(Position { line: line_number as u32, character: character as u32 })
    }

    /// The range between two places; a start that is not there, or too far for a place,
    /// counts as the text's beginning, and such an end as the start.
    pub fn range(
        &self,
        line: usize,
        column: usize,
        end_line: usize,
        end_column: usize,
    ) -> (r: Range)
        requires
            self.wf(),
        ensures
            r.start == (match position_of(self.source@, line as int, column as int) {
                Some(start) => start,
                None => Position { line: 0, character: 0 },
            }),
            r.end == (match position_of(self.source@, end_line as int, end_column as int) {
                Some(end) => end,
                None => r.start,
            }),
    {
        let start = match self.position(line, column) {
            Some(start) => start,
            None => Position { line: 0, character: 0 },
        };
        let end = match self.position(end_line, end_column) {
            Some(end) => end,
            None => start,
        };
        Range { start, end }
    }
}

proof fn lemma_unix_lines_plain(s: Seq<char>, i: int)
    requires
        0 <= i <= s.len(),
    ensures
        forall|j: int|
            0 <= j < unix_lines(s, i).len() ==> #[trigger] unix_lines(s, i)[j] != '\r',
    decreases s.len() - i,
{
    if i < s.len() {
        let next = if s[i] == '\r' && i + 1 < s.len() && s[i + 1] == '\n' {
            i + 2
        } else {
            i + 1
        };
        lemma_unix_lines_plain(s, next);
        let rest = unix_lines(s, next);
        let all = unix_lines(s, i);
        assert(all.len() == rest.len() + 1);
        assert forall|j: int| 0 <= j < all.len() implies #[trigger] all[j] != '\r' by {
            if j > 0 {
                assert(all[j] == rest[j - 1]);
            }
        }
    }
}

proof fn lemma_unix_lines_same(s: Seq<char>, i: int)
    requires
        0 <= i <= s.len(),
        forall|j: int| 0 <= j < s.len() ==> #[trigger] s[j] != '\r',
    ensures
        unix_lines(s, i) == s.skip(i),
    decreases s.len() - i,
{
    if i < s.len() {
        lemma_unix_lines_same(s, i + 1);
        assert(s[i] != '\r');
        assert(seq![s[i]] + s.skip(i + 1) =~= s.skip(i));
    } else {
        assert(s.skip(i) =~= seq![]);
    }
}

/// A text with uniform line ends holds no `\r`, and making its line ends uniform again
/// changes nothing.
pub proof fn law_uniform_line_ends_stay(s: Seq<char>)
    ensures
        !unix_lines(s, 0).contains('\r'),
        unix_lines(unix_lines(s, 0), 0) == unix_lines(s, 0),
{
    let once = unix_lines(s, 0);
    lemma_unix_lines_plain(s, 0);
    assert(!once.contains('\r'));
    lemma_unix_lines_same(once, 0);
    assert(once.skip(0) =~= once);
}

} // verus!
