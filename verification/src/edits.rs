//! Changes of a document's text, and the reasons for which a text is refused.

use vstd::prelude::*;

use crate::limits::ResourceLimits;
use crate::strings::{
    byte_len, byte_length, chars_of, concat, concat3, decimal, string_from, to_decimal,
};
use crate::text::{
    boundary, char_units, char_width, chars_before, lemma_chars_before, lemma_prefix_lengths,
    lemma_take_next, lemma_utf8_concat, units, utf16_len,
};

verus! {

/// Why the text of an open document is not kept.
#[derive(Clone, Copy, Debug, PartialEq, Eq, Structural)]
pub enum RejectReason {
    FileTooLarge { bytes: usize, limit: usize },
    AccountingInconsistent,
    AccountingOverflow,
    TotalTooLarge { bytes: usize, limit: usize },
    Desynchronized,
    InvalidStart,
    InvalidEnd,
    Reversed,
    RangeLength { expected: u32, actual: usize },
    SizeOverflow,
    TooManyFiles { files: usize, limit: usize },
    NoRoom { limit: usize },
    RenameOverflow,
    RenameAbandoned,
    RenameMismatch,
    RenameTargetMismatch,
    RenameUnmatched,
    RenameNotAdmitted,
}

impl RejectReason {
    /// How the reason reads for the document `uri`.
    pub open spec fn text(&self, uri: Seq<char>) -> Seq<char> {
        match *self {
            RejectReason::FileTooLarge { bytes, limit } => "document "@ + uri + " is "@ + decimal(
                bytes as nat,
            ) + " bytes; the configured per-file limit is "@ + decimal(limit as nat),
            RejectReason::AccountingInconsistent =>
                "open document byte accounting is inconsistent"@,
            RejectReason::AccountingOverflow =>
                "open document byte accounting overflows the platform usize"@,
            RejectReason::TotalTooLarge { bytes, limit } => "open document text uses "@ + decimal(
                bytes as nat,
            ) + " bytes; the configured total source limit is "@ + decimal(limit as nat),
            RejectReason::Desynchronized =>
                "document is desynchronized; a full-document replacement is required before ranged changes"@,
            RejectReason::InvalidStart => "incremental change has an invalid start UTF-16 position"@,
            RejectReason::InvalidEnd => "incremental change has an invalid end UTF-16 position"@,
            RejectReason::Reversed => "incremental change range is reversed"@,
            RejectReason::RangeLength { expected, actual } => "incremental change rangeLength is "@
                + decimal(expected as nat) + " UTF-16 units, but the range replaces "@ + decimal(
                actual as nat,
            ),
            RejectReason::SizeOverflow => "incremental change size overflows the platform usize"@,
            RejectReason::TooManyFiles { files, limit } =>
                "retaining the open document would use "@ + decimal(files as nat)
                + " files; the configured file limit is "@ + decimal(limit as nat),
            RejectReason::NoRoom { limit } =>
                "retaining the open document would exceed the configured total source limit of "@
                + decimal(limit as nat) + " bytes"@,
            RejectReason::RenameOverflow =>
                "file-operation batch overflow invalidated a pending rename transition"@,
            RejectReason::RenameAbandoned =>
                "reconciliation budget overflow abandoned a multi-file rename batch; close and reopen this document"@,
            RejectReason::RenameMismatch =>
                "file rename transition did not match the planned provider overlay; close and reopen the document"@,
            RejectReason::RenameTargetMismatch =>
                "new-URI overlay did not match the exact planned provider transition; close and reopen the document"@,
            RejectReason::RenameUnmatched =>
                "unmatched workspace file rename invalidated this open document; close and reopen it"@,
            RejectReason::RenameNotAdmitted =>
                "transferred unit overlay failed workspace admission"@,
        }
    }

    /// How the reason reads for the document `uri`.
    pub fn message(&self, uri: &str) -> (r: String)
        ensures
            r@ == self.text(uri@),
    {
        match *self {
            RejectReason::FileTooLarge { bytes, limit } => {
                let head = concat3("document ", uri, " is ");
                let middle = concat3(
                    head.as_str(),
                    to_decimal(bytes).as_str(),
                    " bytes; the configured per-file limit is ",
                );
                concat(middle.as_str(), to_decimal(limit).as_str())
            },
            RejectReason::AccountingInconsistent =>
                "open document byte accounting is inconsistent".to_owned(),
            RejectReason::AccountingOverflow =>
                "open document byte accounting overflows the platform usize".to_owned(),
            RejectReason::TotalTooLarge { bytes, limit } => {
                let head = concat3(
                    "open document text uses ",
                    to_decimal(bytes).as_str(),
                    " bytes; the configured total source limit is ",
                );
                concat(head.as_str(), to_decimal(limit).as_str())
            },
            RejectReason::Desynchronized =>
                "document is desynchronized; a full-document replacement is required before ranged changes".to_owned(),
            RejectReason::InvalidStart =>
                "incremental change has an invalid start UTF-16 position".to_owned(),
            RejectReason::InvalidEnd =>
                "incremental change has an invalid end UTF-16 position".to_owned(),
            RejectReason::Reversed => "incremental change range is reversed".to_owned(),
            RejectReason::RangeLength { expected, actual } => {
                let head = concat3(
                    "incremental change rangeLength is ",
                    to_decimal(expected as usize).as_str(),
                    " UTF-16 units, but the range replaces ",
                );
                concat(head.as_str(), to_decimal(actual).as_str())
            },
            RejectReason::SizeOverflow =>
                "incremental change size overflows the platform usize".to_owned(),
            RejectReason::TooManyFiles { files, limit } => {
                let head = concat3(
                    "retaining the open document would use ",
                    to_decimal(files).as_str(),
                    " files; the configured file limit is ",
                );
                concat(head.as_str(), to_decimal(limit).as_str())
            },
            RejectReason::NoRoom { limit } => concat3(
                "retaining the open document would exceed the configured total source limit of ",
                to_decimal(limit).as_str(),
                " bytes",
            ),
            RejectReason::RenameOverflow =>
                "file-operation batch overflow invalidated a pending rename transition".to_owned(),
            RejectReason::RenameAbandoned =>
                "reconciliation budget overflow abandoned a multi-file rename batch; close and reopen this document".to_owned(),
            RejectReason::RenameMismatch =>
                "file rename transition did not match the planned provider overlay; close and reopen the document".to_owned(),
            RejectReason::RenameTargetMismatch =>
                "new-URI overlay did not match the exact planned provider transition; close and reopen the document".to_owned(),
            RejectReason::RenameUnmatched =>
                "unmatched workspace file rename invalidated this open document; close and reopen it".to_owned(),
            RejectReason::RenameNotAdmitted =>
                "transferred unit overlay failed workspace admission".to_owned(),
        }
    }
}

/// The part of a text that a change replaces, in bytes. A position that is not in the
/// text has no offset.
#[derive(Clone, Copy, Debug, PartialEq, Eq, Structural)]
pub struct ChangeRange {
    pub start: Option<usize>,
    pub end: Option<usize>,
}

/// One change of a document: of a part of it, or of the whole.
#[derive(Debug)]
pub struct ContentChange {
    pub range: Option<ChangeRange>,
    pub range_length: Option<u32>,
    pub text: String,
}

/// What a change stands for.
pub struct ChangeView {
    pub range: Option<ChangeRange>,
    pub range_length: Option<u32>,
    pub text: Seq<char>,
}

impl View for ContentChange {
    type V = ChangeView;

    open spec fn view(&self) -> ChangeView {
        ChangeView { range: self.range, range_length: self.range_length, text: self.text@ }
    }
}

/// What each change of a list stands for.
pub open spec fn change_views(changes: Seq<ContentChange>) -> Seq<ChangeView> {
    changes.map_values(|c: ContentChange| c@)
}

/// A text with its characters from `a` to `b` replaced.
pub open spec fn spliced(s: Seq<char>, a: int, b: int, replacement: Seq<char>) -> Seq<char> {
    s.take(a) + replacement + s.skip(b)
}

/// How many characters come before a byte offset, where it is a boundary of the text.
pub open spec fn char_at(s: Seq<char>, offset: Option<usize>) -> Option<int> {
    match offset {
        Some(offset) => if boundary(s, offset as int) {
            Some(chars_before(s, offset as int))
        } else {
            None
        },
        None => None,
    }
}

/// What the open documents of a workspace leave for one of them.
#[derive(Clone, Copy, Debug, PartialEq, Eq, Structural)]
pub struct TextRoom {
    pub limits: ResourceLimits,
    pub open_text_bytes: usize,
    pub previous_bytes: usize,
}

impl TextRoom {
    /// Why a text of `candidate` bytes has no room.
    pub open spec fn refusal(&self, candidate: int) -> Option<RejectReason> {
        let after = self.open_text_bytes - self.previous_bytes + candidate;
        if candidate > self.limits.max_file_bytes {
            Some(
                RejectReason::FileTooLarge {
                    bytes: candidate as usize,
                    limit: self.limits.max_file_bytes,
                },
            )
        } else if self.open_text_bytes < self.previous_bytes {
            Some(RejectReason::AccountingInconsistent)
        } else if after > usize::MAX {
            Some(RejectReason::AccountingOverflow)
        } else if after > self.limits.max_total_bytes {
            Some(
                RejectReason::TotalTooLarge {
                    bytes: after as usize,
                    limit: self.limits.max_total_bytes,
                },
            )
        } else {
            None
        }
    }

    /// Whether a text of `candidate_len` bytes has room, in its file and in all.
    pub fn validate_candidate_text(&self, candidate_len: usize) -> (r: Result<(), RejectReason>)
        ensures
            match r {
                Ok(_) => self.refusal(candidate_len as int) is None,
                Err(reason) => self.refusal(candidate_len as int) == Some(reason),
            },
    {
        if candidate_len > self.limits.max_file_bytes {
            return Err(
                RejectReason::FileTooLarge {
                    bytes: candidate_len,
                    limit: self.limits.max_file_bytes,
                },
            );
        }
        if self.open_text_bytes < self.previous_bytes {
            return Err(RejectReason::AccountingInconsistent);
        }
        let without: usize = self.open_text_bytes - self.previous_bytes;
        match without.checked_add(candidate_len) {
            Some(after) => {
                if after > self.limits.max_total_bytes {
                    Err(
                        RejectReason::TotalTooLarge {
                            bytes: after,
                            limit: self.limits.max_total_bytes,
                        },
                    )
                } else {
                    Ok(())
                }
            },
            None => Err(RejectReason::AccountingOverflow),
        }
    }
}

/// What one change makes of a text. `synchronized` says that the text is the client's.
pub open spec fn changed(
    room: TextRoom,
    text: Seq<char>,
    synchronized: bool,
    change: ChangeView,
) -> Result<Seq<char>, RejectReason> {
    match change.range {
        None => match room.refusal(byte_len(change.text) as int) {
            Some(reason) => Err(reason),
            None => Ok(change.text),
        },
        Some(range) => if !synchronized {
            Err(RejectReason::Desynchronized)
        } else if char_at(text, range.start) is None {
            Err(RejectReason::InvalidStart)
        } else if char_at(text, range.end) is None {
            Err(RejectReason::InvalidEnd)
        } else {
            let a = char_at(text, range.start)->0;
            let b = char_at(text, range.end)->0;
            let replaced = text.subrange(a, b);
            let length = byte_len(text) - (range.end->0 - range.start->0) + byte_len(change.text);
            if a > b {
                Err(RejectReason::Reversed)
            } else if change.range_length is Some && change.range_length->0 != utf16_len(replaced) {
                Err(
                    RejectReason::RangeLength {
                        expected: change.range_length->0,
                        actual: utf16_len(replaced) as usize,
                    },
                )
            } else if length > usize::MAX {
                Err(RejectReason::SizeOverflow)
            } else if room.refusal(length) is Some {
                Err(room.refusal(length)->0)
            } else {
                Ok(spliced(text, a, b, change.text))
            }
        },
    }
}

/// What the changes from `i` on make of a text, one after another: each is applied to
/// what the one before it left, and the first that is refused refuses them all.
pub open spec fn changed_by_all(
    room: TextRoom,
    text: Seq<char>,
    synchronized: bool,
    changes: Seq<ChangeView>,
    i: int,
) -> Result<Seq<char>, RejectReason>
    decreases changes.len() - i,
{
    if i < 0 || i >= changes.len() {
        Ok(text)
    } else {
        match changed(room, text, synchronized, changes[i]) {
            Err(reason) => Err(reason),
            Ok(next) => changed_by_all(
                room,
                next,
                synchronized || changes[i].range is None,
                changes,
                i + 1,
            ),
        }
    }
}

/// How many of the characters come before the byte `offset`, if it is a boundary.
pub fn char_index(chars: &Vec<char>, offset: usize) -> (r: Option<usize>)
    ensures
        match r {
            Some(k) => k <= chars@.len() && byte_len(chars@.take(k as int)) == offset && char_at(
                chars@,
                Some(offset),
            ) == Some(k as int),
            None => char_at(chars@, Some(offset)) is None,
        },
{
    let ghost s = chars@;
    let mut i: usize = 0;
    let mut byte: usize = 0;
    proof {
        lemma_prefix_lengths(s, 0, 0);
    }
    while i < chars.len() && byte < offset
        invariant
            s == chars@,
            i <= s.len(),
            byte == byte_len(s.take(i as int)),
            forall|k: int| 0 <= k < i ==> byte_len(#[trigger] s.take(k)) < offset,
        decreases s.len() - i,
    {
        let w: usize = char_width(chars[i]);
        proof {
            lemma_take_next(s, i as int);
        }
        if w > offset - byte {
            proof {
                assert forall|k: int| 0 <= k <= s.len() implies byte_len(#[trigger] s.take(k))
                    != offset by {
                    if k <= i {
                        lemma_prefix_lengths(s, k, i as int);
                    } else {
                        lemma_prefix_lengths(s, i + 1, k);
                    }
                }
            }
            return None;
        }
        byte += w;
        i += 1;
    }
    if byte == offset {
        proof {
            lemma_chars_before(s, i as int);
        }
        Some(i)
    } else {
        proof {
            assert forall|k: int| 0 <= k <= s.len() implies byte_len(#[trigger] s.take(k))
                != offset by {
                if i < k {
                    lemma_prefix_lengths(s, i as int, k);
                }
                if byte > offset {
                    lemma_prefix_lengths(s, 0, i as int);
                }
            }
        }
        None
    }
}

/// The UTF-16 units of the characters from `a` to `b`.
fn units_between(chars: &Vec<char>, a: usize, b: usize) -> (r: usize)
    requires
        a <= b <= chars@.len(),
        byte_len(chars@) <= usize::MAX,
    ensures
        r == utf16_len(chars@.subrange(a as int, b as int)),
{
    let mut r: usize = 0;
    let mut i: usize = a;
    let ghost part = chars@.subrange(a as int, b as int);
    proof {
        assert(part.take(0) =~= seq![]);
        assert(chars@ =~= chars@.take(a as int) + part + chars@.skip(b as int));
        lemma_utf8_concat(chars@.take(a as int) + part, chars@.skip(b as int));
        lemma_utf8_concat(chars@.take(a as int), part);
    }
    while i < b
        invariant
            a <= i <= b <= chars@.len(),
            part == chars@.subrange(a as int, b as int),
            byte_len(part) <= usize::MAX,
            r == utf16_len(part.take(i - a)),
        decreases b - i,
    {
        let u: usize = char_units(chars[i]);
        proof {
            lemma_take_next(part, i - a);
            lemma_prefix_lengths(part, 0, i - a + 1);
        }
        r += u;
        i += 1;
    }
    proof {
        assert(part.take(b - a) =~= part);
    }
    r
}

/// A text with its characters from `a` to `b` replaced.
pub fn replace_chars(chars: &Vec<char>, a: usize, b: usize, replacement: &str) -> (r: String)
    requires
        a <= b <= chars@.len(),
    ensures
        r@ == spliced(chars@, a as int, b as int, replacement@),
{
    let length: usize = chars.len();
    let head = string_from(chars, 0, a);
    let tail = string_from(chars, b, length);
    let r = concat3(head.as_str(), replacement, tail.as_str());
    proof {
        assert(chars@.subrange(0, a as int) =~= chars@.take(a as int));
        assert(chars@.subrange(b as int, length as int) =~= chars@.skip(b as int));
    }
    r
}

/// Applies one change to a text.
pub fn apply_change(room: &TextRoom, text: &str, synchronized: bool, change: &ContentChange) -> (r:
    Result<String, RejectReason>)
    ensures
        match r {
            Ok(next) => changed(*room, text@, synchronized, change@) == Ok::<
                Seq<char>,
                RejectReason,
            >(next@),
            Err(reason) => changed(*room, text@, synchronized, change@) == Err::<
                Seq<char>,
                RejectReason,
            >(reason),
        },
{
    let added: usize = byte_length(change.text.as_str());
    let range = match change.range {
        Some(range) => range,
        None => {
            return match room.validate_candidate_text(added) {
                Ok(_) => Ok(change.text.clone()),
                Err(reason) => Err(reason),
            };
        },
    };
    if !synchronized {
        return Err(RejectReason::Desynchronized);
    }
    let chars = chars_of(text);
    let total: usize = byte_length(text);
    let start: usize = match range.start {
        Some(start) => start,
        None => {
            return Err(RejectReason::InvalidStart);
        },
    };
    let a: usize = match char_index(&chars, start) {
        Some(a) => a,
        None => {
            return Err(RejectReason::InvalidStart);
        },
    };
    let end: usize = match range.end {
        Some(end) => end,
        None => {
            return Err(RejectReason::InvalidEnd);
        },
    };
    let b: usize = match char_index(&chars, end) {
        Some(b) => b,
        None => {
            return Err(RejectReason::InvalidEnd);
        },
    };
    if a > b {
        return Err(RejectReason::Reversed);
    }
    if let Some(expected) = change.range_length {
        let actual: usize = units_between(&chars, a, b);
        if actual != expected as usize {
            return Err(RejectReason::RangeLength { expected, actual });
        }
    }
    proof {
        lemma_prefix_lengths(text@, a as int, b as int);
    }
    let kept: usize = total - (end - start);
    let length: usize = match kept.checked_add(added) {
        Some(length) => length,
        None => {
            return Err(RejectReason::SizeOverflow);
        },
    };
    match room.validate_candidate_text(length) {
        Ok(_) => Ok(replace_chars(&chars, a, b, change.text.as_str())),
        Err(reason) => Err(reason),
    }
}

/// Applies changes to a text, one after another. Nothing comes of them where one is
/// refused.
pub fn apply_changes(
    room: &TextRoom,
    text: &str,
    synchronized: bool,
    changes: &Vec<ContentChange>,
) -> (r: Result<String, RejectReason>)
    ensures
        match r {
            Ok(next) => changed_by_all(
                *room,
                text@,
                synchronized,
                change_views(changes@),
                0,
            ) == Ok::<Seq<char>, RejectReason>(next@),
            Err(reason) => changed_by_all(
                *room,
                text@,
                synchronized,
                change_views(changes@),
                0,
            ) == Err::<Seq<char>, RejectReason>(reason),
        },
{
    let mut candidate = text.to_owned();
    let mut in_step = synchronized;
    let mut i: usize = 0;
    let ghost views = change_views(changes@);
    while i < changes.len()
        invariant
            i <= changes@.len(),
            views == change_views(changes@),
            changed_by_all(*room, text@, synchronized, views, 0) == changed_by_all(
                *room,
                candidate@,
                in_step,
                views,
                i as int,
            ),
        decreases changes@.len() - i,
    {
        proof {
            assert(views[i as int] == changes@[i as int]@);
        }
        match apply_change(room, candidate.as_str(), in_step, &changes[i]) {
            Ok(next) => {
                candidate = next;
            },
            Err(reason) => {
                return Err(reason);
            },
        }
        if changes[i].range.is_none() {
            in_step = true;
        }
        i += 1;
    }
    Ok(candidate)
}

/// A text with a part replaced has the bytes of what is left and of the replacement.
proof fn lemma_spliced_bytes(s: Seq<char>, a: int, b: int, replacement: Seq<char>)
    requires
        0 <= a <= b <= s.len(),
    ensures
        byte_len(spliced(s, a, b, replacement)) == byte_len(s) - (byte_len(s.take(b)) - byte_len(
            s.take(a),
        )) + byte_len(replacement),
{
    lemma_utf8_concat(s.take(a) + replacement, s.skip(b));
    lemma_utf8_concat(s.take(a), replacement);
    lemma_utf8_concat(s.take(b), s.skip(b));
    assert(s.take(b) + s.skip(b) =~= s);
}

/// What a change makes of a text has room.
pub proof fn law_changed_texts_have_room(
    room: TextRoom,
    text: Seq<char>,
    synchronized: bool,
    change: ChangeView,
)
    ensures
        changed(room, text, synchronized, change) matches Ok(next) ==> room.refusal(
            byte_len(next) as int,
        ) is None,
{
    if change.range is Some && changed(room, text, synchronized, change) is Ok {
        let range = change.range->0;
        let a = char_at(text, range.start)->0;
        let b = char_at(text, range.end)->0;
        let k = choose|k: int|
            0 <= k <= text.len() && byte_len(#[trigger] text.take(k)) == range.start->0;
        lemma_chars_before(text, k);
        let m = choose|m: int|
            0 <= m <= text.len() && byte_len(#[trigger] text.take(m)) == range.end->0;
        lemma_chars_before(text, m);
        lemma_spliced_bytes(text, a, b, change.text);
    }
}

/// What changes make of a text has room, where there is a change at all.
pub proof fn law_all_changes_have_room(
    room: TextRoom,
    text: Seq<char>,
    synchronized: bool,
    changes: Seq<ChangeView>,
    i: int,
)
    requires
        0 <= i < changes.len(),
    ensures
        changed_by_all(room, text, synchronized, changes, i) matches Ok(next) ==> room.refusal(
            byte_len(next) as int,
        ) is None,
    decreases changes.len() - i,
{
    law_changed_texts_have_room(room, text, synchronized, changes[i]);
    match changed(room, text, synchronized, changes[i]) {
        Ok(next) => {
            if i + 1 < changes.len() {
                law_all_changes_have_room(
                    room,
                    next,
                    synchronized || changes[i].range is None,
                    changes,
                    i + 1,
                );
            } else {
                assert(changed_by_all(
                    room,
                    next,
                    synchronized || changes[i].range is None,
                    changes,
                    i + 1,
                ) == Ok::<Seq<char>, RejectReason>(next));
            }
        },
        Err(_) => {},
    }
}

/// A replacement of the whole text makes a text synchronized whatever it was before:
/// what follows it is applied to the client's text.
pub proof fn law_full_replacement_resynchronizes(
    room: TextRoom,
    before: Seq<char>,
    other: Seq<char>,
    change: ChangeView,
    rest: Seq<ChangeView>,
)
    requires
        change.range is None,
    ensures
        changed_by_all(room, before, false, seq![change] + rest, 0) == changed_by_all(
            room,
            other,
            true,
            seq![change] + rest,
            0,
        ),
{
    let all = seq![change] + rest;
    assert(all[0] == change);
}

/// A text that is out of step with the client's stays so under changes of parts of it.
pub proof fn law_ranged_changes_need_a_text_in_step(
    room: TextRoom,
    text: Seq<char>,
    changes: Seq<ChangeView>,
)
    requires
        changes.len() > 0,
        changes[0].range is Some,
    ensures
        changed_by_all(room, text, false, changes, 0) == Err::<Seq<char>, RejectReason>(
            RejectReason::Desynchronized,
        ),
{
}

/// A batch of changes is what its parts are, one after the other.
pub proof fn law_changes_apply_in_sequence(
    room: TextRoom,
    text: Seq<char>,
    synchronized: bool,
    changes: Seq<ChangeView>,
)
    requires
        changes.len() > 0,
    ensures
        changed_by_all(room, text, synchronized, changes, 0) == (match changed(
            room,
            text,
            synchronized,
            changes[0],
        ) {
            Ok(next) => changed_by_all(
                room,
                next,
                synchronized || changes[0].range is None,
                changes.drop_first(),
                0,
            ),
            Err(reason) => Err::<Seq<char>, RejectReason>(reason),
        }),
{
    if let Ok(next) = changed(room, text, synchronized, changes[0]) {
        lemma_shift(
            room,
            next,
            synchronized || changes[0].range is None,
            changes,
            0,
        );
    }
}

proof fn lemma_shift(
    room: TextRoom,
    text: Seq<char>,
    synchronized: bool,
    changes: Seq<ChangeView>,
    i: int,
)
    requires
        changes.len() > 0,
        0 <= i,
    ensures
        changed_by_all(room, text, synchronized, changes, i + 1) == changed_by_all(
            room,
            text,
            synchronized,
            changes.drop_first(),
            i,
        ),
    decreases changes.len() - i,
{
    if i + 1 < changes.len() {
        assert(changes.drop_first()[i] == changes[i + 1]);
        if let Ok(next) = changed(room, text, synchronized, changes[i + 1]) {
            lemma_shift(
                room,
                next,
                synchronized || changes[i + 1].range is None,
                changes,
                i + 1,
            );
        }
    }
}

} // verus!
