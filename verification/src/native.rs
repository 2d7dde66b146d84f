//! The names of files as bytes, and the characters that such a name is held as.
//!
//! The name of a file is a sequence of bytes. One that is text in UTF-8 is held as that text,
//! another one character for each byte: below 128 the character of the byte, above it one of
//! the last 128 characters that there are. Where one of these characters itself occurs in a
//! text, it is held as its four bytes.

use vstd::prelude::*;
use vstd::utf8::{decode_utf8, encode_scalar, valid_utf8};

use crate::strings::{chars_of, utf8};
use crate::text::{lemma_byte_len_one, lemma_utf8_concat};

verus! {

/// `char::from_u32` gives the character with a number. There is one exactly for a number up
/// to `0x10FFFF` that is no surrogate.
pub assume_specification[ char::from_u32 ](i: u32) -> (r: Option<char>)
    ensures
        (r is Some) == (i <= 0x10FFFF && !(0xD800 <= i <= 0xDFFF)),
        r is Some ==> r->0 as u32 == i,
;

/// What `String::from_utf8_lossy` makes of bytes.
pub uninterp spec fn utf8_lossy(bytes: Seq<u8>) -> Seq<char>;

/// `String::from_utf8`: the text that bytes are in UTF-8. There is one exactly for bytes that
/// are valid.
#[verifier::external_body]
fn text_of_bytes(bytes: Vec<u8>) -> (r: Option<String>)
    ensures
        (r is Some) == valid_utf8(bytes@),
        r is Some ==> r->0@ == decode_utf8(bytes@),
{
    String::from_utf8(bytes).ok()
}

/// `String::from_utf8_lossy`: the text of bytes, in which what is not UTF-8 is replaced. The
/// result depends on the bytes alone, and valid bytes are their text.
#[verifier::external_body]
fn lossy_text(bytes: &Vec<u8>) -> (r: String)
    ensures
        r@ == utf8_lossy(bytes@),
        valid_utf8(bytes@) ==> r@ == decode_utf8(bytes@),
{
    String::from_utf8_lossy(bytes).into_owned()
}

/// A character that stands for a single byte.
pub open spec fn is_held(c: char) -> bool {
    c as u32 >= 0x10FF80
}

/// The character that a byte is held as.
pub open spec fn held_byte(b: u8) -> char {
    if b < 0x80 {
        b as char
    } else {
        (0x10FF00 + b) as char
    }
}

/// A name that is not held as its text alone.
pub open spec fn has_held(name: Seq<char>) -> bool {
    exists|i: int| 0 <= i < name.len() && is_held(#[trigger] name[i])
}

/// The characters that a character of a text is held as.
pub open spec fn escaped_char(c: char) -> Seq<char> {
    if is_held(c) {
        let n = c as u32 - 0x10FF80;
        seq![
            held_byte(0xF4),
            held_byte(0x8F),
            held_byte((0xBE + n / 64) as u8),
            held_byte((0x80 + n % 64) as u8),
        ]
    } else {
        seq![c]
    }
}

/// The characters that a text is held as.
pub open spec fn escaped(s: Seq<char>) -> Seq<char>
    decreases s.len(),
{
    if s.len() == 0 {
        seq![]
    } else {
        escaped(s.drop_last()) + escaped_char(s.last())
    }
}

/// Bytes, each held as a character.
pub open spec fn bytewise(bytes: Seq<u8>) -> Seq<char> {
    bytes.map_values(|b: u8| held_byte(b))
}

/// The characters that the bytes of a name are held as.
pub open spec fn name_of_bytes(bytes: Seq<u8>) -> Seq<char> {
    if valid_utf8(bytes) {
        escaped(decode_utf8(bytes))
    } else {
        bytewise(bytes)
    }
}

/// The bytes that a character stands for.
pub open spec fn char_bytes(c: char) -> Seq<u8> {
    if is_held(c) {
        seq![(c as u32 - 0x10FF00) as u8]
    } else {
        encode_scalar(c as u32)
    }
}

/// The bytes of a name.
pub open spec fn name_bytes(name: Seq<char>) -> Seq<u8>
    decreases name.len(),
{
    if name.len() == 0 {
        seq![]
    } else {
        name_bytes(name.drop_last()) + char_bytes(name.last())
    }
}

/// A name as it is shown: what is not text is replaced.
pub open spec fn shown(name: Seq<char>) -> Seq<char> {
    if has_held(name) {
        utf8_lossy(name_bytes(name))
    } else {
        name
    }
}

/// The text that a name is, if it is one.
pub open spec fn name_text(name: Seq<char>) -> Option<Seq<char>> {
    if !has_held(name) {
        Some(name)
    } else if valid_utf8(name_bytes(name)) {
        Some(decode_utf8(name_bytes(name)))
    } else {
        None
    }
}

/// A name that is held as its bytes are.
pub open spec fn is_settled(name: Seq<char>) -> bool {
    name_of_bytes(name_bytes(name)) == name
}

proof fn lemma_held_bytes(b: u8)
    ensures
        char_bytes(held_byte(b)) == seq![b],
        is_held(held_byte(b)) == (b >= 0x80),
{
    if b < 0x80 {
        let c = b as u32;
        assert((c & 0x7F) as u8 == b) by (bit_vector)
            requires
                c == b as u32,
                b < 0x80,
        ;
        assert(encode_scalar(c) =~= seq![b]);
        assert((b as char) as u32 == c);
    } else {
        let c = (0x10FF00 + b) as u32;
        assert(held_byte(b) as u32 == c);
    }
}

/// Bytes that are held one by one are given back.
pub proof fn lemma_bytewise(bytes: Seq<u8>)
    ensures
        name_bytes(bytewise(bytes)) == bytes,
    decreases bytes.len(),
{
    let name = bytewise(bytes);
    if bytes.len() > 0 {
        lemma_bytewise(bytes.drop_last());
        lemma_held_bytes(bytes.last());
        assert(name.drop_last() =~= bytewise(bytes.drop_last()));
        assert(name.last() == held_byte(bytes.last()));
        assert(bytes.drop_last() + seq![bytes.last()] =~= bytes);
    } else {
        assert(name_bytes(name) =~= bytes);
    }
}

/// The bytes of two names one after the other.
pub proof fn lemma_name_bytes_concat(a: Seq<char>, b: Seq<char>)
    ensures
        name_bytes(a + b) == name_bytes(a) + name_bytes(b),
    decreases b.len(),
{
    if b.len() == 0 {
        assert(a + b =~= a);
        assert(name_bytes(a) + name_bytes(b) =~= name_bytes(a));
    } else {
        lemma_name_bytes_concat(a, b.drop_last());
        assert((a + b).drop_last() =~= a + b.drop_last());
        assert(name_bytes(a + b) =~= name_bytes(a) + name_bytes(b));
    }
}

proof fn lemma_escaped_char(c: char)
    ensures
        name_bytes(escaped_char(c)) == encode_scalar(c as u32),
{
    let name = escaped_char(c);
    if is_held(c) {
        let u = c as u32;
        let n = (u - 0x10FF80) as u32;
        let b3 = (0xBE + n / 64) as u8;
        let b4 = (0x80 + n % 64) as u8;
        assert(0xF0u8 | ((u >> 18) & 0x7) as u8 == 0xF4u8) by (bit_vector)
            requires
                0x10FF80 <= u <= 0x10FFFF,
        ;
        assert(0x80u8 | ((u >> 12) & 0x3F) as u8 == 0x8Fu8) by (bit_vector)
            requires
                0x10FF80 <= u <= 0x10FFFF,
        ;
        assert(0x80u8 | ((u >> 6) & 0x3F) as u8 == b3) by (bit_vector)
            requires
                0x10FF80 <= u <= 0x10FFFF,
                u == 0x10FF80 + n,
                b3 == 0xBE + n / 64,
        ;
        assert(0x80u8 | (u & 0x3F) as u8 == b4) by (bit_vector)
            requires
                0x10FF80 <= u <= 0x10FFFF,
                u == 0x10FF80 + n,
                b4 == 0x80 + n % 64,
        ;
        let bytes = seq![0xF4u8, 0x8Fu8, b3, b4];
        assert(name =~= bytewise(bytes));
        lemma_bytewise(bytes);
        assert(encode_scalar(u) =~= bytes);
    } else {
        let none: Seq<char> = seq![];
        assert(name.drop_last() =~= none);
        assert(name_bytes(none) =~= seq![]);
        assert(name_bytes(name) =~= char_bytes(c));
    }
}

proof fn lemma_escaped_bytes(s: Seq<char>)
    ensures
        name_bytes(escaped(s)) == utf8(s),
    decreases s.len(),
{
    if s.len() == 0 {
        assert(name_bytes(escaped(s)) =~= utf8(s));
    } else {
        lemma_escaped_bytes(s.drop_last());
        lemma_escaped_char(s.last());
        lemma_name_bytes_concat(escaped(s.drop_last()), escaped_char(s.last()));
        lemma_utf8_concat(s.drop_last(), seq![s.last()]);
        lemma_byte_len_one(s.last());
        assert(s.drop_last() + seq![s.last()] =~= s);
    }
}

/// A name has the bytes that it was made of, so that the names of different bytes differ.
pub proof fn law_names_have_their_bytes(bytes: Seq<u8>)
    ensures
        name_bytes(name_of_bytes(bytes)) == bytes,
        is_settled(name_of_bytes(bytes)),
{
    if valid_utf8(bytes) {
        lemma_escaped_bytes(decode_utf8(bytes));
        vstd::utf8::decode_utf8_encode_utf8(bytes);
    } else {
        lemma_bytewise(bytes);
    }
}

/// A text has a name with its bytes, and where no character stands for a byte that name is
/// the text.
pub proof fn law_texts_are_names(s: Seq<char>)
    ensures
        name_of_bytes(utf8(s)) == escaped(s),
        name_bytes(escaped(s)) == utf8(s),
        !has_held(s) ==> escaped(s) == s,
{
    vstd::utf8::encode_utf8_valid_utf8(s);
    vstd::utf8::encode_utf8_decode_utf8(s);
    lemma_escaped_bytes(s);
    if !has_held(s) {
        lemma_unheld(s);
    }
}

proof fn lemma_unheld(s: Seq<char>)
    requires
        !has_held(s),
    ensures
        escaped(s) == s,
    decreases s.len(),
{
    if s.len() > 0 {
        let before = s.drop_last();
        assert forall|i: int| 0 <= i < before.len() implies !is_held(#[trigger] before[i]) by {
            assert(before[i] == s[i]);
        }
        lemma_unheld(before);
        assert(!is_held(s[s.len() - 1]));
        assert(before + seq![s.last()] =~= s);
    } else {
        assert(escaped(s) =~= s);
    }
}

fn hold_byte(b: u8) -> (r: char)
    ensures
        r == held_byte(b),
{
    if b < 0x80 {
        return b as char;
    }
    let number: u32 = 0x10FF00 + b as u32;
    match char::from_u32(number) {
        Some(c) => {
            proof {
                vstd::utf8::char_u32_cast(c, number);
            }
            c
        },
        None => b as char,
    }
}

/// The characters that bytes are held as, one by one.
pub fn hold_bytes(bytes: &Vec<u8>) -> (r: String)
    ensures
        r@ == bytewise(bytes@),
{
    let mut r = String::new();
    let mut i: usize = 0;
    proof {
        assert(r@ =~= bytewise(bytes@).take(0));
    }
    while i < bytes.len()
        invariant
            i <= bytes@.len(),
            r@ == bytewise(bytes@).take(i as int),
        decreases bytes@.len() - i,
    {
        r.push(hold_byte(bytes[i]));
        proof {
            assert(bytewise(bytes@).take(i + 1) =~= bytewise(bytes@).take(i as int).push(
                held_byte(bytes@[i as int]),
            ));
        }
        i += 1;
    }
    proof {
        assert(bytewise(bytes@).take(bytes@.len() as int) =~= bytewise(bytes@));
    }
    r
}

/// Whether a name is not held as its text alone.
pub fn holds_bytes(name: &str) -> (r: bool)
    ensures
        r == has_held(name@),
{
    let chars = chars_of(name);
    let mut i: usize = 0;
    while i < chars.len()
        invariant
            i <= chars@.len(),
            chars@ == name@,
            forall|j: int| 0 <= j < i ==> !is_held(#[trigger] name@[j]),
        decreases chars@.len() - i,
    {
        if chars[i] as u32 >= 0x10FF80 {
            proof {
                assert(is_held(name@[i as int]));
            }
            return true;
        }
        i += 1;
    }
    false
}

/// The characters that a text is held as.
pub fn escape(text: &str) -> (r: String)
    ensures
        r@ == escaped(text@),
{
    if !holds_bytes(text) {
        proof {
            law_texts_are_names(text@);
        }
        return text.to_owned();
    }
    let chars = chars_of(text);
    let mut r = String::new();
    let mut i: usize = 0;
    proof {
        assert(r@ =~= escaped(text@.take(0)));
    }
    while i < chars.len()
        invariant
            i <= chars@.len(),
            chars@ == text@,
            r@ == escaped(text@.take(i as int)),
        decreases chars@.len() - i,
    {
        let c = chars[i];
        let ghost before = r@;
        if c as u32 >= 0x10FF80 {
            let n: u32 = c as u32 - 0x10FF80;
            r.push(hold_byte(0xF4));
            r.push(hold_byte(0x8F));
            r.push(hold_byte((0xBE + n / 64) as u8));
            r.push(hold_byte((0x80 + n % 64) as u8));
        } else {
            r.push(c);
        }
        proof {
            assert(r@ =~= before + escaped_char(c));
            assert(text@.take(i + 1).drop_last() =~= text@.take(i as int));
            assert(text@.take(i + 1).last() == c);
        }
        i += 1;
    }
    proof {
        assert(text@.take(text@.len() as int) =~= text@);
    }
    r
}

/// The name that has some bytes.
pub fn name_from_bytes(bytes: Vec<u8>) -> (r: String)
    ensures
        r@ == name_of_bytes(bytes@),
        name_bytes(r@) == bytes@,
{
    proof {
        law_names_have_their_bytes(bytes@);
    }
    let one_by_one = hold_bytes(&bytes);
    match text_of_bytes(bytes) {
        Some(text) => escape(text.as_str()),
        None => one_by_one,
    }
}

/// The bytes of a name.
pub fn bytes_of_name(name: &str) -> (r: Vec<u8>)
    ensures
        r@ == name_bytes(name@),
{
    let chars = chars_of(name);
    let mut r: Vec<u8> = Vec::new();
    let mut i: usize = 0;
    proof {
        assert(r@ =~= name_bytes(name@.take(0)));
    }
    while i < chars.len()
        invariant
            i <= chars@.len(),
            chars@ == name@,
            r@ == name_bytes(name@.take(i as int)),
        decreases chars@.len() - i,
    {
        let c = chars[i];
        let ghost before = r@;
        if c as u32 >= 0x10FF80 {
            r.push((c as u32 - 0x10FF00) as u8);
            proof {
                assert(r@ =~= before + char_bytes(c));
            }
        } else {
            let mut text = String::new();
            text.push(c);
            let encoded = text.as_str().as_bytes();
            let mut k: usize = 0;
            proof {
                assert(text@ =~= seq![c]);
                lemma_byte_len_one(c);
                assert(encoded@ == encode_scalar(c as u32));
                assert(before + encoded@.take(0) =~= before);
            }
            while k < encoded.len()
                invariant
                    k <= encoded@.len(),
                    r@ == before + encoded@.take(k as int),
                decreases encoded@.len() - k,
            {
                r.push(encoded[k]);
                proof {
                    assert(before + encoded@.take(k + 1) =~= (before + encoded@.take(
                        k as int,
                    )).push(encoded@[k as int]));
                }
                k += 1;
            }
            proof {
                assert(encoded@.take(encoded@.len() as int) =~= encoded@);
            }
        }
        proof {
            assert(name@.take(i + 1).drop_last() =~= name@.take(i as int));
            assert(name@.take(i + 1).last() == c);
        }
        i += 1;
    }
    proof {
        assert(name@.take(name@.len() as int) =~= name@);
    }
    r
}

/// A name as it is shown.
pub fn show(name: &str) -> (r: String)
    ensures
        r@ == shown(name@),
{
    if holds_bytes(name) {
        lossy_text(&bytes_of_name(name))
    } else {
        name.to_owned()
    }
}

/// The text that a name is, if it is one.
pub fn text_of_name(name: &str) -> (r: Option<String>)
    ensures
        match r {
            Some(text) => name_text(name@) == Some(text@),
            None => name_text(name@) is None,
        },
{
    if holds_bytes(name) {
        text_of_bytes(bytes_of_name(name))
    } else {
        Some(name.to_owned())
    }
}

} // verus!
