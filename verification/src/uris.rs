//! Document URIs and the files they name.
//!
//! A URI is held as its text. Two URIs are the same where their texts are.

use vstd::prelude::*;

use crate::native::{
    bytes_of_name, bytewise, has_held, held_byte, is_held, law_texts_are_names, lemma_bytewise,
    lemma_name_bytes_concat, name_bytes,
};
use crate::path_laws::{is_straight, law_normal_paths_are_straight, law_straight_paths_are_normal};
use crate::path_texts::{
    all_settled, law_bytes_are_read_as_clean_paths, law_normal_paths_are_clean,
    law_normal_paths_are_settled, law_paths_are_read_from_their_bytes,
    law_texts_are_read_as_their_bytes, lemma_spelled_plain, lemma_spelled_straight,
};
use crate::paths::{
    absolute_path, bytes_parts, is_absolute, is_clean, joined, normalized, parse_parts,
    path_bytes, split_parts, written, FilePath, Parts,
};
use crate::strings::{chars_of, concat};

verus! {

/// What `Url::to_file_path` gives for the URL that a text is parsed as: the path of that
/// file, as `Url::from_file_path` writes it.
pub uninterp spec fn url_file_path(uri: Seq<char>) -> Option<Seq<char>>;

/// What `Url::from_file_path` gives for the path with some bytes, as text.
pub uninterp spec fn file_path_url(bytes: Seq<u8>) -> Option<Seq<char>>;

/// The hexadecimal digit of a number.
pub open spec fn hex_digit(n: int) -> char {
    if n < 10 {
        ('0' as u32 + n) as char
    } else {
        ('A' as u32 + n - 10) as char
    }
}

/// The number of a hexadecimal digit.
pub open spec fn hex_value(c: char) -> Option<int> {
    if '0' <= c <= '9' {
        Some(c as int - '0' as int)
    } else if 'A' <= c <= 'F' {
        Some(c as int - 'A' as int + 10)
    } else if 'a' <= c <= 'f' {
        Some(c as int - 'a' as int + 10)
    } else {
        None
    }
}

/// Bytes, each written as a percent sign and two digits.
pub open spec fn percents(bytes: Seq<u8>) -> Seq<char>
    decreases bytes.len(),
{
    if bytes.len() == 0 {
        seq![]
    } else {
        let b = bytes.last() as int;
        percents(bytes.drop_last()) + seq!['%', hex_digit(b / 16), hex_digit(b % 16)]
    }
}

/// A URL that spells out the bytes of a path.
pub open spec fn spelled_url(bytes: Seq<u8>) -> Seq<char> {
    "file:///"@ + percents(bytes)
}

/// The URL spells out the bytes of a path that starts at the root.
pub open spec fn spells_out(url: Seq<char>, bytes: Seq<u8>) -> bool {
    url == spelled_url(bytes) && bytes.len() > 0 && bytes[0] == 0x2F
}

/// The byte that is written from `i` on with a percent sign and two digits.
pub open spec fn percent_at(s: Seq<char>, i: int) -> Option<u8> {
    if i + 2 < s.len() && s[i] == '%' && hex_value(s[i + 1]) is Some && hex_value(
        s[i + 2],
    ) is Some {
        Some((16 * hex_value(s[i + 1])->0 + hex_value(s[i + 2])->0) as u8)
    } else {
        None
    }
}

/// The bytes that a text writes from `i` on, some of them with a percent sign.
pub open spec fn percent_decoded(s: Seq<char>, i: int) -> Seq<u8>
    decreases s.len() - i,
{
    if i < 0 || i >= s.len() {
        seq![]
    } else {
        match percent_at(s, i) {
            Some(b) => seq![b] + percent_decoded(s, i + 3),
            None => name_bytes(seq![s[i]]) + percent_decoded(s, i + 1),
        }
    }
}

/// The bytes of the path that a URL names, from the path as it is written there.
pub open spec fn written_bytes(path: Seq<char>) -> Seq<u8> {
    percent_decoded(path, 0)
}

/// What an optional string holds.
pub open spec fn optional_text(s: Option<String>) -> Option<Seq<char>> {
    match s {
        Some(s) => Some(s@),
        None => None,
    }
}

/// What an optional path stands for.
pub open spec fn optional_parts(p: Option<FilePath>) -> Option<Parts> {
    match p {
        Some(p) => Some(p@),
        None => None,
    }
}

/// A character that a URL holds as it is.
pub open spec fn is_plain(c: char) -> bool {
    ||| 'a' <= c <= 'z'
    ||| 'A' <= c <= 'Z'
    ||| '0' <= c <= '9'
    ||| c == '/' || c == '.' || c == '-' || c == '_'
}

/// A text without the two characters that mark a drive, and not so long that a URL of it
/// could not be measured.
pub open spec fn has_no_drive(text: Seq<char>) -> bool {
    &&& text.len() <= 0x1000_0000
    &&& forall|i: int| 0 <= i < text.len() ==> #[trigger] text[i] != ':' && text[i] != '|'
}

/// A path that is written as its parts are, without `.` and `..` among them.
pub open spec fn is_spelled_out(text: Seq<char>) -> bool {
    written(split_parts(text)) == text && is_straight(split_parts(text))
}

/// A path from the root that stands in a URL as it is.
pub open spec fn is_plain_path(text: Seq<char>) -> bool {
    &&& 0 < text.len() <= 0x1000_0000
    &&& text[0] == '/'
    &&& is_spelled_out(text)
    &&& forall|i: int| 0 <= i < text.len() ==> is_plain(#[trigger] text[i])
}

/// `lsp_types::Url::to_file_path` on the URL that the text is parsed as. What comes back is
/// the path as `Url::from_file_path` writes it, in which a byte that is no plain character
/// may stand as a percent sign and two digits. The result depends on the text alone, and
/// every path starts at the root. A plain path behind `file://` comes back as it is. A text
/// that is no URL and a URL that names no local file have none.
#[verifier::external_body]
fn to_file_path(uri: &str) -> (r: Option<String>)
    ensures
        optional_text(r) == url_file_path(uri@),
        r is Some ==> r->0@.len() > 0 && r->0@[0] == '/',
        uri@.len() > 7 && uri@.take(7) == "file://"@ && is_plain_path(uri@.skip(7)) ==> r is Some
            && r->0@ == uri@.skip(7),
{
    let path = lsp_types::Url::parse(uri).ok()?.to_file_path().ok()?;
    lsp_types::Url::from_file_path(path).ok().map(|url| url.path().to_owned())
}

/// `lsp_types::Url::from_file_path` on a path that starts at the root. The path is made of
/// the URL that spells out its bytes, by `Url::to_file_path`. The result depends on the bytes
/// alone, and up to `0x1000_0000` of them there is one; of longer paths nothing is said. A
/// plain path stands behind `file://` as it is. `Url::to_file_path` gives the bytes back from
/// the text of the URL where the path is spelled out and nothing in it is taken for a drive.
#[verifier::external_body]
fn from_file_path(spelled: &str) -> (r: Option<String>)
    ensures
        forall|bytes: Seq<u8>| #[trigger]
            spells_out(spelled@, bytes) ==> optional_text(r) == file_path_url(bytes),
        forall|bytes: Seq<u8>| #[trigger]
            spells_out(spelled@, bytes) && bytes.len() <= 0x1000_0000 ==> r is Some,
        forall|bytes: Seq<u8>| #[trigger]
            spells_out(spelled@, bytes) && is_plain_path(bytewise(bytes)) ==> r->0@ == "file://"@
                + bytewise(bytes),
        forall|bytes: Seq<u8>| #[trigger]
            spells_out(spelled@, bytes) && r is Some && is_spelled_out(bytewise(bytes))
                && has_no_drive(bytewise(bytes)) ==> url_file_path(r->0@) is Some && written_bytes(
                url_file_path(r->0@)->0,
            ) == bytes,
{
    let path = lsp_types::Url::parse(spelled).ok()?.to_file_path().ok()?;
    lsp_types::Url::from_file_path(path).ok().map(|url| url.to_string())
}

/// A path with `.` and `..` taken out.
pub open spec fn normal(p: Parts) -> Parts {
    normalized(p, p.len() as int)
}

/// The file that a URI names.
pub open spec fn uri_path(uri: Seq<char>) -> Option<Parts> {
    match url_file_path(uri) {
        Some(path) => Some(normal(bytes_parts(written_bytes(path)))),
        None => None,
    }
}

/// The URI of a file.
pub open spec fn path_uri(path: Parts) -> Option<Seq<char>> {
    let bytes = path_bytes(path);
    if bytes.len() > 0 && bytes[0] == 0x2F {
        file_path_url(bytes)
    } else {
        None
    }
}

/// The one URI that stands for all URIs of a file.
pub open spec fn canonical(uri: Seq<char>) -> Seq<char> {
    match uri_path(uri) {
        Some(path) => match path_uri(path) {
            Some(canonical) => canonical,
            None => uri,
        },
        None => uri,
    }
}

/// A path from the root that could be read from bytes, without `.` and `..`.
pub open spec fn is_whole(path: Parts) -> bool {
    is_absolute(path) && is_clean(path) && is_straight(path) && all_settled(path)
}

/// A path of which nothing is taken for a drive.
pub open spec fn is_drive_free(path: Parts) -> bool {
    has_no_drive(bytewise(path_bytes(path)))
}

/// The path with `.` and `..` taken out.
pub fn normal_path(path: &FilePath) -> (r: FilePath)
    ensures
        r@ == normal(path@),
{
    let nowhere = FilePath { parts: Vec::new() };
    proof {
        assert(joined(nowhere@, path@) =~= path@);
    }
    absolute_path(&nowhere, path)
}

fn hex_number(c: char) -> (r: Option<u8>)
    ensures
        match r {
            Some(n) => hex_value(c) == Some(n as int) && n < 16,
            None => hex_value(c) is None,
        },
{
    if '0' <= c && c <= '9' {
        Some((c as u32 - 48) as u8)
    } else if 'A' <= c && c <= 'F' {
        Some((c as u32 - 55) as u8)
    } else if 'a' <= c && c <= 'f' {
        Some((c as u32 - 87) as u8)
    } else {
        None
    }
}

/// The bytes of a path that is written with percent signs.
fn decode_percents(path: &str) -> (r: Vec<u8>)
    ensures
        r@ == written_bytes(path@),
{
    let chars = chars_of(path);
    let mut r: Vec<u8> = Vec::new();
    let mut i: usize = 0;
    let ghost goal = written_bytes(path@);
    proof {
        assert(r@ + percent_decoded(path@, 0) =~= goal);
    }
    while i < chars.len()
        invariant
            i <= chars@.len(),
            chars@ == path@,
            r@ + percent_decoded(path@, i as int) == goal,
        decreases chars@.len() - i,
    {
        let ghost before = r@;
        let mut found: Option<u8> = None;
        if chars.len() - i > 2 && chars[i] == '%' {
            if let (Some(high), Some(low)) = (hex_number(chars[i + 1]), hex_number(chars[i + 2])) {
                found = Some(16 * high + low);
            }
        }
        match found {
            Some(b) => {
                r.push(b);
                proof {
                    assert(percent_at(path@, i as int) == Some(b));
                    assert(r@ + percent_decoded(path@, i + 3) =~= before + percent_decoded(
                        path@,
                        i as int,
                    ));
                }
                i += 3;
            },
            None => {
                let mut one = String::new();
                one.push(chars[i]);
                let mut bytes = bytes_of_name(one.as_str());
                let ghost added = bytes@;
                r.append(&mut bytes);
                proof {
                    assert(one@ =~= seq![path@[i as int]]);
                    assert(percent_at(path@, i as int) is None);
                    assert(r@ =~= before + added);
                    assert(r@ + percent_decoded(path@, i + 1) =~= before + percent_decoded(
                        path@,
                        i as int,
                    ));
                }
                i += 1;
            },
        }
    }
    proof {
        assert(r@ + percent_decoded(path@, i as int) =~= r@);
    }
    r
}

fn hex_char(n: u8) -> (r: char)
    requires
        n < 16,
    ensures
        r == hex_digit(n as int),
{
    if n < 10 {
        (48 + n) as char
    } else {
        (55 + n) as char
    }
}

/// The URL that spells out the bytes of a path.
fn spell_url(bytes: &Vec<u8>) -> (r: String)
    ensures
        r@ == spelled_url(bytes@),
{
    let mut r = String::new();
    let mut i: usize = 0;
    proof {
        assert(r@ =~= percents(bytes@.take(0)));
    }
    while i < bytes.len()
        invariant
            i <= bytes@.len(),
            r@ == percents(bytes@.take(i as int)),
        decreases bytes@.len() - i,
    {
        let b: u8 = bytes[i];
        let ghost before = r@;
        r.push('%');
        r.push(hex_char(b / 16));
        r.push(hex_char(b % 16));
        proof {
            assert(bytes@.take(i + 1).drop_last() =~= bytes@.take(i as int));
            assert(bytes@.take(i + 1).last() == b);
            assert(r@ =~= percents(bytes@.take(i + 1)));
        }
        i += 1;
    }
    proof {
        assert(bytes@.take(bytes@.len() as int) =~= bytes@);
    }
    concat("file:///", r.as_str())
}

/// A plain path is written with the bytes of its characters.
proof fn lemma_plain_bytes(text: Seq<char>, i: int)
    requires
        forall|i: int| 0 <= i < text.len() ==> is_plain(#[trigger] text[i]),
        0 <= i <= text.len(),
    ensures
        percent_decoded(text, i) == name_bytes(text.skip(i)),
    decreases text.len() - i,
{
    if i < text.len() {
        lemma_plain_bytes(text, i + 1);
        assert(is_plain(text[i]));
        assert(percent_at(text, i) is None);
        assert(seq![text[i]] + text.skip(i + 1) =~= text.skip(i));
        lemma_name_bytes_concat(seq![text[i]], text.skip(i + 1));
    } else {
        assert(text.skip(i) =~= seq![]);
        assert(percent_decoded(text, i) =~= name_bytes(text.skip(i)));
    }
}

/// The file that a URI names.
pub fn file_path_of(uri: &str) -> (r: Option<FilePath>)
    ensures
        optional_parts(r) == uri_path(uri@),
        r is Some ==> is_whole(r->0@),
        uri@.len() > 7 && uri@.take(7) == "file://"@ && is_plain_path(uri@.skip(7)) ==> r is Some
            && r->0@ == parse_parts(uri@.skip(7)),
{
    match to_file_path(uri) {
        Some(text) => {
            let bytes = decode_percents(text.as_str());
            proof {
                let p = bytes_parts(bytes@);
                lemma_first_byte(text@);
                law_bytes_are_read_as_clean_paths(bytes@);
                law_normal_paths_are_clean(p, p.len() as int);
                law_normal_paths_are_straight(p, p.len() as int);
                law_normal_paths_are_settled(p, p.len() as int);
                if is_plain_path(text@) {
                    lemma_plain_unheld(text@);
                    lemma_plain_bytes(text@, 0);
                    assert(text@.skip(0) =~= text@);
                    law_texts_are_names(text@);
                    law_texts_are_read_as_their_bytes(text@);
                    law_straight_paths_are_normal(p);
                }
            }
            Some(normal_path(&FilePath::from_bytes(&bytes)))
        },
        None => None,
    }
}

proof fn lemma_plain_unheld(text: Seq<char>)
    requires
        forall|i: int| 0 <= i < text.len() ==> is_plain(#[trigger] text[i]),
    ensures
        !has_held(text),
{
    assert forall|i: int| 0 <= i < text.len() implies !is_held(#[trigger] text[i]) by {
        assert(is_plain(text[i]));
    }
}

/// A path that starts with a separator has the byte of one first.
proof fn lemma_first_byte(text: Seq<char>)
    requires
        text.len() > 0,
        text[0] == '/',
    ensures
        written_bytes(text).len() > 0,
        written_bytes(text)[0] == 0x2F,
{
    let bytes = seq![0x2Fu8];
    assert(bytewise(bytes) =~= seq!['/']);
    lemma_bytewise(bytes);
    assert(percent_at(text, 0) is None);
}

/// The URI of a file. It names the file.
pub fn uri_of_path(path: &FilePath) -> (r: Option<String>)
    ensures
        optional_text(r) == path_uri(path@),
        is_whole(path@) && path_bytes(path@).len() <= 0x1000_0000 ==> r is Some,
        is_plain_path(written(path@)) ==> r is Some && r->0@ == "file://"@ + written(path@),
        is_whole(path@) && is_drive_free(path@) ==> r is Some && uri_path(r->0@) == Some(path@),
{
    let bytes = path.bytes();
    proof {
        if is_whole(path@) {
            law_paths_are_read_from_their_bytes(path@);
            law_bytes_are_read_as_clean_paths(bytes@);
            law_straight_paths_are_normal(path@);
            lemma_spelled_straight(path@);
        }
        if is_plain_path(written(path@)) {
            let text = written(path@);
            assert forall|i: int| 0 <= i < text.len() implies (#[trigger] text[i] as u32)
                < 0x80 by {
                assert(is_plain(text[i]));
            }
            lemma_spelled_plain(text);
            lemma_bytewise(bytes@);
            assert(bytewise(bytes@) == text);
            assert(bytes@.len() == text.len());
            assert(text[0] == held_byte(bytes@[0]));
        }
    }
    if bytes.len() == 0 || bytes[0] != 0x2F {
        return None;
    }
    let url = spell_url(&bytes);
    proof {
        assert(spells_out(url@, bytes@));
    }
    from_file_path(url.as_str())
}

/// The one URI that stands for all URIs of a file, given the file that `uri` names.
pub fn canonical_uri_of(uri: &str, path: Option<&FilePath>) -> (r: String)
    ensures
        r@ == (match path {
            Some(path) => match path_uri(path@) {
                Some(canonical) => canonical,
                None => uri@,
            },
            None => uri@,
        }),
        path is Some && is_whole(path->0@) && is_drive_free(path->0@) ==> uri_path(r@) == Some(
            path->0@,
        ),
{
    match path {
        Some(path) => match uri_of_path(path) {
            Some(canonical) => canonical,
            None => uri.to_owned(),
        },
        None => uri.to_owned(),
    }
}

/// The one URI that stands for all URIs of a file. A URI that names no file stands for
/// itself. What stands for a URI names the same file, and stands for itself too.
pub fn canonical_file_uri(uri: &str) -> (r: String)
    ensures
        r@ == canonical(uri@),
        uri_path(uri@) is None ==> r@ == uri@,
        uri_path(uri@) is Some && is_drive_free(uri_path(uri@)->0) ==> {
            &&& uri_path(r@) == uri_path(uri@)
            &&& canonical(r@) == r@
        },
{
    let path = file_path_of(uri);
    canonical_uri_of(uri, path.as_ref())
}

} // verus!
