//! File paths as sequences of parts, and the comparisons made on them.

use vstd::prelude::*;

use crate::native::{
    bytes_of_name, bytewise, escape, escaped, hold_bytes, name_bytes, name_from_bytes,
    name_of_bytes, name_text, show, shown, text_of_name,
};
use crate::strings::{
    chars_of, copy_list, eq_ignore_case, find_last, last_index, lower, replace_char, replaced,
    same_ci, same_str, string_from, texts, to_lower,
};

verus! {

/// What the parts of a path hold. An absolute path starts with the part `/`.
pub type Parts = Seq<Seq<char>>;

/// A file path: its parts in order, the root of an absolute path first. A part that is not
/// text is held as its bytes.
#[derive(Debug)]
pub struct FilePath {
    pub parts: Vec<String>,
}

impl View for FilePath {
    type V = Parts;

    open spec fn view(&self) -> Parts {
        texts(self.parts@)
    }
}

pub open spec fn root_part() -> Seq<char> {
    seq!['/']
}

pub open spec fn parent_part() -> Seq<char> {
    seq!['.', '.']
}

pub open spec fn current_part() -> Seq<char> {
    seq!['.']
}

pub open spec fn is_absolute(p: Parts) -> bool {
    p.len() > 0 && p[0] == root_part()
}

/// A part that names a file or directory.
pub open spec fn is_name(part: Seq<char>) -> bool {
    part != root_part() && part != parent_part() && part != current_part()
}

/// What has been read after the first `n` characters: the finished pieces between
/// separators, and the piece that is being read.
pub open spec fn pieces(s: Seq<char>, n: int) -> (Seq<Seq<char>>, Seq<char>)
    decreases n,
{
    if n <= 0 {
        (seq![], seq![])
    } else {
        let (done, piece) = pieces(s, n - 1);
        if s[n - 1] == '/' {
            (done.push(piece), seq![])
        } else {
            (done, piece.push(s[n - 1]))
        }
    }
}

/// The parts of a list of pieces: empty pieces and repeated `.` are left out, and only
/// a `.` that a relative path begins with stays.
pub open spec fn kept(pieces: Seq<Seq<char>>, n: int) -> Parts
    decreases n,
{
    if n <= 0 {
        seq![]
    } else if pieces[n - 1].len() == 0 || (pieces[n - 1] == current_part() && n > 1) {
        kept(pieces, n - 1)
    } else {
        kept(pieces, n - 1).push(pieces[n - 1])
    }
}

/// The pieces of a path's text.
pub open spec fn all_pieces(s: Seq<char>) -> Seq<Seq<char>> {
    let (done, piece) = pieces(s, s.len() as int);
    done.push(piece)
}

/// The parts between the separators of a path.
pub open spec fn split_parts(s: Seq<char>) -> Parts {
    let rest = kept(all_pieces(s), all_pieces(s).len() as int);
    if s.len() > 0 && s[0] == '/' {
        seq![root_part()] + rest
    } else {
        rest
    }
}

/// The parts of the path that a text names.
pub open spec fn parse_parts(s: Seq<char>) -> Parts {
    split_parts(escaped(s))
}

/// The name with the bytes of a part.
pub open spec fn settled(part: Seq<char>) -> Seq<char> {
    name_of_bytes(name_bytes(part))
}

/// The parts of the path that bytes name.
pub open spec fn bytes_parts(bytes: Seq<u8>) -> Parts {
    split_parts(bytewise(bytes)).map_values(|part: Seq<char>| settled(part))
}

/// The text of the parts from `i` on, each after a separator.
pub open spec fn tail_text(p: Parts, i: int) -> Seq<char>
    decreases p.len() - i,
{
    if i < 0 || i >= p.len() {
        seq![]
    } else {
        seq!['/'] + p[i] + tail_text(p, i + 1)
    }
}

/// The parts with separators between them.
pub open spec fn written(p: Parts) -> Seq<char> {
    if p.len() == 0 {
        seq![]
    } else if p[0] == root_part() {
        if p.len() == 1 {
            root_part()
        } else {
            tail_text(p, 1)
        }
    } else {
        p[0] + tail_text(p, 1)
    }
}

/// The parts as they are shown.
pub open spec fn shown_parts(p: Parts) -> Parts {
    p.map_values(|part: Seq<char>| shown(part))
}

/// The text that a path is shown as. It names the path where all of it is text.
pub open spec fn path_text(p: Parts) -> Seq<char> {
    written(shown_parts(p))
}

/// The bytes of a path.
pub open spec fn path_bytes(p: Parts) -> Seq<u8> {
    name_bytes(written(p))
}

/// A path of which the parts are what lies between its separators.
pub open spec fn is_clean(p: Parts) -> bool {
    &&& forall|i: int| 0 <= i < p.len() ==> #[trigger] p[i].len() > 0
    &&& forall|i: int| 0 < i < p.len() ==> p[i] != current_part()
    &&& forall|i: int, j: int|
        0 <= i < p.len() && 0 <= j < p[i].len() && !(i == 0 && p[0] == root_part())
            ==> #[trigger] p[i][j] != '/'
}

/// The path `other`, taken from `base` where it is relative.
pub open spec fn joined(base: Parts, other: Parts) -> Parts {
    if is_absolute(other) {
        other
    } else if other.len() > 0 && other[0] == current_part() && base.len() > 0 {
        base + other.drop_first()
    } else {
        base + other
    }
}

/// The directory that a path lies in.
pub open spec fn parent_of(p: Parts) -> Option<Parts> {
    if p.len() == 0 || p.last() == root_part() {
        None
    } else {
        Some(p.drop_last())
    }
}

/// The last part of a path, where it names a file.
pub open spec fn file_name_of(p: Parts) -> Option<Seq<char>> {
    if p.len() > 0 && is_name(p.last()) {
        Some(p.last())
    } else {
        None
    }
}

/// What follows the last dot of a file name, unless the name begins with it.
pub open spec fn extension_of(p: Parts) -> Option<Seq<char>> {
    match file_name_of(p) {
        Some(name) => {
            let dot = last_index(name, '.');
            if dot > 0 {
                Some(name.skip(dot + 1))
            } else {
                None
            }
        },
        None => None,
    }
}

/// A file name without its extension.
pub open spec fn stem_of(p: Parts) -> Option<Seq<char>> {
    match file_name_of(p) {
        Some(name) => {
            let dot = last_index(name, '.');
            if dot > 0 {
                Some(name.take(dot))
            } else {
                Some(name)
            }
        },
        None => None,
    }
}

/// A file name without its extension, where that is text.
pub open spec fn stem_text_of(p: Parts) -> Option<Seq<char>> {
    match stem_of(p) {
        Some(stem) => name_text(stem),
        None => None,
    }
}

/// The parts without `.`, and each `..` taken together with the name before it.
pub open spec fn normalized(p: Parts, n: int) -> Parts
    decreases n,
{
    if n <= 0 {
        seq![]
    } else {
        let before = normalized(p, n - 1);
        if p[n - 1] == current_part() {
            before
        } else if p[n - 1] == parent_part() {
            if before.len() > 0 && before.last() != root_part() {
                before.drop_last()
            } else {
                before
            }
        } else {
            before.push(p[n - 1])
        }
    }
}

/// A path from the root, seen from the directory `cwd` where it is relative.
pub open spec fn absolute_parts(cwd: Parts, p: Parts) -> Parts {
    let whole = joined(cwd, p);
    normalized(whole, whole.len() as int)
}

/// `root` is `p` or one of the directories that `p` lies in.
pub open spec fn starts_with(p: Parts, root: Parts) -> bool {
    root.len() <= p.len() && p.take(root.len() as int) == root
}

/// Each of the parts of `root` is the part of `p` at its place, but for case.
pub open spec fn starts_with_ci(p: Parts, root: Parts) -> bool {
    &&& root.len() <= p.len()
    &&& forall|i: int| 0 <= i < root.len() ==> same_ci(shown(#[trigger] p[i]), shown(root[i]))
}

/// The same path but for case.
pub open spec fn equal_ci(a: Parts, b: Parts) -> bool {
    &&& a.len() == b.len()
    &&& forall|i: int| 0 <= i < a.len() ==> same_ci(shown(#[trigger] a[i]), shown(b[i]))
}

/// How many parts two paths begin with in common.
pub open spec fn common_parts(a: Parts, b: Parts) -> int
    decreases a.len(),
{
    if a.len() == 0 || b.len() == 0 || a[0] != b[0] {
        0
    } else {
        1 + common_parts(a.drop_first(), b.drop_first())
    }
}

/// The way from `base` to `p`, where they have a part in common.
pub open spec fn relative_parts(base: Parts, p: Parts) -> Option<Parts> {
    let common = common_parts(base, p);
    if common == 0 {
        None
    } else {
        Some(Seq::new((base.len() - common) as nat, |i: int| parent_part()) + p.skip(common))
    }
}

fn push_kept(parts: &mut Vec<String>, piece: String, first: bool)
    ensures
        texts(final(parts)@) == (if piece@.len() == 0 || (piece@ == current_part() && !first) {
            texts(old(parts)@)
        } else {
            texts(old(parts)@).push(piece@)
        }),
{
    proof {
        reveal_strlit(".");
        assert("."@ =~= current_part());
    }
    if piece.as_str().is_empty() || (same_str(piece.as_str(), ".") && !first) {
        return;
    }
    let ghost text = piece@;
    parts.push(piece);
    proof {
        assert(texts(parts@) =~= texts(old(parts)@).push(text));
    }
}

proof fn lemma_kept_prefix(a: Seq<Seq<char>>, b: Seq<Seq<char>>, n: int)
    requires
        n <= a.len(),
        n <= b.len(),
        forall|i: int| 0 <= i < n ==> a[i] == b[i],
    ensures
        kept(a, n) == kept(b, n),
    decreases n,
{
    if n > 0 {
        lemma_kept_prefix(a, b, n - 1);
    }
}

impl FilePath {
    /// The path that a text names.
    pub fn parse(text: &str) -> (r: FilePath)
        ensures
            r@ == parse_parts(text@),
    {
        FilePath::split(escape(text).as_str())
    }

    /// The path that bytes name.
    pub fn from_bytes(bytes: &Vec<u8>) -> (r: FilePath)
        ensures
            r@ == bytes_parts(bytes@),
    {
        let whole = FilePath::split(hold_bytes(bytes).as_str());
        let mut parts: Vec<String> = Vec::new();
        let mut i: usize = 0;
        proof {
            assert(whole@.len() == whole.parts@.len());
            assert(texts(parts@) =~= bytes_parts(bytes@).take(0));
        }
        while i < whole.parts.len()
            invariant
                i <= whole.parts@.len(),
                whole@ == split_parts(bytewise(bytes@)),
                whole@.len() == whole.parts@.len(),
                texts(parts@) == bytes_parts(bytes@).take(i as int),
            decreases whole.parts@.len() - i,
        {
            let ghost before = parts@;
            let name = name_from_bytes(bytes_of_name(whole.parts[i].as_str()));
            let ghost held = name@;
            parts.push(name);
            proof {
                assert(whole@[i as int] == whole.parts@[i as int]@);
                assert(texts(parts@) =~= texts(before).push(held));
                assert(bytes_parts(bytes@).take(i + 1) =~= bytes_parts(bytes@).take(
                    i as int,
                ).push(held));
            }
            i += 1;
        }
        proof {
            assert(bytes_parts(bytes@).take(whole@.len() as int) =~= bytes_parts(bytes@));
        }
        FilePath { parts }
    }

    /// The bytes of the path.
    pub fn bytes(&self) -> (r: Vec<u8>)
        ensures
            r@ == path_bytes(self@),
    {
        bytes_of_name(self.write().as_str())
    }

    fn split(text: &str) -> (r: FilePath)
        ensures
            r@ == split_parts(text@),
    {
        let chars = chars_of(text);
        let mut parts: Vec<String> = Vec::new();
        let absolute = chars.len() > 0 && chars[0] == '/';
        let ghost head: Parts = if absolute {
            seq![root_part()]
        } else {
            seq![]
        };
        if absolute {
            parts.push("/".to_owned());
            proof {
                reveal_strlit("/");
                assert("/"@ =~= root_part());
                assert(texts(parts@) =~= head);
            }
        } else {
            proof {
                assert(texts(parts@) =~= head);
            }
        }
        let mut start: usize = 0;
        let mut i: usize = 0;
        let ghost mut count: int = 0;
        let mut first = true;
        proof {
            assert(head + kept(pieces(text@, 0).0, 0) =~= head);
        }
        while i < chars.len()
            invariant
                chars@ == text@,
                start <= i <= chars@.len(),
                pieces(text@, i as int).1 == text@.subrange(start as int, i as int),
                count == pieces(text@, i as int).0.len(),
                first == (count == 0),
                texts(parts@) == head + kept(pieces(text@, i as int).0, count),
            decreases chars@.len() - i,
        {
            if chars[i] == '/' {
                let piece = string_from(&chars, start, i);
                let ghost before = texts(parts@);
                let ghost text_of_piece = piece@;
                push_kept(&mut parts, piece, first);
                proof {
                    let done = pieces(text@, i as int).0;
                    let next = pieces(text@, i + 1).0;
                    assert(next == done.push(text_of_piece));
                    lemma_kept_prefix(done, next, count);
                    assert(head + kept(done, count).push(text_of_piece) =~= (head + kept(
                        done,
                        count,
                    )).push(text_of_piece));
                    assert(texts(parts@) == head + kept(next, count + 1));
                    count = count + 1;
                    assert(text@.subrange(i + 1, i + 1) =~= seq![]);
                }
                first = false;
                start = i + 1;
            } else {
                proof {
                    assert(text@.subrange(start as int, i + 1) =~= text@.subrange(
                        start as int,
                        i as int,
                    ).push(text@[i as int]));
                }
            }
            i += 1;
        }
        let piece = string_from(&chars, start, i);
        let ghost last = piece@;
        push_kept(&mut parts, piece, first);
        proof {
            let done = pieces(text@, i as int).0;
            let all = all_pieces(text@);
            assert(all == done.push(last));
            lemma_kept_prefix(done, all, count);
            assert(head + kept(done, count).push(last) =~= (head + kept(done, count)).push(last));
            assert(texts(parts@) == head + kept(all, count + 1));
            assert(seq![] + kept(all, count + 1) =~= kept(all, count + 1));
        }
        FilePath { parts }
    }

    /// The text that the path is shown as.
    pub fn text(&self) -> (r: String)
        ensures
            r@ == path_text(self@),
    {
        let mut parts: Vec<String> = Vec::new();
        let mut i: usize = 0;
        proof {
            assert(self@.len() == self.parts@.len());
            assert(texts(parts@) =~= shown_parts(self@).take(0));
        }
        while i < self.parts.len()
            invariant
                i <= self.parts@.len(),
                self@.len() == self.parts@.len(),
                texts(parts@) == shown_parts(self@).take(i as int),
            decreases self.parts@.len() - i,
        {
            let ghost before = parts@;
            let part = show(self.parts[i].as_str());
            let ghost text = part@;
            parts.push(part);
            proof {
                assert(self@[i as int] == self.parts@[i as int]@);
                assert(texts(parts@) =~= texts(before).push(text));
                assert(shown_parts(self@).take(i + 1) =~= shown_parts(self@).take(i as int).push(
                    text,
                ));
            }
            i += 1;
        }
        proof {
            assert(shown_parts(self@).take(self@.len() as int) =~= shown_parts(self@));
        }
        FilePath { parts }.write()
    }

    /// The parts with separators between them.
    fn write(&self) -> (r: String)
        ensures
            r@ == written(self@),
    {
        if self.parts.len() == 0 {
            return String::new();
        }
        proof {
            reveal_strlit("/");
            assert("/"@ =~= root_part());
            assert(self@[0] == self.parts@[0]@);
        }
        let absolute = same_str(self.parts[0].as_str(), "/");
        if absolute && self.parts.len() == 1 {
            return "/".to_owned();
        }
        let mut r = if absolute {
            String::new()
        } else {
            self.parts[0].clone()
        };
        let ghost head = r@;
        let mut i: usize = 1;
        proof {
            assert(head + tail_text(self@, 1) =~= written(self@));
        }
        while i < self.parts.len()
            invariant
                1 <= i <= self.parts@.len(),
                r@ + tail_text(self@, i as int) == written(self@),
            decreases self.parts@.len() - i,
        {
            let ghost before = r@;
            r.push('/');
            r.append(self.parts[i].as_str());
            proof {
                assert(self@[i as int] == self.parts@[i as int]@);
                assert(r@ + tail_text(self@, i + 1) =~= before + tail_text(self@, i as int));
            }
            i += 1;
        }
        proof {
            assert(tail_text(self@, i as int) =~= seq![]);
            assert(r@ + seq![] =~= r@);
        }
        r
    }

    /// A path with the same parts.
    pub fn copy(&self) -> (r: FilePath)
        ensures
            r@ == self@,
    {
        FilePath { parts: copy_list(&self.parts) }
    }

    /// Whether both are the same path.
    pub fn same(&self, other: &FilePath) -> (r: bool)
        ensures
            r == (self@ == other@),
    {
        if self.parts.len() != other.parts.len() {
            proof {
                assert(self@.len() != other@.len());
            }
            return false;
        }
        let mut i: usize = 0;
        while i < self.parts.len()
            invariant
                self.parts@.len() == other.parts@.len(),
                i <= self.parts@.len(),
                forall|j: int| 0 <= j < i ==> self@[j] == other@[j],
            decreases self.parts@.len() - i,
        {
            if !same_str(self.parts[i].as_str(), other.parts[i].as_str()) {
                proof {
                    assert(self@[i as int] != other@[i as int]);
                }
                return false;
            }
            i += 1;
        }
        proof {
            assert(self@ =~= other@);
        }
        true
    }

    /// Whether the path starts at the root.
    pub fn is_absolute(&self) -> (r: bool)
        ensures
            r == is_absolute(self@),
    {
        proof {
            reveal_strlit("/");
            assert("/"@ =~= root_part());
        }
        self.parts.len() > 0 && same_str(self.parts[0].as_str(), "/")
    }

    /// The path `other`, taken from this one where it is relative.
    pub fn join(&self, other: &FilePath) -> (r: FilePath)
        ensures
            r@ == joined(self@, other@),
    {
        if other.is_absolute() {
            return other.copy();
        }
        proof {
            reveal_strlit(".");
            assert("."@ =~= current_part());
        }
        let mut parts = copy_list(&self.parts);
        let mut i: usize = if other.parts.len() > 0 && self.parts.len() > 0 && same_str(
            other.parts[0].as_str(),
            ".",
        ) {
            1
        } else {
            0
        };
        let ghost from = i as int;
        proof {
            assert(self@ + other@.skip(from) =~= joined(self@, other@));
            assert(self@ + other@.subrange(from, from) =~= self@);
        }
        while i < other.parts.len()
            invariant
                from <= i <= other.parts@.len(),
                0 <= from,
                texts(parts@) == self@ + other@.subrange(from, i as int),
            decreases other.parts@.len() - i,
        {
            let ghost before = texts(parts@);
            parts.push(other.parts[i].clone());
            proof {
                assert(texts(parts@) =~= before.push(other@[i as int]));
                assert(self@ + other@.subrange(from, i + 1) =~= before.push(other@[i as int]));
            }
            i += 1;
        }
        proof {
            assert(other@.subrange(from, other@.len() as int) =~= other@.skip(from));
        }
        FilePath { parts }
    }

    /// The file `name` in this directory.
    pub fn join_name(&self, name: &str) -> (r: FilePath)
        ensures
            r@ == joined(self@, parse_parts(name@)),
    {
        self.join(&FilePath::parse(name))
    }

    /// The directory that the path lies in.
    pub fn parent(&self) -> (r: Option<FilePath>)
        ensures
            match r {
                Some(path) => parent_of(self@) == Some(path@),
                None => parent_of(self@) is None,
            },
    {
        proof {
            reveal_strlit("/");
            assert("/"@ =~= root_part());
        }
        let n: usize = self.parts.len();
        if n == 0 {
            return None;
        }
        proof {
            assert(self@.last() == self.parts@[n - 1]@);
        }
        if same_str(self.parts[n - 1].as_str(), "/") {
            return None;
        }
        let mut parts = copy_list(&self.parts);
        let _last = parts.pop();
        proof {
            assert(texts(parts@) =~= self@.drop_last());
        }
        Some(FilePath { parts })
    }

    /// The last part, where it names a file.
    pub fn file_name(&self) -> (r: Option<&String>)
        ensures
            match r {
                Some(name) => file_name_of(self@) == Some(name@),
                None => file_name_of(self@) is None,
            },
    {
        proof {
            reveal_strlit("/");
            reveal_strlit(".");
            reveal_strlit("..");
            assert("/"@ =~= root_part());
            assert("."@ =~= current_part());
            assert(".."@ =~= parent_part());
        }
        let n: usize = self.parts.len();
        if n == 0 {
            return None;
        }
        let name = &self.parts[n - 1];
        proof {
            assert(self@.last() == name@);
        }
        if same_str(name.as_str(), "/") || same_str(name.as_str(), ".") || same_str(
            name.as_str(),
            "..",
        ) {
            return None;
        }
        Some(name)
    }

    /// What follows the last dot of the file name.
    pub fn extension(&self) -> (r: Option<String>)
        ensures
            match r {
                Some(extension) => extension_of(self@) == Some(extension@),
                None => extension_of(self@) is None,
            },
    {
        let name = match self.file_name() {
            Some(name) => name,
            None => {
                return None;
            },
        };
        let chars = chars_of(name.as_str());
        let length: usize = chars.len();
        match find_last(&chars, '.') {
            Some(dot) => {
                if dot > 0 {
                    let r = string_from(&chars, dot + 1, length);
                    proof {
                        assert(chars@.subrange(dot + 1, chars@.len() as int) =~= chars@.skip(
                            dot + 1,
                        ));
                    }
                    Some(r)
                } else {
                    None
                }
            },
            None => None,
        }
    }

    /// The file name without its extension.
    pub fn file_stem(&self) -> (r: Option<String>)
        ensures
            match r {
                Some(stem) => stem_of(self@) == Some(stem@),
                None => stem_of(self@) is None,
            },
    {
        let name = match self.file_name() {
            Some(name) => name,
            None => {
                return None;
            },
        };
        let chars = chars_of(name.as_str());
        match find_last(&chars, '.') {
            Some(dot) => {
                if dot > 0 {
                    let r = string_from(&chars, 0, dot);
                    proof {
                        assert(chars@.subrange(0, dot as int) =~= chars@.take(dot as int));
                    }
                    Some(r)
                } else {
                    Some(name.clone())
                }
            },
            None => Some(name.clone()),
        }
    }

    /// The file name without its extension, where that is text.
    pub fn stem_text(&self) -> (r: Option<String>)
        ensures
            match r {
                Some(stem) => stem_text_of(self@) == Some(stem@),
                None => stem_text_of(self@) is None,
            },
    {
        match self.file_stem() {
            Some(stem) => text_of_name(stem.as_str()),
            None => None,
        }
    }
}

/// The path from the root, where `cwd` is the directory that relative paths start from.
pub fn absolute_path(cwd: &FilePath, path: &FilePath) -> (r: FilePath)
    ensures
        r@ == absolute_parts(cwd@, path@),
{
    let whole = cwd.join(path);
    let mut parts: Vec<String> = Vec::new();
    let mut i: usize = 0;
    proof {
        reveal_strlit("/");
        reveal_strlit(".");
        reveal_strlit("..");
        assert("/"@ =~= root_part());
        assert("."@ =~= current_part());
        assert(".."@ =~= parent_part());
        assert(texts(parts@) =~= seq![]);
    }
    while i < whole.parts.len()
        invariant
            i <= whole.parts@.len(),
            texts(parts@) == normalized(whole@, i as int),
            "/"@ == root_part(),
            "."@ == current_part(),
            ".."@ == parent_part(),
        decreases whole.parts@.len() - i,
    {
        let part = &whole.parts[i];
        let ghost before = parts@;
        proof {
            assert(whole@[i as int] == part@);
        }
        if same_str(part.as_str(), ".") {
        } else if same_str(part.as_str(), "..") {
            let n: usize = parts.len();
            if n > 0 {
                proof {
                    assert(texts(before).last() == before[n - 1]@);
                }
                if !same_str(parts[n - 1].as_str(), "/") {
                    let _last = parts.pop();
                    proof {
                        assert(texts(parts@) =~= texts(before).drop_last());
                    }
                }
            }
        } else {
            parts.push(part.clone());
            proof {
                assert(texts(parts@) =~= texts(before).push(part@));
            }
        }
        i += 1;
    }
    FilePath { parts }
}

/// Whether the paths are the same but for the case of ASCII letters.
pub fn paths_equal_ci(left: &FilePath, right: &FilePath) -> (r: bool)
    ensures
        r == equal_ci(left@, right@),
{
    left.parts.len() == right.parts.len() && path_starts_with_ci(left, right)
}

/// Whether two parts are the same.
pub fn path_components_equal(left: &str, right: &str) -> (r: bool)
    ensures
        r == (left@ == right@),
{
    same_str(left, right)
}

/// Whether two parts are the same to the file system.
pub fn native_components_equal(left: &str, right: &str) -> (r: bool)
    ensures
        r == (left@ == right@),
{
    same_str(left, right)
}

/// Whether the paths are the same.
pub fn package_paths_equal(left: &FilePath, right: &FilePath) -> (r: bool)
    ensures
        r == (left@ == right@),
{
    left.same(right)
}

/// Whether the paths are the same to the file system.
pub fn native_paths_equal(left: &FilePath, right: &FilePath) -> (r: bool)
    ensures
        r == (left@ == right@),
{
    left.same(right)
}

/// Whether `root` is the path or one of its directories, but for case.
pub fn path_starts_with_ci(path: &FilePath, root: &FilePath) -> (r: bool)
    ensures
        r == starts_with_ci(path@, root@),
{
    if path.parts.len() < root.parts.len() {
        return false;
    }
    let mut i: usize = 0;
    while i < root.parts.len()
        invariant
            root.parts@.len() <= path.parts@.len(),
            i <= root.parts@.len(),
            forall|j: int| 0 <= j < i ==> same_ci(shown(#[trigger] path@[j]), shown(root@[j])),
        decreases root.parts@.len() - i,
    {
        let part = show(path.parts[i].as_str());
        if !eq_ignore_case(part.as_str(), show(root.parts[i].as_str()).as_str()) {
            proof {
                assert(!same_ci(shown(path@[i as int]), shown(root@[i as int])));
            }
            return false;
        }
        i += 1;
    }
    true
}

/// Whether `root` is the path or one of its directories.
pub fn path_starts_with_native(path: &FilePath, root: &FilePath) -> (r: bool)
    ensures
        r == starts_with(path@, root@),
{
    if path.parts.len() < root.parts.len() {
        return false;
    }
    let mut i: usize = 0;
    while i < root.parts.len()
        invariant
            root.parts@.len() <= path.parts@.len(),
            i <= root.parts@.len(),
            forall|j: int| 0 <= j < i ==> path@[j] == root@[j],
        decreases root.parts@.len() - i,
    {
        if !native_components_equal(path.parts[i].as_str(), root.parts[i].as_str()) {
            proof {
                assert(path@.take(root@.len() as int)[i as int] != root@[i as int]);
            }
            return false;
        }
        i += 1;
    }
    proof {
        assert(path@.take(root@.len() as int) =~= root@);
    }
    true
}

/// The parts of `path` from `from` on.
fn path_from(path: &FilePath, from: usize) -> (r: FilePath)
    requires
        from <= path@.len(),
    ensures
        r@ == path@.skip(from as int),
{
    let mut parts: Vec<String> = Vec::new();
    let mut i: usize = from;
    proof {
        assert(texts(parts@) =~= path@.subrange(from as int, from as int));
    }
    while i < path.parts.len()
        invariant
            from <= i <= path.parts@.len(),
            texts(parts@) == path@.subrange(from as int, i as int),
        decreases path.parts@.len() - i,
    {
        let ghost before = parts@;
        parts.push(path.parts[i].clone());
        proof {
            assert(texts(parts@) =~= texts(before).push(path@[i as int]));
            assert(path@.subrange(from as int, i + 1) =~= path@.subrange(
                from as int,
                i as int,
            ).push(path@[i as int]));
        }
        i += 1;
    }
    proof {
        assert(path@.subrange(from as int, path@.len() as int) =~= path@.skip(from as int));
    }
    FilePath { parts }
}

/// The way from `root` down to `path`, where `root` is one of its directories.
pub fn native_relative_path(path: &FilePath, root: &FilePath) -> (r: Option<FilePath>)
    ensures
        match r {
            Some(relative) => starts_with(path@, root@) && relative@ == path@.skip(
                root@.len() as int,
            ),
            None => !starts_with(path@, root@),
        },
{
    if path_starts_with_native(path, root) {
        Some(path_from(path, root.parts.len()))
    } else {
        None
    }
}

proof fn lemma_common_parts(a: Parts, b: Parts, n: int)
    requires
        0 <= n <= a.len(),
        n <= b.len(),
        forall|i: int| 0 <= i < n ==> a[i] == b[i],
        n == a.len() || n == b.len() || a[n] != b[n],
    ensures
        common_parts(a, b) == n,
    decreases n,
{
    if n > 0 {
        assert(a[0] == b[0]);
        assert forall|i: int| 0 <= i < n - 1 implies a.drop_first()[i] == b.drop_first()[i] by {
            assert(a[i + 1] == b[i + 1]);
        }
        lemma_common_parts(a.drop_first(), b.drop_first(), n - 1);
    }
}

/// The way from `base` to `path`: up to what they have in common, then down. There is
/// none where they have nothing in common.
pub fn relative_path(base: &FilePath, path: &FilePath) -> (r: Option<FilePath>)
    ensures
        match r {
            Some(relative) => relative_parts(base@, path@) == Some(relative@),
            None => relative_parts(base@, path@) is None,
        },
{
    let mut common: usize = 0;
    while common < base.parts.len() && common < path.parts.len() && path_components_equal(
        base.parts[common].as_str(),
        path.parts[common].as_str(),
    )
        invariant
            common <= base.parts@.len(),
            common <= path.parts@.len(),
            forall|j: int| 0 <= j < common ==> base@[j] == path@[j],
        decreases base.parts@.len() - common,
    {
        common += 1;
    }
    proof {
        lemma_common_parts(base@, path@, common as int);
        reveal_strlit("..");
        assert(".."@ =~= parent_part());
    }
    if common == 0 {
        return None;
    }
    let mut parts: Vec<String> = Vec::new();
    let mut i: usize = common;
    let ghost up = |n: int| Seq::new(n as nat, |i: int| parent_part());
    proof {
        assert(texts(parts@) =~= up(0));
    }
    while i < base.parts.len()
        invariant
            common <= i <= base.parts@.len(),
            ".."@ == parent_part(),
            up == (|n: int| Seq::new(n as nat, |i: int| parent_part())),
            texts(parts@) == up(i - common),
        decreases base.parts@.len() - i,
    {
        let ghost before = parts@;
        parts.push("..".to_owned());
        proof {
            assert(texts(parts@) =~= texts(before).push(parent_part()));
            assert(texts(parts@) =~= up(i + 1 - common));
        }
        i += 1;
    }
    let ghost ups = texts(parts@);
    let mut j: usize = common;
    proof {
        assert(ups + path@.subrange(common as int, common as int) =~= ups);
    }
    while j < path.parts.len()
        invariant
            common <= j <= path.parts@.len(),
            texts(parts@) == ups + path@.subrange(common as int, j as int),
        decreases path.parts@.len() - j,
    {
        let ghost before = parts@;
        parts.push(path.parts[j].clone());
        proof {
            assert(texts(parts@) =~= texts(before).push(path@[j as int]));
            assert(ups + path@.subrange(common as int, j + 1) =~= texts(before).push(
                path@[j as int],
            ));
        }
        j += 1;
    }
    proof {
        assert(path@.subrange(common as int, path@.len() as int) =~= path@.skip(common as int));
        assert(ups =~= Seq::new((base@.len() - common) as nat, |i: int| parent_part()));
    }
    Some(FilePath { parts })
}

/// The key under which what is known of a path is looked up: the path itself.
pub fn project_path_lookup_key(path: &FilePath) -> (r: FilePath)
    ensures
        r@ == path@,
{
    path.copy()
}

/// The key under which paths that differ in case fall together.
pub fn path_ci_lookup_key(path: &FilePath) -> (r: String)
    ensures
        r@ == lower(path_text(path@)),
{
    to_lower(path.text().as_str())
}

/// The text of a path with `/` between its parts on every system.
pub fn path_to_glob(path: &FilePath) -> (r: String)
    ensures
        r@ == replaced(path_text(path@), '\\', '/'),
{
    replace_char(path.text().as_str(), '\\', '/')
}

} // verus!
