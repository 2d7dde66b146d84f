//! Patterns that leave files out of a workspace, and the roots they are left out of.

use std::sync::atomic::AtomicBool;
use vstd::prelude::*;

use crate::cancel::{check_workspace_cancel, Interrupt};
use crate::names::{
    contains_path, default_excluded, is_default_excluded_component, path_views, with_path,
};
use crate::paths::{
    absolute_parts, absolute_path, joined, native_relative_path, parent_of, parse_parts,
    path_starts_with_native, path_text, path_to_glob, relative_parts, relative_path, starts_with,
    FilePath, Parts,
};
use crate::strings::{replace_char, replaced, texts};

verus! {

/// A set of patterns that paths are matched against.
#[verifier::external_type_specification]
#[verifier::external_body]
pub struct ExGlobSet(globset::GlobSet);

/// The patterns from which a set is built.
#[verifier::external_type_specification]
#[verifier::external_body]
pub struct ExGlobSetBuilder(globset::GlobSetBuilder);

/// The patterns that a builder has been given, in order.
pub uninterp spec fn builder_patterns(builder: globset::GlobSetBuilder) -> Seq<Seq<char>>;

/// The patterns that a set was built from, in order.
pub uninterp spec fn set_patterns(set: globset::GlobSet) -> Seq<Seq<char>>;

/// `Glob::new` takes the text for a pattern.
pub uninterp spec fn is_glob(pattern: Seq<char>) -> bool;

/// The pattern matches the path, to `GlobSet::is_match`.
pub uninterp spec fn glob_matches(pattern: Seq<char>, path: Seq<char>) -> bool;

/// `GlobSetBuilder::build` makes a set of the patterns.
pub uninterp spec fn globs_build(patterns: Seq<Seq<char>>) -> bool;

/// A pattern of letters, digits and a few marks, each of which stands for itself.
pub open spec fn is_literal(pattern: Seq<char>) -> bool {
    &&& pattern.len() > 0
    &&& forall|i: int|
        0 <= i < pattern.len() ==> {
            let c = #[trigger] pattern[i];
            'a' <= c <= 'z' || 'A' <= c <= 'Z' || '0' <= c <= '9' || c == '/' || c == '.' || c
                == '-' || c == '_'
        }
}

/// `GlobSetBuilder::new`: a builder without patterns.
#[verifier::external_body]
fn new_builder() -> (r: globset::GlobSetBuilder)
    ensures
        builder_patterns(r) == Seq::<Seq<char>>::empty(),
{
    globset::GlobSetBuilder::new()
}

/// `Glob::new`, and `GlobSetBuilder::add` where the text is a pattern: the builder then
/// has one more pattern, behind those it had. Whether it is one depends on the text
/// alone; a literal text is one.
#[verifier::external_body]
fn add_pattern(builder: &mut globset::GlobSetBuilder, pattern: &str) -> (r: bool)
    ensures
        r == is_glob(pattern@),
        is_literal(pattern@) ==> r,
        builder_patterns(*final(builder)) == (if is_glob(pattern@) {
            builder_patterns(*old(builder)).push(pattern@)
        } else {
            builder_patterns(*old(builder))
        }),
{
    match globset::Glob::new(pattern) {
        Ok(glob) => {
            builder.add(glob);
            true
        },
        Err(_) => false,
    }
}

/// `GlobSetBuilder::build`: a set of the builder's patterns. Whether there is one
/// depends on the patterns alone. There is one of literal patterns; it is not said of which
/// others there is none, as the source leaves that to the size of the automata that the
/// patterns come to.
#[verifier::external_body]
fn build_set(builder: &globset::GlobSetBuilder) -> (r: Option<globset::GlobSet>)
    ensures
        (r is Some) == globs_build(builder_patterns(*builder)),
        (forall|i: int|
            0 <= i < builder_patterns(*builder).len() ==> is_literal(
                #[trigger] builder_patterns(*builder)[i],
            )) ==> r is Some,
        r is Some ==> set_patterns(r->0) == builder_patterns(*builder),
{
    builder.build().ok()
}

/// `GlobSet::is_match`: whether one of the set's patterns matches the path. Of literal
/// patterns one matches exactly the path that is written as it is.
#[verifier::external_body]
fn set_matches(set: &globset::GlobSet, path: &str) -> (r: bool)
    ensures
        r == (exists|i: int|
            0 <= i < set_patterns(*set).len() && glob_matches(
                #[trigger] set_patterns(*set)[i],
                path@,
            )),
        (forall|i: int|
            0 <= i < set_patterns(*set).len() ==> is_literal(#[trigger] set_patterns(*set)[i]))
            ==> r == set_patterns(*set).contains(path@),
{
    set.is_match(path)
}

/// `GlobSet::clone`: a set of the same patterns.
#[verifier::external_body]
fn copy_set(set: &globset::GlobSet) -> (r: globset::GlobSet)
    ensures
        set_patterns(r) == set_patterns(*set),
{
    set.clone()
}

/// One of the patterns matches the path.
pub open spec fn matches_any(patterns: Seq<Seq<char>>, path: Seq<char>) -> bool {
    exists|i: int| 0 <= i < patterns.len() && glob_matches(#[trigger] patterns[i], path)
}

/// The patterns among the first `n` texts, with `/` between the parts of each.
pub open spec fn valid_patterns(patterns: Seq<Seq<char>>, n: int) -> Seq<Seq<char>>
    decreases n,
{
    if n <= 0 {
        seq![]
    } else {
        let before = valid_patterns(patterns, n - 1);
        let pattern = replaced(patterns[n - 1], '\\', '/');
        if is_glob(pattern) {
            before.push(pattern)
        } else {
            before
        }
    }
}

/// The patterns that a list of texts comes to. Texts that are no patterns are left out,
/// and there is no set without a pattern.
pub open spec fn compiled(patterns: Seq<Seq<char>>) -> Option<Seq<Seq<char>>> {
    let valid = valid_patterns(patterns, patterns.len() as int);
    if valid.len() == 0 || !globs_build(valid) {
        None
    } else {
        Some(valid)
    }
}

/// The patterns of an optional set.
pub open spec fn optional_patterns(set: Option<globset::GlobSet>) -> Option<Seq<Seq<char>>> {
    match set {
        Some(set) => Some(set_patterns(set)),
        None => None,
    }
}

/// The set of the patterns in a list, unless the request is cancelled.
pub fn compile_exclude_patterns_with_cancel(
    patterns: &Vec<String>,
    cancel: Option<&AtomicBool>,
) -> (r: Result<Option<globset::GlobSet>, Interrupt>)
    ensures
        match r {
            Ok(set) => optional_patterns(set) == compiled(texts(patterns@)),
            Err(interrupt) => interrupt is Cancelled && cancel is Some,
        },
{
    let mut builder = new_builder();
    let mut valid: usize = 0;
    let mut i: usize = 0;
    while i < patterns.len()
        invariant
            i <= patterns@.len(),
            builder_patterns(builder) == valid_patterns(texts(patterns@), i as int),
            valid == builder_patterns(builder).len(),
            valid <= i,
        decreases patterns@.len() - i,
    {
        check_workspace_cancel(cancel)?;
        let normalized = replace_char(patterns[i].as_str(), '\\', '/');
        proof {
            assert(texts(patterns@)[i as int] == patterns@[i as int]@);
        }
        if add_pattern(&mut builder, normalized.as_str()) {
            valid += 1;
        }
        i += 1;
    }
    if valid == 0 {
        return Ok(None);
    }
    check_workspace_cancel(cancel)?;
    Ok(build_set(&builder))
}

/// The set of the patterns in a list.
pub fn compile_exclude_patterns(patterns: &Vec<String>) -> (r: Option<globset::GlobSet>)
    ensures
        optional_patterns(r) == compiled(texts(patterns@)),
{
    match compile_exclude_patterns_with_cancel(patterns, None) {
        Ok(set) => set,
        Err(_) => None,
    }
}

/// The path, or one of the directories on the way to it, matches a pattern.
pub open spec fn path_matches(patterns: Seq<Seq<char>>, relative: Parts) -> bool {
    exists|n: int|
        0 < n <= relative.len() && matches_any(
            patterns,
            replaced(path_text(#[trigger] relative.take(n)), '\\', '/'),
        )
}

/// Whether the path, or one of the directories on the way to it, matches a pattern.
pub fn matches_exclude_patterns(patterns: &globset::GlobSet, relative: &FilePath) -> (r: bool)
    ensures
        r == path_matches(set_patterns(*patterns), relative@),
{
    let mut prefix = FilePath { parts: Vec::new() };
    let mut i: usize = 0;
    proof {
        assert(prefix@ =~= relative@.take(0));
    }
    while i < relative.parts.len()
        invariant
            i <= relative.parts@.len(),
            prefix@ == relative@.take(i as int),
            forall|n: int|
                0 < n <= i ==> !matches_any(
                    set_patterns(*patterns),
                    replaced(path_text(#[trigger] relative@.take(n)), '\\', '/'),
                ),
        decreases relative.parts@.len() - i,
    {
        let ghost before = prefix@;
        prefix.parts.push(relative.parts[i].clone());
        proof {
            assert(prefix@ =~= before.push(relative@[i as int]));
            assert(relative@.take(i + 1) =~= before.push(relative@[i as int]));
        }
        if set_matches(patterns, path_to_glob(&prefix).as_str()) {
            return true;
        }
        i += 1;
    }
    false
}

/// What leaves files out of a root.
pub struct ExcludeMatcher {
    pub root: FilePath,
    pub config_root: FilePath,
    pub patterns: Option<globset::GlobSet>,
}

/// The path, seen from `base`, matches a pattern.
pub open spec fn matches_from(patterns: Seq<Seq<char>>, path: Parts, base: Parts) -> bool {
    starts_with(path, base) && path_matches(patterns, path.skip(base.len() as int))
}

/// A part of the path below the root is never searched.
pub open spec fn has_default_exclusion(path: Parts, source_root: Parts) -> bool {
    starts_with(path, source_root) && exists|i: int|
        source_root.len() <= i < path.len() && default_excluded(#[trigger] path[i])
}

impl ExcludeMatcher {
    /// The path is left out of the source root.
    pub open spec fn excludes(&self, path: Parts, source_root: Parts) -> bool {
        ||| has_default_exclusion(path, source_root)
        ||| self.patterns is Some && {
            let patterns = set_patterns(self.patterns->0);
            ||| matches_from(patterns, path, source_root)
            ||| matches_from(patterns, path, self.root@)
            ||| matches_from(patterns, path, self.config_root@)
        }
    }

    /// A matcher for the patterns of a list.
    pub fn new(root: &FilePath, config_root: &FilePath, patterns: &Vec<String>) -> (r: Self)
        ensures
            r.root@ == root@,
            r.config_root@ == config_root@,
            optional_patterns(r.patterns) == compiled(texts(patterns@)),
    {
        ExcludeMatcher {
            root: root.copy(),
            config_root: config_root.copy(),
            patterns: compile_exclude_patterns(patterns),
        }
    }

    /// A matcher that leaves out the same.
    pub fn copy(&self) -> (r: Self)
        ensures
            r.root@ == self.root@,
            r.config_root@ == self.config_root@,
            optional_patterns(r.patterns) == optional_patterns(self.patterns),
    {
        ExcludeMatcher {
            root: self.root.copy(),
            config_root: self.config_root.copy(),
            patterns: match &self.patterns {
                Some(set) => Some(copy_set(set)),
                None => None,
            },
        }
    }

    /// Whether the path is left out of the source root.
    pub fn is_excluded(&self, path: &FilePath, source_root: &FilePath) -> (r: bool)
        ensures
            r == self.excludes(path@, source_root@),
    {
        if let Some(relative) = native_relative_path(path, source_root) {
            let mut i: usize = 0;
            while i < relative.parts.len()
                invariant
                    i <= relative.parts@.len(),
                    starts_with(path@, source_root@),
                    relative@ == path@.skip(source_root@.len() as int),
                    forall|j: int|
                        source_root@.len() <= j < source_root@.len() + i ==> !default_excluded(
                            #[trigger] path@[j],
                        ),
                decreases relative.parts@.len() - i,
            {
                proof {
                    assert(relative@.len() == relative.parts@.len());
                    assert(relative@[i as int] == relative.parts@[i as int]@);
                    assert(path@.skip(source_root@.len() as int)[i as int] == path@[i
                        + source_root@.len()]);
                }
                if is_default_excluded_component(relative.parts[i].as_str()) {
                    return true;
                }
                i += 1;
            }
            proof {
                assert(relative@.len() == relative.parts@.len());
                assert(path@.skip(source_root@.len() as int).len() == path@.len()
                    - source_root@.len());
            }
        }
        match &self.patterns {
            Some(patterns) => matches_below(patterns, path, source_root) || matches_below(
                patterns,
                path,
                &self.root,
            ) || matches_below(patterns, path, &self.config_root),
            None => false,
        }
    }
}

fn matches_below(patterns: &globset::GlobSet, path: &FilePath, base: &FilePath) -> (r: bool)
    ensures
        r == matches_from(set_patterns(*patterns), path@, base@),
{
    match native_relative_path(path, base) {
        Some(relative) => matches_exclude_patterns(patterns, &relative),
        None => false,
    }
}

/// What keeps files from being linted.
pub struct LintExcludeMatcher {
    pub root: FilePath,
    pub patterns: Option<globset::GlobSet>,
}

impl LintExcludeMatcher {
    /// The path is not linted.
    pub open spec fn excludes(&self, path: Parts) -> bool {
        self.patterns is Some && relative_parts(self.root@, path) is Some && path_matches(
            set_patterns(self.patterns->0),
            relative_parts(self.root@, path)->0,
        )
    }

    /// A matcher for the patterns of a list.
    pub fn new(root: &FilePath, patterns: &Vec<String>) -> (r: Self)
        ensures
            r.root@ == root@,
            optional_patterns(r.patterns) == compiled(texts(patterns@)),
    {
        LintExcludeMatcher { root: root.copy(), patterns: compile_exclude_patterns(patterns) }
    }

    /// Whether the path is not linted.
    pub fn is_excluded(&self, path: &FilePath) -> (r: bool)
        ensures
            r == self.excludes(path@),
    {
        match &self.patterns {
            Some(patterns) => match relative_path(&self.root, path) {
                Some(relative) => matches_exclude_patterns(patterns, &relative),
                None => false,
            },
            None => false,
        }
    }
}

/// Whether the patterns of a configuration file, which are relative to its directory,
/// keep the path from being linted. Without a configuration file nothing does.
pub fn is_lint_excluded(path: &FilePath, config_path: Option<&FilePath>, patterns: &Vec<String>) -> (r:
    bool)
    ensures
        r == (config_path is Some && parent_of(config_path->0@) is Some && compiled(
            texts(patterns@),
        ) is Some && relative_parts(parent_of(config_path->0@)->0, path@) is Some && path_matches(
            compiled(texts(patterns@))->0,
            relative_parts(parent_of(config_path->0@)->0, path@)->0,
        )),
{
    match config_path {
        Some(config_path) => match config_path.parent() {
            Some(root) => LintExcludeMatcher::new(&root, patterns).is_excluded(path),
            None => false,
        },
        None => false,
    }
}

/// A folder of the workspace: where its sources are, and what is left out of it.
pub struct WorkspaceRoot {
    pub path: FilePath,
    pub source_roots: Vec<FilePath>,
    pub excludes: ExcludeMatcher,
}

/// The source roots of a folder: the folder itself, then the first `n` of the configured
/// paths, each once.
pub open spec fn source_roots_of(cwd: Parts, path: Parts, sources: Seq<Seq<char>>, n: int) -> Seq<
    Parts,
>
    decreases n,
{
    if n <= 0 {
        seq![path]
    } else {
        with_path(
            source_roots_of(cwd, path, sources, n - 1),
            absolute_parts(cwd, joined(path, parse_parts(sources[n - 1]))),
        )
    }
}

impl WorkspaceRoot {
    /// The path belongs to the folder.
    pub open spec fn includes(&self, path: Parts) -> bool {
        exists|i: int|
            0 <= i < self.source_roots@.len() && starts_with(
                path,
                (#[trigger] self.source_roots@[i])@,
            ) && !self.excludes.excludes(path, self.source_roots@[i]@)
    }

    /// The root is the folder `path` with the configured source paths and patterns.
    pub open spec fn describes(
        &self,
        cwd: Parts,
        path: Parts,
        sources: Seq<Seq<char>>,
        patterns: Option<Seq<Seq<char>>>,
    ) -> bool {
        let folder = absolute_parts(cwd, path);
        &&& self.path@ == folder
        &&& path_views(self.source_roots@) == source_roots_of(
            cwd,
            folder,
            sources,
            sources.len() as int,
        )
        &&& self.excludes.root@ == folder
        &&& self.excludes.config_root@ == folder
        &&& optional_patterns(self.excludes.patterns) == patterns
    }

    /// A folder with configured source paths and compiled patterns.
    pub fn new_with_patterns(
        cwd: &FilePath,
        path: &FilePath,
        source_paths: &Vec<String>,
        patterns: Option<&globset::GlobSet>,
    ) -> (r: Self)
        ensures
            r.describes(
                cwd@,
                path@,
                texts(source_paths@),
                match patterns {
                    Some(set) => Some(set_patterns(*set)),
                    None => None,
                },
            ),
    {
        let folder = absolute_path(cwd, path);
        let mut source_roots: Vec<FilePath> = Vec::new();
        source_roots.push(folder.copy());
        let mut i: usize = 0;
        proof {
            assert(path_views(source_roots@) =~= seq![folder@]);
        }
        while i < source_paths.len()
            invariant
                i <= source_paths@.len(),
                path_views(source_roots@) == source_roots_of(
                    cwd@,
                    folder@,
                    texts(source_paths@),
                    i as int,
                ),
            decreases source_paths@.len() - i,
        {
            let source = FilePath::parse(source_paths[i].as_str());
            let source_path = absolute_path(cwd, &folder.join(&source));
            proof {
                assert(texts(source_paths@)[i as int] == source_paths@[i as int]@);
            }
            if !contains_path(&source_roots, &source_path) {
                let ghost held = source_roots@;
                let ghost added = source_path@;
                source_roots.push(source_path);
                proof {
                    assert(path_views(source_roots@) =~= path_views(held).push(added));
                }
            }
            i += 1;
        }
        WorkspaceRoot {
            path: folder.copy(),
            source_roots,
            excludes: ExcludeMatcher {
                root: folder.copy(),
                config_root: folder.copy(),
                patterns: match patterns {
                    Some(set) => Some(copy_set(set)),
                    None => None,
                },
            },
        }
    }

    /// A folder with configured source paths and patterns.
    pub fn new(
        cwd: &FilePath,
        path: &FilePath,
        source_paths: &Vec<String>,
        exclude: &Vec<String>,
    ) -> (r: Self)
        ensures
            r.describes(cwd@, path@, texts(source_paths@), compiled(texts(exclude@))),
    {
        let patterns = compile_exclude_patterns(exclude);
        Self::new_with_patterns(cwd, path, source_paths, patterns.as_ref())
    }

    /// Whether the path belongs to the folder.
    pub fn accepts(&self, cwd: &FilePath, path: &FilePath) -> (r: bool)
        ensures
            r == self.includes(absolute_parts(cwd@, path@)),
    {
        let whole = absolute_path(cwd, path);
        let mut i: usize = 0;
        while i < self.source_roots.len()
            invariant
                i <= self.source_roots@.len(),
                whole@ == absolute_parts(cwd@, path@),
                forall|j: int|
                    0 <= j < i ==> !(starts_with(whole@, (#[trigger] self.source_roots@[j])@)
                        && !self.excludes.excludes(whole@, self.source_roots@[j]@)),
            decreases self.source_roots@.len() - i,
        {
            let source_root = &self.source_roots[i];
            if path_starts_with_native(&whole, source_root) && !self.excludes.is_excluded(
                &whole,
                source_root,
            ) {
                return true;
            }
            i += 1;
        }
        false
    }
}

/// One of the folders holds the path.
pub open spec fn any_includes(roots: Seq<WorkspaceRoot>, path: Parts) -> bool {
    exists|i: int| 0 <= i < roots.len() && (#[trigger] roots[i]).includes(path)
}

/// Whether one of the folders holds the path.
pub fn accepts_path(roots: &Vec<WorkspaceRoot>, cwd: &FilePath, path: &FilePath) -> (r: bool)
    ensures
        r == any_includes(roots@, absolute_parts(cwd@, path@)),
{
    let mut i: usize = 0;
    while i < roots.len()
        invariant
            i <= roots@.len(),
            forall|j: int|
                0 <= j < i ==> !(#[trigger] roots@[j]).includes(absolute_parts(cwd@, path@)),
        decreases roots@.len() - i,
    {
        if roots[i].accepts(cwd, path) {
            return true;
        }
        i += 1;
    }
    false
}

/// What a pattern leaves out, it leaves out with everything below it.
pub proof fn law_exclusion_reaches_down(patterns: Seq<Seq<char>>, directory: Parts, below: Parts)
    requires
        path_matches(patterns, directory),
    ensures
        path_matches(patterns, directory + below),
{
    let n = choose|n: int|
        0 < n <= directory.len() && matches_any(
            patterns,
            replaced(path_text(#[trigger] directory.take(n)), '\\', '/'),
        );
    assert((directory + below).take(n) =~= directory.take(n));
    assert(0 < n <= (directory + below).len());
}

} // verus!
