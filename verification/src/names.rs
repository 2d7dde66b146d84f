//! File names: which files matter to the workspace, and which files a unit may be in.

use vstd::prelude::*;

use crate::native::{show, shown};
use crate::paths::{
    extension_of, file_name_of, joined, package_paths_equal, parse_parts, FilePath, Parts,
};
use crate::strings::{
    chars_of, concat, concat3, eq_ignore_case, find_last, has_char, last_index, lower, same_ci,
    same_str, string_from, texts, to_lower, trim, trim_dots, trim_spec, trimmed,
};

verus! {

/// The name of the configuration file that is read once and then kept.
pub const LOCAL_CONFIG_NAME: &'static str = ".delphi-tools.local.toml";

pub const LINT_CONFIG_NAME: &'static str = ".lint4d.toml";

pub const FORMAT_CONFIG_NAME: &'static str = ".fmt4d.toml";

/// What each path of a list stands for.
pub open spec fn path_views(list: Seq<FilePath>) -> Seq<Parts> {
    list.map_values(|p: FilePath| p@)
}

/// What each list of strings holds.
pub open spec fn tier_texts(tiers: Seq<Vec<String>>) -> Seq<Seq<Seq<char>>> {
    tiers.map_values(|t: Vec<String>| texts(t@))
}

/// A directory that is never searched for sources.
pub open spec fn default_excluded(part: Seq<char>) -> bool {
    ||| part == ".git"@
    ||| part == ".worktrees"@
    ||| part == ".hg"@
    ||| part == ".svn"@
    ||| part == ".idea"@
    ||| part == ".vscode"@
    ||| part == "target"@
    ||| part == "node_modules"@
    ||| part == "dist"@
    ||| part == "build"@
    ||| part == "coverage"@
}

/// Whether the part names a directory that is never searched for sources.
pub fn is_default_excluded_component(part: &str) -> (r: bool)
    ensures
        r == default_excluded(part@),
{
    same_str(part, ".git") || same_str(part, ".worktrees") || same_str(part, ".hg") || same_str(
        part,
        ".svn",
    ) || same_str(part, ".idea") || same_str(part, ".vscode") || same_str(part, "target")
        || same_str(part, "node_modules") || same_str(part, "dist") || same_str(part, "build")
        || same_str(part, "coverage")
}

/// The path's extension is `extension`, but for case.
pub open spec fn has_extension(p: Parts, extension: Seq<char>) -> bool {
    extension_of(p) is Some && same_ci(shown(extension_of(p)->0), extension)
}

/// Whether the path's extension is `extension`, but for case.
pub fn extension_is(path: &FilePath, extension: &str) -> (r: bool)
    ensures
        r == has_extension(path@, extension@),
{
    match path.extension() {
        Some(value) => eq_ignore_case(show(value.as_str()).as_str(), extension),
        None => false,
    }
}

/// A unit, a program or a package.
pub open spec fn pascal_path(p: Parts) -> bool {
    has_extension(p, "pas"@) || has_extension(p, "dpr"@) || has_extension(p, "dpk"@)
}

/// Whether the path names a unit, a program or a package.
pub fn is_pascal_path(path: &FilePath) -> (r: bool)
    ensures
        r == pascal_path(path@),
{
    extension_is(path, "pas") || extension_is(path, "dpr") || extension_is(path, "dpk")
}

/// Whether the path names Pascal source text, an included file among it.
pub fn is_analyzable_source_path(path: &FilePath) -> (r: bool)
    ensures
        r == (pascal_path(path@) || has_extension(path@, "inc"@)),
{
    is_pascal_path(path) || extension_is(path, "inc")
}

/// The path's file name is `name`, but for case.
pub open spec fn has_file_name(p: Parts, name: Seq<char>) -> bool {
    file_name_of(p) is Some && same_ci(shown(file_name_of(p)->0), name)
}

fn file_name_is(path: &FilePath, name: &str) -> (r: bool)
    ensures
        r == has_file_name(path@, name@),
{
    match path.file_name() {
        Some(value) => eq_ignore_case(show(value.as_str()).as_str(), name),
        None => false,
    }
}

pub open spec fn live_configuration(p: Parts) -> bool {
    has_file_name(p, LINT_CONFIG_NAME@) || has_file_name(p, FORMAT_CONFIG_NAME@)
}

/// Whether the file configures the linter or the formatter.
pub fn is_live_configuration_file(path: &FilePath) -> (r: bool)
    ensures
        r == live_configuration(path@),
{
    file_name_is(path, LINT_CONFIG_NAME) || file_name_is(path, FORMAT_CONFIG_NAME)
}

/// Whether the file holds overrides, which are read once.
pub fn is_immutable_override_file(path: &FilePath) -> (r: bool)
    ensures
        r == has_file_name(path@, LOCAL_CONFIG_NAME@),
{
    file_name_is(path, LOCAL_CONFIG_NAME)
}

/// Whether the file is one of the configuration files.
pub fn is_configuration_file(path: &FilePath) -> (r: bool)
    ensures
        r == (live_configuration(path@) || has_file_name(path@, LOCAL_CONFIG_NAME@)),
{
    is_live_configuration_file(path) || is_immutable_override_file(path)
}

pub open spec fn configuration_path(p: Parts) -> bool {
    ||| live_configuration(p)
    ||| has_extension(p, "dproj"@)
    ||| has_extension(p, "dpr"@)
    ||| has_extension(p, "dpk"@)
    ||| has_extension(p, "optset"@)
}

/// Whether a change of the file may change what a project consists of. A URI that
/// names no file has no path here.
pub fn is_configuration_path(path: Option<&FilePath>) -> (r: bool)
    ensures
        r == (path is Some && configuration_path(path->0@)),
{
    match path {
        Some(path) => is_live_configuration_file(path) || extension_is(path, "dproj")
            || extension_is(path, "dpr") || extension_is(path, "dpk") || extension_is(
            path,
            "optset",
        ),
        None => false,
    }
}

/// A list to which a path is added unless it is in it.
pub open spec fn with_path(paths: Seq<Parts>, path: Parts) -> Seq<Parts> {
    if paths.contains(path) {
        paths
    } else {
        paths.push(path)
    }
}

/// Whether the list holds the path.
pub fn contains_path(paths: &Vec<FilePath>, path: &FilePath) -> (r: bool)
    ensures
        r == path_views(paths@).contains(path@),
{
    let mut i: usize = 0;
    while i < paths.len()
        invariant
            i <= paths@.len(),
            forall|j: int| 0 <= j < i ==> #[trigger] path_views(paths@)[j] != path@,
        decreases paths@.len() - i,
    {
        if package_paths_equal(&paths[i], path) {
            proof {
                assert(path_views(paths@)[i as int] == path@);
            }
            return true;
        }
        i += 1;
    }
    false
}

/// Adds a path to watch, unless it is watched.
pub fn add_configuration_watch_path(paths: &mut Vec<FilePath>, path: FilePath)
    ensures
        path_views(final(paths)@) == with_path(path_views(old(paths)@), path@),
{
    if !contains_path(paths, &path) {
        let ghost before = paths@;
        let ghost p = path@;
        paths.push(path);
        proof {
            assert(path_views(paths@) =~= path_views(before).push(p));
        }
    }
}

/// A list to which the configuration files of a directory are added.
pub open spec fn with_configuration_of(paths: Seq<Parts>, directory: Parts) -> Seq<Parts> {
    with_path(
        with_path(paths, joined(directory, parse_parts(LINT_CONFIG_NAME@))),
        joined(directory, parse_parts(FORMAT_CONFIG_NAME@)),
    )
}

/// Adds the configuration files that a directory may hold.
pub fn add_configuration_watch_directory(paths: &mut Vec<FilePath>, directory: &FilePath)
    ensures
        path_views(final(paths)@) == with_configuration_of(path_views(old(paths)@), directory@),
{
    add_configuration_watch_path(paths, directory.join_name(LINT_CONFIG_NAME));
    add_configuration_watch_path(paths, directory.join_name(FORMAT_CONFIG_NAME));
}

/// A list to which the configuration files of the first `n` directories are added.
pub open spec fn with_configuration_of_all(
    paths: Seq<Parts>,
    directories: Seq<Parts>,
    n: int,
) -> Seq<Parts>
    decreases n,
{
    if n <= 0 {
        paths
    } else {
        with_configuration_of(
            with_configuration_of_all(paths, directories, n - 1),
            directories[n - 1],
        )
    }
}

/// Adds the configuration files that the directories may hold.
pub fn add_configuration_watch_directories(paths: &mut Vec<FilePath>, directories: &Vec<FilePath>)
    ensures
        path_views(final(paths)@) == with_configuration_of_all(
            path_views(old(paths)@),
            path_views(directories@),
            directories@.len() as int,
        ),
{
    let mut i: usize = 0;
    let ghost before = path_views(paths@);
    while i < directories.len()
        invariant
            i <= directories@.len(),
            path_views(paths@) == with_configuration_of_all(
                before,
                path_views(directories@),
                i as int,
            ),
        decreases directories@.len() - i,
    {
        add_configuration_watch_directory(paths, &directories[i]);
        proof {
            assert(path_views(directories@)[i as int] == directories@[i as int]@);
        }
        i += 1;
    }
}

/// The file of the unit `name`.
pub open spec fn unit_file(name: Seq<char>) -> Seq<char> {
    name + ".pas"@
}

/// What follows the last dot of a name.
pub open spec fn short_name(name: Seq<char>) -> Seq<char> {
    name.skip(last_index(name, '.') + 1)
}

/// The files that a unit is in under its own name, dotted or not.
pub open spec fn exact_tier(unit: Seq<char>) -> Seq<Seq<char>> {
    if same_ci(short_name(unit), unit) {
        seq![unit_file(unit)]
    } else {
        seq![unit_file(unit), unit_file(short_name(unit))]
    }
}

/// A namespace as it stands before a unit's name.
pub open spec fn namespace_prefix(namespace: Seq<char>) -> Seq<char> {
    trimmed(trim_spec(namespace), |c: char| c == '.')
}

/// One file for each of the first `n` namespaces that has a name.
pub open spec fn namespace_tiers(
    unit: Seq<char>,
    namespaces: Seq<Seq<char>>,
    n: int,
) -> Seq<Seq<Seq<char>>>
    decreases n,
{
    if n <= 0 {
        seq![]
    } else {
        let before = namespace_tiers(unit, namespaces, n - 1);
        let prefix = namespace_prefix(namespaces[n - 1]);
        if prefix.len() == 0 {
            before
        } else {
            before.push(seq![unit_file(prefix + "."@ + unit)])
        }
    }
}

/// The files that a unit may be in, those of one rank together, the first rank first.
pub open spec fn candidate_tiers(
    unit: Seq<char>,
    namespaces: Seq<Seq<char>>,
) -> Seq<Seq<Seq<char>>> {
    if unit.contains('.') {
        seq![exact_tier(unit)]
    } else {
        seq![exact_tier(unit)] + namespace_tiers(unit, namespaces, namespaces.len() as int)
    }
}

/// The files that a unit may be in, those of one rank together. No rank names a file
/// twice, so there is nothing to take out of it.
pub fn unit_filename_candidate_tiers(unit_name: &str, namespaces: &Vec<String>) -> (r: Vec<
    Vec<String>,
>)
    ensures
        tier_texts(r@) == candidate_tiers(unit_name@, texts(namespaces@)),
{
    let chars = chars_of(unit_name);
    let length: usize = chars.len();
    let mut tiers: Vec<Vec<String>> = Vec::new();
    let mut exact: Vec<String> = Vec::new();
    exact.push(concat(unit_name, ".pas"));
    let dot = find_last(&chars, '.');
    let short = match dot {
        Some(dot) => string_from(&chars, dot + 1, length),
        None => string_from(&chars, 0, length),
    };
    proof {
        assert(short@ =~= short_name(unit_name@));
    }
    if !eq_ignore_case(short.as_str(), unit_name) {
        exact.push(concat(short.as_str(), ".pas"));
    }
    let ghost exact_texts = texts(exact@);
    proof {
        assert(exact_texts =~= exact_tier(unit_name@));
    }
    tiers.push(exact);
    let ghost base = seq![exact_tier(unit_name@)];
    proof {
        assert(tier_texts(tiers@) =~= base);
    }
    if dot.is_some() {
        return tiers;
    }
    let mut i: usize = 0;
    proof {
        assert(base + namespace_tiers(unit_name@, texts(namespaces@), 0) =~= base);
    }
    while i < namespaces.len()
        invariant
            i <= namespaces@.len(),
            tier_texts(tiers@) == base + namespace_tiers(
                unit_name@,
                texts(namespaces@),
                i as int,
            ),
        decreases namespaces@.len() - i,
    {
        let namespace = trim_dots(trim(namespaces[i].as_str()).as_str());
        proof {
            assert(texts(namespaces@)[i as int] == namespaces@[i as int]@);
            assert(namespace@ == namespace_prefix(texts(namespaces@)[i as int]));
        }
        if !namespace.as_str().is_empty() {
            let dotted = concat3(namespace.as_str(), ".", unit_name);
            let mut tier: Vec<String> = Vec::new();
            tier.push(concat(dotted.as_str(), ".pas"));
            let ghost added = texts(tier@);
            let ghost before = tiers@;
            proof {
                assert(added =~= seq![unit_file(namespace@ + "."@ + unit_name@)]);
            }
            tiers.push(tier);
            proof {
                assert(tier_texts(tiers@) =~= tier_texts(before).push(added));
                assert(base + namespace_tiers(unit_name@, texts(namespaces@), i + 1) =~= (base
                    + namespace_tiers(unit_name@, texts(namespaces@), i as int)).push(added));
            }
        }
        i += 1;
    }
    tiers
}

/// The files of the first `n` ranks, one after another.
pub open spec fn flat(tiers: Seq<Seq<Seq<char>>>, n: int) -> Seq<Seq<char>>
    decreases n,
{
    if n <= 0 {
        seq![]
    } else {
        flat(tiers, n - 1) + tiers[n - 1]
    }
}

/// The files that a unit may be in, the first rank first.
pub fn unit_filename_candidates(unit_name: &str, namespaces: &Vec<String>) -> (r: Vec<String>)
    ensures
        texts(r@) == flat(
            candidate_tiers(unit_name@, texts(namespaces@)),
            candidate_tiers(unit_name@, texts(namespaces@)).len() as int,
        ),
{
    let tiers = unit_filename_candidate_tiers(unit_name, namespaces);
    let mut r: Vec<String> = Vec::new();
    let mut i: usize = 0;
    let ghost all = tier_texts(tiers@);
    proof {
        assert(texts(r@) =~= flat(all, 0));
    }
    while i < tiers.len()
        invariant
            i <= tiers@.len(),
            all == tier_texts(tiers@),
            texts(r@) == flat(all, i as int),
        decreases tiers@.len() - i,
    {
        let tier = &tiers[i];
        let mut j: usize = 0;
        let ghost before = texts(r@);
        proof {
            assert(all[i as int] == texts(tier@));
            assert(before + all[i as int].take(0) =~= before);
        }
        while j < tier.len()
            invariant
                j <= tier@.len(),
                all[i as int] == texts(tier@),
                texts(r@) == before + all[i as int].take(j as int),
            decreases tier@.len() - j,
        {
            let ghost held = r@;
            r.push(tier[j].clone());
            proof {
                assert(texts(r@) =~= texts(held).push(tier@[j as int]@));
                assert(before + all[i as int].take(j + 1) =~= texts(held).push(
                    all[i as int][j as int],
                ));
            }
            j += 1;
        }
        proof {
            assert(all[i as int].take(tier@.len() as int) =~= all[i as int]);
        }
        i += 1;
    }
    r
}

/// What the aliases hold, in order.
pub open spec fn alias_texts(aliases: Seq<(String, String)>) -> Seq<(Seq<char>, Seq<char>)> {
    aliases.map_values(|a: (String, String)| (a.0@, a.1@))
}

/// The unit that a name stands for: that of the first alias with this name from `i` on.
pub open spec fn aliased_name(
    aliases: Seq<(Seq<char>, Seq<char>)>,
    name: Seq<char>,
    i: int,
) -> Seq<char>
    decreases aliases.len() - i,
{
    if i < 0 || i >= aliases.len() {
        lower(name)
    } else if same_ci(aliases[i].0, name) {
        lower(aliases[i].1)
    } else {
        aliased_name(aliases, name, i + 1)
    }
}

/// The unit that a name stands for, in lower case.
pub fn aliased_unit_name(aliases: &Vec<(String, String)>, name: &str) -> (r: String)
    ensures
        r@ == aliased_name(alias_texts(aliases@), name@, 0),
{
    let mut i: usize = 0;
    while i < aliases.len()
        invariant
            i <= aliases@.len(),
            aliased_name(alias_texts(aliases@), name@, 0) == aliased_name(
                alias_texts(aliases@),
                name@,
                i as int,
            ),
        decreases aliases@.len() - i,
    {
        if eq_ignore_case(aliases[i].0.as_str(), name) {
            return to_lower(aliases[i].1.as_str());
        }
        i += 1;
    }
    to_lower(name)
}

/// `actual` is one of the names that a request for a unit may mean: the name asked for,
/// the name it stands for, or that name in a namespace.
pub open spec fn names_unit(
    actual: Seq<char>,
    requested: Seq<char>,
    lookup: Seq<char>,
    namespaces: Seq<Seq<char>>,
) -> bool {
    ||| same_ci(actual, requested)
    ||| same_ci(actual, lookup)
    ||| !lookup.contains('.') && exists|i: int|
        0 <= i < namespaces.len() && same_ci(#[trigger] namespaces[i] + "."@ + lookup, actual)
}

/// Whether `actual` is one of the names that a request for a unit may mean.
pub fn unit_name_matches(
    actual: &str,
    requested: &str,
    lookup: &str,
    namespaces: &Vec<String>,
) -> (r: bool)
    ensures
        r == names_unit(actual@, requested@, lookup@, texts(namespaces@)),
{
    if eq_ignore_case(actual, lookup) || eq_ignore_case(actual, requested) {
        return true;
    }
    if has_char(lookup, '.') {
        return false;
    }
    let mut i: usize = 0;
    while i < namespaces.len()
        invariant
            i <= namespaces@.len(),
            !lookup@.contains('.'),
            forall|j: int|
                0 <= j < i ==> !same_ci(
                    #[trigger] texts(namespaces@)[j] + "."@ + lookup@,
                    actual@,
                ),
        decreases namespaces@.len() - i,
    {
        let dotted = concat3(namespaces[i].as_str(), ".", lookup);
        if eq_ignore_case(dotted.as_str(), actual) {
            proof {
                assert(same_ci(texts(namespaces@)[i as int] + "."@ + lookup@, actual@));
            }
            return true;
        }
        i += 1;
    }
    false
}

/// Whether a unit that a package contains is one that a request may mean.
pub fn package_unit_name_matches(
    actual: &str,
    requested: &str,
    lookup: &str,
    namespaces: &Vec<String>,
) -> (r: bool)
    ensures
        r == names_unit(actual@, requested@, lookup@, texts(namespaces@)),
{
    unit_name_matches(actual, requested, lookup, namespaces)
}

} // verus!
