//! What is kept of a discovered project, and when it still holds.

use vstd::prelude::*;

use crate::budget::{lemma_spent_adds, sort_work, sort_work_estimate, Work};
use crate::cancel::Interrupt;
use crate::excludes::WorkspaceRoot;
use crate::keymap::{deep_values, lemma_deep_values_insert, KeyMap};
use crate::paths::{
    equal_ci, joined, parent_of, parse_parts, path_starts_with_ci, path_text, paths_equal_ci,
    project_path_lookup_key, starts_with_ci, FilePath, Parts,
};
use crate::project::{
    Membership, MembershipView, PathStamp, ProjectContext, ReadObservation, ReadView,
};
use crate::sorting::{drop_repeats, sort, sorted_list, views, without_repeats, Ordered};
use crate::strings::{byte_len, byte_length, lemma_str_lt_order, str_before, str_lt};
use crate::uris::optional_parts;

verus! {

impl Ordered for FilePath {
    open spec fn precedes(a: Parts, b: Parts) -> bool {
        str_lt(path_text(a), path_text(b))
    }

    proof fn lemma_order(a: Parts, b: Parts, c: Parts) {
        lemma_str_lt_order(path_text(a), path_text(b), path_text(c));
        lemma_str_lt_order(path_text(c), path_text(b), path_text(a));
        lemma_str_lt_order(path_text(a), path_text(a), path_text(a));
        lemma_str_lt_order(path_text(b), path_text(c), path_text(a));
        lemma_str_lt_order(path_text(c), path_text(a), path_text(b));
    }

    fn is_before(&self, other: &Self) -> (r: bool) {
        str_before(self.text().as_str(), other.text().as_str())
    }
}

/// The deepest workspace folder that holds the path, but for case. Of two that are as
/// deep, `last` says whether the later counts.
pub open spec fn deepest_folder(roots: Seq<WorkspaceRoot>, path: Parts, last: bool, n: int) -> Option<
    Parts,
>
    decreases n,
{
    if n <= 0 {
        None
    } else {
        let before = deepest_folder(roots, path, last, n - 1);
        let root = roots[n - 1].path@;
        if starts_with_ci(path, root) && (before is None || root.len() > before->0.len() || (last
            && root.len() == before->0.len())) {
            Some(root)
        } else {
            before
        }
    }
}

/// The workspace folder that a path belongs to.
pub open spec fn folder_of(roots: Seq<WorkspaceRoot>, path: Parts) -> Option<Parts> {
    deepest_folder(roots, path, true, roots.len() as int)
}

/// The workspace folder that a path belongs to.
pub fn root_for_path(roots: &Vec<WorkspaceRoot>, path: &FilePath) -> (r: Option<FilePath>)
    ensures
        optional_parts(r) == folder_of(roots@, path@),
{
    let mut deepest: Option<FilePath> = None;
    let mut i: usize = 0;
    while i < roots.len()
        invariant
            i <= roots@.len(),
            optional_parts(deepest) == deepest_folder(roots@, path@, true, i as int),
        decreases roots@.len() - i,
    {
        let root = &roots[i].path;
        let deeper = path_starts_with_ci(path, root) && match &deepest {
            Some(deepest) => root.parts.len() >= deepest.parts.len(),
            None => true,
        };
        if deeper {
            deepest = Some(root.copy());
        }
        i += 1;
    }
    deepest
}

/// A directory and those above it, up to the boundary.
pub open spec fn upward(directory: Parts, boundary: Option<Parts>) -> Seq<Parts>
    decreases directory.len(),
{
    if boundary is Some && equal_ci(boundary->0, directory) {
        seq![directory]
    } else {
        match parent_of(directory) {
            Some(parent) => if parent.len() < directory.len() {
                seq![directory] + upward(parent, boundary)
            } else {
                seq![directory]
            },
            None => seq![directory],
        }
    }
}

/// The directories in which a project of the file is looked for: those above it, up to
/// the deepest workspace folder that holds it.
pub open spec fn search_directories(roots: Seq<WorkspaceRoot>, file: Parts) -> Seq<Parts> {
    match parent_of(file) {
        Some(directory) => upward(
            directory,
            deepest_folder(roots, file, false, roots.len() as int),
        ),
        None => seq![],
    }
}

/// The visits that listing those directories is charged.
pub open spec fn directory_visits(roots: Seq<WorkspaceRoot>, file: Parts) -> int {
    match parent_of(file) {
        Some(_) => roots.len() as int + search_directories(roots, file).len() as int,
        None => 0,
    }
}

/// The directories in which a project of the file is looked for.
pub fn discovery_directories(roots: &Vec<WorkspaceRoot>, file: &FilePath, work: &mut Work) -> (r:
    Result<Vec<FilePath>, Interrupt>)
    ensures
        final(work).continues(old(work)),
        old(work).unbounded() ==> r is Ok,
        r matches Err(Interrupt::BudgetExceeded) ==> final(work).used_up(),
        r matches Err(Interrupt::BudgetExceeded) ==> !old(work).affords(
            directory_visits(roots@, file@),
            0,
        ),
        r is Ok ==> views(r->Ok_0@) == search_directories(roots@, file@) && final(work).spent(
            old(work),
            directory_visits(roots@, file@),
            0,
        ),
{
    let ghost start = *work;
    let mut directory = match file.parent() {
        Some(directory) => directory,
        None => {
            let none: Vec<FilePath> = Vec::new();
            proof {
                assert(views(none@) =~= seq![]);
            }
            return Ok(none);
        },
    };
    let mut boundary: Option<FilePath> = None;
    let mut i: usize = 0;
    while i < roots.len()
        invariant
            i <= roots@.len(),
            start == *old(work),
            parent_of(file@) is Some,
            work.spent(&start, i as int, 0),
            optional_parts(boundary) == deepest_folder(roots@, file@, false, i as int),
        decreases roots@.len() - i,
    {
        work.check()?;
        let ghost before = *work;
        work.visit(1)?;
        proof {
            lemma_spent_adds(&start, &before, &*work, i as int, 0, 1, 0);
        }
        let root = &roots[i].path;
        let deeper = path_starts_with_ci(file, root) && match &boundary {
            Some(boundary) => root.parts.len() > boundary.parts.len(),
            None => true,
        };
        if deeper {
            boundary = Some(root.copy());
        }
        i += 1;
    }
    let ghost limit = optional_parts(boundary);
    let ghost goal = upward(directory@, limit);
    let mut list: Vec<FilePath> = Vec::new();
    proof {
        assert(views(list@) + upward(directory@, limit) =~= goal);
    }
    loop
        invariant
            start == *old(work),
            limit == optional_parts(boundary),
            limit == deepest_folder(roots@, file@, false, roots@.len() as int),
            parent_of(file@) is Some,
            goal == upward(parent_of(file@)->0, limit),
            views(list@) + upward(directory@, limit) == goal,
            work.spent(&start, (roots@.len() + list@.len()) as int, 0),
        decreases directory@.len(),
    {
        work.check()?;
        let ghost before = *work;
        let ghost held = list@;
        let ghost current = directory@;
        proof {
            assert(upward(directory@, limit).len() >= 1);
            assert(goal.len() == views(list@).len() + upward(directory@, limit).len());
        }
        work.visit(1)?;
        proof {
            lemma_spent_adds(&start, &before, &*work, (roots@.len() + held.len()) as int, 0, 1, 0);
        }
        list.push(directory.copy());
        proof {
            assert(views(list@) =~= views(held).push(current));
            assert(directory@.len() == directory.parts@.len());
        }
        let reached = match &boundary {
            Some(boundary) => paths_equal_ci(boundary, &directory),
            None => false,
        };
        if reached {
            proof {
                assert(views(list@) =~= goal);
            }
            return Ok(list);
        }
        match directory.parent() {
            None => {
                proof {
                    assert(views(list@) =~= goal);
                }
                return Ok(list);
            },
            Some(parent) => {
                proof {
                    assert(parent@.len() == parent.parts@.len());
                }
                if parent.parts.len() >= directory.parts.len() {
                    proof {
                        assert(views(list@) =~= goal);
                    }
                    return Ok(list);
                }
                proof {
                    assert(views(list@) + upward(parent@, limit) =~= goal);
                }
                directory = parent;
            },
        }
    }
}

/// The bytes of the texts of the first `n` paths.
pub open spec fn path_bytes(paths: Seq<Parts>, n: int) -> int
    decreases n,
{
    if n <= 0 {
        0
    } else {
        path_bytes(paths, n - 1) + byte_len(path_text(paths[n - 1]))
    }
}

/// Bytes are never fewer than none.
pub proof fn lemma_path_bytes(paths: Seq<Parts>, n: int)
    ensures
        path_bytes(paths, n) >= 0,
    decreases n,
{
    if n > 0 {
        lemma_path_bytes(paths, n - 1);
    }
}

/// More paths have no fewer bytes.
pub proof fn lemma_path_bytes_grow(paths: Seq<Parts>, m: int, n: int)
    requires
        m <= n,
    ensures
        path_bytes(paths, m) <= path_bytes(paths, n),
    decreases n - m,
{
    if m < n {
        lemma_path_bytes_grow(paths, m, n - 1);
    }
}

/// What is known of the directories in which a project is looked for, and which of them
/// are still to be looked into.
#[derive(Debug)]
pub struct DirectoryPlan {
    pub known: KeyMap<FilePath, Membership>,
    pub missing: Vec<FilePath>,
}

/// What is known of the first `n` directories.
pub open spec fn known_of(
    directories: Seq<Parts>,
    found: Map<Parts, MembershipView>,
    n: int,
) -> Map<Parts, MembershipView>
    decreases n,
{
    if n <= 0 {
        Map::empty()
    } else if found.contains_key(directories[n - 1]) {
        known_of(directories, found, n - 1).insert(
            directories[n - 1],
            found[directories[n - 1]],
        )
    } else {
        known_of(directories, found, n - 1)
    }
}

/// Those of the first `n` directories of which nothing is known.
pub open spec fn missing_of(
    directories: Seq<Parts>,
    found: Map<Parts, MembershipView>,
    n: int,
) -> Seq<Parts>
    decreases n,
{
    if n <= 0 {
        seq![]
    } else if found.contains_key(directories[n - 1]) {
        missing_of(directories, found, n - 1)
    } else {
        missing_of(directories, found, n - 1).push(directories[n - 1])
    }
}

/// Takes what the discovery found out of the directories.
pub fn assign_memberships(
    directories: &Vec<FilePath>,
    found: &KeyMap<FilePath, Membership>,
    work: &mut Work,
) -> (r: Result<DirectoryPlan, Interrupt>)
    ensures
        final(work).continues(old(work)),
        old(work).unbounded() ==> r is Ok,
        r matches Err(Interrupt::BudgetExceeded) ==> final(work).used_up(),
        r matches Err(Interrupt::BudgetExceeded) ==> !old(work).affords(
            (found.keys().len() + directories@.len()) as int,
            path_bytes(found.keys(), found.keys().len() as int)
                + path_bytes(views(directories@), directories@.len() as int),
        ),
        ({
            let list = views(directories@);
            let facts = deep_values(found@);
            r is Ok ==> {
                &&& deep_values(r->Ok_0.known@) == known_of(list, facts, list.len() as int)
                &&& views(r->Ok_0.missing@) == missing_of(list, facts, list.len() as int)
                &&& final(work).spent(
                    old(work),
                    (found.keys().len() + list.len()) as int,
                    path_bytes(found.keys(), found.keys().len() as int) + path_bytes(
                        list,
                        list.len() as int,
                    ),
                )
            }
        }),
{
    let ghost start = *work;
    let ghost list = views(directories@);
    let ghost facts = deep_values(found@);
    let count: usize = found.len();
    let ghost keys = found.keys();
    proof {
        lemma_path_bytes(keys, count as int);
        lemma_path_bytes(list, list.len() as int);
    }
    work.visit(count)?;
    let mut k: usize = 0;
    while k < count
        invariant
            k <= count,
            count == keys.len(),
            keys == found.keys(),
            start == *old(work),
            work.spent(&start, count as int, path_bytes(keys, k as int)),
        decreases count - k,
    {
        work.check()?;
        let ghost before = *work;
        let bytes: usize = byte_length(found.key_at(k).text().as_str());
        proof {
            lemma_path_bytes(keys, k as int);
            lemma_path_bytes_grow(keys, k + 1, count as int);
            lemma_path_bytes(views(directories@), directories@.len() as int);
        }
        work.index(bytes)?;
        proof {
            lemma_spent_adds(
                &start,
                &before,
                &*work,
                count as int,
                path_bytes(keys, k as int),
                0,
                bytes as int,
            );
        }
        k += 1;
    }
    let mut known: KeyMap<FilePath, Membership> = KeyMap::new();
    let mut missing: Vec<FilePath> = Vec::new();
    let mut i: usize = 0;
    let ghost key_bytes = path_bytes(keys, keys.len() as int);
    proof {
        assert(deep_values(known@) =~= Map::empty());
        assert(views(missing@) =~= seq![]);
        lemma_path_bytes(keys, keys.len() as int);
    }
    while i < directories.len()
        invariant
            i <= directories@.len(),
            list == views(directories@),
            facts == deep_values(found@),
            start == *old(work),
            key_bytes >= 0,
            key_bytes == path_bytes(keys, keys.len() as int),
            keys == found.keys(),
            count == keys.len(),
            work.spent(&start, count + i, key_bytes + path_bytes(list, i as int)),
            deep_values(known@) == known_of(list, facts, i as int),
            views(missing@) == missing_of(list, facts, i as int),
        decreases directories@.len() - i,
    {
        let directory = &directories[i];
        proof {
            assert(list[i as int] == directory@);
        }
        work.check()?;
        let ghost before = *work;
        proof {
            lemma_path_bytes(list, i as int);
            lemma_path_bytes_grow(list, i + 1, directories@.len() as int);
        }
        work.visit(1)?;
        let ghost between = *work;
        let bytes: usize = byte_length(directory.text().as_str());
        work.index(bytes)?;
        proof {
            lemma_spent_adds(&before, &between, &*work, 1, 0, 0, bytes as int);
            lemma_spent_adds(
                &start,
                &before,
                &*work,
                count + i,
                key_bytes + path_bytes(list, i as int),
                1,
                bytes as int,
            );
        }
        match found.get(directory) {
            Some(membership) => {
                let copied = membership.copy();
                proof {
                    lemma_deep_values_insert(known@, directory@, copied);
                }
                let _previous = known.insert(project_path_lookup_key(directory), copied);
            },
            None => {
                let ghost held = missing@;
                missing.push(directory.copy());
                proof {
                    assert(views(missing@) =~= views(held).push(directory@));
                }
            },
        }
        i += 1;
    }
    Ok(DirectoryPlan { known, missing })
}

pub open spec fn lint_file(directory: Parts) -> Parts {
    joined(directory, parse_parts(".lint4d.toml"@))
}

pub open spec fn format_file(directory: Parts) -> Parts {
    joined(directory, parse_parts(".fmt4d.toml"@))
}

/// The paths with the configuration files of the first `n` directories.
pub open spec fn with_configuration_files(paths: Seq<Parts>, directories: Seq<Parts>, n: int) -> Seq<
    Parts,
>
    decreases n,
{
    if n <= 0 {
        paths
    } else {
        with_configuration_files(paths, directories, n - 1).push(
            lint_file(directories[n - 1]),
        ).push(format_file(directories[n - 1]))
    }
}

/// The files that a project was discovered from: its metadata, the project file and the
/// main source.
pub open spec fn discovered_from(files: Seq<Parts>, context: ProjectContext) -> Seq<Parts> {
    let project = match context.project_file {
        Some(file) => files.push(file@),
        None => files,
    };
    match context.main_source {
        Some(file) => project.push(file@),
        None => project,
    }
}

/// The files that are watched for a project, each once, in the order of their texts.
pub open spec fn watch_list(
    files: Seq<Parts>,
    context: ProjectContext,
    directories: Seq<Parts>,
) -> Seq<Parts> {
    let all = with_configuration_files(
        discovered_from(files, context),
        directories,
        directories.len() as int,
    );
    let sorted = sorted_list::<FilePath>(all);
    without_repeats(sorted, sorted.len() as int)
}

/// The visits that the list of watched files is charged.
pub open spec fn watch_list_visits(
    files: Seq<Parts>,
    context: ProjectContext,
    roots: int,
    directories: Seq<Parts>,
) -> int {
    let first = discovered_from(files, context).len();
    let total = first + 2 * directories.len();
    first + roots + directories.len() + sort_work(total as nat) + (if total > 0 {
        total - 1
    } else {
        0
    })
}

proof fn lemma_configuration_files(paths: Seq<Parts>, directories: Seq<Parts>, n: int)
    requires
        0 <= n,
    ensures
        with_configuration_files(paths, directories, n).len() == paths.len() + 2 * n,
    decreases n,
{
    if n > 0 {
        lemma_configuration_files(paths, directories, n - 1);
    }
}

/// Lists the files that are watched for a project. `directories` are those whose
/// configuration files hold for it.
pub fn list_watched_files(
    files: &Vec<FilePath>,
    context: &ProjectContext,
    roots: &Vec<WorkspaceRoot>,
    directories: &Vec<FilePath>,
    work: &mut Work,
) -> (r: Result<Vec<FilePath>, Interrupt>)
    requires
        views(files@).len() + 2 + 2 * views(directories@).len() <= usize::MAX,
    ensures
        final(work).continues(old(work)),
        old(work).unbounded() ==> r is Ok,
        r matches Err(Interrupt::BudgetExceeded) ==> final(work).used_up(),
        r matches Err(Interrupt::BudgetExceeded) ==> !old(work).affords(
            watch_list_visits(views(files@), *context, roots@.len() as int, views(directories@)),
            0,
        ),
        r is Ok ==> views(r->Ok_0@) == watch_list(views(files@), *context, views(directories@))
            && final(work).spent(
            old(work),
            watch_list_visits(
                views(files@),
                *context,
                roots@.len() as int,
                views(directories@),
            ),
            0,
        ),
{
    let ghost start = *work;
    let ghost goal = discovered_from(views(files@), *context);
    let first: usize = files.len() + (if context.project_file.is_some() {
        1
    } else {
        0usize
    }) + (if context.main_source.is_some() {
        1
    } else {
        0usize
    });
    work.visit(first)?;
    work.check()?;
    let mut list: Vec<FilePath> = Vec::new();
    let mut i: usize = 0;
    let ghost paths = views(files@);
    while i < files.len()
        invariant
            i <= files@.len(),
            paths == views(files@),
            start == *old(work),
            work.spent(&start, first as int, 0),
            views(list@) == paths.take(i as int),
        decreases files@.len() - i,
    {
        work.check()?;
        let ghost held = list@;
        list.push(files[i].copy());
        proof {
            assert(paths[i as int] == files@[i as int]@);
            assert(views(list@) =~= views(held).push(paths[i as int]));
            assert(paths.take(i + 1) =~= paths.take(i as int).push(paths[i as int]));
        }
        i += 1;
    }
    proof {
        assert(paths.take(paths.len() as int) =~= paths);
    }
    if let Some(file) = &context.project_file {
        work.check()?;
        let ghost held = list@;
        list.push(file.copy());
        proof {
            assert(views(list@) =~= views(held).push(file@));
        }
    }
    if let Some(file) = &context.main_source {
        work.check()?;
        let ghost held = list@;
        list.push(file.copy());
        proof {
            assert(views(list@) =~= views(held).push(file@));
        }
    }
    let ghost middle = *work;
    work.visit(roots.len())?;
    proof {
        lemma_spent_adds(&start, &middle, &*work, first as int, 0, roots@.len() as int, 0);
    }
    let ghost places = views(directories@);
    let mut k: usize = 0;
    while k < directories.len()
        invariant
            k <= directories@.len(),
            places == views(directories@),
            start == *old(work),
            views(list@) == with_configuration_files(goal, places, k as int),
            goal == discovered_from(views(files@), *context),
            goal.len() == first,
            work.spent(&start, first + roots@.len() + k, 0),
        decreases directories@.len() - k,
    {
        work.check()?;
        let ghost before = *work;
        work.visit(1)?;
        proof {
            lemma_spent_adds(&start, &before, &*work, first + roots@.len() + k, 0, 1, 0);
            assert(places[k as int] == directories@[k as int]@);
        }
        let ghost held = list@;
        let lint = directories[k].join_name(".lint4d.toml");
        let format = directories[k].join_name(".fmt4d.toml");
        list.push(lint);
        list.push(format);
        proof {
            assert(views(list@) =~= views(held).push(lint@).push(format@));
        }
        k += 1;
    }
    work.check()?;
    let ghost all = views(list@);
    let total: usize = list.len();
    proof {
        lemma_configuration_files(goal, places, places.len() as int);
        assert(goal.len() == first);
        assert(total == first + 2 * places.len());
    }
    let ghost before = *work;
    let estimate: usize = sort_work_estimate(total);
    work.visit(estimate)?;
    proof {
        lemma_spent_adds(
            &start,
            &before,
            &*work,
            first + roots@.len() + places.len(),
            0,
            estimate as int,
            0,
        );
    }
    let sorted = sort(list);
    if total > 0 {
        let ghost before = *work;
        work.check()?;
        work.visit(total - 1)?;
        proof {
            lemma_spent_adds(
                &start,
                &before,
                &*work,
                first + roots@.len() + places.len() + estimate,
                0,
                total - 1,
                0,
            );
        }
    }
    let unique = drop_repeats(&sorted);
    proof {
        assert(views(sorted@).len() == sorted@.len());
    }
    Ok(unique)
}

/// The stamp that the first reading of a path gave, from the `i`-th reading on.
pub open spec fn read_stamp(reads: Seq<ReadView>, path: Parts, i: int) -> Option<PathStamp>
    decreases reads.len() - i,
{
    if i < 0 || i >= reads.len() {
        None
    } else if reads[i].path == path {
        Some(reads[i].stamp)
    } else {
        read_stamp(reads, path, i + 1)
    }
}

/// The stamp that the first reading of a path gave.
pub fn find_read(reads: &Vec<ReadObservation>, path: &FilePath) -> (r: Option<PathStamp>)
    ensures
        r == read_stamp(views(reads@), path@, 0),
{
    let ghost list = views(reads@);
    let mut i: usize = 0;
    while i < reads.len()
        invariant
            i <= reads@.len(),
            list == views(reads@),
            read_stamp(list, path@, 0) == read_stamp(list, path@, i as int),
        decreases reads@.len() - i,
    {
        proof {
            assert(list[i as int] == reads@[i as int]@);
        }
        if reads[i].path.same(path) {
            return Some(reads[i].stamp);
        }
        i += 1;
    }
    None
}

/// The stamp that a path had when it was read: by the new readings, else by those kept.
pub open spec fn stamp_read(new: Seq<ReadView>, kept: Seq<ReadView>, path: Parts) -> Option<
    PathStamp,
> {
    match read_stamp(new, path, 0) {
        Some(stamp) => Some(stamp),
        None => read_stamp(kept, path, 0),
    }
}

/// The paths of readings.
pub open spec fn read_paths(reads: Seq<ReadView>) -> Seq<Parts> {
    reads.map_values(|r: ReadView| r.path)
}

/// The indexed bytes that readings are charged.
pub open spec fn read_bytes(reads: Seq<ReadView>) -> int {
    path_bytes(read_paths(reads), reads.len() as int)
}

fn charge_reads(reads: &Vec<ReadObservation>, work: &mut Work) -> (r: Result<(), Interrupt>)
    ensures
        final(work).continues(old(work)),
        old(work).unbounded() ==> r is Ok,
        r matches Err(Interrupt::BudgetExceeded) ==> final(work).used_up(),
        r matches Err(Interrupt::BudgetExceeded) ==> !old(work).affords(
            reads@.len() as int,
            read_bytes(views(reads@)),
        ),
        r is Ok ==> final(work).spent(old(work), reads@.len() as int, read_bytes(views(reads@))),
{
    let ghost start = *work;
    let ghost paths = read_paths(views(reads@));
    proof {
        lemma_path_bytes(paths, reads@.len() as int);
    }
    work.visit(reads.len())?;
    let mut i: usize = 0;
    while i < reads.len()
        invariant
            i <= reads@.len(),
            paths == read_paths(views(reads@)),
            start == *old(work),
            work.spent(&start, reads@.len() as int, path_bytes(paths, i as int)),
        decreases reads@.len() - i,
    {
        work.check()?;
        let ghost before = *work;
        let bytes: usize = byte_length(reads[i].path.text().as_str());
        proof {
            assert(views(reads@)[i as int] == reads@[i as int]@);
            assert(paths[i as int] == reads@[i as int].path@);
            lemma_path_bytes(paths, i as int);
            lemma_path_bytes_grow(paths, i + 1, reads@.len() as int);
        }
        work.index(bytes)?;
        proof {
            lemma_spent_adds(
                &start,
                &before,
                &*work,
                reads@.len() as int,
                path_bytes(paths, i as int),
                0,
                bytes as int,
            );
        }
        i += 1;
    }
    Ok(())
}

/// A watched path, with the stamp that it had when it was read.
#[derive(Debug)]
pub struct WatchedPath {
    pub path: FilePath,
    pub read: Option<PathStamp>,
}

/// A watched path, with the stamp that it had when it was read.
pub struct WatchedView {
    pub path: Parts,
    pub read: Option<PathStamp>,
}

impl View for WatchedPath {
    type V = WatchedView;

    open spec fn view(&self) -> WatchedView {
        WatchedView { path: self.path@, read: self.read }
    }
}

/// The watched paths with their stamps.
pub open spec fn stamped_paths(paths: Seq<Parts>, new: Seq<ReadView>, kept: Seq<ReadView>) -> Seq<
    WatchedView,
> {
    paths.map_values(|path: Parts| WatchedView { path, read: stamp_read(new, kept, path) })
}

/// The bytes that finding the stamps is charged.
pub open spec fn stamping_bytes(paths: Seq<Parts>, new: Seq<ReadView>, kept: Seq<ReadView>) -> int {
    read_bytes(new) + read_bytes(kept) + path_bytes(paths, paths.len() as int)
}

/// Finds the stamps that the watched paths had when they were read.
pub fn stamp_watched_files(
    paths: &Vec<FilePath>,
    new: &Vec<ReadObservation>,
    kept: &Vec<ReadObservation>,
    work: &mut Work,
) -> (r: Result<Vec<WatchedPath>, Interrupt>)
    ensures
        final(work).continues(old(work)),
        old(work).unbounded() ==> r is Ok,
        r matches Err(Interrupt::BudgetExceeded) ==> final(work).used_up(),
        r matches Err(Interrupt::BudgetExceeded) ==> !old(work).affords(
            (new@.len() + kept@.len() + paths@.len()) as int,
            stamping_bytes(views(paths@), views(new@), views(kept@)),
        ),
        r is Ok ==> views(r->Ok_0@) == stamped_paths(views(paths@), views(new@), views(kept@))
            && final(work).spent(
            old(work),
            (new@.len() + kept@.len() + paths@.len()) as int,
            stamping_bytes(views(paths@), views(new@), views(kept@)),
        ),
{
    let ghost start = *work;
    let ghost list = views(paths@);
    let ghost read = read_bytes(views(new@)) + read_bytes(views(kept@));
    let ghost goal = stamped_paths(list, views(new@), views(kept@));
    proof {
        lemma_path_bytes(read_paths(views(new@)), new@.len() as int);
        lemma_path_bytes(read_paths(views(kept@)), kept@.len() as int);
        lemma_path_bytes(list, list.len() as int);
    }
    charge_reads(new, work)?;
    let ghost middle = *work;
    charge_reads(kept, work)?;
    proof {
        lemma_spent_adds(
            &start,
            &middle,
            &*work,
            new@.len() as int,
            read_bytes(views(new@)),
            kept@.len() as int,
            read_bytes(views(kept@)),
        );
    }
    let mut result: Vec<WatchedPath> = Vec::new();
    let mut i: usize = 0;
    while i < paths.len()
        invariant
            i <= paths@.len(),
            list == views(paths@),
            goal == stamped_paths(list, views(new@), views(kept@)),
            start == *old(work),
            read >= 0,
            read == read_bytes(views(new@)) + read_bytes(views(kept@)),
            work.spent(
                &start,
                new@.len() + kept@.len() + i,
                read + path_bytes(list, i as int),
            ),
            views(result@) == goal.take(i as int),
        decreases paths@.len() - i,
    {
        let path = &paths[i];
        proof {
            assert(list[i as int] == path@);
        }
        work.check()?;
        let ghost before = *work;
        work.visit(1)?;
        let ghost between = *work;
        let bytes: usize = byte_length(path.text().as_str());
        proof {
            lemma_path_bytes(list, i as int);
            lemma_path_bytes_grow(list, i + 1, paths@.len() as int);
        }
        work.index(bytes)?;
        proof {
            lemma_spent_adds(&before, &between, &*work, 1, 0, 0, bytes as int);
            lemma_spent_adds(
                &start,
                &before,
                &*work,
                new@.len() + kept@.len() + i,
                read + path_bytes(list, i as int),
                1,
                bytes as int,
            );
        }
        let found = match find_read(new, path) {
            Some(stamp) => Some(stamp),
            None => find_read(kept, path),
        };
        let watched = WatchedPath { path: path.copy(), read: found };
        let ghost held = result@;
        result.push(watched);
        proof {
            assert(goal[i as int] == watched@);
            assert(views(result@) =~= views(held).push(watched@));
            assert(goal.take(i + 1) =~= goal.take(i as int).push(goal[i as int]));
        }
        i += 1;
    }
    proof {
        assert(goal.take(list.len() as int) =~= goal);
    }
    Ok(result)
}

/// The readings with the first `n` of another list, each path once.
pub open spec fn merged_reads(kept: Seq<ReadView>, new: Seq<ReadView>, n: int) -> Seq<ReadView>
    decreases n,
{
    if n <= 0 {
        kept
    } else {
        let before = merged_reads(kept, new, n - 1);
        if read_stamp(before, new[n - 1].path, 0) is Some {
            before
        } else {
            before.push(new[n - 1])
        }
    }
}

/// The readings kept of both lists: each path once, as the first reading has it.
pub open spec fn all_reads(kept: Seq<ReadView>, new: Seq<ReadView>) -> Seq<ReadView> {
    merged_reads(
        merged_reads(seq![], kept, kept.len() as int),
        new,
        new.len() as int,
    )
}

fn add_reads_while(target: &mut Vec<ReadObservation>, reads: &Vec<ReadObservation>, work: &Work) -> (r:
    Result<(), Interrupt>)
    ensures
        work.cancel is None ==> r is Ok,
        r is Err ==> r == Err::<(), Interrupt>(Interrupt::Cancelled),
        r is Ok ==> views(final(target)@) == merged_reads(
            views(old(target)@),
            views(reads@),
            reads@.len() as int,
        ),
{
    let ghost start = views(target@);
    let ghost list = views(reads@);
    let mut i: usize = 0;
    while i < reads.len()
        invariant
            i <= reads@.len(),
            list == views(reads@),
            start == views(old(target)@),
            views(target@) == merged_reads(start, list, i as int),
        decreases reads@.len() - i,
    {
        work.check()?;
        proof {
            assert(list[i as int] == reads@[i as int]@);
        }
        if find_read(target, &reads[i].path).is_none() {
            let ghost held = target@;
            let copied = reads[i].copy();
            target.push(copied);
            proof {
                assert(views(target@) =~= views(held).push(copied@));
            }
        }
        i += 1;
    }
    Ok(())
}

/// Adds the readings of paths that were not read before.
pub fn add_reads(target: &mut Vec<ReadObservation>, reads: &Vec<ReadObservation>)
    ensures
        views(final(target)@) == merged_reads(
            views(old(target)@),
            views(reads@),
            reads@.len() as int,
        ),
{
    let work = Work::free();
    match add_reads_while(target, reads, &work) {
        Ok(_) => {},
        Err(_) => {},
    }
}

/// Merges the readings of one discovery into those kept of others. Of two readings of a
/// path the first stays.
pub fn merge_project_read_observations(
    kept: &Vec<ReadObservation>,
    new: &Vec<ReadObservation>,
    work: &mut Work,
) -> (r: Result<Vec<ReadObservation>, Interrupt>)
    ensures
        final(work).continues(old(work)),
        old(work).unbounded() && kept@.len() + new@.len() <= usize::MAX ==> r is Ok,
        r matches Err(Interrupt::BudgetExceeded) ==> final(work).used_up() || kept@.len()
            + new@.len() > usize::MAX,
        r matches Err(Interrupt::BudgetExceeded) ==> !old(work).affords(
            (kept@.len() + new@.len()) as int,
            0,
        ) || kept@.len() + new@.len() > usize::MAX,
        r is Ok ==> views(r->Ok_0@) == all_reads(views(kept@), views(new@)) && final(work).spent(
            old(work),
            (kept@.len() + new@.len()) as int,
            0,
        ),
{
    match kept.len().checked_add(new.len()) {
        Some(total) => work.visit(total)?,
        None => {
            return Err(Interrupt::BudgetExceeded);
        },
    }
    let mut merged: Vec<ReadObservation> = Vec::new();
    proof {
        assert(views(merged@) =~= seq![]);
    }
    add_reads_while(&mut merged, kept, work)?;
    add_reads_while(&mut merged, new, work)?;
    Ok(merged)
}

/// Merges what was found in directories into what is kept. What is kept stays.
pub fn merge_candidate_memberships(
    kept: &KeyMap<FilePath, Membership>,
    new: &KeyMap<FilePath, Membership>,
    work: &mut Work,
) -> (r: Result<KeyMap<FilePath, Membership>, Interrupt>)
    ensures
        final(work).continues(old(work)),
        old(work).unbounded() && kept.keys().len() + new.keys().len() <= usize::MAX ==> r is Ok,
        r matches Err(Interrupt::BudgetExceeded) ==> final(work).used_up() || kept.keys().len()
            + new.keys().len() > usize::MAX,
        r matches Err(Interrupt::BudgetExceeded) ==> !old(work).affords(
            (kept.keys().len() + new.keys().len()) as int,
            0,
        ) || kept.keys().len() + new.keys().len() > usize::MAX,
        r is Ok ==> deep_values(r->Ok_0@) == deep_values(new@).union_prefer_right(
            deep_values(kept@),
        ) && final(work).spent(old(work), (kept.keys().len() + new.keys().len()) as int, 0),
{
    let kept_count: usize = kept.len();
    let new_count: usize = new.len();
    match kept_count.checked_add(new_count) {
        Some(total) => work.visit(total)?,
        None => {
            return Err(Interrupt::BudgetExceeded);
        },
    }
    let mut merged: KeyMap<FilePath, Membership> = KeyMap::new();
    let ghost kept_keys = kept.keys();
    let ghost new_keys = new.keys();
    let ghost old_facts = deep_values(kept@);
    let ghost new_facts = deep_values(new@);
    let mut i: usize = 0;
    while i < kept_count
        invariant
            i <= kept_count,
            kept_count == kept_keys.len(),
            kept_keys == kept.keys(),
            old_facts == deep_values(kept@),
            work.spent(&*old(work), kept_count + new_count, 0),
            forall|p: Parts|
                merged@.contains_key(p) <==> exists|j: int| 0 <= j < i && #[trigger] kept_keys[j] == p,
            forall|p: Parts| #[trigger]
                merged@.contains_key(p) ==> merged@[p]@ == old_facts[p],
        decreases kept_count - i,
    {
        work.check()?;
        let copied = kept.value_at(i).copy();
        let _previous = merged.insert(project_path_lookup_key(kept.key_at(i)), copied);
        i += 1;
    }
    let ghost middle = merged@;
    proof {
        assert forall|p: Parts| middle.contains_key(p) <==> kept@.contains_key(p) by {
            if kept@.contains_key(p) {
                assert(kept_keys.contains(p));
            }
            if middle.contains_key(p) {
                let j = choose|j: int| 0 <= j < kept_keys.len() && #[trigger] kept_keys[j] == p;
                assert(kept_keys.contains(kept_keys[j]));
            }
        }
        assert(deep_values(middle) =~= old_facts);
    }
    let mut k: usize = 0;
    while k < new_count
        invariant
            k <= new_count,
            new_count == new_keys.len(),
            new_keys == new.keys(),
            new_facts == deep_values(new@),
            old_facts == deep_values(middle),
            work.spent(&*old(work), kept_count + new_count, 0),
            forall|p: Parts| #[trigger]
                merged@.contains_key(p) <==> middle.contains_key(p) || exists|j: int|
                    0 <= j < k && #[trigger] new_keys[j] == p,
            forall|p: Parts| #[trigger]
                merged@.contains_key(p) ==> merged@[p]@ == (if middle.contains_key(p) {
                    old_facts[p]
                } else {
                    new_facts[p]
                }),
        decreases new_count - k,
    {
        work.check()?;
        if !merged.contains_key(new.key_at(k)) {
            let copied = new.value_at(k).copy();
            let _previous = merged.insert(project_path_lookup_key(new.key_at(k)), copied);
        }
        k += 1;
    }
    proof {
        let goal = new_facts.union_prefer_right(old_facts);
        assert forall|p: Parts| #[trigger] merged@.contains_key(p) <==> goal.contains_key(p) by {
            if new@.contains_key(p) {
                assert(new_keys.contains(p));
            }
            if merged@.contains_key(p) && !middle.contains_key(p) {
                let j = choose|j: int| 0 <= j < new_keys.len() && #[trigger] new_keys[j] == p;
                assert(new_keys.contains(new_keys[j]));
            }
        }
        assert(deep_values(merged@) =~= goal);
    }
    Ok(merged)
}

/// No charge is negative.
pub proof fn lemma_charges_count(
    roots: Seq<WorkspaceRoot>,
    file: Parts,
    found: Seq<Parts>,
    paths: Seq<Parts>,
    new: Seq<ReadView>,
    kept: Seq<ReadView>,
)
    ensures
        directory_visits(roots, file) >= 0,
        path_bytes(found, found.len() as int) >= 0,
        path_bytes(
            search_directories(roots, file),
            search_directories(roots, file).len() as int,
        ) >= 0,
        stamping_bytes(paths, new, kept) >= 0,
{
    lemma_path_bytes(found, found.len() as int);
    lemma_path_bytes(
        search_directories(roots, file),
        search_directories(roots, file).len() as int,
    );
    lemma_path_bytes(paths, paths.len() as int);
    lemma_path_bytes(read_paths(new), new.len() as int);
    lemma_path_bytes(read_paths(kept), kept.len() as int);
}

} // verus!
