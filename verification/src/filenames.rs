//! The files below a root by their names, and the entries of single directories.

use std::sync::Arc;

use vstd::prelude::*;

use crate::budget::{lemma_counted_adds, Work};
use crate::caches::{newest, Cache, Kept};
use crate::cancel::Interrupt;
use crate::installation::copy_files;
use crate::names::{extension_is, has_extension};
use crate::package_scan::{PathList, ScanKind, StampedPath, StampedView};
use crate::package_watch::stamped_files;
use crate::packages::unchanged_from;
use crate::native::{show, shown};
use crate::paths::{equal_ci, file_name_of, paths_equal_ci, FilePath, Parts};
use crate::project::PathStamp;
use crate::sorting::views;
use crate::strings::{eq_ignore_case, lower, same_ci, texts, to_lower};
use crate::strmap::{lemma_deep_insert, StrMap};

verus! {

pub const MAX_DIRECTORY_CATALOGUES: usize = 1_024;

pub const MAX_FILENAME_CATALOGUE_ENTRIES: usize = 10_000;

pub const MAX_FILENAME_CATALOGUES: usize = 256;

/// The Pascal files below a root by their names in lower case.
#[derive(Debug)]
pub struct FilenameCatalogue {
    pub entries: StrMap<PathList>,
    pub complete: bool,
    pub directories: Vec<StampedPath>,
}

/// The Pascal files below a root by their names in lower case.
#[verifier::ext_equal]
pub struct FilenamesView {
    pub entries: Map<Seq<char>, Seq<Parts>>,
    pub complete: bool,
    pub directories: Seq<StampedView>,
}

impl View for FilenameCatalogue {
    type V = FilenamesView;

    open spec fn view(&self) -> FilenamesView {
        FilenamesView {
            entries: self.entries.deep(),
            complete: self.complete,
            directories: views(self.directories@),
        }
    }
}

/// What the walk below a root came upon. Of a directory there is a stamp.
#[derive(Debug)]
pub struct WalkedEntry {
    pub path: FilePath,
    pub kind: ScanKind,
    pub stamp: Option<PathStamp>,
    /// It is kept out of the workspace.
    pub excluded: bool,
}

/// What the walk below a root came upon.
pub struct WalkedView {
    pub path: Parts,
    pub kind: ScanKind,
    pub stamp: Option<PathStamp>,
    pub excluded: bool,
}

impl View for WalkedEntry {
    type V = WalkedView;

    open spec fn view(&self) -> WalkedView {
        WalkedView {
            path: self.path@,
            kind: self.kind,
            stamp: self.stamp,
            excluded: self.excluded,
        }
    }
}

/// The search for files below a root.
#[derive(Debug)]
pub struct FilenameScan {
    pub catalogue: FilenameCatalogue,
    pub visited: usize,
}

/// Whether a file belongs into the catalogue.
pub open spec fn catalogued_file(entry: WalkedView) -> bool {
    &&& entry.kind == ScanKind::File
    &&& !entry.excluded
    &&& has_extension(entry.path, "pas"@)
    &&& file_name_of(entry.path) is Some
}

/// The paths under a name, with one more.
pub open spec fn with_file(entries: Map<Seq<char>, Seq<Parts>>, path: Parts) -> Map<
    Seq<char>,
    Seq<Parts>,
> {
    let name = lower(shown(file_name_of(path)->0));
    entries.insert(
        name,
        if entries.contains_key(name) {
            entries[name].push(path)
        } else {
            seq![path]
        },
    )
}

/// Whether the stamp of a directory is kept.
pub open spec fn notes_directory(catalogue: FilenamesView, entry: WalkedView) -> bool {
    entry.kind == ScanKind::Directory && catalogue.directories.len()
        < MAX_FILENAME_CATALOGUE_ENTRIES
}

/// The catalogue with what the walk came upon.
pub open spec fn with_walked(catalogue: FilenamesView, entry: WalkedView) -> FilenamesView {
    FilenamesView {
        entries: if catalogued_file(entry) {
            with_file(catalogue.entries, entry.path)
        } else {
            catalogue.entries
        },
        directories: if notes_directory(catalogue, entry) {
            catalogue.directories.push(StampedView { path: entry.path, stamp: entry.stamp })
        } else {
            catalogue.directories
        },
        complete: catalogue.complete,
    }
}

impl FilenameScan {
    /// The search before its first step. `stamp` is the one that the root has.
    pub fn begin(root: &FilePath, stamp: Option<PathStamp>, work: &mut Work) -> (r: Result<
        Self,
        Interrupt,
    >)
        ensures
            final(work).continues(old(work)),
            old(work).unbounded() ==> r is Ok,
            r matches Err(Interrupt::BudgetExceeded) ==> final(work).used_up(),
            r matches Err(Interrupt::BudgetExceeded) ==> !old(work).affords(1, 0),
            r is Ok ==> {
                &&& r->Ok_0.visited == 0
                &&& r->Ok_0.catalogue@ == (FilenamesView {
                    entries: Map::empty(),
                    complete: true,
                    directories: seq![StampedView { path: root@, stamp }],
                })
                &&& final(work).counted(old(work), 1, 0, 1, 0)
            },
    {
        work.check()?;
        work.visit_includes(1)?;
        let mut directories: Vec<StampedPath> = Vec::new();
        let first = StampedPath { path: root.copy(), stamp };
        directories.push(first);
        let scan = FilenameScan {
            catalogue: FilenameCatalogue { entries: StrMap::new(), complete: true, directories },
            visited: 0,
        };
        proof {
            assert(views(directories@) =~= seq![StampedView { path: root@, stamp }]);
            assert(scan.catalogue.entries.deep() =~= Map::empty());
        }
        Ok(scan)
    }

    /// Whether the walk takes another step. Where enough was visited, the catalogue stays
    /// incomplete.
    pub fn goes_on(&mut self, work: &mut Work) -> (r: Result<bool, Interrupt>)
        ensures
            final(work).continues(old(work)),
            old(work).unbounded() ==> r is Ok,
            r matches Err(Interrupt::BudgetExceeded) ==> final(work).used_up(),
            r matches Err(Interrupt::BudgetExceeded) ==> !old(work).affords(
                if old(self).visited < MAX_FILENAME_CATALOGUE_ENTRIES { 1 } else { 0 },
                0,
            ),
            final(self).visited == old(self).visited,
            r is Ok ==> {
                &&& r->Ok_0 == (old(self).visited < MAX_FILENAME_CATALOGUE_ENTRIES)
                &&& final(self).catalogue@ == (FilenamesView {
                    complete: old(self).catalogue@.complete && r->Ok_0,
                    ..old(self).catalogue@
                })
                &&& final(work).counted(
                    old(work),
                    if r->Ok_0 {
                        1
                    } else {
                        0
                    },
                    0,
                    if r->Ok_0 {
                        1
                    } else {
                        0
                    },
                    0,
                )
            },
            r is Err ==> *final(self) == *old(self),
    {
        work.check()?;
        if self.visited >= MAX_FILENAME_CATALOGUE_ENTRIES {
            self.catalogue.complete = false;
            return Ok(false);
        }
        work.visit_includes(1)?;
        Ok(true)
    }

    /// Takes what the walk came upon.
    pub fn take(&mut self, entry: &WalkedEntry, work: &mut Work) -> (r: Result<(), Interrupt>)
        requires
            old(self).visited < MAX_FILENAME_CATALOGUE_ENTRIES,
        ensures
            final(work).continues(old(work)),
            old(work).unbounded() ==> r is Ok,
            r matches Err(Interrupt::BudgetExceeded) ==> final(work).used_up(),
            r matches Err(Interrupt::BudgetExceeded) ==> !old(work).affords(
                if notes_directory(old(self).catalogue@, entry@) { 1 } else { 0 },
                0,
            ),
            final(self).visited == old(self).visited + 1,
            r is Ok ==> final(self).catalogue@ == with_walked(old(self).catalogue@, entry@),
            r is Ok ==> ({
                let noted: int = if notes_directory(old(self).catalogue@, entry@) {
                    1
                } else {
                    0
                };
                final(work).counted(old(work), noted, 0, noted, 0)
            }),
            r is Err ==> final(self).catalogue == old(self).catalogue,
    {
        let ghost before = self.catalogue@;
        self.visited = self.visited + 1;
        proof {
            assert(before.directories.len() == self.catalogue.directories@.len());
        }
        if entry.kind == ScanKind::Directory && self.catalogue.directories.len()
            < MAX_FILENAME_CATALOGUE_ENTRIES {
            work.check()?;
            work.visit_includes(1)?;
            let ghost held = self.catalogue.directories@;
            let stamped = StampedPath { path: entry.path.copy(), stamp: entry.stamp };
            self.catalogue.directories.push(stamped);
            proof {
                assert(views(self.catalogue.directories@) =~= views(held).push(stamped@));
            }
        }
        if entry.kind == ScanKind::File && !entry.excluded && extension_is(&entry.path, "pas") {
            if let Some(name) = entry.path.file_name() {
                let key = to_lower(show(name.as_str()).as_str());
                let ghost map = self.catalogue.entries@;
                let ghost key_text = key@;
                let mut list: PathList = match self.catalogue.entries.remove(key.as_str()) {
                    Some(list) => list,
                    None => PathList { paths: Vec::new() },
                };
                let ghost held = list@;
                let copied = entry.path.copy();
                list.paths.push(copied);
                proof {
                    assert(list@ =~= held.push(copied@));
                    if !map.contains_key(key_text) {
                        assert(list@ =~= seq![copied@]);
                    }
                }
                let ghost kept = list;
                let _none = self.catalogue.entries.insert(key, list);
                proof {
                    assert(self.catalogue.entries@ =~= map.insert(key_text, kept));
                    lemma_deep_insert(map, key_text, kept);
                    assert(self.catalogue.entries.deep() =~= with_file(
                        before.entries,
                        entry.path@,
                    ));
                }
            }
        }
        proof {
            assert(self.catalogue@ =~= with_walked(before, entry@));
        }
        Ok(())
    }
}

/// The catalogues of files by their roots.
#[derive(Debug)]
pub struct FilenameCatalogues {
    pub kept: Cache<FilePath, Arc<FilenameCatalogue>>,
}

impl FilenameCatalogues {
    /// No catalogues.
    pub fn new() -> (r: Self)
        ensures
            r.kept@ == Map::<Parts, Kept<Arc<FilenameCatalogue>>>::empty(),
    {
        FilenameCatalogues { kept: Cache::new() }
    }

    /// The directories whose stamps are looked at to find out whether a catalogue holds.
    pub fn directories_to_inspect(&self, root: &FilePath) -> (r: Vec<FilePath>)
        ensures
            views(r@) == (if self.kept@.contains_key(root@) {
                stamped_files(self.kept@[root@].value@.directories)
            } else {
                seq![]
            }),
    {
        let mut paths: Vec<FilePath> = Vec::new();
        proof {
            assert(views(paths@) =~= seq![]);
        }
        if let Some(catalogue) = self.kept.get(root) {
            let ghost list = views(catalogue.directories@);
            let mut i: usize = 0;
            proof {
                assert(views(paths@) =~= stamped_files(list).take(0));
            }
            while i < catalogue.directories.len()
                invariant
                    i <= catalogue.directories@.len(),
                    list == views(catalogue.directories@),
                    views(paths@) == stamped_files(list).take(i as int),
                decreases catalogue.directories@.len() - i,
            {
                let ghost held = paths@;
                let copied = catalogue.directories[i].path.copy();
                paths.push(copied);
                proof {
                    assert(list[i as int] == catalogue.directories@[i as int]@);
                    assert(views(paths@) =~= views(held).push(copied@));
                    assert(stamped_files(list).take(i + 1) =~= stamped_files(list).take(
                        i as int,
                    ).push(list[i as int].path));
                }
                i += 1;
            }
            proof {
                assert(stamped_files(list).take(list.len() as int) =~= stamped_files(list));
            }
        }
        paths
    }

    /// The catalogue of a root, if there is one of which no directory has changed. `now`
    /// are the stamps that its directories have.
    pub fn reuse(
        &mut self,
        root: &FilePath,
        now: &Vec<Option<PathStamp>>,
        clock: u64,
        work: &mut Work,
    ) -> (r: Result<Option<Arc<FilenameCatalogue>>, Interrupt>)
        requires
            old(self).kept@.contains_key(root@) ==> now@.len()
                == old(self).kept@[root@].value@.directories.len(),
        ensures
            final(work).continues(old(work)),
            old(work).unbounded() ==> r is Ok,
            r matches Err(Interrupt::BudgetExceeded) ==> final(work).used_up(),
            r matches Err(Interrupt::BudgetExceeded) ==> !old(work).affords(
                if old(self).kept@.contains_key(root@) {
                    unchanged_from(old(self).kept@[root@].value@.directories, now@, 0).1 as int
                } else {
                    0
                },
                0,
            ),
            r is Err ==> *final(self) == *old(self),
            r is Ok ==> ({
                let known = old(self).kept@.contains_key(root@);
                let kept = old(self).kept@[root@].value;
                let seen = unchanged_from(kept@.directories, now@, 0);
                let visits: int = if known {
                    seen.1 as int
                } else {
                    0
                };
                &&& (r->Ok_0 is Some) == (known && seen.0)
                &&& r->Ok_0 is Some ==> r->Ok_0->0 == kept && final(self).kept@ == old(
                    self,
                ).kept@.insert(root@, Kept { value: kept, last_used: clock })
                &&& r->Ok_0 is None ==> final(self).kept@ == old(self).kept@
                &&& final(work).counted(old(work), visits, 0, visits, 0)
            }),
    {
        let ghost start = *work;
        work.check()?;
        let catalogue = match self.kept.get(root) {
            Some(catalogue) => catalogue.clone(),
            None => {
                return Ok(None);
            },
        };
        let ghost list = views(catalogue.directories@);
        let mut i: usize = 0;
        while i < catalogue.directories.len()
            invariant
                i <= catalogue.directories@.len(),
                list == views(catalogue.directories@),
                list == catalogue@.directories,
                now@.len() == list.len(),
                start == *old(work),
                *self == *old(self),
                old(self).kept@.contains_key(root@),
                catalogue == old(self).kept@[root@].value,
                unchanged_from(list, now@, 0) == ({
                    let rest = unchanged_from(list, now@, i as int);
                    (rest.0, i as nat + rest.1)
                }),
                work.counted(&start, i as int, 0, i as int, 0),
            decreases catalogue.directories@.len() - i,
        {
            work.check()?;
            let ghost before = *work;
            work.visit_includes(1)?;
            proof {
                lemma_counted_adds(
                    &start,
                    &before,
                    &*work,
                    (i as int, 0, i as int, 0),
                    (1, 0, 1, 0),
                );
                assert(list[i as int] == catalogue.directories@[i as int]@);
            }
            if now[i] != catalogue.directories[i].stamp {
                return Ok(None);
            }
            i += 1;
        }
        self.kept.touch(root, clock);
        Ok(Some(catalogue))
    }

    /// Keeps the catalogue of a root.
    pub fn keep(&mut self, root: FilePath, catalogue: Arc<FilenameCatalogue>, clock: u64)
        ensures
            newest(
                old(self).kept@.insert(root@, Kept { value: catalogue, last_used: clock }),
                final(self).kept@,
                MAX_FILENAME_CATALOGUES as nat,
            ),
    {
        self.kept.put(root, catalogue, clock, MAX_FILENAME_CATALOGUES);
    }
}

/// The files in a directory, and the stamp that it had.
#[derive(Debug)]
pub struct DirectoryCatalogue {
    pub stamp: Option<PathStamp>,
    pub entries: Vec<FilePath>,
}

/// The files of directories.
#[derive(Debug)]
pub struct DirectoryCatalogues {
    pub kept: Cache<FilePath, DirectoryCatalogue>,
}

impl DirectoryCatalogues {
    /// No directories.
    pub fn new() -> (r: Self)
        ensures
            r.kept@ == Map::<Parts, Kept<DirectoryCatalogue>>::empty(),
    {
        DirectoryCatalogues { kept: Cache::new() }
    }

    /// The files in a directory, if they were listed when it had the stamp that it has.
    pub fn reuse(&mut self, directory: &FilePath, stamp: Option<PathStamp>, clock: u64) -> (r:
        Option<Vec<FilePath>>)
        ensures
            ({
                let holds = old(self).kept@.contains_key(directory@)
                    && old(self).kept@[directory@].value.stamp == stamp;
                &&& (r is Some) == holds
                &&& holds ==> views(r->0@) == views(old(self).kept@[directory@].value.entries@)
                    && final(self).kept@ == old(self).kept@.insert(
                    directory@,
                    Kept { value: old(self).kept@[directory@].value, last_used: clock },
                )
                &&& !holds ==> final(self).kept@ == old(self).kept@
            }),
    {
        let entries = match self.kept.get(directory) {
            Some(catalogue) => if catalogue.stamp == stamp {
                copy_files(&catalogue.entries)
            } else {
                return None;
            },
            None => {
                return None;
            },
        };
        self.kept.touch(directory, clock);
        Some(entries)
    }

    /// Keeps the files in a directory.
    pub fn keep(
        &mut self,
        directory: FilePath,
        stamp: Option<PathStamp>,
        entries: Vec<FilePath>,
        clock: u64,
    )
        ensures
            newest(
                old(self).kept@.insert(
                    directory@,
                    Kept { value: DirectoryCatalogue { stamp, entries }, last_used: clock },
                ),
                final(self).kept@,
                MAX_DIRECTORY_CATALOGUES as nat,
            ),
    {
        self.kept.put(
            directory,
            DirectoryCatalogue { stamp, entries },
            clock,
            MAX_DIRECTORY_CATALOGUES,
        );
    }
}

/// A file goes by a name, whatever its case.
pub open spec fn goes_by(path: Parts, name: Seq<char>) -> bool {
    file_name_of(path) is Some && same_ci(shown(file_name_of(path)->0), name)
}

/// Whether a file goes by a name.
pub fn file_goes_by(path: &FilePath, name: &str) -> (r: bool)
    ensures
        r == goes_by(path@, name@),
{
    match path.file_name() {
        Some(own) => eq_ignore_case(show(own.as_str()).as_str(), name),
        None => false,
    }
}

/// A path is among others, whatever its case.
pub open spec fn held_ci(paths: Seq<Parts>, path: Parts) -> bool {
    exists|i: int| 0 <= i < paths.len() && equal_ci(#[trigger] paths[i], path)
}

/// Whether a path is among others, whatever its case.
pub fn holds_ci(paths: &Vec<FilePath>, path: &FilePath) -> (r: bool)
    ensures
        r == held_ci(views(paths@), path@),
{
    let ghost list = views(paths@);
    let mut i: usize = 0;
    while i < paths.len()
        invariant
            i <= paths@.len(),
            list == views(paths@),
            forall|j: int| 0 <= j < i ==> !equal_ci(#[trigger] list[j], path@),
        decreases paths@.len() - i,
    {
        proof {
            assert(list[i as int] == paths@[i as int]@);
        }
        if paths_equal_ci(&paths[i], path) {
            return true;
        }
        i += 1;
    }
    false
}

/// The paths with one more, if it is not among them.
pub open spec fn with_path_ci(paths: Seq<Parts>, path: Parts) -> Seq<Parts> {
    if held_ci(paths, path) {
        paths
    } else {
        paths.push(path)
    }
}

/// The candidates with those of the first `n` entries that go by a name.
pub open spec fn named_entries(
    candidates: Seq<Parts>,
    entries: Seq<Parts>,
    name: Seq<char>,
    n: int,
) -> Seq<Parts>
    decreases n,
{
    if n <= 0 {
        candidates
    } else {
        let before = named_entries(candidates, entries, name, n - 1);
        if goes_by(entries[n - 1], name) {
            with_path_ci(before, entries[n - 1])
        } else {
            before
        }
    }
}

/// The entries that go by one of the first `n` names, in the order of the names.
pub open spec fn candidates_for(entries: Seq<Parts>, names: Seq<Seq<char>>, n: int) -> Seq<Parts>
    decreases n,
{
    if n <= 0 {
        seq![]
    } else {
        named_entries(
            candidates_for(entries, names, n - 1),
            entries,
            names[n - 1],
            entries.len() as int,
        )
    }
}

/// The entries that go by one of the names, in the order of the names, none twice.
pub fn filename_candidates_for_names(entries: &Vec<FilePath>, names: &Vec<String>) -> (r: Vec<
    FilePath,
>)
    ensures
        views(r@) == candidates_for(views(entries@), texts(names@), names@.len() as int),
{
    let ghost list = views(entries@);
    let ghost wanted = texts(names@);
    let mut candidates: Vec<FilePath> = Vec::new();
    let mut i: usize = 0;
    proof {
        assert(views(candidates@) =~= seq![]);
    }
    while i < names.len()
        invariant
            i <= names@.len(),
            list == views(entries@),
            wanted == texts(names@),
            views(candidates@) == candidates_for(list, wanted, i as int),
        decreases names@.len() - i,
    {
        let ghost start = views(candidates@);
        proof {
            assert(wanted[i as int] == names@[i as int]@);
        }
        let mut k: usize = 0;
        while k < entries.len()
            invariant
                i < names@.len(),
                k <= entries@.len(),
                list == views(entries@),
                wanted[i as int] == names@[i as int]@,
                views(candidates@) == named_entries(start, list, wanted[i as int], k as int),
            decreases entries@.len() - k,
        {
            proof {
                assert(list[k as int] == entries@[k as int]@);
            }
            if file_goes_by(&entries[k], names[i].as_str()) && !holds_ci(&candidates, &entries[k])
            {
                let ghost held = candidates@;
                let copied = entries[k].copy();
                candidates.push(copied);
                proof {
                    assert(views(candidates@) =~= views(held).push(copied@));
                }
            }
            k += 1;
        }
        i += 1;
    }
    candidates
}

/// The names that no entry goes by, of the first `n`.
pub open spec fn missing_names(entries: Seq<Parts>, names: Seq<Seq<char>>, n: int) -> Seq<Seq<char>>
    decreases n,
{
    if n <= 0 {
        seq![]
    } else {
        let before = missing_names(entries, names, n - 1);
        if some_goes_by(entries, names[n - 1]) {
            before
        } else {
            before.push(names[n - 1])
        }
    }
}

/// One of the entries goes by a name.
pub open spec fn some_goes_by(entries: Seq<Parts>, name: Seq<char>) -> bool {
    exists|i: int| 0 <= i < entries.len() && goes_by(#[trigger] entries[i], name)
}

/// Whether one of the entries goes by a name.
pub fn any_goes_by(entries: &Vec<FilePath>, name: &str) -> (r: bool)
    ensures
        r == some_goes_by(views(entries@), name@),
{
    let ghost list = views(entries@);
    let mut i: usize = 0;
    while i < entries.len()
        invariant
            i <= entries@.len(),
            list == views(entries@),
            forall|j: int| 0 <= j < i ==> !goes_by(#[trigger] list[j], name@),
        decreases entries@.len() - i,
    {
        proof {
            assert(list[i as int] == entries@[i as int]@);
        }
        if file_goes_by(&entries[i], name) {
            return true;
        }
        i += 1;
    }
    false
}

/// The names that no entry goes by.
pub fn names_without_entry(entries: &Vec<FilePath>, names: &Vec<String>) -> (r: Vec<String>)
    ensures
        texts(r@) == missing_names(views(entries@), texts(names@), names@.len() as int),
{
    let ghost list = views(entries@);
    let ghost wanted = texts(names@);
    let mut missing: Vec<String> = Vec::new();
    let mut i: usize = 0;
    proof {
        assert(texts(missing@) =~= seq![]);
    }
    while i < names.len()
        invariant
            i <= names@.len(),
            list == views(entries@),
            wanted == texts(names@),
            texts(missing@) == missing_names(list, wanted, i as int),
        decreases names@.len() - i,
    {
        proof {
            assert(wanted[i as int] == names@[i as int]@);
        }
        if !any_goes_by(entries, names[i].as_str()) {
            let ghost held = missing@;
            let copied = names[i].clone();
            missing.push(copied);
            proof {
                assert(texts(missing@) =~= texts(held).push(copied@));
            }
        }
        i += 1;
    }
    missing
}

} // verus!
