//! Which package descriptors lie below a root.

use vstd::prelude::*;

use crate::budget::{lemma_counted_adds, lemma_spent_is_counted, Work};
use crate::cancel::Interrupt;
use crate::excludes::ExcludeMatcher;
use crate::keymap::Identity;
use crate::names::{extension_is, has_extension};
use crate::native::{show, shown};
use crate::paths::{path_text, stem_of, FilePath, Parts};
use crate::project::PathStamp;
use crate::sorting::{drop_repeats, sort, sorted_list, views, without_repeats, Ordered};
use crate::strings::{lemma_str_lt_order, lower, same_str, str_before, str_lt, to_lower};
use crate::strmap::{in_order, lemma_deep_insert, lemma_deep_remove, StrMap, StrSet};

verus! {

pub const MAX_PACKAGE_CATALOGUE_ENTRIES: usize = 524_288;

pub const MAX_PACKAGE_CATALOGUES: usize = 64;

/// A list of paths.
#[derive(Debug)]
pub struct PathList {
    pub paths: Vec<FilePath>,
}

impl View for PathList {
    type V = Seq<Parts>;

    open spec fn view(&self) -> Seq<Parts> {
        views(self.paths@)
    }
}

/// A path and the stamp that it had.
#[derive(Debug)]
pub struct StampedPath {
    pub path: FilePath,
    pub stamp: Option<PathStamp>,
}

/// A path and the stamp that it had.
pub struct StampedView {
    pub path: Parts,
    pub stamp: Option<PathStamp>,
}

impl View for StampedPath {
    type V = StampedView;

    open spec fn view(&self) -> StampedView {
        StampedView { path: self.path@, stamp: self.stamp }
    }
}

/// What an entry of a directory is.
#[derive(Clone, Copy, Debug, PartialEq, Eq, Structural)]
pub enum ScanKind {
    Directory,
    File,
    Link,
    Other,
}

/// An entry of a directory. What it is may be unknown; of a directory there is a stamp.
#[derive(Debug)]
pub struct ScanEntry {
    pub path: FilePath,
    pub kind: Option<ScanKind>,
    pub stamp: Option<PathStamp>,
}

/// An entry of a directory.
pub struct ScanEntryView {
    pub path: Parts,
    pub kind: Option<ScanKind>,
    pub stamp: Option<PathStamp>,
}

impl View for ScanEntry {
    type V = ScanEntryView;

    open spec fn view(&self) -> ScanEntryView {
        ScanEntryView { path: self.path@, kind: self.kind, stamp: self.stamp }
    }
}

impl Ordered for ScanEntry {
    open spec fn precedes(a: ScanEntryView, b: ScanEntryView) -> bool {
        str_lt(path_text(a.path), path_text(b.path))
    }

    proof fn lemma_order(a: ScanEntryView, b: ScanEntryView, c: ScanEntryView) {
        let x = path_text(a.path);
        let y = path_text(b.path);
        let z = path_text(c.path);
        lemma_str_lt_order(x, y, z);
        lemma_str_lt_order(z, y, x);
        lemma_str_lt_order(x, x, x);
        lemma_str_lt_order(y, z, x);
        lemma_str_lt_order(z, x, y);
    }

    fn is_before(&self, other: &Self) -> (r: bool) {
        str_before(self.path.text().as_str(), other.path.text().as_str())
    }
}

/// What reading a directory gives at one place: an entry, or an error.
#[derive(Debug)]
pub enum Listed {
    Entry(ScanEntry),
    Failed,
}

/// How many entries are read, from the `i`-th on, until one fails or there were enough.
pub open spec fn read_entries(listing: Seq<Listed>, visited: int, i: int) -> int
    decreases listing.len() - i,
{
    if i < 0 || i >= listing.len() || visited + i >= MAX_PACKAGE_CATALOGUE_ENTRIES
        || listing[i] is Failed {
        i
    } else {
        read_entries(listing, visited, i + 1)
    }
}

/// The first `n` entries of a listing.
pub open spec fn entries_in(listing: Seq<Listed>, n: int) -> Seq<ScanEntryView>
    decreases n,
{
    if n <= 0 {
        seq![]
    } else {
        entries_in(listing, n - 1).push(listing[n - 1]->Entry_0@)
    }
}

/// A descriptor of the extension, of the package with this name.
pub open spec fn describes(
    entry: ScanEntryView,
    name: Seq<char>,
    extension: Seq<char>,
    excludes: ExcludeMatcher,
    root: Parts,
) -> bool {
    &&& entry.kind == Some(ScanKind::File)
    &&& !excludes.excludes(entry.path, root)
    &&& has_extension(entry.path, extension)
    &&& stem_of(entry.path) is Some
    &&& lower(shown(stem_of(entry.path)->0)) == name
}

/// The descriptors of the extension among the first `n` entries.
pub open spec fn descriptors_in(
    entries: Seq<ScanEntryView>,
    name: Seq<char>,
    extension: Seq<char>,
    excludes: ExcludeMatcher,
    root: Parts,
    n: int,
) -> Seq<Parts>
    decreases n,
{
    if n <= 0 {
        seq![]
    } else {
        let before = descriptors_in(entries, name, extension, excludes, root, n - 1);
        if describes(entries[n - 1], name, extension, excludes, root) {
            before.push(entries[n - 1].path)
        } else {
            before
        }
    }
}

/// The descriptors of a package in a directory: package sources where there are any, else
/// project files.
pub open spec fn chosen_descriptors(
    entries: Seq<ScanEntryView>,
    name: Seq<char>,
    excludes: ExcludeMatcher,
    root: Parts,
) -> Seq<Parts> {
    let n = entries.len() as int;
    let sources = descriptors_in(entries, name, "dpk"@, excludes, root, n);
    if sources.len() > 0 {
        sources
    } else {
        descriptors_in(entries, name, "dproj"@, excludes, root, n)
    }
}

/// The catalogue with the descriptors of the first `n` packages.
pub open spec fn with_descriptors(
    catalogue: Map<Seq<char>, Seq<Parts>>,
    entries: Seq<ScanEntryView>,
    names: Seq<Seq<char>>,
    excludes: ExcludeMatcher,
    root: Parts,
    n: int,
) -> Map<Seq<char>, Seq<Parts>>
    decreases n,
{
    if n <= 0 {
        catalogue
    } else {
        let before = with_descriptors(catalogue, entries, names, excludes, root, n - 1);
        let name = names[n - 1];
        let found = chosen_descriptors(entries, name, excludes, root);
        if found.len() == 0 {
            before
        } else if before.contains_key(name) {
            before.insert(name, before[name] + found)
        } else {
            before.insert(name, found)
        }
    }
}

/// The directories among the first `n` entries, with their stamps.
pub open spec fn directories_in(entries: Seq<ScanEntryView>, n: int) -> Seq<StampedView>
    decreases n,
{
    if n <= 0 {
        seq![]
    } else if entries[n - 1].kind == Some(ScanKind::Directory) {
        directories_in(entries, n - 1).push(
            StampedView { path: entries[n - 1].path, stamp: entries[n - 1].stamp },
        )
    } else {
        directories_in(entries, n - 1)
    }
}

/// More entries hold no fewer directories.
proof fn lemma_directories_grow(entries: Seq<ScanEntryView>, m: int, n: int)
    requires
        m <= n,
    ensures
        directories_in(entries, m).len() <= directories_in(entries, n).len(),
    decreases n - m,
{
    if m < n {
        lemma_directories_grow(entries, m, n - 1);
    }
}

/// The directories among the first `n` entries that are searched.
pub open spec fn searched_in(
    entries: Seq<ScanEntryView>,
    excludes: ExcludeMatcher,
    root: Parts,
    n: int,
) -> Seq<Parts>
    decreases n,
{
    if n <= 0 {
        seq![]
    } else {
        let before = searched_in(entries, excludes, root, n - 1);
        if entries[n - 1].kind == Some(ScanKind::Directory) && !excludes.excludes(
            entries[n - 1].path,
            root,
        ) {
            before.push(entries[n - 1].path)
        } else {
            before
        }
    }
}

/// Of each of the first `n` entries it is known what it is.
pub open spec fn kinds_known(entries: Seq<ScanEntryView>, n: int) -> bool {
    forall|i: int| 0 <= i < n ==> (#[trigger] entries[i]).kind is Some
}

/// The search for package descriptors below a root.
#[derive(Debug)]
pub struct PackageScan {
    pub root: FilePath,
    pub requested: StrSet,
    pub entries: StrMap<PathList>,
    pub directories: Vec<StampedPath>,
    pub complete: bool,
    pub pending: Vec<FilePath>,
    /// How many of the pending directories were taken.
    pub at: usize,
    pub visited: usize,
    /// The search ended before all was seen.
    pub stopped: bool,
}

/// The search for package descriptors below a root.
#[verifier::ext_equal]
pub struct PackageScanView {
    pub root: Parts,
    pub requested: Set<Seq<char>>,
    pub entries: Map<Seq<char>, Seq<Parts>>,
    pub directories: Seq<StampedView>,
    pub complete: bool,
    pub pending: Seq<Parts>,
    pub at: int,
    pub visited: int,
    pub stopped: bool,
}

impl View for PackageScan {
    type V = PackageScanView;

    open spec fn view(&self) -> PackageScanView {
        PackageScanView {
            root: self.root@,
            requested: self.requested@,
            entries: self.entries.deep(),
            directories: views(self.directories@),
            complete: self.complete,
            pending: views(self.pending@),
            at: self.at as int,
            visited: self.visited as int,
            stopped: self.stopped,
        }
    }
}

/// The search before its first directory. A root that is a link is not searched.
pub open spec fn scan_start(
    root: Parts,
    stamp: Option<PathStamp>,
    link: bool,
    requested: Set<Seq<char>>,
) -> PackageScanView {
    PackageScanView {
        root,
        requested,
        entries: Map::empty(),
        directories: seq![StampedView { path: root, stamp }],
        complete: !link,
        pending: if link {
            seq![]
        } else {
            seq![root]
        },
        at: 0,
        visited: 1,
        stopped: false,
    }
}

/// The search after a directory that could not be read to its end.
pub open spec fn scan_stopped(scan: PackageScanView, read: int) -> PackageScanView {
    PackageScanView {
        complete: false,
        stopped: true,
        visited: scan.visited + read,
        ..scan
    }
}

/// The search after a directory.
pub open spec fn directory_scanned(
    scan: PackageScanView,
    listing: Seq<Listed>,
    excludes: ExcludeMatcher,
) -> PackageScanView {
    let read = read_entries(listing, scan.visited, 0);
    if read < listing.len() {
        scan_stopped(scan, read)
    } else {
        let entries = sorted_list::<ScanEntry>(entries_in(listing, listing.len() as int));
        let n = entries.len() as int;
        let names = in_order(scan.requested);
        PackageScanView {
            entries: with_descriptors(
                scan.entries,
                entries,
                names,
                excludes,
                scan.root,
                names.len() as int,
            ),
            directories: scan.directories + directories_in(entries, n),
            complete: scan.complete && kinds_known(entries, n),
            pending: scan.pending + searched_in(entries, excludes, scan.root, n),
            visited: scan.visited + read,
            ..scan
        }
    }
}

/// The visits, beside those of packages, that a directory is charged: one for each entry,
/// and one more for each directory among them.
pub open spec fn entry_visits(scan: PackageScanView, listing: Seq<Listed>) -> int {
    let read = read_entries(listing, scan.visited, 0);
    if read < listing.len() {
        0
    } else {
        let entries = sorted_list::<ScanEntry>(entries_in(listing, listing.len() as int));
        (entries.len() + directories_in(entries, entries.len() as int).len()) as int
    }
}

/// The catalogue with each list in order and without repeats.
pub open spec fn tidied(catalogue: Map<Seq<char>, Seq<Parts>>) -> Map<Seq<char>, Seq<Parts>> {
    catalogue.map_values(|paths: Seq<Parts>| tidy_paths(paths))
}

/// The paths in the order of their texts, each once.
pub open spec fn tidy_paths(paths: Seq<Parts>) -> Seq<Parts> {
    let sorted = sorted_list::<FilePath>(paths);
    without_repeats(sorted, sorted.len() as int)
}

proof fn lemma_read_bounds(listing: Seq<Listed>, visited: int, i: int)
    requires
        0 <= i <= listing.len(),
    ensures
        i <= read_entries(listing, visited, i) <= listing.len(),
    decreases listing.len() - i,
{
    if i < listing.len() && visited + i < MAX_PACKAGE_CATALOGUE_ENTRIES && !(listing[i] is Failed) {
        lemma_read_bounds(listing, visited, i + 1);
    }
}

impl PackageScan {
    /// No more entries were seen than may be, and no directory was taken that is not
    /// there.
    pub open spec fn wf(&self) -> bool {
        &&& self.at <= self.pending@.len()
        &&& self.visited <= MAX_PACKAGE_CATALOGUE_ENTRIES
    }

    /// The search below a root that has a stamp, before its first directory.
    pub fn new(
        root: &FilePath,
        stamp: Option<PathStamp>,
        link: bool,
        requested: StrSet,
        work: &mut Work,
    ) -> (r: Result<Self, Interrupt>)
        ensures
            final(work).continues(old(work)),
            old(work).unbounded() ==> r is Ok,
            r matches Err(Interrupt::BudgetExceeded) ==> final(work).used_up(),
            r matches Err(Interrupt::BudgetExceeded) ==> !old(work).affords(2, 0),
            r is Ok ==> r->Ok_0.wf() && r->Ok_0@ == scan_start(root@, stamp, link, requested@)
                && final(work).counted(old(work), 2, 1, 0, 0),
    {
        let ghost start = *work;
        work.check()?;
        work.visit_packages(1)?;
        let ghost middle = *work;
        work.check()?;
        work.visit(1)?;
        proof {
            lemma_spent_is_counted(&middle, &*work, 1, 0);
            lemma_counted_adds(&start, &middle, &*work, (1, 1, 0, 0), (1, 0, 0, 0));
        }
        let mut directories: Vec<StampedPath> = Vec::new();
        let first = StampedPath { path: root.copy(), stamp };
        directories.push(first);
        let mut pending: Vec<FilePath> = Vec::new();
        if !link {
            pending.push(root.copy());
        }
        let scan = PackageScan {
            root: root.copy(),
            requested,
            entries: StrMap::new(),
            directories,
            complete: !link,
            pending,
            at: 0,
            visited: 1,
            stopped: false,
        };
        proof {
            assert(views(directories@) =~= seq![first@]);
            assert(scan@ =~= scan_start(root@, stamp, link, requested@));
        }
        Ok(scan)
    }

    /// The next directory that is searched.
    pub fn next_directory(&mut self, work: &mut Work) -> (r: Result<Option<FilePath>, Interrupt>)
        requires
            old(self).wf(),
        ensures
            final(self).wf(),
            final(work).continues(old(work)),
            old(work).unbounded() ==> r is Ok,
            r matches Err(Interrupt::BudgetExceeded) ==> final(work).used_up(),
            r matches Err(Interrupt::BudgetExceeded) ==> !old(work).affords(1, 0),
            r is Err ==> final(self)@ == old(self)@,
            r is Ok ==> ({
                let more = !old(self).stopped && old(self)@.at < old(self)@.pending.len();
                match r->Ok_0 {
                    Some(directory) => more && directory@ == old(self)@.pending[old(self)@.at]
                        && final(self)@ == (PackageScanView { at: old(self)@.at + 1, ..old(self)@ })
                        && final(work).counted(old(work), 1, 1, 0, 0),
                    None => !more && final(self)@ == old(self)@,
                }
            }),
    {
        let ghost before = self@;
        proof {
            assert(before.pending.len() == self.pending@.len());
        }
        if self.stopped || self.at >= self.pending.len() {
            return Ok(None);
        }
        work.check()?;
        work.visit_packages(1)?;
        let directory = self.pending[self.at].copy();
        self.at = self.at + 1;
        proof {
            assert(self@ =~= (PackageScanView { at: before.at + 1, ..before }));
        }
        Ok(Some(directory))
    }

    /// Notes that a directory could not be read.
    pub fn unreadable(&mut self)
        requires
            old(self).wf(),
        ensures
            final(self).wf(),
            final(self)@ == scan_stopped(old(self)@, 0),
    {
        let ghost before = self@;
        self.complete = false;
        self.stopped = true;
        proof {
            assert(self@ =~= scan_stopped(before, 0));
        }
    }

    fn add_descriptors(&mut self, entries: &Vec<ScanEntry>, excludes: &ExcludeMatcher)
        ensures
            final(self)@ == (PackageScanView {
                entries: with_descriptors(
                    old(self)@.entries,
                    views(entries@),
                    in_order(old(self)@.requested),
                    *excludes,
                    old(self)@.root,
                    in_order(old(self)@.requested).len() as int,
                ),
                ..old(self)@
            }),
    {
        let ghost before = self@;
        let ghost list = views(entries@);
        let n: usize = self.requested.len();
        let ghost names = self.requested.members();
        let mut i: usize = 0;
        proof {
            assert(self@ =~= (PackageScanView {
                entries: with_descriptors(before.entries, list, names, *excludes, before.root, 0),
                ..before
            }));
        }
        while i < n
            invariant
                i <= n,
                n == names.len(),
                names == self.requested.members(),
                names == in_order(before.requested),
                list == views(entries@),
                self@ == (PackageScanView {
                    entries: with_descriptors(
                        before.entries,
                        list,
                        names,
                        *excludes,
                        before.root,
                        i as int,
                    ),
                    ..before
                }),
            decreases n - i,
        {
            let name = self.requested.at(i).clone();
            let found = choose_descriptors(entries, name.as_str(), excludes, &self.root);
            let ghost held = self.entries@;
            let ghost deep = self@.entries;
            proof {
                assert(views(found@).len() == found@.len());
            }
            if found.len() > 0 {
                let ghost added = views(found@);
                match self.entries.remove(name.as_str()) {
                    Some(mut list) => {
                        let ghost kept = list@;
                        append_paths(&mut list.paths, found);
                        proof {
                            lemma_deep_remove(held, name@);
                            lemma_deep_insert(held.remove(name@), name@, list);
                            assert(deep.remove(name@).insert(name@, list@) =~= deep.insert(
                                name@,
                                kept + added,
                            ));
                        }
                        let _none = self.entries.insert(name, list);
                    },
                    None => {
                        let list = PathList { paths: found };
                        proof {
                            assert(held.remove(name@) =~= held);
                            lemma_deep_insert(held, name@, list);
                        }
                        let _none = self.entries.insert(name, list);
                    },
                }
            } else {
                proof {
                    assert(self.entries@ =~= held);
                }
            }
            proof {
                assert(self@ =~= (PackageScanView {
                    entries: with_descriptors(
                        before.entries,
                        list,
                        names,
                        *excludes,
                        before.root,
                        i + 1,
                    ),
                    ..before
                }));
            }
            i += 1;
        }
    }

    /// Takes what a directory holds. Where not all of it can be seen, the search ends and
    /// the catalogue is not whole.
    pub fn scan_directory(
        &mut self,
        listing: Vec<Listed>,
        excludes: &ExcludeMatcher,
        work: &mut Work,
    ) -> (r: Result<(), Interrupt>)
        requires
            old(self).wf(),
        ensures
            final(self).wf(),
            final(work).continues(old(work)),
            old(work).unbounded() ==> r is Ok,
            r matches Err(Interrupt::BudgetExceeded) ==> final(work).used_up(),
            r matches Err(Interrupt::BudgetExceeded) ==> !old(work).affords(
                read_entries(listing@, old(self)@.visited, 0)
                    + 1
                    + entry_visits(old(self)@, listing@),
                0,
            ),
            r is Err ==> final(self)@ == old(self)@,
            r is Ok ==> ({
                let packages = read_entries(listing@, old(self)@.visited, 0) + 1;
                &&& final(self)@ == directory_scanned(old(self)@, listing@, *excludes)
                &&& final(work).counted(
                    old(work),
                    packages + entry_visits(old(self)@, listing@),
                    packages,
                    0,
                    0,
                )
            }),
    {
        let ghost start = *work;
        let ghost before = self@;
        let ghost all = listing@;
        let ghost read = read_entries(all, before.visited, 0);
        proof {
            lemma_read_bounds(all, before.visited, 0);
        }
        let count: usize = listing.len();
        let mut rest: Vec<Listed> = listing;
        let mut upside_down: Vec<Listed> = Vec::new();
        while rest.len() > 0
            invariant
                count == all.len(),
                rest@.len() + upside_down@.len() == count,
                rest@ == all.take(rest@.len() as int),
                forall|j: int|
                    0 <= j < upside_down@.len() ==> #[trigger] upside_down@[j] == all[count - 1 - j],
            decreases rest@.len(),
        {
            let ghost held = rest@;
            match rest.pop() {
                Some(item) => {
                    proof {
                        assert(rest@ =~= all.take(rest@.len() as int));
                    }
                    upside_down.push(item);
                },
                None => {},
            }
        }
        let mut children: Vec<ScanEntry> = Vec::new();
        let mut i: usize = 0;
        proof {
            assert(views(children@) =~= seq![]);
        }
        while i < count
            invariant
                i <= count,
                all == listing@,
                count == all.len(),
                self.wf(),
                self@ == before,
                start == *old(work),
                before == old(self)@,
                read == read_entries(all, before.visited, 0),
                read == read_entries(all, before.visited, i as int),
                0 <= read <= count,
                upside_down@.len() == count - i,
                forall|j: int|
                    0 <= j < upside_down@.len() ==> #[trigger] upside_down@[j] == all[count - 1 - j],
                children@.len() == i,
                views(children@) == entries_in(all, i as int),
                before.visited + i <= MAX_PACKAGE_CATALOGUE_ENTRIES,
                work.counted(&start, i as int, i as int, 0, 0),
            decreases count - i,
        {
            work.check()?;
            let ghost earlier = *work;
            proof {
                lemma_read_bounds(all, before.visited, i as int);
            }
            work.visit_packages(1)?;
            proof {
                lemma_counted_adds(
                    &start,
                    &earlier,
                    &*work,
                    (i as int, i as int, 0, 0),
                    (1, 1, 0, 0),
                );
            }
            let item = match upside_down.pop() {
                Some(item) => item,
                None => Listed::Failed,
            };
            proof {
                assert(item == all[i as int]);
            }
            if self.visited + i >= MAX_PACKAGE_CATALOGUE_ENTRIES {
                self.complete = false;
                self.stopped = true;
                self.visited = self.visited + i;
                proof {
                    assert(self@ =~= scan_stopped(before, read));
                }
                return Ok(());
            }
            match item {
                Listed::Failed => {
                    self.complete = false;
                    self.stopped = true;
                    self.visited = self.visited + i;
                    proof {
                        assert(self@ =~= scan_stopped(before, read));
                    }
                    return Ok(());
                },
                Listed::Entry(entry) => {
                    let ghost held = children@;
                    children.push(entry);
                    proof {
                        assert(views(children@) =~= views(held).push(entry@));
                    }
                },
            }
            i += 1;
        }
        work.check()?;
        let ghost earlier = *work;
        work.visit_packages(1)?;
        proof {
            lemma_counted_adds(
                &start,
                &earlier,
                &*work,
                (count as int, count as int, 0, 0),
                (1, 1, 0, 0),
            );
            assert(read == count);
        }
        let entries = sort(children);
        let ghost list = views(entries@);
        let ghost packages = count + 1;
        proof {
            assert(list.len() == entries@.len());
            assert(list == sorted_list::<ScanEntry>(entries_in(all, count as int)));
        }
        let mut directories: Vec<StampedPath> = Vec::new();
        let mut pending: Vec<FilePath> = Vec::new();
        let mut known = true;
        let mut k: usize = 0;
        proof {
            assert(views(directories@) =~= seq![]);
            assert(views(pending@) =~= seq![]);
        }
        while k < entries.len()
            invariant
                k <= entries@.len(),
                list == views(entries@),
                list.len() == entries@.len(),
                self.wf(),
                self@ == before,
                before == old(self)@,
                start == *old(work),
                packages == count + 1,
                count == all.len(),
                all == listing@,
                count == read_entries(all, before.visited, 0),
                list == sorted_list::<ScanEntry>(entries_in(all, count as int)),
                views(directories@) == directories_in(list, k as int),
                views(pending@) == searched_in(list, *excludes, before.root, k as int),
                known == kinds_known(list, k as int),
                work.counted(
                    &start,
                    packages + k + directories_in(list, k as int).len(),
                    packages,
                    0,
                    0,
                ),
            decreases entries@.len() - k,
        {
            let entry = &entries[k];
            proof {
                assert(list[k as int] == entry@);
            }
            work.check()?;
            let ghost earlier = *work;
            let ghost used = packages + k + directories_in(list, k as int).len();
            proof {
                lemma_directories_grow(list, k + 1, list.len() as int);
            }
            work.visit(1)?;
            proof {
                lemma_spent_is_counted(&earlier, &*work, 1, 0);
                lemma_counted_adds(&start, &earlier, &*work, (used, packages, 0, 0), (1, 0, 0, 0));
            }
            match entry.kind {
                None => {
                    known = false;
                },
                Some(kind) => {
                    if kind == ScanKind::Directory {
                        let ghost earlier = *work;
                        work.visit(1)?;
                        proof {
                            lemma_spent_is_counted(&earlier, &*work, 1, 0);
                            lemma_counted_adds(
                                &start,
                                &earlier,
                                &*work,
                                (used + 1, packages, 0, 0),
                                (1, 0, 0, 0),
                            );
                        }
                        let ghost held = directories@;
                        let stamped = StampedPath { path: entry.path.copy(), stamp: entry.stamp };
                        directories.push(stamped);
                        proof {
                            assert(views(directories@) =~= views(held).push(stamped@));
                        }
                        if !excludes.is_excluded(&entry.path, &self.root) {
                            let ghost held = pending@;
                            let copied = entry.path.copy();
                            pending.push(copied);
                            proof {
                                assert(views(pending@) =~= views(held).push(copied@));
                            }
                        }
                    }
                },
            }
            k += 1;
        }
        work.check()?;
        self.add_descriptors(&entries, excludes);
        append_stamped(&mut self.directories, directories);
        append_paths(&mut self.pending, pending);
        self.complete = self.complete && known;
        self.visited = self.visited + count;
        proof {
            assert(self@ =~= directory_scanned(before, all, *excludes));
        }
        Ok(())
    }
}

fn append_paths(target: &mut Vec<FilePath>, more: Vec<FilePath>)
    ensures
        views(final(target)@) == views(old(target)@) + views(more@),
        final(target)@.len() == old(target)@.len() + more@.len(),
{
    let ghost start = views(target@);
    let ghost added = views(more@);
    let mut i: usize = 0;
    proof {
        assert(start + added.take(0) =~= start);
    }
    while i < more.len()
        invariant
            i <= more@.len(),
            added == views(more@),
            start == views(old(target)@),
            target@.len() == old(target)@.len() + i,
            views(target@) == start + added.take(i as int),
        decreases more@.len() - i,
    {
        let ghost held = target@;
        let copied = more[i].copy();
        target.push(copied);
        proof {
            assert(added[i as int] == more@[i as int]@);
            assert(views(target@) =~= views(held).push(copied@));
            assert(start + added.take(i + 1) =~= (start + added.take(i as int)).push(
                added[i as int],
            ));
        }
        i += 1;
    }
    proof {
        assert(added.take(added.len() as int) =~= added);
    }
}

fn append_stamped(target: &mut Vec<StampedPath>, more: Vec<StampedPath>)
    ensures
        views(final(target)@) == views(old(target)@) + views(more@),
{
    let ghost start = views(target@);
    let ghost added = views(more@);
    let mut i: usize = 0;
    proof {
        assert(start + added.take(0) =~= start);
    }
    while i < more.len()
        invariant
            i <= more@.len(),
            added == views(more@),
            views(target@) == start + added.take(i as int),
        decreases more@.len() - i,
    {
        let ghost held = target@;
        let copied = StampedPath { path: more[i].path.copy(), stamp: more[i].stamp };
        target.push(copied);
        proof {
            assert(added[i as int] == more@[i as int]@);
            assert(views(target@) =~= views(held).push(copied@));
            assert(start + added.take(i + 1) =~= (start + added.take(i as int)).push(
                added[i as int],
            ));
        }
        i += 1;
    }
    proof {
        assert(added.take(added.len() as int) =~= added);
    }
}

fn is_descriptor(
    entry: &ScanEntry,
    name: &str,
    extension: &str,
    excludes: &ExcludeMatcher,
    root: &FilePath,
) -> (r: bool)
    ensures
        r == describes(entry@, name@, extension@, *excludes, root@),
{
    let file = match entry.kind {
        Some(kind) => kind == ScanKind::File,
        None => false,
    };
    if !file || excludes.is_excluded(&entry.path, root) || !extension_is(&entry.path, extension) {
        return false;
    }
    match entry.path.file_stem() {
        Some(stem) => same_str(to_lower(show(stem.as_str()).as_str()).as_str(), name),
        None => false,
    }
}

fn find_descriptors(
    entries: &Vec<ScanEntry>,
    name: &str,
    extension: &str,
    excludes: &ExcludeMatcher,
    root: &FilePath,
) -> (r: Vec<FilePath>)
    ensures
        views(r@) == descriptors_in(
            views(entries@),
            name@,
            extension@,
            *excludes,
            root@,
            entries@.len() as int,
        ),
{
    let ghost list = views(entries@);
    let mut found: Vec<FilePath> = Vec::new();
    let mut i: usize = 0;
    proof {
        assert(views(found@) =~= seq![]);
    }
    while i < entries.len()
        invariant
            i <= entries@.len(),
            list == views(entries@),
            views(found@) == descriptors_in(list, name@, extension@, *excludes, root@, i as int),
        decreases entries@.len() - i,
    {
        proof {
            assert(list[i as int] == entries@[i as int]@);
        }
        if is_descriptor(&entries[i], name, extension, excludes, root) {
            let ghost held = found@;
            let copied = entries[i].path.copy();
            found.push(copied);
            proof {
                assert(views(found@) =~= views(held).push(copied@));
            }
        }
        i += 1;
    }
    found
}

fn choose_descriptors(
    entries: &Vec<ScanEntry>,
    name: &str,
    excludes: &ExcludeMatcher,
    root: &FilePath,
) -> (r: Vec<FilePath>)
    ensures
        views(r@) == chosen_descriptors(views(entries@), name@, *excludes, root@),
{
    let sources = find_descriptors(entries, name, "dpk", excludes, root);
    proof {
        assert(views(entries@).len() == entries@.len());
        assert(views(sources@).len() == sources@.len());
    }
    if sources.len() > 0 {
        sources
    } else {
        find_descriptors(entries, name, "dproj", excludes, root)
    }
}

/// The descriptors that were found below a root, and for which names.
#[derive(Debug)]
pub struct PackageCatalogue {
    pub entries: StrMap<PathList>,
    pub requested: StrSet,
    pub complete: bool,
    pub directories: Vec<StampedPath>,
    pub validated_epoch: u64,
}

/// The descriptors that were found below a root.
#[verifier::ext_equal]
pub struct CatalogueView {
    pub entries: Map<Seq<char>, Seq<Parts>>,
    pub requested: Set<Seq<char>>,
    pub complete: bool,
    pub directories: Seq<StampedView>,
    pub validated_epoch: u64,
}

impl View for PackageCatalogue {
    type V = CatalogueView;

    open spec fn view(&self) -> CatalogueView {
        CatalogueView {
            entries: self.entries.deep(),
            requested: self.requested@,
            complete: self.complete,
            directories: views(self.directories@),
            validated_epoch: self.validated_epoch,
        }
    }
}

fn tidy(paths: Vec<FilePath>) -> (r: Vec<FilePath>)
    ensures
        views(r@) == tidy_paths(views(paths@)),
{
    let sorted = sort(paths);
    proof {
        assert(views(sorted@).len() == sorted@.len());
    }
    drop_repeats(&sorted)
}

impl PackageScan {
    /// The catalogue that a search came to.
    pub fn finish(self, epoch: u64) -> (r: PackageCatalogue)
        ensures
            r@ == (CatalogueView {
                entries: tidied(self@.entries),
                requested: self@.requested,
                complete: self@.complete,
                directories: self@.directories,
                validated_epoch: epoch,
            }),
    {
        let ghost all = self@.entries;
        let names = self.entries.key_list();
        let ghost keys = crate::strings::texts(names@);
        let mut rest = self.entries;
        let ghost held = rest@;
        let mut entries: StrMap<PathList> = StrMap::new();
        let mut i: usize = 0;
        proof {
            assert forall|j: int| 0 <= j < keys.len() implies rest@.contains_key(
                #[trigger] keys[j],
            ) && rest@[keys[j]]@ == all[keys[j]] by {
                assert(keys.contains(keys[j]));
            }
        }
        while i < names.len()
            invariant
                i <= names@.len(),
                keys == crate::strings::texts(names@),
                keys.no_duplicates(),
                forall|k: Seq<char>| #[trigger] keys.contains(k) <==> all.contains_key(k),
                forall|j: int|
                    i <= j < keys.len() ==> rest@.contains_key(#[trigger] keys[j])
                        && rest@[keys[j]]@ == all[keys[j]],
                forall|j: int|
                    0 <= j < i ==> entries@.contains_key(#[trigger] keys[j])
                        && entries@[keys[j]]@ == tidy_paths(all[keys[j]]),
                forall|k: Seq<char>| #[trigger] entries@.contains_key(k) ==> all.contains_key(k),
            decreases names@.len() - i,
        {
            proof {
                assert(keys[i as int] == names@[i as int]@);
                assert(keys.contains(keys[i as int]));
            }
            match rest.remove(names[i].as_str()) {
                Some(list) => {
                    let _none = entries.insert(
                        names[i].clone(),
                        PathList { paths: tidy(list.paths) },
                    );
                },
                None => {},
            }
            i += 1;
        }
        proof {
            assert forall|k: Seq<char>| #[trigger] all.contains_key(k) implies
                entries@.contains_key(k) && entries@[k]@ == tidy_paths(all[k]) by {
                assert(keys.contains(k));
                let j = choose|j: int| 0 <= j < keys.len() && keys[j] == k;
                assert(entries@.contains_key(keys[j]));
            }
            assert(entries.deep() =~= tidied(all));
        }
        PackageCatalogue {
            entries,
            requested: self.requested,
            complete: self.complete,
            directories: self.directories,
            validated_epoch: epoch,
        }
    }
}

} // verus!
