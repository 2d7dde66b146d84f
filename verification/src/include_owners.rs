//! The search for the sources that may include a file.

use vstd::prelude::*;

use crate::access::analyzable;
use crate::budget::{lemma_counted_adds, Work};
use crate::cancel::Interrupt;
use crate::deleted::without_case_repeats;
use crate::documents::{DocumentView, OpenDocuments};
use crate::excludes::WorkspaceRoot;
use crate::names::is_analyzable_source_path;
use crate::paths::{equal_ci, paths_equal_ci, FilePath, Parts};
use crate::sorting::{sort, sorted_list, views};
use crate::strings::{same_str, texts};
use crate::strmap::{in_order, StrSet};
use crate::uris::{canonical, canonical_file_uri, file_path_of, path_uri, uri_of_path, uri_path};

verus! {

/// How many sources are looked at to find those that include another.
pub const MAX_INCLUDE_OWNER_DISCOVERY: usize = 256;

/// The file names of a workspace folder, if all of them are known.
#[derive(Debug)]
pub struct FolderListing {
    pub complete: bool,
    pub paths: Vec<FilePath>,
}

/// The open documents, among the first `n`, that may include the file: those with a text
/// that are analysed, but for the file itself.
pub open spec fn open_owners(
    uris: Seq<Seq<char>>,
    open: Map<Seq<char>, DocumentView>,
    included: Seq<char>,
    n: int,
) -> Set<Seq<char>>
    decreases n,
{
    if n <= 0 {
        Set::empty()
    } else {
        let before = open_owners(uris, open, included, n - 1);
        let uri = uris[n - 1];
        if open[uri].text is Some && uri != included && uri_path(uri) is Some && analyzable(
            uri_path(uri)->0,
        ) {
            before.insert(canonical(uri))
        } else {
            before
        }
    }
}

/// The files, among the first `n` of a folder, that may include the file.
pub open spec fn file_owners(paths: Seq<Parts>, included: Parts, n: int) -> Set<Seq<char>>
    decreases n,
{
    if n <= 0 {
        Set::empty()
    } else {
        let before = file_owners(paths, included, n - 1);
        if !equal_ci(paths[n - 1], included) && path_uri(paths[n - 1]) is Some {
            before.insert(canonical(path_uri(paths[n - 1])->0))
        } else {
            before
        }
    }
}

/// The files of a folder in order, each once but for case.
pub open spec fn distinct_files(paths: Seq<Parts>) -> Seq<Parts> {
    let sorted = sorted_list::<FilePath>(paths);
    without_case_repeats(sorted, sorted.len() as int)
}

/// The sources with a file that may include another.
pub open spec fn with_file_owner(
    owners: Set<Seq<char>>,
    path: Parts,
    included: Parts,
) -> Set<Seq<char>> {
    if !equal_ci(path, included) && path_uri(path) is Some {
        owners.insert(canonical(path_uri(path)->0))
    } else {
        owners
    }
}

/// The sources with the first `n` files of a folder that may include another, how many of
/// the files were looked at, and whether there are no more sources than are looked at: once
/// there are, no further file counts.
pub open spec fn files_taken(
    owners: Set<Seq<char>>,
    files: Seq<Parts>,
    included: Parts,
    n: int,
) -> (Set<Seq<char>>, nat, bool)
    decreases n,
{
    if n <= 0 {
        (owners, 0, true)
    } else {
        let before = files_taken(owners, files, included, n - 1);
        if before.2 {
            let after = with_file_owner(before.0, files[n - 1], included);
            (after, before.1 + 1, after.len() <= MAX_INCLUDE_OWNER_DISCOVERY)
        } else {
            before
        }
    }
}

/// The files of the first `n` folders that may include the file.
pub open spec fn folder_owners(folders: Seq<FolderListing>, included: Parts, n: int) -> Set<Seq<char>>
    decreases n,
{
    if n <= 0 {
        Set::empty()
    } else {
        let files = distinct_files(views(folders[n - 1].paths@));
        folder_owners(folders, included, n - 1).union(
            file_owners(files, included, files.len() as int),
        )
    }
}

fn drop_case_repeats(paths: &Vec<FilePath>) -> (r: Vec<FilePath>)
    ensures
        views(r@) == without_case_repeats(views(paths@), paths@.len() as int),
{
    let ghost list = views(paths@);
    let mut unique: Vec<FilePath> = Vec::new();
    let mut k: usize = 0;
    proof {
        assert(views(unique@) =~= seq![]);
    }
    while k < paths.len()
        invariant
            k <= paths@.len(),
            list == views(paths@),
            views(unique@) == without_case_repeats(list, k as int),
        decreases paths@.len() - k,
    {
        proof {
            assert(list[k as int] == paths@[k as int]@);
            if unique@.len() > 0 {
                assert(views(unique@).last() == unique@[unique@.len() - 1]@);
            }
        }
        if unique.len() == 0 || !paths_equal_ci(&unique[unique.len() - 1], &paths[k]) {
            let ghost held = unique@;
            let copied = paths[k].copy();
            unique.push(copied);
            proof {
                assert(views(unique@) =~= views(held).push(copied@));
            }
        }
        k += 1;
    }
    unique
}

fn copy_folder(paths: &Vec<FilePath>) -> (r: Vec<FilePath>)
    ensures
        views(r@) == views(paths@),
{
    let mut copied: Vec<FilePath> = Vec::new();
    let mut i: usize = 0;
    while i < paths.len()
        invariant
            i <= paths@.len(),
            views(copied@) == views(paths@).take(i as int),
        decreases paths@.len() - i,
    {
        let ghost held = copied@;
        let item = paths[i].copy();
        copied.push(item);
        proof {
            assert(views(copied@) =~= views(held).push(item@));
            assert(views(paths@).take(i + 1) =~= views(paths@).take(i as int).push(
                paths@[i as int]@,
            ));
        }
        i += 1;
    }
    proof {
        assert(views(paths@).take(paths@.len() as int) =~= views(paths@));
    }
    copied
}

/// A search for the sources that may include a file.
#[derive(Debug)]
pub struct OwnerSearch {
    pub owners: StrSet,
    /// Every folder is known whole so far, and there are no more sources than are looked at.
    pub whole: bool,
}

/// A search for the sources that may include a file.
#[verifier::ext_equal]
pub struct OwnerSearchView {
    pub owners: Set<Seq<char>>,
    pub whole: bool,
}

impl View for OwnerSearch {
    type V = OwnerSearchView;

    open spec fn view(&self) -> OwnerSearchView {
        OwnerSearchView { owners: self.owners@, whole: self.whole }
    }
}

/// The search once the files of a folder were looked at.
pub open spec fn folder_taken(
    search: OwnerSearchView,
    folder: FolderListing,
    included: Parts,
) -> OwnerSearchView {
    let files = distinct_files(views(folder.paths@));
    let taken = files_taken(search.owners, files, included, files.len() as int);
    if folder.complete {
        OwnerSearchView { owners: taken.0, whole: taken.2 }
    } else {
        OwnerSearchView { whole: false, ..search }
    }
}

/// The path visits that looking at the files of a folder is charged: each file as it is
/// listed, and each that is looked at.
pub open spec fn folder_visits(
    search: OwnerSearchView,
    folder: FolderListing,
    included: Parts,
) -> int {
    let files = distinct_files(views(folder.paths@));
    if folder.complete {
        (folder.paths@.len() + files_taken(
            search.owners,
            files,
            included,
            files.len() as int,
        ).1) as int
    } else {
        0
    }
}

/// The folders in the order in which they are searched.
pub fn owner_folders(roots: &Vec<WorkspaceRoot>) -> (r: Vec<FilePath>)
    ensures
        views(r@) == sorted_list::<FilePath>(
            Seq::new(roots@.len(), |i: int| roots@[i].path@),
        ),
{
    let mut paths: Vec<FilePath> = Vec::new();
    let ghost goal = Seq::new(roots@.len(), |i: int| roots@[i].path@);
    let mut i: usize = 0;
    proof {
        assert(views(paths@) =~= goal.take(0));
    }
    while i < roots.len()
        invariant
            i <= roots@.len(),
            goal == Seq::new(roots@.len(), |i: int| roots@[i].path@),
            views(paths@) == goal.take(i as int),
        decreases roots@.len() - i,
    {
        let ghost held = paths@;
        let copied = roots[i].path.copy();
        paths.push(copied);
        proof {
            assert(views(paths@) =~= views(held).push(copied@));
            assert(goal.take(i + 1) =~= goal.take(i as int).push(goal[i as int]));
        }
        i += 1;
    }
    proof {
        assert(goal.take(goal.len() as int) =~= goal);
    }
    sort(paths)
}

proof fn lemma_files_looked_at(
    owners: Set<Seq<char>>,
    files: Seq<Parts>,
    included: Parts,
    m: int,
    n: int,
)
    requires
        m <= n,
    ensures
        files_taken(owners, files, included, m).1 <= files_taken(owners, files, included, n).1,
        !files_taken(owners, files, included, m).2 ==> files_taken(owners, files, included, n)
            == files_taken(owners, files, included, m),
    decreases n - m,
{
    if m < n {
        lemma_files_looked_at(owners, files, included, m, n - 1);
    }
}

impl OwnerSearch {
    /// Begins with the open documents. One visit is charged for each.
    pub fn begin(documents: &OpenDocuments, included: &str, work: &mut Work) -> (r: Result<
        OwnerSearch,
        Interrupt,
    >)
        ensures
            final(work).continues(old(work)),
            old(work).unbounded() ==> r is Ok,
            r matches Err(Interrupt::BudgetExceeded) ==> final(work).used_up(),
            r matches Err(Interrupt::BudgetExceeded) ==> !old(work).affords(
                documents@.dom().len() as int,
                0,
            ),
            r is Ok ==> {
                let uris = in_order(documents@.dom());
                let n = documents@.dom().len() as int;
                &&& r->Ok_0@.owners == open_owners(uris, documents@, included@, n)
                &&& r->Ok_0@.whole == (r->Ok_0@.owners.len() <= MAX_INCLUDE_OWNER_DISCOVERY)
                &&& final(work).counted(old(work), n, 0, n, 0)
            },
    {
        let ghost open = documents@;
        let ghost start = *work;
        let n: usize = documents.documents.len();
        let ghost uris = documents.documents.keys();
        proof {
            assert(open.dom() =~= documents.documents@.dom());
        }
        let mut owners = StrSet::new();
        let mut i: usize = 0;
        while i < n
            invariant
                i <= n,
                n == uris.len(),
                n == open.dom().len(),
                uris == documents.documents.keys(),
                open == documents@,
                start == *old(work),
                owners@ == open_owners(uris, open, included@, i as int),
                work.counted(&start, i as int, 0, i as int, 0),
            decreases n - i,
        {
            work.check()?;
            let ghost before = *work;
            work.visit_includes(1)?;
            proof {
                lemma_counted_adds(
                    &start,
                    &before,
                    &*work,
                    (i as int, 0, i as int, 0),
                    (1, 0, 1, 0),
                );
            }
            let uri = documents.documents.key_at(i);
            let document = documents.documents.value_at(i);
            proof {
                assert(open[uri@] == document@);
            }
            if document.text.is_some() && !same_str(uri.as_str(), included) {
                if let Some(place) = file_path_of(uri.as_str()) {
                    if is_analyzable_source_path(&place) {
                        let _added = owners.insert(canonical_file_uri(uri.as_str()));
                    }
                }
            }
            i += 1;
        }
        let whole = owners.len() <= MAX_INCLUDE_OWNER_DISCOVERY;
        Ok(OwnerSearch { owners, whole })
    }

    /// Enters a folder, for which one visit is charged before its files are listed.
    pub fn enter_folder(&self, work: &mut Work) -> (r: Result<(), Interrupt>)
        requires
            self.whole,
        ensures
            final(work).continues(old(work)),
            old(work).unbounded() ==> r is Ok,
            r matches Err(Interrupt::BudgetExceeded) ==> final(work).used_up(),
            r matches Err(Interrupt::BudgetExceeded) ==> !old(work).affords(1, 0),
            r is Ok ==> final(work).counted(old(work), 1, 0, 1, 0),
    {
        work.check()?;
        work.visit_includes(1)
    }

    /// Looks at the files of a folder. Where the work is stopped, the search is as it was.
    pub fn take_folder(&mut self, folder: &FolderListing, included: &FilePath, work: &mut Work) -> (r:
        Result<(), Interrupt>)
        requires
            old(self).whole,
        ensures
            final(work).continues(old(work)),
            old(work).unbounded() ==> r is Ok,
            r matches Err(Interrupt::BudgetExceeded) ==> final(work).used_up(),
            r matches Err(Interrupt::BudgetExceeded) ==> !old(work).affords(
                folder_visits(old(self)@, *folder, included@),
                0,
            ),
            r is Ok ==> final(self)@ == folder_taken(old(self)@, *folder, included@),
            r is Ok ==> final(work).counted(
                old(work),
                folder_visits(old(self)@, *folder, included@),
                0,
                folder_visits(old(self)@, *folder, included@),
                0,
            ),
            r is Err ==> final(self)@ == old(self)@,
    {
        if !folder.complete {
            self.whole = false;
            return Ok(());
        }
        let ghost start = *work;
        let ghost search = self@;
        let ghost listed = folder.paths@.len() as int;
        let ghost list = distinct_files(views(folder.paths@));
        let ghost whole = folder_visits(search, *folder, included@);
        let mut i: usize = 0;
        while i < folder.paths.len()
            invariant
                i <= folder.paths@.len(),
                listed == folder.paths@.len(),
                folder.complete,
                self@ == search,
                search == old(self)@,
                start == *old(work),
                whole == folder_visits(search, *folder, included@),
                listed <= whole,
                work.counted(&start, i as int, 0, i as int, 0),
            decreases folder.paths@.len() - i,
        {
            work.check()?;
            let ghost before = *work;
            work.visit_includes(1)?;
            proof {
                lemma_counted_adds(
                    &start,
                    &before,
                    &*work,
                    (i as int, 0, i as int, 0),
                    (1, 0, 1, 0),
                );
            }
            i += 1;
        }
        let sorted = sort(copy_folder(&folder.paths));
        proof {
            assert(views(sorted@).len() == sorted@.len());
        }
        let files = drop_case_repeats(&sorted);
        proof {
            assert(views(files@) == list);
            assert(views(files@).len() == files@.len());
        }
        let mut owners = self.owners.copy();
        let mut k: usize = 0;
        while k < files.len()
            invariant
                k <= files@.len(),
                files@.len() == list.len(),
                list == views(files@),
                list == distinct_files(views(folder.paths@)),
                listed == folder.paths@.len(),
                folder.complete,
                self@ == search,
                search == old(self)@,
                start == *old(work),
                whole == folder_visits(search, *folder, included@),
                files_taken(search.owners, list, included@, k as int) == (
                    owners@,
                    k as nat,
                    true,
                ),
                work.counted(&start, listed + k, 0, listed + k, 0),
            decreases files@.len() - k,
        {
            work.check()?;
            let ghost before = *work;
            proof {
                lemma_files_looked_at(
                    search.owners,
                    list,
                    included@,
                    k + 1,
                    list.len() as int,
                );
                assert(list[k as int] == files@[k as int]@);
            }
            work.visit_includes(1)?;
            proof {
                lemma_counted_adds(
                    &start,
                    &before,
                    &*work,
                    (listed + k, 0, listed + k, 0),
                    (1, 0, 1, 0),
                );
            }
            if !paths_equal_ci(&files[k], included) {
                if let Some(uri) = uri_of_path(&files[k]) {
                    let _added = owners.insert(canonical_file_uri(uri.as_str()));
                }
            }
            if owners.len() > MAX_INCLUDE_OWNER_DISCOVERY {
                self.owners = owners;
                self.whole = false;
                return Ok(());
            }
            k += 1;
        }
        self.owners = owners;
        Ok(())
    }

    /// The sources that may include the file, in the order of their URIs; none where it
    /// cannot be told.
    pub fn finish(self) -> (r: Option<Vec<String>>)
        ensures
            match r {
                Some(list) => self.whole && texts(list@) == in_order(self@.owners),
                None => !self.whole,
            },
    {
        if self.whole {
            Some(self.owners.list())
        } else {
            None
        }
    }
}

proof fn lemma_files_taken(owners: Set<Seq<char>>, files: Seq<Parts>, included: Parts, n: int)
    requires
        files_taken(owners, files, included, n).2,
    ensures
        files_taken(owners, files, included, n).0 == owners.union(
            file_owners(files, included, n),
        ),
    decreases n,
{
    if n > 0 {
        lemma_files_taken(owners, files, included, n - 1);
    }
    assert(files_taken(owners, files, included, n).0 =~= owners.union(
        file_owners(files, included, n),
    ));
}

/// The search once the first `n` folders were looked at.
pub open spec fn folders_taken(
    search: OwnerSearchView,
    folders: Seq<FolderListing>,
    included: Parts,
    n: int,
) -> OwnerSearchView
    decreases n,
{
    if n <= 0 {
        search
    } else {
        let before = folders_taken(search, folders, included, n - 1);
        if before.whole {
            folder_taken(before, folders[n - 1], included)
        } else {
            before
        }
    }
}

/// A search that is whole after all folders has found all that may include the file: the
/// open documents that it began with, and the files of the folders.
pub proof fn law_a_whole_search_finds_every_owner(
    search: OwnerSearchView,
    folders: Seq<FolderListing>,
    included: Parts,
    n: int,
)
    requires
        0 <= n <= folders.len(),
        folders_taken(search, folders, included, n).whole,
    ensures
        folders_taken(search, folders, included, n).owners == search.owners.union(
            folder_owners(folders, included, n),
        ),
        forall|i: int| 0 <= i < n ==> (#[trigger] folders[i]).complete,
    decreases n,
{
    let after = folders_taken(search, folders, included, n);
    if n > 0 {
        let before = folders_taken(search, folders, included, n - 1);
        law_a_whole_search_finds_every_owner(search, folders, included, n - 1);
        let files = distinct_files(views(folders[n - 1].paths@));
        lemma_files_taken(before.owners, files, included, files.len() as int);
    }
    assert(after.owners =~= search.owners.union(folder_owners(folders, included, n)));
}

} // verus!
