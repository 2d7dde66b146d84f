//! The files that a watcher reported as deleted, until they are seen to be back.

use vstd::prelude::*;

use crate::budget::{lemma_spent_adds, sort_work, sort_work_estimate, Work};
use crate::cancel::Interrupt;
use crate::paths::{equal_ci, paths_equal_ci, FilePath, Parts};
use crate::project::DiskStamp;
use crate::sorting::{sort, sorted_list, views};
use crate::strmap::{in_order, lemma_finite_set_has_order, StrMap};
use crate::uris::{file_path_of, uri_path};

verus! {

pub const MAX_DELETED_OVERRIDES: usize = 256;

/// The files that were reported as deleted, with the stamps that they had then.
#[derive(Debug)]
pub struct DeletedFiles {
    pub entries: StrMap<Option<DiskStamp>>,
}

impl View for DeletedFiles {
    type V = Map<Seq<char>, Option<DiskStamp>>;

    open spec fn view(&self) -> Map<Seq<char>, Option<DiskStamp>> {
        self.entries@
    }
}

/// The deleted files with one more. Where no more may be kept, the first is let go.
pub open spec fn with_deleted(
    before: Map<Seq<char>, Option<DiskStamp>>,
    uri: Seq<char>,
    stamp: Option<DiskStamp>,
) -> Map<Seq<char>, Option<DiskStamp>> {
    if before.dom().len() >= MAX_DELETED_OVERRIDES && !before.contains_key(uri) {
        before.remove(in_order(before.dom())[0]).insert(uri, stamp)
    } else {
        before.insert(uri, stamp)
    }
}

/// The paths of the first `n` deleted files.
pub open spec fn deleted_paths(uris: Seq<Seq<char>>, n: int) -> Seq<Parts>
    decreases n,
{
    if n <= 0 {
        seq![]
    } else {
        match uri_path(uris[n - 1]) {
            Some(path) => deleted_paths(uris, n - 1).push(path),
            None => deleted_paths(uris, n - 1),
        }
    }
}

/// The first `n` paths without those that are the one kept before them, but for case.
pub open spec fn without_case_repeats(paths: Seq<Parts>, n: int) -> Seq<Parts>
    decreases n,
{
    if n <= 0 {
        seq![]
    } else {
        let before = without_case_repeats(paths, n - 1);
        if before.len() > 0 && equal_ci(before.last(), paths[n - 1]) {
            before
        } else {
            before.push(paths[n - 1])
        }
    }
}

/// The paths of the deleted files, in the order of their texts.
pub open spec fn snapshot_of(deleted: Map<Seq<char>, Option<DiskStamp>>) -> Seq<Parts> {
    let uris = in_order(deleted.dom());
    let sorted = sorted_list::<FilePath>(deleted_paths(uris, uris.len() as int));
    without_case_repeats(sorted, sorted.len() as int)
}

/// The visits that taking them is charged.
pub open spec fn snapshot_visits(deleted: Map<Seq<char>, Option<DiskStamp>>) -> int {
    let uris = in_order(deleted.dom());
    let n = deleted_paths(uris, uris.len() as int).len();
    deleted.dom().len() + sort_work(n) + (if n > 0 {
        n - 1
    } else {
        0
    })
}

impl DeletedFiles {
    /// There are no more than may be kept.
    pub open spec fn wf(&self) -> bool {
        self@.dom().finite() && self@.dom().len() <= MAX_DELETED_OVERRIDES
    }

    /// None.
    pub fn new() -> (r: Self)
        ensures
            r.wf(),
            r@ == Map::<Seq<char>, Option<DiskStamp>>::empty(),
    {
        let r = DeletedFiles { entries: StrMap::new() };
        proof {
            assert(r@.dom() =~= Set::<Seq<char>>::empty());
        }
        r
    }

    /// Whether the file was reported as deleted.
    pub fn contains(&self, uri: &str) -> (r: bool)
        ensures
            r == self@.contains_key(uri@),
    {
        self.entries.contains_key(uri)
    }

    /// Notes that a file was deleted, with the stamp that it has.
    pub fn remember_deleted(&mut self, uri: &str, stamp: Option<DiskStamp>)
        requires
            old(self).wf(),
        ensures
            final(self).wf(),
            final(self)@ == with_deleted(old(self)@, uri@, stamp),
    {
        let ghost before = self@;
        let n: usize = self.entries.len();
        if n >= MAX_DELETED_OVERRIDES && !self.entries.contains_key(uri) {
            let victim = self.entries.key_at(0).clone();
            proof {
                assert(before.remove(victim@).dom() =~= before.dom().remove(victim@));
            }
            let _gone = self.entries.remove(victim.as_str());
        }
        proof {
            assert(self@.insert(uri@, stamp).dom() =~= self@.dom().insert(uri@));
            if self@.contains_key(uri@) {
                assert(self@.dom().insert(uri@) =~= self@.dom());
            }
        }
        let _before = self.entries.insert(uri.to_owned(), stamp);
    }

    /// Forgets that a file was deleted.
    pub fn forget(&mut self, uri: &str)
        requires
            old(self).wf(),
        ensures
            final(self).wf(),
            final(self)@ == old(self)@.remove(uri@),
    {
        let ghost before = self@;
        let _gone = self.entries.remove(uri);
        proof {
            assert(before.remove(uri@).dom() =~= before.dom().remove(uri@));
        }
    }

    /// The paths of the deleted files, in the order of their texts, each once but for
    /// case.
    pub fn deleted_path_snapshot(&self, work: &mut Work) -> (r: Result<Vec<FilePath>, Interrupt>)
        ensures
            final(work).continues(old(work)),
            old(work).unbounded() ==> r is Ok,
            r matches Err(Interrupt::BudgetExceeded) ==> final(work).used_up(),
            r matches Err(Interrupt::BudgetExceeded) ==> !old(work).affords(
                snapshot_visits(self@),
                0,
            ),
            r is Ok ==> views(r->Ok_0@) == snapshot_of(self@) && final(work).spent(
                old(work),
                snapshot_visits(self@),
                0,
            ),
    {
        let ghost start = *work;
        let n: usize = self.entries.len();
        let ghost uris = self.entries.keys();
        work.visit(n)?;
        let mut paths: Vec<FilePath> = Vec::new();
        let mut i: usize = 0;
        proof {
            assert(views(paths@) =~= seq![]);
        }
        while i < n
            invariant
                i <= n,
                n == uris.len(),
                uris == self.entries.keys(),
                start == *old(work),
                work.spent(&start, n as int, 0),
                views(paths@) == deleted_paths(uris, i as int),
            decreases n - i,
        {
            work.check()?;
            if let Some(path) = file_path_of(self.entries.key_at(i).as_str()) {
                let ghost held = paths@;
                paths.push(path);
                proof {
                    assert(views(paths@) =~= views(held).push(path@));
                }
            }
            i += 1;
        }
        work.check()?;
        let count: usize = paths.len();
        let estimate: usize = sort_work_estimate(count);
        let ghost before = *work;
        work.visit(estimate)?;
        proof {
            lemma_spent_adds(&start, &before, &*work, n as int, 0, estimate as int, 0);
        }
        let sorted = sort(paths);
        let ghost list = views(sorted@);
        if count > 0 {
            let ghost before = *work;
            work.visit(count - 1)?;
            proof {
                lemma_spent_adds(&start, &before, &*work, n + estimate, 0, count - 1, 0);
            }
        }
        let ghost after = *work;
        let mut unique: Vec<FilePath> = Vec::new();
        let mut k: usize = 0;
        proof {
            assert(views(unique@) =~= seq![]);
        }
        while k < sorted.len()
            invariant
                k <= sorted@.len(),
                list == views(sorted@),
                after == *work,
                after.continues(old(work)),
                views(unique@) == without_case_repeats(list, k as int),
            decreases sorted@.len() - k,
        {
            work.check()?;
            proof {
                assert(list[k as int] == sorted@[k as int]@);
            }
            let repeated = unique.len() > 0 && paths_equal_ci(&unique[unique.len() - 1], &sorted[k]);
            proof {
                if unique@.len() > 0 {
                    assert(views(unique@).last() == unique@[unique@.len() - 1]@);
                }
            }
            if !repeated {
                let ghost held = unique@;
                let copied = sorted[k].copy();
                unique.push(copied);
                proof {
                    assert(views(unique@) =~= views(held).push(copied@));
                }
            }
            k += 1;
        }
        Ok(unique)
    }

    /// Whether a file that was reported as deleted is still gone: it has the stamp that it
    /// had then. Where it has another, the report is forgotten.
    pub fn deletion_blocks_load(&mut self, uri: &str, now: Option<DiskStamp>, work: &mut Work) -> (r:
        Result<bool, Interrupt>)
        requires
            old(self).wf(),
        ensures
            final(self).wf(),
            final(work).continues(old(work)),
            old(work).unbounded() ==> r is Ok,
            r matches Err(Interrupt::BudgetExceeded) ==> final(work).used_up(),
            r matches Err(Interrupt::BudgetExceeded) ==> !old(work).affords(
                if old(self)@.contains_key(uri@) { 1 } else { 0 },
                0,
            ),
            r is Ok ==> ({
                let blocked = old(self)@.contains_key(uri@) && old(self)@[uri@] == now;
                &&& r->Ok_0 == blocked
                &&& final(self)@ == (if blocked {
                    old(self)@
                } else {
                    old(self)@.remove(uri@)
                })
                &&& final(work).spent(
                    old(work),
                    if old(self)@.contains_key(uri@) {
                        1
                    } else {
                        0
                    },
                    0,
                )
            }),
            r is Err ==> final(self)@ == old(self)@,
    {
        work.check()?;
        let stamp = match self.entries.get(uri) {
            Some(stamp) => *stamp,
            None => {
                proof {
                    assert(self@.remove(uri@) =~= self@);
                }
                return Ok(false);
            },
        };
        work.visit(1)?;
        work.check()?;
        work.settle()?;
        if now == stamp {
            return Ok(true);
        }
        self.forget(uri);
        Ok(false)
    }
}

/// However many files are deleted, no more are kept than may be, and the last one is.
pub proof fn law_deleted_files_are_bounded(
    before: Map<Seq<char>, Option<DiskStamp>>,
    uri: Seq<char>,
    stamp: Option<DiskStamp>,
)
    requires
        before.dom().finite(),
        before.dom().len() <= MAX_DELETED_OVERRIDES,
    ensures
        with_deleted(before, uri, stamp).dom().len() <= MAX_DELETED_OVERRIDES,
        with_deleted(before, uri, stamp).contains_key(uri),
        with_deleted(before, uri, stamp)[uri] == stamp,
{
    let victim = in_order(before.dom())[0];
    if before.dom().len() >= MAX_DELETED_OVERRIDES && !before.contains_key(uri) {
        let order = in_order(before.dom());
        lemma_finite_set_has_order(before.dom());
        assert(order.to_set().contains(before.dom().choose()));
        assert(order.to_set().contains(order[0]));
        let after = before.remove(victim);
        assert(after.dom() =~= before.dom().remove(victim));
        assert(after.insert(uri, stamp).dom() =~= after.dom().insert(uri));
    } else {
        assert(before.insert(uri, stamp).dom() =~= before.dom().insert(uri));
        if before.contains_key(uri) {
            assert(before.dom().insert(uri) =~= before.dom());
        }
    }
}

} // verus!
