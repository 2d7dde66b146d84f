//! The catalogues of package descriptors, and the roots that they are made for.

use vstd::prelude::*;

use crate::budget::{lemma_counted_adds, lemma_spent_adds, lemma_spent_is_counted, Work};
use crate::caches::{newest, Cache, Kept};
use crate::cancel::Interrupt;
use crate::excludes::{compiled, optional_patterns, ExcludeMatcher, WorkspaceRoot};
use crate::keymap::Identity;
use crate::package_scan::{
    tidy_paths, CatalogueView, PackageCatalogue, StampedPath, StampedView, MAX_PACKAGE_CATALOGUES,
};
use crate::paths::{
    equal_ci, native_paths_equal, path_starts_with_ci, path_starts_with_native, paths_equal_ci,
    starts_with, starts_with_ci, FilePath, Parts,
};
use crate::project::{
    ContextKey, EntryView, KeyView, PathEntry, PathStamp, ProjectContext, Provenance,
    ProvenanceView,
};
use crate::sorting::{drop_repeats, sort, views};
use crate::strings::{lower, texts, to_lower};
use crate::strmap::StrSet;

verus! {

/// What tells one catalogue from another.
#[derive(Debug)]
pub struct PackageCatalogueKey {
    pub context: ContextKey,
    pub root: FilePath,
}

/// What tells one catalogue from another.
pub struct CatalogueKeyView {
    pub context: KeyView,
    pub root: Parts,
}

impl View for PackageCatalogueKey {
    type V = CatalogueKeyView;

    open spec fn view(&self) -> CatalogueKeyView {
        CatalogueKeyView { context: self.context@, root: self.root@ }
    }
}

impl Identity for PackageCatalogueKey {
    fn same_as(&self, other: &Self) -> (r: bool) {
        self.root.same(&other.root) && self.context.same_as(&other.context)
    }

    fn duplicate(&self) -> (r: Self) {
        PackageCatalogueKey { context: self.context.duplicate(), root: self.root.copy() }
    }
}

/// A directory that is there, and no link.
pub open spec fn real_directory(directory: StampedView) -> bool {
    directory.stamp is Some && directory.stamp->0.is_dir && !directory.stamp->0.is_symlink
}

/// Whether the directories from the `i`-th on can be read, and the visits that finding out
/// is charged.
pub open spec fn readable_from(directories: Seq<StampedView>, readable: Seq<bool>, i: int) -> (
    bool,
    nat,
)
    decreases directories.len() - i,
{
    if i < 0 || i >= directories.len() {
        (true, 0)
    } else if !real_directory(directories[i]) {
        readable_from(directories, readable, i + 1)
    } else if !readable[i] {
        (false, 1)
    } else {
        let rest = readable_from(directories, readable, i + 1);
        (rest.0, 1 + rest.1)
    }
}

/// Whether the paths from the `i`-th on have the stamps that they had, and how many are
/// looked at to find out.
pub open spec fn unchanged_from(paths: Seq<StampedView>, now: Seq<Option<PathStamp>>, i: int) -> (
    bool,
    nat,
)
    decreases paths.len() - i,
{
    if i < 0 || i >= paths.len() {
        (true, 0)
    } else if now[i] != paths[i].stamp {
        (false, 1)
    } else {
        let rest = unchanged_from(paths, now, i + 1);
        (rest.0, 1 + rest.1)
    }
}

/// Whether a catalogue still holds for the names, and the visits that finding out is
/// charged: those of directories that are opened, and those of packages.
pub open spec fn catalogue_fresh(
    catalogue: CatalogueView,
    requested: Set<Seq<char>>,
    readable: Seq<bool>,
    now: Seq<Option<PathStamp>>,
    epoch: u64,
) -> (bool, nat, nat) {
    if !catalogue.complete || !requested.subset_of(catalogue.requested) {
        (false, 0, 0)
    } else {
        let opened = readable_from(catalogue.directories, readable, 0);
        if !opened.0 {
            (false, opened.1, 0)
        } else if catalogue.validated_epoch == epoch {
            (true, opened.1, 0)
        } else {
            let same = unchanged_from(catalogue.directories, now, 0);
            (same.0, opened.1, same.1)
        }
    }
}

fn is_subset(small: &StrSet, large: &StrSet) -> (r: bool)
    ensures
        r == small@.subset_of(large@),
{
    let n: usize = small.len();
    let ghost members = small.members();
    let mut i: usize = 0;
    while i < n
        invariant
            i <= n,
            n == members.len(),
            members == small.members(),
            forall|j: int| 0 <= j < i ==> large@.contains(#[trigger] members[j]),
        decreases n - i,
    {
        if !large.contains(small.at(i).as_str()) {
            proof {
                assert(members.contains(members[i as int]));
                assert(small@.contains(members[i as int]));
            }
            return false;
        }
        i += 1;
    }
    proof {
        assert forall|m: Seq<char>| small@.contains(m) implies large@.contains(m) by {
            assert(members.contains(m));
            let j = choose|j: int| 0 <= j < members.len() && members[j] == m;
            assert(large@.contains(members[j]));
        }
    }
    true
}

fn all_readable(directories: &Vec<StampedPath>, readable: &Vec<bool>, work: &mut Work) -> (r: Result<
    bool,
    Interrupt,
>)
    requires
        directories@.len() == readable@.len(),
    ensures
        final(work).continues(old(work)),
        old(work).unbounded() ==> r is Ok,
        r matches Err(Interrupt::BudgetExceeded) ==> final(work).used_up(),
        r matches Err(Interrupt::BudgetExceeded) ==> !old(work).affords(
            readable_from(views(directories@), readable@, 0).1 as int,
            0,
        ),
        r is Ok ==> ({
            let opened = readable_from(views(directories@), readable@, 0);
            r->Ok_0 == opened.0 && final(work).spent(old(work), opened.1 as int, 0)
        }),
{
    let ghost start = *work;
    let ghost list = views(directories@);
    let ghost mut used: int = 0;
    let mut i: usize = 0;
    while i < directories.len()
        invariant
            i <= directories@.len(),
            directories@.len() == readable@.len(),
            list == views(directories@),
            start == *old(work),
            used >= 0,
            readable_from(list, readable@, 0) == ({
                let rest = readable_from(list, readable@, i as int);
                (rest.0, (used + rest.1) as nat)
            }),
            work.spent(&start, used, 0),
        decreases directories@.len() - i,
    {
        work.check()?;
        proof {
            assert(list[i as int] == directories@[i as int]@);
        }
        let is_there = match directories[i].stamp {
            Some(stamp) => stamp.is_dir && !stamp.is_symlink,
            None => false,
        };
        if is_there {
            let ghost before = *work;
            work.visit(1)?;
            proof {
                lemma_spent_adds(&start, &before, &*work, used, 0, 1, 0);
                used = used + 1;
            }
            if !readable[i] {
                return Ok(false);
            }
        }
        i += 1;
    }
    Ok(true)
}

/// Whether a catalogue still holds for the names. `readable` says of its directories
/// whether they can be read, `now` are the stamps that they have.
pub fn catalogue_is_fresh(
    catalogue: &PackageCatalogue,
    requested: &StrSet,
    readable: &Vec<bool>,
    now: &Vec<Option<PathStamp>>,
    epoch: u64,
    work: &mut Work,
) -> (r: Result<bool, Interrupt>)
    requires
        readable@.len() == catalogue.directories@.len(),
        now@.len() == catalogue.directories@.len(),
    ensures
        final(work).continues(old(work)),
        old(work).unbounded() ==> r is Ok,
        r matches Err(Interrupt::BudgetExceeded) ==> final(work).used_up(),
        r matches Err(Interrupt::BudgetExceeded) ==> !old(work).affords(
            (
                catalogue_fresh(catalogue@, requested@, readable@, now@, epoch).1
                    + catalogue_fresh(catalogue@, requested@, readable@, now@, epoch).2
            ) as int,
            0,
        ),
        r is Ok ==> ({
            let fresh = catalogue_fresh(catalogue@, requested@, readable@, now@, epoch);
            r->Ok_0 == fresh.0 && final(work).counted(
                old(work),
                (fresh.1 + fresh.2) as int,
                fresh.2 as int,
                0,
                0,
            )
        }),
{
    let ghost start = *work;
    if !catalogue.complete || !is_subset(requested, &catalogue.requested) {
        return Ok(false);
    }
    let ghost list = views(catalogue.directories@);
    let opened = all_readable(&catalogue.directories, readable, work)?;
    let ghost first = readable_from(list, readable@, 0).1 as int;
    proof {
        lemma_spent_is_counted(&start, &*work, first, 0);
    }
    if !opened || catalogue.validated_epoch == epoch {
        return Ok(opened);
    }
    let mut i: usize = 0;
    while i < catalogue.directories.len()
        invariant
            i <= catalogue.directories@.len(),
            now@.len() == catalogue.directories@.len(),
            list == views(catalogue.directories@),
            start == *old(work),
            first == readable_from(list, readable@, 0).1,
            catalogue_fresh(catalogue@, requested@, readable@, now@, epoch) == ({
                let rest = unchanged_from(list, now@, i as int);
                (rest.0, first as nat, (i + rest.1) as nat)
            }),
            work.counted(&start, first + i, i as int, 0, 0),
        decreases catalogue.directories@.len() - i,
    {
        work.check()?;
        let ghost before = *work;
        work.visit_packages(1)?;
        proof {
            lemma_counted_adds(
                &start,
                &before,
                &*work,
                (first + i, i as int, 0, 0),
                (1, 1, 0, 0),
            );
            assert(list[i as int] == catalogue.directories@[i as int]@);
        }
        if now[i] != catalogue.directories[i].stamp {
            return Ok(false);
        }
        i += 1;
    }
    Ok(true)
}

/// The names that are looked for when a catalogue is made anew: the requested ones, and
/// those that it held before.
pub fn names_to_scan(kept: Option<&PackageCatalogue>, requested: &StrSet) -> (r: StrSet)
    ensures
        r@ == (match kept {
            Some(catalogue) => requested@.union(catalogue@.requested),
            None => requested@,
        }),
{
    let mut names = requested.copy();
    if let Some(catalogue) = kept {
        let n: usize = catalogue.requested.len();
        let ghost members = catalogue.requested.members();
        let ghost start = names@;
        let mut i: usize = 0;
        proof {
            assert(members.take(0).to_set() =~= Set::empty());
            assert(names@ =~= start.union(members.take(0).to_set()));
        }
        while i < n
            invariant
                i <= n,
                n == members.len(),
                members == catalogue.requested.members(),
                names@ == start.union(members.take(i as int).to_set()),
            decreases n - i,
        {
            let _added = names.insert(catalogue.requested.at(i).clone());
            proof {
                crate::strmap::lemma_take_set(members, i as int);
                assert(names@ =~= start.union(members.take(i + 1).to_set()));
            }
            i += 1;
        }
        proof {
            assert(members.take(n as int) =~= members);
        }
    }
    names
}

/// The catalogues that are kept.
#[derive(Debug)]
pub struct PackageCatalogues {
    pub cache: Cache<PackageCatalogueKey, PackageCatalogue>,
    /// Raised whenever a descriptor may have come or gone.
    pub epoch: u64,
}

/// The descriptors of a package in the catalogues of the first `n` roots, and whether all
/// of these are known whole.
pub open spec fn catalogued(
    cache: Map<CatalogueKeyView, Kept<PackageCatalogue>>,
    context: KeyView,
    roots: Seq<Parts>,
    name: Seq<char>,
    n: int,
) -> (Seq<Parts>, bool)
    decreases n,
{
    if n <= 0 {
        (seq![], true)
    } else {
        let before = catalogued(cache, context, roots, name, n - 1);
        let key = CatalogueKeyView { context, root: roots[n - 1] };
        if !cache.contains_key(key) {
            (before.0, false)
        } else {
            let catalogue = cache[key].value@;
            let paths = if catalogue.entries.contains_key(name) {
                catalogue.entries[name]
            } else {
                seq![]
            };
            (
                with_new_paths(before.0, paths, paths.len() as int),
                before.1 && catalogue.complete,
            )
        }
    }
}

/// The paths with the first `n` of others that are not among them.
pub open spec fn with_new_paths(paths: Seq<Parts>, more: Seq<Parts>, n: int) -> Seq<Parts>
    decreases n,
{
    if n <= 0 {
        paths
    } else {
        let before = with_new_paths(paths, more, n - 1);
        if before.contains(more[n - 1]) {
            before
        } else {
            before.push(more[n - 1])
        }
    }
}

/// The visits that looking into the catalogues is charged.
pub open spec fn catalogued_visits(
    cache: Map<CatalogueKeyView, Kept<PackageCatalogue>>,
    context: KeyView,
    roots: Seq<Parts>,
    name: Seq<char>,
    n: int,
) -> nat
    decreases n,
{
    if n <= 0 {
        0
    } else {
        let key = CatalogueKeyView { context, root: roots[n - 1] };
        catalogued_visits(cache, context, roots, name, n - 1) + 1 + (if cache.contains_key(key)
            && cache[key].value@.entries.contains_key(name) {
            cache[key].value@.entries[name].len()
        } else {
            0
        })
    }
}

/// More roots take no fewer visits.
proof fn lemma_catalogued_visits_grow(
    cache: Map<CatalogueKeyView, Kept<PackageCatalogue>>,
    context: KeyView,
    roots: Seq<Parts>,
    name: Seq<char>,
    m: int,
    n: int,
)
    requires
        m <= n,
    ensures
        catalogued_visits(cache, context, roots, name, m) <= catalogued_visits(
            cache,
            context,
            roots,
            name,
            n,
        ),
    decreases n - m,
{
    if m < n {
        lemma_catalogued_visits_grow(cache, context, roots, name, m, n - 1);
    }
}

/// Whether a list of paths holds one.
pub fn holds_path(paths: &Vec<FilePath>, path: &FilePath) -> (r: bool)
    ensures
        r == views(paths@).contains(path@),
{
    let ghost list = views(paths@);
    let mut i: usize = 0;
    while i < paths.len()
        invariant
            i <= paths@.len(),
            list == views(paths@),
            forall|j: int| 0 <= j < i ==> #[trigger] list[j] != path@,
        decreases paths@.len() - i,
    {
        proof {
            assert(list[i as int] == paths@[i as int]@);
        }
        if paths[i].same(path) {
            return true;
        }
        i += 1;
    }
    false
}

impl PackageCatalogues {
    /// None.
    pub fn new() -> (r: Self)
        ensures
            r.cache@ == Map::<CatalogueKeyView, Kept<PackageCatalogue>>::empty(),
            r.epoch == 0,
    {
        PackageCatalogues { cache: Cache::new(), epoch: 0 }
    }

    /// Notes that a descriptor may have come or gone: every catalogue has to be looked at
    /// again.
    pub fn raise_epoch(&mut self)
        ensures
            final(self).cache == old(self).cache,
            final(self).epoch == (if old(self).epoch == u64::MAX {
                u64::MAX
            } else {
                (old(self).epoch + 1) as u64
            }),
    {
        self.epoch = self.epoch.saturating_add(1);
    }

    /// Uses a catalogue that still holds.
    pub fn reuse(&mut self, key: &PackageCatalogueKey, clock: u64)
        ensures
            final(self).epoch == old(self).epoch,
            final(self).cache@.remove(key@) == old(self).cache@.remove(key@),
            final(self).cache@.contains_key(key@) == old(self).cache@.contains_key(key@),
            old(self).cache@.contains_key(key@) ==> final(self).cache@[key@].last_used == clock
                && final(self).cache@[key@].value@ == (CatalogueView {
                validated_epoch: old(self).epoch,
                ..old(self).cache@[key@].value@
            }),
    {
        let ghost before = self.cache@;
        match self.cache.entries.remove(key) {
            Some(kept) => {
                let mut catalogue = kept.value;
                let ghost was = catalogue@;
                catalogue.validated_epoch = self.epoch;
                proof {
                    assert(catalogue@ =~= (CatalogueView { validated_epoch: self.epoch, ..was }));
                }
                let _none = self.cache.entries.insert(
                    key.duplicate(),
                    Kept { value: catalogue, last_used: clock },
                );
                proof {
                    assert(self.cache@.remove(key@) =~= before.remove(key@));
                }
            },
            None => {
                proof {
                    assert(self.cache@ =~= before);
                }
            },
        }
    }

    /// Keeps a catalogue that was made.
    pub fn keep(&mut self, key: PackageCatalogueKey, catalogue: PackageCatalogue, clock: u64)
        ensures
            final(self).epoch == old(self).epoch,
            newest(
                old(self).cache@.insert(key@, Kept { value: catalogue, last_used: clock }),
                final(self).cache@,
                MAX_PACKAGE_CATALOGUES as nat,
            ),
    {
        self.cache.put(key, catalogue, clock, MAX_PACKAGE_CATALOGUES);
    }

    /// The descriptors of a package in the catalogues of the roots, each once and in
    /// order, and whether all of these are known whole.
    pub fn package_descriptors(
        &self,
        context: &ContextKey,
        roots: &Vec<FilePath>,
        name: &str,
        work: &mut Work,
    ) -> (r: Result<(Vec<FilePath>, bool), Interrupt>)
        ensures
            final(work).continues(old(work)),
            old(work).unbounded() ==> r is Ok,
            r matches Err(Interrupt::BudgetExceeded) ==> final(work).used_up(),
            r matches Err(Interrupt::BudgetExceeded) ==> !old(work).affords(
                catalogued_visits(
                    self.cache@,
                    context@,
                    views(roots@),
                    lower(name@),
                    roots@.len() as int,
                ) as int,
                0,
            ),
            r is Ok ==> ({
                let found = catalogued(
                    self.cache@,
                    context@,
                    views(roots@),
                    lower(name@),
                    roots@.len() as int,
                );
                &&& views(r->Ok_0.0@) == tidy_paths(found.0)
                &&& r->Ok_0.1 == found.1
                &&& final(work).spent(
                    old(work),
                    catalogued_visits(
                        self.cache@,
                        context@,
                        views(roots@),
                        lower(name@),
                        roots@.len() as int,
                    ) as int,
                    0,
                )
            }),
    {
        let ghost start = *work;
        let ghost cache = self.cache@;
        let ghost places = views(roots@);
        let wanted = to_lower(name);
        work.check()?;
        let mut found: Vec<FilePath> = Vec::new();
        let mut complete = true;
        let mut i: usize = 0;
        proof {
            assert(views(found@) =~= seq![]);
        }
        while i < roots.len()
            invariant
                i <= roots@.len(),
                cache == self.cache@,
                places == views(roots@),
                wanted@ == lower(name@),
                start == *old(work),
                (views(found@), complete) == catalogued(
                    cache,
                    context@,
                    places,
                    wanted@,
                    i as int,
                ),
                work.spent(
                    &start,
                    catalogued_visits(cache, context@, places, wanted@, i as int) as int,
                    0,
                ),
            decreases roots@.len() - i,
        {
            work.check()?;
            let ghost before = *work;
            let ghost used = catalogued_visits(cache, context@, places, wanted@, i as int) as int;
            let ghost whole = catalogued_visits(
                cache,
                context@,
                places,
                wanted@,
                places.len() as int,
            ) as int;
            proof {
                lemma_catalogued_visits_grow(
                    cache,
                    context@,
                    places,
                    wanted@,
                    i + 1,
                    places.len() as int,
                );
            }
            work.visit(1)?;
            proof {
                lemma_spent_adds(&start, &before, &*work, used, 0, 1, 0);
                assert(places[i as int] == roots@[i as int]@);
            }
            let key = PackageCatalogueKey { context: context.duplicate(), root: roots[i].copy() };
            match self.cache.get(&key) {
                None => {
                    complete = false;
                },
                Some(catalogue) => {
                    let ghost known = views(found@);
                    match catalogue.entries.get(wanted.as_str()) {
                        Some(list) => {
                            let ghost more = views(list.paths@);
                            let mut k: usize = 0;
                            proof {
                                assert(catalogue@.entries[wanted@] == more);
                            }
                            while k < list.paths.len()
                                invariant
                                    k <= list.paths@.len(),
                                    more == views(list.paths@),
                                    whole == catalogued_visits(
                                        self.cache@,
                                        context@,
                                        views(roots@),
                                        lower(name@),
                                        roots@.len() as int,
                                    ),
                                    used + 1 + more.len() <= whole,
                                    start == *old(work),
                                    used >= 0,
                                    views(found@) == with_new_paths(known, more, k as int),
                                    work.spent(&start, used + 1 + k, 0),
                                decreases list.paths@.len() - k,
                            {
                                work.check()?;
                                let ghost before = *work;
                                work.visit(1)?;
                                proof {
                                    lemma_spent_adds(
                                        &start,
                                        &before,
                                        &*work,
                                        used + 1 + k,
                                        0,
                                        1,
                                        0,
                                    );
                                    assert(more[k as int] == list.paths@[k as int]@);
                                }
                                if !holds_path(&found, &list.paths[k]) {
                                    let ghost held = found@;
                                    let copied = list.paths[k].copy();
                                    found.push(copied);
                                    proof {
                                        assert(views(found@) =~= views(held).push(copied@));
                                    }
                                }
                                k += 1;
                            }
                        },
                        None => {},
                    }
                    complete = complete && catalogue.complete;
                },
            }
            i += 1;
        }
        let sorted = sort(found);
        proof {
            assert(views(sorted@).len() == sorted@.len());
        }
        Ok((drop_repeats(&sorted), complete))
    }
}

/// The entry lies in a mapped root.
pub open spec fn entry_in_root(
    entry: EntryView,
    configured: Parts,
    resolved: Parts,
    exists_now: bool,
) -> bool {
    match entry.provenance {
        ProvenanceView::Mapped(root) => root == resolved || equal_ci(root, configured),
        ProvenanceView::Configured => starts_with(entry.path, resolved) || starts_with(
            entry.path,
            configured,
        ) || (!exists_now && starts_with_ci(entry.path, configured)),
        ProvenanceView::LegacyNative => false,
    }
}

fn is_entry_in_root(
    entry: &PathEntry,
    configured: &FilePath,
    resolved: &FilePath,
    exists_now: bool,
) -> (r: bool)
    ensures
        r == entry_in_root(entry@, configured@, resolved@, exists_now),
{
    match &entry.provenance {
        Provenance::Mapped(root) => root.same(resolved) || paths_equal_ci(root, configured),
        Provenance::Configured => path_starts_with_native(&entry.path, resolved)
            || path_starts_with_native(&entry.path, configured) || (!exists_now
            && path_starts_with_ci(&entry.path, configured)),
        Provenance::LegacyNative => false,
    }
}

pub open spec fn any_in_root(
    entries: Seq<PathEntry>,
    configured: Parts,
    resolved: Parts,
    exists_now: bool,
) -> bool {
    exists|i: int|
        0 <= i < entries.len() && entry_in_root(
            (#[trigger] entries[i])@,
            configured,
            resolved,
            exists_now,
        )
}

fn any_entry_in_root(
    entries: &Vec<PathEntry>,
    configured: &FilePath,
    resolved: &FilePath,
    exists_now: bool,
) -> (r: bool)
    ensures
        r == any_in_root(entries@, configured@, resolved@, exists_now),
{
    let mut i: usize = 0;
    while i < entries.len()
        invariant
            i <= entries@.len(),
            forall|j: int|
                0 <= j < i ==> !entry_in_root(
                    (#[trigger] entries@[j])@,
                    configured@,
                    resolved@,
                    exists_now,
                ),
        decreases entries@.len() - i,
    {
        if is_entry_in_root(&entries[i], configured, resolved, exists_now) {
            return true;
        }
        i += 1;
    }
    false
}

/// A project uses a mapped root: one of its entries lies in it.
pub open spec fn uses_root(
    context: ProjectContext,
    configured: Parts,
    resolved: Parts,
    exists_now: bool,
) -> bool {
    ||| context.main_source_entry is Some && entry_in_root(
        context.main_source_entry->0@,
        configured,
        resolved,
        exists_now,
    )
    ||| any_in_root(context.search_path_entries@, configured, resolved, exists_now)
    ||| any_in_root(context.include_path_entries@, configured, resolved, exists_now)
    ||| exists|i: int|
        0 <= i < context.explicit_unit_entries@.len() && entry_in_root(
            (#[trigger] context.explicit_unit_entries@[i]).1@,
            configured,
            resolved,
            exists_now,
        )
}

/// Whether a project uses a mapped root. `exists_now` says that the root that it leads to
/// is there.
pub fn context_uses_mapped_root(
    context: &ProjectContext,
    configured: &FilePath,
    resolved: &FilePath,
    exists_now: bool,
) -> (r: bool)
    ensures
        r == uses_root(*context, configured@, resolved@, exists_now),
{
    if let Some(entry) = &context.main_source_entry {
        if is_entry_in_root(entry, configured, resolved, exists_now) {
            return true;
        }
    }
    if any_entry_in_root(&context.search_path_entries, configured, resolved, exists_now)
        || any_entry_in_root(&context.include_path_entries, configured, resolved, exists_now) {
        return true;
    }
    let mut i: usize = 0;
    while i < context.explicit_unit_entries.len()
        invariant
            i <= context.explicit_unit_entries@.len(),
            forall|j: int|
                0 <= j < i ==> !entry_in_root(
                    (#[trigger] context.explicit_unit_entries@[j]).1@,
                    configured@,
                    resolved@,
                    exists_now,
                ),
        decreases context.explicit_unit_entries@.len() - i,
    {
        if is_entry_in_root(
            &context.explicit_unit_entries[i].1,
            configured,
            resolved,
            exists_now,
        ) {
            return true;
        }
        i += 1;
    }
    false
}

/// A root that a mapping names: as it is written, where it leads, and whether that is
/// there, itself or as a link.
#[derive(Debug)]
pub struct MappedRoot {
    pub configured: FilePath,
    pub resolved: FilePath,
    pub seen: bool,
    pub exists_now: bool,
}

/// The source roots of the first `n` folders, each once.
pub open spec fn folder_roots(roots: Seq<WorkspaceRoot>, n: int) -> Seq<Parts>
    decreases n,
{
    if n <= 0 {
        seq![]
    } else {
        let sources = views(roots[n - 1].source_roots@);
        with_new_paths(folder_roots(roots, n - 1), sources, sources.len() as int)
    }
}

/// The number of source roots of the first `n` folders.
pub open spec fn folder_root_count(roots: Seq<WorkspaceRoot>, n: int) -> nat
    decreases n,
{
    if n <= 0 {
        0
    } else {
        folder_root_count(roots, n - 1) + roots[n - 1].source_roots@.len()
    }
}

/// More folders have no fewer source roots.
proof fn lemma_folder_root_count_grow(roots: Seq<WorkspaceRoot>, m: int, n: int)
    requires
        m <= n,
    ensures
        folder_root_count(roots, m) <= folder_root_count(roots, n),
    decreases n - m,
{
    if m < n {
        lemma_folder_root_count_grow(roots, m, n - 1);
    }
}

/// The roots with the first `n` mapped ones: those that are there, or that the project
/// uses.
pub open spec fn with_mapped_roots(
    paths: Seq<Parts>,
    mapped: Seq<MappedRoot>,
    context: ProjectContext,
    n: int,
) -> Seq<Parts>
    decreases n,
{
    if n <= 0 {
        paths
    } else {
        let before = with_mapped_roots(paths, mapped, context, n - 1);
        let root = mapped[n - 1];
        if (!root.seen && !uses_root(
            context,
            root.configured@,
            root.resolved@,
            root.exists_now,
        )) || before.contains(root.resolved@) {
            before
        } else {
            before.push(root.resolved@)
        }
    }
}

/// The roots below which packages are looked for.
pub fn package_catalogue_roots(
    roots: &Vec<WorkspaceRoot>,
    context: &ProjectContext,
    mapped: &Vec<MappedRoot>,
    work: &mut Work,
) -> (r: Result<Vec<FilePath>, Interrupt>)
    ensures
        final(work).continues(old(work)),
        old(work).unbounded() ==> r is Ok,
        r matches Err(Interrupt::BudgetExceeded) ==> final(work).used_up(),
        r matches Err(Interrupt::BudgetExceeded) ==> !old(work).affords(
            (folder_root_count(roots@, roots@.len() as int) + mapped@.len()) as int,
            0,
        ),
        r is Ok ==> ({
            let visits = folder_root_count(roots@, roots@.len() as int) + mapped@.len();
            &&& views(r->Ok_0@) == with_mapped_roots(
                folder_roots(roots@, roots@.len() as int),
                mapped@,
                *context,
                mapped@.len() as int,
            )
            &&& final(work).counted(old(work), visits as int, visits as int, 0, 0)
        }),
{
    let ghost start = *work;
    let mut list: Vec<FilePath> = Vec::new();
    let mut i: usize = 0;
    proof {
        assert(views(list@) =~= seq![]);
    }
    while i < roots.len()
        invariant
            i <= roots@.len(),
            start == *old(work),
            views(list@) == folder_roots(roots@, i as int),
            work.counted(
                &start,
                folder_root_count(roots@, i as int) as int,
                folder_root_count(roots@, i as int) as int,
                0,
                0,
            ),
        decreases roots@.len() - i,
    {
        let sources = &roots[i].source_roots;
        let ghost used = folder_root_count(roots@, i as int) as int;
        let ghost known = views(list@);
        let ghost more = views(sources@);
        proof {
            lemma_folder_root_count_grow(roots@, i + 1, roots@.len() as int);
        }
        let mut k: usize = 0;
        while k < sources.len()
            invariant
                used + sources@.len() <= folder_root_count(roots@, roots@.len() as int),
                k <= sources@.len(),
                more == views(sources@),
                start == *old(work),
                used >= 0,
                views(list@) == with_new_paths(known, more, k as int),
                work.counted(&start, used + k, used + k, 0, 0),
            decreases sources@.len() - k,
        {
            work.check()?;
            let ghost before = *work;
            work.visit_packages(1)?;
            proof {
                lemma_counted_adds(
                    &start,
                    &before,
                    &*work,
                    (used + k, used + k, 0, 0),
                    (1, 1, 0, 0),
                );
                assert(more[k as int] == sources@[k as int]@);
            }
            if !holds_path(&list, &sources[k]) {
                let ghost held = list@;
                let copied = sources[k].copy();
                list.push(copied);
                proof {
                    assert(views(list@) =~= views(held).push(copied@));
                }
            }
            k += 1;
        }
        i += 1;
    }
    let ghost first = views(list@);
    let ghost used = folder_root_count(roots@, roots@.len() as int) as int;
    let mut m: usize = 0;
    while m < mapped.len()
        invariant
            m <= mapped@.len(),
            start == *old(work),
            used >= 0,
            used == folder_root_count(roots@, roots@.len() as int),
            views(list@) == with_mapped_roots(first, mapped@, *context, m as int),
            work.counted(&start, used + m, used + m, 0, 0),
        decreases mapped@.len() - m,
    {
        work.check()?;
        let ghost before = *work;
        work.visit_packages(1)?;
        proof {
            lemma_counted_adds(
                &start,
                &before,
                &*work,
                (used + m, used + m, 0, 0),
                (1, 1, 0, 0),
            );
        }
        let root = &mapped[m];
        let counts = root.seen || context_uses_mapped_root(
            context,
            &root.configured,
            &root.resolved,
            root.exists_now,
        );
        if counts && !holds_path(&list, &root.resolved) {
            let ghost held = list@;
            let copied = root.resolved.copy();
            list.push(copied);
            proof {
                assert(views(list@) =~= views(held).push(copied@));
            }
        }
        m += 1;
    }
    Ok(list)
}

/// The first of the folders from `i` on that a context belongs to.
pub open spec fn folder_of_context(roots: Seq<WorkspaceRoot>, key: KeyView, i: int) -> Option<int>
    decreases roots.len() - i,
{
    if i < 0 || i >= roots.len() {
        None
    } else if key.workspace_root == Some(roots[i].path@) {
        Some(i)
    } else {
        folder_of_context(roots, key, i + 1)
    }
}

/// What a scan for packages below a root leaves out: what the folder of the context does, or
/// without one nothing but what is left out everywhere.
pub fn package_excludes(roots: &Vec<WorkspaceRoot>, key: &ContextKey, root: &FilePath) -> (r:
    ExcludeMatcher)
    ensures
        match folder_of_context(roots@, key@, 0) {
            Some(i) => {
                &&& 0 <= i < roots@.len()
                &&& r.root@ == roots@[i].excludes.root@
                &&& r.config_root@ == roots@[i].excludes.config_root@
                &&& optional_patterns(r.patterns) == optional_patterns(
                    roots@[i].excludes.patterns,
                )
            },
            None => {
                &&& r.root@ == root@
                &&& r.config_root@ == root@
                &&& optional_patterns(r.patterns) == compiled(seq![])
            },
        },
{
    let mut i: usize = 0;
    while i < roots.len()
        invariant
            i <= roots@.len(),
            folder_of_context(roots@, key@, 0) == folder_of_context(roots@, key@, i as int),
        decreases roots@.len() - i,
    {
        if let Some(selected) = &key.workspace_root {
            if native_paths_equal(selected, &roots[i].path) {
                return roots[i].excludes.copy();
            }
        }
        i += 1;
    }
    let none: Vec<String> = Vec::new();
    proof {
        assert(texts(none@) =~= seq![]);
    }
    ExcludeMatcher::new(root, root, &none)
}

} // verus!
