//! What is kept of package descriptors, and what a project watches on their account.

use std::sync::Arc;

use vstd::prelude::*;

use crate::budget::{lemma_counted_adds, lemma_spent_adds, lemma_spent_is_counted, Work};
use crate::caches::{newest, Cache, Kept};
use crate::cancel::Interrupt;
use crate::conditional::{ConditionalContext, ConditionalView};
use crate::contexts::ContextStore;
use crate::discovery::{
    all_reads, find_read, lemma_path_bytes, lemma_path_bytes_grow, merge_project_read_observations, path_bytes, read_stamp,
};
use crate::installation::{
    copy_files, merge_metadata_observations, merged_metadata, same_but, state_of,
};
use crate::keymap::{Identity, KeyMap};
use crate::names::{extension_is, has_extension};
use crate::package_lookup::{PackageFacts, PackageLookup};
use crate::package_scan::{StampedPath, StampedView};
use crate::packages::unchanged_from;
use crate::paths::{path_ci_lookup_key, path_text, FilePath, Parts};
use crate::project::{
    ContextKey, ContextState, EffectiveOverrides, OverridesView, PathStamp, ProjectContext,
    ReadView, StateView,
};
use crate::settings::copy_optional_text;
use crate::sorting::views;
use crate::strings::{byte_length, concat3, lower, same_str};
use crate::strmap::StrSet;
use crate::uris::optional_text;

verus! {

pub const MAX_PACKAGE_METADATA_CACHE: usize = 512;

/// What the reading of a package descriptor rests on.
#[derive(Debug)]
pub struct PackageMetadataKey {
    pub descriptor: FilePath,
    pub overrides: EffectiveOverrides,
    pub read_policy: String,
    pub config: Option<String>,
    pub platform: Option<String>,
    pub conditional_context: ConditionalContext,
}

/// What the reading of a package descriptor rests on.
#[verifier::ext_equal]
pub struct MetadataKeyView {
    pub descriptor: Parts,
    pub overrides: OverridesView,
    pub read_policy: Seq<char>,
    pub config: Option<Seq<char>>,
    pub platform: Option<Seq<char>>,
    pub conditional_context: ConditionalView,
}

impl View for PackageMetadataKey {
    type V = MetadataKeyView;

    open spec fn view(&self) -> MetadataKeyView {
        MetadataKeyView {
            descriptor: self.descriptor@,
            overrides: self.overrides@,
            read_policy: self.read_policy@,
            config: optional_text(self.config),
            platform: optional_text(self.platform),
            conditional_context: self.conditional_context@,
        }
    }
}

fn same_text(a: &Option<String>, b: &Option<String>) -> (r: bool)
    ensures
        r == (optional_text(*a) == optional_text(*b)),
{
    match (a, b) {
        (Some(a), Some(b)) => same_str(a.as_str(), b.as_str()),
        (None, None) => true,
        _ => false,
    }
}

impl Identity for PackageMetadataKey {
    fn same_as(&self, other: &Self) -> (r: bool) {
        self.descriptor.same(&other.descriptor) && self.overrides.same(&other.overrides)
            && same_str(self.read_policy.as_str(), other.read_policy.as_str()) && same_text(
            &self.config,
            &other.config,
        ) && same_text(&self.platform, &other.platform) && self.conditional_context.same(
            &other.conditional_context,
        )
    }

    fn duplicate(&self) -> (r: Self) {
        PackageMetadataKey {
            descriptor: self.descriptor.copy(),
            overrides: self.overrides.copy(),
            read_policy: self.read_policy.clone(),
            config: copy_optional_text(&self.config),
            platform: copy_optional_text(&self.platform),
            conditional_context: self.conditional_context.copy(),
        }
    }
}

impl PackageMetadataKey {
    /// What the reading of a descriptor rests on in a project.
    pub fn of(descriptor: &FilePath, context: &ProjectContext, read_policy: &str) -> (r: Self)
        ensures
            r@ == (MetadataKeyView {
                descriptor: descriptor@,
                overrides: context.overrides@,
                read_policy: read_policy@,
                config: optional_text(context.config),
                platform: optional_text(context.platform),
                conditional_context: context.conditional_context@,
            }),
    {
        PackageMetadataKey {
            descriptor: descriptor.copy(),
            overrides: context.overrides.copy(),
            read_policy: read_policy.to_owned(),
            config: copy_optional_text(&context.config),
            platform: copy_optional_text(&context.platform),
            conditional_context: context.conditional_context.copy(),
        }
    }
}

/// What the reading of a package descriptor gave, or why it failed, and the stamps of the
/// files that it rests on.
#[derive(Debug)]
pub struct PackageReading {
    pub stamps: Vec<StampedPath>,
    pub result: Result<PackageFacts, String>,
}

/// What a reference to a reading stands for.
pub open spec fn stamps_of(reading: PackageReading) -> Seq<StampedView> {
    views(reading.stamps@)
}

/// Why a descriptor outside what a project may read is not read.
pub fn outside_read_roots(path: &FilePath) -> (r: String)
    ensures
        r@ == "package metadata "@ + path_text(path@)
            + " is outside the effective project read roots"@,
{
    concat3(
        "package metadata ",
        path.text().as_str(),
        " is outside the effective project read roots",
    )
}

fn paths_of_stamps(stamps: &Vec<StampedPath>) -> (r: Vec<FilePath>)
    ensures
        views(r@) == stamped_files(views(stamps@)),
{
    let mut paths: Vec<FilePath> = Vec::new();
    let ghost list = views(stamps@);
    let mut i: usize = 0;
    proof {
        assert(views(paths@) =~= stamped_files(list).take(0));
    }
    while i < stamps.len()
        invariant
            i <= stamps@.len(),
            list == views(stamps@),
            views(paths@) == stamped_files(list).take(i as int),
        decreases stamps@.len() - i,
    {
        let ghost held = paths@;
        let copied = stamps[i].path.copy();
        paths.push(copied);
        proof {
            assert(list[i as int] == stamps@[i as int]@);
            assert(views(paths@) =~= views(held).push(copied@));
            assert(stamped_files(list).take(i + 1) =~= stamped_files(list).take(i as int).push(
                list[i as int].path,
            ));
        }
        i += 1;
    }
    proof {
        assert(stamped_files(list).take(list.len() as int) =~= stamped_files(list));
    }
    paths
}

/// The paths that have stamps.
pub open spec fn stamped_files(stamps: Seq<StampedView>) -> Seq<Parts> {
    stamps.map_values(|s: StampedView| s.path)
}

/// The files that a reading rests on: those that the descriptor names; where it could not
/// be read, those that the reading before rested on, or the descriptor alone.
pub open spec fn rests_on(
    descriptor: Parts,
    result: Result<PackageFacts, String>,
    kept: Option<Seq<StampedView>>,
) -> Seq<Parts> {
    match result {
        Ok(facts) => views(facts.metadata_files@),
        Err(_) => match kept {
            Some(stamps) => stamped_files(stamps),
            None => seq![descriptor],
        },
    }
}

/// What was read for a package, nothing where that failed.
pub open spec fn reads_of(result: Result<PackageFacts, String>) -> Seq<ReadView> {
    match result {
        Ok(facts) => views(facts.reads@),
        Err(_) => seq![],
    }
}

/// The stamp that a file goes by: that of the descriptor before it was read, the one that
/// the reading saw, else the one that it has now.
pub open spec fn metadata_stamp(
    path: Parts,
    descriptor: Parts,
    own: Option<PathStamp>,
    reads: Seq<ReadView>,
    now: Option<PathStamp>,
) -> Option<PathStamp> {
    if path == descriptor {
        own
    } else if read_stamp(reads, path, 0) is Some {
        read_stamp(reads, path, 0)
    } else {
        now
    }
}

/// The stamps that the files go by.
pub open spec fn metadata_stamps(
    paths: Seq<Parts>,
    descriptor: Parts,
    own: Option<PathStamp>,
    reads: Seq<ReadView>,
    now: Seq<Option<PathStamp>>,
) -> Seq<StampedView> {
    Seq::new(
        paths.len(),
        |i: int|
            StampedView {
                path: paths[i],
                stamp: metadata_stamp(paths[i], descriptor, own, reads, now[i]),
            },
    )
}

/// The readings of package descriptors.
#[derive(Debug)]
pub struct PackageMetadata {
    pub readings: Cache<PackageMetadataKey, Arc<PackageReading>>,
}

impl PackageMetadata {
    /// No readings.
    pub fn new() -> (r: Self)
        ensures
            r.readings@ == Map::<MetadataKeyView, Kept<Arc<PackageReading>>>::empty(),
    {
        PackageMetadata { readings: Cache::new() }
    }

    /// The files whose stamps are looked at to find out whether a reading still holds.
    pub fn files_to_inspect(&self, key: &PackageMetadataKey) -> (r: Vec<FilePath>)
        ensures
            views(r@) == (if self.readings@.contains_key(key@) {
                stamped_files(stamps_of(*self.readings@[key@].value))
            } else {
                seq![]
            }),
    {
        match self.readings.get(key) {
            Some(reading) => paths_of_stamps(&reading.stamps),
            None => {
                let none: Vec<FilePath> = Vec::new();
                proof {
                    assert(views(none@) =~= seq![]);
                }
                none
            },
        }
    }

    /// The reading of a descriptor, if there is one that still holds: none of its files has
    /// another stamp now.
    pub fn reuse(
        &mut self,
        key: &PackageMetadataKey,
        now: &Vec<Option<PathStamp>>,
        clock: u64,
        work: &mut Work,
    ) -> (r: Result<Option<Arc<PackageReading>>, Interrupt>)
        requires
            old(self).readings@.contains_key(key@) ==> now@.len() == stamps_of(
                *old(self).readings@[key@].value,
            ).len(),
        ensures
            final(work).continues(old(work)),
            old(work).unbounded() ==> r is Ok,
            r matches Err(Interrupt::BudgetExceeded) ==> final(work).used_up(),
            r matches Err(Interrupt::BudgetExceeded) ==> !old(work).affords(
                1
                    + (
                        if old(self).readings@.contains_key(key@) {
                            unchanged_from(stamps_of(*old(self).readings@[key@].value), now@, 0).1 as int
                        } else {
                            0
                        }
                    ),
                0,
            ),
            r is Err ==> *final(self) == *old(self),
            r is Ok ==> ({
                let known = old(self).readings@.contains_key(key@);
                let kept = old(self).readings@[key@].value;
                let seen = unchanged_from(stamps_of(*kept), now@, 0);
                &&& (r->Ok_0 is Some) == (known && seen.0)
                &&& r->Ok_0 is Some ==> r->Ok_0->0 == kept && final(self).readings@ == old(
                    self,
                ).readings@.insert(key@, Kept { value: kept, last_used: clock })
                &&& r->Ok_0 is None ==> final(self).readings@ == old(self).readings@
                &&& final(work).counted(
                    old(work),
                    1 + (if known {
                        seen.1 as int
                    } else {
                        0
                    }),
                    1,
                    0,
                    0,
                )
            }),
    {
        let ghost start = *work;
        work.check()?;
        work.visit_packages(1)?;
        let reading = match self.readings.get(key) {
            Some(reading) => reading.clone(),
            None => {
                return Ok(None);
            },
        };
        let ghost list = views(reading.stamps@);
        let mut i: usize = 0;
        while i < reading.stamps.len()
            invariant
                i <= reading.stamps@.len(),
                list == views(reading.stamps@),
                now@.len() == list.len(),
                start == *old(work),
                *self == *old(self),
                old(self).readings@.contains_key(key@),
                reading == old(self).readings@[key@].value,
                unchanged_from(list, now@, 0) == ({
                    let rest = unchanged_from(list, now@, i as int);
                    (rest.0, i as nat + rest.1)
                }),
                work.counted(&start, 1 + i, 1, 0, 0),
            decreases reading.stamps@.len() - i,
        {
            let ghost before = *work;
            work.visit(1)?;
            proof {
                lemma_spent_is_counted(&before, &*work, 1, 0);
                lemma_counted_adds(&start, &before, &*work, (1 + i, 1, 0, 0), (1, 0, 0, 0));
                assert(list[i as int] == reading.stamps@[i as int]@);
            }
            if now[i] != reading.stamps[i].stamp {
                return Ok(None);
            }
            i += 1;
        }
        work.check()?;
        self.readings.touch(key, clock);
        Ok(Some(reading))
    }

    /// The files that a new reading rests on, and whose stamps have to be taken.
    pub fn files_of_reading(&self, key: &PackageMetadataKey, result: &Result<
        PackageFacts,
        String,
    >) -> (r: Vec<FilePath>)
        ensures
            views(r@) == rests_on(
                key@.descriptor,
                *result,
                if self.readings@.contains_key(key@) {
                    Some(stamps_of(*self.readings@[key@].value))
                } else {
                    None
                },
            ),
    {
        match result {
            Ok(facts) => copy_files(&facts.metadata_files),
            Err(_) => match self.readings.get(key) {
                Some(reading) => paths_of_stamps(&reading.stamps),
                None => {
                    let mut only: Vec<FilePath> = Vec::new();
                    let copied = key.descriptor.copy();
                    only.push(copied);
                    proof {
                        assert(views(only@) =~= seq![key@.descriptor]);
                    }
                    only
                },
            },
        }
    }

    /// Keeps a new reading. `own` is the stamp that the descriptor had before it was read,
    /// and `now` are the stamps that the files have after.
    pub fn keep(
        &mut self,
        key: &PackageMetadataKey,
        result: Result<PackageFacts, String>,
        files: Vec<FilePath>,
        own: Option<PathStamp>,
        now: &Vec<Option<PathStamp>>,
        clock: u64,
        work: &mut Work,
    ) -> (r: Result<Arc<PackageReading>, Interrupt>)
        requires
            files@.len() == now@.len(),
        ensures
            final(work).continues(old(work)),
            old(work).unbounded() ==> r is Ok,
            r matches Err(Interrupt::BudgetExceeded) ==> final(work).used_up(),
            r matches Err(Interrupt::BudgetExceeded) ==> !old(work).affords(files@.len() as int, 0),
            r is Err ==> *final(self) == *old(self),
            r is Ok ==> {
                &&& r->Ok_0.result == result
                &&& views(r->Ok_0.stamps@) == metadata_stamps(
                    views(files@),
                    key@.descriptor,
                    own,
                    reads_of(result),
                    now@,
                )
                &&& newest(
                    old(self).readings@.insert(
                        key@,
                        Kept { value: r->Ok_0, last_used: clock },
                    ),
                    final(self).readings@,
                    MAX_PACKAGE_METADATA_CACHE as nat,
                )
                &&& final(work).spent(old(work), files@.len() as int, 0)
            },
    {
        let ghost start = *work;
        let ghost list = views(files@);
        let ghost reads = reads_of(result);
        let ghost goal = metadata_stamps(list, key@.descriptor, own, reads, now@);
        let mut stamps: Vec<StampedPath> = Vec::new();
        let mut i: usize = 0;
        proof {
            assert(views(stamps@) =~= goal.take(0));
        }
        while i < files.len()
            invariant
                i <= files@.len(),
                files@.len() == now@.len(),
                list == views(files@),
                reads == reads_of(result),
                goal == metadata_stamps(list, key@.descriptor, own, reads, now@),
                start == *old(work),
                *self == *old(self),
                views(stamps@) == goal.take(i as int),
                work.spent(&start, i as int, 0),
            decreases files@.len() - i,
        {
            let ghost before = *work;
            work.visit(1)?;
            proof {
                lemma_spent_adds(&start, &before, &*work, i as int, 0, 1, 0);
                assert(list[i as int] == files@[i as int]@);
            }
            let seen = match &result {
                Ok(facts) => find_read(&facts.reads, &files[i]),
                Err(_) => None,
            };
            proof {
                if result is Err {
                    assert(read_stamp(reads, files@[i as int]@, 0) is None);
                }
            }
            let stamp = if files[i].same(&key.descriptor) {
                own
            } else if seen.is_some() {
                seen
            } else {
                now[i]
            };
            let ghost held = stamps@;
            let stamped = StampedPath { path: files[i].copy(), stamp };
            stamps.push(stamped);
            proof {
                assert(views(stamps@) =~= views(held).push(stamped@));
                assert(goal.take(i + 1) =~= goal.take(i as int).push(goal[i as int]));
            }
            i += 1;
        }
        proof {
            assert(goal.take(goal.len() as int) =~= goal);
        }
        let reading = Arc::new(PackageReading { stamps, result });
        self.readings.put(key.duplicate(), reading.clone(), clock, MAX_PACKAGE_METADATA_CACHE);
        Ok(reading)
    }
}

/// Charges the bytes of paths that are looked up by their texts.
pub fn charge_path_key_bytes(paths: &Vec<FilePath>, work: &mut Work) -> (r: Result<(), Interrupt>)
    ensures
        final(work).continues(old(work)),
        old(work).unbounded() ==> r is Ok,
        r matches Err(Interrupt::BudgetExceeded) ==> final(work).used_up(),
        r matches Err(Interrupt::BudgetExceeded) ==> !old(work).affords(
            0,
            path_bytes(views(paths@), paths@.len() as int),
        ),
        r is Ok ==> final(work).spent(
            old(work),
            0,
            path_bytes(views(paths@), paths@.len() as int),
        ),
{
    let ghost start = *work;
    let ghost list = views(paths@);
    let mut i: usize = 0;
    while i < paths.len()
        invariant
            i <= paths@.len(),
            list == views(paths@),
            start == *old(work),
            work.spent(&start, 0, path_bytes(list, i as int)),
        decreases paths@.len() - i,
    {
        work.check()?;
        let ghost before = *work;
        proof {
            assert(list[i as int] == paths@[i as int]@);
            lemma_path_bytes(list, i as int);
            lemma_path_bytes_grow(list, i + 1, paths@.len() as int);
        }
        work.index(byte_length(paths[i].text().as_str()))?;
        proof {
            lemma_spent_adds(
                &start,
                &before,
                &*work,
                0,
                path_bytes(list, i as int),
                0,
                crate::strings::byte_len(path_text(list[i as int])) as int,
            );
        }
        i += 1;
    }
    Ok(())
}

/// A path that differs from one of the files in case only.
pub open spec fn among_ci(files: Seq<Parts>, path: Parts) -> bool {
    exists|i: int|
        0 <= i < files.len() && lower(path_text(#[trigger] files[i])) == lower(path_text(path))
}

/// The state with the first `n` paths that a lookup came upon: descriptors that were not
/// known become files of the project's metadata, and paths that were not watched are.
pub open spec fn with_package_paths(
    state: StateView,
    known: Seq<Parts>,
    paths: Seq<Parts>,
    now: Seq<Option<PathStamp>>,
    n: int,
) -> StateView
    decreases n,
{
    if n <= 0 {
        state
    } else {
        let before = with_package_paths(state, known, paths, now, n - 1);
        let path = paths[n - 1];
        StateView {
            metadata_files: if !among_ci(known, path) && (has_extension(path, "dpk"@)
                || has_extension(path, "dproj"@)) {
                before.metadata_files.push(path)
            } else {
                before.metadata_files
            },
            watched: if before.watched.contains_key(path) {
                before.watched
            } else {
                before.watched.insert(path, now[n - 1])
            },
            ..before
        }
    }
}

/// How many of the first `n` paths are not watched.
pub open spec fn unwatched(watched: Map<Parts, Option<PathStamp>>, paths: Seq<Parts>, n: int) -> nat
    decreases n,
{
    if n <= 0 {
        0
    } else {
        unwatched(watched, paths, n - 1) + (if watched.contains_key(paths[n - 1]) {
            0nat
        } else {
            1
        })
    }
}

/// Among more paths no fewer are unwatched.
proof fn lemma_unwatched_grow(
    watched: Map<Parts, Option<PathStamp>>,
    paths: Seq<Parts>,
    m: int,
    n: int,
)
    requires
        m <= n,
    ensures
        unwatched(watched, paths, m) <= unwatched(watched, paths, n),
    decreases n - m,
{
    if m < n {
        lemma_unwatched_grow(watched, paths, m, n - 1);
    }
}

/// What is kept of a project after a lookup in its packages.
pub open spec fn after_lookup(
    state: StateView,
    lookup: PackageLookup,
    now: Seq<Option<PathStamp>>,
) -> StateView {
    with_package_paths(
        StateView {
            reads: all_reads(state.reads, views(lookup.reads@)),
            metadata_observations: merged_metadata(
                state.metadata_observations,
                views(lookup.metadata_observations@),
                lookup.metadata_observations@.len() as int,
            ),
            ..state
        },
        state.metadata_files,
        views(lookup.metadata_paths@),
        now,
        lookup.metadata_paths@.len() as int,
    )
}

/// The path visits that taking up a lookup is charged.
pub open spec fn lookup_visits(state: StateView, lookup: PackageLookup) -> int {
    let paths = views(lookup.metadata_paths@);
    (state.reads.len() + lookup.reads@.len() + state.metadata_observations.len()
        + lookup.metadata_observations@.len() + 2 * paths.len() + state.metadata_files.len()
        + unwatched(state.watched, paths, paths.len() as int)) as int
}

fn index_files(files: &Vec<FilePath>, work: &Work) -> (r: Result<StrSet, Interrupt>)
    ensures
        work.unbounded() ==> r is Ok,
        r is Err ==> r->Err_0 == Interrupt::Cancelled,
        r is Ok ==> forall|path: Parts|
            r->Ok_0@.contains(#[trigger] lower(path_text(path))) == among_ci(views(files@), path),
{
    let ghost list = views(files@);
    let mut index = StrSet::new();
    let mut i: usize = 0;
    while i < files.len()
        invariant
            i <= files@.len(),
            list == views(files@),
            forall|key: Seq<char>| #[trigger]
                index@.contains(key) == exists|j: int|
                    0 <= j < i && lower(path_text(#[trigger] list[j])) == key,
        decreases files@.len() - i,
    {
        work.check()?;
        let ghost before = index@;
        let key = path_ci_lookup_key(&files[i]);
        let ghost added = key@;
        let _new = index.insert(key);
        proof {
            assert(list[i as int] == files@[i as int]@);
            assert forall|key: Seq<char>| #[trigger] index@.contains(key) == exists|j: int|
                0 <= j < i + 1 && lower(path_text(#[trigger] list[j])) == key by {
                if before.contains(key) {
                    let j = choose|j: int|
                        0 <= j < i && lower(path_text(#[trigger] list[j])) == key;
                    assert(0 <= j < i + 1 && lower(path_text(list[j])) == key);
                }
                if key == added {
                    assert(lower(path_text(list[i as int])) == key);
                }
            }
        }
        i += 1;
    }
    Ok(index)
}

/// A path that is to be watched, whether a file of the metadata is known by it, and the
/// stamp that it is watched with.
#[derive(Debug)]
pub struct PreparedPackageWatch {
    pub metadata_known: bool,
    pub stamp: Option<Option<PathStamp>>,
}

/// What taking up paths that a lookup came upon needs to know of them.
pub fn prepare_package_watches(
    state: &ContextState,
    paths: &Vec<FilePath>,
    now: &Vec<Option<PathStamp>>,
    work: &mut Work,
) -> (r: Result<Vec<PreparedPackageWatch>, Interrupt>)
    requires
        paths@.len() == now@.len(),
    ensures
        final(work).continues(old(work)),
        old(work).unbounded() ==> r is Ok,
        r matches Err(Interrupt::BudgetExceeded) ==> final(work).used_up(),
        r matches Err(Interrupt::BudgetExceeded) ==> !old(work).affords(
            (
                2 * paths@.len()
                    + state@.metadata_files.len()
                    + unwatched(state@.watched, views(paths@), paths@.len() as int)
            ) as int,
            path_bytes(state@.metadata_files, state@.metadata_files.len() as int)
                + path_bytes(views(paths@), paths@.len() as int),
        ),
        r is Ok ==> ({
            let list = views(paths@);
            let fresh = unwatched(state@.watched, list, list.len() as int);
            &&& r->Ok_0@.len() == paths@.len()
            &&& forall|i: int|
                0 <= i < paths@.len() ==> {
                    &&& (#[trigger] r->Ok_0@[i]).metadata_known == among_ci(
                        state@.metadata_files,
                        list[i],
                    )
                    &&& r->Ok_0@[i].stamp == (if state@.watched.contains_key(list[i]) {
                        None
                    } else {
                        Some(now@[i])
                    })
                }
            &&& final(work).counted(
                old(work),
                (2 * list.len() + state@.metadata_files.len() + fresh) as int,
                (list.len() + fresh) as int,
                0,
                path_bytes(state@.metadata_files, state@.metadata_files.len() as int) + path_bytes(
                    list,
                    list.len() as int,
                ),
            )
        }),
{
    let ghost start = *work;
    let ghost list = views(paths@);
    let ghost files = state@.metadata_files;
    let ghost n = list.len() as int;
    let ghost m = files.len() as int;
    proof {
        assert(files == views(state.metadata_files@));
        assert(m == state.metadata_files@.len());
        lemma_path_bytes(list, n);
        lemma_path_bytes(files, m);
    }
    work.visit(paths.len())?;
    let ghost one = *work;
    work.visit(state.metadata_files.len())?;
    let ghost two = *work;
    charge_path_key_bytes(&state.metadata_files, work)?;
    let ghost three = *work;
    charge_path_key_bytes(paths, work)?;
    let ghost bytes = path_bytes(files, m) + path_bytes(list, n);
    proof {
        lemma_spent_adds(&start, &one, &two, n, 0, m, 0);
        lemma_spent_adds(&start, &two, &three, n + m, 0, 0, path_bytes(files, m));
        lemma_spent_adds(&start, &three, &*work, n + m, path_bytes(files, m), 0, path_bytes(list, n));
        lemma_spent_is_counted(&start, &*work, n + m, bytes);
    }
    let index = index_files(&state.metadata_files, work)?;
    let mut prepared: Vec<PreparedPackageWatch> = Vec::new();
    let mut i: usize = 0;
    while i < paths.len()
        invariant
            i <= paths@.len(),
            paths@.len() == now@.len(),
            list == views(paths@),
            files == state@.metadata_files,
            files == views(state.metadata_files@),
            n == list.len(),
            m == files.len(),
            bytes >= 0,
            bytes == path_bytes(files, m) + path_bytes(list, n),
            start == *old(work),
            forall|path: Parts|
                index@.contains(#[trigger] lower(path_text(path))) == among_ci(files, path),
            prepared@.len() == i,
            forall|j: int|
                0 <= j < i ==> {
                    &&& (#[trigger] prepared@[j]).metadata_known == among_ci(files, list[j])
                    &&& prepared@[j].stamp == (if state@.watched.contains_key(list[j]) {
                        None
                    } else {
                        Some(now@[j])
                    })
                },
            work.counted(
                &start,
                n + m + i + unwatched(state@.watched, list, i as int),
                i + unwatched(state@.watched, list, i as int),
                0,
                bytes,
            ),
        decreases paths@.len() - i,
    {
        work.check()?;
        let ghost before = *work;
        let ghost fresh = unwatched(state@.watched, list, i as int) as int;
        proof {
            assert(list[i as int] == paths@[i as int]@);
            lemma_unwatched_grow(state@.watched, list, i + 1, n);
        }
        work.visit_packages(1)?;
        let ghost between = *work;
        proof {
            assert(list[i as int] == paths@[i as int]@);
            lemma_counted_adds(
                &start,
                &before,
                &between,
                (n + m + i + fresh, i + fresh, 0, bytes),
                (1, 1, 0, 0),
            );
        }
        let metadata_known = index.contains(path_ci_lookup_key(&paths[i]).as_str());
        let stamp = if state.watched_paths.contains_key(&paths[i]) {
            None
        } else {
            work.check()?;
            work.visit_packages(1)?;
            proof {
                lemma_counted_adds(
                    &start,
                    &between,
                    &*work,
                    (n + m + i + fresh + 1, i + fresh + 1, 0, bytes),
                    (1, 1, 0, 0),
                );
            }
            Some(now[i])
        };
        prepared.push(PreparedPackageWatch { metadata_known, stamp });
        i += 1;
    }
    Ok(prepared)
}

proof fn lemma_paths_keep_watched(
    state: StateView,
    known: Seq<Parts>,
    paths: Seq<Parts>,
    now: Seq<Option<PathStamp>>,
    n: int,
)
    ensures
        ({
            let after = with_package_paths(state, known, paths, now, n);
            &&& after.context == state.context
            &&& after.metadata_observations == state.metadata_observations
            &&& after.memberships == state.memberships
            &&& after.reads == state.reads
            &&& forall|path: Parts|
                state.watched.contains_key(path) ==> #[trigger] after.watched.contains_key(path)
        }),
    decreases n,
{
    if n > 0 {
        lemma_paths_keep_watched(state, known, paths, now, n - 1);
        let before = with_package_paths(state, known, paths, now, n - 1);
        assert forall|path: Parts| state.watched.contains_key(path) implies #[trigger]
            with_package_paths(state, known, paths, now, n).watched.contains_key(path) by {
            assert(before.watched.contains_key(path));
        }
    }
}

impl ContextStore {
    /// Takes up what a lookup in the packages of a project came upon. `now` are the stamps
    /// that the paths have. Where the work is interrupted, nothing is taken up.
    pub fn apply_package_lookup(
        &mut self,
        key: &ContextKey,
        lookup: &PackageLookup,
        now: &Vec<Option<PathStamp>>,
        work: &mut Work,
    ) -> (r: Result<(), Interrupt>)
        requires
            lookup.metadata_paths@.len() == now@.len(),
        ensures
            final(work).continues(old(work)),
            r is Err ==> final(self)@ == old(self)@,
            r matches Err(Interrupt::BudgetExceeded) ==> final(work).used_up() || ({
                let state = state_of(old(self)@, key@)->0;
                ||| state.reads.len() + lookup.reads@.len() > usize::MAX
                ||| state.metadata_observations.len() + lookup.metadata_observations@.len()
                    > usize::MAX
            }),
            state_of(old(self)@, key@) is None ==> r is Ok && final(self)@ == old(self)@
                && *final(work) == *old(work),
            state_of(old(self)@, key@) is Some ==> ({
                let state = state_of(old(self)@, key@)->0;
                let paths = views(lookup.metadata_paths@);
                &&& old(work).unbounded() && state.reads.len() + lookup.reads@.len() <= usize::MAX
                    && state.metadata_observations.len() + lookup.metadata_observations@.len()
                    <= usize::MAX ==> r is Ok
                &&& r matches Err(Interrupt::BudgetExceeded) ==> !old(work).affords(
                    lookup_visits(state, *lookup),
                    path_bytes(state.metadata_files, state.metadata_files.len() as int)
                        + path_bytes(paths, paths.len() as int),
                ) || state.reads.len() + lookup.reads@.len() > usize::MAX
                    || state.metadata_observations.len() + lookup.metadata_observations@.len()
                    > usize::MAX
                &&& r is Ok ==> {
                    &&& same_but(old(self)@, final(self)@, key@)
                    &&& state_of(final(self)@, key@) == Some(after_lookup(state, *lookup, now@))
                    &&& final(work).counted(
                        old(work),
                        lookup_visits(state, *lookup),
                        (paths.len() + unwatched(state.watched, paths, paths.len() as int)) as int,
                        0,
                        path_bytes(state.metadata_files, state.metadata_files.len() as int)
                            + path_bytes(paths, paths.len() as int),
                    )
                }
            }),
    {
        let ghost start = *work;
        let ghost store = self@;
        let mut state = match self.contexts.get(key) {
            Some(state) => state.copy(),
            None => {
                return Ok(());
            },
        };
        let ghost kept = state@;
        let ghost list = views(lookup.metadata_paths@);
        proof {
            lemma_path_bytes(kept.metadata_files, kept.metadata_files.len() as int);
            lemma_path_bytes(list, list.len() as int);
            assert(kept.reads.len() == state.read_observations@.len());
            assert(kept.metadata_observations.len() == state.metadata_observations@.len());
        }
        let reads = merge_project_read_observations(
            &state.read_observations,
            &lookup.reads,
            work,
        )?;
        let ghost one = *work;
        let observations = merge_metadata_observations(
            &state.metadata_observations,
            &lookup.metadata_observations,
            work,
        )?;
        let ghost two = *work;
        let prepared = prepare_package_watches(&state, &lookup.metadata_paths, now, work)?;
        proof {
            let fresh = unwatched(kept.watched, list, list.len() as int) as int;
            let bytes = path_bytes(kept.metadata_files, kept.metadata_files.len() as int)
                + path_bytes(list, list.len() as int);
            let first = (kept.reads.len() + lookup.reads@.len()) as int;
            let second = (kept.metadata_observations.len() + lookup.metadata_observations@.len())
                as int;
            lemma_spent_adds(&start, &one, &two, first, 0, second, 0);
            lemma_spent_is_counted(&start, &two, first + second, 0);
            lemma_counted_adds(
                &start,
                &two,
                &*work,
                (first + second, 0, 0, 0),
                (
                    (2 * list.len() + kept.metadata_files.len() + fresh) as int,
                    (list.len() + fresh) as int,
                    0,
                    bytes,
                ),
            );
        }
        work.check()?;
        work.settle()?;
        state.read_observations = reads;
        state.metadata_observations = observations;
        let ghost staged = state@;
        let ghost goal = after_lookup(kept, *lookup, now@);
        let mut files: Vec<FilePath> = Vec::new();
        std::mem::swap(&mut files, &mut state.metadata_files);
        let mut watched: KeyMap<FilePath, Option<PathStamp>> = KeyMap::new();
        std::mem::swap(&mut watched, &mut state.watched_paths);
        let mut i: usize = 0;
        while i < prepared.len()
            invariant
                i <= prepared@.len(),
                prepared@.len() == list.len(),
                list.len() == now@.len(),
                list == views(lookup.metadata_paths@),
                staged.watched == kept.watched,
                forall|j: int|
                    0 <= j < prepared@.len() ==> {
                        &&& (#[trigger] prepared@[j]).metadata_known == among_ci(
                            kept.metadata_files,
                            list[j],
                        )
                        &&& prepared@[j].stamp == (if kept.watched.contains_key(list[j]) {
                            None
                        } else {
                            Some(now@[j])
                        })
                    },
                ({
                    let so_far = with_package_paths(
                        staged,
                        kept.metadata_files,
                        list,
                        now@,
                        i as int,
                    );
                    &&& views(files@) == so_far.metadata_files
                    &&& watched@ == so_far.watched
                }),
            decreases prepared@.len() - i,
        {
            proof {
                assert(list[i as int] == lookup.metadata_paths@[i as int]@);
                lemma_paths_keep_watched(staged, kept.metadata_files, list, now@, i as int);
            }
            let path = &lookup.metadata_paths[i];
            if !prepared[i].metadata_known && (extension_is(path, "dpk") || extension_is(
                path,
                "dproj",
            )) {
                let ghost held = files@;
                let copied = path.copy();
                files.push(copied);
                proof {
                    assert(views(files@) =~= views(held).push(copied@));
                }
            }
            if let Some(stamp) = prepared[i].stamp {
                if !watched.contains_key(path) {
                    let _none = watched.insert(path.copy(), stamp);
                }
            }
            i += 1;
        }
        let state = ContextState {
            context: state.context,
            metadata_files: files,
            metadata_observations: state.metadata_observations,
            watched_paths: watched,
            memberships: state.memberships,
            read_observations: state.read_observations,
        };
        proof {
            lemma_paths_keep_watched(
                staged,
                kept.metadata_files,
                list,
                now@,
                list.len() as int,
            );
            assert(staged =~= (StateView {
                reads: all_reads(kept.reads, views(lookup.reads@)),
                metadata_observations: merged_metadata(
                    kept.metadata_observations,
                    views(lookup.metadata_observations@),
                    lookup.metadata_observations@.len() as int,
                ),
                ..kept
            }));
            assert(state@ =~= goal);
        }
        self.put_state(key, state);
        Ok(())
    }
}

} // verus!
