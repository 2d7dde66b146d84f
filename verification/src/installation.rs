//! How a discovered project is taken up among those that are known.

use std::sync::Arc;

use vstd::prelude::*;

use crate::budget::{lemma_rest_is_afforded, lemma_spent_adds, Work};
use crate::cancel::Interrupt;
use crate::contexts::{changed_owners, ContextStore, OwnerChange, StoreView};
use crate::discovery::{
    all_reads, assign_memberships, directory_visits, discovery_directories, known_of,
    list_watched_files, merge_candidate_memberships, merge_project_read_observations, merged_reads,
    missing_of, path_bytes, search_directories, stamp_watched_files, stamped_paths, stamping_bytes,
    watch_list, watch_list_visits, WatchedPath, WatchedView,
};
use crate::excludes::WorkspaceRoot;
use crate::keymap::{deep_values, lemma_deep_values_insert, Identity, KeyMap};
use crate::paths::{parent_of, FilePath, Parts};
use crate::project::{
    ContextKey, ContextState, KeyView, Membership, MembershipView, MetadataObservation,
    MetadataView, PathStamp, ProjectContext, ReadObservation, ReadView, StateView,
};
use crate::sorting::views;
use crate::uris::optional_parts;

verus! {

/// What the discovery of a project gave.
#[derive(Debug)]
pub struct Discovered {
    pub context: Arc<ProjectContext>,
    pub metadata_files: Vec<FilePath>,
    pub metadata_observations: Vec<MetadataObservation>,
    pub reads: Vec<ReadObservation>,
}

/// A copy of a list of readings.
pub fn copy_reads(list: &Vec<ReadObservation>) -> (r: Vec<ReadObservation>)
    ensures
        views(r@) == views(list@),
{
    let mut copied: Vec<ReadObservation> = Vec::new();
    let mut i: usize = 0;
    while i < list.len()
        invariant
            i <= list@.len(),
            views(copied@) == views(list@).take(i as int),
        decreases list@.len() - i,
    {
        let ghost held = copied@;
        let item = list[i].copy();
        copied.push(item);
        proof {
            assert(views(copied@) =~= views(held).push(item@));
            assert(views(list@).take(i + 1) =~= views(list@).take(i as int).push(
                list@[i as int]@,
            ));
        }
        i += 1;
    }
    proof {
        assert(views(list@).take(list@.len() as int) =~= views(list@));
    }
    copied
}

/// A copy of a list of metadata observations.
pub fn copy_metadata(list: &Vec<MetadataObservation>) -> (r: Vec<MetadataObservation>)
    ensures
        views(r@) == views(list@),
{
    let mut copied: Vec<MetadataObservation> = Vec::new();
    let mut i: usize = 0;
    while i < list.len()
        invariant
            i <= list@.len(),
            views(copied@) == views(list@).take(i as int),
        decreases list@.len() - i,
    {
        let ghost held = copied@;
        let item = list[i].copy();
        copied.push(item);
        proof {
            assert(views(copied@) =~= views(held).push(item@));
            assert(views(list@).take(i + 1) =~= views(list@).take(i as int).push(
                list@[i as int]@,
            ));
        }
        i += 1;
    }
    proof {
        assert(views(list@).take(list@.len() as int) =~= views(list@));
    }
    copied
}

/// A copy of a list of paths.
pub fn copy_files(list: &Vec<FilePath>) -> (r: Vec<FilePath>)
    ensures
        views(r@) == views(list@),
{
    let mut copied: Vec<FilePath> = Vec::new();
    let mut i: usize = 0;
    while i < list.len()
        invariant
            i <= list@.len(),
            views(copied@) == views(list@).take(i as int),
        decreases list@.len() - i,
    {
        let ghost held = copied@;
        let item = list[i].copy();
        copied.push(item);
        proof {
            assert(views(copied@) =~= views(held).push(item@));
            assert(views(list@).take(i + 1) =~= views(list@).take(i as int).push(
                list@[i as int]@,
            ));
        }
        i += 1;
    }
    proof {
        assert(views(list@).take(list@.len() as int) =~= views(list@));
    }
    copied
}

fn copy_watched(watched: &KeyMap<FilePath, Option<PathStamp>>) -> (r: KeyMap<
    FilePath,
    Option<PathStamp>,
>)
    ensures
        r@ == watched@,
{
    let n: usize = watched.len();
    let ghost keys = watched.keys();
    let mut copied: KeyMap<FilePath, Option<PathStamp>> = KeyMap::new();
    let mut i: usize = 0;
    while i < n
        invariant
            i <= n,
            n == keys.len(),
            keys == watched.keys(),
            forall|p: Parts| #[trigger]
                copied@.contains_key(p) ==> watched@.contains_key(p) && copied@[p] == watched@[p],
            forall|j: int| 0 <= j < i ==> copied@.contains_key(#[trigger] keys[j]),
        decreases n - i,
    {
        let _previous = copied.insert(watched.key_at(i).copy(), *watched.value_at(i));
        i += 1;
    }
    proof {
        assert forall|p: Parts| #[trigger]
            watched@.contains_key(p) implies copied@.contains_key(p) by {
            assert(keys.contains(p));
            let j = choose|j: int| 0 <= j < keys.len() && keys[j] == p;
            assert(copied@.contains_key(keys[j]));
        }
        assert(copied@ =~= watched@);
    }
    copied
}

fn copy_memberships(memberships: &KeyMap<FilePath, Membership>) -> (r: KeyMap<
    FilePath,
    Membership,
>)
    ensures
        deep_values(r@) == deep_values(memberships@),
{
    let n: usize = memberships.len();
    let ghost keys = memberships.keys();
    let mut copied: KeyMap<FilePath, Membership> = KeyMap::new();
    let mut i: usize = 0;
    while i < n
        invariant
            i <= n,
            n == keys.len(),
            keys == memberships.keys(),
            forall|p: Parts| #[trigger]
                copied@.contains_key(p) ==> memberships@.contains_key(p) && copied@[p]@
                    == memberships@[p]@,
            forall|j: int| 0 <= j < i ==> copied@.contains_key(#[trigger] keys[j]),
        decreases n - i,
    {
        let _previous = copied.insert(
            memberships.key_at(i).copy(),
            memberships.value_at(i).copy(),
        );
        i += 1;
    }
    proof {
        assert forall|p: Parts| #[trigger]
            memberships@.contains_key(p) implies copied@.contains_key(p) by {
            assert(keys.contains(p));
            let j = choose|j: int| 0 <= j < keys.len() && keys[j] == p;
            assert(copied@.contains_key(keys[j]));
        }
        assert(deep_values(copied@) =~= deep_values(memberships@));
    }
    copied
}

impl ContextState {
    /// A state that stands for the same.
    pub fn copy(&self) -> (r: Self)
        ensures
            r@ == self@,
    {
        let r = ContextState {
            context: self.context.clone(),
            metadata_files: copy_files(&self.metadata_files),
            metadata_observations: copy_metadata(&self.metadata_observations),
            watched_paths: copy_watched(&self.watched_paths),
            memberships: copy_memberships(&self.memberships),
            read_observations: copy_reads(&self.read_observations),
        };
        proof {
            assert(r@ =~= self@);
        }
        r
    }
}

/// The directory of the project: that of its file, else the scope of its key.
pub open spec fn project_directory_of(context: ProjectContext, key: KeyView) -> Option<Parts> {
    let own = match context.project_file {
        Some(file) => parent_of(file@),
        None => None,
    };
    match own {
        Some(directory) => Some(directory),
        None => key.project_scope,
    }
}

/// The directory of the project.
pub fn project_directory(context: &ProjectContext, key: &ContextKey) -> (r: Option<FilePath>)
    ensures
        optional_parts(r) == project_directory_of(*context, key@),
{
    if let Some(file) = &context.project_file {
        if let Some(directory) = file.parent() {
            return Some(directory);
        }
    }
    match &key.project_scope {
        Some(scope) => Some(scope.copy()),
        None => None,
    }
}

/// What the installation of a project rests on: the watched files with the stamps they had
/// when they were read, what is known of the directories, and which of these are still to
/// be looked into.
#[derive(Debug)]
pub struct ContextPlan {
    pub watched: Vec<WatchedPath>,
    pub known: KeyMap<FilePath, Membership>,
    pub missing: Vec<FilePath>,
}

pub open spec fn kept_reads(kept: Option<StateView>) -> Seq<ReadView> {
    match kept {
        Some(state) => state.reads,
        None => seq![],
    }
}

pub open spec fn referenced_state(state: Option<&ContextState>) -> Option<StateView> {
    match state {
        Some(state) => Some(state@),
        None => None,
    }
}

/// The visits that listing the watched files of a project is charged.
pub open spec fn listing_visits(
    discovered: &Discovered,
    roots: int,
    directories: Seq<Parts>,
) -> int {
    watch_list_visits(
        views(discovered.metadata_files@),
        *discovered.context,
        roots,
        directories,
    )
}

spec fn files_to_watch(discovered: &Discovered, directories: Seq<Parts>) -> Seq<Parts> {
    watch_list(views(discovered.metadata_files@), *discovered.context, directories)
}

spec fn plan_charge(
    roots: Seq<WorkspaceRoot>,
    file: Parts,
    discovered: &Discovered,
    found: Seq<Parts>,
    directories: Seq<Parts>,
    kept: Seq<ReadView>,
) -> (int, int) {
    (
        plan_visits(roots, file, *discovered, found, directories, kept),
        plan_bytes(roots, file, *discovered, found, directories, kept),
    )
}

/// The visits that the plan is charged.
pub open spec fn plan_visits(
    roots: Seq<WorkspaceRoot>,
    file: Parts,
    discovered: Discovered,
    found: Seq<Parts>,
    directories: Seq<Parts>,
    kept: Seq<ReadView>,
) -> int {
    directory_visits(roots, file) + found.len() + search_directories(roots, file).len()
        + listing_visits(&discovered, roots.len() as int, directories) + discovered.reads@.len() + kept.len() + watch_list(
        views(discovered.metadata_files@),
        *discovered.context,
        directories,
    ).len()
}

/// The indexed bytes that the plan is charged.
pub open spec fn plan_bytes(
    roots: Seq<WorkspaceRoot>,
    file: Parts,
    discovered: Discovered,
    found: Seq<Parts>,
    directories: Seq<Parts>,
    kept: Seq<ReadView>,
) -> int {
    path_bytes(found, found.len() as int) + path_bytes(
        search_directories(roots, file),
        search_directories(roots, file).len() as int,
    ) + stamping_bytes(
        watch_list(views(discovered.metadata_files@), *discovered.context, directories),
        views(discovered.reads@),
        kept,
    )
}

/// Plans the installation of a discovered project. `found` is what the discovery saw in
/// directories, `directories` are those whose configuration files hold for the file, and
/// `kept` is what is known of the same project.
pub fn plan_context(
    roots: &Vec<WorkspaceRoot>,
    file: &FilePath,
    discovered: &Discovered,
    found: &KeyMap<FilePath, Membership>,
    directories: &Vec<FilePath>,
    kept: Option<&ContextState>,
    work: &mut Work,
) -> (r: Result<ContextPlan, Interrupt>)
    requires
        discovered.metadata_files@.len() + 2 + 2 * directories@.len() <= usize::MAX,
    ensures
        final(work).continues(old(work)),
        old(work).unbounded() ==> r is Ok,
        r matches Err(Interrupt::BudgetExceeded) ==> final(work).used_up(),
        r matches Err(Interrupt::BudgetExceeded) ==> !old(work).affords(
            plan_visits(
                roots@,
                file@,
                *discovered,
                found.keys(),
                views(directories@),
                kept_reads(referenced_state(kept)),
            ),
            plan_bytes(
                roots@,
                file@,
                *discovered,
                found.keys(),
                views(directories@),
                kept_reads(referenced_state(kept)),
            ),
        ),
        r is Ok ==> ({
            let plan = r->Ok_0;
            let searched = search_directories(roots@, file@);
            let facts = deep_values(found@);
            let reads = kept_reads(referenced_state(kept));
            let paths = watch_list(
                views(discovered.metadata_files@),
                *discovered.context,
                views(directories@),
            );
            &&& views(plan.watched@) == stamped_paths(paths, views(discovered.reads@), reads)
            &&& deep_values(plan.known@) == known_of(searched, facts, searched.len() as int)
            &&& views(plan.missing@) == missing_of(searched, facts, searched.len() as int)
            &&& final(work).spent(
                old(work),
                plan_visits(roots@, file@, *discovered, found.keys(), views(directories@), reads),
                plan_bytes(roots@, file@, *discovered, found.keys(), views(directories@), reads),
            )
        }),
{
    let ghost start = *work;
    let ghost reads_kept = kept_reads(referenced_state(kept));
    let ghost goal = files_to_watch(discovered, views(directories@));
    let ghost whole = plan_charge(
        roots@,
        file@,
        discovered,
        found.keys(),
        views(directories@),
        reads_kept,
    );
    let ghost list = search_directories(roots@, file@);
    let ghost searched_bytes = path_bytes(found.keys(), found.keys().len() as int) + path_bytes(
        list,
        list.len() as int,
    );
    let ghost watching = listing_visits(discovered, roots@.len() as int, views(directories@));
    let ghost looking = directory_visits(roots@, file@);
    proof {
        crate::discovery::lemma_charges_count(
            roots@,
            file@,
            found.keys(),
            goal,
            views(discovered.reads@),
            reads_kept,
        );
    }
    let searched = discovery_directories(roots, file, work)?;
    let ghost first = *work;
    proof {
        lemma_rest_is_afforded(
            &start,
            &first,
            (looking, 0),
            ((found.keys().len() + list.len()) as int, searched_bytes),
            whole,
        );
    }
    let assigned = assign_memberships(&searched, found, work)?;
    let ghost second = *work;
    let ghost assigning = looking + (found.keys().len() + list.len());
    proof {
        lemma_spent_adds(
            &start,
            &first,
            &second,
            looking,
            0,
            (found.keys().len() + list.len()) as int,
            searched_bytes,
        );
        lemma_rest_is_afforded(
            &start,
            &second,
            (assigning, searched_bytes),
            (watching, 0),
            whole,
        );
    }
    let paths = list_watched_files(
        &discovered.metadata_files,
        &discovered.context,
        roots,
        directories,
        work,
    )?;
    let ghost third = *work;
    let none: Vec<ReadObservation> = Vec::new();
    proof {
        assert(views(none@) =~= seq![]);
    }
    let reads = match kept {
        Some(state) => &state.read_observations,
        None => &none,
    };
    proof {
        lemma_spent_adds(&start, &second, &third, assigning, searched_bytes, watching, 0);
        lemma_rest_is_afforded(
            &start,
            &third,
            (assigning + watching, searched_bytes),
            (
                (discovered.reads@.len() + reads@.len() + paths@.len()) as int,
                stamping_bytes(views(paths@), views(discovered.reads@), views(reads@)),
            ),
            whole,
        );
    }
    let watched = stamp_watched_files(&paths, &discovered.reads, reads, work)?;
    proof {
        lemma_spent_adds(
            &start,
            &third,
            &*work,
            assigning + watching,
            searched_bytes,
            (discovered.reads@.len() + reads@.len() + paths@.len()) as int,
            stamping_bytes(views(paths@), views(discovered.reads@), views(reads@)),
        );
    }
    Ok(ContextPlan { watched, known: assigned.known, missing: assigned.missing })
}

/// What is known of directories with what was found in the first `n` others.
pub open spec fn with_looked(
    known: Map<Parts, MembershipView>,
    missing: Seq<Parts>,
    looked: Seq<MembershipView>,
    n: int,
) -> Map<Parts, MembershipView>
    decreases n,
{
    if n <= 0 {
        known
    } else {
        with_looked(known, missing, looked, n - 1).insert(missing[n - 1], looked[n - 1])
    }
}

fn add_looked(
    known: &mut KeyMap<FilePath, Membership>,
    missing: &Vec<FilePath>,
    looked: &Vec<Membership>,
)
    requires
        missing@.len() == looked@.len(),
    ensures
        deep_values(final(known)@) == with_looked(
            deep_values(old(known)@),
            views(missing@),
            views(looked@),
            missing@.len() as int,
        ),
{
    let ghost start = deep_values(known@);
    let ghost paths = views(missing@);
    let ghost facts = views(looked@);
    let mut i: usize = 0;
    while i < missing.len()
        invariant
            i <= missing@.len(),
            missing@.len() == looked@.len(),
            paths == views(missing@),
            facts == views(looked@),
            start == deep_values(old(known)@),
            deep_values(known@) == with_looked(start, paths, facts, i as int),
        decreases missing@.len() - i,
    {
        let copied = looked[i].copy();
        proof {
            assert(paths[i as int] == missing@[i as int]@);
            assert(facts[i as int] == looked@[i as int]@);
            lemma_deep_values_insert(known@, missing@[i as int]@, copied);
        }
        let _previous = known.insert(missing[i].copy(), copied);
        i += 1;
    }
}

/// The stamp that a watched path is kept with: the one it had when it was read, else the
/// one that it has now.
pub open spec fn kept_stamp(watched: WatchedView, now: Option<PathStamp>) -> Option<PathStamp> {
    match watched.read {
        Some(stamp) => Some(stamp),
        None => now,
    }
}

/// The stamps with those of the first `n` watched paths.
pub open spec fn with_watched(
    stamps: Map<Parts, Option<PathStamp>>,
    watched: Seq<WatchedView>,
    now: Seq<Option<PathStamp>>,
    n: int,
) -> Map<Parts, Option<PathStamp>>
    decreases n,
{
    if n <= 0 {
        stamps
    } else {
        with_watched(stamps, watched, now, n - 1).insert(
            watched[n - 1].path,
            kept_stamp(watched[n - 1], now[n - 1]),
        )
    }
}

fn add_watched(
    stamps: &mut KeyMap<FilePath, Option<PathStamp>>,
    watched: &Vec<WatchedPath>,
    now: &Vec<Option<PathStamp>>,
)
    requires
        watched@.len() == now@.len(),
    ensures
        final(stamps)@ == with_watched(
            old(stamps)@,
            views(watched@),
            now@,
            watched@.len() as int,
        ),
{
    let ghost start = stamps@;
    let ghost list = views(watched@);
    let mut i: usize = 0;
    while i < watched.len()
        invariant
            i <= watched@.len(),
            watched@.len() == now@.len(),
            list == views(watched@),
            start == old(stamps)@,
            stamps@ == with_watched(start, list, now@, i as int),
        decreases watched@.len() - i,
    {
        proof {
            assert(list[i as int] == watched@[i as int]@);
        }
        let stamp = match watched[i].read {
            Some(stamp) => Some(stamp),
            None => now[i],
        };
        let _previous = stamps.insert(watched[i].path.copy(), stamp);
        i += 1;
    }
}

/// What is kept of a project once it is taken up: the new context, and of what was kept
/// before the readings, the stamps and what was seen in directories.
pub open spec fn installed(
    kept: Option<StateView>,
    discovered: Discovered,
    watched: Seq<WatchedView>,
    now: Seq<Option<PathStamp>>,
    memberships: Map<Parts, MembershipView>,
) -> StateView {
    let new_reads = views(discovered.reads@);
    let n = watched.len() as int;
    match kept {
        None => StateView {
            context: *discovered.context,
            metadata_files: views(discovered.metadata_files@),
            metadata_observations: views(discovered.metadata_observations@),
            watched: with_watched(Map::empty(), watched, now, n),
            memberships,
            reads: new_reads,
        },
        Some(state) => StateView {
            context: *discovered.context,
            metadata_files: views(discovered.metadata_files@),
            metadata_observations: views(discovered.metadata_observations@),
            watched: with_watched(state.watched, watched, now, n),
            memberships: memberships.union_prefer_right(state.memberships),
            reads: all_reads(state.reads, new_reads),
        },
    }
}

/// What is kept under a key.
pub open spec fn state_of(store: StoreView, key: KeyView) -> Option<StateView> {
    if store.contexts.contains_key(key) {
        Some((*store.contexts[key])@)
    } else {
        None
    }
}

/// The contexts but for what is kept under a key.
pub open spec fn same_but(before: StoreView, after: StoreView, key: KeyView) -> bool {
    &&& after.contexts.remove(key) == before.contexts.remove(key)
    &&& after == (StoreView { contexts: after.contexts, ..before })
}

impl ContextStore {
    /// Keeps a state under a key.
    pub fn put_state(&mut self, key: &ContextKey, state: ContextState)
        ensures
            same_but(old(self)@, final(self)@, key@),
            state_of(final(self)@, key@) == Some(state@),
    {
        let ghost before = self@;
        let kept = Arc::new(state);
        let _previous = self.contexts.insert(key.duplicate(), kept);
        proof {
            assert(self@.contexts == before.contexts.insert(key@, kept));
            assert(self@.contexts.remove(key@) =~= before.contexts.remove(key@));
            assert(self@ =~= (StoreView { contexts: self@.contexts, ..before }));
        }
    }

    /// Takes up a discovered project. `looked` is what was found in the directories that
    /// were still to be looked into, and `now` are the stamps that the watched files have.
    pub fn install_context(
        &mut self,
        key: &ContextKey,
        discovered: Discovered,
        plan: ContextPlan,
        looked: &Vec<Membership>,
        now: &Vec<Option<PathStamp>>,
        work: &mut Work,
    ) -> (r: Result<(), Interrupt>)
        requires
            plan.missing@.len() == looked@.len(),
            plan.watched@.len() == now@.len(),
        ensures
            final(work).continues(old(work)),
            r is Err ==> final(self)@ == old(self)@,
            ({
                let memberships = with_looked(
                    deep_values(plan.known@),
                    views(plan.missing@),
                    views(looked@),
                    plan.missing@.len() as int,
                );
                let countable = match state_of(old(self)@, key@) {
                    Some(kept) => kept.reads.len() + discovered.reads@.len() <= usize::MAX
                        && kept.memberships.dom().len() + memberships.dom().len() <= usize::MAX,
                    None => true,
                };
                &&& old(work).unbounded() && countable ==> r is Ok
                &&& r matches Err(Interrupt::BudgetExceeded) ==> final(work).used_up()
                    || !countable
                &&& r matches Err(Interrupt::BudgetExceeded) ==> !countable || !old(work).affords(
                    match state_of(old(self)@, key@) {
                        Some(kept) => (kept.reads.len() + discovered.reads@.len()
                            + kept.memberships.dom().len() + memberships.dom().len()) as int,
                        None => 0,
                    },
                    0,
                )
            }),
            r is Ok ==> ({
                let memberships = with_looked(
                    deep_values(plan.known@),
                    views(plan.missing@),
                    views(looked@),
                    plan.missing@.len() as int,
                );
                let kept = state_of(old(self)@, key@);
                &&& same_but(old(self)@, final(self)@, key@)
                &&& state_of(final(self)@, key@) == Some(
                    installed(kept, discovered, views(plan.watched@), now@, memberships),
                )
                &&& kept is None ==> final(work).spent(old(work), 0, 0)
                &&& kept is Some ==> final(work).spent(
                    old(work),
                    (kept->0.reads.len() + discovered.reads@.len() + kept->0.memberships.dom().len()
                        + memberships.dom().len()) as int,
                    0,
                )
            }),
    {
        let ghost start = *work;
        let ghost store = self@;
        let ghost all = with_looked(
            deep_values(plan.known@),
            views(plan.missing@),
            views(looked@),
            plan.missing@.len() as int,
        );
        let mut memberships = plan.known;
        add_looked(&mut memberships, &plan.missing, looked);
        let state = match self.contexts.get(key) {
            None => {
                work.check()?;
                work.settle()?;
                let mut stamps: KeyMap<FilePath, Option<PathStamp>> = KeyMap::new();
                add_watched(&mut stamps, &plan.watched, now);
                ContextState {
                    context: discovered.context,
                    metadata_files: discovered.metadata_files,
                    metadata_observations: discovered.metadata_observations,
                    watched_paths: stamps,
                    memberships,
                    read_observations: discovered.reads,
                }
            },
            Some(kept) => {
                let reads = merge_project_read_observations(
                    &kept.read_observations,
                    &discovered.reads,
                    work,
                )?;
                let ghost middle = *work;
                let kept_count: usize = kept.memberships.len();
                let new_count: usize = memberships.len();
                proof {
                    assert(deep_values(kept.memberships@).dom() =~= kept.memberships@.dom());
                    assert(deep_values(memberships@).dom() =~= memberships@.dom());
                }
                let merged = merge_candidate_memberships(&kept.memberships, &memberships, work)?;
                proof {
                    lemma_spent_adds(
                        &start,
                        &middle,
                        &*work,
                        (kept.read_observations@.len() + discovered.reads@.len()) as int,
                        0,
                        (kept_count + new_count) as int,
                        0,
                    );
                }
                work.check()?;
                work.settle()?;
                let mut stamps = copy_watched(&kept.watched_paths);
                add_watched(&mut stamps, &plan.watched, now);
                ContextState {
                    context: discovered.context,
                    metadata_files: discovered.metadata_files,
                    metadata_observations: discovered.metadata_observations,
                    watched_paths: stamps,
                    memberships: merged,
                    read_observations: reads,
                }
            },
        };
        proof {
            assert(state@ =~= installed(
                state_of(store, key@),
                discovered,
                views(plan.watched@),
                now@,
                all,
            ));
        }
        self.put_state(key, state);
        Ok(())
    }
}

/// How many of the paths from `i` on are looked at until one is the path.
pub open spec fn seen_until(paths: Seq<Parts>, path: Parts, i: int) -> nat
    decreases paths.len() - i,
{
    if i < 0 || i >= paths.len() {
        0
    } else if paths[i] == path {
        1
    } else {
        1 + seen_until(paths, path, i + 1)
    }
}

/// Those of the first `n` directories that are not among the known ones.
pub open spec fn unknown_of(known: Seq<Parts>, directories: Seq<Parts>, n: int) -> Seq<Parts>
    decreases n,
{
    if n <= 0 {
        seq![]
    } else if known.contains(directories[n - 1]) {
        unknown_of(known, directories, n - 1)
    } else {
        unknown_of(known, directories, n - 1).push(directories[n - 1])
    }
}

/// The visits that finding them is charged.
pub open spec fn unknown_visits(known: Seq<Parts>, directories: Seq<Parts>, n: int) -> nat
    decreases n,
{
    if n <= 0 {
        0
    } else {
        unknown_visits(known, directories, n - 1) + 1 + seen_until(known, directories[n - 1], 0)
    }
}

/// More directories take no fewer visits.
proof fn lemma_unknown_visits_grow(known: Seq<Parts>, directories: Seq<Parts>, m: int, n: int)
    requires
        m <= n,
    ensures
        unknown_visits(known, directories, m) <= unknown_visits(known, directories, n),
    decreases n - m,
{
    if m < n {
        lemma_unknown_visits_grow(known, directories, m, n - 1);
    }
}

fn is_known(known: &KeyMap<FilePath, Membership>, path: &FilePath, work: &mut Work) -> (r: Result<
    bool,
    Interrupt,
>)
    ensures
        final(work).continues(old(work)),
        old(work).unbounded() ==> r is Ok,
        r matches Err(Interrupt::BudgetExceeded) ==> final(work).used_up(),
        r matches Err(Interrupt::BudgetExceeded) ==> !old(work).affords(
            seen_until(known.keys(), path@, 0) as int,
            0,
        ),
        r is Ok ==> r->Ok_0 == known.keys().contains(path@) && final(work).spent(
            old(work),
            seen_until(known.keys(), path@, 0) as int,
            0,
        ),
{
    let ghost start = *work;
    let n: usize = known.len();
    let ghost keys = known.keys();
    let mut i: usize = 0;
    while i < n
        invariant
            i <= n,
            n == keys.len(),
            keys == known.keys(),
            start == *old(work),
            forall|j: int| 0 <= j < i ==> #[trigger] keys[j] != path@,
            seen_until(keys, path@, 0) == i + seen_until(keys, path@, i as int),
            work.spent(&start, i as int, 0),
        decreases n - i,
    {
        work.check()?;
        let ghost before = *work;
        work.visit(1)?;
        proof {
            lemma_spent_adds(&start, &before, &*work, i as int, 0, 1, 0);
        }
        if known.key_at(i).same(path) {
            proof {
                assert(keys[i as int] == path@);
            }
            return Ok(true);
        }
        i += 1;
    }
    Ok(false)
}

/// The directories in which a project of the file is looked for, and of which nothing is
/// kept.
pub fn unknown_directories(state: &ContextState, directories: &Vec<FilePath>, work: &mut Work) -> (r:
    Result<Vec<FilePath>, Interrupt>)
    ensures
        final(work).continues(old(work)),
        old(work).unbounded() ==> r is Ok,
        r matches Err(Interrupt::BudgetExceeded) ==> final(work).used_up(),
        r matches Err(Interrupt::BudgetExceeded) ==> !old(work).affords(
            unknown_visits(
                state.memberships.keys(),
                views(directories@),
                directories@.len() as int,
            ) as int,
            0,
        ),
        r is Ok ==> views(r->Ok_0@) == unknown_of(
            state.memberships.keys(),
            views(directories@),
            directories@.len() as int,
        ) && final(work).spent(
            old(work),
            unknown_visits(
                state.memberships.keys(),
                views(directories@),
                directories@.len() as int,
            ) as int,
            0,
        ),
{
    let ghost start = *work;
    let ghost keys = state.memberships.keys();
    let ghost list = views(directories@);
    let mut unknown: Vec<FilePath> = Vec::new();
    let mut i: usize = 0;
    proof {
        assert(views(unknown@) =~= seq![]);
    }
    while i < directories.len()
        invariant
            i <= directories@.len(),
            keys == state.memberships.keys(),
            list == views(directories@),
            start == *old(work),
            views(unknown@) == unknown_of(keys, list, i as int),
            work.spent(&start, unknown_visits(keys, list, i as int) as int, 0),
        decreases directories@.len() - i,
    {
        let directory = &directories[i];
        work.check()?;
        let ghost before = *work;
        proof {
            assert(list[i as int] == directory@);
            lemma_unknown_visits_grow(keys, list, i + 1, directories@.len() as int);
        }
        work.visit(1)?;
        let ghost between = *work;
        let known = is_known(&state.memberships, directory, work)?;
        proof {
            lemma_spent_adds(
                &before,
                &between,
                &*work,
                1,
                0,
                seen_until(keys, directory@, 0) as int,
                0,
            );
            lemma_spent_adds(
                &start,
                &before,
                &*work,
                unknown_visits(keys, list, i as int) as int,
                0,
                (1 + seen_until(keys, directory@, 0)) as int,
                0,
            );
        }
        if !known {
            let ghost held = unknown@;
            unknown.push(directory.copy());
            proof {
                assert(views(unknown@) =~= views(held).push(directory@));
            }
        }
        i += 1;
    }
    Ok(unknown)
}

impl ContextStore {
    /// Keeps what was found in further directories of a project.
    pub fn extend_context_watch_paths(
        &mut self,
        key: &ContextKey,
        directories: &Vec<FilePath>,
        looked: &Vec<Membership>,
    )
        requires
            directories@.len() == looked@.len(),
        ensures
            same_but(old(self)@, final(self)@, key@),
            state_of(final(self)@, key@) == (match state_of(old(self)@, key@) {
                Some(state) => Some(
                    StateView {
                        memberships: with_looked(
                            state.memberships,
                            views(directories@),
                            views(looked@),
                            directories@.len() as int,
                        ),
                        ..state
                    },
                ),
                None => None,
            }),
    {
        let ghost store = self@;
        let mut state = match self.contexts.get(key) {
            Some(state) => state.copy(),
            None => {
                return ;
            },
        };
        let ghost before = state@;
        let mut memberships: KeyMap<FilePath, Membership> = KeyMap::new();
        std::mem::swap(&mut memberships, &mut state.memberships);
        add_looked(&mut memberships, directories, looked);
        state.memberships = memberships;
        proof {
            assert(state@ =~= (StateView { memberships: deep_values(memberships@), ..before }));
        }
        self.put_state(key, state);
    }
}

/// The stamps with one more observation: it fills a stamp that is missing, and does not
/// replace one that is there.
pub open spec fn with_seen(stamps: Map<Parts, Option<PathStamp>>, seen: WatchedView) -> Map<
    Parts,
    Option<PathStamp>,
> {
    if stamps.contains_key(seen.path) && stamps[seen.path] is Some {
        stamps
    } else {
        stamps.insert(seen.path, seen.read)
    }
}

/// The stamps with the first `n` observations.
pub open spec fn with_all_seen(
    stamps: Map<Parts, Option<PathStamp>>,
    seen: Seq<WatchedView>,
    n: int,
) -> Map<Parts, Option<PathStamp>>
    decreases n,
{
    if n <= 0 {
        stamps
    } else {
        with_seen(with_all_seen(stamps, seen, n - 1), seen[n - 1])
    }
}

/// What is kept of a project after its sources were resolved: `resolved` is its context
/// then, with what was read, and `seen` are the files that were looked at.
pub open spec fn after_resolution(
    state: StateView,
    resolved: Discovered,
    seen: Seq<WatchedView>,
) -> StateView {
    StateView {
        context: *resolved.context,
        metadata_files: views(resolved.metadata_files@),
        metadata_observations: views(resolved.metadata_observations@),
        watched: with_all_seen(state.watched, seen, seen.len() as int),
        memberships: state.memberships,
        reads: merged_reads(state.reads, views(resolved.reads@), resolved.reads@.len() as int),
    }
}

impl ContextStore {
    /// Keeps what the resolution of a project's sources came upon, and tells the owners.
    pub fn merge_resolution_report(
        &mut self,
        key: &ContextKey,
        resolved: Discovered,
        seen: &Vec<WatchedPath>,
    )
        ensures
            state_of(old(self)@, key@) is None ==> final(self)@ == old(self)@,
            state_of(old(self)@, key@) is Some ==> {
                &&& state_of(final(self)@, key@) == Some(
                    after_resolution(
                        state_of(old(self)@, key@)->0,
                        resolved,
                        views(seen@),
                    ),
                )
                &&& final(self)@.contexts.remove(key@) == old(self)@.contexts.remove(key@)
                &&& final(self)@ == (StoreView {
                    contexts: final(self)@.contexts,
                    owners: final(self)@.owners,
                    ..old(self)@
                })
                &&& final(self)@.owners == changed_owners(
                    old(self)@.owners,
                    OwnerChange::Refresh(key, &final(self)@.contexts[key@]),
                )
            },
    {
        let ghost store = self@;
        let mut state = match self.contexts.get(key) {
            Some(state) => state.copy(),
            None => {
                return ;
            },
        };
        let ghost before = state@;
        let ghost list = views(seen@);
        let mut stamps: KeyMap<FilePath, Option<PathStamp>> = KeyMap::new();
        std::mem::swap(&mut stamps, &mut state.watched_paths);
        let mut i: usize = 0;
        while i < seen.len()
            invariant
                i <= seen@.len(),
                list == views(seen@),
                stamps@ == with_all_seen(before.watched, list, i as int),
            decreases seen@.len() - i,
        {
            proof {
                assert(list[i as int] == seen@[i as int]@);
            }
            let known = match stamps.get(&seen[i].path) {
                Some(stamp) => stamp.is_some(),
                None => false,
            };
            if !known {
                let _previous = stamps.insert(seen[i].path.copy(), seen[i].read);
            }
            i += 1;
        }
        let mut reads: Vec<ReadObservation> = Vec::new();
        std::mem::swap(&mut reads, &mut state.read_observations);
        crate::discovery::add_reads(&mut reads, &resolved.reads);
        let state = ContextState {
            context: resolved.context,
            metadata_files: resolved.metadata_files,
            metadata_observations: resolved.metadata_observations,
            watched_paths: stamps,
            memberships: state.memberships,
            read_observations: reads,
        };
        proof {
            assert(state@ =~= after_resolution(before, resolved, list));
        }
        let kept = Arc::new(state);
        let _previous = self.contexts.insert(key.duplicate(), kept.clone());
        let ghost middle = self@;
        proof {
            assert(middle.contexts == store.contexts.insert(key@, kept));
            assert(middle =~= (StoreView { contexts: middle.contexts, ..store }));
            assert(middle.contexts.remove(key@) =~= store.contexts.remove(key@));
        }
        self.change_owners(&OwnerChange::Refresh(key, &kept));
    }
}

/// The metadata observations with the first `n` of another list. Where a path is known
/// already, what was in the file replaces that it was there, and nothing else changes.
pub open spec fn merged_metadata(kept: Seq<MetadataView>, new: Seq<MetadataView>, n: int) -> Seq<
    MetadataView,
>
    decreases n,
{
    if n <= 0 {
        kept
    } else {
        let before = merged_metadata(kept, new, n - 1);
        let observation = new[n - 1];
        match metadata_place(before, observation.path, 0) {
            Some(place) => if before[place].payload is None && observation.payload is Some {
                before.update(place, observation)
            } else {
                before
            },
            None => before.push(observation),
        }
    }
}

/// The first place of a path among metadata observations, from the `i`-th on.
pub open spec fn metadata_place(list: Seq<MetadataView>, path: Parts, i: int) -> Option<int>
    decreases list.len() - i,
{
    if i < 0 || i >= list.len() {
        None
    } else if list[i].path == path {
        Some(i)
    } else {
        metadata_place(list, path, i + 1)
    }
}

fn find_metadata(list: &Vec<MetadataObservation>, path: &FilePath) -> (r: Option<usize>)
    ensures
        match r {
            Some(place) => place < list@.len() && metadata_place(views(list@), path@, 0) == Some(
                place as int,
            ),
            None => metadata_place(views(list@), path@, 0) is None,
        },
{
    let ghost all = views(list@);
    let mut i: usize = 0;
    while i < list.len()
        invariant
            i <= list@.len(),
            all == views(list@),
            metadata_place(all, path@, 0) == metadata_place(all, path@, i as int),
        decreases list@.len() - i,
    {
        proof {
            assert(all[i as int] == list@[i as int]@);
        }
        if list[i].path.same(path) {
            return Some(i);
        }
        i += 1;
    }
    None
}

/// Merges the metadata observations of one lookup into those kept.
pub fn merge_metadata_observations(
    kept: &Vec<MetadataObservation>,
    new: &Vec<MetadataObservation>,
    work: &mut Work,
) -> (r: Result<Vec<MetadataObservation>, Interrupt>)
    ensures
        final(work).continues(old(work)),
        old(work).unbounded() && kept@.len() + new@.len() <= usize::MAX ==> r is Ok,
        r matches Err(Interrupt::BudgetExceeded) ==> final(work).used_up() || kept@.len()
            + new@.len() > usize::MAX,
        r matches Err(Interrupt::BudgetExceeded) ==> !old(work).affords(
            (kept@.len() + new@.len()) as int,
            0,
        ) || kept@.len() + new@.len() > usize::MAX,
        r is Ok ==> views(r->Ok_0@) == merged_metadata(
            views(kept@),
            views(new@),
            new@.len() as int,
        ) && final(work).spent(old(work), (kept@.len() + new@.len()) as int, 0),
{
    match kept.len().checked_add(new.len()) {
        Some(total) => work.visit(total)?,
        None => {
            return Err(Interrupt::BudgetExceeded);
        },
    }
    let ghost after = *work;
    let mut merged = copy_metadata(kept);
    let ghost start = views(kept@);
    let ghost list = views(new@);
    let mut i: usize = 0;
    while i < new.len()
        invariant
            i <= new@.len(),
            list == views(new@),
            after == *work,
            after.spent(&*old(work), (kept@.len() + new@.len()) as int, 0),
            views(merged@) == merged_metadata(start, list, i as int),
        decreases new@.len() - i,
    {
        work.check()?;
        proof {
            assert(list[i as int] == new@[i as int]@);
        }
        let ghost held = merged@;
        match find_metadata(&merged, &new[i].path) {
            Some(place) => {
                proof {
                    assert(views(held)[place as int] == held[place as int]@);
                }
                if merged[place].payload.is_none() && new[i].payload.is_some() {
                    let copied = new[i].copy();
                    merged.set(place, copied);
                    proof {
                        assert(views(merged@) =~= views(held).update(place as int, copied@));
                    }
                }
            },
            None => {
                let copied = new[i].copy();
                merged.push(copied);
                proof {
                    assert(views(merged@) =~= views(held).push(copied@));
                }
            },
        }
        i += 1;
    }
    Ok(merged)
}

} // verus!
