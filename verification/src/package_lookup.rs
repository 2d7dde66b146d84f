//! How a unit is looked for in the source packages that a project names.

use vstd::prelude::*;

use crate::budget::{lemma_counted_adds, Work};
use crate::cancel::Interrupt;
use crate::discovery::{add_reads, merged_reads};
use crate::names::{names_unit, package_unit_name_matches};
use crate::packages::holds_path;
use crate::paths::{path_text, FilePath, Parts};
use crate::project::{MetadataObservation, MetadataView, ReadObservation, ReadView};
use crate::sorting::views;
use crate::strings::{concat, concat3, decimal, texts, to_decimal};

verus! {

pub const MAX_PACKAGE_LOOKUPS: usize = 256;

pub const MAX_PACKAGE_UNIT_CANDIDATES: usize = 1_024;

/// A file that a package has a unit in, and whether it may be read.
#[derive(Debug)]
pub struct PackageEntry {
    pub path: FilePath,
    pub allowed: bool,
}

/// A file that a package has a unit in.
pub struct PackageEntryView {
    pub path: Parts,
    pub allowed: bool,
}

impl View for PackageEntry {
    type V = PackageEntryView;

    open spec fn view(&self) -> PackageEntryView {
        PackageEntryView { path: self.path@, allowed: self.allowed }
    }
}

/// A unit of a package, with its files.
#[derive(Debug)]
pub struct PackageUnit {
    pub name: String,
    pub entries: Vec<PackageEntry>,
}

/// A unit of a package, with its files.
pub struct PackageUnitView {
    pub name: Seq<char>,
    pub entries: Seq<PackageEntryView>,
}

impl View for PackageUnit {
    type V = PackageUnitView;

    open spec fn view(&self) -> PackageUnitView {
        PackageUnitView { name: self.name@, entries: views(self.entries@) }
    }
}

/// What the descriptor of a package says, and what was read to find out.
#[derive(Debug)]
pub struct PackageFacts {
    pub metadata_files: Vec<FilePath>,
    pub metadata_observations: Vec<MetadataObservation>,
    pub units: Vec<PackageUnit>,
    pub warnings: Vec<String>,
    pub reads: Vec<ReadObservation>,
}

/// What is found in the packages for a unit.
#[derive(Debug)]
pub struct PackageLookup {
    pub candidates: Vec<FilePath>,
    pub metadata_paths: Vec<FilePath>,
    pub reads: Vec<ReadObservation>,
    pub metadata_observations: Vec<MetadataObservation>,
    pub warnings: Vec<String>,
    pub complete: bool,
}

/// What is found in the packages for a unit.
#[verifier::ext_equal]
pub struct LookupView {
    pub candidates: Seq<Parts>,
    pub metadata_paths: Seq<Parts>,
    pub reads: Seq<ReadView>,
    pub metadata_observations: Seq<MetadataView>,
    pub warnings: Seq<Seq<char>>,
    pub complete: bool,
}

impl View for PackageLookup {
    type V = LookupView;

    open spec fn view(&self) -> LookupView {
        LookupView {
            candidates: views(self.candidates@),
            metadata_paths: views(self.metadata_paths@),
            reads: views(self.reads@),
            metadata_observations: views(self.metadata_observations@),
            warnings: texts(self.warnings@),
            complete: self.complete,
        }
    }
}

/// The lookup with one more warning.
pub open spec fn lookup_warned(lookup: LookupView, message: Seq<char>) -> LookupView {
    LookupView { warnings: lookup.warnings.push(message), ..lookup }
}

/// The lookup that has to be given up.
pub open spec fn lookup_given_up(lookup: LookupView, message: Seq<char>) -> LookupView {
    LookupView { candidates: seq![], complete: false, ..lookup_warned(lookup, message) }
}

/// The lookup before the first package.
pub open spec fn empty_lookup() -> LookupView {
    LookupView {
        candidates: seq![],
        metadata_paths: seq![],
        reads: seq![],
        metadata_observations: seq![],
        warnings: seq![],
        complete: true,
    }
}

/// The lookup before the first package. More packages than may be looked into are not
/// looked into at all.
pub open spec fn lookup_start(packages: nat, requested: Seq<char>) -> LookupView {
    if packages > MAX_PACKAGE_LOOKUPS {
        lookup_given_up(
            empty_lookup(),
            "named package lookup limit ("@ + decimal(MAX_PACKAGE_LOOKUPS as nat)
                + ") reached while resolving "@ + requested,
        )
    } else {
        empty_lookup()
    }
}

/// What is done with a package.
#[derive(Debug)]
pub enum PackageStep {
    /// The lookup ends.
    Stop,
    /// The next package is looked into.
    Skip,
    /// The descriptor is read.
    Read(FilePath),
}

/// The texts of the first `n` paths, with commas between them.
pub open spec fn joined_texts(paths: Seq<Parts>, n: int) -> Seq<char>
    decreases n,
{
    if n <= 0 {
        seq![]
    } else if n == 1 {
        path_text(paths[0])
    } else {
        joined_texts(paths, n - 1) + ", "@ + path_text(paths[n - 1])
    }
}

/// The texts of paths, with commas between them.
pub fn join_paths(paths: &Vec<FilePath>) -> (r: String)
    ensures
        r@ == joined_texts(views(paths@), paths@.len() as int),
{
    let ghost list = views(paths@);
    let mut text = String::new();
    let mut i: usize = 0;
    proof {
        assert(text@ =~= seq![]);
    }
    while i < paths.len()
        invariant
            i <= paths@.len(),
            list == views(paths@),
            text@ == joined_texts(list, i as int),
        decreases paths@.len() - i,
    {
        proof {
            assert(list[i as int] == paths@[i as int]@);
        }
        if i == 0 {
            text = paths[i].text();
        } else {
            text = concat3(text.as_str(), ", ", paths[i].text().as_str());
        }
        i += 1;
    }
    text
}

/// What is done with a package of which the descriptors are known.
pub open spec fn package_step(
    lookup: LookupView,
    package: Seq<char>,
    descriptors: Seq<Parts>,
    complete: bool,
) -> (LookupView, Option<Option<Parts>>) {
    if !complete {
        (
            lookup_given_up(
                lookup,
                "source for package "@ + package
                    + " was not found because its bounded source catalogue was incomplete; compiled-only package skipped"@,
            ),
            None,
        )
    } else if descriptors.len() == 0 {
        (
            lookup_warned(
                lookup,
                "source for package "@ + package
                    + " was not found under the configured workspace/source roots; compiled-only package skipped"@,
            ),
            Some(None),
        )
    } else if descriptors.len() > 1 {
        (
            lookup_warned(
                lookup,
                "ambiguous package "@ + package + "; matching source descriptors were found: "@
                    + joined_texts(descriptors, descriptors.len() as int),
            ),
            Some(None),
        )
    } else {
        (lookup, Some(Some(descriptors[0])))
    }
}

/// The paths with one more, if it is not among them.
pub open spec fn with_new_path(paths: Seq<Parts>, path: Parts) -> Seq<Parts> {
    if paths.contains(path) {
        paths
    } else {
        paths.push(path)
    }
}

pub open spec fn outside_text(package: Seq<char>, requested: Seq<char>, path: Parts) -> Seq<char> {
    "source package "@ + package + " maps "@ + requested
        + " outside configured workspace/source roots; skipped: "@ + path_text(path)
}

pub open spec fn candidates_text(requested: Seq<char>) -> Seq<char> {
    "package unit candidate limit ("@ + decimal(MAX_PACKAGE_UNIT_CANDIDATES as nat)
        + ") reached while resolving "@ + requested
}

/// The lookup after one file of a unit, and whether it goes on.
pub open spec fn entry_taken(
    lookup: LookupView,
    package: Seq<char>,
    requested: Seq<char>,
    entry: PackageEntryView,
) -> (LookupView, bool) {
    if !entry.allowed {
        (lookup_warned(lookup, outside_text(package, requested, entry.path)), true)
    } else {
        let noted = LookupView {
            metadata_paths: with_new_path(lookup.metadata_paths, entry.path),
            ..lookup
        };
        if lookup.candidates.contains(entry.path) {
            (noted, true)
        } else if lookup.candidates.len() >= MAX_PACKAGE_UNIT_CANDIDATES {
            (lookup_given_up(noted, candidates_text(requested)), false)
        } else {
            (LookupView { candidates: noted.candidates.push(entry.path), ..noted }, true)
        }
    }
}

/// The lookup after the first `n` files of a unit, whether it goes on, and how many were
/// looked at.
pub open spec fn entries_taken(
    lookup: LookupView,
    package: Seq<char>,
    requested: Seq<char>,
    entries: Seq<PackageEntryView>,
    n: int,
) -> (LookupView, bool, nat)
    decreases n,
{
    if n <= 0 {
        (lookup, true, 0)
    } else {
        let before = entries_taken(lookup, package, requested, entries, n - 1);
        if before.1 {
            let after = entry_taken(before.0, package, requested, entries[n - 1]);
            (after.0, after.1, before.2 + 1)
        } else {
            before
        }
    }
}

/// The lookup after the first `n` units of a package, whether it goes on, how many visits
/// it was charged, and whether one of the units was meant.
pub open spec fn units_taken(
    lookup: LookupView,
    package: Seq<char>,
    requested: Seq<char>,
    lookup_name: Seq<char>,
    namespaces: Seq<Seq<char>>,
    units: Seq<PackageUnitView>,
    n: int,
) -> (LookupView, bool, nat, bool)
    decreases n,
{
    if n <= 0 {
        (lookup, true, 0, false)
    } else {
        let before = units_taken(
            lookup,
            package,
            requested,
            lookup_name,
            namespaces,
            units,
            n - 1,
        );
        let unit = units[n - 1];
        if !before.1 {
            before
        } else if names_unit(unit.name, requested, lookup_name, namespaces) {
            let after = entries_taken(
                before.0,
                package,
                requested,
                unit.entries,
                unit.entries.len() as int,
            );
            (after.0, after.1, before.2 + 1 + after.2, true)
        } else {
            (before.0, true, before.2 + 1, before.3)
        }
    }
}

/// The lookup with what was read of a package.
pub open spec fn with_facts(lookup: LookupView, descriptor: Parts, facts: PackageFacts) -> LookupView {
    LookupView {
        reads: merged_reads(lookup.reads, views(facts.reads@), facts.reads@.len() as int),
        metadata_paths: lookup.metadata_paths.push(descriptor) + views(facts.metadata_files@),
        metadata_observations: lookup.metadata_observations + views(facts.metadata_observations@),
        ..lookup
    }
}

/// The lookup after a package, and whether it goes on.
pub open spec fn package_taken(
    lookup: LookupView,
    package: Seq<char>,
    descriptor: Parts,
    requested: Seq<char>,
    lookup_name: Seq<char>,
    namespaces: Seq<Seq<char>>,
    facts: PackageFacts,
) -> (LookupView, bool) {
    let after = units_taken(
        with_facts(lookup, descriptor, facts),
        package,
        requested,
        lookup_name,
        namespaces,
        views(facts.units@),
        facts.units@.len() as int,
    );
    if !after.1 {
        (after.0, false)
    } else {
        let mapped = if after.3 {
            after.0
        } else {
            lookup_warned(
                after.0,
                "source package "@ + package + " has no contains mapping for "@ + requested,
            )
        };
        (LookupView { warnings: mapped.warnings + texts(facts.warnings@), ..mapped }, true)
    }
}

/// The first entries of a unit, or none, were taken.
pub open spec fn unit_begun(
    before: LookupView,
    after: LookupView,
    package: Seq<char>,
    requested: Seq<char>,
    unit: PackageUnitView,
) -> bool {
    exists|n: int|
        0 <= n <= unit.entries.len() && after == (#[trigger] entries_taken(
            before,
            package,
            requested,
            unit.entries,
            n,
        )).0
}

proof fn lemma_entries_grow(
    lookup: LookupView,
    package: Seq<char>,
    requested: Seq<char>,
    entries: Seq<PackageEntryView>,
    n: int,
    m: int,
)
    requires
        n <= m,
    ensures
        entries_taken(lookup, package, requested, entries, n).2 <= entries_taken(
            lookup,
            package,
            requested,
            entries,
            m,
        ).2,
    decreases m - n,
{
    if n < m {
        lemma_entries_grow(lookup, package, requested, entries, n, m - 1);
    }
}

proof fn lemma_units_grow(
    lookup: LookupView,
    package: Seq<char>,
    requested: Seq<char>,
    lookup_name: Seq<char>,
    namespaces: Seq<Seq<char>>,
    units: Seq<PackageUnitView>,
    n: int,
    m: int,
)
    requires
        n <= m,
    ensures
        units_taken(lookup, package, requested, lookup_name, namespaces, units, n).2
            <= units_taken(lookup, package, requested, lookup_name, namespaces, units, m).2,
    decreases m - n,
{
    if n < m {
        lemma_units_grow(lookup, package, requested, lookup_name, namespaces, units, n, m - 1);
    }
}

proof fn lemma_entries_stop(
    lookup: LookupView,
    package: Seq<char>,
    requested: Seq<char>,
    entries: Seq<PackageEntryView>,
    n: int,
    m: int,
)
    requires
        n <= m,
        !entries_taken(lookup, package, requested, entries, n).1,
    ensures
        entries_taken(lookup, package, requested, entries, m) == entries_taken(
            lookup,
            package,
            requested,
            entries,
            n,
        ),
    decreases m - n,
{
    if n < m {
        lemma_entries_stop(lookup, package, requested, entries, n, m - 1);
    }
}

proof fn lemma_units_stop(
    lookup: LookupView,
    package: Seq<char>,
    requested: Seq<char>,
    lookup_name: Seq<char>,
    namespaces: Seq<Seq<char>>,
    units: Seq<PackageUnitView>,
    n: int,
    m: int,
)
    requires
        n <= m,
        !units_taken(lookup, package, requested, lookup_name, namespaces, units, n).1,
    ensures
        units_taken(lookup, package, requested, lookup_name, namespaces, units, m) == units_taken(
            lookup,
            package,
            requested,
            lookup_name,
            namespaces,
            units,
            n,
        ),
    decreases m - n,
{
    if n < m {
        lemma_units_stop(lookup, package, requested, lookup_name, namespaces, units, n, m - 1);
    }
}

/// What a unit is looked for under.
pub struct UnitQuery<'a> {
    pub requested: &'a str,
    pub lookup: &'a str,
    pub namespaces: &'a Vec<String>,
}

impl PackageLookup {
    /// The lookup before the first package. Returns also whether there is one to look into.
    pub fn begin(packages: usize, requested: &str) -> (r: (Self, bool))
        ensures
            r.0@ == lookup_start(packages as nat, requested@),
            r.1 == (0 < packages <= MAX_PACKAGE_LOOKUPS),
    {
        let mut lookup = PackageLookup {
            candidates: Vec::new(),
            metadata_paths: Vec::new(),
            reads: Vec::new(),
            metadata_observations: Vec::new(),
            warnings: Vec::new(),
            complete: true,
        };
        proof {
            assert(lookup@ =~= empty_lookup());
        }
        if packages > MAX_PACKAGE_LOOKUPS {
            let head = concat3(
                "named package lookup limit (",
                to_decimal(MAX_PACKAGE_LOOKUPS).as_str(),
                ") reached while resolving ",
            );
            lookup.give_up(concat(head.as_str(), requested));
        }
        (lookup, 0 < packages && packages <= MAX_PACKAGE_LOOKUPS)
    }

    fn warn(&mut self, message: String)
        ensures
            final(self)@ == lookup_warned(old(self)@, message@),
    {
        let ghost before = self@;
        let ghost held = self.warnings@;
        self.warnings.push(message);
        proof {
            assert(texts(self.warnings@) =~= texts(held).push(message@));
            assert(self@ =~= lookup_warned(before, message@));
        }
    }

    fn give_up(&mut self, message: String)
        ensures
            final(self)@ == lookup_given_up(old(self)@, message@),
    {
        let ghost before = self@;
        self.warn(message);
        self.candidates = Vec::new();
        self.complete = false;
        proof {
            assert(views(self.candidates@) =~= seq![]);
            assert(self@ =~= lookup_given_up(before, message@));
        }
    }

    /// What is done with a package of which the descriptors are known, all of them or not.
    pub fn consider_package(
        &mut self,
        package: &str,
        descriptors: &Vec<FilePath>,
        complete: bool,
    ) -> (r: PackageStep)
        ensures
            ({
                let (lookup, step) = package_step(
                    old(self)@,
                    package@,
                    views(descriptors@),
                    complete,
                );
                &&& final(self)@ == lookup
                &&& match r {
                    PackageStep::Stop => step is None,
                    PackageStep::Skip => step == Some(None::<Parts>),
                    PackageStep::Read(descriptor) => step == Some(Some(descriptor@)),
                }
            }),
    {
        proof {
            assert(views(descriptors@).len() == descriptors@.len());
        }
        if !complete {
            self.give_up(
                concat3(
                    "source for package ",
                    package,
                    " was not found because its bounded source catalogue was incomplete; compiled-only package skipped",
                ),
            );
            return PackageStep::Stop;
        }
        if descriptors.len() == 0 {
            self.warn(
                concat3(
                    "source for package ",
                    package,
                    " was not found under the configured workspace/source roots; compiled-only package skipped",
                ),
            );
            return PackageStep::Skip;
        }
        if descriptors.len() > 1 {
            let head = concat3(
                "ambiguous package ",
                package,
                "; matching source descriptors were found: ",
            );
            self.warn(concat(head.as_str(), join_paths(descriptors).as_str()));
            return PackageStep::Skip;
        }
        PackageStep::Read(descriptors[0].copy())
    }

    /// Notes that the descriptor of a package could not be used.
    pub fn skip_package(&mut self, package: &str, error: &str)
        ensures
            final(self)@ == lookup_warned(
                old(self)@,
                "source package "@ + package@ + " was skipped: "@ + error@,
            ),
    {
        let head = concat3("source package ", package, " was skipped: ");
        self.warn(concat(head.as_str(), error));
    }

    fn note_facts(&mut self, descriptor: &FilePath, facts: &PackageFacts)
        ensures
            final(self)@ == with_facts(old(self)@, descriptor@, *facts),
    {
        let ghost before = self@;
        add_reads(&mut self.reads, &facts.reads);
        let ghost held = self.metadata_paths@;
        self.metadata_paths.push(descriptor.copy());
        proof {
            assert(views(self.metadata_paths@) =~= views(held).push(descriptor@));
        }
        let ghost paths = views(self.metadata_paths@);
        let ghost files = views(facts.metadata_files@);
        let mut i: usize = 0;
        proof {
            assert(paths + files.take(0) =~= paths);
        }
        while i < facts.metadata_files.len()
            invariant
                i <= facts.metadata_files@.len(),
                files == views(facts.metadata_files@),
                self@ == (LookupView {
                    reads: self@.reads,
                    metadata_paths: paths + files.take(i as int),
                    ..before
                }),
                self@.reads == merged_reads(
                    before.reads,
                    views(facts.reads@),
                    facts.reads@.len() as int,
                ),
            decreases facts.metadata_files@.len() - i,
        {
            let ghost held = self.metadata_paths@;
            let copied = facts.metadata_files[i].copy();
            self.metadata_paths.push(copied);
            proof {
                assert(files[i as int] == copied@);
                assert(views(self.metadata_paths@) =~= views(held).push(copied@));
                assert(paths + files.take(i + 1) =~= (paths + files.take(i as int)).push(
                    files[i as int],
                ));
                assert(self@ =~= (LookupView {
                    reads: self@.reads,
                    metadata_paths: paths + files.take(i + 1),
                    ..before
                }));
            }
            i += 1;
        }
        let ghost middle = self@;
        let ghost start = views(self.metadata_observations@);
        let ghost more = views(facts.metadata_observations@);
        let mut k: usize = 0;
        proof {
            assert(files.take(files.len() as int) =~= files);
            assert(start + more.take(0) =~= start);
        }
        while k < facts.metadata_observations.len()
            invariant
                k <= facts.metadata_observations@.len(),
                more == views(facts.metadata_observations@),
                self@ == (LookupView {
                    metadata_observations: start + more.take(k as int),
                    ..middle
                }),
            decreases facts.metadata_observations@.len() - k,
        {
            let ghost held = self.metadata_observations@;
            let copied = facts.metadata_observations[k].copy();
            self.metadata_observations.push(copied);
            proof {
                assert(more[k as int] == copied@);
                assert(views(self.metadata_observations@) =~= views(held).push(copied@));
                assert(start + more.take(k + 1) =~= (start + more.take(k as int)).push(
                    more[k as int],
                ));
                assert(self@ =~= (LookupView {
                    metadata_observations: start + more.take(k + 1),
                    ..middle
                }));
            }
            k += 1;
        }
        proof {
            assert(more.take(more.len() as int) =~= more);
            assert(self@ =~= with_facts(before, descriptor@, *facts));
        }
    }

    fn take_entry(&mut self, package: &str, requested: &str, entry: &PackageEntry) -> (r: bool)
        ensures
            (final(self)@, r) == entry_taken(old(self)@, package@, requested@, entry@),
    {
        let ghost before = self@;
        if !entry.allowed {
            let head = concat3("source package ", package, " maps ");
            let middle = concat3(
                head.as_str(),
                requested,
                " outside configured workspace/source roots; skipped: ",
            );
            self.warn(concat(middle.as_str(), entry.path.text().as_str()));
            return true;
        }
        if !holds_path(&self.metadata_paths, &entry.path) {
            let ghost held = self.metadata_paths@;
            let copied = entry.path.copy();
            self.metadata_paths.push(copied);
            proof {
                assert(views(self.metadata_paths@) =~= views(held).push(copied@));
            }
        }
        let ghost noted = LookupView {
            metadata_paths: with_new_path(before.metadata_paths, entry.path@),
            ..before
        };
        proof {
            assert(self@ =~= noted);
            assert(self@.candidates.len() == self.candidates@.len());
        }
        if holds_path(&self.candidates, &entry.path) {
            return true;
        }
        if self.candidates.len() >= MAX_PACKAGE_UNIT_CANDIDATES {
            let head = concat3(
                "package unit candidate limit (",
                to_decimal(MAX_PACKAGE_UNIT_CANDIDATES).as_str(),
                ") reached while resolving ",
            );
            self.give_up(concat(head.as_str(), requested));
            return false;
        }
        let ghost held = self.candidates@;
        let copied = entry.path.copy();
        self.candidates.push(copied);
        proof {
            assert(views(self.candidates@) =~= views(held).push(copied@));
            assert(self@ =~= (LookupView {
                candidates: noted.candidates.push(copied@),
                ..noted
            }));
        }
        true
    }

    fn take_entries(
        &mut self,
        package: &str,
        requested: &str,
        entries: &Vec<PackageEntry>,
        work: &mut Work,
    ) -> (r: Result<bool, Interrupt>)
        ensures
            final(work).continues(old(work)),
            old(work).unbounded() ==> r is Ok,
            r matches Err(Interrupt::BudgetExceeded) ==> final(work).used_up(),
            r matches Err(Interrupt::BudgetExceeded) ==> !old(work).affords(
                entries_taken(old(self)@, package@, requested@, views(entries@), entries@.len() as int).2 as int,
                0,
            ),
            r is Ok ==> ({
                let taken = entries_taken(
                    old(self)@,
                    package@,
                    requested@,
                    views(entries@),
                    entries@.len() as int,
                );
                &&& final(self)@ == taken.0
                &&& r->Ok_0 == taken.1
                &&& final(work).counted(old(work), taken.2 as int, taken.2 as int, 0, 0)
            }),
            r is Err ==> exists|n: int|
                0 <= n < entries@.len() && final(self)@ == (#[trigger] entries_taken(
                    old(self)@,
                    package@,
                    requested@,
                    views(entries@),
                    n,
                )).0,
    {
        let ghost start = *work;
        let ghost lookup = self@;
        let ghost list = views(entries@);
        let mut i: usize = 0;
        while i < entries.len()
            invariant
                i <= entries@.len(),
                list == views(entries@),
                start == *old(work),
                lookup == old(self)@,
                entries_taken(lookup, package@, requested@, list, i as int) == (
                    self@,
                    true,
                    i as nat,
                ),
                work.counted(&start, i as int, i as int, 0, 0),
            decreases entries@.len() - i,
        {
            proof {
                assert(self@ == entries_taken(lookup, package@, requested@, list, i as int).0);
            }
            work.check()?;
            let ghost before = *work;
            proof {
                lemma_entries_grow(
                    lookup,
                    package@,
                    requested@,
                    list,
                    i + 1,
                    entries@.len() as int,
                );
            }
            work.visit_packages(1)?;
            proof {
                lemma_counted_adds(
                    &start,
                    &before,
                    &*work,
                    (i as int, i as int, 0, 0),
                    (1, 1, 0, 0),
                );
                assert(list[i as int] == entries@[i as int]@);
            }
            let goes_on = self.take_entry(package, requested, &entries[i]);
            if !goes_on {
                proof {
                    lemma_entries_stop(
                        lookup,
                        package@,
                        requested@,
                        list,
                        i + 1,
                        entries@.len() as int,
                    );
                }
                return Ok(false);
            }
            i += 1;
        }
        Ok(true)
    }

    /// Takes what a package says. Returns whether the lookup goes on.
    pub fn take_package(
        &mut self,
        query: &UnitQuery,
        package: &str,
        descriptor: &FilePath,
        facts: &PackageFacts,
        work: &mut Work,
    ) -> (r: Result<bool, Interrupt>)
        ensures
            final(work).continues(old(work)),
            old(work).unbounded() ==> r is Ok,
            r matches Err(Interrupt::BudgetExceeded) ==> final(work).used_up(),
            r matches Err(Interrupt::BudgetExceeded) ==> !old(work).affords(
                units_taken(
                    with_facts(old(self)@, descriptor@, *facts),
                    package@,
                    query.requested@,
                    query.lookup@,
                    texts(query.namespaces@),
                    views(facts.units@),
                    facts.units@.len() as int,
                ).2 as int,
                0,
            ),
            r is Ok ==> ({
                let visits = units_taken(
                    with_facts(old(self)@, descriptor@, *facts),
                    package@,
                    query.requested@,
                    query.lookup@,
                    texts(query.namespaces@),
                    views(facts.units@),
                    facts.units@.len() as int,
                ).2;
                &&& (final(self)@, r->Ok_0) == package_taken(
                    old(self)@,
                    package@,
                    descriptor@,
                    query.requested@,
                    query.lookup@,
                    texts(query.namespaces@),
                    *facts,
                )
                &&& final(work).counted(old(work), visits as int, visits as int, 0, 0)
            }),
            r is Err ==> exists|n: int|
                0 <= n < facts.units@.len() && #[trigger] unit_begun(
                    units_taken(
                        with_facts(old(self)@, descriptor@, *facts),
                        package@,
                        query.requested@,
                        query.lookup@,
                        texts(query.namespaces@),
                        views(facts.units@),
                        n,
                    ).0,
                    final(self)@,
                    package@,
                    query.requested@,
                    views(facts.units@)[n],
                ),
    {
        let ghost start = *work;
        self.note_facts(descriptor, facts);
        let ghost lookup = self@;
        let ghost list = views(facts.units@);
        let ghost names = texts(query.namespaces@);
        let ghost mut visits: nat = 0;
        let mut matched = false;
        let mut i: usize = 0;
        while i < facts.units.len()
            invariant
                i <= facts.units@.len(),
                list == views(facts.units@),
                names == texts(query.namespaces@),
                start == *old(work),
                lookup == with_facts(old(self)@, descriptor@, *facts),
                units_taken(
                    lookup,
                    package@,
                    query.requested@,
                    query.lookup@,
                    names,
                    list,
                    i as int,
                ) == (self@, true, visits, matched),
                work.counted(&start, visits as int, visits as int, 0, 0),
            decreases facts.units@.len() - i,
        {
            proof {
                let none = entries_taken(
                    self@,
                    package@,
                    query.requested@,
                    list[i as int].entries,
                    0,
                );
                assert(none.0 == self@);
                assert(unit_begun(
                    units_taken(
                        lookup,
                        package@,
                        query.requested@,
                        query.lookup@,
                        names,
                        list,
                        i as int,
                    ).0,
                    self@,
                    package@,
                    query.requested@,
                    list[i as int],
                ));
            }
            work.check()?;
            let ghost before = *work;
            proof {
                assert(list[i as int] == facts.units@[i as int]@);
                lemma_units_grow(
                    lookup,
                    package@,
                    query.requested@,
                    query.lookup@,
                    names,
                    list,
                    i + 1,
                    facts.units@.len() as int,
                );
            }
            work.visit_packages(1)?;
            proof {
                lemma_counted_adds(
                    &start,
                    &before,
                    &*work,
                    (visits as int, visits as int, 0, 0),
                    (1, 1, 0, 0),
                );
                assert(views(facts.units@[i as int].entries@).len()
                    == facts.units@[i as int].entries@.len());
            }
            let unit = &facts.units[i];
            if package_unit_name_matches(
                unit.name.as_str(),
                query.requested,
                query.lookup,
                query.namespaces,
            ) {
                matched = true;
                let ghost between = *work;
                let ghost held = self@;
                let taking = self.take_entries(package, query.requested, &unit.entries, work);
                proof {
                    if taking is Err {
                        assert(unit_begun(
                            held,
                            self@,
                            package@,
                            query.requested@,
                            list[i as int],
                        ));
                    }
                }
                let goes_on = taking?;
                proof {
                    let taken = entries_taken(
                        held,
                        package@,
                        query.requested@,
                        list[i as int].entries,
                        list[i as int].entries.len() as int,
                    );
                    lemma_counted_adds(
                        &start,
                        &between,
                        &*work,
                        ((visits + 1) as int, (visits + 1) as int, 0, 0),
                        (taken.2 as int, taken.2 as int, 0, 0),
                    );
                    visits = visits + 1 + taken.2;
                }
                if !goes_on {
                    proof {
                        lemma_units_stop(
                            lookup,
                            package@,
                            query.requested@,
                            query.lookup@,
                            names,
                            list,
                            i + 1,
                            list.len() as int,
                        );
                    }
                    return Ok(false);
                }
            } else {
                proof {
                    visits = visits + 1;
                }
            }
            i += 1;
        }
        if !matched {
            let head = concat3("source package ", package, " has no contains mapping for ");
            self.warn(concat(head.as_str(), query.requested));
        }
        let ghost mapped = self@;
        let ghost told = texts(facts.warnings@);
        let mut k: usize = 0;
        let ghost done = *work;
        proof {
            assert(mapped.warnings + told.take(0) =~= mapped.warnings);
            assert(self@ =~= (LookupView { warnings: mapped.warnings + told.take(0), ..mapped }));
        }
        while k < facts.warnings.len()
            invariant
                k <= facts.warnings@.len(),
                told == texts(facts.warnings@),
                self@ == (LookupView { warnings: mapped.warnings + told.take(k as int), ..mapped }),
            decreases facts.warnings@.len() - k,
        {
            let ghost before = self@;
            self.warn(facts.warnings[k].clone());
            proof {
                assert(told[k as int] == facts.warnings@[k as int]@);
                assert(mapped.warnings + told.take(k + 1) =~= (mapped.warnings + told.take(
                    k as int,
                )).push(told[k as int]));
                assert(self@ =~= (LookupView {
                    warnings: mapped.warnings + told.take(k + 1),
                    ..mapped
                }));
            }
            k += 1;
        }
        proof {
            assert(told.take(told.len() as int) =~= told);
        }
        Ok(true)
    }
}

proof fn lemma_entries_sound(
    lookup: LookupView,
    package: Seq<char>,
    requested: Seq<char>,
    entries: Seq<PackageEntryView>,
    n: int,
)
    requires
        lookup.complete,
    ensures
        ({
            let after = entries_taken(lookup, package, requested, entries, n);
            &&& after.1 == after.0.complete
            &&& !after.1 ==> after.0.candidates.len() == 0
        }),
    decreases n,
{
    if n > 0 {
        lemma_entries_sound(lookup, package, requested, entries, n - 1);
    }
}

proof fn lemma_units_sound(
    lookup: LookupView,
    package: Seq<char>,
    requested: Seq<char>,
    lookup_name: Seq<char>,
    namespaces: Seq<Seq<char>>,
    units: Seq<PackageUnitView>,
    n: int,
)
    requires
        lookup.complete,
    ensures
        ({
            let after = units_taken(
                lookup,
                package,
                requested,
                lookup_name,
                namespaces,
                units,
                n,
            );
            &&& after.1 == after.0.complete
            &&& !after.1 ==> after.0.candidates.len() == 0
        }),
    decreases n,
{
    if n > 0 {
        lemma_units_sound(lookup, package, requested, lookup_name, namespaces, units, n - 1);
        let before = units_taken(
            lookup,
            package,
            requested,
            lookup_name,
            namespaces,
            units,
            n - 1,
        );
        if before.1 {
            lemma_entries_sound(
                before.0,
                package,
                requested,
                units[n - 1].entries,
                units[n - 1].entries.len() as int,
            );
        }
    }
}

/// A lookup that has to be given up, at its start, at a package or at one of its units, names
/// no candidates, and one that goes on is complete so far.
pub proof fn law_incomplete_lookups_name_no_candidates(
    lookup: LookupView,
    package: Seq<char>,
    descriptors: Seq<Parts>,
    known: bool,
    descriptor: Parts,
    requested: Seq<char>,
    lookup_name: Seq<char>,
    namespaces: Seq<Seq<char>>,
    facts: PackageFacts,
    packages: nat,
)
    requires
        lookup.complete,
    ensures
        ({
            let started = lookup_start(packages, requested);
            &&& started.candidates.len() == 0
            &&& started.complete == (packages <= MAX_PACKAGE_LOOKUPS)
        }),
        ({
            let (after, step) = package_step(lookup, package, descriptors, known);
            &&& after.complete == (step is Some)
            &&& step is None ==> after.candidates.len() == 0
        }),
        ({
            let (after, goes_on) = package_taken(
                lookup,
                package,
                descriptor,
                requested,
                lookup_name,
                namespaces,
                facts,
            );
            &&& after.complete == goes_on
            &&& !goes_on ==> after.candidates.len() == 0
        }),
{
    lemma_units_sound(
        with_facts(lookup, descriptor, facts),
        package,
        requested,
        lookup_name,
        namespaces,
        views(facts.units@),
        facts.units@.len() as int,
    );
}

} // verus!
