//! The units outside a project that its formatter groups apart.

use std::sync::atomic::AtomicBool;

use vstd::prelude::*;

use crate::cancel::{check_workspace_cancel, Interrupt};
use crate::limits::ResourceLimits;
use crate::names::{extension_is, has_extension};
use crate::paths::{
    absolute_parts, absolute_path, joined, parse_parts, path_text, stem_text_of, FilePath, Parts,
};
use crate::project::ProjectContext;
use crate::sources::capped;
use crate::strings::{concat, concat3, decimal, lower, replace_char, replaced, to_decimal};
use crate::strmap::StrSet;

verus! {

pub const MAX_FORMAT_EXTERNAL_TRAVERSAL_ENTRIES: usize = 1_048_576;

/// A text in lower case, over all of Unicode.
pub uninterp spec fn lowercase_text(s: Seq<char>) -> Seq<char>;

/// The lower case of a text, by `str::to_lowercase`. The result is named and depends on
/// the text alone. Of a text in ASCII it is known; which other characters have which lower
/// case is left to the Unicode tables of the standard library.
#[verifier::external_body]
fn to_lowercase(s: &str) -> (r: String)
    ensures
        r@ == lowercase_text(s@),
        (forall|i: int| 0 <= i < s@.len() ==> #[trigger] s@[i] as u32 <= 127) ==> r@ == lower(s@),
{
    s.to_lowercase()
}

/// The name of the unit that a file holds, where that is text.
pub open spec fn unit_stem(path: Parts) -> Option<Seq<char>> {
    match stem_text_of(path) {
        Some(stem) => Some(lowercase_text(stem)),
        None => None,
    }
}

/// The names with that of the unit that a file holds.
pub open spec fn with_stem(names: Set<Seq<char>>, path: Parts) -> Set<Seq<char>> {
    match unit_stem(path) {
        Some(stem) => names.insert(stem),
        None => names,
    }
}

fn add_stem(names: &mut StrSet, path: &FilePath)
    ensures
        final(names)@ == with_stem(old(names)@, path@),
{
    if let Some(stem) = path.stem_text() {
        let _added = names.insert(to_lowercase(stem.as_str()));
    }
}

/// What is at the place that a path names.
#[derive(Debug)]
pub enum RootKind {
    /// It could not be looked at, for this reason.
    Unseen(String),
    Link,
    Other,
    Directory,
}

/// What a file turned out to be when it was measured.
#[derive(Debug)]
pub enum Measured {
    /// It could not be looked at, for this reason.
    Unseen(String),
    /// It is no longer a regular file.
    Replaced,
    Bytes(u64),
}

/// What lies at a place of a directory tree.
#[derive(Clone, Copy, Debug, PartialEq, Eq, Structural)]
pub enum EntryKind {
    Link,
    File,
    Other,
}

/// One step of the walk through a directory tree.
#[derive(Debug)]
pub enum WalkEntry {
    /// The walk failed here, for this reason.
    Failed(String),
    Entry { path: FilePath, top: bool, kind: EntryKind },
}

/// Where a configured path leads: backslashes separate its parts too, and what is not
/// absolute starts at the project.
pub open spec fn external_root_parts(cwd: Parts, project_root: Parts, configured: Seq<char>) -> Parts {
    absolute_parts(cwd, joined(project_root, parse_parts(replaced(configured, '\\', '/'))))
}

/// Where a configured path leads.
pub fn external_root(cwd: &FilePath, project_root: &FilePath, configured: &str) -> (r: FilePath)
    ensures
        r@ == external_root_parts(cwd@, project_root@, configured@),
{
    let text = replace_char(configured, '\\', '/');
    let path = FilePath::parse(text.as_str());
    absolute_path(cwd, &project_root.join(&path))
}

pub open spec fn link_text(root: Parts) -> Seq<char> {
    "formatting external path "@ + path_text(root)
        + " must be a regular directory; symlink roots are not followed"@
}

fn link_message(root: &FilePath) -> (r: String)
    ensures
        r@ == link_text(root@),
{
    concat3(
        "formatting external path ",
        root.text().as_str(),
        " must be a regular directory; symlink roots are not followed",
    )
}

/// Why a configured path is not walked, if it is not.
pub open spec fn root_refusal(root: Parts, kind: RootKind) -> Option<Seq<char>> {
    match kind {
        RootKind::Unseen(error) => Some(
            "could not inspect formatting external path "@ + path_text(root) + ": "@ + error@,
        ),
        RootKind::Link => Some(link_text(root)),
        RootKind::Other => Some(
            "formatting external path "@ + path_text(root) + " is not a directory"@,
        ),
        RootKind::Directory => None,
    }
}

/// Refuses a configured path that cannot be walked.
pub fn inspect_root(root: &FilePath, kind: &RootKind) -> (r: Result<(), String>)
    ensures
        match r {
            Ok(_) => root_refusal(root@, *kind) is None,
            Err(text) => root_refusal(root@, *kind) == Some(text@),
        },
{
    match kind {
        RootKind::Unseen(error) => {
            let head = concat3(
                "could not inspect formatting external path ",
                root.text().as_str(),
                ": ",
            );
            Err(concat(head.as_str(), error.as_str()))
        },
        RootKind::Link => Err(link_message(root)),
        RootKind::Other => Err(
            concat3("formatting external path ", root.text().as_str(), " is not a directory"),
        ),
        RootKind::Directory => Ok(()),
    }
}

/// The units found so far, and what was looked at to find them.
#[derive(Debug)]
pub struct ExternalScan {
    pub visited: usize,
    pub files: usize,
    pub bytes: usize,
    pub units: StrSet,
}

/// The units found so far, and what was looked at to find them.
#[verifier::ext_equal]
pub struct ScanView {
    pub visited: int,
    pub files: int,
    pub bytes: int,
    pub units: Set<Seq<char>>,
}

impl View for ExternalScan {
    type V = ScanView;

    open spec fn view(&self) -> ScanView {
        ScanView {
            visited: self.visited as int,
            files: self.files as int,
            bytes: self.bytes as int,
            units: self.units@,
        }
    }
}

/// The scan before its first step.
pub open spec fn fresh_scan() -> ScanView {
    ScanView { visited: 0, files: 0, bytes: 0, units: Set::empty() }
}

/// What an entry of the walk comes to: the scan that goes on, and whether the entry is a
/// unit that is to be measured; or why the scan ends.
pub open spec fn visited_entry(scan: ScanView, root: Parts, entry: WalkEntry) -> Result<
    (ScanView, bool),
    Seq<char>,
> {
    match entry {
        WalkEntry::Failed(error) => Err(
            "could not scan formatting external path "@ + path_text(root) + ": "@ + error@,
        ),
        WalkEntry::Entry { path, top, kind } => {
            let after = ScanView { visited: capped(scan.visited + 1), ..scan };
            if after.visited > MAX_FORMAT_EXTERNAL_TRAVERSAL_ENTRIES {
                Err(
                    "formatting external-unit traversal entry limit ("@ + decimal(
                        MAX_FORMAT_EXTERNAL_TRAVERSAL_ENTRIES as nat,
                    ) + ") reached under "@ + path_text(root),
                )
            } else if top && kind == EntryKind::Link {
                Err(link_text(root))
            } else {
                Ok((after, kind == EntryKind::File && has_extension(path@, "pas"@)))
            }
        },
    }
}

/// What a measured unit comes to.
pub open spec fn measured_unit(
    scan: ScanView,
    root: Parts,
    path: Parts,
    measured: Measured,
    limits: ResourceLimits,
) -> Result<ScanView, Seq<char>> {
    match measured {
        Measured::Unseen(error) => Err(
            "could not inspect formatting external unit "@ + path_text(path) + ": "@ + error@,
        ),
        Measured::Replaced => Err(
            "formatting external unit "@ + path_text(path)
                + " was replaced by a non-regular file"@,
        ),
        Measured::Bytes(bytes) => if bytes > usize::MAX {
            Err(
                "formatting external unit "@ + path_text(path)
                    + " exceeds the supported size range"@,
            )
        } else if bytes > limits.max_file_bytes {
            Err(
                "formatting external unit "@ + path_text(path)
                    + " exceeds the configured per-file limit of "@ + decimal(
                    limits.max_file_bytes as nat,
                ) + " bytes"@,
            )
        } else if capped(scan.files + 1) > limits.max_files {
            Err(
                "formatting external-unit file limit ("@ + decimal(limits.max_files as nat)
                    + ") reached under "@ + path_text(root),
            )
        } else if capped(scan.bytes + bytes) > limits.max_total_bytes {
            Err(
                "formatting external-unit byte limit ("@ + decimal(limits.max_total_bytes as nat)
                    + ") reached under "@ + path_text(root),
            )
        } else {
            Ok(
                ScanView {
                    visited: scan.visited,
                    files: capped(scan.files + 1),
                    bytes: capped(scan.bytes + bytes),
                    units: with_stem(scan.units, path),
                },
            )
        },
    }
}

fn limit_message(head: &str, limit: usize, root: &FilePath) -> (r: String)
    ensures
        r@ == head@ + decimal(limit as nat) + ") reached under "@ + path_text(root@),
{
    let start = concat3(head, to_decimal(limit).as_str(), ") reached under ");
    concat(start.as_str(), root.text().as_str())
}

fn unit_message(path: &FilePath, end: &str) -> (r: String)
    ensures
        r@ == "formatting external unit "@ + path_text(path@) + end@,
{
    concat3("formatting external unit ", path.text().as_str(), end)
}

impl ExternalScan {
    /// The scan before its first step.
    pub fn new() -> (r: Self)
        ensures
            r@ == fresh_scan(),
    {
        let r = ExternalScan { visited: 0, files: 0, bytes: 0, units: StrSet::new() };
        proof {
            assert(r@ =~= fresh_scan());
        }
        r
    }

    /// Takes an entry of the walk. Returns whether it is a unit that is to be measured.
    pub fn visit(&mut self, root: &FilePath, entry: &WalkEntry) -> (r: Result<bool, String>)
        ensures
            match r {
                Ok(unit) => visited_entry(old(self)@, root@, *entry) == Ok::<_, Seq<char>>(
                    (final(self)@, unit),
                ),
                Err(text) => visited_entry(old(self)@, root@, *entry) == Err::<(ScanView, bool), _>(
                    text@,
                ),
            },
    {
        match entry {
            WalkEntry::Failed(error) => {
                let head = concat3(
                    "could not scan formatting external path ",
                    root.text().as_str(),
                    ": ",
                );
                Err(concat(head.as_str(), error.as_str()))
            },
            WalkEntry::Entry { path, top, kind } => {
                self.visited = self.visited.saturating_add(1);
                if self.visited > MAX_FORMAT_EXTERNAL_TRAVERSAL_ENTRIES {
                    return Err(
                        limit_message(
                            "formatting external-unit traversal entry limit (",
                            MAX_FORMAT_EXTERNAL_TRAVERSAL_ENTRIES,
                            root,
                        ),
                    );
                }
                if *top && *kind == EntryKind::Link {
                    return Err(link_message(root));
                }
                Ok(*kind == EntryKind::File && extension_is(path, "pas"))
            },
        }
    }

    /// Takes the measure of a unit.
    pub fn measure(
        &mut self,
        root: &FilePath,
        path: &FilePath,
        measured: &Measured,
        limits: &ResourceLimits,
    ) -> (r: Result<(), String>)
        ensures
            match r {
                Ok(_) => measured_unit(old(self)@, root@, path@, *measured, *limits) == Ok::<
                    _,
                    Seq<char>,
                >(final(self)@),
                Err(text) => measured_unit(old(self)@, root@, path@, *measured, *limits) == Err::<
                    ScanView,
                    _,
                >(text@),
            },
    {
        let bytes: usize = match measured {
            Measured::Unseen(error) => {
                let head = concat3(
                    "could not inspect formatting external unit ",
                    path.text().as_str(),
                    ": ",
                );
                return Err(concat(head.as_str(), error.as_str()));
            },
            Measured::Replaced => {
                return Err(unit_message(path, " was replaced by a non-regular file"));
            },
            Measured::Bytes(bytes) => {
                if *bytes > usize::MAX as u64 {
                    return Err(unit_message(path, " exceeds the supported size range"));
                }
                *bytes as usize
            },
        };
        if bytes > limits.max_file_bytes {
            let head = unit_message(path, " exceeds the configured per-file limit of ");
            return Err(
                concat3(head.as_str(), to_decimal(limits.max_file_bytes).as_str(), " bytes"),
            );
        }
        self.files = self.files.saturating_add(1);
        if self.files > limits.max_files {
            return Err(
                limit_message("formatting external-unit file limit (", limits.max_files, root),
            );
        }
        self.bytes = self.bytes.saturating_add(bytes);
        if self.bytes > limits.max_total_bytes {
            return Err(
                limit_message(
                    "formatting external-unit byte limit (",
                    limits.max_total_bytes,
                    root,
                ),
            );
        }
        add_stem(&mut self.units, path);
        Ok(())
    }
}

/// An entry of a walk and, where it is a unit, what it measured.
#[derive(Debug)]
pub struct WalkStep {
    pub entry: WalkEntry,
    pub measured: Measured,
}

/// A configured path, what is there, and what a walk through it meets.
#[derive(Debug)]
pub struct ExternalListing {
    pub configured: String,
    pub kind: RootKind,
    pub steps: Vec<WalkStep>,
}

/// The scan after one step of a walk.
pub open spec fn stepped(scan: ScanView, root: Parts, step: WalkStep, limits: ResourceLimits) -> Result<
    ScanView,
    Seq<char>,
> {
    match visited_entry(scan, root, step.entry) {
        Err(error) => Err(error),
        Ok((after, unit)) => if unit {
            measured_unit(after, root, step.entry->path@, step.measured, limits)
        } else {
            Ok(after)
        },
    }
}

/// The scan after the first `n` steps of a walk.
pub open spec fn walked(
    scan: ScanView,
    root: Parts,
    steps: Seq<WalkStep>,
    limits: ResourceLimits,
    n: int,
) -> Result<ScanView, Seq<char>>
    decreases n,
{
    if n <= 0 {
        Ok(scan)
    } else {
        match walked(scan, root, steps, limits, n - 1) {
            Ok(before) => stepped(before, root, steps[n - 1], limits),
            Err(error) => Err(error),
        }
    }
}

/// The scan after one configured path.
pub open spec fn listed(
    scan: ScanView,
    cwd: Parts,
    project_root: Parts,
    listing: ExternalListing,
    limits: ResourceLimits,
) -> Result<ScanView, Seq<char>> {
    let root = external_root_parts(cwd, project_root, listing.configured@);
    match root_refusal(root, listing.kind) {
        Some(error) => Err(error),
        None => walked(scan, root, listing.steps@, limits, listing.steps@.len() as int),
    }
}

/// The scan after the first `n` configured paths.
pub open spec fn scanned(
    cwd: Parts,
    project_root: Parts,
    listings: Seq<ExternalListing>,
    limits: ResourceLimits,
    n: int,
) -> Result<ScanView, Seq<char>>
    decreases n,
{
    if n <= 0 {
        Ok(fresh_scan())
    } else {
        match scanned(cwd, project_root, listings, limits, n - 1) {
            Ok(before) => listed(before, cwd, project_root, listings[n - 1], limits),
            Err(error) => Err(error),
        }
    }
}

/// Once a scan has ended it stays so.
proof fn lemma_walk_ends(
    scan: ScanView,
    root: Parts,
    steps: Seq<WalkStep>,
    limits: ResourceLimits,
    n: int,
    m: int,
)
    requires
        n <= m,
        walked(scan, root, steps, limits, n) is Err,
    ensures
        walked(scan, root, steps, limits, m) == walked(scan, root, steps, limits, n),
    decreases m - n,
{
    if n < m {
        lemma_walk_ends(scan, root, steps, limits, n, m - 1);
    }
}

proof fn lemma_scan_ends(
    cwd: Parts,
    project_root: Parts,
    listings: Seq<ExternalListing>,
    limits: ResourceLimits,
    n: int,
    m: int,
)
    requires
        n <= m,
        scanned(cwd, project_root, listings, limits, n) is Err,
    ensures
        scanned(cwd, project_root, listings, limits, m) == scanned(
            cwd,
            project_root,
            listings,
            limits,
            n,
        ),
    decreases m - n,
{
    if n < m {
        lemma_scan_ends(cwd, project_root, listings, limits, n, m - 1);
    }
}

/// Why a scan gave no units.
#[derive(Debug)]
pub enum ScanFailure {
    Interrupted(Interrupt),
    Refused(String),
}

fn walk(
    scan: &mut ExternalScan,
    root: &FilePath,
    steps: &Vec<WalkStep>,
    limits: &ResourceLimits,
    cancel: Option<&AtomicBool>,
) -> (r: Result<(), ScanFailure>)
    ensures
        cancel is None ==> !(r matches Err(ScanFailure::Interrupted(_))),
        match r {
            Ok(_) => walked(old(scan)@, root@, steps@, *limits, steps@.len() as int) == Ok::<
                _,
                Seq<char>,
            >(final(scan)@),
            Err(ScanFailure::Refused(text)) => walked(
                old(scan)@,
                root@,
                steps@,
                *limits,
                steps@.len() as int,
            ) == Err::<ScanView, _>(text@),
            Err(ScanFailure::Interrupted(_)) => true,
        },
{
    let ghost start = scan@;
    let mut i: usize = 0;
    while i < steps.len()
        invariant
            i <= steps@.len(),
            start == old(scan)@,
            walked(start, root@, steps@, *limits, i as int) == Ok::<_, Seq<char>>(scan@),
        decreases steps@.len() - i,
    {
        if let Err(interrupt) = check_workspace_cancel(cancel) {
            return Err(ScanFailure::Interrupted(interrupt));
        }
        let step = &steps[i];
        let ghost before = scan@;
        match scan.visit(root, &step.entry) {
            Err(text) => {
                proof {
                    assert(walked(start, root@, steps@, *limits, i + 1) == stepped(
                        before,
                        root@,
                        *step,
                        *limits,
                    ));
                    lemma_walk_ends(start, root@, steps@, *limits, i + 1, steps@.len() as int);
                }
                return Err(ScanFailure::Refused(text));
            },
            Ok(unit) => {
                if unit {
                    if let WalkEntry::Entry { path, top: _, kind: _ } = &step.entry {
                        if let Err(text) = scan.measure(root, path, &step.measured, limits) {
                            proof {
                                assert(walked(start, root@, steps@, *limits, i + 1) == stepped(
                                    before,
                                    root@,
                                    *step,
                                    *limits,
                                ));
                                lemma_walk_ends(
                                    start,
                                    root@,
                                    steps@,
                                    *limits,
                                    i + 1,
                                    steps@.len() as int,
                                );
                            }
                            return Err(ScanFailure::Refused(text));
                        }
                    }
                }
            },
        }
        proof {
            assert(walked(start, root@, steps@, *limits, i + 1) == stepped(
                before,
                root@,
                *step,
                *limits,
            ));
        }
        i += 1;
    }
    Ok(())
}

/// The units under the configured paths, unless a path, a unit or the limits forbid it.
pub fn scan_external_units_with_cancel(
    cwd: &FilePath,
    project_root: &FilePath,
    listings: &Vec<ExternalListing>,
    limits: &ResourceLimits,
    cancel: Option<&AtomicBool>,
) -> (r: Result<StrSet, ScanFailure>)
    ensures
        cancel is None ==> !(r matches Err(ScanFailure::Interrupted(_))),
        ({
            let outcome = scanned(
                cwd@,
                project_root@,
                listings@,
                *limits,
                listings@.len() as int,
            );
            match r {
                Ok(units) => outcome is Ok && outcome->Ok_0.units == units@,
                Err(ScanFailure::Refused(text)) => outcome == Err::<ScanView, _>(text@),
                Err(ScanFailure::Interrupted(_)) => true,
            }
        }),
{
    let mut scan = ExternalScan::new();
    let mut i: usize = 0;
    while i < listings.len()
        invariant
            i <= listings@.len(),
            scanned(cwd@, project_root@, listings@, *limits, i as int) == Ok::<_, Seq<char>>(scan@),
        decreases listings@.len() - i,
    {
        if let Err(interrupt) = check_workspace_cancel(cancel) {
            return Err(ScanFailure::Interrupted(interrupt));
        }
        let listing = &listings[i];
        let root = external_root(cwd, project_root, listing.configured.as_str());
        let ghost before = scan@;
        proof {
            assert(scanned(cwd@, project_root@, listings@, *limits, i + 1) == listed(
                before,
                cwd@,
                project_root@,
                *listing,
                *limits,
            ));
        }
        if let Err(text) = inspect_root(&root, &listing.kind) {
            proof {
                lemma_scan_ends(
                    cwd@,
                    project_root@,
                    listings@,
                    *limits,
                    i + 1,
                    listings@.len() as int,
                );
            }
            return Err(ScanFailure::Refused(text));
        }
        match walk(&mut scan, &root, &listing.steps, limits, cancel) {
            Ok(_) => {},
            Err(ScanFailure::Refused(text)) => {
                proof {
                    lemma_scan_ends(
                        cwd@,
                        project_root@,
                        listings@,
                        *limits,
                        i + 1,
                        listings@.len() as int,
                    );
                }
                return Err(ScanFailure::Refused(text));
            },
            Err(ScanFailure::Interrupted(interrupt)) => {
                return Err(ScanFailure::Interrupted(interrupt));
            },
        }
        i += 1;
    }
    Ok(scan.units)
}

/// The units under the configured paths, unless a path, a unit or the limits forbid it.
pub fn scan_external_units(
    cwd: &FilePath,
    project_root: &FilePath,
    listings: &Vec<ExternalListing>,
    limits: &ResourceLimits,
) -> (r: Result<StrSet, String>)
    ensures
        ({
            let outcome = scanned(
                cwd@,
                project_root@,
                listings@,
                *limits,
                listings@.len() as int,
            );
            match r {
                Ok(units) => outcome is Ok && outcome->Ok_0.units == units@,
                Err(text) => outcome == Err::<ScanView, _>(text@),
            }
        }),
{
    match scan_external_units_with_cancel(cwd, project_root, listings, limits, None) {
        Ok(units) => Ok(units),
        Err(ScanFailure::Refused(text)) => Err(text),
        Err(ScanFailure::Interrupted(interrupt)) => Err(interrupt.message()),
    }
}

/// The names with those of the first `n` explicit units.
pub open spec fn with_unit_stems(
    names: Set<Seq<char>>,
    units: Seq<(String, FilePath)>,
    n: int,
) -> Set<Seq<char>>
    decreases n,
{
    if n <= 0 {
        names
    } else {
        with_stem(with_unit_stems(names, units, n - 1), units[n - 1].1@)
    }
}

/// The units of the project itself: the source at hand, the main source, and those that
/// the project names.
pub open spec fn own_stems(context: ProjectContext, path: Parts) -> Set<Seq<char>> {
    let current = with_stem(Set::empty(), path);
    let main = match context.main_source {
        Some(main) => with_stem(current, main@),
        None => current,
    };
    with_unit_stems(main, context.explicit_units@, context.explicit_units@.len() as int)
}

/// The units of the project itself.
pub fn project_unit_stems(context: &ProjectContext, path: &FilePath) -> (r: StrSet)
    ensures
        r@ == own_stems(*context, path@),
{
    let mut names = StrSet::new();
    add_stem(&mut names, path);
    if let Some(main) = &context.main_source {
        add_stem(&mut names, main);
    }
    let ghost start = names@;
    let mut i: usize = 0;
    while i < context.explicit_units.len()
        invariant
            i <= context.explicit_units@.len(),
            names@ == with_unit_stems(start, context.explicit_units@, i as int),
        decreases context.explicit_units@.len() - i,
    {
        add_stem(&mut names, &context.explicit_units[i].1);
        i += 1;
    }
    names
}

/// The external units that are not also units of the project.
pub fn without_own_units(units: StrSet, context: &ProjectContext, path: &FilePath) -> (r: StrSet)
    ensures
        r@ == units@.difference(own_stems(*context, path@)),
{
    let own = project_unit_stems(context, path);
    let ghost start = units@;
    let mut left = units;
    let n: usize = own.len();
    let ghost members = own.members();
    let mut i: usize = 0;
    proof {
        assert(left@ =~= start.difference(members.take(0).to_set()));
    }
    while i < n
        invariant
            i <= n,
            n == members.len(),
            members == own.members(),
            left@ == start.difference(members.take(i as int).to_set()),
        decreases n - i,
    {
        let _removed = left.remove(own.at(i).as_str());
        proof {
            crate::strmap::lemma_take_set(members, i as int);
            assert(left@ =~= start.difference(members.take(i + 1).to_set()));
        }
        i += 1;
    }
    proof {
        assert(members.take(n as int) =~= members);
    }
    left
}

} // verus!
