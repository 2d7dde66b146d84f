//! What has changed since when.
//!
//! Every change to the sources or to the configuration starts a new generation. A result
//! that was computed from an earlier generation is stale where something that it was read
//! from changed in a later one.

use vstd::prelude::*;

use crate::budget::Work;
use crate::cancel::Interrupt;
use crate::keymap::KeyMap;
use crate::paths::{parent_of, FilePath, Parts};
use crate::strmap::StrMap;
use crate::uris::{canonical, canonical_file_uri, file_path_of, path_uri, uri_of_path, uri_path};

verus! {

pub const MAX_SOURCE_CHANGE_OBSERVATIONS: usize = 4_096;

/// The generations of a workspace, and the last one in which each thing changed.
#[derive(Debug)]
pub struct Generations {
    pub source: u64,
    pub configuration: u64,
    pub source_changes: StrMap<u64>,
    pub observations: KeyMap<FilePath, u64>,
    pub configuration_changes: StrMap<u64>,
    pub global_source: u64,
    pub global_configuration: u64,
}

/// What the generations stand for.
#[verifier::ext_equal]
pub struct GenerationsView {
    pub source: u64,
    pub configuration: u64,
    pub source_changes: Map<Seq<char>, u64>,
    pub observations: Map<Parts, u64>,
    pub configuration_changes: Map<Seq<char>, u64>,
    pub global_source: u64,
    pub global_configuration: u64,
}

impl View for Generations {
    type V = GenerationsView;

    open spec fn view(&self) -> GenerationsView {
        GenerationsView {
            source: self.source,
            configuration: self.configuration,
            source_changes: self.source_changes@,
            observations: self.observations@,
            configuration_changes: self.configuration_changes@,
            global_source: self.global_source,
            global_configuration: self.global_configuration,
        }
    }
}

/// The generation after one.
pub open spec fn next_generation(generation: u64) -> u64 {
    if generation == u64::MAX {
        0
    } else {
        (generation + 1) as u64
    }
}

/// The larger of two generations.
pub open spec fn later_generation(a: u64, b: u64) -> u64 {
    if a < b {
        b
    } else {
        a
    }
}

/// The directory of the file that a URI names, as a URI.
pub open spec fn parent_uri(uri: Seq<char>) -> Option<Seq<char>> {
    match uri_path(uri) {
        None => None,
        Some(path) => match parent_of(path) {
            None => None,
            Some(parent) => match path_uri(parent) {
                None => None,
                Some(directory) => Some(canonical(directory)),
            },
        },
    }
}

/// The changes after one to a file, and to its directory where that counts too.
pub open spec fn marked(
    changes: Map<Seq<char>, u64>,
    uri: Seq<char>,
    generation: u64,
    include_parent: bool,
) -> Map<Seq<char>, u64> {
    let own = changes.insert(canonical(uri), generation);
    match parent_uri(canonical(uri)) {
        Some(directory) => if include_parent {
            own.insert(directory, generation)
        } else {
            own
        },
        None => own,
    }
}

/// Notes a change to a file, and to its directory where that counts too.
pub fn mark_dependency_change(
    changes: &mut StrMap<u64>,
    uri: &str,
    generation: u64,
    include_parent: bool,
)
    ensures
        final(changes)@ == marked(old(changes)@, uri@, generation, include_parent),
{
    let uri = canonical_file_uri(uri);
    let _before = changes.insert(uri.clone(), generation);
    if !include_parent {
        return ;
    }
    if let Some(path) = file_path_of(uri.as_str()) {
        if let Some(parent) = path.parent() {
            if let Some(directory) = uri_of_path(&parent) {
                let directory = canonical_file_uri(directory.as_str());
                let _before = changes.insert(directory, generation);
            }
        }
    }
}

/// The observations and the global watermark after a change to a path. A change for which
/// there is no room moves the watermark in place of all that were kept.
pub open spec fn observed(before: GenerationsView, path: Parts) -> GenerationsView {
    if before.observations.contains_key(path) || before.observations.dom().len()
        < MAX_SOURCE_CHANGE_OBSERVATIONS {
        GenerationsView {
            observations: before.observations.insert(path, before.source),
            ..before
        }
    } else {
        GenerationsView {
            observations: Map::empty().insert(path, before.source),
            global_source: later_generation(before.global_source, before.source),
            ..before
        }
    }
}

/// The generations after a change to the source of a URI.
pub open spec fn source_marked(before: GenerationsView, uri: Seq<char>) -> GenerationsView {
    let marked_before = GenerationsView {
        source_changes: marked(before.source_changes, uri, before.source, false),
        ..before
    };
    match uri_path(uri) {
        Some(path) => observed(marked_before, path),
        None => marked_before,
    }
}

/// Noting a change to the source of a URI was stopped before its path was observed. The
/// observations may have been given up for want of room, and then count for every path.
pub open spec fn partly_marked(
    before: GenerationsView,
    after: GenerationsView,
    uri: Seq<char>,
) -> bool {
    let noted = GenerationsView {
        source_changes: marked(before.source_changes, uri, before.source, false),
        ..before
    };
    ||| after == noted
    ||| after == (GenerationsView {
        observations: Map::empty(),
        global_source: if before.global_source < before.source {
            before.source
        } else {
            before.global_source
        },
        ..noted
    })
}

/// The path visits that noting a change to the source of a URI is charged.
pub open spec fn source_mark_visits(before: GenerationsView, uri: Seq<char>) -> nat {
    match uri_path(uri) {
        Some(path) => if before.observations.contains_key(path) {
            0
        } else if before.observations.dom().len() < MAX_SOURCE_CHANGE_OBSERVATIONS {
            1
        } else {
            before.observations.dom().len() + 1
        },
        None => 0,
    }
}

impl Generations {
    /// There are no more observations than may be kept.
    pub open spec fn wf(&self) -> bool {
        &&& self@.observations.dom().finite()
        &&& self@.observations.dom().len() <= MAX_SOURCE_CHANGE_OBSERVATIONS
    }

    /// The first generations, without changes.
    pub fn new() -> (r: Self)
        ensures
            r.wf(),
            r@ == (GenerationsView {
                source: 0,
                configuration: 0,
                source_changes: Map::empty(),
                observations: Map::empty(),
                configuration_changes: Map::empty(),
                global_source: 0,
                global_configuration: 0,
            }),
    {
        let r = Generations {
            source: 0,
            configuration: 0,
            source_changes: StrMap::new(),
            observations: KeyMap::new(),
            configuration_changes: StrMap::new(),
            global_source: 0,
            global_configuration: 0,
        };
        proof {
            assert(r@.observations.dom() =~= Set::<Parts>::empty());
        }
        r
    }

    /// Starts a new source generation.
    pub fn bump_source_generation(&mut self)
        ensures
            final(self)@ == (GenerationsView {
                source: next_generation(old(self)@.source),
                ..old(self)@
            }),
            old(self).wf() ==> final(self).wf(),
    {
        self.source = self.source.wrapping_add(1);
    }

    /// Starts a new configuration generation.
    pub fn bump_configuration_generation(&mut self)
        ensures
            final(self)@ == (GenerationsView {
                configuration: next_generation(old(self)@.configuration),
                ..old(self)@
            }),
            old(self).wf() ==> final(self).wf(),
    {
        self.configuration = self.configuration.wrapping_add(1);
    }

    /// Makes everything that was computed before the current generations stale.
    pub fn mark_global_change(&mut self)
        ensures
            final(self)@ == (GenerationsView {
                global_source: old(self)@.source,
                global_configuration: old(self)@.configuration,
                ..old(self)@
            }),
            old(self).wf() ==> final(self).wf(),
    {
        self.global_source = self.source;
        self.global_configuration = self.configuration;
    }

    /// Notes a change to a configuration file.
    pub fn mark_configuration_change(&mut self, uri: &str, include_parent: bool)
        ensures
            final(self)@ == (GenerationsView {
                configuration_changes: marked(
                    old(self)@.configuration_changes,
                    uri@,
                    old(self)@.configuration,
                    include_parent,
                ),
                ..old(self)@
            }),
            old(self).wf() ==> final(self).wf(),
    {
        mark_dependency_change(
            &mut self.configuration_changes,
            uri,
            self.configuration,
            include_parent,
        );
    }

    /// Notes a change to a source. Where the work is stopped, the change is noted for the
    /// file, but not among the observations.
    pub fn mark_source(&mut self, uri: &str, work: &mut Work) -> (r: Result<(), Interrupt>)
        requires
            old(self).wf(),
        ensures
            final(self).wf(),
            final(work).continues(old(work)),
            old(work).unbounded() ==> r is Ok,
            r matches Err(Interrupt::BudgetExceeded) ==> final(work).used_up(),
            r matches Err(Interrupt::BudgetExceeded) ==> !old(work).affords(
                source_mark_visits(old(self)@, uri@) as int,
                0,
            ),
            r is Ok ==> final(self)@ == source_marked(old(self)@, uri@),
            r is Ok ==> final(work).visited(
                old(work),
                source_mark_visits(old(self)@, uri@) as int,
            ),
            final(self)@.source_changes == marked(
                old(self)@.source_changes,
                uri@,
                old(self)@.source,
                false,
            ),
            final(self)@.source == old(self)@.source,
            final(self)@.configuration == old(self)@.configuration,
            final(self)@.configuration_changes == old(self)@.configuration_changes,
            final(self)@.global_configuration == old(self)@.global_configuration,
            r is Err ==> partly_marked(old(self)@, final(self)@, uri@),
    {
        mark_dependency_change(&mut self.source_changes, uri, self.source, false);
        if let Some(path) = file_path_of(uri) {
            if !self.observations.contains_key(&path) {
                if self.observations.len() >= MAX_SOURCE_CHANGE_OBSERVATIONS {
                    work.visit(self.observations.len())?;
                    work.check()?;
                    if self.global_source < self.source {
                        self.global_source = self.source;
                    }
                    self.observations = KeyMap::new();
                    proof {
                        assert(self@.observations.dom() =~= Set::<Parts>::empty());
                        assert(self@.observations =~= Map::<Parts, u64>::empty());
                    }
                }
                work.visit(1)?;
            }
            let ghost kept = self@.observations;
            let ghost p = path@;
            let _before = self.observations.insert(path, self.source);
            proof {
                assert(kept.insert(p, self.source).dom() =~= kept.dom().insert(p));
            }
        }
        Ok(())
    }

    /// Forgets every change of single files.
    pub fn clear_changes(&mut self)
        ensures
            final(self).wf(),
            final(self)@ == (GenerationsView {
                source_changes: Map::empty(),
                observations: Map::empty(),
                configuration_changes: Map::empty(),
                ..old(self)@
            }),
    {
        self.source_changes = StrMap::new();
        self.observations = KeyMap::new();
        self.configuration_changes = StrMap::new();
        proof {
            assert(self@.observations.dom() =~= Set::<Parts>::empty());
        }
    }
}

/// No change is forgotten for want of room: after one more change is noted, a path whose
/// change was kept is either still among the observations, no older than before, or its
/// change is no later than the watermark that makes everything before it stale.
pub proof fn law_no_change_is_forgotten(before: GenerationsView, uri: Seq<char>, path: Parts)
    requires
        before.observations.contains_key(path),
        before.observations[path] <= before.source,
    ensures
        ({
            let after = source_marked(before, uri);
            ||| after.observations.contains_key(path) && after.observations[path]
                >= before.observations[path]
            ||| after.global_source >= before.observations[path]
        }),
{
}

/// A change of a source is noted with the current generation, under the one URI of its
/// file, however the file was named.
pub proof fn law_a_change_is_noted(before: GenerationsView, uri: Seq<char>)
    ensures
        source_marked(before, uri).source_changes.contains_key(canonical(uri)),
        source_marked(before, uri).source_changes[canonical(uri)] == before.source,
        uri_path(uri) is Some ==> source_marked(before, uri).observations.contains_key(
            uri_path(uri)->0,
        ) && source_marked(before, uri).observations[uri_path(uri)->0] == before.source,
{
}

} // verus!
