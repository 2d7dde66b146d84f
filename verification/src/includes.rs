//! The include files of sources, and the sources that have to be read again when one of
//! them changes.

use vstd::prelude::*;

use crate::budget::{sort_work, sort_work_estimate, Work};
use crate::cancel::Interrupt;
use crate::keymap::Identity;
use crate::paths::{path_text, FilePath, Parts};
use crate::project::{ContextKey, EntryView, KeyView, PathEntry, PathStamp};
use crate::sorting::{drop_repeats, sort, sorted_list, views, without_repeats, Ordered};
use crate::strings::{lemma_str_lt_order, str_before, str_lt};
use crate::strmap::{
    deep_of, in_order, lemma_deep_insert, lemma_deep_remove, lemma_finite_set_has_order, StrMap, StrSet,
};
use crate::sums::{lemma_sum_bounds, lemma_sum_insert, lemma_sum_restrict, map_sum};

verus! {

/// What was seen at a place where an include file was looked for.
#[derive(Debug)]
pub struct IncludeObservation {
    pub path: FilePath,
    pub stamp: Option<PathStamp>,
    pub present: bool,
    pub overlay_version: Option<i32>,
}

/// What was seen at a place where an include file was looked for.
pub struct ObservationView {
    pub path: Parts,
    pub stamp: Option<PathStamp>,
    pub present: bool,
    pub overlay_version: Option<i32>,
}

impl View for IncludeObservation {
    type V = ObservationView;

    open spec fn view(&self) -> ObservationView {
        ObservationView {
            path: self.path@,
            stamp: self.stamp,
            present: self.present,
            overlay_version: self.overlay_version,
        }
    }
}

impl Identity for IncludeObservation {
    fn same_as(&self, other: &Self) -> (r: bool) {
        self.path.same(&other.path) && self.stamp == other.stamp && self.present == other.present
            && self.overlay_version == other.overlay_version
    }

    fn duplicate(&self) -> (r: Self) {
        IncludeObservation {
            path: self.path.copy(),
            stamp: self.stamp,
            present: self.present,
            overlay_version: self.overlay_version,
        }
    }
}

/// A missing version comes before every version.
pub open spec fn version_rank(version: Option<i32>) -> int {
    match version {
        None => -0x1_0000_0000,
        Some(version) => version as int,
    }
}

pub open spec fn presence_rank(present: bool) -> int {
    if present {
        1
    } else {
        0
    }
}

fn version_before(a: Option<i32>, b: Option<i32>) -> (r: bool)
    ensures
        r == (version_rank(a) < version_rank(b)),
{
    match (a, b) {
        (None, Some(_)) => true,
        (Some(a), Some(b)) => a < b,
        _ => false,
    }
}

impl Ordered for IncludeObservation {
    /// By the text of the path, then absent ones first, then by version.
    open spec fn precedes(a: ObservationView, b: ObservationView) -> bool {
        if path_text(a.path) != path_text(b.path) {
            str_lt(path_text(a.path), path_text(b.path))
        } else if a.present != b.present {
            presence_rank(a.present) < presence_rank(b.present)
        } else {
            version_rank(a.overlay_version) < version_rank(b.overlay_version)
        }
    }

    proof fn lemma_order(a: ObservationView, b: ObservationView, c: ObservationView) {
        lemma_str_lt_order(path_text(a.path), path_text(b.path), path_text(c.path));
        lemma_str_lt_order(path_text(b.path), path_text(c.path), path_text(a.path));
        lemma_str_lt_order(path_text(a.path), path_text(c.path), path_text(b.path));
        lemma_str_lt_order(path_text(c.path), path_text(b.path), path_text(a.path));
    }

    fn is_before(&self, other: &Self) -> (r: bool) {
        let here = self.path.text();
        let there = other.path.text();
        if !crate::strings::same_str(here.as_str(), there.as_str()) {
            str_before(here.as_str(), there.as_str())
        } else if self.present != other.present {
            other.present
        } else {
            version_before(self.overlay_version, other.overlay_version)
        }
    }
}

/// An include file that was found: its text, where it was looked for, and why it may be
/// read.
#[derive(Debug)]
pub struct IncludeDependency {
    pub uri: String,
    pub text: String,
    pub observations: Vec<IncludeObservation>,
    pub path_entry: Option<PathEntry>,
}

/// What a source becomes once its include files are put in.
#[derive(Debug)]
pub struct Expansion {
    pub text: String,
    pub dependencies: Vec<IncludeDependency>,
    pub complete: bool,
}

/// What is kept of an expanded source.
#[derive(Debug)]
pub struct ExpansionRecord {
    pub physical_source: String,
    pub context_key: ContextKey,
    pub expanded: String,
    pub source_texts: StrMap<String>,
    pub dependency_entries: StrMap<PathEntry>,
    pub include_observations: Vec<IncludeObservation>,
    pub dependencies: StrSet,
    pub complete: bool,
}

/// What is kept of an expanded source.
#[verifier::ext_equal]
pub struct RecordView {
    pub physical_source: Seq<char>,
    pub context_key: KeyView,
    pub expanded: Seq<char>,
    pub source_texts: Map<Seq<char>, Seq<char>>,
    pub dependency_entries: Map<Seq<char>, EntryView>,
    pub include_observations: Seq<ObservationView>,
    pub dependencies: Set<Seq<char>>,
    pub complete: bool,
}

impl View for ExpansionRecord {
    type V = RecordView;

    open spec fn view(&self) -> RecordView {
        RecordView {
            physical_source: self.physical_source@,
            context_key: self.context_key@,
            expanded: self.expanded@,
            source_texts: self.source_texts.deep(),
            dependency_entries: self.dependency_entries.deep(),
            include_observations: views(self.include_observations@),
            dependencies: self.dependencies@,
            complete: self.complete,
        }
    }
}

/// Who includes whom: `parents[d]` holds `p` where `p` includes `d`.
pub open spec fn edge(
    parents: Map<Seq<char>, Set<Seq<char>>>,
    included: Seq<char>,
    parent: Seq<char>,
) -> bool {
    parents.contains_key(included) && parents[included].contains(parent)
}

/// The parents with one more.
pub open spec fn with_edge(
    parents: Map<Seq<char>, Set<Seq<char>>>,
    included: Seq<char>,
    parent: Seq<char>,
) -> Map<Seq<char>, Set<Seq<char>>> {
    if parents.contains_key(included) {
        parents.insert(included, parents[included].insert(parent))
    } else {
        parents.insert(included, Set::empty().insert(parent))
    }
}

/// The parents without one. A file that nothing includes any more has no entry.
pub open spec fn without_edge(
    parents: Map<Seq<char>, Set<Seq<char>>>,
    included: Seq<char>,
    parent: Seq<char>,
) -> Map<Seq<char>, Set<Seq<char>>> {
    if !parents.contains_key(included) {
        parents
    } else if parents[included].remove(parent).len() == 0 {
        parents.remove(included)
    } else {
        parents.insert(included, parents[included].remove(parent))
    }
}

/// The parents with one more for each of the first `n` files.
pub open spec fn with_edges(
    parents: Map<Seq<char>, Set<Seq<char>>>,
    included: Seq<Seq<char>>,
    parent: Seq<char>,
    n: int,
) -> Map<Seq<char>, Set<Seq<char>>>
    decreases n,
{
    if n <= 0 {
        parents
    } else {
        with_edge(with_edges(parents, included, parent, n - 1), included[n - 1], parent)
    }
}

/// The parents without one for each of the first `n` files.
pub open spec fn without_edges(
    parents: Map<Seq<char>, Set<Seq<char>>>,
    included: Seq<Seq<char>>,
    parent: Seq<char>,
    n: int,
) -> Map<Seq<char>, Set<Seq<char>>>
    decreases n,
{
    if n <= 0 {
        parents
    } else {
        without_edge(without_edges(parents, included, parent, n - 1), included[n - 1], parent)
    }
}

/// Every set of parents is finite and holds something.
pub open spec fn proper(parents: Map<Seq<char>, Set<Seq<char>>>) -> bool {
    forall|d: Seq<char>| #[trigger]
        parents.contains_key(d) ==> parents[d].finite() && parents[d].len() > 0
}

proof fn lemma_with_edges(
    parents: Map<Seq<char>, Set<Seq<char>>>,
    included: Seq<Seq<char>>,
    parent: Seq<char>,
    n: int,
)
    requires
        0 <= n <= included.len(),
        proper(parents),
    ensures
        proper(with_edges(parents, included, parent, n)),
        forall|d: Seq<char>, p: Seq<char>| #[trigger]
            edge(with_edges(parents, included, parent, n), d, p) <==> edge(parents, d, p) || (p
                == parent && included.take(n).contains(d)),
    decreases n,
{
    if n > 0 {
        lemma_with_edges(parents, included, parent, n - 1);
        let before = with_edges(parents, included, parent, n - 1);
        let after = with_edges(parents, included, parent, n);
        let fore = included.take(n - 1);
        let whole = included.take(n);
        assert(whole =~= fore.push(included[n - 1]));
        assert forall|d: Seq<char>| #[trigger] after.contains_key(d) implies after[d].finite()
            && after[d].len() > 0 by {
            if d == included[n - 1] {
                assert(after[d].contains(parent));
                if before.contains_key(d) {
                    assert(before[d].finite());
                }
                assert(after[d].finite());
                vstd::set_lib::axiom_is_empty_len0(after[d]);
            } else {
                assert(before.contains_key(d));
            }
        }
        assert forall|d: Seq<char>, p: Seq<char>| #[trigger] edge(after, d, p) <==> edge(
            parents,
            d,
            p,
        ) || (p == parent && whole.contains(d)) by {
            assert(edge(before, d, p) <==> edge(parents, d, p) || (p == parent && fore.contains(
                d,
            )));
            if whole.contains(d) {
                let i = choose|i: int| 0 <= i < whole.len() && whole[i] == d;
                if i < n - 1 {
                    assert(fore[i] == d);
                }
            }
            if fore.contains(d) {
                let i = choose|i: int| 0 <= i < fore.len() && fore[i] == d;
                assert(whole[i] == d);
            }
            assert(whole[n - 1] == included[n - 1]);
        }
    } else {
        assert(included.take(0) =~= Seq::<Seq<char>>::empty());
    }
}

proof fn lemma_without_edges(
    parents: Map<Seq<char>, Set<Seq<char>>>,
    included: Seq<Seq<char>>,
    parent: Seq<char>,
    n: int,
)
    requires
        0 <= n <= included.len(),
        proper(parents),
    ensures
        proper(without_edges(parents, included, parent, n)),
        forall|d: Seq<char>, p: Seq<char>| #[trigger]
            edge(without_edges(parents, included, parent, n), d, p) <==> edge(parents, d, p) && !(p
                == parent && included.take(n).contains(d)),
    decreases n,
{
    if n > 0 {
        lemma_without_edges(parents, included, parent, n - 1);
        let before = without_edges(parents, included, parent, n - 1);
        let after = without_edges(parents, included, parent, n);
        let fore = included.take(n - 1);
        let whole = included.take(n);
        assert(whole =~= fore.push(included[n - 1]));
        assert forall|d: Seq<char>| #[trigger] after.contains_key(d) implies after[d].finite()
            && after[d].len() > 0 by {
            assert(before.contains_key(d));
        }
        assert forall|d: Seq<char>, p: Seq<char>| #[trigger] edge(after, d, p) <==> edge(
            parents,
            d,
            p,
        ) && !(p == parent && whole.contains(d)) by {
            assert(edge(before, d, p) <==> edge(parents, d, p) && !(p == parent && fore.contains(
                d,
            )));
            if whole.contains(d) {
                let i = choose|i: int| 0 <= i < whole.len() && whole[i] == d;
                if i < n - 1 {
                    assert(fore[i] == d);
                }
            }
            if fore.contains(d) {
                let i = choose|i: int| 0 <= i < fore.len() && fore[i] == d;
                assert(whole[i] == d);
            }
            assert(whole[n - 1] == included[n - 1]);
            let last = included[n - 1];
            if d == last && before.contains_key(d) {
                assert(before[d].finite());
                let rest = before[d].remove(parent);
                if rest.len() == 0 {
                    assert(rest =~= Set::<Seq<char>>::empty());
                    if p != parent && before[d].contains(p) {
                        assert(rest.contains(p));
                    }
                }
            }
        }
    } else {
        assert(included.take(0) =~= Seq::<Seq<char>>::empty());
    }
}

/// Who includes whom, both ways round.
#[verifier::ext_equal]
pub struct GraphView {
    pub uses: Map<Seq<char>, Set<Seq<char>>>,
    pub parents: Map<Seq<char>, Set<Seq<char>>>,
}

/// Every use is known from the side of the file that is included.
pub open spec fn registered(g: GraphView) -> bool {
    forall|p: Seq<char>, d: Seq<char>| #[trigger]
        edge(g.uses, p, d) ==> edge(g.parents, d, p)
}

/// Both sides say the same.
pub open spec fn exact(g: GraphView) -> bool {
    forall|p: Seq<char>, d: Seq<char>| #[trigger] edge(g.uses, p, d) <==> #[trigger] edge(
        g.parents,
        d,
        p,
    )
}

/// The graph without the uses of one source.
pub open spec fn removed_from(g: GraphView, uri: Seq<char>) -> GraphView {
    if g.uses.contains_key(uri) {
        GraphView {
            uses: g.uses.remove(uri),
            parents: without_edges(
                g.parents,
                in_order(g.uses[uri]),
                uri,
                in_order(g.uses[uri]).len() as int,
            ),
        }
    } else {
        g
    }
}

/// Forgetting what a source includes was begun: nothing was changed, or its expansion is
/// gone and so are the first edges to it.
pub open spec fn partly_removed(g: GraphView, after: GraphView, uri: Seq<char>) -> bool {
    ||| after == g
    ||| exists|n: int|
        0 <= n <= in_order(g.uses[uri]).len() && after == (GraphView {
            uses: g.uses.remove(uri),
            parents: #[trigger] without_edges(g.parents, in_order(g.uses[uri]), uri, n),
        })
}

/// The graph with the uses of one source in place of those it had.
pub open spec fn stored_in(g: GraphView, uri: Seq<char>, uses: Set<Seq<char>>) -> GraphView {
    let rest = removed_from(g, uri);
    GraphView {
        uses: rest.uses.insert(uri, uses),
        parents: with_edges(rest.parents, in_order(uses), uri, in_order(uses).len() as int),
    }
}

/// Keeping what a source includes was begun: what it included before is still being
/// forgotten, or the first of the new edges stand, or all is kept.
pub open spec fn partly_stored(
    g: GraphView,
    after: GraphView,
    uri: Seq<char>,
    uses: Set<Seq<char>>,
) -> bool {
    ||| partly_removed(g, after, uri)
    ||| exists|n: int|
        0 <= n <= in_order(uses).len() && after == (GraphView {
            uses: removed_from(g, uri).uses,
            parents: #[trigger] with_edges(
                removed_from(g, uri).parents,
                in_order(uses),
                uri,
                n,
            ),
        })
    ||| after == stored_in(g, uri, uses)
}

/// The visits that an expansion is charged before anything is changed.
pub open spec fn gathering_visits(expansion: Expansion) -> nat {
    let all = expansion.dependencies@;
    gather_visits(all, all.len() as int) + sort_work(observations_of(all, all.len() as int).len())
}

/// The path visits that taking the uses of a source out is charged.
pub open spec fn removal_visits(g: GraphView, uri: Seq<char>) -> nat {
    if g.uses.contains_key(uri) {
        2 * in_order(g.uses[uri]).len() + 1
    } else {
        0
    }
}

/// A way from an included file to a source that includes it, over others.
pub open spec fn leads(parents: Map<Seq<char>, Set<Seq<char>>>, way: Seq<Seq<char>>) -> bool {
    forall|i: int| 0 <= i < way.len() - 1 ==> edge(parents, #[trigger] way[i], way[i + 1])
}

/// The source includes the file, itself or over others, or is the file.
pub open spec fn reaches(
    parents: Map<Seq<char>, Set<Seq<char>>>,
    from: Seq<char>,
    to: Seq<char>,
) -> bool {
    exists|way: Seq<Seq<char>>|
        way.len() > 0 && way[0] == from && way.last() == to && #[trigger] leads(parents, way)
}

/// How many sources the files of a set are included by, counted for each file.
pub open spec fn edges_within(
    parents: Map<Seq<char>, Set<Seq<char>>>,
    files: Set<Seq<char>>,
) -> int {
    map_sum(
        parents.restrict(files),
        |file: Seq<char>, holders: Set<Seq<char>>| holders.len() as int,
    )
}

/// The visits that the search for the sources that include a file is charged: one for each
/// use that it follows, one for each that it comes to, and one for the file.
pub open spec fn search_visits(
    parents: Map<Seq<char>, Set<Seq<char>>>,
    from: Seq<char>,
) -> int {
    1 + 2 * edges_within(parents, Set::new(|to: Seq<char>| reaches(parents, from, to)))
}

pub proof fn lemma_search_visits(parents: Map<Seq<char>, Set<Seq<char>>>, from: Seq<char>)
    ensures
        search_visits(parents, from) >= 1,
{
    lemma_sum_bounds(
        parents.restrict(Set::new(|to: Seq<char>| reaches(parents, from, to))),
        |file: Seq<char>, holders: Set<Seq<char>>| holders.len() as int,
    );
}

proof fn lemma_edges_with(
    parents: Map<Seq<char>, Set<Seq<char>>>,
    files: Set<Seq<char>>,
    file: Seq<char>,
)
    requires
        parents.dom().finite(),
        !files.contains(file),
    ensures
        edges_within(parents, files.insert(file)) == edges_within(parents, files) + (
        if parents.contains_key(file) {
            parents[file].len() as int
        } else {
            0
        }),
{
    let weight = |file: Seq<char>, holders: Set<Seq<char>>| holders.len() as int;
    let before = parents.restrict(files);
    let after = parents.restrict(files.insert(file));
    assert(before.dom() =~= parents.dom().intersect(files));
    if parents.contains_key(file) {
        assert(after =~= before.insert(file, parents[file]));
        lemma_sum_insert(before, weight, file, parents[file]);
    } else {
        assert(after =~= before);
    }
}

/// More files are no fewer edges.
proof fn lemma_edges_grow(
    parents: Map<Seq<char>, Set<Seq<char>>>,
    files: Set<Seq<char>>,
    more: Set<Seq<char>>,
)
    requires
        parents.dom().finite(),
        files.subset_of(more),
    ensures
        edges_within(parents, files) <= edges_within(parents, more),
{
    assert(parents.restrict(more).dom() =~= parents.dom().intersect(more));
    lemma_sum_restrict(
        parents.restrict(more),
        |file: Seq<char>, holders: Set<Seq<char>>| holders.len() as int,
        files,
    );
    assert(parents.restrict(more).restrict(files) =~= parents.restrict(files));
}

proof fn lemma_edges_start(parents: Map<Seq<char>, Set<Seq<char>>>)
    ensures
        edges_within(parents, Set::empty()) == 0,
{
    assert(parents.restrict(Set::empty()) =~= Map::empty());
    assert(Map::<Seq<char>, Set<Seq<char>>>::empty().dom().len() == 0);
}

proof fn lemma_reaches_self(parents: Map<Seq<char>, Set<Seq<char>>>, from: Seq<char>)
    ensures
        reaches(parents, from, from),
{
    let way = seq![from];
    assert(way.last() == from);
    assert(leads(parents, way));
}

proof fn lemma_reaches_step(
    parents: Map<Seq<char>, Set<Seq<char>>>,
    from: Seq<char>,
    to: Seq<char>,
    next: Seq<char>,
)
    requires
        reaches(parents, from, to),
        edge(parents, to, next),
    ensures
        reaches(parents, from, next),
{
    let way = choose|way: Seq<Seq<char>>|
        way.len() > 0 && way[0] == from && way.last() == to && #[trigger] leads(parents, way);
    let longer = way.push(next);
    assert(longer.last() == next);
    assert forall|i: int| 0 <= i < longer.len() - 1 implies edge(
        parents,
        #[trigger] longer[i],
        longer[i + 1],
    ) by {
        if i < way.len() - 1 {
            assert(edge(parents, way[i], way[i + 1]));
        }
    }
    assert(leads(parents, longer));
}

proof fn lemma_closed_way(
    parents: Map<Seq<char>, Set<Seq<char>>>,
    seen: Set<Seq<char>>,
    way: Seq<Seq<char>>,
    n: int,
)
    requires
        0 <= n < way.len(),
        leads(parents, way),
        seen.contains(way[0]),
        forall|d: Seq<char>, p: Seq<char>|
            seen.contains(d) && #[trigger] edge(parents, d, p) ==> seen.contains(p),
    ensures
        seen.contains(way[n]),
    decreases n,
{
    if n > 0 {
        lemma_closed_way(parents, seen, way, n - 1);
        assert(edge(parents, way[n - 1], way[n]));
    }
}

proof fn lemma_closed(
    parents: Map<Seq<char>, Set<Seq<char>>>,
    seen: Set<Seq<char>>,
    from: Seq<char>,
    to: Seq<char>,
)
    requires
        seen.contains(from),
        forall|d: Seq<char>, p: Seq<char>|
            seen.contains(d) && #[trigger] edge(parents, d, p) ==> seen.contains(p),
        reaches(parents, from, to),
    ensures
        seen.contains(to),
{
    let way = choose|way: Seq<Seq<char>>|
        way.len() > 0 && way[0] == from && way.last() == to && #[trigger] leads(parents, way);
    lemma_closed_way(parents, seen, way, way.len() - 1);
}

/// The texts of the first `n` dependencies, by URI, beside that of the source.
pub open spec fn texts_with(
    uri: Seq<char>,
    source: Seq<char>,
    dependencies: Seq<IncludeDependency>,
    n: int,
) -> Map<Seq<char>, Seq<char>>
    decreases n,
{
    if n <= 0 {
        Map::empty().insert(uri, source)
    } else {
        texts_with(uri, source, dependencies, n - 1).insert(
            dependencies[n - 1].uri@,
            dependencies[n - 1].text@,
        )
    }
}

/// The entries of the first `n` dependencies that have one.
pub open spec fn entries_of(dependencies: Seq<IncludeDependency>, n: int) -> Map<
    Seq<char>,
    EntryView,
>
    decreases n,
{
    if n <= 0 {
        Map::empty()
    } else {
        match dependencies[n - 1].path_entry {
            Some(entry) => entries_of(dependencies, n - 1).insert(
                dependencies[n - 1].uri@,
                entry@,
            ),
            None => entries_of(dependencies, n - 1),
        }
    }
}

/// What was seen for the first `n` dependencies.
pub open spec fn observations_of(dependencies: Seq<IncludeDependency>, n: int) -> Seq<
    ObservationView,
>
    decreases n,
{
    if n <= 0 {
        Seq::empty()
    } else {
        observations_of(dependencies, n - 1) + views(dependencies[n - 1].observations@)
    }
}

/// The URIs of the first `n` dependencies.
pub open spec fn uris_of(dependencies: Seq<IncludeDependency>, n: int) -> Set<Seq<char>>
    decreases n,
{
    if n <= 0 {
        Set::empty()
    } else {
        uris_of(dependencies, n - 1).insert(dependencies[n - 1].uri@)
    }
}

/// What is kept of an expansion.
pub open spec fn record_of(
    uri: Seq<char>,
    key: KeyView,
    source: Seq<char>,
    expansion: Expansion,
) -> RecordView {
    let all = expansion.dependencies@;
    let n = all.len() as int;
    let seen = sorted_list::<IncludeObservation>(observations_of(all, n));
    RecordView {
        physical_source: source,
        context_key: key,
        expanded: expansion.text@,
        source_texts: texts_with(uri, source, all, n),
        dependency_entries: entries_of(all, n),
        include_observations: without_repeats(seen, seen.len() as int),
        dependencies: uris_of(all, n),
        complete: expansion.complete,
    }
}

/// The expanded sources of a workspace.
#[derive(Debug)]
pub struct IncludeGraph {
    pub expansions: StrMap<ExpansionRecord>,
    pub parents: StrMap<StrSet>,
}

/// The uses that records state.
pub open spec fn uses_of(expansions: Map<Seq<char>, RecordView>) -> Map<
    Seq<char>,
    Set<Seq<char>>,
> {
    expansions.map_values(|r: RecordView| r.dependencies)
}

fn add_parent(parents: &mut StrMap<StrSet>, included: &str, parent: &str)
    ensures
        final(parents).deep() == with_edge(old(parents).deep(), included@, parent@),
{
    let ghost before = parents@;
    let mut holders = match parents.remove(included) {
        Some(holders) => holders,
        None => StrSet::new(),
    };
    let _added = holders.insert(parent.to_owned());
    proof {
        lemma_deep_remove(before, included@);
        lemma_deep_insert(before.remove(included@), included@, holders);
        assert(deep_of(before).remove(included@).insert(included@, holders@) =~= with_edge(
            deep_of(before),
            included@,
            parent@,
        ));
    }
    let _before = parents.insert(included.to_owned(), holders);
}

fn drop_parent(parents: &mut StrMap<StrSet>, included: &str, parent: &str)
    ensures
        final(parents).deep() == without_edge(old(parents).deep(), included@, parent@),
{
    let ghost before = parents@;
    match parents.remove(included) {
        Some(mut holders) => {
            let _removed = holders.remove(parent);
            proof {
                lemma_deep_remove(before, included@);
                lemma_deep_insert(before.remove(included@), included@, holders);
            }
            if holders.len() > 0 {
                proof {
                    assert(deep_of(before).remove(included@).insert(included@, holders@)
                        =~= without_edge(deep_of(before), included@, parent@));
                }
                let _before = parents.insert(included.to_owned(), holders);
            }
        },
        None => {
            proof {
                assert(before.remove(included@) =~= before);
            }
        },
    }
}

impl IncludeGraph {
    /// Who includes whom.
    pub open spec fn graph(&self) -> GraphView {
        GraphView { uses: uses_of(self.expansions.deep()), parents: self.parents.deep() }
    }

    /// Every use is known from both sides, and no entry is empty.
    pub open spec fn wf(&self) -> bool {
        &&& registered(self.graph())
        &&& proper(self.graph().parents)
    }

    /// No expanded sources.
    pub fn new() -> (r: Self)
        ensures
            r.wf(),
            exact(r.graph()),
            r.expansions.deep() == Map::<Seq<char>, RecordView>::empty(),
            r.parents.deep() == Map::<Seq<char>, Set<Seq<char>>>::empty(),
    {
        let r = IncludeGraph { expansions: StrMap::new(), parents: StrMap::new() };
        proof {
            assert(r.expansions.deep() =~= Map::<Seq<char>, RecordView>::empty());
            assert(r.parents.deep() =~= Map::<Seq<char>, Set<Seq<char>>>::empty());
        }
        r
    }

    /// Forgets what a source includes. Work that its account refuses changes nothing.
    pub fn remove_expansion(&mut self, uri: &str, work: &mut Work) -> (r: Result<(), Interrupt>)
        requires
            old(self).wf(),
        ensures
            final(self).wf(),
            final(work).continues(old(work)),
            old(work).unbounded() ==> r is Ok,
            r matches Err(Interrupt::BudgetExceeded) ==> final(work).used_up(),
            r matches Err(Interrupt::BudgetExceeded) ==> !old(work).affords(
                removal_visits(old(self).graph(), uri@) as int,
                0,
            ),
            r is Ok ==> final(self).expansions.deep() == old(self).expansions.deep().remove(uri@),
            r is Ok ==> final(self).graph() == removed_from(old(self).graph(), uri@),
            r is Ok && exact(old(self).graph()) ==> exact(final(self).graph()),
            r is Ok ==> final(work).visited(
                old(work),
                removal_visits(old(self).graph(), uri@) as int,
            ),
            r == Err::<(), Interrupt>(Interrupt::BudgetExceeded) ==> final(self).graph() == old(
                self,
            ).graph() && final(self).expansions.deep() == old(self).expansions.deep(),
            r is Err ==> partly_removed(old(self).graph(), final(self).graph(), uri@),
            r is Err ==> final(self).expansions.deep() == (if final(self).graph() == old(
                self,
            ).graph() {
                old(self).expansions.deep()
            } else {
                old(self).expansions.deep().remove(uri@)
            }),
    {
        work.check()?;
        let ghost g = self.graph();
        let ghost all = self.expansions.deep();
        let count: usize = match self.expansions.get(uri) {
            Some(record) => record.dependencies.len(),
            None => {
                proof {
                    assert(all.remove(uri@) =~= all);
                }
                return Ok(());
            },
        };
        proof {
            assert(g.uses[uri@] == self.expansions@[uri@].dependencies@);
        }
        let ghost listed = in_order(g.uses[uri@]);
        let ghost start = *work;
        let mut i: usize = 0;
        while i < count
            invariant
                i <= count,
                start.unbounded() ==> work.unbounded(),
                count == listed.len(),
                listed == in_order(g.uses[uri@]),
                g.uses.contains_key(uri@),
                work.visited(&start, i as int),
                self.graph() == g,
                self.wf(),
                self.expansions.deep() == all,
                start == *old(work),
                g == old(self).graph(),
                all == old(self).expansions.deep(),
            decreases count - i,
        {
            work.check()?;
            work.visit(1)?;
            i += 1;
        }
        work.visit(count.saturating_add(1))?;
        work.check()?;
        let ghost held = self.expansions@;
        let taken = self.expansions.remove(uri);
        proof {
            lemma_deep_remove(held, uri@);
            assert(uses_of(all.remove(uri@)) =~= g.uses.remove(uri@));
        }
        if let Some(record) = taken {
            let n: usize = record.dependencies.len();
            let mut j: usize = 0;
            proof {
                lemma_without_edges(g.parents, listed, uri@, 0);
                assert(listed.take(0) =~= Seq::<Seq<char>>::empty());
            }
            while j < n
                invariant
                    j <= n,
                    n == listed.len(),
                    listed == record.dependencies.members(),
                    listed == in_order(g.uses[uri@]),
                    g.uses.contains_key(uri@),
                    work.cancel == old(work).cancel,
                    work.continues(old(work)),
                    self.expansions.deep() == all.remove(uri@),
                    uses_of(all.remove(uri@)) == g.uses.remove(uri@),
                    self.parents.deep() == without_edges(g.parents, listed, uri@, j as int),
                    proper(g.parents),
                    registered(g),
                    g == old(self).graph(),
                    all == old(self).expansions.deep(),
                decreases n - j,
            {
                proof {
                    lemma_without_edges(g.parents, listed, uri@, j as int);
                    lemma_registered_without(g, uri@, self.graph(), listed, j as int);
                    assert(self.graph() == (GraphView {
                        uses: g.uses.remove(uri@),
                        parents: without_edges(g.parents, listed, uri@, j as int),
                    }));
                }
                work.check()?;
                drop_parent(&mut self.parents, record.dependencies.at(j).as_str(), uri);
                j += 1;
            }
            proof {
                lemma_without_edges(g.parents, listed, uri@, n as int);
                lemma_registered_without(g, uri@, self.graph(), listed, n as int);
                assert(self.graph() =~= removed_from(g, uri@));
                if exact(g) {
                    lemma_exact_without(g, uri@);
                }
            }
        }
        work.check()?;
        work.settle()?;
        Ok(())
    }
}

proof fn lemma_registered_without(
    g: GraphView,
    uri: Seq<char>,
    after: GraphView,
    listed: Seq<Seq<char>>,
    n: int,
)
    requires
        0 <= n <= listed.len(),
        registered(g),
        proper(g.parents),
        after.uses == g.uses.remove(uri),
        after.parents == without_edges(g.parents, listed, uri, n),
    ensures
        registered(after),
        proper(after.parents),
{
    lemma_without_edges(g.parents, listed, uri, n);
    assert forall|p: Seq<char>, d: Seq<char>| #[trigger] edge(after.uses, p, d) implies edge(
        after.parents,
        d,
        p,
    ) by {
        assert(edge(g.uses, p, d));
        assert(p != uri);
    }
}

proof fn lemma_exact_without(g: GraphView, uri: Seq<char>)
    requires
        exact(g),
        proper(g.parents),
        g.uses.contains_key(uri),
        g.uses[uri].finite(),
        in_order(g.uses[uri]).to_set() == g.uses[uri],
    ensures
        exact(removed_from(g, uri)),
{
    let after = removed_from(g, uri);
    let listed = in_order(g.uses[uri]);
    lemma_without_edges(g.parents, listed, uri, listed.len() as int);
    assert(listed.take(listed.len() as int) =~= listed);
    assert forall|p: Seq<char>, d: Seq<char>| #[trigger] edge(after.uses, p, d) <==> #[trigger] edge(
        after.parents,
        d,
        p,
    ) by {
        assert(edge(g.uses, p, d) <==> edge(g.parents, d, p));
        if p == uri {
            assert(edge(g.uses, p, d) <==> g.uses[uri].contains(d));
            assert(listed.to_set().contains(d) <==> listed.contains(d));
        }
    }
}

proof fn lemma_registered_with(
    g: GraphView,
    uri: Seq<char>,
    after: GraphView,
    listed: Seq<Seq<char>>,
    n: int,
)
    requires
        0 <= n <= listed.len(),
        registered(g),
        proper(g.parents),
        after.uses == g.uses,
        after.parents == with_edges(g.parents, listed, uri, n),
    ensures
        registered(after),
        proper(after.parents),
{
    lemma_with_edges(g.parents, listed, uri, n);
    assert forall|p: Seq<char>, d: Seq<char>| #[trigger] edge(after.uses, p, d) implies edge(
        after.parents,
        d,
        p,
    ) by {
        assert(edge(g.uses, p, d));
        assert(edge(g.parents, d, p));
    }
}

proof fn lemma_stored(g: GraphView, uri: Seq<char>, uses: Set<Seq<char>>)
    requires
        registered(g),
        proper(g.parents),
        !g.uses.contains_key(uri),
        uses.finite(),
        in_order(uses).to_set() == uses,
    ensures
        ({
            let after = GraphView {
                uses: g.uses.insert(uri, uses),
                parents: with_edges(g.parents, in_order(uses), uri, in_order(uses).len() as int),
            };
            &&& registered(after)
            &&& proper(after.parents)
            &&& exact(g) ==> exact(after)
        }),
{
    let listed = in_order(uses);
    let after = GraphView {
        uses: g.uses.insert(uri, uses),
        parents: with_edges(g.parents, listed, uri, listed.len() as int),
    };
    lemma_with_edges(g.parents, listed, uri, listed.len() as int);
    assert(listed.take(listed.len() as int) =~= listed);
    assert forall|p: Seq<char>, d: Seq<char>| #[trigger] edge(after.uses, p, d) implies edge(
        after.parents,
        d,
        p,
    ) by {
        if p == uri {
            assert(listed.to_set().contains(d) <==> listed.contains(d));
        } else {
            assert(edge(g.uses, p, d));
        }
    }
    if exact(g) {
        assert forall|p: Seq<char>, d: Seq<char>| #[trigger] edge(after.uses, p, d)
            <==> #[trigger] edge(after.parents, d, p) by {
            assert(edge(g.uses, p, d) <==> edge(g.parents, d, p));
            assert(listed.to_set().contains(d) <==> listed.contains(d));
        }
    }
}

/// The path visits that gathering what the first `n` dependencies hold is charged.
pub open spec fn gather_visits(dependencies: Seq<IncludeDependency>, n: int) -> nat
    decreases n,
{
    if n <= 0 {
        0
    } else {
        gather_visits(dependencies, n - 1) + 1 + dependencies[n - 1].observations@.len()
    }
}

/// More dependencies take no fewer visits.
proof fn lemma_gather_visits_grow(dependencies: Seq<IncludeDependency>, m: int, n: int)
    requires
        m <= n,
    ensures
        gather_visits(dependencies, m) <= gather_visits(dependencies, n),
    decreases n - m,
{
    if m < n {
        lemma_gather_visits_grow(dependencies, m, n - 1);
    }
}

/// The path visits that keeping an expansion is charged.
pub open spec fn store_visits(g: GraphView, uri: Seq<char>, expansion: Expansion) -> nat {
    let all = expansion.dependencies@;
    let n = all.len() as int;
    gather_visits(all, n) + sort_work(observations_of(all, n).len()) + removal_visits(g, uri)
        + in_order(uris_of(all, n)).len()
}

impl IncludeGraph {
    fn gather(
        uri: &str,
        key: &ContextKey,
        source: String,
        expansion: Expansion,
        work: &mut Work,
    ) -> (r: Result<ExpansionRecord, Interrupt>)
        ensures
            final(work).continues(old(work)),
            old(work).unbounded() ==> r is Ok,
            r matches Err(Interrupt::BudgetExceeded) ==> final(work).used_up(),
            r matches Err(Interrupt::BudgetExceeded) ==> !old(work).affords(
                (
                    gather_visits(expansion.dependencies@, expansion.dependencies@.len() as int)
                        + sort_work(
                            observations_of(
                                expansion.dependencies@,
                                expansion.dependencies@.len() as int,
                            ).len(),
                        )
                ) as int,
                0,
            ),
            r is Ok ==> r->Ok_0@ == record_of(uri@, key@, source@, expansion),
            r is Ok ==> final(work).visited(
                old(work),
                (gather_visits(expansion.dependencies@, expansion.dependencies@.len() as int)
                    + sort_work(
                    observations_of(
                        expansion.dependencies@,
                        expansion.dependencies@.len() as int,
                    ).len(),
                )) as int,
            ),
    {
        let ghost all = expansion.dependencies@;
        let ghost start = *work;
        let mut source_texts: StrMap<String> = StrMap::new();
        let mut entries: StrMap<PathEntry> = StrMap::new();
        let mut seen: Vec<IncludeObservation> = Vec::new();
        let mut uris = StrSet::new();
        proof {
            lemma_deep_insert(source_texts@, uri@, source);
            assert(source_texts.deep() =~= Map::<Seq<char>, Seq<char>>::empty());
            assert(entries.deep() =~= Map::<Seq<char>, EntryView>::empty());
            assert(views(seen@) =~= Seq::<ObservationView>::empty());
        }
        let _none = source_texts.insert(uri.to_owned(), source.clone());
        proof {
            assert(source_texts.deep() =~= texts_with(uri@, source@, all, 0));
        }
        let mut i: usize = 0;
        while i < expansion.dependencies.len()
            invariant
                i <= all.len(),
                all == expansion.dependencies@,
                work.visited(&start, gather_visits(all, i as int) as int),
                source_texts.deep() == texts_with(uri@, source@, all, i as int),
                entries.deep() == entries_of(all, i as int),
                views(seen@) == observations_of(all, i as int),
                uris@ == uris_of(all, i as int),
                start == *old(work),
            decreases all.len() - i,
        {
            let dependency = &expansion.dependencies[i];
            work.check()?;
            proof {
                lemma_gather_visits_grow(all, i + 1, all.len() as int);
            }
            work.visit(1)?;
            work.visit(dependency.observations.len())?;
            let _added = uris.insert(dependency.uri.clone());
            proof {
                lemma_deep_insert(source_texts@, dependency.uri@, dependency.text);
            }
            let _before = source_texts.insert(dependency.uri.clone(), dependency.text.clone());
            let mut j: usize = 0;
            let ghost so_far = seen@;
            proof {
                assert(views(dependency.observations@).take(0) =~= Seq::<
                    ObservationView,
                >::empty());
                assert(views(so_far) + Seq::<ObservationView>::empty() =~= views(so_far));
            }
            while j < dependency.observations.len()
                invariant
                    j <= dependency.observations@.len(),
                    views(seen@) == views(so_far) + views(dependency.observations@).take(j as int),
                decreases dependency.observations@.len() - j,
            {
                let ghost held = seen@;
                seen.push(dependency.observations[j].duplicate());
                proof {
                    let listed = views(dependency.observations@);
                    assert(listed[j as int] == dependency.observations@[j as int]@);
                    assert(views(seen@) =~= views(held).push(listed[j as int]));
                    assert(listed.take(j + 1) =~= listed.take(j as int).push(listed[j as int]));
                    assert(views(so_far) + listed.take(j as int).push(listed[j as int]) =~= (views(
                        so_far,
                    ) + listed.take(j as int)).push(listed[j as int]));
                }
                j += 1;
            }
            proof {
                let listed = views(dependency.observations@);
                assert(listed.take(listed.len() as int) =~= listed);
            }
            if let Some(entry) = &dependency.path_entry {
                let kept = entry.copy();
                proof {
                    lemma_deep_insert(entries@, dependency.uri@, kept);
                }
                let _before = entries.insert(dependency.uri.clone(), kept);
            }
            i += 1;
        }
        proof {
            assert(views(seen@).len() == seen@.len());
        }
        work.visit(sort_work_estimate(seen.len()))?;
        work.check()?;
        let sorted = sort(seen);
        let include_observations = drop_repeats(&sorted);
        let uses = uris;
        work.check()?;
        work.settle()?;
        let record = ExpansionRecord {
            physical_source: source,
            context_key: key.duplicate(),
            expanded: expansion.text,
            source_texts,
            dependency_entries: entries,
            include_observations,
            dependencies: uses,
            complete: expansion.complete,
        };
        Ok(record)
    }

    /// Keeps an expansion in the place of what the source included before. The expansion is
    /// gathered before anything is changed.
    pub fn store_expansion(
        &mut self,
        uri: &str,
        key: &ContextKey,
        source: String,
        expansion: Expansion,
        work: &mut Work,
    ) -> (r: Result<(), Interrupt>)
        requires
            old(self).wf(),
        ensures
            final(self).wf(),
            final(work).continues(old(work)),
            old(work).unbounded() ==> r is Ok,
            r matches Err(Interrupt::BudgetExceeded) ==> final(work).used_up(),
            r matches Err(Interrupt::BudgetExceeded) ==> !old(work).affords(
                store_visits(old(self).graph(), uri@, expansion) as int,
                0,
            ),
            r is Ok ==> final(self).expansions.deep() == old(self).expansions.deep().insert(
                uri@,
                record_of(uri@, key@, source@, expansion),
            ),
            r is Ok ==> final(self).graph() == stored_in(
                old(self).graph(),
                uri@,
                uris_of(expansion.dependencies@, expansion.dependencies@.len() as int),
            ),
            r is Ok && exact(old(self).graph()) ==> exact(final(self).graph()),
            r is Ok ==> final(work).visited(
                old(work),
                store_visits(old(self).graph(), uri@, expansion) as int,
            ),
            gathering_visits(expansion) > 0 && !old(work).has_room(
                gathering_visits(expansion) as int,
            ) ==> r is Err && final(self).expansions.deep() == old(self).expansions.deep()
                && final(self).graph() == old(self).graph(),
            r is Err && old(work).budget is Some && final(work).visits() < old(work).visits()
                + gathering_visits(expansion) ==> final(self).expansions.deep() == old(
                self,
            ).expansions.deep() && final(self).graph() == old(self).graph(),
            r is Err ==> partly_stored(
                old(self).graph(),
                final(self).graph(),
                uri@,
                uris_of(expansion.dependencies@, expansion.dependencies@.len() as int),
            ),
            r is Err ==> {
                let known = old(self).expansions.deep();
                let kept = final(self).expansions.deep();
                ||| kept == known
                ||| kept == known.remove(uri@)
                ||| kept == known.insert(uri@, record_of(uri@, key@, source@, expansion))
            },
    {
        work.check()?;
        let ghost g = self.graph();
        let ghost all = self.expansions.deep();
        let ghost given = expansion.dependencies@;
        let record = IncludeGraph::gather(uri, key, source, expansion, work)?;
        self.remove_expansion(uri, work)?;
        let ghost rest = self.graph();
        let ghost middle = *work;
        let n: usize = record.dependencies.len();
        let ghost listed = in_order(record.dependencies@);
        let mut i: usize = 0;
        while i < n
            invariant
                i <= n,
                n == listed.len(),
                listed == record.dependencies.members(),
                record.dependencies@ == uris_of(given, given.len() as int),
                listed == in_order(record.dependencies@),
                given == expansion.dependencies@,
                middle.visited(
                    &*old(work),
                    (gather_visits(given, given.len() as int) + sort_work(
                        observations_of(given, given.len() as int).len(),
                    ) + removal_visits(g, uri@)) as int,
                ),
                g == old(self).graph(),
                work.visited(&middle, i as int),
                work.continues(old(work)),
                self.expansions.deep() == all.remove(uri@),
                self.graph() == (GraphView {
                    uses: rest.uses,
                    parents: with_edges(rest.parents, listed, uri@, i as int),
                }),
                rest == removed_from(g, uri@),
                all == old(self).expansions.deep(),
                registered(rest),
                proper(rest.parents),
                old(work).unbounded() ==> middle.unbounded(),
            decreases n - i,
        {
            proof {
                lemma_registered_with(rest, uri@, self.graph(), listed, i as int);
                assert(self.graph() == (GraphView {
                    uses: removed_from(g, uri@).uses,
                    parents: with_edges(removed_from(g, uri@).parents, listed, uri@, i as int),
                }));
            }
            work.check()?;
            work.visit(1)?;
            add_parent(&mut self.parents, record.dependencies.at(i).as_str(), uri);
            i += 1;
        }
        let ghost held = self.expansions@;
        proof {
            lemma_deep_insert(held, uri@, record);
            assert(!rest.uses.contains_key(uri@));
            lemma_stored(rest, uri@, record.dependencies@);
            assert(all.remove(uri@).insert(uri@, record@) =~= all.insert(uri@, record@));
            assert(uses_of(all.insert(uri@, record@)) =~= rest.uses.insert(
                uri@,
                record.dependencies@,
            ));
        }
        let _before = self.expansions.insert(uri.to_owned(), record);
        proof {
            assert(self.graph() =~= stored_in(g, uri@, listed.to_set()));
        }
        work.check()?;
        work.settle()?;
        Ok(())
    }

    /// The expanded sources that include a file, themselves or over others, and the file
    /// itself where it is one.
    pub fn affected_roots(&self, uri: &str, work: &mut Work) -> (r: Result<Vec<String>, Interrupt>)
        ensures
            final(work).continues(old(work)),
            old(work).unbounded() ==> r is Ok,
            r matches Err(Interrupt::BudgetExceeded) ==> final(work).used_up(),
            r matches Err(Interrupt::BudgetExceeded) ==> !old(work).affords(
                search_visits(self.graph().parents, uri@),
                0,
            ),
            r is Ok ==> crate::strings::texts(r->Ok_0@).no_duplicates(),
            r is Ok ==> forall|root: Seq<char>| #[trigger]
                crate::strings::texts(r->Ok_0@).contains(root) <==> reaches(
                    self.graph().parents,
                    uri@,
                    root,
                ) && self.graph().uses.contains_key(root),
            r is Ok ==> final(work).visited(
                old(work),
                search_visits(self.graph().parents, uri@),
            ),
    {
        work.check()?;
        let ghost parents = self.graph().parents;
        let ghost uses = self.graph().uses;
        let ghost start = uri@;
        let ghost reached = Set::new(|to: Seq<char>| reaches(parents, uri@, to));
        let known: usize = self.parents.len();
        let mut queue: Vec<String> = Vec::new();
        queue.push(uri.to_owned());
        let mut visited = StrSet::new();
        let mut affected: Vec<String> = Vec::new();
        proof {
            lemma_reaches_self(parents, start);
            lemma_edges_start(parents);
            assert(visited@ =~= Set::empty());
            assert(queue@[0]@ == start);
            assert(crate::strings::texts(affected@) =~= Seq::<Seq<char>>::empty());
            assert(parents.dom() =~= self.parents@.dom());
        }
        while queue.len() > 0
            invariant
                parents == self.graph().parents,
                uses == self.graph().uses,
                parents.dom().finite(),
                start == uri@,
                reached == Set::new(|to: Seq<char>| reaches(parents, uri@, to)),
                work.continues(old(work)),
                work.visited(
                    &*old(work),
                    1 + 2 * edges_within(parents, visited@) - queue@.len(),
                ),
                queue@.len() <= 1 + edges_within(parents, visited@),
                work.cancel == old(work).cancel,
                visited@.contains(start) || (exists|j: int|
                    0 <= j < queue@.len() && (#[trigger] queue@[j])@ == start),
                forall|v: Seq<char>| #[trigger]
                    visited@.contains(v) ==> reaches(parents, start, v),
                forall|j: int|
                    0 <= j < queue@.len() ==> reaches(parents, start, (#[trigger] queue@[j])@),
                forall|v: Seq<char>, p: Seq<char>|
                    visited@.contains(v) && #[trigger] edge(parents, v, p) ==> visited@.contains(p)
                        || (exists|j: int|
                        0 <= j < queue@.len() && (#[trigger] queue@[j])@ == p),
                crate::strings::texts(affected@).no_duplicates(),
                forall|root: Seq<char>| #[trigger]
                    crate::strings::texts(affected@).contains(root) <==> visited@.contains(root)
                        && uses.contains_key(root),
            decreases parents.dom().difference(visited@).len(), queue@.len(),
        {
            let ghost waiting = queue@;
            let ghost seen = visited@;
            let current = match queue.pop() {
                Some(current) => current,
                None => return Ok(affected),
            };
            work.check()?;
            proof {
                lemma_edges_grow(parents, visited@, reached);
            }
            work.visit(1)?;
            proof {
                assert(waiting[waiting.len() - 1]@ == current@);
            }
            let fresh = visited.insert(current.clone());
            if fresh {
                if self.expansions.contains_key(current.as_str()) {
                    let ghost before = affected@;
                    affected.push(current.clone());
                    proof {
                        let old_list = crate::strings::texts(before);
                        assert(crate::strings::texts(affected@) =~= old_list.push(current@));
                        assert(!old_list.contains(current@));
                        lemma_push_contains(old_list, current@);
                    }
                }
                let ghost kept = queue@;
                let ghost middle = *work;
                proof {
                    lemma_edges_with(parents, seen, current@);
                    assert(visited@ =~= seen.insert(current@));
                    assert(forall|j: int|
                        0 <= j < kept.len() ==> (#[trigger] kept[j])@ == waiting[j]@);
                    assert(parents.dom().difference(visited@).subset_of(
                        parents.dom().difference(seen),
                    ));
                    vstd::set_lib::lemma_len_subset(
                        parents.dom().difference(visited@),
                        parents.dom().difference(seen),
                    );
                }
                if let Some(holders) = self.parents.get(current.as_str()) {
                    let n: usize = holders.len();
                    let ghost listed = holders.members();
                    proof {
                        assert(parents[current@] == holders@);
                        assert(parents.dom().difference(visited@) =~= parents.dom().difference(
                            seen,
                        ).remove(current@));
                        assert(parents.dom().difference(seen).contains(current@));
                    }
                    let mut i: usize = 0;
                    while i < n
                        invariant
                            i <= n,
                            n == listed.len(),
                            listed == holders.members(),
                            holders@ == listed.to_set(),
                            parents == self.graph().parents,
                            parents.contains_key(current@) && parents[current@] == holders@,
                            reaches(parents, start, current@),
                            work.continues(old(work)),
                            work.cancel == old(work).cancel,
                            work.visited(&middle, i as int),
                            start == uri@,
                            reached == Set::new(|to: Seq<char>| reaches(parents, uri@, to)),
                            parents.dom().finite(),
                            forall|v: Seq<char>| #[trigger]
                                visited@.contains(v) ==> reaches(parents, start, v),
                            edges_within(parents, visited@) == edges_within(parents, seen) + n,
                            kept.len() <= edges_within(parents, seen),
                            middle.visited(
                                &*old(work),
                                1 + 2 * edges_within(parents, seen) - kept.len(),
                            ),
                            queue@.len() == kept.len() + i,
                            forall|j: int|
                                0 <= j < kept.len() ==> (#[trigger] queue@[j])@ == kept[j]@,
                            forall|j: int|
                                0 <= j < i ==> (#[trigger] queue@[kept.len() + j])@ == listed[j],
                            forall|j: int|
                                0 <= j < queue@.len() ==> reaches(
                                    parents,
                                    start,
                                    (#[trigger] queue@[j])@,
                                ),
                        decreases n - i,
                    {
                        work.check()?;
                        proof {
                            lemma_edges_grow(parents, visited@, reached);
                            assert(work.visited(
                                &*old(work),
                                1 + 2 * edges_within(parents, seen) - kept.len() + i,
                            ));
                        }
                        work.visit(1)?;
                        proof {
                            assert(listed.to_set().contains(listed[i as int]));
                            assert(edge(parents, current@, listed[i as int]));
                            lemma_reaches_step(parents, start, current@, listed[i as int]);
                        }
                        let ghost shorter = queue@;
                        queue.push(holders.at(i).clone());
                        proof {
                            assert forall|j: int| 0 <= j < kept.len() implies (
                            #[trigger] queue@[j])@ == kept[j]@ by {
                                assert(queue@[j] == shorter[j]);
                            }
                            assert forall|j: int| 0 <= j < i + 1 implies (#[trigger] queue@[
                                kept.len() + j])@ == listed[j] by {
                                if j < i {
                                    assert(queue@[kept.len() + j] == shorter[kept.len() + j]);
                                }
                            }
                            assert forall|j: int| 0 <= j < queue@.len() implies reaches(
                                parents,
                                start,
                                (#[trigger] queue@[j])@,
                            ) by {
                                if j < shorter.len() {
                                    assert(queue@[j] == shorter[j]);
                                }
                            }
                        }
                        i += 1;
                    }
                    proof {
                        assert forall|p: Seq<char>| #[trigger] edge(
                            parents,
                            current@,
                            p,
                        ) implies exists|j: int|
                            0 <= j < queue@.len() && (#[trigger] queue@[j])@ == p by {
                            assert(listed.to_set().contains(p));
                            let j = choose|j: int| 0 <= j < listed.len() && listed[j] == p;
                            assert(queue@[kept.len() + j]@ == p);
                        }
                    }
                } else {
                    proof {
                        assert(parents.dom().difference(visited@) =~= parents.dom().difference(
                            seen,
                        ));
                    }
                }
                proof {
                    assert forall|v: Seq<char>, p: Seq<char>|
                        visited@.contains(v) && #[trigger] edge(parents, v, p) implies visited@.contains(p)
                        || (exists|j: int|
                        0 <= j < queue@.len() && (#[trigger] queue@[j])@ == p) by {
                        if v != current@ && !visited@.contains(p) {
                            let j = choose|j: int|
                                0 <= j < waiting.len() && (#[trigger] waiting[j])@ == p;
                            assert(queue@[j]@ == p);
                        }
                    }
                    if !visited@.contains(start) {
                        let j = choose|j: int|
                            0 <= j < waiting.len() && (#[trigger] waiting[j])@ == start;
                        assert(queue@[j]@ == start);
                    }
                }
            } else {
                proof {
                    assert(visited@ =~= seen);
                    assert forall|v: Seq<char>, p: Seq<char>|
                        visited@.contains(v) && #[trigger] edge(parents, v, p) implies visited@.contains(p)
                        || (exists|j: int|
                        0 <= j < queue@.len() && (#[trigger] queue@[j])@ == p) by {
                        if !visited@.contains(p) {
                            let j = choose|j: int|
                                0 <= j < waiting.len() && (#[trigger] waiting[j])@ == p;
                            assert(queue@[j]@ == p);
                        }
                    }
                    if !visited@.contains(start) {
                        let j = choose|j: int|
                            0 <= j < waiting.len() && (#[trigger] waiting[j])@ == start;
                        assert(queue@[j]@ == start);
                    }
                }
            }
        }
        work.check()?;
        work.settle()?;
        proof {
            assert forall|root: Seq<char>| #[trigger]
                crate::strings::texts(affected@).contains(root) <==> reaches(parents, start, root)
                    && uses.contains_key(root) by {
                if reaches(parents, start, root) {
                    lemma_closed(parents, visited@, start, root);
                }
            }
            let reached = Set::new(|to: Seq<char>| reaches(parents, start, to));
            assert forall|file: Seq<char>| #[trigger] visited@.contains(file) == reached.contains(
                file,
            ) by {
                if reaches(parents, start, file) {
                    lemma_closed(parents, visited@, start, file);
                }
            }
            assert(parents.restrict(visited@) =~= parents.restrict(reached));
        }
        Ok(affected)
    }
}

proof fn lemma_push_contains(list: Seq<Seq<char>>, x: Seq<char>)
    ensures
        forall|y: Seq<char>| #[trigger] list.push(x).contains(y) <==> list.contains(y) || y == x,
        list.no_duplicates() && !list.contains(x) ==> list.push(x).no_duplicates(),
{
    let longer = list.push(x);
    assert forall|y: Seq<char>| #[trigger] longer.contains(y) <==> list.contains(y) || y == x by {
        if longer.contains(y) {
            let i = choose|i: int| 0 <= i < longer.len() && longer[i] == y;
            if i < list.len() {
                assert(list[i] == y);
            }
        }
        if list.contains(y) {
            let i = choose|i: int| 0 <= i < list.len() && list[i] == y;
            assert(longer[i] == y);
        }
        assert(longer[list.len() as int] == x);
    }
}

/// After the uses of a source were kept, every file that it includes leads back to it: a
/// change of the file is known to concern the source.
pub proof fn law_a_change_reaches_its_sources(
    g: GraphView,
    uri: Seq<char>,
    uses: Set<Seq<char>>,
    included: Seq<char>,
)
    requires
        registered(g),
        proper(g.parents),
        uses.finite(),
        in_order(uses).to_set() == uses,
        g.uses.contains_key(uri) ==> g.uses[uri].finite() && in_order(g.uses[uri]).to_set()
            == g.uses[uri],
        uses.contains(included),
    ensures
        reaches(stored_in(g, uri, uses).parents, included, uri),
        stored_in(g, uri, uses).uses.contains_key(uri),
{
    let rest = removed_from(g, uri);
    if g.uses.contains_key(uri) {
        let listed = in_order(g.uses[uri]);
        lemma_registered_without(g, uri, rest, listed, listed.len() as int);
    }
    let listed = in_order(uses);
    lemma_with_edges(rest.parents, listed, uri, listed.len() as int);
    assert(listed.take(listed.len() as int) =~= listed);
    assert(listed.to_set().contains(included));
    let parents = stored_in(g, uri, uses).parents;
    assert(edge(parents, included, uri));
    lemma_reaches_self(parents, included);
    lemma_reaches_step(parents, included, included, uri);
}

/// Once the uses of a source are kept, the source is known to take in exactly these, and what
/// other sources take in stays. Once they are forgotten, it is known to take in nothing.
pub proof fn law_the_graph_holds_what_sources_take_in(
    g: GraphView,
    uri: Seq<char>,
    uses: Set<Seq<char>>,
    included: Seq<char>,
    parent: Seq<char>,
)
    requires
        exact(g),
        proper(g.parents),
        uses.finite(),
        g.uses.contains_key(uri) ==> g.uses[uri].finite(),
    ensures
        edge(stored_in(g, uri, uses).parents, included, uri) <==> uses.contains(included),
        parent != uri ==> (edge(stored_in(g, uri, uses).parents, included, parent) <==> edge(
            g.parents,
            included,
            parent,
        )),
        !edge(removed_from(g, uri).parents, included, uri),
        parent != uri ==> (edge(removed_from(g, uri).parents, included, parent) <==> edge(
            g.parents,
            included,
            parent,
        )),
        stored_in(g, uri, uses).uses[uri] == uses,
        !removed_from(g, uri).uses.contains_key(uri),
{
    let rest = removed_from(g, uri);
    if g.uses.contains_key(uri) {
        let old = in_order(g.uses[uri]);
        lemma_finite_set_has_order(g.uses[uri]);
        lemma_without_edges(g.parents, old, uri, old.len() as int);
        assert(old.take(old.len() as int) =~= old);
        assert(old.to_set().contains(included) <==> g.uses[uri].contains(included));
        assert(edge(g.uses, uri, included) <==> g.uses[uri].contains(included));
        assert(edge(g.uses, uri, included) <==> edge(g.parents, included, uri));
    } else {
        assert(!edge(g.uses, uri, included));
        assert(edge(g.uses, uri, included) <==> edge(g.parents, included, uri));
    }
    assert(proper(rest.parents));
    let new = in_order(uses);
    lemma_finite_set_has_order(uses);
    lemma_with_edges(rest.parents, new, uri, new.len() as int);
    assert(new.take(new.len() as int) =~= new);
    assert(new.to_set().contains(included) <==> uses.contains(included));
    assert(edge(stored_in(g, uri, uses).parents, included, uri) <==> edge(
        rest.parents,
        included,
        uri,
    ) || new.contains(included));
    assert(edge(stored_in(g, uri, uses).parents, included, parent) <==> edge(
        rest.parents,
        included,
        parent,
    ) || (parent == uri && new.contains(included)));
}

/// Of an expansion the text of the source itself is kept, unless a file of the same name is
/// taken in, the texts of all files taken in, each under its name, and that these were taken in.
pub proof fn law_what_is_kept_of_an_expansion(
    uri: Seq<char>,
    key: KeyView,
    source: Seq<char>,
    expansion: Expansion,
    file: Seq<char>,
)
    ensures
        ({
            let record = record_of(uri, key, source, expansion);
            let taken_in = exists|i: int|
                0 <= i < expansion.dependencies@.len() && (
                #[trigger] expansion.dependencies@[i]).uri@ == file;
            &&& record.context_key == key && record.physical_source == source && record.expanded
                == expansion.text@ && record.complete == expansion.complete
            &&& record.dependencies.contains(file) <==> taken_in
            &&& record.source_texts.contains_key(file) <==> taken_in || file == uri
            &&& !taken_in && file == uri ==> record.source_texts[file] == source
            &&& taken_in ==> exists|i: int|
                0 <= i < expansion.dependencies@.len() && (
                #[trigger] expansion.dependencies@[i]).uri@ == file && record.source_texts[file]
                    == expansion.dependencies@[i].text@
        }),
{
    lemma_taken_in(
        uri,
        source,
        expansion.dependencies@,
        file,
        expansion.dependencies@.len() as int,
    );
}

proof fn lemma_taken_in(
    uri: Seq<char>,
    source: Seq<char>,
    dependencies: Seq<IncludeDependency>,
    file: Seq<char>,
    n: int,
)
    requires
        0 <= n <= dependencies.len(),
    ensures
        ({
            let taken_in = exists|i: int|
                0 <= i < n && (#[trigger] dependencies[i]).uri@ == file;
            let texts = texts_with(uri, source, dependencies, n);
            &&& uris_of(dependencies, n).contains(file) <==> taken_in
            &&& texts.contains_key(file) <==> taken_in || file == uri
            &&& !taken_in && file == uri ==> texts[file] == source
            &&& taken_in ==> exists|i: int|
                0 <= i < n && (#[trigger] dependencies[i]).uri@ == file && texts[file]
                    == dependencies[i].text@
        }),
    decreases n,
{
    if n > 0 {
        lemma_taken_in(uri, source, dependencies, file, n - 1);
        let before = texts_with(uri, source, dependencies, n - 1);
        let after = texts_with(uri, source, dependencies, n);
        if dependencies[n - 1].uri@ == file {
            assert(after[file] == dependencies[n - 1].text@);
        } else {
            if exists|i: int| 0 <= i < n && (#[trigger] dependencies[i]).uri@ == file {
                let i = choose|i: int| 0 <= i < n && (#[trigger] dependencies[i]).uri@ == file;
                assert(dependencies[i].uri@ == file && i < n - 1);
                let k = choose|k: int|
                    0 <= k < n - 1 && (#[trigger] dependencies[k]).uri@ == file && before[file]
                        == dependencies[k].text@;
                assert(dependencies[k].uri@ == file);
            }
        }
    }
}

} // verus!
