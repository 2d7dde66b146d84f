//! How a place in a source is followed: through how many sources, and to which places.

use vstd::prelude::*;

use crate::includes::IncludeGraph;
use crate::keymap::Identity;
use crate::lint::referenced_context;
use crate::names::{extension_is, has_extension};
use crate::project::ProjectContext;
use crate::sorting::{drop_repeats, sort, sorted_list, views, without_repeats, Ordered};
use crate::strings::{
    concat, concat3, decimal, lemma_str_lt_order, same_str, str_before, str_lt, texts, to_decimal,
};
use crate::strmap::{in_order, lemma_take_set, StrSet};
use crate::text::{Position, Range};
use crate::uris::{file_path_of, uri_path};

verus! {

/// How many sources are loaded to follow one place.
pub const MAX_DEPENDENCY_WORK: usize = 256;

/// The sources that are loaded to follow a place, round by round.
#[derive(Debug)]
pub struct Frontier {
    /// Those of this round, in order.
    pub frontier: Vec<String>,
    /// How many of them were taken.
    pub at: usize,
    /// Those that they lead to.
    pub next: StrSet,
    pub visited: StrSet,
    pub initialized: StrSet,
    pub work: usize,
}

/// The sources that are loaded to follow a place.
#[verifier::ext_equal]
pub struct FrontierView {
    pub frontier: Seq<Seq<char>>,
    pub at: int,
    pub next: Set<Seq<char>>,
    pub visited: Set<Seq<char>>,
    pub initialized: Set<Seq<char>>,
    pub work: int,
}

impl View for Frontier {
    type V = FrontierView;

    open spec fn view(&self) -> FrontierView {
        FrontierView {
            frontier: texts(self.frontier@),
            at: self.at as int,
            next: self.next@,
            visited: self.visited@,
            initialized: self.initialized@,
            work: self.work as int,
        }
    }
}

/// The next source that is loaded: the first of the round that was not visited yet, while
/// there is work left.
pub open spec fn taken(v: FrontierView) -> (FrontierView, Option<Seq<char>>)
    decreases v.frontier.len() - v.at,
{
    if v.at < 0 || v.at >= v.frontier.len() || v.work >= MAX_DEPENDENCY_WORK {
        (v, None)
    } else {
        let current = v.frontier[v.at];
        let passed = FrontierView { at: v.at + 1, ..v };
        if v.visited.contains(current) {
            taken(passed)
        } else {
            (
                FrontierView {
                    visited: v.visited.insert(current),
                    work: v.work + 1,
                    ..passed
                },
                Some(current),
            )
        }
    }
}

/// Those of the first `n` dependencies that are met for the first time.
pub open spec fn newly_met(initialized: Set<Seq<char>>, dependencies: Seq<Seq<char>>, n: int) -> Seq<
    Seq<char>,
>
    decreases n,
{
    if n <= 0 {
        seq![]
    } else {
        let before = newly_met(initialized, dependencies, n - 1);
        let dependency = dependencies[n - 1];
        if initialized.contains(dependency) || dependencies.take(n - 1).contains(dependency) {
            before
        } else {
            before.push(dependency)
        }
    }
}

/// The round that follows: the sources that this one led to and that were not visited, in
/// the order of their URIs.
pub open spec fn next_round(v: FrontierView) -> FrontierView {
    FrontierView {
        frontier: in_order(v.next.difference(v.visited)),
        at: 0,
        next: Set::empty(),
        ..v
    }
}

pub open spec fn work_limit_text(uri: Seq<char>) -> Seq<char> {
    "dependency work limit ("@ + decimal(MAX_DEPENDENCY_WORK as nat) + ") reached while resolving "@
        + uri + "; result is incomplete"@
}

impl Frontier {
    /// No more sources are loaded than may be, and each only once.
    pub open spec fn wf(&self) -> bool {
        &&& self.visited@.finite()
        &&& self.work == self.visited@.len()
        &&& self.work <= MAX_DEPENDENCY_WORK
        &&& self.at <= self.frontier@.len()
    }

    /// The first round: the source itself.
    pub fn new(uri: &str) -> (r: Self)
        ensures
            r.wf(),
            r@ == (FrontierView {
                frontier: seq![uri@],
                at: 0,
                next: Set::empty(),
                visited: Set::empty(),
                initialized: set![uri@],
                work: 0,
            }),
    {
        let mut frontier: Vec<String> = Vec::new();
        frontier.push(uri.to_owned());
        let mut initialized = StrSet::new();
        let _added = initialized.insert(uri.to_owned());
        let r = Frontier {
            frontier,
            at: 0,
            next: StrSet::new(),
            visited: StrSet::new(),
            initialized,
            work: 0,
        };
        proof {
            assert(texts(r.frontier@) =~= seq![uri@]);
            assert(r@ =~= (FrontierView {
                frontier: seq![uri@],
                at: 0,
                next: Set::empty(),
                visited: Set::empty(),
                initialized: set![uri@],
                work: 0,
            }));
        }
        r
    }

    /// Whether there is another round.
    pub fn goes_on(&self) -> (r: bool)
        ensures
            r == (self@.frontier.len() > 0 && self@.work < MAX_DEPENDENCY_WORK),
    {
        proof {
            assert(texts(self.frontier@).len() == self.frontier@.len());
        }
        self.frontier.len() > 0 && self.work < MAX_DEPENDENCY_WORK
    }

    /// The next source that is loaded. A source is loaded only once.
    pub fn take(&mut self) -> (r: Option<String>)
        requires
            old(self).wf(),
        ensures
            final(self).wf(),
            (final(self)@, crate::uris::optional_text(r)) == taken(old(self)@),
            r is Some ==> !old(self)@.visited.contains(r->0@) && final(self)@.visited.contains(
                r->0@,
            ),
    {
        let ghost goal = taken(self@);
        while self.at < self.frontier.len() && self.work < MAX_DEPENDENCY_WORK
            invariant
                self.wf(),
                goal == taken(old(self)@),
                goal == taken(self@),
                self@.visited == old(self)@.visited,
            decreases self.frontier@.len() - self.at,
        {
            let current = self.frontier[self.at].clone();
            let ghost before = self@;
            proof {
                assert(before.frontier[before.at] == current@);
            }
            self.at = self.at + 1;
            if !self.visited.contains(current.as_str()) {
                let _added = self.visited.insert(current.clone());
                self.work = self.work + 1;
                proof {
                    assert(self@ =~= goal.0);
                }
                return Some(current);
            }
            proof {
                assert(self@ =~= (FrontierView { at: before.at + 1, ..before }));
            }
        }
        None
    }

    /// Notes what a source leads to. Returns what is met for the first time.
    pub fn lead_to(&mut self, dependencies: &Vec<String>) -> (r: Vec<String>)
        requires
            old(self).wf(),
        ensures
            final(self).wf(),
            texts(r@) == newly_met(
                old(self)@.initialized,
                texts(dependencies@),
                dependencies@.len() as int,
            ),
            final(self)@ == (FrontierView {
                next: old(self)@.next.union(texts(dependencies@).to_set()),
                initialized: old(self)@.initialized.union(texts(dependencies@).to_set()),
                ..old(self)@
            }),
    {
        let ghost start = self@;
        let ghost list = texts(dependencies@);
        let mut met: Vec<String> = Vec::new();
        let mut i: usize = 0;
        proof {
            assert(texts(met@) =~= seq![]);
            assert(list.take(0).to_set() =~= Set::empty());
            assert(self@ =~= (FrontierView {
                next: start.next.union(list.take(0).to_set()),
                initialized: start.initialized.union(list.take(0).to_set()),
                ..start
            }));
        }
        while i < dependencies.len()
            invariant
                i <= dependencies@.len(),
                self.wf(),
                list == texts(dependencies@),
                texts(met@) == newly_met(start.initialized, list, i as int),
                self@ == (FrontierView {
                    next: start.next.union(list.take(i as int).to_set()),
                    initialized: start.initialized.union(list.take(i as int).to_set()),
                    ..start
                }),
            decreases dependencies@.len() - i,
        {
            let dependency = &dependencies[i];
            let ghost before = self@;
            proof {
                assert(list[i as int] == dependency@);
                lemma_take_set(list, i as int);
                assert(list.take(i as int).to_set().contains(dependency@) <==> list.take(
                    i as int,
                ).contains(dependency@));
            }
            let new = self.initialized.insert(dependency.clone());
            let _added = self.next.insert(dependency.clone());
            if new {
                let ghost held = met@;
                met.push(dependency.clone());
                proof {
                    assert(texts(met@) =~= texts(held).push(dependency@));
                }
            }
            proof {
                assert(self@ =~= (FrontierView {
                    next: start.next.union(list.take(i + 1).to_set()),
                    initialized: start.initialized.union(list.take(i + 1).to_set()),
                    ..start
                }));
            }
            i += 1;
        }
        proof {
            assert(list.take(list.len() as int) =~= list);
        }
        met
    }

    /// Ends the round.
    pub fn end_round(&mut self)
        requires
            old(self).wf(),
        ensures
            final(self).wf(),
            final(self)@ == next_round(old(self)@),
    {
        let ghost before = self@;
        let mut next = StrSet::new();
        std::mem::swap(&mut next, &mut self.next);
        let n: usize = next.len();
        let ghost members = next.members();
        let mut kept = StrSet::new();
        let mut i: usize = 0;
        proof {
            assert(members.take(0).to_set() =~= Set::empty());
            assert(kept@ =~= members.take(0).to_set().difference(before.visited));
        }
        while i < n
            invariant
                i <= n,
                n == members.len(),
                members == next.members(),
                self.visited@ == before.visited,
                kept@ == members.take(i as int).to_set().difference(before.visited),
            decreases n - i,
        {
            let member = next.at(i);
            proof {
                lemma_take_set(members, i as int);
            }
            if !self.visited.contains(member.as_str()) {
                let _added = kept.insert(member.clone());
            }
            proof {
                assert(kept@ =~= members.take(i + 1).to_set().difference(before.visited));
            }
            i += 1;
        }
        proof {
            assert(members.take(n as int) =~= members);
        }
        let count: usize = kept.len();
        self.frontier = kept.list();
        self.at = 0;
        proof {
            assert(self@ =~= next_round(before));
        }
    }

    /// What is said where the work was not enough.
    pub fn limit_warning(&self, uri: &str) -> (r: Option<String>)
        ensures
            crate::uris::optional_text(r) == (if self@.work >= MAX_DEPENDENCY_WORK {
                Some(work_limit_text(uri@))
            } else {
                None
            }),
    {
        if self.work >= MAX_DEPENDENCY_WORK {
            let head = concat3(
                "dependency work limit (",
                to_decimal(MAX_DEPENDENCY_WORK).as_str(),
                ") reached while resolving ",
            );
            Some(concat3(head.as_str(), uri, "; result is incomplete"))
        } else {
            None
        }
    }
}

/// A place in a source.
#[derive(Debug)]
pub struct QueryPosition {
    pub uri: String,
    pub position: Position,
}

/// A place in a source.
pub struct QueryView {
    pub uri: Seq<char>,
    pub position: Position,
}

impl View for QueryPosition {
    type V = QueryView;

    open spec fn view(&self) -> QueryView {
        QueryView { uri: self.uri@, position: self.position }
    }
}

/// The first position comes before the other.
pub open spec fn position_before(a: Position, b: Position) -> bool {
    a.line < b.line || (a.line == b.line && a.character < b.character)
}

/// The first place comes before the other: by the document, then by the position.
pub open spec fn place_before(a: Seq<char>, p: Position, b: Seq<char>, q: Position) -> bool {
    str_lt(a, b) || (a == b && position_before(p, q))
}

proof fn lemma_place_order(
    a: Seq<char>,
    p: Position,
    b: Seq<char>,
    q: Position,
    c: Seq<char>,
    o: Position,
)
    ensures
        !place_before(a, p, a, p),
        place_before(a, p, b, q) && place_before(b, q, c, o) ==> place_before(a, p, c, o),
        !place_before(a, p, b, q) && !place_before(b, q, c, o) ==> !place_before(a, p, c, o),
{
    lemma_str_lt_order(a, b, c);
    lemma_str_lt_order(b, a, c);
    lemma_str_lt_order(c, b, a);
    lemma_str_lt_order(b, c, a);
    lemma_str_lt_order(a, c, b);
    lemma_str_lt_order(c, a, b);
    lemma_str_lt_order(a, a, a);
}

fn is_place_before(a: &str, p: Position, b: &str, q: Position) -> (r: bool)
    ensures
        r == place_before(a@, p, b@, q),
{
    if str_before(a, b) {
        return true;
    }
    same_str(a, b) && (p.line < q.line || (p.line == q.line && p.character < q.character))
}

impl Ordered for QueryPosition {
    open spec fn precedes(a: QueryView, b: QueryView) -> bool {
        place_before(a.uri, a.position, b.uri, b.position)
    }

    proof fn lemma_order(a: QueryView, b: QueryView, c: QueryView) {
        lemma_place_order(a.uri, a.position, b.uri, b.position, c.uri, c.position);
    }

    fn is_before(&self, other: &Self) -> (r: bool) {
        is_place_before(self.uri.as_str(), self.position, other.uri.as_str(), other.position)
    }
}

impl Identity for QueryPosition {
    fn same_as(&self, other: &Self) -> (r: bool) {
        same_str(self.uri.as_str(), other.uri.as_str()) && self.position == other.position
    }

    fn duplicate(&self) -> (r: Self) {
        QueryPosition { uri: self.uri.clone(), position: self.position }
    }
}

/// Where a place in a source shows up in an expanded source: whether at all, and at which
/// positions.
#[derive(Debug)]
pub struct RootPlaces {
    pub uri: String,
    /// The expansion was carried to its end.
    pub complete: bool,
    /// The place lies in the expanded text.
    pub mapped: bool,
    pub positions: Vec<Position>,
}

/// The first `n` positions in a source.
pub open spec fn places_in(uri: Seq<char>, positions: Seq<Position>, n: int) -> Seq<QueryView>
    decreases n,
{
    if n <= 0 {
        seq![]
    } else {
        places_in(uri, positions, n - 1).push(QueryView { uri, position: positions[n - 1] })
    }
}

/// The places in the first `n` expanded sources that were expanded to their end.
pub open spec fn expanded_places(roots: Seq<RootPlaces>, n: int) -> Seq<QueryView>
    decreases n,
{
    if n <= 0 {
        seq![]
    } else if roots[n - 1].complete {
        expanded_places(roots, n - 1) + places_in(
            roots[n - 1].uri@,
            roots[n - 1].positions@,
            roots[n - 1].positions@.len() as int,
        )
    } else {
        expanded_places(roots, n - 1)
    }
}

/// The place lies in one of the expanded sources.
pub open spec fn mapped_somewhere(roots: Seq<RootPlaces>) -> bool {
    exists|i: int| 0 <= i < roots.len() && (#[trigger] roots[i]).mapped
}

/// The places at which a place in a source is looked up: in the sources that include it, or
/// in itself where none does.
pub open spec fn lookup_places(
    uri: Seq<char>,
    position: Position,
    roots: Seq<RootPlaces>,
    indexed: bool,
) -> Seq<QueryView> {
    let found = expanded_places(roots, roots.len() as int);
    let all = if found.len() == 0 && !mapped_somewhere(roots) && indexed {
        seq![QueryView { uri, position }]
    } else {
        found
    };
    let sorted = sorted_list::<QueryPosition>(all);
    without_repeats(sorted, sorted.len() as int)
}

/// The places at which a place in a source is looked up.
pub fn virtual_query_positions(
    uri: &str,
    position: Position,
    roots: &Vec<RootPlaces>,
    indexed: bool,
) -> (r: Vec<QueryPosition>)
    ensures
        views(r@) == lookup_places(uri@, position, roots@, indexed),
{
    let mut list: Vec<QueryPosition> = Vec::new();
    let mut mapped = false;
    let mut i: usize = 0;
    proof {
        assert(views(list@) =~= seq![]);
    }
    while i < roots.len()
        invariant
            i <= roots@.len(),
            mapped == exists|j: int| 0 <= j < i && (#[trigger] roots@[j]).mapped,
            views(list@) == expanded_places(roots@, i as int),
        decreases roots@.len() - i,
    {
        let root = &roots[i];
        if root.mapped {
            mapped = true;
        }
        if root.complete {
            let ghost start = views(list@);
            let mut k: usize = 0;
            proof {
                assert(start + places_in(root.uri@, root.positions@, 0) =~= start);
            }
            while k < root.positions.len()
                invariant
                    k <= root.positions@.len(),
                    views(list@) == start + places_in(root.uri@, root.positions@, k as int),
                decreases root.positions@.len() - k,
            {
                let ghost held = list@;
                let place = QueryPosition { uri: root.uri.clone(), position: root.positions[k] };
                list.push(place);
                proof {
                    assert(views(list@) =~= views(held).push(place@));
                    assert(views(list@) =~= start + places_in(
                        root.uri@,
                        root.positions@,
                        k + 1,
                    ));
                }
                k += 1;
            }
        }
        i += 1;
    }
    proof {
        assert(views(list@).len() == list@.len());
    }
    if list.len() == 0 && !mapped && indexed {
        let ghost held = list@;
        let place = QueryPosition { uri: uri.to_owned(), position };
        list.push(place);
        proof {
            assert(views(list@) =~= seq![place@]);
        }
    }
    let sorted = sort(list);
    proof {
        assert(views(sorted@).len() == sorted@.len());
    }
    drop_repeats(&sorted)
}

/// A range of a source.
#[derive(Debug)]
pub struct Location {
    pub uri: String,
    pub range: Range,
}

/// A range of a source.
pub struct LocationView {
    pub uri: Seq<char>,
    pub range: Range,
}

impl View for Location {
    type V = LocationView;

    open spec fn view(&self) -> LocationView {
        LocationView { uri: self.uri@, range: self.range }
    }
}

impl Ordered for Location {
    open spec fn precedes(a: LocationView, b: LocationView) -> bool {
        place_before(a.uri, a.range.start, b.uri, b.range.start)
    }

    proof fn lemma_order(a: LocationView, b: LocationView, c: LocationView) {
        lemma_place_order(a.uri, a.range.start, b.uri, b.range.start, c.uri, c.range.start);
    }

    fn is_before(&self, other: &Self) -> (r: bool) {
        is_place_before(
            self.uri.as_str(),
            self.range.start,
            other.uri.as_str(),
            other.range.start,
        )
    }
}

impl Identity for Location {
    fn same_as(&self, other: &Self) -> (r: bool) {
        same_str(self.uri.as_str(), other.uri.as_str()) && self.range == other.range
    }

    fn duplicate(&self) -> (r: Self) {
        Location { uri: self.uri.clone(), range: self.range }
    }
}

/// The locations in the order of their sources and beginnings, without those that repeat
/// the one before them.
pub open spec fn tidy(locations: Seq<LocationView>) -> Seq<LocationView> {
    let sorted = sorted_list::<Location>(locations);
    without_repeats(sorted, sorted.len() as int)
}

/// The locations in the order of their sources and beginnings, without those that repeat
/// the one before them.
pub fn map_navigation_locations(locations: Vec<Location>) -> (r: Vec<Location>)
    ensures
        views(r@) == tidy(views(locations@)),
{
    let sorted = sort(locations);
    proof {
        assert(views(sorted@).len() == sorted@.len());
    }
    drop_repeats(&sorted)
}

/// Where following a place stands.
#[derive(Clone, Copy, Debug, PartialEq, Eq, Structural)]
pub enum NavigationStage {
    Start,
    Owners,
    Load,
    Resolve,
    Revalidate,
    Done,
}

/// What is done next to follow a place.
#[derive(Debug)]
pub enum NavigationAction {
    Finish(Vec<Location>),
    Fail(String),
    /// The sources that include this one are looked for.
    FindOwners,
    /// The source is loaded.
    Load,
    /// The place is looked up, in as many sources as may be loaded for it.
    Resolve,
    /// The sources that were used are looked at again.
    Revalidate,
}

/// What is done next to follow a place.
pub enum NavigationActionView {
    Finish(Seq<LocationView>),
    Fail(Seq<char>),
    FindOwners,
    Load,
    Resolve,
    Revalidate,
}

impl View for NavigationAction {
    type V = NavigationActionView;

    open spec fn view(&self) -> NavigationActionView {
        match self {
            NavigationAction::Finish(list) => NavigationActionView::Finish(views(list@)),
            NavigationAction::Fail(reason) => NavigationActionView::Fail(reason@),
            NavigationAction::FindOwners => NavigationActionView::FindOwners,
            NavigationAction::Load => NavigationActionView::Load,
            NavigationAction::Resolve => NavigationActionView::Resolve,
            NavigationAction::Revalidate => NavigationActionView::Revalidate,
        }
    }
}

/// How often a place is looked up while its sources change.
pub const MAX_NAVIGATION_ATTEMPTS: usize = 2;

/// Following a place.
#[derive(Debug)]
pub struct NavigationRun {
    pub uri: String,
    pub stage: NavigationStage,
    pub attempts: usize,
    pub found: Vec<Location>,
}

/// Following a place.
pub struct NavigationView {
    pub uri: Seq<char>,
    pub stage: NavigationStage,
    pub attempts: int,
    pub found: Seq<LocationView>,
}

impl View for NavigationRun {
    type V = NavigationView;

    open spec fn view(&self) -> NavigationView {
        NavigationView {
            uri: self.uri@,
            stage: self.stage,
            attempts: self.attempts as int,
            found: views(self.found@),
        }
    }
}

pub open spec fn at_navigation_stage(run: NavigationView, stage: NavigationStage) -> NavigationView {
    NavigationView { stage, ..run }
}

pub open spec fn navigation_failed(run: NavigationView, reason: Seq<char>) -> (
    NavigationView,
    NavigationActionView,
) {
    (at_navigation_stage(run, NavigationStage::Done), NavigationActionView::Fail(reason))
}

pub open spec fn navigation_finished(run: NavigationView, found: Seq<LocationView>) -> (
    NavigationView,
    NavigationActionView,
) {
    (at_navigation_stage(run, NavigationStage::Done), NavigationActionView::Finish(found))
}

/// Several sources include this one.
pub open spec fn many_owners(parents: Map<Seq<char>, Set<Seq<char>>>, uri: Seq<char>) -> bool {
    parents.contains_key(uri) && parents[uri].len() > 1
}

pub open spec fn ambiguous_text(uri: Seq<char>) -> Seq<char> {
    "include source has ambiguous owning roots: "@ + uri
}

/// The source is one that others include.
pub open spec fn is_include_source(uri: Seq<char>) -> bool {
    uri_path(uri) is Some && has_extension(uri_path(uri)->0, "inc"@)
}

/// The first step: nothing is followed in a project that is not in order or in a source
/// that may not be read; of an include file it has to be known who includes it.
pub open spec fn navigation_begun(
    run: NavigationView,
    context: Option<ProjectContext>,
    supported: bool,
    parents: Map<Seq<char>, Set<Seq<char>>>,
) -> (NavigationView, NavigationActionView) {
    if context is Some && context->0.selection_invalid {
        navigation_failed(
            run,
            "project selection is invalid; navigation is unavailable for "@ + run.uri,
        )
    } else if context is Some && context->0.override_error is Some {
        navigation_failed(
            run,
            "project override configuration is invalid; navigation is unavailable for "@ + run.uri,
        )
    } else if !supported {
        navigation_finished(run, seq![])
    } else if !is_include_source(run.uri) {
        (at_navigation_stage(run, NavigationStage::Load), NavigationActionView::Load)
    } else if many_owners(parents, run.uri) {
        navigation_failed(run, ambiguous_text(run.uri))
    } else {
        (at_navigation_stage(run, NavigationStage::Owners), NavigationActionView::FindOwners)
    }
}

/// The step once the sources that include this one were looked for.
pub open spec fn navigation_owned(
    run: NavigationView,
    complete: bool,
    parents: Map<Seq<char>, Set<Seq<char>>>,
) -> (NavigationView, NavigationActionView) {
    if !complete {
        navigation_failed(
            run,
            "include owner discovery was incomplete for "@ + run.uri
                + "; refusing contextual navigation"@,
        )
    } else if many_owners(parents, run.uri) {
        navigation_failed(run, ambiguous_text(run.uri))
    } else {
        (at_navigation_stage(run, NavigationStage::Load), NavigationActionView::Load)
    }
}

/// The step once the source was loaded.
pub open spec fn navigation_loaded(run: NavigationView, loaded: bool) -> (
    NavigationView,
    NavigationActionView,
) {
    if loaded {
        (at_navigation_stage(run, NavigationStage::Resolve), NavigationActionView::Resolve)
    } else {
        navigation_finished(run, seq![])
    }
}

/// The step once the place was looked up.
pub open spec fn navigation_resolved(run: NavigationView, found: Seq<LocationView>) -> (
    NavigationView,
    NavigationActionView,
) {
    (
        NavigationView {
            stage: NavigationStage::Revalidate,
            attempts: run.attempts + 1,
            found,
            ..run
        },
        NavigationActionView::Revalidate,
    )
}

/// The last step: what was found holds where no source changed meanwhile.
pub open spec fn navigation_revalidated(run: NavigationView, changed: bool) -> (
    NavigationView,
    NavigationActionView,
) {
    if !changed {
        navigation_finished(NavigationView { found: seq![], ..run }, run.found)
    } else if run.attempts < MAX_NAVIGATION_ATTEMPTS {
        (at_navigation_stage(run, NavigationStage::Resolve), NavigationActionView::Resolve)
    } else {
        navigation_failed(
            run,
            "navigation source changed repeatedly while resolving "@ + run.uri
                + "; result is incomplete"@,
        )
    }
}

fn has_many_owners(graph: &IncludeGraph, uri: &str) -> (r: bool)
    ensures
        r == many_owners(graph.parents.deep(), uri@),
{
    match graph.parents.get(uri) {
        Some(parents) => parents.len() > 1,
        None => false,
    }
}

impl NavigationRun {
    /// Following a place in a source, before the first step.
    pub fn new(uri: &str) -> (r: Self)
        ensures
            r@ == (NavigationView {
                uri: uri@,
                stage: NavigationStage::Start,
                attempts: 0,
                found: seq![],
            }),
    {
        let r = NavigationRun {
            uri: uri.to_owned(),
            stage: NavigationStage::Start,
            attempts: 0,
            found: Vec::new(),
        };
        proof {
            assert(views(r.found@) =~= seq![]);
        }
        r
    }

    fn fail(&mut self, reason: String) -> (r: NavigationAction)
        ensures
            (final(self)@, r@) == navigation_failed(old(self)@, reason@),
    {
        self.stage = NavigationStage::Done;
        NavigationAction::Fail(reason)
    }

    fn finish(&mut self, found: Vec<Location>) -> (r: NavigationAction)
        ensures
            (final(self)@, r@) == navigation_finished(old(self)@, views(found@)),
    {
        self.stage = NavigationStage::Done;
        NavigationAction::Finish(found)
    }

    fn finish_empty(&mut self) -> (r: NavigationAction)
        ensures
            (final(self)@, r@) == navigation_finished(old(self)@, seq![]),
    {
        let none: Vec<Location> = Vec::new();
        proof {
            assert(views(none@) =~= seq![]);
        }
        self.finish(none)
    }

    /// The first step. `supported` says that the source may be read.
    pub fn begin(
        &mut self,
        context: Option<&ProjectContext>,
        supported: bool,
        graph: &IncludeGraph,
    ) -> (r: NavigationAction)
        requires
            old(self).stage == NavigationStage::Start,
        ensures
            (final(self)@, r@) == navigation_begun(
                old(self)@,
                referenced_context(context),
                supported,
                graph.parents.deep(),
            ),
    {
        if let Some(context) = context {
            if context.selection_invalid {
                let reason = concat(
                    "project selection is invalid; navigation is unavailable for ",
                    self.uri.as_str(),
                );
                return self.fail(reason);
            }
            if context.override_error.is_some() {
                let reason = concat(
                    "project override configuration is invalid; navigation is unavailable for ",
                    self.uri.as_str(),
                );
                return self.fail(reason);
            }
        }
        if !supported {
            return self.finish_empty();
        }
        let included = match file_path_of(self.uri.as_str()) {
            Some(path) => extension_is(&path, "inc"),
            None => false,
        };
        if !included {
            self.stage = NavigationStage::Load;
            return NavigationAction::Load;
        }
        if has_many_owners(graph, self.uri.as_str()) {
            let reason = concat("include source has ambiguous owning roots: ", self.uri.as_str());
            return self.fail(reason);
        }
        self.stage = NavigationStage::Owners;
        NavigationAction::FindOwners
    }

    /// Goes on once the sources that include this one were looked for.
    pub fn owners_found(&mut self, complete: bool, graph: &IncludeGraph) -> (r: NavigationAction)
        requires
            old(self).stage == NavigationStage::Owners,
        ensures
            (final(self)@, r@) == navigation_owned(old(self)@, complete, graph.parents.deep()),
    {
        if !complete {
            let reason = concat3(
                "include owner discovery was incomplete for ",
                self.uri.as_str(),
                "; refusing contextual navigation",
            );
            return self.fail(reason);
        }
        if has_many_owners(graph, self.uri.as_str()) {
            let reason = concat("include source has ambiguous owning roots: ", self.uri.as_str());
            return self.fail(reason);
        }
        self.stage = NavigationStage::Load;
        NavigationAction::Load
    }

    /// Goes on once the source was loaded.
    pub fn loaded(&mut self, loaded: bool) -> (r: NavigationAction)
        requires
            old(self).stage == NavigationStage::Load,
        ensures
            (final(self)@, r@) == navigation_loaded(old(self)@, loaded),
    {
        if !loaded {
            return self.finish_empty();
        }
        self.stage = NavigationStage::Resolve;
        NavigationAction::Resolve
    }

    /// Goes on once the place was looked up.
    pub fn resolved(&mut self, found: Vec<Location>) -> (r: NavigationAction)
        requires
            old(self).stage == NavigationStage::Resolve,
            old(self).attempts < MAX_NAVIGATION_ATTEMPTS,
        ensures
            (final(self)@, r@) == navigation_resolved(old(self)@, views(found@)),
    {
        self.stage = NavigationStage::Revalidate;
        self.attempts = self.attempts + 1;
        self.found = found;
        NavigationAction::Revalidate
    }

    /// Ends, or goes on with another attempt where a source changed meanwhile.
    pub fn revalidated(&mut self, changed: bool) -> (r: NavigationAction)
        requires
            old(self).stage == NavigationStage::Revalidate,
        ensures
            (final(self)@, r@) == navigation_revalidated(old(self)@, changed),
    {
        if !changed {
            let mut found: Vec<Location> = Vec::new();
            std::mem::swap(&mut found, &mut self.found);
            proof {
                assert(views(self.found@) =~= seq![]);
            }
            return self.finish(found);
        }
        if self.attempts < MAX_NAVIGATION_ATTEMPTS {
            self.stage = NavigationStage::Resolve;
            return NavigationAction::Resolve;
        }
        let reason = concat3(
            "navigation source changed repeatedly while resolving ",
            self.uri.as_str(),
            "; result is incomplete",
        );
        self.fail(reason)
    }
}

} // verus!
