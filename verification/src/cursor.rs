//! A stream of the documents for which something has been reported, one small step at
//! a time.

use vstd::prelude::*;

use crate::documents::{OpenDocuments, MAX_REJECTED_OPEN_FENCE_URIS};
use crate::publications::{Publications, Report, Reports, MAX_PUBLISHED_DIAGNOSTIC_URI_BYTES};
use crate::strings::{byte_len, byte_length, lemma_str_lt_order, str_before, str_lt, texts};
use crate::strmap::{sorted_keys, StrMap, StrSet};
use crate::sums::{lemma_sum_insert, map_sum};

verus! {

/// What one step of the cursor came to.
#[derive(Debug)]
pub enum DiagnosticPublicationCursorStep {
    /// A document that had not come before.
    Target(String),
    /// The step did work, but there is no document to show for it.
    Skipped,
    /// There are no more documents.
    Exhausted,
}

/// What happens to a cursor: a step brings a document forward, or shows none, or finds that
/// there are no more; or a document is added, or refused.
pub enum CursorEvent {
    Came(Seq<char>),
    Passed,
    Ended,
    Added(Seq<char>),
    Refused(Seq<char>),
}

impl View for DiagnosticPublicationCursorStep {
    type V = CursorEvent;

    open spec fn view(&self) -> CursorEvent {
        match self {
            DiagnosticPublicationCursorStep::Target(uri) => CursorEvent::Came(uri@),
            DiagnosticPublicationCursorStep::Skipped => CursorEvent::Passed,
            DiagnosticPublicationCursorStep::Exhausted => CursorEvent::Ended,
        }
    }
}

/// The documents of one report that are still to come, in order.
pub struct UriStream {
    pub uris: Vec<String>,
    pub next: usize,
}

impl UriStream {
    /// The documents that are still to come.
    pub open spec fn rest(&self) -> Seq<Seq<char>> {
        texts(self.uris@).skip(self.next as int)
    }

    pub open spec fn wf(&self) -> bool {
        self.next <= self.uris@.len() && sorted_keys(texts(self.uris@))
    }

    /// The next document.
    fn advance(&mut self) -> (r: Option<String>)
        requires
            old(self).wf(),
        ensures
            final(self).wf(),
            match r {
                Some(uri) => old(self).rest().len() > 0 && uri@ == old(self).rest()[0]
                    && final(self).rest() == old(self).rest().drop_first(),
                None => old(self).rest().len() == 0 && final(self).rest() == old(self).rest(),
            },
    {
        if self.next < self.uris.len() {
            let uri = self.uris[self.next].clone();
            proof {
                assert(texts(self.uris@)[self.next as int] == uri@);
                assert(texts(self.uris@).skip(self.next + 1) =~= texts(self.uris@).skip(
                    self.next as int,
                ).drop_first());
            }
            self.next += 1;
            Some(uri)
        } else {
            proof {
                assert(self.rest().len() == 0);
            }
            None
        }
    }
}

/// A document that one of the streams has brought forward.
pub struct FrontierEntry {
    pub uri: String,
    pub stream: usize,
}

/// A stream of the documents for which something has been reported, without
/// repetitions. Documents may be added while it runs.
pub struct DiagnosticPublicationUriCursor {
    /// The reports whose documents have not been looked at, each in order.
    pub waiting: Vec<UriStream>,
    pub streams: Vec<UriStream>,
    /// The first documents of the streams that have any.
    pub frontier: Vec<FrontierEntry>,
    pub late_targets: Vec<String>,
    pub late_next: usize,
    pub late_membership: StrSet,
    pub emitted_targets: StrSet,
}

pub open spec fn stream_holds(streams: Seq<UriStream>, uri: Seq<char>) -> bool {
    exists|i: int| 0 <= i < streams.len() && #[trigger] streams[i].rest().contains(uri)
}

pub open spec fn frontier_holds(frontier: Seq<FrontierEntry>, uri: Seq<char>) -> bool {
    exists|i: int| 0 <= i < frontier.len() && #[trigger] frontier[i].uri@ == uri
}

/// The number of documents that are still to come from streams.
pub open spec fn stream_work(streams: Seq<UriStream>) -> nat
    decreases streams.len(),
{
    if streams.len() == 0 {
        0
    } else {
        stream_work(streams.drop_last()) + streams.last().rest().len()
    }
}

proof fn lemma_stream_work_update(streams: Seq<UriStream>, i: int, s: UriStream)
    requires
        0 <= i < streams.len(),
    ensures
        stream_work(streams.update(i, s)) == stream_work(streams) - streams[i].rest().len()
            + s.rest().len(),
    decreases streams.len(),
{
    let n = streams.update(i, s);
    if i == streams.len() - 1 {
        assert(n.drop_last() =~= streams.drop_last());
    } else {
        lemma_stream_work_update(streams.drop_last(), i, s);
        assert(n.drop_last() =~= streams.drop_last().update(i, s));
    }
}

impl DiagnosticPublicationUriCursor {
    /// Every stream is in order, and what the frontier shows of a stream comes before
    /// what is left of it.
    pub open spec fn wf(&self) -> bool {
        &&& forall|i: int| 0 <= i < self.waiting@.len() ==> (#[trigger] self.waiting@[i]).wf()
        &&& forall|i: int| 0 <= i < self.streams@.len() ==> (#[trigger] self.streams@[i]).wf()
        &&& forall|i: int|
            0 <= i < self.frontier@.len() ==> (#[trigger] self.frontier@[i]).stream
                < self.streams@.len()
        &&& forall|i: int, uri: Seq<char>|
            0 <= i < self.frontier@.len() && #[trigger] self.streams@[(
            #[trigger] self.frontier@[i]).stream as int].rest().contains(uri) ==> str_lt(
                self.frontier@[i].uri@,
                uri,
            )
        &&& forall|s: int|
            0 <= s < self.streams@.len() && (#[trigger] self.streams@[s]).rest().len() > 0
                ==> exists|i: int|
                0 <= i < self.frontier@.len() && (#[trigger] self.frontier@[i]).stream == s
        &&& self.late_next <= self.late_targets@.len()
    }

    /// The document is still on its way.
    pub open spec fn holds(&self, uri: Seq<char>) -> bool {
        ||| stream_holds(self.waiting@, uri)
        ||| stream_holds(self.streams@, uri)
        ||| frontier_holds(self.frontier@, uri)
        ||| texts(self.late_targets@).skip(self.late_next as int).contains(uri)
    }

    /// The document is to be brought forward and has not been.
    pub open spec fn owes(&self, uri: Seq<char>) -> bool {
        self.holds(uri) && !self.emitted_targets@.contains(uri)
    }

    /// The document is still to come from a report that has been looked at.
    pub open spec fn ahead(&self, uri: Seq<char>) -> bool {
        stream_holds(self.streams@, uri) || frontier_holds(self.frontier@, uri)
    }

    /// A document may not be added: its URI is too long, it has come or been added before,
    /// or too many have been added.
    pub open spec fn refuses(&self, uri: Seq<char>) -> bool {
        ||| byte_len(uri) > MAX_PUBLISHED_DIAGNOSTIC_URI_BYTES
        ||| self.emitted_targets@.contains(uri)
        ||| self.late_membership@.contains(uri)
        ||| self.late_membership@.len() >= MAX_REJECTED_OPEN_FENCE_URIS
    }

    /// What an event makes of a cursor.
    pub open spec fn follows(before: Self, after: Self, event: CursorEvent) -> bool {
        &&& after.wf()
        &&& match event {
            CursorEvent::Came(uri) => {
                &&& before.owes(uri)
                &&& after.emitted_targets@ == before.emitted_targets@.insert(uri)
                &&& after.late_membership == before.late_membership
                &&& forall|u: Seq<char>| #[trigger]
                    after.owes(u) <==> before.owes(u) && u != uri
                &&& after.work() < before.work()
                &&& before.loaded() && after.loaded()
                &&& forall|u: Seq<char>| #[trigger] after.ahead(u) ==> before.ahead(u)
                &&& before.frontier@.len() > 0 ==> before.ahead(uri) && forall|u: Seq<char>|
                    before.ahead(u) ==> !#[trigger] str_lt(u, uri)
            },
            CursorEvent::Passed => {
                &&& after.emitted_targets@ == before.emitted_targets@
                &&& after.late_membership == before.late_membership
                &&& forall|u: Seq<char>| #[trigger] after.owes(u) <==> before.owes(u)
                &&& after.work() < before.work()
                &&& before.loaded() ==> after.loaded() && forall|u: Seq<char>| #[trigger]
                    after.ahead(u) ==> before.ahead(u)
            },
            CursorEvent::Ended => {
                &&& after == before
                &&& forall|u: Seq<char>| !#[trigger] before.owes(u)
                &&& before.work() == 0
            },
            CursorEvent::Added(uri) => {
                &&& !before.refuses(uri)
                &&& after.emitted_targets == before.emitted_targets
                &&& after.late_membership@ == before.late_membership@.insert(uri)
                &&& forall|u: Seq<char>| #[trigger]
                    after.owes(u) <==> before.owes(u) || u == uri
                &&& after.work() == before.work() + 1
                &&& after.waiting == before.waiting
                &&& after.streams == before.streams
                &&& after.frontier == before.frontier
            },
            CursorEvent::Refused(uri) => before.refuses(uri) && after == before,
        }
    }

    /// At most so many further steps bring a document or pass one over.
    pub open spec fn work(&self) -> nat {
        self.waiting@.len() + stream_work(self.waiting@) + stream_work(self.streams@)
            + self.frontier@.len() + (self.late_targets@.len() - self.late_next) as nat
    }

    /// Every report has been looked at.
    pub open spec fn loaded(&self) -> bool {
        self.waiting@.len() == 0
    }

    /// A cursor over the targets of all reports and the open documents, and one more
    /// document that comes at the end.
    pub fn new(reports: &StrMap<Reports>, open_documents: &OpenDocuments, extra: Option<String>) -> (r:
        Self)
        ensures
            r.wf(),
            r.emitted_targets@ == Set::<Seq<char>>::empty(),
            r.late_membership@ == (match extra {
                Some(uri) => Set::<Seq<char>>::empty().insert(uri@),
                None => Set::<Seq<char>>::empty(),
            }),
            forall|u: Seq<char>| #[trigger]
                r.owes(u) <==> {
                    ||| exists|root: Seq<char>| #[trigger]
                        reports.deep().contains_key(root) && reports.deep()[root].contains_key(u)
                    ||| open_documents@.contains_key(u)
                    ||| extra is Some && u == extra->0@
                },
            r.work() == reports.deep().dom().len() + 1 + target_count(reports.deep())
                + open_documents@.dom().len() + (if extra is Some {
                1int
            } else {
                0
            }),
            !r.loaded(),
    {
        let n = reports.len();
        let ghost keys = reports.keys();
        let ghost all = reports.deep();
        let mut waiting: Vec<UriStream> = Vec::new();
        let open = UriStream { uris: open_documents.documents.key_list(), next: 0 };
        let ghost open_view = open;
        proof {
            assert(open.rest() =~= texts(open.uris@));
            assert forall|u: Seq<char>| open.rest().contains(u) == open_documents@.contains_key(u) by {
                assert(texts(open.uris@).contains(u)
                    <==> open_documents.documents@.contains_key(u));
            }
            texts(open.uris@).unique_seq_to_set();
            assert(texts(open.uris@).to_set() =~= open_documents@.dom());
        }
        waiting.push(open);
        proof {
            assert(waiting@.drop_last() =~= Seq::<UriStream>::empty());
            assert(stream_work(waiting@.drop_last()) == 0);
        }
        let mut i: usize = 0;
        while i < n
            invariant
                keys == reports.keys(),
                all == reports.deep(),
                n == keys.len(),
                i <= n,
                waiting@.len() == i + 1,
                waiting@[0] == open_view,
                open_view.wf(),
                stream_work(waiting@) == open_documents@.dom().len() + targets_of(
                    all,
                    keys,
                    i as int,
                ),
                forall|j: int| 0 <= j < waiting@.len() ==> (#[trigger] waiting@[j]).wf(),
                forall|j: int, u: Seq<char>|
                    0 <= j < i ==> #[trigger] waiting@[j + 1].rest().contains(u)
                        == all[keys[j]].contains_key(u),
            decreases n - i,
        {
            let report = reports.value_at(i);
            let stream = UriStream { uris: report.targets.key_list(), next: 0 };
            let ghost view = stream;
            proof {
                assert(all[keys[i as int]] == report@);
                assert(stream.rest() =~= texts(stream.uris@));
                assert forall|u: Seq<char>| stream.rest().contains(u) == report@.contains_key(u) by {
                    assert(texts(stream.uris@).contains(u)
                        <==> report.targets@.contains_key(u));
                }
                texts(stream.uris@).unique_seq_to_set();
                assert(texts(stream.uris@).to_set() =~= report@.dom());
            }
            let ghost held = waiting@;
            waiting.push(stream);
            proof {
                assert(waiting@.drop_last() =~= held);
            }
            i += 1;
        }
        proof {
            assert(all.dom() =~= reports@.dom());
            lemma_targets_of(all, keys, n as int);
            assert(keys.take(n as int) =~= keys);
            assert(all.restrict(keys.to_set()) =~= all);
        }
        let mut late_targets: Vec<String> = Vec::new();
        let mut late_membership = StrSet::new();
        let ghost more = extra;
        match extra {
            Some(uri) => {
                let _added = late_membership.insert(uri.clone());
                late_targets.push(uri);
            },
            None => {},
        }
        let r = DiagnosticPublicationUriCursor {
            waiting,
            streams: Vec::new(),
            frontier: Vec::new(),
            late_targets,
            late_next: 0,
            late_membership,
            emitted_targets: StrSet::new(),
        };
        proof {
            assert(stream_work(r.streams@) == 0);
            let late = texts(r.late_targets@).skip(0);
            assert(late =~= texts(r.late_targets@));
            assert forall|u: Seq<char>| late.contains(u) <==> more is Some && u == more->0@ by {
                if more is Some {
                    assert(late[0] == more->0@);
                }
            }
            assert forall|u: Seq<char>| #[trigger] r.owes(u) <==> {
                ||| exists|root: Seq<char>| #[trigger]
                    all.contains_key(root) && all[root].contains_key(u)
                ||| open_documents@.contains_key(u)
                ||| more is Some && u == more->0@
            } by {
                if stream_holds(r.waiting@, u) {
                    let j = choose|j: int|
                        0 <= j < r.waiting@.len() && #[trigger] r.waiting@[j].rest().contains(u);
                    if j > 0 {
                        assert(r.waiting@[(j - 1) + 1].rest().contains(u)
                            == all[keys[j - 1]].contains_key(u));
                        assert(keys.contains(keys[j - 1]));
                        assert(all.contains_key(keys[j - 1]));
                    }
                }
                if exists|root: Seq<char>| #[trigger]
                    all.contains_key(root) && all[root].contains_key(u) {
                    let root = choose|root: Seq<char>| #[trigger]
                        all.contains_key(root) && all[root].contains_key(u);
                    assert(keys.contains(root));
                    let j = choose|j: int| 0 <= j < keys.len() && keys[j] == root;
                    assert(r.waiting@[j + 1].rest().contains(u) == all[keys[j]].contains_key(u));
                    assert(stream_holds(r.waiting@, u));
                }
                if open_documents@.contains_key(u) {
                    assert(r.waiting@[0].rest().contains(u));
                    assert(stream_holds(r.waiting@, u));
                }
            }
        }
        r
    }

    /// Adds a document, unless it has come or been added before, its URI is too long or
    /// too many have been added.
    pub fn add_late_target(&mut self, uri: String)
        requires
            old(self).wf(),
        ensures
            final(self).wf(),
            Self::follows(
                *old(self),
                *final(self),
                if old(self).refuses(uri@) {
                    CursorEvent::Refused(uri@)
                } else {
                    CursorEvent::Added(uri@)
                },
            ),
    {
        let ghost start = *self;
        if byte_length(uri.as_str()) > MAX_PUBLISHED_DIAGNOSTIC_URI_BYTES
            || self.emitted_targets.contains(uri.as_str()) || self.late_membership.contains(
            uri.as_str(),
        ) || self.late_membership.len() >= MAX_REJECTED_OPEN_FENCE_URIS {
            return;
        }
        let ghost k = uri@;
        let ghost before = texts(self.late_targets@).skip(self.late_next as int);
        let _added = self.late_membership.insert(uri.clone());
        self.late_targets.push(uri);
        proof {
            let after = texts(self.late_targets@).skip(self.late_next as int);
            assert(after =~= before.push(k));
            assert forall|u: Seq<char>| after.contains(u) <==> before.contains(u) || u == k by {
                if before.contains(u) {
                    let i = choose|i: int| 0 <= i < before.len() && before[i] == u;
                    assert(after[i] == u);
                }
                if u == k {
                    assert(after[before.len() as int] == k);
                }
            }
            assert forall|u: Seq<char>| #[trigger] self.owes(u) <==> start.owes(u) || u
                == k by {
                assert(self.holds(u) <==> start.holds(u) || u == k);
            }
        }
    }

    /// The entry of the frontier whose document comes first.
    fn first_of_frontier(&self) -> (r: usize)
        requires
            self.frontier@.len() > 0,
        ensures
            r < self.frontier@.len(),
            forall|i: int|
                0 <= i < self.frontier@.len() ==> !str_lt(
                    (#[trigger] self.frontier@[i]).uri@,
                    self.frontier@[r as int].uri@,
                ),
    {
        let mut best: usize = 0;
        let mut i: usize = 1;
        proof {
            lemma_str_lt_order(
                self.frontier@[0].uri@,
                self.frontier@[0].uri@,
                self.frontier@[0].uri@,
            );
        }
        while i < self.frontier.len()
            invariant
                1 <= i <= self.frontier@.len(),
                best < i,
                forall|j: int|
                    0 <= j < i ==> !str_lt(
                        (#[trigger] self.frontier@[j]).uri@,
                        self.frontier@[best as int].uri@,
                    ),
            decreases self.frontier@.len() - i,
        {
            if str_before(self.frontier[i].uri.as_str(), self.frontier[best].uri.as_str()) {
                proof {
                    assert forall|j: int| 0 <= j <= i implies !str_lt(
                        (#[trigger] self.frontier@[j]).uri@,
                        self.frontier@[i as int].uri@,
                    ) by {
                        lemma_str_lt_order(
                            self.frontier@[j].uri@,
                            self.frontier@[i as int].uri@,
                            self.frontier@[best as int].uri@,
                        );
                    }
                }
                best = i;
            }
            i += 1;
        }
        best
    }

    fn emit(&mut self, uri: String) -> (r: DiagnosticPublicationCursorStep)
        ensures
            final(self).waiting == old(self).waiting,
            final(self).streams == old(self).streams,
            final(self).frontier == old(self).frontier,
            final(self).late_targets == old(self).late_targets,
            final(self).late_next == old(self).late_next,
            final(self).late_membership == old(self).late_membership,
            final(self).emitted_targets@ == old(self).emitted_targets@.insert(uri@),
            match r {
                DiagnosticPublicationCursorStep::Target(target) => target@ == uri@ && !old(
                    self,
                ).emitted_targets@.contains(uri@),
                DiagnosticPublicationCursorStep::Skipped => old(self).emitted_targets@.contains(
                    uri@,
                ),
                DiagnosticPublicationCursorStep::Exhausted => false,
            },
    {
        if self.emitted_targets.insert(uri.clone()) {
            DiagnosticPublicationCursorStep::Target(uri)
        } else {
            DiagnosticPublicationCursorStep::Skipped
        }
    }

    /// Opens the stream of one more report.
    fn open_stream(&mut self)
        requires
            old(self).wf(),
            old(self).waiting@.len() > 0,
        ensures
            final(self).wf(),
            final(self).emitted_targets == old(self).emitted_targets,
            final(self).late_membership == old(self).late_membership,
            forall|u: Seq<char>| #[trigger] final(self).holds(u) <==> old(self).holds(u),
            final(self).work() < old(self).work(),
    {
        let ghost before = *self;
        let mut stream = match self.waiting.pop() {
            Some(stream) => stream,
            None => {
                return;
            },
        };
        let ghost opened = stream;
        let index: usize = self.streams.len();
        let first = stream.advance();
        let ghost advanced = stream;
        match first {
            Some(uri) => {
                self.frontier.push(FrontierEntry { uri, stream: index });
            },
            None => {},
        }
        self.streams.push(stream);
        proof {
            assert(before.waiting@ =~= self.waiting@.push(opened));
            assert(before.waiting@.drop_last() =~= self.waiting@);
            assert(self.streams@ =~= before.streams@.push(advanced));
            assert(self.streams@.drop_last() =~= before.streams@);
            assert forall|u: Seq<char>| #[trigger] self.holds(u) <==> before.holds(u) by {
                if stream_holds(before.waiting@, u) {
                    let i = choose|i: int|
                        0 <= i < before.waiting@.len()
                            && #[trigger] before.waiting@[i].rest().contains(u);
                    if i < self.waiting@.len() {
                        assert(self.waiting@[i].rest().contains(u));
                    } else {
                        let k = choose|k: int| 0 <= k < opened.rest().len() && opened.rest()[k] == u;
                        if k == 0 {
                            assert(self.frontier@.last().uri@ == u);
                        } else {
                            assert(advanced.rest()[k - 1] == u);
                            assert(self.streams@[index as int].rest().contains(u));
                        }
                    }
                }
                if stream_holds(before.streams@, u) {
                    let i = choose|i: int|
                        0 <= i < before.streams@.len()
                            && #[trigger] before.streams@[i].rest().contains(u);
                    assert(self.streams@[i].rest().contains(u));
                }
                if frontier_holds(before.frontier@, u) {
                    let i = choose|i: int|
                        0 <= i < before.frontier@.len() && #[trigger] before.frontier@[i].uri@ == u;
                    assert(self.frontier@[i].uri@ == u);
                }
                if stream_holds(self.waiting@, u) {
                    let i = choose|i: int|
                        0 <= i < self.waiting@.len()
                            && #[trigger] self.waiting@[i].rest().contains(u);
                    assert(before.waiting@[i].rest().contains(u));
                }
                if stream_holds(self.streams@, u) {
                    let i = choose|i: int|
                        0 <= i < self.streams@.len()
                            && #[trigger] self.streams@[i].rest().contains(u);
                    if i < index {
                        assert(before.streams@[i].rest().contains(u));
                    } else {
                        let k = choose|k: int|
                            0 <= k < advanced.rest().len() && advanced.rest()[k] == u;
                        if first is Some {
                            assert(opened.rest()[k + 1] == u);
                        }
                        assert(opened.rest().contains(u));
                        assert(before.waiting@[self.waiting@.len() as int].rest().contains(u));
                    }
                }
                if frontier_holds(self.frontier@, u) {
                    let i = choose|i: int|
                        0 <= i < self.frontier@.len() && #[trigger] self.frontier@[i].uri@ == u;
                    if i < before.frontier@.len() {
                        assert(before.frontier@[i].uri@ == u);
                    } else {
                        assert(opened.rest()[0] == u);
                        assert(opened.rest().contains(u));
                        assert(before.waiting@[self.waiting@.len() as int].rest().contains(u));
                    }
                }
            }
            assert forall|i: int, uri: Seq<char>|
                0 <= i < self.frontier@.len() && #[trigger] self.streams@[(
                #[trigger] self.frontier@[i]).stream as int].rest().contains(uri) implies str_lt(
                self.frontier@[i].uri@,
                uri,
            ) by {
                if i < before.frontier@.len() {
                    let s = before.frontier@[i].stream as int;
                    assert(before.streams@[s].rest().contains(uri));
                } else {
                    let k = choose|k: int| 0 <= k < advanced.rest().len() && advanced.rest()[k] == uri;
                    assert(opened.rest()[k + 1] == uri);
                    assert(str_lt(
                        texts(opened.uris@)[opened.next as int],
                        texts(opened.uris@)[opened.next + k + 1],
                    ));
                }
            }
            assert forall|s: int|
                0 <= s < self.streams@.len() && (#[trigger] self.streams@[s]).rest().len()
                    > 0 implies exists|i: int|
                0 <= i < self.frontier@.len() && (#[trigger] self.frontier@[i]).stream == s by {
                if s < index {
                    assert(before.streams@[s].rest().len() > 0);
                    let i = choose|i: int|
                        0 <= i < before.frontier@.len() && (
                        #[trigger] before.frontier@[i]).stream == s;
                    assert(self.frontier@[i].stream == s);
                } else {
                    assert(first is Some);
                    assert(self.frontier@.last().stream == s);
                }
            }
        }
    }

    /// The frontier entry `best` was taken out of `before`, and its stream moved on: what
    /// it brought forward, if anything, is now at the end of the frontier.
    spec fn popped(before: &Self, after: &Self, best: int, next: Option<String>) -> bool {
        let entry = before.frontier@[best];
        let s = entry.stream as int;
        let n = before.frontier@.len() - 1;
        &&& before.wf()
        &&& 0 <= best <= n
        &&& after.waiting == before.waiting
        &&& after.late_targets == before.late_targets
        &&& after.late_next == before.late_next
        &&& after.streams@.len() == before.streams@.len()
        &&& after.streams@[s].wf()
        &&& forall|t: int|
            0 <= t < before.streams@.len() && t != s ==> #[trigger] after.streams@[t]
                == before.streams@[t]
        &&& forall|i: int|
            0 <= i < n ==> #[trigger] after.frontier@[i] == before.frontier@[if i == best {
                n
            } else {
                i
            }]
        &&& match next {
            Some(uri) => {
                &&& before.streams@[s].rest().len() > 0
                &&& uri@ == before.streams@[s].rest()[0]
                &&& after.streams@[s].rest() == before.streams@[s].rest().drop_first()
                &&& after.frontier@.len() == n + 1
                &&& after.frontier@[n].uri@ == uri@
                &&& after.frontier@[n].stream == s
            },
            None => {
                &&& before.streams@[s].rest().len() == 0
                &&& after.streams@[s].rest() == before.streams@[s].rest()
                &&& after.frontier@.len() == n
            },
        }
    }

    proof fn lemma_popped_stream(
        before: &Self,
        after: &Self,
        best: int,
        next: Option<String>,
        u: Seq<char>,
    )
        requires
            Self::popped(before, after, best, next),
        ensures
            ({
                let s = before.frontier@[best].stream as int;
                before.streams@[s].rest().contains(u) <==> after.streams@[s].rest().contains(u)
                    || (next is Some && u == next->0@)
            }),
    {
        let s = before.frontier@[best].stream as int;
        let x = before.streams@[s].rest();
        let y = after.streams@[s].rest();
        if x.contains(u) && next is Some {
            let k = choose|k: int| 0 <= k < x.len() && x[k] == u;
            if k > 0 {
                assert(y[k - 1] == u);
            }
        }
        if y.contains(u) && next is Some {
            let k = choose|k: int| 0 <= k < y.len() && y[k] == u;
            assert(x[k + 1] == u);
        }
    }

    proof fn lemma_popped_holds(
        before: &Self,
        after: &Self,
        best: int,
        next: Option<String>,
        u: Seq<char>,
    )
        requires
            Self::popped(before, after, best, next),
        ensures
            after.holds(u) ==> before.holds(u),
            before.holds(u) ==> after.holds(u) || u == before.frontier@[best].uri@,
            before.holds(before.frontier@[best].uri@),
    {
        let s = before.frontier@[best].stream as int;
        let n = before.frontier@.len() - 1;
        assert(frontier_holds(before.frontier@, before.frontier@[best].uri@));
        Self::lemma_popped_stream(before, after, best, next, u);
        if stream_holds(after.streams@, u) {
            let t = choose|t: int|
                0 <= t < after.streams@.len() && #[trigger] after.streams@[t].rest().contains(u);
            assert(before.streams@[t].rest().contains(u));
        }
        if frontier_holds(after.frontier@, u) {
            let i = choose|i: int|
                0 <= i < after.frontier@.len() && #[trigger] after.frontier@[i].uri@ == u;
            if i < n {
                let j = if i == best {
                    n
                } else {
                    i
                };
                assert(before.frontier@[j].uri@ == u);
            } else {
                assert(before.streams@[s].rest().contains(u));
            }
        }
        if stream_holds(before.streams@, u) {
            let t = choose|t: int|
                0 <= t < before.streams@.len() && #[trigger] before.streams@[t].rest().contains(u);
            if t == s && !after.streams@[s].rest().contains(u) {
                assert(after.frontier@[n].uri@ == u);
            } else {
                assert(after.streams@[t].rest().contains(u));
            }
        }
        if frontier_holds(before.frontier@, u) && u != before.frontier@[best].uri@ {
            let j = choose|j: int|
                0 <= j < before.frontier@.len() && #[trigger] before.frontier@[j].uri@ == u;
            let i = if j == n {
                best
            } else {
                j
            };
            assert(after.frontier@[i].uri@ == u);
        }
    }

    proof fn lemma_popped_ahead(
        before: &Self,
        after: &Self,
        best: int,
        next: Option<String>,
        u: Seq<char>,
    )
        requires
            Self::popped(before, after, best, next),
        ensures
            after.ahead(u) ==> before.ahead(u),
    {
        let s = before.frontier@[best].stream as int;
        let n = before.frontier@.len() - 1;
        Self::lemma_popped_stream(before, after, best, next, u);
        if stream_holds(after.streams@, u) {
            let t = choose|t: int|
                0 <= t < after.streams@.len() && #[trigger] after.streams@[t].rest().contains(u);
            assert(before.streams@[t].rest().contains(u));
        }
        if frontier_holds(after.frontier@, u) {
            let i = choose|i: int|
                0 <= i < after.frontier@.len() && #[trigger] after.frontier@[i].uri@ == u;
            if i < n {
                let j = if i == best {
                    n
                } else {
                    i
                };
                assert(before.frontier@[j].uri@ == u);
            } else {
                assert(before.streams@[s].rest().contains(u));
            }
        }
    }

    proof fn lemma_popped_wf(before: &Self, after: &Self, best: int, next: Option<String>)
        requires
            Self::popped(before, after, best, next),
        ensures
            after.wf(),
    {
        let s = before.frontier@[best].stream as int;
        let n = before.frontier@.len() - 1;
        assert forall|i: int| 0 <= i < after.streams@.len() implies (
        #[trigger] after.streams@[i]).wf() by {
            if i != s {
                assert(before.streams@[i].wf());
            }
        }
        assert forall|i: int| 0 <= i < after.frontier@.len() implies (
        #[trigger] after.frontier@[i]).stream < after.streams@.len() by {
            if i < n {
                let j = if i == best {
                    n
                } else {
                    i
                };
                assert(before.frontier@[j].stream < before.streams@.len());
            }
        }
        assert forall|i: int, uri: Seq<char>|
            0 <= i < after.frontier@.len() && #[trigger] after.streams@[(
            #[trigger] after.frontier@[i]).stream as int].rest().contains(uri) implies str_lt(
            after.frontier@[i].uri@,
            uri,
        ) by {
            let t = after.frontier@[i].stream as int;
            Self::lemma_popped_stream(before, after, best, next, uri);
            if i < n {
                let j = if i == best {
                    n
                } else {
                    i
                };
                assert(before.streams@[t].rest().contains(uri));
                assert(before.streams@[before.frontier@[j].stream as int].rest().contains(uri));
            } else {
                let old_stream = before.streams@[s];
                let rest = after.streams@[s].rest();
                let k = choose|k: int| 0 <= k < rest.len() && rest[k] == uri;
                assert(old_stream.rest()[k + 1] == uri);
                assert(str_lt(
                    texts(old_stream.uris@)[old_stream.next as int],
                    texts(old_stream.uris@)[old_stream.next + k + 1],
                ));
            }
        }
        assert forall|t: int|
            0 <= t < after.streams@.len() && (#[trigger] after.streams@[t]).rest().len()
                > 0 implies exists|i: int|
            0 <= i < after.frontier@.len() && (#[trigger] after.frontier@[i]).stream == t by {
            if t == s {
                assert(after.frontier@[n].stream == t);
            } else {
                assert(before.streams@[t].rest().len() > 0);
                let j = choose|j: int|
                    0 <= j < before.frontier@.len() && (#[trigger] before.frontier@[j]).stream
                        == t;
                let i = if j == n {
                    best
                } else {
                    j
                };
                assert(after.frontier@[i].stream == t);
            }
        }
    }

    /// Without a frontier nothing is to come from reports that have been looked at.
    proof fn lemma_nothing_ahead(&self)
        requires
            self.wf(),
            self.frontier@.len() == 0,
        ensures
            forall|u: Seq<char>| !#[trigger] self.ahead(u),
    {
        assert forall|u: Seq<char>| !#[trigger] self.ahead(u) by {
            if stream_holds(self.streams@, u) {
                let t = choose|t: int|
                    0 <= t < self.streams@.len() && #[trigger] self.streams@[t].rest().contains(u);
                assert(self.streams@[t].rest().len() > 0);
                let i = choose|i: int|
                    0 <= i < self.frontier@.len() && (#[trigger] self.frontier@[i]).stream == t;
            }
        }
    }

    /// What comes first in the frontier comes first in all streams.
    proof fn lemma_first(&self, best: int, u: Seq<char>)
        requires
            self.wf(),
            0 <= best < self.frontier@.len(),
            forall|i: int|
                0 <= i < self.frontier@.len() ==> !str_lt(
                    (#[trigger] self.frontier@[i]).uri@,
                    self.frontier@[best].uri@,
                ),
            stream_holds(self.streams@, u) || frontier_holds(self.frontier@, u),
        ensures
            !str_lt(u, self.frontier@[best].uri@),
    {
        let chosen = self.frontier@[best].uri@;
        if frontier_holds(self.frontier@, u) {
            let i = choose|i: int|
                0 <= i < self.frontier@.len() && #[trigger] self.frontier@[i].uri@ == u;
        } else {
            let t = choose|t: int|
                0 <= t < self.streams@.len() && #[trigger] self.streams@[t].rest().contains(u);
            assert(self.streams@[t].rest().len() > 0);
            let i = choose|i: int|
                0 <= i < self.frontier@.len() && (#[trigger] self.frontier@[i]).stream == t;
            let shown = self.frontier@[i].uri@;
            assert(self.streams@[self.frontier@[i].stream as int].rest().contains(u));
            assert(str_lt(shown, u));
            lemma_str_lt_order(shown, u, chosen);
        }
    }

    /// Brings forward the first document of the frontier.
    fn pop_frontier(&mut self) -> (uri: String)
        requires
            old(self).wf(),
            old(self).frontier@.len() > 0,
        ensures
            final(self).wf(),
            final(self).waiting == old(self).waiting,
            final(self).emitted_targets == old(self).emitted_targets,
            final(self).late_membership == old(self).late_membership,
            old(self).holds(uri@),
            old(self).ahead(uri@),
            forall|u: Seq<char>| #[trigger] final(self).ahead(u) ==> old(self).ahead(u),
            forall|u: Seq<char>| #[trigger] final(self).holds(u) ==> old(self).holds(u),
            forall|u: Seq<char>| old(self).holds(u) ==> #[trigger] final(self).holds(u) || u
                == uri@,
            final(self).work() < old(self).work(),
            forall|u: Seq<char>|
                stream_holds(old(self).streams@, u) || frontier_holds(old(self).frontier@, u)
                    ==> !#[trigger] str_lt(u, uri@),
    {
        let ghost before = *self;
        let best: usize = self.first_of_frontier();
        let entry = self.frontier.swap_remove(best);
        let s: usize = entry.stream;
        let next = self.streams[s].advance();
        let ghost shown = next;
        proof {
            assert(self.streams@ =~= before.streams@.update(s as int, self.streams@[s as int]));
            lemma_stream_work_update(before.streams@, s as int, self.streams@[s as int]);
        }
        match next {
            Some(uri) => {
                self.frontier.push(FrontierEntry { uri, stream: s });
            },
            None => {},
        }
        proof {
            assert(Self::popped(&before, self, best as int, shown));
            Self::lemma_popped_wf(&before, self, best as int, shown);
            assert forall|u: Seq<char>| #[trigger] self.holds(u) implies before.holds(u) by {
                Self::lemma_popped_holds(&before, self, best as int, shown, u);
            }
            assert forall|u: Seq<char>| before.holds(u) implies #[trigger] self.holds(u) || u
                == entry.uri@ by {
                Self::lemma_popped_holds(&before, self, best as int, shown, u);
            }
            Self::lemma_popped_holds(&before, self, best as int, shown, entry.uri@);
            assert(frontier_holds(before.frontier@, entry.uri@));
            assert forall|u: Seq<char>| #[trigger] self.ahead(u) implies before.ahead(u) by {
                Self::lemma_popped_ahead(&before, self, best as int, shown, u);
            }
            assert forall|u: Seq<char>| stream_holds(before.streams@, u) || frontier_holds(
                before.frontier@,
                u,
            ) implies !#[trigger] str_lt(u, entry.uri@) by {
                before.lemma_first(best as int, u);
            }
        }
        entry.uri
    }

    /// Takes one step: looks at one more report, brings forward one document or passes
    /// over one that has come before. Documents of the reports come first, each before
    /// those that are behind it in order; those that were added come last.
    pub fn next_step(&mut self) -> (r: DiagnosticPublicationCursorStep)
        requires
            old(self).wf(),
        ensures
            Self::follows(*old(self), *final(self), r@),
    {
        if self.waiting.len() > 0 {
            self.open_stream();
            return DiagnosticPublicationCursorStep::Skipped;
        }
        if self.frontier.len() > 0 {
            let ghost before = *self;
            let uri = self.pop_frontier();
            let ghost middle = *self;
            let ghost k = uri@;
            let step = self.emit(uri);
            proof {
                assert forall|u: Seq<char>| #[trigger]
                    self.owes(u) <==> before.owes(u) && u != k by {
                    assert(self.holds(u) == middle.holds(u));
                }
                assert forall|u: Seq<char>| #[trigger] self.ahead(u) implies before.ahead(u) by {
                    assert(middle.ahead(u));
                }
                assert forall|u: Seq<char>| before.ahead(u) implies !#[trigger] str_lt(u, k) by {}
                assert(self.work() == middle.work());
                if step is Skipped {
                    assert(self.emitted_targets@ =~= before.emitted_targets@);
                    assert forall|u: Seq<char>| #[trigger] self.owes(u) <==> before.owes(u) by {
                        assert(self.owes(u) <==> before.owes(u) && u != k);
                    }
                }
            }
            return step;
        }
        if self.late_next < self.late_targets.len() {
            let ghost before = *self;
            let uri = self.late_targets[self.late_next].clone();
            let ghost k = uri@;
            let ghost late = texts(self.late_targets@).skip(self.late_next as int);
            self.late_next += 1;
            let ghost rest = texts(self.late_targets@).skip(self.late_next as int);
            proof {
                assert(late[0] == k);
                assert(rest =~= late.drop_first());
                assert forall|u: Seq<char>| late.contains(u) <==> rest.contains(u) || u == k by {
                    if late.contains(u) {
                        let i = choose|i: int| 0 <= i < late.len() && late[i] == u;
                        if i > 0 {
                            assert(rest[i - 1] == u);
                        }
                    }
                    if rest.contains(u) {
                        let i = choose|i: int| 0 <= i < rest.len() && rest[i] == u;
                        assert(late[i + 1] == u);
                    }
                }
            }
            let ghost middle = *self;
            let step = self.emit(uri);
            proof {
                assert forall|u: Seq<char>| #[trigger]
                    self.owes(u) <==> before.owes(u) && u != k by {
                    assert(self.holds(u) == middle.holds(u));
                    assert(before.holds(u) <==> middle.holds(u) || u == k);
                }
                assert(before.owes(k) <==> !before.emitted_targets@.contains(k));
                if step is Skipped {
                    assert(self.emitted_targets@ =~= before.emitted_targets@);
                    assert forall|u: Seq<char>| #[trigger] self.owes(u) <==> before.owes(u) by {
                        assert(self.owes(u) <==> before.owes(u) && u != k);
                    }
                }
            }
            return step;
        }
        proof {
            assert forall|s: int| 0 <= s < self.streams@.len() implies (
            #[trigger] self.streams@[s]).rest().len() == 0 by {
                if self.streams@[s].rest().len() > 0 {
                    let i = choose|i: int|
                        0 <= i < self.frontier@.len() && (#[trigger] self.frontier@[i]).stream
                            == s;
                }
            }
            lemma_no_work(self.streams@);
            assert forall|u: Seq<char>| !#[trigger] self.owes(u) by {
                if stream_holds(self.streams@, u) {
                    let i = choose|i: int|
                        0 <= i < self.streams@.len()
                            && #[trigger] self.streams@[i].rest().contains(u);
                    assert(self.streams@[i].rest().len() == 0);
                }
            }
        }
        DiagnosticPublicationCursorStep::Exhausted
    }
}

proof fn lemma_no_work(streams: Seq<UriStream>)
    requires
        forall|s: int| 0 <= s < streams.len() ==> (#[trigger] streams[s]).rest().len() == 0,
    ensures
        stream_work(streams) == 0,
    decreases streams.len(),
{
    if streams.len() > 0 {
        lemma_no_work(streams.drop_last());
    }
}

/// The targets of the first `n` reports, one by one.
pub open spec fn targets_of(all: Map<Seq<char>, Report>, keys: Seq<Seq<char>>, n: int) -> nat
    decreases n,
{
    if n <= 0 {
        0
    } else {
        targets_of(all, keys, n - 1) + all[keys[n - 1]].dom().len()
    }
}

/// The number of targets of all reports.
pub open spec fn target_count(all: Map<Seq<char>, Report>) -> int {
    map_sum(all, |root: Seq<char>, report: Report| report.dom().len() as int)
}

proof fn lemma_targets_of(all: Map<Seq<char>, Report>, keys: Seq<Seq<char>>, n: int)
    requires
        0 <= n <= keys.len(),
        keys.no_duplicates(),
        forall|k: Seq<char>| keys.contains(k) ==> #[trigger] all.contains_key(k),
    ensures
        targets_of(all, keys, n) == target_count(all.restrict(keys.take(n).to_set())),
    decreases n,
{
    let weight = |root: Seq<char>, report: Report| report.dom().len() as int;
    let part = all.restrict(keys.take(n).to_set());
    if n == 0 {
        assert(keys.take(0).to_set() =~= Set::<Seq<char>>::empty());
        assert(part =~= Map::<Seq<char>, Report>::empty());
    } else {
        lemma_targets_of(all, keys, n - 1);
        let before = all.restrict(keys.take(n - 1).to_set());
        let here = keys[n - 1];
        assert(keys.contains(here));
        crate::strmap::lemma_take_set(keys, n - 1);
        assert(!keys.take(n - 1).contains(here));
        assert(!before.contains_key(here));
        assert(part =~= before.insert(here, all[here]));
        assert(before.dom() =~= all.dom().intersect(keys.take(n - 1).to_set()));
        assert(keys.take(n - 1).to_set().finite());
        lemma_sum_insert(before, weight, here, all[here]);
    }
}

/// A run of a cursor: what happens to it, one after the other, and what it is before and
/// after each.
pub open spec fn is_run(
    states: Seq<DiagnosticPublicationUriCursor>,
    events: Seq<CursorEvent>,
) -> bool {
    &&& states.len() == events.len() + 1
    &&& states[0].wf()
    &&& states[0].emitted_targets@ == Set::<Seq<char>>::empty()
    &&& forall|i: int|
        0 <= i < events.len() ==> DiagnosticPublicationUriCursor::follows(
            states[i],
            states[i + 1],
            #[trigger] events[i],
        )
}

/// The documents that come in the course of events.
pub open spec fn came(events: Seq<CursorEvent>) -> Seq<Seq<char>>
    decreases events.len(),
{
    if events.len() == 0 {
        seq![]
    } else {
        match events.last() {
            CursorEvent::Came(uri) => came(events.drop_last()).push(uri),
            _ => came(events.drop_last()),
        }
    }
}

/// The steps among events that do not find the end.
pub open spec fn steps(events: Seq<CursorEvent>) -> nat
    decreases events.len(),
{
    if events.len() == 0 {
        0
    } else {
        steps(events.drop_last()) + (match events.last() {
            CursorEvent::Came(_) | CursorEvent::Passed => 1nat,
            _ => 0nat,
        })
    }
}

/// The documents that are added in the course of events.
pub open spec fn additions(events: Seq<CursorEvent>) -> Seq<Seq<char>>
    decreases events.len(),
{
    if events.len() == 0 {
        seq![]
    } else {
        match events.last() {
            CursorEvent::Added(uri) => additions(events.drop_last()).push(uri),
            _ => additions(events.drop_last()),
        }
    }
}

#[verifier::rlimit(40)]
proof fn lemma_run(states: Seq<DiagnosticPublicationUriCursor>, events: Seq<CursorEvent>)
    requires
        is_run(states, events),
    ensures
        ({
            let last = states.last();
            &&& last.wf()
            &&& last.emitted_targets@ == came(events).to_set()
            &&& came(events).no_duplicates()
            &&& forall|u: Seq<char>|
                (#[trigger] last.owes(u) || came(events).contains(u)) <==> states[0].owes(u)
                    || additions(events).contains(u)
            &&& last.work() + steps(events) <= states[0].work() + additions(events).len()
        }),
    decreases events.len(),
{
    let last = states.last();
    if events.len() == 0 {
        assert(came(events).to_set() =~= Set::<Seq<char>>::empty());
        assert(last == states[0]);
    } else {
        let fore = events.drop_last();
        let sooner = states.drop_last();
        assert forall|i: int| 0 <= i < fore.len() implies DiagnosticPublicationUriCursor::follows(
            sooner[i],
            sooner[i + 1],
            #[trigger] fore[i],
        ) by {
            assert(fore[i] == events[i]);
        }
        lemma_run(sooner, fore);
        let before = sooner.last();
        assert(sooner[0] == states[0]);
        assert(DiagnosticPublicationUriCursor::follows(
            states[events.len() - 1],
            states[events.len() as int],
            events[events.len() - 1],
        ));
        match events.last() {
            CursorEvent::Came(uri) => {
                lemma_pushed(came(fore), uri);
                assert(came(events) == came(fore).push(uri));
                assert(additions(events) == additions(fore));
                assert(steps(events) == steps(fore) + 1);
                assert(!came(fore).contains(uri)) by {
                    if came(fore).contains(uri) {
                        assert(came(fore).to_set().contains(uri));
                    }
                }
                assert(before.owes(uri));
                assert forall|u: Seq<char>|
                    (#[trigger] last.owes(u) || came(events).contains(u)) <==> states[0].owes(u)
                        || additions(events).contains(u) by {
                    assert(before.owes(u) || came(fore).contains(u) <==> states[0].owes(u)
                        || additions(fore).contains(u));
                }
            },
            CursorEvent::Added(uri) => {
                lemma_pushed(additions(fore), uri);
                assert(came(events) == came(fore));
                assert(additions(events) == additions(fore).push(uri));
                assert(steps(events) == steps(fore));
                assert forall|u: Seq<char>|
                    (#[trigger] last.owes(u) || came(events).contains(u)) <==> states[0].owes(u)
                        || additions(events).contains(u) by {
                    assert(before.owes(u) || came(fore).contains(u) <==> states[0].owes(u)
                        || additions(fore).contains(u));
                }
            },
            _ => {
                assert(came(events) == came(fore));
                assert(additions(events) == additions(fore));
                assert forall|u: Seq<char>|
                    (#[trigger] last.owes(u) || came(events).contains(u)) <==> states[0].owes(u)
                        || additions(events).contains(u) by {
                    assert(before.owes(u) || came(fore).contains(u) <==> states[0].owes(u)
                        || additions(fore).contains(u));
                }
            },
        }
    }
}

proof fn lemma_pushed(list: Seq<Seq<char>>, uri: Seq<char>)
    ensures
        forall|u: Seq<char>| #[trigger]
            list.push(uri).contains(u) <==> list.contains(u) || u == uri,
        list.push(uri).to_set() == list.to_set().insert(uri),
        list.no_duplicates() && !list.contains(uri) ==> list.push(uri).no_duplicates(),
{
    let longer = list.push(uri);
    assert forall|u: Seq<char>| #[trigger] longer.contains(u) <==> list.contains(u) || u
        == uri by {
        if list.contains(u) {
            let i = choose|i: int| 0 <= i < list.len() && list[i] == u;
            assert(longer[i] == u);
        }
        assert(longer[list.len() as int] == uri);
    }
    assert(longer.to_set() =~= list.to_set().insert(uri));
}

/// Until a cursor ends, every document comes once: those that it was made for, and those
/// that were added. No more steps are taken than there was work at the beginning and
/// documents were added, and one more finds the end.
pub proof fn law_a_run_brings_each_document_once(
    states: Seq<DiagnosticPublicationUriCursor>,
    events: Seq<CursorEvent>,
)
    requires
        is_run(states, events),
    ensures
        came(events).no_duplicates(),
        forall|u: Seq<char>| #[trigger]
            came(events).contains(u) ==> states[0].owes(u) || additions(events).contains(u),
        steps(events) <= states[0].work() + additions(events).len(),
        events.len() > 0 && events.last() is Ended ==> forall|u: Seq<char>|
            #![trigger came(events).contains(u)]
            came(events).contains(u) <==> states[0].owes(u) || additions(events).contains(u),
{
    lemma_run(states, events);
    let last = states.last();
    assert forall|u: Seq<char>| #[trigger] came(events).contains(u) implies states[0].owes(u)
        || additions(events).contains(u) by {
        if last.owes(u) {
            assert(last.owes(u));
        }
    }
    if events.len() > 0 && events.last() is Ended {
        assert(DiagnosticPublicationUriCursor::follows(
            states[events.len() - 1],
            states[events.len() as int],
            events[events.len() - 1],
        ));
        assert forall|u: Seq<char>|
            #![trigger came(events).contains(u)]
            came(events).contains(u) <==> states[0].owes(u) || additions(events).contains(u) by {
            assert(!last.owes(u));
        }
    }
}

proof fn lemma_ascent(
    states: Seq<DiagnosticPublicationUriCursor>,
    events: Seq<CursorEvent>,
    i: int,
    n: int,
)
    requires
        is_run(states, events),
        0 <= i < n <= events.len(),
        events[i] is Came,
    ensures
        states[n].loaded(),
        states[n].emitted_targets@.contains(events[i]->Came_0),
        forall|u: Seq<char>| #[trigger]
            states[n].ahead(u) ==> !str_lt(u, events[i]->Came_0),
    decreases n - i,
{
    assert(DiagnosticPublicationUriCursor::follows(states[n - 1], states[n], events[n - 1]));
    if n == i + 1 {
        if states[i].frontier@.len() == 0 {
            lemma_run(states.take(n), events.take(i));
            states[i].lemma_nothing_ahead();
        }
    } else {
        lemma_ascent(states, events, i, n - 1);
    }
    assert forall|u: Seq<char>| #[trigger] states[n].ahead(u) implies !str_lt(
        u,
        events[i]->Came_0,
    ) by {
        assert(states[n - 1].ahead(u));
    }
}

/// Of two documents of which the second comes while reports are still looked at, the first
/// is before the second in order: documents that were added come after all of these.
pub proof fn law_a_run_ascends(
    states: Seq<DiagnosticPublicationUriCursor>,
    events: Seq<CursorEvent>,
    i: int,
    j: int,
)
    requires
        is_run(states, events),
        0 <= i < j < events.len(),
        events[i] is Came,
        events[j] is Came,
        states[j].frontier@.len() > 0,
    ensures
        states[i].frontier@.len() > 0,
        str_lt(events[i]->Came_0, events[j]->Came_0),
{
    let first = events[i]->Came_0;
    let second = events[j]->Came_0;
    lemma_ascent(states, events, i, j);
    assert(DiagnosticPublicationUriCursor::follows(states[j], states[j + 1], events[j]));
    assert(states[j].ahead(second));
    lemma_str_lt_order(first, second, first);
    if states[i].frontier@.len() == 0 {
        lemma_stays_bare(states, events, i, j);
    }
}

proof fn lemma_stays_bare(
    states: Seq<DiagnosticPublicationUriCursor>,
    events: Seq<CursorEvent>,
    i: int,
    n: int,
)
    requires
        is_run(states, events),
        0 <= i <= n < states.len(),
        i < events.len(),
        events[i] is Came,
        states[i].frontier@.len() == 0,
    ensures
        states[n].loaded(),
        forall|u: Seq<char>| !#[trigger] states[n].ahead(u),
    decreases n - i,
{
    if n == i {
        assert(DiagnosticPublicationUriCursor::follows(states[i], states[i + 1], events[i]));
        lemma_run(states.take(i + 1), events.take(i));
        states[i].lemma_nothing_ahead();
    } else {
        lemma_stays_bare(states, events, i, n - 1);
        assert(DiagnosticPublicationUriCursor::follows(states[n - 1], states[n], events[n - 1]));
        assert forall|u: Seq<char>| !#[trigger] states[n].ahead(u) by {
            if states[n].ahead(u) {
                assert(states[n - 1].ahead(u));
            }
        }
    }
}

/// Forgets all reports and what is waiting to be sent, and hands out a cursor over the
/// documents that may have to be cleared: the targets of all reports, the open documents
/// and one more.
pub fn take_all_diagnostic_publication_uris(
    publications: &mut Publications,
    open_documents: &OpenDocuments,
    extra: Option<String>,
) -> (r: DiagnosticPublicationUriCursor)
    ensures
        final(publications).wf(),
        final(publications)@ == Map::<Seq<char>, Report>::empty(),
        final(publications).incomplete_roots@ == Set::<Seq<char>>::empty(),
        final(publications).pending_targets@ == Set::<Seq<char>>::empty(),
        !final(publications).pending_incomplete,
        r.wf(),
        r.emitted_targets@ == Set::<Seq<char>>::empty(),
        forall|u: Seq<char>| #[trigger]
            r.owes(u) <==> {
                ||| exists|root: Seq<char>| #[trigger]
                    old(publications)@.contains_key(root) && old(
                        publications,
                    )@[root].contains_key(u)
                ||| open_documents@.contains_key(u)
                ||| extra is Some && u == extra->0@
            },
        r.work() == old(publications)@.dom().len() + 1 + target_count(old(publications)@)
            + open_documents@.dom().len() + (if extra is Some {
            1int
        } else {
            0
        }),
{
    let ghost more = extra;
    let ghost all = publications@;
    let r = DiagnosticPublicationUriCursor::new(&publications.reports, open_documents, extra);
    proof {
        assert(all == publications.reports.deep());
        assert forall|u: Seq<char>| #[trigger] r.owes(u) <==> {
            ||| exists|root: Seq<char>| #[trigger]
                all.contains_key(root) && all[root].contains_key(u)
            ||| open_documents@.contains_key(u)
            ||| more is Some && u == more->0@
        } by {
            if exists|root: Seq<char>| #[trigger]
                all.contains_key(root) && all[root].contains_key(u) {
                let root = choose|root: Seq<char>| #[trigger]
                    all.contains_key(root) && all[root].contains_key(u);
                assert(publications.reports.deep().contains_key(root));
            }
        }
    }
    *publications = Publications::new();
    r
}

} // verus!
