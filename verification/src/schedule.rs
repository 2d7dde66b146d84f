//! When the diagnostics of open documents are due. Times are in milliseconds.

use vstd::prelude::*;

use crate::documents::{DocumentView, OpenDocuments};
use crate::strmap::StrMap;

verus! {

/// How long the diagnostics of a changed document wait for the next change.
pub const DIAGNOSTIC_DEBOUNCE: u64 = 250;

/// How long diagnostics that could not be had wait for the next try.
pub const DIAGNOSTIC_RETRY: u64 = 25;

/// The deadlines of the documents whose diagnostics are pending.
#[derive(Debug)]
pub struct DiagnosticSchedule {
    pub pending: StrMap<u64>,
}

impl View for DiagnosticSchedule {
    type V = Map<Seq<char>, u64>;

    open spec fn view(&self) -> Map<Seq<char>, u64> {
        self.pending@
    }
}

/// A time after a moment, or the last time that there is.
pub open spec fn later(now: u64, delay: u64) -> u64 {
    if now + delay > u64::MAX {
        u64::MAX
    } else {
        (now + delay) as u64
    }
}

/// The time that is left until a deadline.
pub open spec fn time_left(deadline: u64, now: u64) -> u64 {
    if deadline > now {
        (deadline - now) as u64
    } else {
        0
    }
}

/// Those of the first `n` keys whose deadline has passed, as many as asked for.
pub open spec fn due_of(
    pending: Map<Seq<char>, u64>,
    keys: Seq<Seq<char>>,
    now: u64,
    maximum: int,
    n: int,
) -> Seq<Seq<char>>
    decreases n,
{
    if n <= 0 {
        Seq::empty()
    } else {
        let before = due_of(pending, keys, now, maximum, n - 1);
        if before.len() < maximum && pending[keys[n - 1]] <= now {
            before.push(keys[n - 1])
        } else {
            before
        }
    }
}

/// The requests for the first `n` due documents: those that are open, with their
/// versions.
pub open spec fn requests_of(
    due: Seq<Seq<char>>,
    documents: Map<Seq<char>, DocumentView>,
    n: int,
) -> Seq<(Seq<char>, Option<i32>)>
    decreases n,
{
    if n <= 0 {
        Seq::empty()
    } else if documents.contains_key(due[n - 1]) {
        requests_of(due, documents, n - 1).push(
            (due[n - 1], Some(documents[due[n - 1]].version)),
        )
    } else {
        requests_of(due, documents, n - 1)
    }
}

/// What a list of requests stands for.
pub open spec fn request_views(requests: Seq<(String, Option<i32>)>) -> Seq<
    (Seq<char>, Option<i32>),
> {
    requests.map_values(|r: (String, Option<i32>)| (r.0@, r.1))
}

proof fn lemma_due_bound(
    pending: Map<Seq<char>, u64>,
    keys: Seq<Seq<char>>,
    now: u64,
    maximum: int,
    n: int,
)
    requires
        0 <= n <= keys.len(),
        maximum >= 0,
    ensures
        due_of(pending, keys, now, maximum, n).len() <= maximum,
        due_of(pending, keys, now, maximum, n).len() <= n,
    decreases n,
{
    if n > 0 {
        lemma_due_bound(pending, keys, now, maximum, n - 1);
    }
}

impl DiagnosticSchedule {
    /// Nothing is pending.
    pub fn new() -> (r: Self)
        ensures
            r@ == Map::<Seq<char>, u64>::empty(),
    {
        DiagnosticSchedule { pending: StrMap::new() }
    }

    /// Puts the diagnostics of a document off until no change has come for a while.
    pub fn schedule_diagnostics(&mut self, uri: String, now: u64)
        ensures
            final(self)@ == old(self)@.insert(uri@, later(now, DIAGNOSTIC_DEBOUNCE)),
    {
        let deadline: u64 = now.saturating_add(DIAGNOSTIC_DEBOUNCE);
        let _before = self.pending.insert(uri, deadline);
    }

    /// Makes the diagnostics of a document due at a time.
    pub fn set_deadline(&mut self, uri: String, deadline: u64)
        ensures
            final(self)@ == old(self)@.insert(uri@, deadline),
    {
        let _before = self.pending.insert(uri, deadline);
    }

    /// The diagnostics of a document are not pending any more.
    pub fn forget(&mut self, uri: &str)
        ensures
            final(self)@ == old(self)@.remove(uri@),
    {
        let _before = self.pending.remove(uri);
    }

    /// Tries the diagnostics of an open document again in a moment.
    pub fn retry_diagnostics(&mut self, documents: &OpenDocuments, uri: String, now: u64)
        ensures
            final(self)@ == (if documents@.contains_key(uri@) {
                old(self)@.insert(uri@, later(now, DIAGNOSTIC_RETRY))
            } else {
                old(self)@
            }),
    {
        if documents.contains(uri.as_str()) {
            let deadline: u64 = now.saturating_add(DIAGNOSTIC_RETRY);
            let _before = self.pending.insert(uri, deadline);
        }
    }

    /// Tries the diagnostics of an open document again in a moment, unless they are
    /// pending already.
    pub fn reschedule_diagnostics(&mut self, documents: &OpenDocuments, uri: String, now: u64)
        ensures
            final(self)@ == (if documents@.contains_key(uri@) && !old(self)@.contains_key(uri@) {
                old(self)@.insert(uri@, later(now, DIAGNOSTIC_RETRY))
            } else {
                old(self)@
            }),
    {
        if documents.contains(uri.as_str()) && !self.pending.contains_key(uri.as_str()) {
            let deadline: u64 = now.saturating_add(DIAGNOSTIC_RETRY);
            let _before = self.pending.insert(uri, deadline);
        }
    }

    /// The time until the first pending diagnostics are due.
    pub fn next_diagnostic_timeout(&self, now: u64) -> (r: Option<u64>)
        ensures
            r is None <==> self@.dom() =~= Set::<Seq<char>>::empty(),
            r is Some ==> exists|uri: Seq<char>| #[trigger]
                self@.contains_key(uri) && r->0 == time_left(self@[uri], now),
            r is Some ==> forall|uri: Seq<char>| #[trigger]
                self@.contains_key(uri) ==> r->0 <= time_left(self@[uri], now),
    {
        let count: usize = self.pending.len();
        let ghost keys = self.pending.keys();
        if count == 0 {
            proof {
                assert(self@.dom() =~= Set::<Seq<char>>::empty()) by {
                    assert forall|uri: Seq<char>| !self@.contains_key(uri) by {
                        if self@.contains_key(uri) {
                            assert(keys.contains(uri));
                        }
                    }
                }
            }
            return None;
        }
        let mut least: u64 = self.pending.value_at(0).saturating_sub(now);
        proof {
            assert(self@.contains_key(keys[0]));
        }
        let mut i: usize = 1;
        while i < count
            invariant
                1 <= i <= count,
                count == self.pending.keys().len(),
                keys == self.pending.keys(),
                forall|j: int|
                    0 <= j < i ==> least <= time_left(self@[#[trigger] keys[j]], now),
                exists|uri: Seq<char>| #[trigger]
                    self@.contains_key(uri) && least == time_left(self@[uri], now),
            decreases count - i,
        {
            let deadline: u64 = *self.pending.value_at(i);
            let left: u64 = deadline.saturating_sub(now);
            if left < least {
                least = left;
                proof {
                    assert(self@.contains_key(keys[i as int]));
                }
            }
            i += 1;
        }
        proof {
            assert forall|uri: Seq<char>| #[trigger] self@.contains_key(uri) implies least
                <= time_left(self@[uri], now) by {
                assert(keys.contains(uri));
                let j = choose|j: int| 0 <= j < keys.len() && keys[j] == uri;
                assert(least <= time_left(self@[keys[j]], now));
            }
        }
        Some(least)
    }

    fn due(&self, now: u64, maximum: usize) -> (r: Vec<String>)
        ensures
            crate::strings::texts(r@) == due_of(
                self@,
                self.pending.keys(),
                now,
                maximum as int,
                self.pending.keys().len() as int,
            ),
    {
        let count: usize = self.pending.len();
        let ghost keys = self.pending.keys();
        let mut due: Vec<String> = Vec::new();
        let mut i: usize = 0;
        proof {
            assert(crate::strings::texts(due@) =~= Seq::<Seq<char>>::empty());
        }
        while i < count
            invariant
                i <= count,
                count == keys.len(),
                keys == self.pending.keys(),
                crate::strings::texts(due@) == due_of(
                    self@,
                    keys,
                    now,
                    maximum as int,
                    i as int,
                ),
            decreases count - i,
        {
            let passed: bool = *self.pending.value_at(i) <= now;
            if due.len() < maximum && passed {
                let ghost before = due@;
                let uri = self.pending.key_at(i).clone();
                due.push(uri);
                proof {
                    assert(crate::strings::texts(due@) =~= crate::strings::texts(before).push(
                        keys[i as int],
                    ));
                }
            }
            i += 1;
        }
        due
    }

    /// Takes the documents whose diagnostics are due, `maximum` of them at most: each is
    /// pending no more, and those that are open come back with their versions.
    pub fn take_due_diagnostic_requests_limited(
        &mut self,
        documents: &OpenDocuments,
        now: u64,
        maximum: usize,
    ) -> (r: Vec<(String, Option<i32>)>)
        ensures
            ({
                let keys = old(self).pending.keys();
                let due = due_of(old(self)@, keys, now, maximum as int, keys.len() as int);
                &&& due.len() <= maximum
                &&& final(self)@ == old(self)@.remove_keys(due.to_set())
                &&& request_views(r@) == requests_of(due, documents@, due.len() as int)
            }),
    {
        let due = self.due(now, maximum);
        let ghost listed = crate::strings::texts(due@);
        proof {
            lemma_due_bound(
                self@,
                self.pending.keys(),
                now,
                maximum as int,
                self.pending.keys().len() as int,
            );
        }
        let ghost before = self@;
        let mut requests: Vec<(String, Option<i32>)> = Vec::new();
        let mut i: usize = 0;
        proof {
            assert(request_views(requests@) =~= Seq::<(Seq<char>, Option<i32>)>::empty());
            assert(before.remove_keys(listed.take(0).to_set()) =~= before);
        }
        while i < due.len()
            invariant
                i <= due@.len(),
                listed == crate::strings::texts(due@),
                self@ == before.remove_keys(listed.take(i as int).to_set()),
                request_views(requests@) == requests_of(listed, documents@, i as int),
            decreases due@.len() - i,
        {
            let ghost taken = self@;
            self.pending.remove(due[i].as_str());
            proof {
                assert(listed[i as int] == due@[i as int]@);
                crate::strmap::lemma_take_set(listed, i as int);
                assert(self@ =~= before.remove_keys(listed.take(i + 1).to_set()));
            }
            if let Some(version) = documents.document_version(due[i].as_str()) {
                let ghost held = requests@;
                requests.push((due[i].clone(), Some(version)));
                proof {
                    assert(request_views(requests@) =~= request_views(held).push(
                        (listed[i as int], Some(version)),
                    ));
                }
            }
            i += 1;
        }
        proof {
            assert(listed.take(listed.len() as int) =~= listed);
        }
        requests
    }

    /// Takes all documents whose diagnostics are due.
    pub fn take_due_diagnostic_requests(&mut self, documents: &OpenDocuments, now: u64) -> (r: Vec<
        (String, Option<i32>),
    >)
        ensures
            ({
                let keys = old(self).pending.keys();
                let due = due_of(old(self)@, keys, now, usize::MAX as int, keys.len() as int);
                &&& final(self)@ == old(self)@.remove_keys(due.to_set())
                &&& request_views(r@) == requests_of(due, documents@, due.len() as int)
            }),
    {
        self.take_due_diagnostic_requests_limited(documents, now, usize::MAX)
    }
}

} // verus!
