//! Which documents are diagnosed when.

use vstd::prelude::*;

use crate::documents::DocumentView;
use crate::schedule::{due_of, requests_of, time_left};

verus! {

/// The documents that are taken up are due, and they are no more than asked for. Only where so
/// many are taken up is another left that is due too.
pub proof fn law_what_is_due_is_taken_up(
    pending: Map<Seq<char>, u64>,
    keys: Seq<Seq<char>>,
    now: u64,
    maximum: int,
    n: int,
)
    requires
        0 <= n <= keys.len(),
        0 <= maximum,
    ensures
        due_of(pending, keys, now, maximum, n).len() <= maximum,
        forall|i: int|
            0 <= i < due_of(pending, keys, now, maximum, n).len() ==> keys.contains(
                #[trigger] due_of(pending, keys, now, maximum, n)[i],
            ) && pending[due_of(pending, keys, now, maximum, n)[i]] <= now,
        due_of(pending, keys, now, maximum, n).len() < maximum ==> forall|i: int|
            0 <= i < n && pending[#[trigger] keys[i]] <= now ==> due_of(
                pending,
                keys,
                now,
                maximum,
                n,
            ).contains(keys[i]),
    decreases n,
{
    if n > 0 {
        law_what_is_due_is_taken_up(pending, keys, now, maximum, n - 1);
        let before = due_of(pending, keys, now, maximum, n - 1);
        let after = due_of(pending, keys, now, maximum, n);
        assert forall|i: int| 0 <= i < after.len() implies keys.contains(#[trigger] after[i])
            && pending[after[i]] <= now by {
            if i < before.len() {
                assert(after[i] == before[i]);
            } else {
                assert(after[i] == keys[n - 1]);
            }
        }
        if after.len() < maximum {
            assert forall|i: int| 0 <= i < n && pending[#[trigger] keys[i]] <= now implies after.contains(
                keys[i],
            ) by {
                if i < n - 1 {
                    assert(before.contains(keys[i]));
                    let k = choose|k: int| 0 <= k < before.len() && before[k] == keys[i];
                    assert(after[k] == keys[i]);
                } else {
                    assert(after[before.len() as int] == keys[i]);
                }
            }
        }
    }
}

/// A request is made for each due document that is open, in its version, and for no other.
pub proof fn law_requests_are_for_open_documents(
    due: Seq<Seq<char>>,
    documents: Map<Seq<char>, DocumentView>,
    n: int,
)
    requires
        0 <= n <= due.len(),
    ensures
        forall|i: int|
            0 <= i < n && documents.contains_key(#[trigger] due[i]) ==> requests_of(
                due,
                documents,
                n,
            ).contains((due[i], Some(documents[due[i]].version))),
        forall|k: int|
            0 <= k < requests_of(due, documents, n).len() ==> {
                let request = #[trigger] requests_of(due, documents, n)[k];
                due.contains(request.0) && documents.contains_key(request.0) && request.1 == Some(
                    documents[request.0].version,
                )
            },
    decreases n,
{
    if n > 0 {
        law_requests_are_for_open_documents(due, documents, n - 1);
        let before = requests_of(due, documents, n - 1);
        let after = requests_of(due, documents, n);
        assert forall|i: int| 0 <= i < n && documents.contains_key(#[trigger] due[i]) implies after.contains(
            (due[i], Some(documents[due[i]].version)),
        ) by {
            let request = (due[i], Some(documents[due[i]].version));
            if i < n - 1 {
                assert(before.contains(request));
                let k = choose|k: int| 0 <= k < before.len() && before[k] == request;
                assert(after[k] == request);
            } else {
                assert(after[before.len() as int] == request);
            }
        }
        assert forall|k: int| 0 <= k < after.len() implies {
            let request = #[trigger] after[k];
            due.contains(request.0) && documents.contains_key(request.0) && request.1 == Some(
                documents[request.0].version,
            )
        } by {
            if k < before.len() {
                assert(after[k] == before[k]);
            } else {
                assert(after[k].0 == due[n - 1]);
            }
        }
    }
}

/// As long as time is left, waiting for it brings the deadline, and no time is left from then
/// on.
pub proof fn law_waiting_brings_the_deadline(deadline: u64, now: u64)
    ensures
        now + time_left(deadline, now) >= deadline,
        time_left(deadline, now) > 0 ==> now + time_left(deadline, now) == deadline,
        time_left(deadline, now) == 0 <==> deadline <= now,
{
}

} // verus!
