//! Cancellation of requests.

use std::sync::atomic::{AtomicBool, Ordering};
use vstd::prelude::*;

verus! {

/// What a cancelled request is answered.
pub const CANCELLATION_MESSAGE: &'static str = "request cancelled";

/// What a notification whose work went over its budget is answered.
pub const NOTIFICATION_RECONCILIATION_BUDGET_EXCEEDED: &'static str =
    "workspace notification reconciliation work budget exceeded";

/// Why work stopped before it was done.
#[derive(Clone, Copy, Debug, PartialEq, Eq, Structural)]
pub enum Interrupt {
    /// The client took the request back.
    Cancelled,
    /// The work account of the notification is used up.
    BudgetExceeded,
}

impl Interrupt {
    /// The text under which this is reported.
    pub open spec fn text(&self) -> Seq<char> {
        match self {
            Interrupt::Cancelled => CANCELLATION_MESSAGE@,
            Interrupt::BudgetExceeded => NOTIFICATION_RECONCILIATION_BUDGET_EXCEEDED@,
        }
    }

    /// The text under which this is reported.
    pub fn message(&self) -> (r: String)
        ensures
            r@ == self.text(),
    {
        match self {
            Interrupt::Cancelled => CANCELLATION_MESSAGE.to_owned(),
            Interrupt::BudgetExceeded => NOTIFICATION_RECONCILIATION_BUDGET_EXCEEDED.to_owned(),
        }
    }
}

/// Whether the flag is set at this moment. Another thread may set it at any time,
/// so nothing is known of what comes back.
pub fn is_set(flag: &AtomicBool) -> bool {
    flag.load(Ordering::Relaxed)
}

/// Sets the flag.
pub fn raise(flag: &AtomicBool) {
    flag.store(true, Ordering::Relaxed)
}

/// Stops a request whose flag was seen as `cancelled`.
pub fn stop_when(cancelled: bool) -> (r: Result<(), Interrupt>)
    ensures
        r == (if cancelled {
            Err::<(), Interrupt>(Interrupt::Cancelled)
        } else {
            Ok(())
        }),
{
    if cancelled {
        Err(Interrupt::Cancelled)
    } else {
        Ok(())
    }
}

/// Stops a request whose flag is set. Without a flag it goes on.
pub fn check_workspace_cancel(cancel: Option<&AtomicBool>) -> (r: Result<(), Interrupt>)
    ensures
        cancel is None ==> r is Ok,
        r is Err ==> r == Err::<(), Interrupt>(Interrupt::Cancelled),
{
    match cancel {
        Some(flag) => stop_when(is_set(flag)),
        None => Ok(()),
    }
}

} // verus!
