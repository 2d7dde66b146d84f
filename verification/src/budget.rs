//! The work account of a batch of file notifications.

use std::sync::atomic::AtomicBool;
use std::sync::Arc;
use vstd::prelude::*;

use crate::cancel::{check_workspace_cancel, is_set, raise, stop_when, Interrupt};
use crate::limits::{FileChange, DEFAULT_MAX_FILES, MAX_OPEN_DOCUMENT_URI_BYTES};
use crate::strings::byte_len;
use crate::strmap::StrSet;

verus! {

pub const MAX_NOTIFICATION_RECONCILIATION_PATH_VISITS: usize = 65_536;

pub const MAX_NOTIFICATION_RECONCILIATION_FILE_BYTES: usize = 16 * 1024 * 1024;

pub const MAX_NOTIFICATION_RECONCILIATION_INDEX_BYTES: usize = 16 * 1024 * 1024;

pub const MAX_NOTIFICATION_PROJECT_PATH_KEY_BYTES: usize = 16 * 1024 * 1024;

pub const MAX_NOTIFICATION_RECONCILIATION_DEPENDENCY_EDGES: usize = 65_536;

pub const MAX_NOTIFICATION_DIAGNOSTIC_RECORD_CHECKS: usize = 2_048;

pub const MAX_NOTIFICATION_DIAGNOSTIC_TARGETS: usize = 4_096;

pub const MAX_NOTIFICATION_DIAGNOSTIC_URI_BYTES: usize = 256 * 1024;

pub const MAX_NOTIFICATION_RECOVERY_TARGETS: usize = 10_000;

pub const MAX_NOTIFICATION_RECOVERY_URI_BYTES: usize = 10_000 * 4_096;

/// How much of each kind of work a batch has done.
#[derive(Clone, Copy, Debug, PartialEq, Eq, Structural)]
pub struct ReconciliationWorkUsed {
    pub filesystem_path_visits: usize,
    pub file_event_path_visits: usize,
    pub project_path_key_bytes: usize,
    pub package_path_visits: usize,
    pub include_path_visits: usize,
    pub file_bytes_read: usize,
    pub indexed_source_bytes: usize,
    pub dependency_edges: usize,
    pub diagnostic_record_checks: usize,
    pub unique_diagnostic_targets: usize,
    pub diagnostic_uri_bytes: usize,
}

impl ReconciliationWorkUsed {
    /// No counter is over its limit.
    pub open spec fn within_limits(&self) -> bool {
        &&& self.filesystem_path_visits <= MAX_NOTIFICATION_RECONCILIATION_PATH_VISITS
        &&& self.project_path_key_bytes <= MAX_NOTIFICATION_PROJECT_PATH_KEY_BYTES
        &&& self.file_bytes_read <= MAX_NOTIFICATION_RECONCILIATION_FILE_BYTES
        &&& self.indexed_source_bytes <= MAX_NOTIFICATION_RECONCILIATION_INDEX_BYTES
        &&& self.dependency_edges <= MAX_NOTIFICATION_RECONCILIATION_DEPENDENCY_EDGES
        &&& self.diagnostic_record_checks <= MAX_NOTIFICATION_DIAGNOSTIC_RECORD_CHECKS
        &&& self.unique_diagnostic_targets <= MAX_NOTIFICATION_DIAGNOSTIC_TARGETS
        &&& self.diagnostic_uri_bytes <= MAX_NOTIFICATION_DIAGNOSTIC_URI_BYTES
    }

    /// An account on which nothing has been charged.
    pub open spec fn zero() -> Self {
        ReconciliationWorkUsed {
            filesystem_path_visits: 0,
            file_event_path_visits: 0,
            project_path_key_bytes: 0,
            package_path_visits: 0,
            include_path_visits: 0,
            file_bytes_read: 0,
            indexed_source_bytes: 0,
            dependency_edges: 0,
            diagnostic_record_checks: 0,
            unique_diagnostic_targets: 0,
            diagnostic_uri_bytes: 0,
        }
    }
}

impl Default for ReconciliationWorkUsed {
    fn default() -> (r: Self)
        ensures
            r == ReconciliationWorkUsed::zero(),
    {
        ReconciliationWorkUsed {
            filesystem_path_visits: 0,
            file_event_path_visits: 0,
            project_path_key_bytes: 0,
            package_path_visits: 0,
            include_path_visits: 0,
            file_bytes_read: 0,
            indexed_source_bytes: 0,
            dependency_edges: 0,
            diagnostic_record_checks: 0,
            unique_diagnostic_targets: 0,
            diagnostic_uri_bytes: 0,
        }
    }
}

/// What a charge of `amount` on a counter at `current` comes to, given whether the
/// batch was seen as cancelled and whether its account was already used up.
pub open spec fn charge_outcome(
    cancelled: bool,
    exhausted: bool,
    current: int,
    amount: int,
    limit: int,
) -> Result<usize, Interrupt> {
    if cancelled {
        Err(Interrupt::Cancelled)
    } else if exhausted || current + amount > limit {
        Err(Interrupt::BudgetExceeded)
    } else {
        Ok((current + amount) as usize)
    }
}

pub open spec fn saturating_sum(a: int, b: int) -> int {
    if a + b > usize::MAX {
        usize::MAX as int
    } else {
        a + b
    }
}

/// One shared account of work for a batch of file notifications. Once a charge goes
/// over a limit, every later charge is refused.
pub struct ReconciliationBudget {
    pub cancellation: Arc<AtomicBool>,
    pub used: ReconciliationWorkUsed,
    pub exhausted: bool,
    pub cancel_after_path_visits: Option<usize>,
    pub deleted_uris: StrSet,
    pub rename_endpoints: StrSet,
    pub recovery_target_reserve: usize,
    pub recovery_uri_byte_reserve: usize,
}

impl ReconciliationBudget {
    /// Everything but the work counters, the exhaustion latch and the cancellation
    /// threshold is the same in both.
    pub open spec fn same_records(&self, other: &Self) -> bool {
        &&& self.cancellation == other.cancellation
        &&& self.deleted_uris == other.deleted_uris
        &&& self.rename_endpoints == other.rename_endpoints
        &&& self.recovery_target_reserve == other.recovery_target_reserve
        &&& self.recovery_uri_byte_reserve == other.recovery_uri_byte_reserve
    }

    /// A charge that ended in `r` moved the counters from `before` to `after` where it
    /// was admitted, and left them alone where it was not.
    pub open spec fn charged(
        before: &Self,
        after: &Self,
        r: Result<(), Interrupt>,
        fits: bool,
        counters: ReconciliationWorkUsed,
    ) -> bool {
        &&& after.same_records(before)
        &&& match r {
            Ok(_) => !before.exhausted && fits && after.used == counters && !after.exhausted,
            Err(Interrupt::BudgetExceeded) => (before.exhausted || !fits) && after.used
                == before.used && after.exhausted,
            Err(Interrupt::Cancelled) => after.used == before.used && after.exhausted
                == before.exhausted,
        }
    }

    /// An account with nothing charged on it.
    pub fn new(cancellation: Arc<AtomicBool>) -> (r: Self)
        ensures
            r.cancellation == cancellation,
            r.used == ReconciliationWorkUsed::zero(),
            r.used.within_limits(),
            !r.exhausted,
            r.cancel_after_path_visits is None,
            r.deleted_uris@ == Set::<Seq<char>>::empty(),
            r.rename_endpoints@ == Set::<Seq<char>>::empty(),
            r.recovery_target_reserve == 0,
            r.recovery_uri_byte_reserve == 0,
    {
        ReconciliationBudget {
            cancellation,
            used: ReconciliationWorkUsed::default(),
            exhausted: false,
            cancel_after_path_visits: None,
            deleted_uris: StrSet::new(),
            rename_endpoints: StrSet::new(),
            recovery_target_reserve: 0,
            recovery_uri_byte_reserve: 0,
        }
    }

    /// Decides one charge on a counter that stands at `current`, where the cancellation
    /// flag was seen as `cancelled`. The new value of the counter comes back.
    pub fn charge(&mut self, cancelled: bool, current: usize, amount: usize, limit: usize) -> (r:
        Result<usize, Interrupt>)
        ensures
            r == charge_outcome(
                cancelled,
                old(self).exhausted,
                current as int,
                amount as int,
                limit as int,
            ),
            final(self).exhausted == (old(self).exhausted || r
                == Err::<usize, Interrupt>(Interrupt::BudgetExceeded)),
            final(self).used == old(self).used,
            final(self).cancel_after_path_visits == old(self).cancel_after_path_visits,
            final(self).same_records(old(self)),
    {
        if cancelled {
            return Err(Interrupt::Cancelled);
        }
        if self.exhausted {
            return Err(Interrupt::BudgetExceeded);
        }
        match current.checked_add(amount) {
            Some(next) => {
                if next <= limit {
                    Ok(next)
                } else {
                    self.exhausted = true;
                    Err(Interrupt::BudgetExceeded)
                }
            },
            None => {
                self.exhausted = true;
                Err(Interrupt::BudgetExceeded)
            },
        }
    }

    /// Charges visits of file system paths.
    pub fn charge_path_visits(&mut self, amount: usize) -> (r: Result<(), Interrupt>)
        ensures
            old(self).used.within_limits() ==> final(self).used.within_limits(),
            Self::charged(
                old(self),
                final(self),
                r,
                old(self).used.filesystem_path_visits + amount
                    <= MAX_NOTIFICATION_RECONCILIATION_PATH_VISITS,
                ReconciliationWorkUsed {
                    filesystem_path_visits: (old(self).used.filesystem_path_visits
                        + amount) as usize,
                    ..old(self).used
                },
            ),
            final(self).cancel_after_path_visits == (if r is Ok
                && old(self).cancel_after_path_visits is Some
                && final(self).used.filesystem_path_visits
                >= old(self).cancel_after_path_visits->0 {
                None::<usize>
            } else {
                old(self).cancel_after_path_visits
            }),
    {
        let cancelled = is_set(&self.cancellation);
        let current: usize = self.used.filesystem_path_visits;
        let next: usize = match self.charge(
            cancelled,
            current,
            amount,
            MAX_NOTIFICATION_RECONCILIATION_PATH_VISITS,
        ) {
            Ok(next) => next,
            Err(interrupt) => {
                return Err(interrupt);
            },
        };
        self.used.filesystem_path_visits = next;
        if let Some(threshold) = self.cancel_after_path_visits {
            if next >= threshold {
                self.cancel_after_path_visits = None;
                raise(&self.cancellation);
            }
        }
        Ok(())
    }

    /// Cancels the batch once that many path visits have been charged.
    pub fn cancel_after_path_visits(&mut self, threshold: usize)
        ensures
            final(self).cancel_after_path_visits == Some(threshold),
            final(self).used == old(self).used,
            final(self).exhausted == old(self).exhausted,
            final(self).same_records(old(self)),
    {
        self.cancel_after_path_visits = Some(threshold);
    }

    /// Charges visits of package descriptors and catalogues: ordinary path visits that
    /// are counted once more apart.
    pub fn charge_package_path_visits(&mut self, amount: usize) -> (r: Result<(), Interrupt>)
        ensures
            old(self).used.within_limits() ==> final(self).used.within_limits(),
            Self::charged(
                old(self),
                final(self),
                r,
                old(self).used.filesystem_path_visits + amount
                    <= MAX_NOTIFICATION_RECONCILIATION_PATH_VISITS,
                ReconciliationWorkUsed {
                    filesystem_path_visits: (old(self).used.filesystem_path_visits
                        + amount) as usize,
                    package_path_visits: saturating_sum(
                        old(self).used.package_path_visits as int,
                        amount as int,
                    ) as usize,
                    ..old(self).used
                },
            ),
    {
        self.charge_path_visits(amount)?;
        self.used.package_path_visits = self.used.package_path_visits.saturating_add(amount);
        Ok(())
    }

    /// Charges visits made in search of include owners: ordinary path visits that are
    /// counted once more apart.
    pub fn charge_include_path_visits(&mut self, amount: usize) -> (r: Result<(), Interrupt>)
        ensures
            old(self).used.within_limits() ==> final(self).used.within_limits(),
            Self::charged(
                old(self),
                final(self),
                r,
                old(self).used.filesystem_path_visits + amount
                    <= MAX_NOTIFICATION_RECONCILIATION_PATH_VISITS,
                ReconciliationWorkUsed {
                    filesystem_path_visits: (old(self).used.filesystem_path_visits
                        + amount) as usize,
                    include_path_visits: saturating_sum(
                        old(self).used.include_path_visits as int,
                        amount as int,
                    ) as usize,
                    ..old(self).used
                },
            ),
    {
        self.charge_path_visits(amount)?;
        self.used.include_path_visits = self.used.include_path_visits.saturating_add(amount);
        Ok(())
    }

    /// Charges the visit of the path that a file event names.
    pub fn charge_file_event_path_visit(&mut self, package_descriptor: bool) -> (r: Result<
        (),
        Interrupt,
    >)
        ensures
            old(self).used.within_limits() ==> final(self).used.within_limits(),
            Self::charged(
                old(self),
                final(self),
                r,
                old(self).used.filesystem_path_visits + 1
                    <= MAX_NOTIFICATION_RECONCILIATION_PATH_VISITS,
                ReconciliationWorkUsed {
                    filesystem_path_visits: (old(self).used.filesystem_path_visits + 1) as usize,
                    package_path_visits: if package_descriptor {
                        saturating_sum(old(self).used.package_path_visits as int, 1) as usize
                    } else {
                        old(self).used.package_path_visits
                    },
                    file_event_path_visits: saturating_sum(
                        old(self).used.file_event_path_visits as int,
                        1,
                    ) as usize,
                    ..old(self).used
                },
            ),
    {
        if package_descriptor {
            self.charge_package_path_visits(1)?;
        } else {
            self.charge_path_visits(1)?;
        }
        self.used.file_event_path_visits = self.used.file_event_path_visits.saturating_add(1);
        Ok(())
    }

    /// Charges bytes of project path keys.
    pub fn charge_project_path_key_bytes(&mut self, amount: usize) -> (r: Result<(), Interrupt>)
        ensures
            old(self).used.within_limits() ==> final(self).used.within_limits(),
            Self::charged(
                old(self),
                final(self),
                r,
                old(self).used.project_path_key_bytes + amount
                    <= MAX_NOTIFICATION_PROJECT_PATH_KEY_BYTES,
                ReconciliationWorkUsed {
                    project_path_key_bytes: (old(self).used.project_path_key_bytes
                        + amount) as usize,
                    ..old(self).used
                },
            ),
    {
        let cancelled = is_set(&self.cancellation);
        let current: usize = self.used.project_path_key_bytes;
        let next: usize = self.charge(
            cancelled,
            current,
            amount,
            MAX_NOTIFICATION_PROJECT_PATH_KEY_BYTES,
        )?;
        self.used.project_path_key_bytes = next;
        Ok(())
    }

    /// Charges bytes read from files.
    pub fn charge_file_bytes(&mut self, amount: usize) -> (r: Result<(), Interrupt>)
        ensures
            old(self).used.within_limits() ==> final(self).used.within_limits(),
            Self::charged(
                old(self),
                final(self),
                r,
                old(self).used.file_bytes_read + amount
                    <= MAX_NOTIFICATION_RECONCILIATION_FILE_BYTES,
                ReconciliationWorkUsed {
                    file_bytes_read: (old(self).used.file_bytes_read + amount) as usize,
                    ..old(self).used
                },
            ),
    {
        let cancelled = is_set(&self.cancellation);
        let current: usize = self.used.file_bytes_read;
        let next: usize = self.charge(
            cancelled,
            current,
            amount,
            MAX_NOTIFICATION_RECONCILIATION_FILE_BYTES,
        )?;
        self.used.file_bytes_read = next;
        Ok(())
    }

    /// Makes sure that a read of at most `max_bytes` could still be charged. Nothing is
    /// charged, but a read that could not be latches the account.
    pub fn ensure_file_read_fits(&mut self, max_bytes: usize) -> (r: Result<(), Interrupt>)
        ensures
            old(self).used.within_limits() ==> final(self).used.within_limits(),
            Self::charged(
                old(self),
                final(self),
                r,
                old(self).used.file_bytes_read + max_bytes
                    <= MAX_NOTIFICATION_RECONCILIATION_FILE_BYTES,
                old(self).used,
            ),
    {
        let cancelled = is_set(&self.cancellation);
        let current: usize = self.used.file_bytes_read;
        let _next: usize = self.charge(
            cancelled,
            current,
            max_bytes,
            MAX_NOTIFICATION_RECONCILIATION_FILE_BYTES,
        )?;
        Ok(())
    }

    /// Charges bytes of indexed sources.
    pub fn charge_indexed_bytes(&mut self, amount: usize) -> (r: Result<(), Interrupt>)
        ensures
            old(self).used.within_limits() ==> final(self).used.within_limits(),
            Self::charged(
                old(self),
                final(self),
                r,
                old(self).used.indexed_source_bytes + amount
                    <= MAX_NOTIFICATION_RECONCILIATION_INDEX_BYTES,
                ReconciliationWorkUsed {
                    indexed_source_bytes: (old(self).used.indexed_source_bytes + amount) as usize,
                    ..old(self).used
                },
            ),
    {
        let cancelled = is_set(&self.cancellation);
        let current: usize = self.used.indexed_source_bytes;
        let next: usize = self.charge(
            cancelled,
            current,
            amount,
            MAX_NOTIFICATION_RECONCILIATION_INDEX_BYTES,
        )?;
        self.used.indexed_source_bytes = next;
        Ok(())
    }

    /// Charges edges of the dependency graph.
    pub fn charge_dependency_edges(&mut self, amount: usize) -> (r: Result<(), Interrupt>)
        ensures
            old(self).used.within_limits() ==> final(self).used.within_limits(),
            Self::charged(
                old(self),
                final(self),
                r,
                old(self).used.dependency_edges + amount
                    <= MAX_NOTIFICATION_RECONCILIATION_DEPENDENCY_EDGES,
                ReconciliationWorkUsed {
                    dependency_edges: (old(self).used.dependency_edges + amount) as usize,
                    ..old(self).used
                },
            ),
    {
        let cancelled = is_set(&self.cancellation);
        let current: usize = self.used.dependency_edges;
        let next: usize = self.charge(
            cancelled,
            current,
            amount,
            MAX_NOTIFICATION_RECONCILIATION_DEPENDENCY_EDGES,
        )?;
        self.used.dependency_edges = next;
        Ok(())
    }

    /// Charges one check of a diagnostic record.
    pub fn charge_diagnostic_check(&mut self) -> (r: Result<(), Interrupt>)
        ensures
            old(self).used.within_limits() ==> final(self).used.within_limits(),
            Self::charged(
                old(self),
                final(self),
                r,
                old(self).used.diagnostic_record_checks + 1
                    <= MAX_NOTIFICATION_DIAGNOSTIC_RECORD_CHECKS,
                ReconciliationWorkUsed {
                    diagnostic_record_checks: (old(self).used.diagnostic_record_checks
                        + 1) as usize,
                    ..old(self).used
                },
            ),
    {
        let cancelled = is_set(&self.cancellation);
        let current: usize = self.used.diagnostic_record_checks;
        let next: usize = self.charge(
            cancelled,
            current,
            1,
            MAX_NOTIFICATION_DIAGNOSTIC_RECORD_CHECKS,
        )?;
        self.used.diagnostic_record_checks = next;
        Ok(())
    }

    /// Charges a target that diagnostics are due for, with the bytes of its URI. A URI
    /// for which there is no room latches the account even after a cancellation.
    pub fn charge_diagnostic_target(&mut self, uri: &str) -> (r: Result<(), Interrupt>)
        ensures
            old(self).used.within_limits() ==> final(self).used.within_limits(),
            final(self).same_records(old(self)),
            final(self).cancel_after_path_visits == old(self).cancel_after_path_visits,
            ({
                let bytes = old(self).used.diagnostic_uri_bytes + byte_len(uri@);
                if bytes > MAX_NOTIFICATION_DIAGNOSTIC_URI_BYTES {
                    &&& r == Err::<(), Interrupt>(Interrupt::BudgetExceeded)
                    &&& final(self).exhausted
                    &&& final(self).used == old(self).used
                } else {
                    Self::charged(
                        old(self),
                        final(self),
                        r,
                        old(self).used.unique_diagnostic_targets + 1
                            <= MAX_NOTIFICATION_DIAGNOSTIC_TARGETS,
                        ReconciliationWorkUsed {
                            unique_diagnostic_targets: (old(self).used.unique_diagnostic_targets
                                + 1) as usize,
                            diagnostic_uri_bytes: bytes as usize,
                            ..old(self).used
                        },
                    )
                }
            }),
    {
        let length: usize = uri.as_bytes().len();
        let next_bytes: usize = match self.used.diagnostic_uri_bytes.checked_add(length) {
            Some(next) => next,
            None => {
                self.exhausted = true;
                return Err(Interrupt::BudgetExceeded);
            },
        };
        if next_bytes > MAX_NOTIFICATION_DIAGNOSTIC_URI_BYTES {
            self.exhausted = true;
            return Err(Interrupt::BudgetExceeded);
        }
        let cancelled = is_set(&self.cancellation);
        let current: usize = self.used.unique_diagnostic_targets;
        let next: usize = self.charge(
            cancelled,
            current,
            1,
            MAX_NOTIFICATION_DIAGNOSTIC_TARGETS,
        )?;
        self.used.unique_diagnostic_targets = next;
        self.used.diagnostic_uri_bytes = next_bytes;
        Ok(())
    }

    /// Whether a charge has been refused for want of room.
    pub fn is_exhausted(&self) -> (r: bool)
        ensures
            r == self.exhausted,
    {
        self.exhausted
    }

    /// Whether the batch is cancelled at this moment.
    pub fn is_cancelled(&self) -> bool {
        is_set(&self.cancellation)
    }

    /// Stops work whose flag was seen as `cancelled`, or whose account is used up.
    pub fn check_observed(&self, cancelled: bool) -> (r: Result<(), Interrupt>)
        ensures
            r == (if cancelled {
                Err::<(), Interrupt>(Interrupt::Cancelled)
            } else if self.exhausted {
                Err(Interrupt::BudgetExceeded)
            } else {
                Ok(())
            }),
    {
        stop_when(cancelled)?;
        if self.exhausted {
            Err(Interrupt::BudgetExceeded)
        } else {
            Ok(())
        }
    }

    /// Stops work that was cancelled or whose account is used up.
    pub fn check_cancelled(&self) -> (r: Result<(), Interrupt>)
        ensures
            r is Ok ==> !self.exhausted,
            r == Err::<(), Interrupt>(Interrupt::BudgetExceeded) ==> self.exhausted,
    {
        self.check_observed(is_set(&self.cancellation))
    }

    /// Keeps in mind which files the batch reported as deleted and not since as present.
    pub fn record_file_event(&mut self, uri: String, change: FileChange)
        ensures
            final(self).deleted_uris@ == (if change is Deleted {
                old(self).deleted_uris@.insert(uri@)
            } else {
                old(self).deleted_uris@.remove(uri@)
            }),
            final(self).used == old(self).used,
            final(self).exhausted == old(self).exhausted,
            final(self).rename_endpoints == old(self).rename_endpoints,
            final(self).recovery_target_reserve == old(self).recovery_target_reserve,
            final(self).recovery_uri_byte_reserve == old(self).recovery_uri_byte_reserve,
    {
        match change {
            FileChange::Deleted => {
                let _added = self.deleted_uris.insert(uri);
            },
            FileChange::Created | FileChange::Changed => {
                let _removed = self.deleted_uris.remove(uri.as_str());
            },
        }
    }

    /// Keeps in mind an old or new name of a renamed file.
    pub fn record_rename_endpoint(&mut self, uri: String)
        ensures
            final(self).rename_endpoints@ == old(self).rename_endpoints@.insert(uri@),
            final(self).used == old(self).used,
            final(self).exhausted == old(self).exhausted,
            final(self).deleted_uris == old(self).deleted_uris,
            final(self).recovery_target_reserve == old(self).recovery_target_reserve,
            final(self).recovery_uri_byte_reserve == old(self).recovery_uri_byte_reserve,
    {
        let _added = self.rename_endpoints.insert(uri);
    }

    /// Sets aside what recovery may need: it stays available after exhaustion or
    /// cancellation, and is bounded by the limits on open documents.
    pub fn reserve_recovery_envelope(&mut self)
        ensures
            final(self).recovery_target_reserve == DEFAULT_MAX_FILES,
            final(self).recovery_uri_byte_reserve == DEFAULT_MAX_FILES
                * MAX_OPEN_DOCUMENT_URI_BYTES,
            final(self).used == old(self).used,
            final(self).exhausted == old(self).exhausted,
            final(self).deleted_uris == old(self).deleted_uris,
            final(self).rename_endpoints == old(self).rename_endpoints,
            final(self).cancellation == old(self).cancellation,
            final(self).cancel_after_path_visits == old(self).cancel_after_path_visits,
    {
        self.recovery_target_reserve = MAX_NOTIFICATION_RECOVERY_TARGETS;
        self.recovery_uri_byte_reserve = MAX_NOTIFICATION_RECOVERY_URI_BYTES;
    }
}

/// What bounds a piece of work: a flag by which its request is taken back, and the
/// account of its notification batch. Either may be missing.
pub struct Work<'a> {
    pub cancel: Option<&'a AtomicBool>,
    pub budget: Option<ReconciliationBudget>,
}

impl<'a> Work<'a> {
    /// Nothing can stop this work.
    pub open spec fn unbounded(&self) -> bool {
        self.cancel is None && self.budget is None
    }

    /// There is an account, and a charge on it was refused for want of room.
    pub open spec fn used_up(&self) -> bool {
        self.budget is Some && self.budget->0.exhausted
    }

    /// The path visits charged so far.
    pub open spec fn visits(&self) -> int {
        match self.budget {
            Some(budget) => budget.used.filesystem_path_visits as int,
            None => 0,
        }
    }

    /// There is room for `amount` more path visits.
    pub open spec fn has_room(&self, amount: int) -> bool {
        match self.budget {
            Some(budget) => !budget.exhausted && budget.used.filesystem_path_visits + amount
                <= MAX_NOTIFICATION_RECONCILIATION_PATH_VISITS,
            None => true,
        }
    }

    /// There is room for `visits` more path visits and `bytes` more indexed bytes.
    pub open spec fn affords(&self, visits: int, bytes: int) -> bool {
        self.budget is Some ==> {
            &&& !self.budget->0.exhausted
            &&& self.visits() + visits <= MAX_NOTIFICATION_RECONCILIATION_PATH_VISITS
            &&& self.indexed() + bytes <= MAX_NOTIFICATION_RECONCILIATION_INDEX_BYTES
        }
    }

    /// The same flag, and an account exactly where there was one, with no fewer visits
    /// charged on it.
    pub open spec fn continues(&self, before: &Self) -> bool {
        &&& self.cancel == before.cancel
        &&& self.visits() >= before.visits()
        &&& self.budget is Some == before.budget is Some
        &&& self.budget is Some ==> self.budget->0.same_records(&before.budget->0)
    }

    /// `amount` path visits were charged on the account, if there is one, and nothing
    /// else was.
    pub open spec fn visited(&self, before: &Self, amount: int) -> bool {
        &&& self.continues(before)
        &&& self.budget is Some ==> {
            &&& amount > 0 ==> before.has_room(amount)
            &&& self.budget->0.exhausted == before.budget->0.exhausted
            &&& self.budget->0.used == (ReconciliationWorkUsed {
                filesystem_path_visits: (before.visits() + amount) as usize,
                ..before.budget->0.used
            })
        }
    }

    /// The indexed bytes charged so far.
    pub open spec fn indexed(&self) -> int {
        match self.budget {
            Some(budget) => budget.used.indexed_source_bytes as int,
            None => 0,
        }
    }

    /// Path visits and indexed bytes were charged on the account, if there is one, and
    /// nothing else was.
    pub open spec fn spent(&self, before: &Self, visits: int, bytes: int) -> bool {
        &&& self.continues(before)
        &&& self.budget is Some ==> {
            &&& visits > 0 || bytes > 0 ==> !before.budget->0.exhausted
            &&& visits > 0 ==> before.visits() + visits
                <= MAX_NOTIFICATION_RECONCILIATION_PATH_VISITS
            &&& bytes > 0 ==> before.indexed() + bytes
                <= MAX_NOTIFICATION_RECONCILIATION_INDEX_BYTES
            &&& self.budget->0.exhausted == before.budget->0.exhausted
            &&& self.budget->0.used == (ReconciliationWorkUsed {
                filesystem_path_visits: (before.visits() + visits) as usize,
                indexed_source_bytes: (before.indexed() + bytes) as usize,
                ..before.budget->0.used
            })
        }
    }

    /// Path visits and indexed bytes were charged on the account, if there is one. Some of
    /// the visits were counted once more as visits of packages or in search of include
    /// owners.
    pub open spec fn counted(
        &self,
        before: &Self,
        visits: int,
        packages: int,
        includes: int,
        bytes: int,
    ) -> bool {
        &&& self.continues(before)
        &&& self.budget is Some ==> {
            &&& visits > 0 || bytes > 0 ==> !before.budget->0.exhausted
            &&& visits > 0 ==> before.visits() + visits
                <= MAX_NOTIFICATION_RECONCILIATION_PATH_VISITS
            &&& bytes > 0 ==> before.indexed() + bytes
                <= MAX_NOTIFICATION_RECONCILIATION_INDEX_BYTES
            &&& self.budget->0.exhausted == before.budget->0.exhausted
            &&& self.budget->0.used == (ReconciliationWorkUsed {
                filesystem_path_visits: (before.visits() + visits) as usize,
                package_path_visits: saturating_sum(
                    before.budget->0.used.package_path_visits as int,
                    packages,
                ) as usize,
                include_path_visits: saturating_sum(
                    before.budget->0.used.include_path_visits as int,
                    includes,
                ) as usize,
                indexed_source_bytes: (before.indexed() + bytes) as usize,
                ..before.budget->0.used
            })
        }
    }

    /// Bytes that are read can be charged on the account, if there is one.
    pub open spec fn read_fits(&self, amount: int) -> bool {
        match self.budget {
            Some(budget) => !budget.exhausted && budget.used.file_bytes_read + amount
                <= MAX_NOTIFICATION_RECONCILIATION_FILE_BYTES,
            None => true,
        }
    }

    /// Bytes that were read were charged on the account, if there is one, and nothing else
    /// was.
    pub open spec fn read_charged(&self, before: &Self, amount: int) -> bool {
        &&& self.continues(before)
        &&& before.read_fits(amount)
        &&& self.budget is Some ==> {
            &&& !self.budget->0.exhausted
            &&& self.budget->0.used == (ReconciliationWorkUsed {
                file_bytes_read: (before.budget->0.used.file_bytes_read + amount) as usize,
                ..before.budget->0.used
            })
        }
    }

    /// Work that nothing stops.
    pub fn free() -> (r: Work<'a>)
        ensures
            r.unbounded(),
    {
        Work { cancel: None, budget: None }
    }

    /// Work that a flag stops.
    pub fn cancellable(cancel: &'a AtomicBool) -> (r: Work<'a>)
        ensures
            r.cancel == Some(cancel),
            r.budget is None,
    {
        Work { cancel: Some(cancel), budget: None }
    }

    /// Work on the account of a batch.
    pub fn budgeted(budget: ReconciliationBudget) -> (r: Work<'a>)
        ensures
            r.cancel is None,
            r.budget == Some(budget),
    {
        Work { cancel: None, budget: Some(budget) }
    }

    /// Stops the work where its flag is set.
    pub fn check(&self) -> (r: Result<(), Interrupt>)
        ensures
            self.cancel is None ==> r is Ok,
            r is Err ==> r == Err::<(), Interrupt>(Interrupt::Cancelled),
    {
        check_workspace_cancel(self.cancel)
    }

    /// Stops the work where its account is used up or its batch was cancelled.
    pub fn settle(&self) -> (r: Result<(), Interrupt>)
        ensures
            self.budget is None ==> r is Ok,
            r is Ok && self.budget is Some ==> !self.budget->0.exhausted,
            r == Err::<(), Interrupt>(Interrupt::BudgetExceeded) ==> self.budget is Some
                && self.budget->0.exhausted,
    {
        match &self.budget {
            Some(budget) => budget.check_cancelled(),
            None => Ok(()),
        }
    }

    /// Charges indexed bytes on the account, if there is one.
    pub fn index(&mut self, amount: usize) -> (r: Result<(), Interrupt>)
        ensures
            final(self).continues(old(self)),
            old(self).budget is None ==> r is Ok,
            r is Ok ==> final(self).spent(old(self), 0, amount as int),
            r matches Err(Interrupt::BudgetExceeded) ==> !old(self).affords(0, amount as int),
            r matches Err(Interrupt::BudgetExceeded) ==> final(self).used_up(),
    {
        match self.budget.take() {
            Some(mut budget) => {
                let r = budget.charge_indexed_bytes(amount);
                self.budget = Some(budget);
                r
            },
            None => Ok(()),
        }
    }

    /// Makes sure that a read of at most `max_bytes` could still be charged on the account,
    /// if there is one. Nothing is charged.
    pub fn ensure_read(&mut self, max_bytes: usize) -> (r: Result<(), Interrupt>)
        ensures
            final(self).continues(old(self)),
            old(self).budget is None ==> r is Ok,
            r matches Err(Interrupt::BudgetExceeded) ==> final(self).used_up(),
            r is Ok ==> final(self).spent(old(self), 0, 0) && old(self).read_fits(
                max_bytes as int,
            ),
            r == Err::<(), Interrupt>(Interrupt::BudgetExceeded) ==> !old(self).read_fits(
                max_bytes as int,
            ),
    {
        match self.budget.take() {
            Some(mut budget) => {
                let r = budget.ensure_file_read_fits(max_bytes);
                self.budget = Some(budget);
                r
            },
            None => Ok(()),
        }
    }

    /// Charges bytes that were read on the account, if there is one.
    pub fn charge_read(&mut self, amount: usize) -> (r: Result<(), Interrupt>)
        ensures
            final(self).continues(old(self)),
            old(self).budget is None ==> r is Ok,
            r matches Err(Interrupt::BudgetExceeded) ==> final(self).used_up(),
            r is Ok ==> final(self).read_charged(old(self), amount as int),
            r == Err::<(), Interrupt>(Interrupt::BudgetExceeded) ==> !old(self).read_fits(
                amount as int,
            ),
    {
        match self.budget.take() {
            Some(mut budget) => {
                let r = budget.charge_file_bytes(amount);
                self.budget = Some(budget);
                r
            },
            None => Ok(()),
        }
    }

    /// Charges visits of packages on the account, if there is one.
    pub fn visit_packages(&mut self, amount: usize) -> (r: Result<(), Interrupt>)
        ensures
            final(self).continues(old(self)),
            old(self).budget is None ==> r is Ok,
            r is Ok ==> final(self).counted(old(self), amount as int, amount as int, 0, 0),
            r matches Err(Interrupt::BudgetExceeded) ==> !old(self).affords(amount as int, 0),
            r matches Err(Interrupt::BudgetExceeded) ==> final(self).used_up(),
    {
        match self.budget.take() {
            Some(mut budget) => {
                let r = budget.charge_package_path_visits(amount);
                self.budget = Some(budget);
                r
            },
            None => Ok(()),
        }
    }

    /// Charges visits in search of include owners on the account, if there is one.
    pub fn visit_includes(&mut self, amount: usize) -> (r: Result<(), Interrupt>)
        ensures
            final(self).continues(old(self)),
            old(self).budget is None ==> r is Ok,
            r is Ok ==> final(self).counted(old(self), amount as int, 0, amount as int, 0),
            r matches Err(Interrupt::BudgetExceeded) ==> !old(self).affords(amount as int, 0),
            r matches Err(Interrupt::BudgetExceeded) ==> final(self).used_up(),
    {
        match self.budget.take() {
            Some(mut budget) => {
                let r = budget.charge_include_path_visits(amount);
                self.budget = Some(budget);
                r
            },
            None => Ok(()),
        }
    }

    /// Charges path visits on the account, if there is one.
    pub fn visit(&mut self, amount: usize) -> (r: Result<(), Interrupt>)
        ensures
            r is Ok ==> final(self).spent(old(self), amount as int, 0),
            final(self).continues(old(self)),
            old(self).budget is None ==> r is Ok,
            r is Ok ==> final(self).visited(old(self), amount as int),
            r == Err::<(), Interrupt>(Interrupt::BudgetExceeded) ==> !old(self).has_room(
                amount as int,
            ) && final(self).budget is Some && final(self).budget->0.exhausted,
            r matches Err(Interrupt::BudgetExceeded) ==> !old(self).affords(amount as int, 0),
            r is Err ==> final(self).visits() == old(self).visits(),
    {
        match self.budget.take() {
            Some(mut budget) => {
                let r = budget.charge_path_visits(amount);
                self.budget = Some(budget);
                r
            },
            None => Ok(()),
        }
    }
}

/// Charges add up.
pub proof fn lemma_spent_adds(
    first: &Work,
    middle: &Work,
    last: &Work,
    visits: int,
    bytes: int,
    more_visits: int,
    more_bytes: int,
)
    requires
        0 <= visits,
        0 <= bytes,
        0 <= more_visits,
        0 <= more_bytes,
        middle.spent(first, visits, bytes),
        last.spent(middle, more_visits, more_bytes),
    ensures
        last.spent(first, visits + more_visits, bytes + more_bytes),
{
    if last.budget is Some {
        assert(last.budget->0.used =~= (ReconciliationWorkUsed {
            filesystem_path_visits: (first.visits() + visits + more_visits) as usize,
            indexed_source_bytes: (first.indexed() + bytes + more_bytes) as usize,
            ..first.budget->0.used
        }));
    }
}

/// What is affordable as a whole is affordable after a part of it.
pub proof fn lemma_rest_is_afforded(
    first: &Work,
    middle: &Work,
    spent: (int, int),
    rest: (int, int),
    whole: (int, int),
)
    requires
        0 <= spent.0 && 0 <= spent.1 && 0 <= rest.0 && 0 <= rest.1,
        spent.0 + rest.0 <= whole.0,
        spent.1 + rest.1 <= whole.1,
        middle.spent(first, spent.0, spent.1),
    ensures
        first.affords(whole.0, whole.1) ==> middle.affords(rest.0, rest.1),
{
}

/// Charges add up, whatever they were counted as.
pub proof fn lemma_counted_adds(
    first: &Work,
    middle: &Work,
    last: &Work,
    a: (int, int, int, int),
    b: (int, int, int, int),
)
    requires
        0 <= a.0 && 0 <= a.1 && 0 <= a.2 && 0 <= a.3,
        0 <= b.0 && 0 <= b.1 && 0 <= b.2 && 0 <= b.3,
        middle.counted(first, a.0, a.1, a.2, a.3),
        last.counted(middle, b.0, b.1, b.2, b.3),
    ensures
        last.counted(first, a.0 + b.0, a.1 + b.1, a.2 + b.2, a.3 + b.3),
{
}

/// Plain charges are counted as nothing else.
pub proof fn lemma_spent_is_counted(first: &Work, last: &Work, visits: int, bytes: int)
    ensures
        last.spent(first, visits, bytes) == last.counted(first, visits, 0, 0, bytes),
{
}

/// How many binary digits a number has.
pub open spec fn bit_length(n: nat) -> nat
    decreases n,
{
    if n == 0 {
        0
    } else {
        1 + bit_length(n / 2)
    }
}

/// The visits that sorting `len` items is charged: one for each item at each level of a
/// binary merge.
pub open spec fn sort_work(len: nat) -> nat {
    if len < 2 {
        len
    } else if len * bit_length(len) > usize::MAX {
        usize::MAX as nat
    } else {
        len * bit_length(len)
    }
}

/// The visits that sorting `len` items is charged.
pub fn sort_work_estimate(len: usize) -> (r: usize)
    ensures
        r == sort_work(len as nat),
{
    if len < 2 {
        return len;
    }
    let mut levels: usize = 0;
    let mut rest: usize = len;
    while rest > 0
        invariant
            levels + bit_length(rest as nat) == bit_length(len as nat),
            levels + rest <= len,
        decreases rest,
    {
        rest = rest / 2;
        levels = levels + 1;
    }
    match len.checked_mul(levels) {
        Some(work) => work,
        None => usize::MAX,
    }
}

/// A refused charge stays refused: once an account is used up, no charge is admitted,
/// whatever the cancellation flag shows.
pub proof fn law_exhaustion_latches(cancelled: bool, current: int, amount: int, limit: int)
    ensures
        charge_outcome(cancelled, true, current, amount, limit) is Err,
{
}

} // verus!
