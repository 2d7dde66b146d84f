//! How a source is read from disk: what is charged for it, and what is refused.

use vstd::prelude::*;

use crate::budget::Work;
use crate::cancel::Interrupt;
use crate::paths::{path_text, FilePath, Parts};
use crate::strings::{concat, concat3, decimal, to_decimal};

verus! {

/// Why a source was not read.
#[derive(Debug)]
pub enum ReadFailure {
    /// The work was stopped.
    Stopped(Interrupt),
    /// The file is not one that is read.
    Refused(String),
}

/// Why a source was not read.
pub enum FailureView {
    Stopped(Interrupt),
    Refused(Seq<char>),
}

impl View for ReadFailure {
    type V = FailureView;

    open spec fn view(&self) -> FailureView {
        match self {
            ReadFailure::Stopped(interrupt) => FailureView::Stopped(*interrupt),
            ReadFailure::Refused(reason) => FailureView::Refused(reason@),
        }
    }
}

impl ReadFailure {
    /// How the failure reads.
    pub open spec fn text(&self) -> Seq<char> {
        match self {
            ReadFailure::Stopped(interrupt) => interrupt.text(),
            ReadFailure::Refused(reason) => reason@,
        }
    }

    /// How the failure reads.
    pub fn message(&self) -> (r: String)
        ensures
            r@ == self.text(),
    {
        match self {
            ReadFailure::Stopped(interrupt) => interrupt.message(),
            ReadFailure::Refused(reason) => reason.clone(),
        }
    }
}

/// A length in decimal digits.
fn length_digits(n: u64) -> (r: String)
    ensures
        r@ == decimal(n as nat),
    decreases n,
{
    let last = (48u8 + ((n % 10) as u8)) as char;
    if n < 10 {
        let mut r = String::new();
        r.push(last);
        proof {
            assert(r@ =~= decimal(n as nat));
        }
        r
    } else {
        let mut r = length_digits(n / 10);
        r.push(last);
        r
    }
}

/// What is said of a file that cannot be looked at.
pub open spec fn uninspected_text(path: Parts, error: Seq<char>) -> Seq<char> {
    "cannot inspect "@ + path_text(path) + ": "@ + error
}

/// What is said of a file that cannot be looked at.
pub fn uninspected_message(path: &FilePath, error: &str) -> (r: String)
    ensures
        r@ == uninspected_text(path@, error@),
{
    let head = concat3("cannot inspect ", path.text().as_str(), ": ");
    concat(head.as_str(), error)
}

/// What is said of a file whose contents cannot be had.
pub open spec fn unreadable_text(path: Parts, error: Seq<char>) -> Seq<char> {
    "cannot read "@ + path_text(path) + ": "@ + error
}

/// What is said of a file whose contents cannot be had.
pub fn unreadable_message(path: &FilePath, error: &str) -> (r: String)
    ensures
        r@ == unreadable_text(path@, error@),
{
    let head = concat3("cannot read ", path.text().as_str(), ": ");
    concat(head.as_str(), error)
}

/// What is said of a link that is not followed.
pub open spec fn symlink_text(path: Parts) -> Seq<char> {
    path_text(path) + " is a symlink and not an authorized workspace source"@
}

/// What is said of something that is no file.
pub open spec fn irregular_text(path: Parts) -> Seq<char> {
    path_text(path) + " is not a regular file"@
}

/// What is said of a file that is too large.
pub open spec fn too_large_text(path: Parts, length: u64, max_bytes: usize) -> Seq<char> {
    path_text(path) + " is "@ + decimal(length as nat) + " bytes; the configured per-file limit is "@
        + decimal(max_bytes as nat)
}

/// What is said of a file whose text is too large.
pub open spec fn decoded_too_large_text(path: Parts, max_bytes: usize) -> Seq<char> {
    "decoded contents of "@ + path_text(path) + " exceed the configured per-file limit "@ + decimal(
        max_bytes as nat,
    )
}

/// Prepares to read a file of at most `max_bytes`: the read must still fit the account, and
/// one visit is charged.
pub fn begin_disk_read(max_bytes: usize, work: &mut Work) -> (r: Result<(), Interrupt>)
    ensures
        final(work).continues(old(work)),
        old(work).unbounded() ==> r is Ok,
        r matches Err(Interrupt::BudgetExceeded) ==> final(work).used_up(),
        r is Ok ==> old(work).read_fits(max_bytes as int) && final(work).spent(old(work), 1, 0),
        r == Err::<(), Interrupt>(Interrupt::BudgetExceeded) ==> !old(work).read_fits(
            max_bytes as int,
        ) || !old(work).has_room(1),
{
    work.check()?;
    work.ensure_read(max_bytes)?;
    work.visit(1)
}

/// Looks at what stands at a path. Returns whether it is a link that is to be followed, for
/// which one more visit is charged.
pub fn consider_link(
    path: &FilePath,
    is_symlink: bool,
    allow_legacy_payload: bool,
    work: &mut Work,
) -> (r: Result<bool, ReadFailure>)
    ensures
        final(work).continues(old(work)),
        match r {
            Ok(follow) => {
                &&& follow == is_symlink
                &&& is_symlink ==> allow_legacy_payload
                &&& final(work).spent(
                    old(work),
                    if is_symlink {
                        1
                    } else {
                        0
                    },
                    0,
                )
            },
            Err(failure) => if is_symlink && !allow_legacy_payload {
                failure@ == FailureView::Refused(symlink_text(path@)) && *final(work) == *old(work)
            } else {
                is_symlink && failure@ is Stopped
            },
        },
        old(work).unbounded() ==> r is Ok == (is_symlink ==> allow_legacy_payload),
        r is Err && r->Err_0@ == FailureView::Stopped(Interrupt::BudgetExceeded) ==> !old(
            work,
        ).affords(1, 0) && final(work).used_up(),
{
    if !is_symlink {
        return Ok(false);
    }
    if !allow_legacy_payload {
        return Err(
            ReadFailure::Refused(
                concat(
                    path.text().as_str(),
                    " is a symlink and not an authorized workspace source",
                ),
            ),
        );
    }
    match work.visit(1) {
        Ok(_) => Ok(true),
        Err(interrupt) => Err(ReadFailure::Stopped(interrupt)),
    }
}

/// Whether a file may be read for what it is: a regular one, and no longer than is allowed.
pub fn admit_file(path: &FilePath, is_file: bool, length: u64, max_bytes: usize) -> (r: Result<
    (),
    String,
>)
    ensures
        match r {
            Ok(_) => is_file && length <= max_bytes,
            Err(reason) => if !is_file {
                reason@ == irregular_text(path@)
            } else {
                length > max_bytes && reason@ == too_large_text(path@, length, max_bytes)
            },
        },
{
    if !is_file {
        return Err(concat(path.text().as_str(), " is not a regular file"));
    }
    if length > max_bytes as u64 {
        let head = concat3(path.text().as_str(), " is ", length_digits(length).as_str());
        return Err(
            concat3(
                head.as_str(),
                " bytes; the configured per-file limit is ",
                to_decimal(max_bytes).as_str(),
            ),
        );
    }
    Ok(())
}

/// Charges the bytes that were read of a file.
pub fn take_bytes(amount: usize, work: &mut Work) -> (r: Result<(), Interrupt>)
    ensures
        final(work).continues(old(work)),
        old(work).unbounded() ==> r is Ok,
        r matches Err(Interrupt::BudgetExceeded) ==> final(work).used_up(),
        r is Ok ==> final(work).read_charged(old(work), amount as int),
        r == Err::<(), Interrupt>(Interrupt::BudgetExceeded) ==> !old(work).read_fits(
            amount as int,
        ),
{
    work.check()?;
    work.charge_read(amount)
}

/// Whether a decoded text of `length` bytes may be taken up.
pub fn admit_text(path: &FilePath, length: usize, max_bytes: usize, work: &Work) -> (r: Result<
    (),
    ReadFailure,
>)
    ensures
        match r {
            Ok(_) => length <= max_bytes,
            Err(failure) => if length > max_bytes {
                failure@ == FailureView::Refused(decoded_too_large_text(path@, max_bytes))
            } else {
                failure@ == FailureView::Stopped(Interrupt::Cancelled) && work.cancel is Some
            },
        },
{
    if length > max_bytes {
        let head = concat3(
            "decoded contents of ",
            path.text().as_str(),
            " exceed the configured per-file limit ",
        );
        return Err(ReadFailure::Refused(concat(head.as_str(), to_decimal(max_bytes).as_str())));
    }
    match work.check() {
        Ok(_) => Ok(()),
        Err(interrupt) => Err(ReadFailure::Stopped(interrupt)),
    }
}

} // verus!
