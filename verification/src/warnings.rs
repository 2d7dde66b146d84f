//! The warnings that a workspace keeps for its client.

use vstd::prelude::*;

use crate::strings::{list_contains, texts};

verus! {

pub const MAX_WORKSPACE_WARNINGS: usize = 256;

/// What stands in the log in place of the warnings that did not fit.
pub const WARNING_LIMIT_REACHED: &'static str = "workspace warning limit reached";

/// The warnings so far.
#[derive(Debug)]
pub struct WarningLog {
    pub messages: Vec<String>,
}

impl View for WarningLog {
    type V = Seq<Seq<char>>;

    open spec fn view(&self) -> Seq<Seq<char>> {
        texts(self.messages@)
    }
}

/// A log after one more warning: a message that it holds is not repeated, and one that
/// does not fit is dropped after a note that the log is full.
pub open spec fn warned_with(log: Seq<Seq<char>>, message: Seq<char>) -> Seq<Seq<char>> {
    if log.contains(message) || log.len() > MAX_WORKSPACE_WARNINGS {
        log
    } else if log.len() < MAX_WORKSPACE_WARNINGS {
        log.push(message)
    } else {
        log.push(WARNING_LIMIT_REACHED@)
    }
}

/// A log after the first `n` of a list of warnings.
pub open spec fn warned_with_all(
    log: Seq<Seq<char>>,
    messages: Seq<Seq<char>>,
    n: int,
) -> Seq<Seq<char>>
    decreases n,
{
    if n <= 0 {
        log
    } else {
        warned_with(warned_with_all(log, messages, n - 1), messages[n - 1])
    }
}

impl WarningLog {
    /// The log holds no more than it may.
    pub open spec fn wf(&self) -> bool {
        self@.len() <= MAX_WORKSPACE_WARNINGS + 1
    }

    /// No warnings.
    pub fn new() -> (r: Self)
        ensures
            r.wf(),
            r@ == Seq::<Seq<char>>::empty(),
    {
        let r = WarningLog { messages: Vec::new() };
        proof {
            assert(r@ =~= Seq::<Seq<char>>::empty());
        }
        r
    }

    /// Adds a warning.
    pub fn warn(&mut self, message: String)
        ensures
            final(self)@ == warned_with(old(self)@, message@),
            old(self).wf() ==> final(self).wf(),
    {
        let ghost before = self.messages@;
        if list_contains(&self.messages, message.as_str()) {
            return ;
        }
        if self.messages.len() < MAX_WORKSPACE_WARNINGS {
            let ghost added = message@;
            self.messages.push(message);
            proof {
                assert(texts(self.messages@) =~= texts(before).push(added));
            }
        } else if self.messages.len() == MAX_WORKSPACE_WARNINGS {
            self.messages.push(WARNING_LIMIT_REACHED.to_owned());
            proof {
                assert(texts(self.messages@) =~= texts(before).push(WARNING_LIMIT_REACHED@));
            }
        }
    }

    /// Adds the warnings of a list, in order.
    pub fn warn_all(&mut self, messages: &Vec<String>)
        ensures
            final(self)@ == warned_with_all(
                old(self)@,
                texts(messages@),
                messages@.len() as int,
            ),
            old(self).wf() ==> final(self).wf(),
    {
        let ghost before = self@;
        let ghost ok = self.wf();
        let mut i: usize = 0;
        while i < messages.len()
            invariant
                i <= messages@.len(),
                self@ == warned_with_all(before, texts(messages@), i as int),
                ok ==> self.wf(),
            decreases messages@.len() - i,
        {
            proof {
                assert(texts(messages@)[i as int] == messages@[i as int]@);
            }
            self.warn(messages[i].clone());
            i += 1;
        }
    }
}

/// However many warnings come, a log that is within its bound stays within it, and what
/// it holds stays.
pub proof fn law_warnings_are_bounded_and_kept(
    log: Seq<Seq<char>>,
    messages: Seq<Seq<char>>,
    n: int,
)
    requires
        log.len() <= MAX_WORKSPACE_WARNINGS + 1,
        0 <= n <= messages.len(),
    ensures
        warned_with_all(log, messages, n).len() <= MAX_WORKSPACE_WARNINGS + 1,
        log.is_prefix_of(warned_with_all(log, messages, n)),
    decreases n,
{
    if n > 0 {
        law_warnings_are_bounded_and_kept(log, messages, n - 1);
    }
}

} // verus!
