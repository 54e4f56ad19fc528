//! Trying a request again.
use vstd::prelude::*;

verus! {

/// How often a request is tried again after it failed.
pub const MAX_RETRIES: u32 = 5;

/// What to do after an attempt.
#[derive(Clone, Copy, Debug, PartialEq, Eq, Structural)]
pub enum Next {
    /// Hand the reply on.
    Deliver,
    /// Try once more.
    Again,
    /// Report the error of this attempt.
    GiveUp,
}

/// What to do after an attempt, when `failed` attempts before it have failed.
pub open spec fn decision(failed: int, success: bool) -> Next {
    if success {
        Next::Deliver
    } else if failed < MAX_RETRIES {
        Next::Again
    } else {
        Next::GiveUp
    }
}

/// Decides after an attempt, when `failed` attempts before it have failed.
pub fn after_attempt(failed: u32, success: bool) -> (next: Next)
    ensures
        next == decision(failed as int, success),
{
    if success {
        Next::Deliver
    } else if failed < MAX_RETRIES {
        Next::Again
    } else {
        Next::GiveUp
    }
}

// ---------------------------------------------------------------------------
// Laws
// ---------------------------------------------------------------------------

/// The attempt that ends a request, from attempt `i` on, when attempt `j`
/// succeeds exactly where `outcomes[j]` says so.
pub open spec fn last_attempt(outcomes: Seq<bool>, i: int) -> int
    decreases MAX_RETRIES + 1 - i,
{
    if i > MAX_RETRIES || decision(i, outcomes[i]) != Next::Again {
        i
    } else {
        last_attempt(outcomes, i + 1)
    }
}

/// A request ends with its first attempt that succeeds; where none of the first
/// and its repetitions does, the last of them is reported.
pub proof fn law_first_success_ends_a_request(outcomes: Seq<bool>, i: int)
    requires
        outcomes.len() > MAX_RETRIES,
        0 <= i <= MAX_RETRIES,
    ensures
        ({
            let last = last_attempt(outcomes, i);
            &&& i <= last <= MAX_RETRIES
            &&& forall|j: int| i <= j < last ==> !outcomes[j]
            &&& decision(last, outcomes[last]) == (if outcomes[last] {
                Next::Deliver
            } else {
                Next::GiveUp
            })
            &&& !outcomes[last] ==> last == MAX_RETRIES
        }),
    decreases MAX_RETRIES - i,
{
    if i < MAX_RETRIES && !outcomes[i] {
        law_first_success_ends_a_request(outcomes, i + 1);
    }
}

/// A request is tried six times at most, and again after each of the first five
/// failures.
pub proof fn law_six_attempts_at_most(outcomes: Seq<bool>, failed: int)
    requires
        outcomes.len() > 5,
    ensures
        0 <= last_attempt(outcomes, 0) <= 5,
        decision(failed, true) == Next::Deliver,
        failed < 5 ==> decision(failed, false) == Next::Again,
        failed >= 5 ==> decision(failed, false) == Next::GiveUp,
{
    law_first_success_ends_a_request(outcomes, 0);
}

} // verus!
