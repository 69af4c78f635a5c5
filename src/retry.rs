use vstd::prelude::*;

verus! {

/// How many times a failed command is retried on a new connection.
pub const MAX_RETRIES: u64 = 3;

/// What to do after a command to the store has run.
#[derive(Debug, Clone, Copy, PartialEq, Eq, Structural)]
pub enum RetryStep {
    /// Hand the result, success or error, to the caller.
    Finish,
    /// Wait this many seconds, reconnect, and run the command again.
    Retry { delay_secs: u64 },
}

/// The wait before retry number `retries + 1`.
pub open spec fn spec_retry_delay(retries: u64) -> u64 {
    if retries == 0 {
        1
    } else if retries == 1 {
        2
    } else {
        5
    }
}

/// The next step after a command that `succeeded` or not, when it has been
/// retried `retries` times already.
pub fn next_step(succeeded: bool, retries: u64) -> (r: RetryStep)
    ensures
        succeeded || retries >= MAX_RETRIES ==> r == RetryStep::Finish,
        !succeeded && retries < MAX_RETRIES ==> r == (RetryStep::Retry { delay_secs: spec_retry_delay(retries) }),
{
    if succeeded || retries >= MAX_RETRIES {
        RetryStep::Finish
    } else if retries == 0 {
        RetryStep::Retry { delay_secs: 1 }
    } else if retries == 1 {
        RetryStep::Retry { delay_secs: 2 }
    } else {
        RetryStep::Retry { delay_secs: 5 }
    }
}

} // verus!
