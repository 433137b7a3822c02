//! The decisions of the client: how an HTTP status reads, and what the
//! retry loop does after each attempt. The loop itself (sending, sleeping,
//! cancellation) is run by the caller, which performs each step decided
//! here and hands back what the next attempt came to.

use vstd::prelude::*;

use crate::error::{ErrorView, JevError};

verus! {

/// Default model pin. The moving `jev-latest` alias can silently change
/// thresholds; pin by default.
pub const DEFAULT_MODEL: &'static str = "jev-1.13.0";

/// How a response status reads.
#[derive(Debug, PartialEq, Eq)]
pub enum StatusOutcome {
    /// 2xx: the body carries the answers.
    Success,
    /// A status the API documents, with its error.
    Rejected(JevError),
    /// Any other status: a transport failure naming the status and body.
    Unexpected,
}

/// What a documented error status means: 401 unauthorized, 422 invalid
/// request (with the body), 429 rate limited, 529 overloaded.
pub open spec fn status_error(status: u16, body: Seq<char>) -> Option<ErrorView> {
    if status == 401 {
        Some(ErrorView::Unauthorized)
    } else if status == 422 {
        Some(ErrorView::InvalidRequest(body))
    } else if status == 429 {
        Some(ErrorView::RateLimited { retries: 0 })
    } else if status == 529 {
        Some(ErrorView::Overloaded { retries: 0 })
    } else {
        None
    }
}

/// Classifies a response status; `body` is the response text, read for
/// every non-success status.
pub fn classify_status(status: u16, body: String) -> (r: StatusOutcome)
    ensures
        200 <= status <= 299 ==> r == StatusOutcome::Success,
        !(200 <= status <= 299) ==> match status_error(status, body@) {
            Some(e) => r matches StatusOutcome::Rejected(err) && err@ == e,
            None => r == StatusOutcome::Unexpected,
        },
{
    if 200 <= status && status <= 299 {
        StatusOutcome::Success
    } else if status == 401 {
        StatusOutcome::Rejected(JevError::Unauthorized)
    } else if status == 422 {
        StatusOutcome::Rejected(JevError::InvalidRequest(body))
    } else if status == 429 {
        StatusOutcome::Rejected(JevError::RateLimited { retries: 0 })
    } else if status == 529 {
        StatusOutcome::Rejected(JevError::Overloaded { retries: 0 })
    } else {
        StatusOutcome::Unexpected
    }
}

/// What one transport attempt came to, as the retry loop reads it.
#[derive(Clone, Copy, Debug, PartialEq, Eq, Structural)]
pub enum AttemptResult {
    /// The transport returned a response.
    Answered,
    /// Rate limited (429).
    RateLimited,
    /// Service overloaded (529).
    Overloaded,
    /// Any other failure: terminal, never retried.
    Failed,
}

/// What the retry loop does next.
#[derive(Debug, PartialEq, Eq)]
pub enum RetryStep {
    /// Parse and return the response.
    Finish,
    /// Return the attempt's own error as it is.
    Surface,
    /// Retries are exhausted: return this error.
    GiveUp(JevError),
    /// Wait the backoff delay for retry number `delay_for` (0-based), then
    /// attempt again.
    Backoff { delay_for: u32 },
}

/// The retry loop's state: retries made so far and the retry budget.
#[derive(Clone, Copy, Debug, PartialEq, Eq, Structural)]
pub struct RetryState {
    /// Retries made so far.
    pub attempt: u32,
    /// Maximum retries before surfacing a retryable error.
    pub max_retries: u32,
}

/// The step after an attempt, and the retries made after it.
pub open spec fn retry_transition(attempt: u32, max_retries: u32, result: AttemptResult) -> (Option<ErrorView>, bool, u32) {
    // (error given up with, whether to back off, retries made afterwards)
    match result {
        AttemptResult::Answered | AttemptResult::Failed => (None, false, attempt),
        AttemptResult::RateLimited => if attempt >= max_retries {
            (Some(ErrorView::RateLimited { retries: attempt }), false, attempt)
        } else {
            (None, true, (attempt + 1) as u32)
        },
        AttemptResult::Overloaded => if attempt >= max_retries {
            (Some(ErrorView::Overloaded { retries: attempt }), false, attempt)
        } else {
            (None, true, (attempt + 1) as u32)
        },
    }
}

impl RetryState {
    /// A loop that has made no retry yet.
    pub fn new(max_retries: u32) -> (s: Self)
        ensures
            s.attempt == 0,
            s.max_retries == max_retries,
    {
        RetryState { attempt: 0, max_retries }
    }

    /// Decides whether the loop goes on to its next attempt, checked before
    /// the first attempt and after each backoff wait: a cancelled token
    /// ends it with `Cancelled`; the state is left as it is.
    pub fn proceed(&self, cancelled: bool) -> (r: Result<(), JevError>)
        ensures
            cancelled ==> (r matches Err(e) && e@ == ErrorView::Cancelled),
            !cancelled ==> r is Ok,
    {
        if cancelled {
            Err(JevError::Cancelled)
        } else {
            Ok(())
        }
    }

    /// Decides the step after an attempt: a response finishes, a terminal
    /// error surfaces, a retryable error backs off while retries remain
    /// and is given up with the number of retries made once they do not.
    pub fn step(&mut self, result: AttemptResult) -> (r: RetryStep)
        ensures
            final(self).max_retries == old(self).max_retries,
            final(self).attempt == retry_transition(old(self).attempt, old(self).max_retries, result).2,
            result == AttemptResult::Answered ==> r == RetryStep::Finish,
            result == AttemptResult::Failed ==> r == RetryStep::Surface,
            retry_transition(old(self).attempt, old(self).max_retries, result).1 ==> r == (RetryStep::Backoff { delay_for: old(self).attempt }),
            retry_transition(old(self).attempt, old(self).max_retries, result).0 matches Some(e) ==> (r matches RetryStep::GiveUp(err) && err@ == e),
    {
        match result {
            AttemptResult::Answered => RetryStep::Finish,
            AttemptResult::Failed => RetryStep::Surface,
            AttemptResult::RateLimited => {
                if self.attempt >= self.max_retries {
                    RetryStep::GiveUp(JevError::RateLimited { retries: self.attempt })
                } else {
                    let delay_for = self.attempt;
                    self.attempt = self.attempt + 1;
                    RetryStep::Backoff { delay_for }
                }
            },
            AttemptResult::Overloaded => {
                if self.attempt >= self.max_retries {
                    RetryStep::GiveUp(JevError::Overloaded { retries: self.attempt })
                } else {
                    let delay_for = self.attempt;
                    self.attempt = self.attempt + 1;
                    RetryStep::Backoff { delay_for }
                }
            },
        }
    }
}

/// The attempts a loop starting from `attempt` makes before it stops, when
/// every attempt comes back retryable: it backs off until the budget is
/// spent, then gives up on the next attempt.
pub open spec fn attempts_when_always_retryable(attempt: u32, max_retries: u32) -> nat
    decreases max_retries - attempt,
{
    if attempt >= max_retries {
        1
    } else {
        1 + attempts_when_always_retryable((attempt + 1) as u32, max_retries)
    }
}

/// A loop started fresh whose every attempt is rate limited (or every
/// attempt overloaded) makes exactly `max_retries + 1` attempts, and the
/// error it gives up with reports `max_retries` retries.
pub proof fn lemma_retry_budget_is_exact(max_retries: u32, result: AttemptResult)
    requires
        result == AttemptResult::RateLimited || result == AttemptResult::Overloaded,
    ensures
        attempts_when_always_retryable(0, max_retries) == max_retries + 1,
        retry_transition(max_retries, max_retries, result).0 == Some(
            if result == AttemptResult::RateLimited {
                ErrorView::RateLimited { retries: max_retries }
            } else {
                ErrorView::Overloaded { retries: max_retries }
            },
        ),
        forall|a: u32| a < max_retries ==> #[trigger] retry_transition(a, max_retries, result) == (None::<ErrorView>, true, (a + 1) as u32),
{
    lemma_attempts_from(0, max_retries);
}

proof fn lemma_attempts_from(attempt: u32, max_retries: u32)
    requires
        attempt <= max_retries,
    ensures
        attempts_when_always_retryable(attempt, max_retries) == max_retries - attempt + 1,
    decreases max_retries - attempt,
{
    if attempt < max_retries {
        lemma_attempts_from((attempt + 1) as u32, max_retries);
    }
}

/// Whether an attempt's result is retried while the budget lasts.
pub open spec fn retryable(result: AttemptResult) -> bool {
    result == AttemptResult::RateLimited || result == AttemptResult::Overloaded
}

/// The attempts a loop that has made `attempt` retries makes when its
/// attempts come back as `results`, in order: each backoff leads to one
/// more attempt; any other step ends the loop.
pub open spec fn attempts_made(attempt: u32, max_retries: u32, results: Seq<AttemptResult>) -> nat
    decreases results.len(),
{
    if results.len() == 0 {
        0
    } else if retry_transition(attempt, max_retries, results[0]).1 {
        1 + attempts_made(retry_transition(attempt, max_retries, results[0]).2, max_retries, results.drop_first())
    } else {
        1
    }
}

proof fn lemma_attempts_made_from(attempt: u32, max_retries: u32, results: Seq<AttemptResult>)
    requires
        attempt <= max_retries,
        results.len() >= max_retries - attempt + 1,
    ensures
        1 <= attempts_made(attempt, max_retries, results) <= max_retries - attempt + 1,
        forall|j: int| 0 <= j < attempts_made(attempt, max_retries, results) - 1 ==> retryable(#[trigger] results[j]),
        ({
            let k = attempts_made(attempt, max_retries, results);
            ||| !retryable(results[k - 1])
            ||| (k == max_retries - attempt + 1 && retry_transition(max_retries, max_retries, results[k - 1]).0 is Some)
        }),
    decreases results.len(),
{
    let t = retry_transition(attempt, max_retries, results[0]);
    if t.1 {
        assert(attempt < max_retries);
        let rest = results.drop_first();
        lemma_attempts_made_from((attempt + 1) as u32, max_retries, rest);
        assert forall|j: int| 0 <= j < attempts_made(attempt, max_retries, results) - 1 implies retryable(#[trigger] results[j]) by {
            if j > 0 {
                assert(results[j] == rest[j - 1]);
            }
        }
        let k = attempts_made(attempt, max_retries, results);
        assert(results[k - 1] == rest[k - 2]);
    } else if retryable(results[0]) {
        assert(attempt >= max_retries);
    }
}

/// Whatever its transport answers, a loop started fresh makes at most
/// `max_retries + 1` attempts; every attempt but the last came back
/// retryable; and it stops at the first attempt that is not retryable,
/// or, when all its attempts are, after exactly `max_retries + 1` of them,
/// giving up with the error that reports `max_retries` retries.
pub proof fn lemma_loop_stops_at_first_terminal_or_budget(max_retries: u32, results: Seq<AttemptResult>)
    requires
        results.len() >= max_retries + 1,
    ensures
        1 <= attempts_made(0, max_retries, results) <= max_retries + 1,
        forall|j: int| 0 <= j < attempts_made(0, max_retries, results) - 1 ==> retryable(#[trigger] results[j]),
        ({
            let k = attempts_made(0, max_retries, results);
            ||| !retryable(results[k - 1])
            ||| (k == max_retries + 1 && retry_transition(max_retries, max_retries, results[k - 1]).0 == Some(
                if results[k - 1] == AttemptResult::RateLimited {
                    ErrorView::RateLimited { retries: max_retries }
                } else {
                    ErrorView::Overloaded { retries: max_retries }
                },
            ))
        }),
{
    lemma_attempts_made_from(0, max_retries, results);
}

} // verus!
