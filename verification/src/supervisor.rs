//! Execution supervisor: the retry/timeout policy around one validation
//! request, as a pure decision function over attempt outcomes.
//!
//! The caller runs each attempt of the Preprocess → Decode → Cluster
//! chain on its own task under a hard wall-clock timeout and reports the
//! outcome; the supervisor decides whether to finish, and with what, or
//! to run another attempt after a delay. A pipeline failure backs off
//! linearly (`attempt × RETRY_DELAY_MS`); a crashed task and a timeout
//! retry immediately; exhausted attempts surface the last observed
//! error.

use vstd::prelude::*;

use crate::types::{BBox, ProcessingError};

verus! {

/// Hard wall-clock bound on one attempt, in milliseconds.
pub const PROCESSING_TIMEOUT_MS: u64 = 10_000;

/// Total number of attempts for one request.
pub const RETRY_ATTEMPTS: u32 = 3;

/// Backoff unit between attempts, in milliseconds.
pub const RETRY_DELAY_MS: u64 = 100;

/// How one attempt of the processing chain ended.
pub enum AttemptOutcome {
    /// The chain produced final boxes.
    Success(Vec<BBox>),
    /// The chain reported a pipeline error.
    Failure(ProcessingError),
    /// The attempt's task crashed before reporting; carries its message.
    Crashed(String),
    /// The attempt exceeded the processing timeout.
    TimedOut,
}

/// What the caller must do next.
pub enum SupervisorStep {
    /// The request is over: answer with this result.
    Done(Result<Vec<BBox>, ProcessingError>),
    /// Sleep this many milliseconds, then run the next attempt.
    RetryAfter(u64),
}

/// The per-request supervisor state: which attempt is next, and the last
/// error any attempt reported.
pub struct Supervisor {
    pub attempt: u32,
    pub last_error: Option<ProcessingError>,
}

impl Supervisor {
    /// The attempt counter stays within the retry budget.
    pub open spec fn wf(&self) -> bool {
        1 <= self.attempt <= RETRY_ATTEMPTS
    }

    /// A supervisor about to run the first attempt.
    pub fn new() -> (s: Supervisor)
        ensures
            s.wf(),
            s.attempt == 1,
            s.last_error is None,
    {
        Supervisor { attempt: 1, last_error: None }
    }

    /// Folds one attempt's outcome into the state and decides the next
    /// step. Success finishes at once with the boxes. With attempts left,
    /// a failure schedules a retry after `attempt × RETRY_DELAY_MS`
    /// milliseconds, while a crash or timeout retries without delay; on
    /// the final attempt each surfaces its error. A crash is recorded as
    /// an internal error, a timeout as the timeout error.
    pub fn on_outcome(&mut self, outcome: AttemptOutcome) -> (step: SupervisorStep)
        requires
            old(self).wf(),
        ensures
            final(self).wf(),
            outcome is Success ==> step == SupervisorStep::Done(
                Ok::<Vec<BBox>, ProcessingError>(outcome->Success_0),
            ) && *final(self) == *old(self),
            outcome is Failure && old(self).attempt < RETRY_ATTEMPTS ==> step
                == SupervisorStep::RetryAfter((RETRY_DELAY_MS * old(self).attempt) as u64)
                && final(self).attempt == old(self).attempt + 1
                && final(self).last_error == Some(outcome->Failure_0),
            outcome is Failure && old(self).attempt == RETRY_ATTEMPTS ==> step
                == SupervisorStep::Done(
                Err::<Vec<BBox>, ProcessingError>(outcome->Failure_0),
            ) && *final(self) == *old(self),
            outcome is Crashed && old(self).attempt < RETRY_ATTEMPTS ==> step
                == SupervisorStep::RetryAfter(0) && final(self).attempt == old(self).attempt + 1
                && final(self).last_error == Some(ProcessingError::Internal(outcome->Crashed_0)),
            outcome is Crashed && old(self).attempt == RETRY_ATTEMPTS ==> step
                == SupervisorStep::Done(
                Err::<Vec<BBox>, ProcessingError>(ProcessingError::Internal(outcome->Crashed_0)),
            ) && *final(self) == *old(self),
            outcome is TimedOut && old(self).attempt < RETRY_ATTEMPTS ==> step
                == SupervisorStep::RetryAfter(0) && final(self).attempt == old(self).attempt + 1
                && final(self).last_error == Some(ProcessingError::Timeout),
            outcome is TimedOut && old(self).attempt == RETRY_ATTEMPTS ==> step
                == SupervisorStep::Done(
                Err::<Vec<BBox>, ProcessingError>(ProcessingError::Timeout),
            ) && *final(self) == *old(self),
    {
        match outcome {
            AttemptOutcome::Success(boxes) => SupervisorStep::Done(Ok(boxes)),
            AttemptOutcome::Failure(e) => {
                if self.attempt < RETRY_ATTEMPTS {
                    let delay = RETRY_DELAY_MS * self.attempt as u64;
                    self.last_error = Some(e);
                    self.attempt = self.attempt + 1;
                    SupervisorStep::RetryAfter(delay)
                } else {
                    SupervisorStep::Done(Err(e))
                }
            },
            AttemptOutcome::Crashed(message) => {
                if self.attempt < RETRY_ATTEMPTS {
                    self.last_error = Some(ProcessingError::Internal(message));
                    self.attempt = self.attempt + 1;
                    SupervisorStep::RetryAfter(0)
                } else {
                    SupervisorStep::Done(Err(ProcessingError::Internal(message)))
                }
            },
            AttemptOutcome::TimedOut => {
                if self.attempt < RETRY_ATTEMPTS {
                    self.last_error = Some(ProcessingError::Timeout);
                    self.attempt = self.attempt + 1;
                    SupervisorStep::RetryAfter(0)
                } else {
                    SupervisorStep::Done(Err(ProcessingError::Timeout))
                }
            },
        }
    }
}

} // verus!
