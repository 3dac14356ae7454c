//! The decision after one attempt at running a node: complete, retry or fail.
use vstd::prelude::*;
use crate::errors::NodeError;
use crate::json::JsonValue;

verus! {

/// How one attempt at running a node ended.
#[derive(Debug)]
pub enum AttemptOutcome {
    /// The node returned its outputs.
    Succeeded(JsonValue),
    /// The node reported an error.
    Errored(NodeError),
    /// The node ran past its time limit.
    TimedOut,
}

/// What follows an attempt.
#[derive(Debug)]
pub enum AttemptStep {
    /// The node completed with these outputs.
    Complete(JsonValue),
    /// The attempt failed with `message`. When `will_retry`, the node is
    /// attempted again after a backoff; otherwise the node fails with
    /// `message`.
    Failed { message: String, will_retry: bool },
}

/// The number of attempts a retry policy allows: at least one.
pub open spec fn attempt_limit_of(max_attempts: u32) -> u32 {
    if max_attempts < 1 {
        1
    } else {
        max_attempts
    }
}

/// The number of attempts a retry policy allows: at least one.
pub fn attempt_limit(max_attempts: u32) -> (r: u32)
    ensures
        r == attempt_limit_of(max_attempts),
{
    if max_attempts < 1 {
        1
    } else {
        max_attempts
    }
}

/// Decides what follows attempt number `attempt` (counting from 1) of a node
/// whose policy allows `max_attempts` attempts and whose time limit is
/// `timeout_ms`.
///
/// Outputs complete the node. An error fails the attempt with the error's
/// message, and is retried when it is retryable and attempts remain. Running
/// past the time limit fails the attempt with a timeout error's message and
/// is never retried.
pub fn after_attempt(attempt: u32, max_attempts: u32, outcome: AttemptOutcome, timeout_ms: u64) -> (r:
    AttemptStep)
    ensures
        match outcome {
            AttemptOutcome::Succeeded(v) => r matches AttemptStep::Complete(o) && o@ == v@,
            AttemptOutcome::Errored(e) => r matches AttemptStep::Failed { message, will_retry }
                && message@ == e.spec_text() && will_retry == (e is Retryable && attempt
                < attempt_limit_of(max_attempts)),
            AttemptOutcome::TimedOut => r matches AttemptStep::Failed { message, will_retry }
                && message@ == (NodeError::Timeout { elapsed_ms: timeout_ms }).spec_text()
                && !will_retry,
        },
{
    match outcome {
        AttemptOutcome::Succeeded(v) => AttemptStep::Complete(v),
        AttemptOutcome::Errored(e) => {
            let retryable = match &e {
                NodeError::Retryable { .. } => true,
                _ => false,
            };
            let will_retry = retryable && attempt < attempt_limit(max_attempts);
            AttemptStep::Failed { message: e.to_string(), will_retry }
        },
        AttemptOutcome::TimedOut => {
            let e = NodeError::Timeout { elapsed_ms: timeout_ms };
            AttemptStep::Failed { message: e.to_string(), will_retry: false }
        },
    }
}

} // verus!
