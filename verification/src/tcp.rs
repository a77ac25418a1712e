//! What a socket future does after a nonblocking attempt on its socket.
//!
//! Accepting, reading and writing all go the same way: the attempt is made
//! at once; if it completed or failed, the future is ready with that outcome;
//! if it would have blocked, the task parks on the reactor for the readiness
//! the attempt needs and the future is pending.
use vstd::prelude::*;

verus! {

/// The readiness a socket operation waits for.
#[derive(Clone, Copy, Debug, PartialEq, Eq)]
pub enum Interest {
    /// Accepting and reading wait for the socket to become readable.
    Readable,
    /// Writing waits for the socket to become writable.
    Writable,
}

/// How a nonblocking attempt on a socket ended.
#[derive(Clone, Copy, Debug, PartialEq, Eq)]
pub enum Attempt {
    /// It completed: a connection was accepted, or bytes moved.
    Done,
    /// It failed with `WouldBlock`: the socket is not ready yet.
    WouldBlock,
    /// It failed with any other error.
    Failed,
}

/// What the future does next.
#[derive(Clone, Copy, Debug, PartialEq, Eq)]
pub enum PollStep {
    /// Be ready with the attempt's result.
    Complete,
    /// Park the task on the reactor for this readiness and be pending.
    Park(Interest),
    /// Be ready with the attempt's error.
    Fail,
}

/// The step that follows an attempt waiting for `interest`.
pub open spec fn step_after(attempt: Attempt, interest: Interest) -> PollStep {
    match attempt {
        Attempt::Done => PollStep::Complete,
        Attempt::WouldBlock => PollStep::Park(interest),
        Attempt::Failed => PollStep::Fail,
    }
}

/// Decides the step that follows a nonblocking attempt that waits for
/// `interest` when it would block.
pub fn poll_step(attempt: Attempt, interest: Interest) -> (step: PollStep)
    ensures
        step == step_after(attempt, interest),
{
    match attempt {
        Attempt::Done => PollStep::Complete,
        Attempt::WouldBlock => PollStep::Park(interest),
        Attempt::Failed => PollStep::Fail,
    }
}

} // verus!
