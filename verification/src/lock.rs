//! The decisions of taking the lock file in the target directory: the lock
//! is taken by creating the file; while another run holds it, wait until
//! the deadline.
use vstd::prelude::*;

verus! {

/// What an attempt to create the lock file came to.
#[derive(Clone, Copy, Debug, PartialEq, Eq, Structural)]
pub enum OpenOutcome {
    /// The file was created: the lock is ours.
    Created,
    /// The file exists: another run holds the lock.
    AlreadyExists,
    /// Creating the file failed for another reason.
    Failed,
}

/// What to do after an attempt to create the lock file.
#[derive(Clone, Copy, Debug, PartialEq, Eq, Structural)]
pub enum LockStep {
    /// The lock is held; go on.
    Acquired,
    /// Wait a while and try again.
    Retry,
    /// Give up: the deadline has passed while another run held the lock.
    TimedOut,
    /// Give up with the error that creating the file gave.
    Fail,
}

/// The step after an attempt to create the lock file: the lock is held once
/// the file is created; while another run holds it, try again until the
/// deadline has passed; any other failure ends the attempt.
pub open spec fn lock_step(outcome: OpenOutcome, deadline_passed: bool) -> LockStep {
    match outcome {
        OpenOutcome::Created => LockStep::Acquired,
        OpenOutcome::AlreadyExists => if deadline_passed {
            LockStep::TimedOut
        } else {
            LockStep::Retry
        },
        OpenOutcome::Failed => LockStep::Fail,
    }
}

/// The step after an attempt to create the lock file (see `lock_step`).
pub fn next_lock_step(outcome: OpenOutcome, deadline_passed: bool) -> (r: LockStep)
    ensures
        r == lock_step(outcome, deadline_passed),
{
    match outcome {
        OpenOutcome::Created => LockStep::Acquired,
        OpenOutcome::AlreadyExists => if deadline_passed {
            LockStep::TimedOut
        } else {
            LockStep::Retry
        },
        OpenOutcome::Failed => LockStep::Fail,
    }
}

/// The lock is held only after the file was created, a run gives up on a
/// lock that another run holds only once its deadline has passed, and
/// before the deadline it keeps trying.
pub proof fn lemma_lock_only_when_created(outcome: OpenOutcome, deadline_passed: bool)
    ensures
        lock_step(outcome, deadline_passed) == LockStep::Acquired <==> outcome
            == OpenOutcome::Created,
        lock_step(outcome, deadline_passed) == LockStep::TimedOut ==> deadline_passed,
        outcome == OpenOutcome::AlreadyExists && !deadline_passed ==> lock_step(
            outcome,
            deadline_passed,
        ) == LockStep::Retry,
{
}

} // verus!
