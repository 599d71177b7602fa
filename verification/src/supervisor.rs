use vstd::prelude::*;

use crate::errors::UnsquashfsError;

verus! {

/// Whether an extraction attempt is currently in flight.
#[derive(Clone, Copy, Debug, PartialEq, Eq, Structural)]
pub enum Status {
    /// No extraction in flight.
    Pending,
    /// A child process has been spawned and its final exit has not yet been
    /// observed by the lifecycle-polling task.
    Working,
}

/// The final disposition of an exited child process, as observed by the
/// lifecycle-polling task.
#[derive(Clone, Copy, Debug, PartialEq, Eq, Structural)]
pub struct ExitInfo {
    /// Whether the exit was clean.
    pub success: bool,
    /// The numeric exit code reported for the child.
    pub code: i32,
}

/// How one extraction attempt ended.
#[derive(Clone, Copy, Debug, PartialEq, Eq, Structural)]
pub enum Outcome {
    /// The child exited cleanly.
    Success,
    /// The child exited with a non-zero status; carries the exit code.
    Failed(i32),
    /// The child was terminated because cancellation was requested.
    Cancelled,
}

/// What the lifecycle-polling task must do next, decided from the shared
/// state and the result of one non-blocking liveness check.
#[derive(Clone, Copy, Debug, PartialEq, Eq, Structural)]
pub enum PollDecision {
    /// Nothing resolved yet: sleep one fixed interval and poll again.
    Sleep,
    /// Cancellation was requested: forcibly terminate the child. The attempt
    /// resolves as `Outcome::Cancelled`.
    Kill,
    /// The child has exited; the attempt resolves with this outcome.
    Resolved(Outcome),
}

/// The lifecycle state of one extraction supervisor: whether an attempt is in
/// flight, and whether a cancellation has been requested but not yet consumed.
///
/// The two fields are mutated together under one exclusive borrow, so a
/// cancellation request can never slip in between reading the status and
/// recording the request.
#[derive(Clone, Copy, Debug, PartialEq, Eq, Structural)]
pub struct Unsquashfs {
    /// Whether a child process for this instance is currently spawned.
    pub status: Status,
    /// A cancellation has been requested but not yet consumed.
    pub cancel_requested: bool,
}

/// The state of a supervisor on which no extraction has ever run, and to
/// which every resolved attempt returns.
pub open spec fn initial_state() -> Unsquashfs {
    Unsquashfs { status: Status::Pending, cancel_requested: false }
}

/// The state after a cancellation request: recorded only while an attempt is
/// in flight, a no-op otherwise.
pub open spec fn spec_cancel(s: Unsquashfs) -> Unsquashfs {
    match s.status {
        Status::Pending => s,
        Status::Working => Unsquashfs { cancel_requested: true, ..s },
    }
}

/// The state after a child has been spawned for a new attempt.
pub open spec fn spec_start(s: Unsquashfs) -> Unsquashfs {
    Unsquashfs { status: Status::Working, ..s }
}

/// One iteration of the lifecycle-polling task: a pending cancellation wins
/// over an observed exit, a resolved attempt resets the shared state, and an
/// attempt that is still running leaves it untouched.
pub open spec fn spec_poll(s: Unsquashfs, exit: Option<ExitInfo>) -> (Unsquashfs, PollDecision) {
    if s.cancel_requested {
        (initial_state(), PollDecision::Kill)
    } else {
        match exit {
            Option::Some(e) => (
                initial_state(),
                PollDecision::Resolved(
                    if e.success {
                        Outcome::Success
                    } else {
                        Outcome::Failed(e.code)
                    },
                ),
            ),
            Option::None => (s, PollDecision::Sleep),
        }
    }
}

impl Unsquashfs {
    /// A stale cancellation must never survive outside an attempt: the flag
    /// can be set only while a child is in flight.
    pub open spec fn wf(self) -> bool {
        self.status is Pending ==> !self.cancel_requested
    }

    /// A supervisor with no extraction in flight and no pending cancellation.
    pub fn new() -> (r: Unsquashfs)
        ensures
            r == initial_state(),
            r.wf(),
    {
        Unsquashfs { status: Status::Pending, cancel_requested: false }
    }

    /// Request cancellation of the attempt in flight. With no attempt in
    /// flight the request is rejected as `NotRunning` and nothing changes;
    /// otherwise the request is recorded, however many were recorded before.
    pub fn cancel(&mut self) -> (r: Result<(), UnsquashfsError>)
        ensures
            *final(self) == spec_cancel(*old(self)),
            r is Ok <==> old(self).status is Working,
            old(self).status is Pending ==> r == Err::<(), UnsquashfsError>(
                UnsquashfsError::NotRunning,
            ) && *final(self) == *old(self),
            old(self).status is Working ==> final(self).cancel_requested
                && final(self).status is Working,
            old(self).wf() ==> final(self).wf(),
    {
        match self.status {
            Status::Pending => Err(UnsquashfsError::NotRunning),
            Status::Working => {
                self.cancel_requested = true;
                Ok(())
            },
        }
    }

    /// Record that a child has been spawned for a new attempt. This must be
    /// visible to `cancel` before the lifecycle-polling task starts.
    pub fn start(&mut self)
        ensures
            *final(self) == spec_start(*old(self)),
            final(self).status is Working,
            final(self).cancel_requested == old(self).cancel_requested,
            final(self).wf(),
    {
        self.status = Status::Working;
    }

    /// One iteration of the lifecycle-polling task, given the result of one
    /// non-blocking liveness check of the child (`None` while it still runs).
    ///
    /// A pending cancellation is consumed here: the decision is `Kill`, the
    /// flag is cleared before the status returns to `Pending`, so no request
    /// leaks into a later attempt. An observed exit resolves the attempt and
    /// resets the shared state; otherwise the task is told to sleep.
    pub fn poll_step(&mut self, exit: Option<ExitInfo>) -> (d: PollDecision)
        ensures
            (*final(self), d) == spec_poll(*old(self), exit),
            old(self).cancel_requested ==> d is Kill && *final(self) == initial_state(),
            !old(self).cancel_requested && exit is None ==> d is Sleep
                && *final(self) == *old(self),
            !old(self).cancel_requested ==> (match exit {
                Option::Some(e) => *final(self) == initial_state() && d == PollDecision::Resolved(
                    if e.success {
                        Outcome::Success
                    } else {
                        Outcome::Failed(e.code)
                    },
                ),
                Option::None => d is Sleep && *final(self) == *old(self),
            }),
            final(self).wf(),
            d is Kill || d is Resolved ==> *final(self) == initial_state(),
    {
        if self.cancel_requested {
            self.cancel_requested = false;
            self.status = Status::Pending;
            PollDecision::Kill
        } else {
            match exit {
                Some(e) => {
                    self.status = Status::Pending;
                    if e.success {
                        PollDecision::Resolved(Outcome::Success)
                    } else {
                        PollDecision::Resolved(Outcome::Failed(e.code))
                    }
                },
                None => PollDecision::Sleep,
            }
        }
    }
}

impl Default for Unsquashfs {
    /// Same state as `Unsquashfs::new`.
    fn default() -> (r: Unsquashfs)
        ensures
            r == initial_state(),
            r.wf(),
    {
        Unsquashfs::new()
    }
}

/// Merge the outcome reported by the lifecycle-polling task with the
/// diagnostic transcript accumulated by the output parser into the single
/// result of one `extract` call.
pub fn merge_outcome(outcome: Outcome, transcript: Vec<u8>) -> (r: Result<(), UnsquashfsError>)
    ensures
        outcome is Success <==> r is Ok,
        outcome matches Outcome::Failed(code) ==> r == Err::<(), UnsquashfsError>(
            UnsquashfsError::Failure(code, transcript),
        ),
        outcome is Cancelled ==> r == Err::<(), UnsquashfsError>(UnsquashfsError::Cancelled),
{
    match outcome {
        Outcome::Success => Ok(()),
        Outcome::Failed(code) => Err(UnsquashfsError::Failure(code, transcript)),
        Outcome::Cancelled => Err(UnsquashfsError::Cancelled),
    }
}

/// A cancellation request is idempotent: while an attempt is in flight,
/// requesting cancellation again changes nothing further, so the attempt
/// resolves the same way however many times `cancel` was called.
pub proof fn lemma_cancel_idempotent(s: Unsquashfs)
    ensures
        spec_cancel(spec_cancel(s)) == spec_cancel(s),
{
}

/// Once cancellation is requested while an attempt is in flight, the very
/// next poll decides to terminate the child — whether or not the child has
/// exited by then — and the shared state returns to the initial one, with no
/// cancellation left pending.
pub proof fn lemma_cancelled_attempt_resets(s: Unsquashfs, exit: Option<ExitInfo>)
    requires
        s.status is Working,
    ensures
        spec_poll(spec_cancel(s), exit).1 is Kill,
        spec_poll(spec_cancel(s), exit).0 == initial_state(),
{
}

/// A full uncancelled attempt — start, any number of sleeping polls, then the
/// poll that observes the exit — returns the shared state to the initial one,
/// so a second sequential `extract` begins exactly where the first did.
pub proof fn lemma_attempt_restores_initial(s: Unsquashfs, exit: ExitInfo)
    requires
        s.wf(),
        s.status is Pending,
    ensures
        spec_poll(spec_start(s), Option::None).0 == spec_start(s),
        spec_poll(spec_start(s), Option::None).1 is Sleep,
        spec_poll(spec_start(s), Option::Some(exit)).0 == initial_state(),
        s == initial_state(),
{
}

} // verus!
