//! The protocol of the synchronous "immediate submit" transfer.
//!
//! One command buffer and one fence serve every immediate submission:
//! begin recording, record the caller's commands, end recording, submit
//! with the fence, wait on the fence, then reset fence and pool for the next
//! use. [`TransferContext`] decides each next step from the outcome of the
//! previous one; the caller performs the steps on the device. A failed
//! step before the wait still resets the pool, so that the command buffer
//! can be used again; a failed wait or reset means the device is lost, and
//! every later submission is refused.

use vstd::prelude::*;

verus! {

/// How long one wait on the transfer fence may last, in nanoseconds.
pub const FENCE_TIMEOUT_NS: u64 = 9999999999;

/// Where a submission stands: the step that the caller is performing.
#[derive(Clone, Copy, Debug, PartialEq, Eq, Structural)]
pub enum TransferPhase {
    Idle,
    Begin,
    Record,
    End,
    Submit,
    Wait,
    Reset,
    Lost,
}

/// What the caller must do next.
#[derive(Clone, Copy, Debug, PartialEq, Eq, Structural)]
pub enum TransferAction {
    BeginRecording,
    RecordCommands,
    EndRecording,
    Submit,
    /// Wait on the fence, for at most [`FENCE_TIMEOUT_NS`].
    WaitForFence,
    ResetFenceAndPool,
    /// The submission ran to completion.
    Completed,
    /// A step failed; the context is ready for the next submission.
    Failed,
    /// The device did not finish or could not be reset: fatal.
    DeviceLost,
}

#[derive(Clone, Copy, Debug, PartialEq, Eq, Structural)]
pub enum TransferError {
    /// A submission is already in progress.
    Busy,
    /// No submission is in progress.
    NotInProgress,
    /// An earlier submission lost the device.
    DeviceLost,
}

/// The next phase, whether a step has failed, and the next action, after
/// the step of `phase` succeeded (`ok`) or failed.
pub open spec fn transition(phase: TransferPhase, failed: bool, ok: bool) -> (TransferPhase, bool, TransferAction) {
    match phase {
        TransferPhase::Begin => if ok {
            (TransferPhase::Record, failed, TransferAction::RecordCommands)
        } else {
            (TransferPhase::Reset, true, TransferAction::ResetFenceAndPool)
        },
        TransferPhase::Record => if ok {
            (TransferPhase::End, failed, TransferAction::EndRecording)
        } else {
            (TransferPhase::Reset, true, TransferAction::ResetFenceAndPool)
        },
        TransferPhase::End => if ok {
            (TransferPhase::Submit, failed, TransferAction::Submit)
        } else {
            (TransferPhase::Reset, true, TransferAction::ResetFenceAndPool)
        },
        TransferPhase::Submit => if ok {
            (TransferPhase::Wait, failed, TransferAction::WaitForFence)
        } else {
            (TransferPhase::Reset, true, TransferAction::ResetFenceAndPool)
        },
        TransferPhase::Wait => if ok {
            (TransferPhase::Reset, failed, TransferAction::ResetFenceAndPool)
        } else {
            (TransferPhase::Lost, failed, TransferAction::DeviceLost)
        },
        TransferPhase::Reset => if !ok {
            (TransferPhase::Lost, failed, TransferAction::DeviceLost)
        } else if failed {
            (TransferPhase::Idle, false, TransferAction::Failed)
        } else {
            (TransferPhase::Idle, false, TransferAction::Completed)
        },
        TransferPhase::Idle => (TransferPhase::Idle, failed, TransferAction::Failed),
        TransferPhase::Lost => (TransferPhase::Lost, failed, TransferAction::DeviceLost),
    }
}

/// The state of the dedicated transfer command buffer and fence.
pub struct TransferContext {
    phase: TransferPhase,
    failed: bool,
}

impl TransferContext {
    pub closed spec fn spec_phase(&self) -> TransferPhase {
        self.phase
    }

    pub closed spec fn spec_failed(&self) -> bool {
        self.failed
    }

    pub fn new() -> (r: TransferContext)
        ensures
            r.spec_phase() == TransferPhase::Idle,
            !r.spec_failed(),
    {
        TransferContext { phase: TransferPhase::Idle, failed: false }
    }

    pub fn phase(&self) -> (r: TransferPhase)
        ensures
            r == self.spec_phase(),
    {
        self.phase
    }

    /// Starts a submission: the first step is to begin recording.
    pub fn start(&mut self) -> (r: Result<TransferAction, TransferError>)
        ensures
            old(self).spec_phase() == TransferPhase::Idle ==> r == Ok::<TransferAction, TransferError>(
                TransferAction::BeginRecording,
            ) && final(self).spec_phase() == TransferPhase::Begin && !final(self).spec_failed(),
            old(self).spec_phase() == TransferPhase::Lost ==> r == Err::<TransferAction, TransferError>(
                TransferError::DeviceLost,
            ),
            old(self).spec_phase() != TransferPhase::Idle && old(self).spec_phase() != TransferPhase::Lost ==> r
                == Err::<TransferAction, TransferError>(TransferError::Busy),
            r is Err ==> *final(self) == *old(self),
    {
        match self.phase {
            TransferPhase::Idle => {
                self.phase = TransferPhase::Begin;
                self.failed = false;
                Ok(TransferAction::BeginRecording)
            },
            TransferPhase::Lost => Err(TransferError::DeviceLost),
            _ => Err(TransferError::Busy),
        }
    }

    /// Takes the outcome of the step in progress and names the next one.
    pub fn report(&mut self, ok: bool) -> (r: Result<TransferAction, TransferError>)
        ensures
            old(self).spec_phase() == TransferPhase::Idle ==> r == Err::<TransferAction, TransferError>(
                TransferError::NotInProgress,
            ),
            old(self).spec_phase() == TransferPhase::Lost ==> r == Err::<TransferAction, TransferError>(
                TransferError::DeviceLost,
            ),
            r is Err ==> *final(self) == *old(self),
            old(self).spec_phase() != TransferPhase::Idle && old(self).spec_phase() != TransferPhase::Lost ==> {
                let (phase, failed, action) = transition(old(self).spec_phase(), old(self).spec_failed(), ok);
                &&& r == Ok::<TransferAction, TransferError>(action)
                &&& final(self).spec_phase() == phase
                &&& final(self).spec_failed() == failed
            },
    {
        let (phase, failed, action) = match self.phase {
            TransferPhase::Idle => {
                return Err(TransferError::NotInProgress);
            },
            TransferPhase::Lost => {
                return Err(TransferError::DeviceLost);
            },
            TransferPhase::Begin => if ok {
                (TransferPhase::Record, self.failed, TransferAction::RecordCommands)
            } else {
                (TransferPhase::Reset, true, TransferAction::ResetFenceAndPool)
            },
            TransferPhase::Record => if ok {
                (TransferPhase::End, self.failed, TransferAction::EndRecording)
            } else {
                (TransferPhase::Reset, true, TransferAction::ResetFenceAndPool)
            },
            TransferPhase::End => if ok {
                (TransferPhase::Submit, self.failed, TransferAction::Submit)
            } else {
                (TransferPhase::Reset, true, TransferAction::ResetFenceAndPool)
            },
            TransferPhase::Submit => if ok {
                (TransferPhase::Wait, self.failed, TransferAction::WaitForFence)
            } else {
                (TransferPhase::Reset, true, TransferAction::ResetFenceAndPool)
            },
            TransferPhase::Wait => if ok {
                (TransferPhase::Reset, self.failed, TransferAction::ResetFenceAndPool)
            } else {
                (TransferPhase::Lost, self.failed, TransferAction::DeviceLost)
            },
            TransferPhase::Reset => if !ok {
                (TransferPhase::Lost, self.failed, TransferAction::DeviceLost)
            } else if self.failed {
                (TransferPhase::Idle, false, TransferAction::Failed)
            } else {
                (TransferPhase::Idle, false, TransferAction::Completed)
            },
        };
        self.phase = phase;
        self.failed = failed;
        Ok(action)
    }
}

} // verus!
