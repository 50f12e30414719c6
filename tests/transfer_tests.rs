use megabuffer::config::{RenderConfig, RenderState};
use megabuffer::transfer::{TransferAction, TransferContext, TransferError, TransferPhase};

#[test]
fn immediate_submit_runs_every_step() {
    let mut t = TransferContext::new();
    assert_eq!(t.start(), Ok(TransferAction::BeginRecording));
    assert_eq!(t.start(), Err(TransferError::Busy));
    assert_eq!(t.report(true), Ok(TransferAction::RecordCommands));
    assert_eq!(t.report(true), Ok(TransferAction::EndRecording));
    assert_eq!(t.report(true), Ok(TransferAction::Submit));
    assert_eq!(t.report(true), Ok(TransferAction::WaitForFence));
    assert_eq!(t.report(true), Ok(TransferAction::ResetFenceAndPool));
    assert_eq!(t.report(true), Ok(TransferAction::Completed));
    assert_eq!(t.phase(), TransferPhase::Idle);
    assert_eq!(t.report(true), Err(TransferError::NotInProgress));
}

#[test]
fn failed_recording_still_resets() {
    let mut t = TransferContext::new();
    t.start().unwrap();
    assert_eq!(t.report(true), Ok(TransferAction::RecordCommands));
    assert_eq!(t.report(false), Ok(TransferAction::ResetFenceAndPool));
    assert_eq!(t.report(true), Ok(TransferAction::Failed));
    assert_eq!(t.start(), Ok(TransferAction::BeginRecording));
}

#[test]
fn fence_timeout_loses_device() {
    let mut t = TransferContext::new();
    t.start().unwrap();
    for _ in 0..3 {
        t.report(true).unwrap();
    }
    assert_eq!(t.report(true), Ok(TransferAction::WaitForFence));
    assert_eq!(t.report(false), Ok(TransferAction::DeviceLost));
    assert_eq!(t.phase(), TransferPhase::Lost);
    assert_eq!(t.start(), Err(TransferError::DeviceLost));
    assert_eq!(t.report(true), Err(TransferError::DeviceLost));
}

#[test]
fn render_state_defaults() {
    assert!(!RenderState::new().resize_requested);
    assert!(!RenderConfig::default().vsync);
}
