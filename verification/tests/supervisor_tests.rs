use unsqfs_wrap::supervisor::merge_outcome;
use unsqfs_wrap::ExitInfo;
use unsqfs_wrap::Outcome;
use unsqfs_wrap::PollDecision;
use unsqfs_wrap::Status;
use unsqfs_wrap::Unsquashfs;
use unsqfs_wrap::UnsquashfsError;

fn initial() -> Unsquashfs {
    Unsquashfs { status: Status::Pending, cancel_requested: false }
}

#[test]
fn cancel_when_pending_is_not_running() {
    let mut s = Unsquashfs::new();
    assert_eq!(s.cancel(), Err(UnsquashfsError::NotRunning));
    assert_eq!(s, initial());
    // a later attempt proceeds normally: no leaked cancellation
    s.start();
    assert_eq!(s.status, Status::Working);
    assert!(!s.cancel_requested);
}

#[test]
fn cancel_while_working_then_poll_kills() {
    let mut s = Unsquashfs::new();
    s.start();
    assert_eq!(s.cancel(), Ok(()));
    // a second request is idempotent and still succeeds
    assert_eq!(s.cancel(), Ok(()));
    assert!(s.cancel_requested);
    let d = s.poll_step(None);
    assert_eq!(d, PollDecision::Kill);
    assert_eq!(s, initial());
}

#[test]
fn cancel_wins_over_observed_exit() {
    let mut s = Unsquashfs::new();
    s.start();
    s.cancel().unwrap();
    let d = s.poll_step(Some(ExitInfo { success: true, code: 0 }));
    assert_eq!(d, PollDecision::Kill);
    assert_eq!(s, initial());
}

#[test]
fn uncancelled_attempt_resolves_and_resets() {
    let mut s = Unsquashfs::new();
    s.start();
    assert_eq!(s.poll_step(None), PollDecision::Sleep);
    assert_eq!(s.status, Status::Working);
    let d = s.poll_step(Some(ExitInfo { success: true, code: 0 }));
    assert_eq!(d, PollDecision::Resolved(Outcome::Success));
    assert_eq!(s, initial());
    // a second sequential attempt starts from the same state and resolves the
    // same way
    s.start();
    let d2 = s.poll_step(Some(ExitInfo { success: true, code: 0 }));
    assert_eq!(d2, PollDecision::Resolved(Outcome::Success));
    assert_eq!(s, initial());
}

#[test]
fn failed_exit_carries_code() {
    let mut s = Unsquashfs::new();
    s.start();
    let d = s.poll_step(Some(ExitInfo { success: false, code: 2 }));
    assert_eq!(d, PollDecision::Resolved(Outcome::Failed(2)));
    assert_eq!(s, initial());
}

#[test]
fn merge_failure_carries_transcript() {
    let transcript = b"could not open archive\n".to_vec();
    let r = merge_outcome(Outcome::Failed(2), transcript.clone());
    assert_eq!(r, Err(UnsquashfsError::Failure(2, transcript)));
}

#[test]
fn merge_success_and_cancelled() {
    assert_eq!(merge_outcome(Outcome::Success, Vec::new()), Ok(()));
    assert_eq!(
        merge_outcome(Outcome::Cancelled, b"ignored\n".to_vec()),
        Err(UnsquashfsError::Cancelled)
    );
}

#[test]
fn default_matches_new() {
    assert_eq!(Unsquashfs::default(), Unsquashfs::new());
    assert_eq!(Unsquashfs::new(), initial());
}
