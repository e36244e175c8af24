use iyon_tui::frame_flow::{
    after_begin, backend_failure, candidate_decision, check_terminal_size, content_commit_failure, content_failure,
    flush_decision, present_action, FrameCommitFacts,
    receipt_failure, BeginOutcome, FinalAttempt, FinalFrameLoop, FinalFrameStep, FlushDecision, FlushNext,
    HistoryAnchor, PresentAction, PresentState,
};
use iyon_tui::runtime::HistoryWorkPoll;

#[test]
fn backend_refusals_are_classified_by_the_worker_state() {
    let stopped = backend_failure(true, "worker gone".to_owned());
    assert_eq!(stopped.failure.code, "BACKEND_NOT_READY");
    assert!(!stopped.failure.retryable);
    assert!(stopped.faults_host);
    let io = backend_failure(false, "broken pipe".to_owned());
    assert_eq!(io.failure.phase, "backend");
    assert_eq!(io.failure.code, "BACKEND_IO_FAILED");
    assert!(io.failure.retryable);
    assert!(!io.faults_host);
    assert_eq!(io.failure.diagnostic, "broken pipe");
    let receipt = receipt_failure("eof");
    assert_eq!(receipt.diagnostic, "terminal presentation failed: eof");
    assert!(receipt.retryable);
}

#[test]
fn content_reports_become_attempt_failures() {
    assert!(content_failure(Ok(None)).is_none());
    let projection = content_failure(Ok(Some("pending rows".to_owned()))).unwrap();
    assert_eq!(projection.code, "PROJECTION_FAILED");
    assert!(projection.retryable);
    let internal = content_failure(Err("bad state".to_owned())).unwrap();
    assert_eq!(internal.phase, "content");
    assert_eq!(internal.code, "INTERNAL_INVARIANT");
    assert!(!internal.retryable);
}

#[test]
fn candidates_anchor_keep_plans_and_number_frames() {
    let d = candidate_decision(true, true, false, false, false, false, 7).unwrap();
    assert_eq!(d.anchor, HistoryAnchor::NativeFrontier);
    assert!(!d.keeps_history_plan);
    assert!(!d.no_output);
    assert_eq!(d.frame_id, 8);
    let d = candidate_decision(false, true, false, false, true, false, 7).unwrap();
    assert_eq!(d.anchor, HistoryAnchor::FollowEnd);
    assert!(d.keeps_history_plan);
    assert!(d.no_output);
    assert_eq!(d.frame_id, 7);
    let d = candidate_decision(false, false, true, true, true, true, 7).unwrap();
    assert_eq!(d.anchor, HistoryAnchor::FollowEnd);
    assert!(!d.no_output);
    assert_eq!(candidate_decision(false, false, false, false, true, false, u64::MAX).unwrap().frame_id, u64::MAX);
    assert_eq!(
        candidate_decision(false, false, false, false, false, false, u64::MAX).unwrap_err(),
        "visible frame revision exhausted"
    );
}

#[test]
fn presenting_asks_the_terminal_only_for_output() {
    assert_eq!(present_action(true, true, true, PresentState::Idle), PresentAction::Wait);
    assert_eq!(present_action(false, true, true, PresentState::Idle), PresentAction::BeginBootstrap);
    assert_eq!(present_action(false, true, false, PresentState::Idle), PresentAction::FinishBootstrap);
    assert_eq!(
        present_action(false, false, true, PresentState::Prepared { no_output: false }),
        PresentAction::BeginFrame
    );
    assert_eq!(
        present_action(false, false, true, PresentState::Prepared { no_output: true }),
        PresentAction::Complete
    );
    assert_eq!(
        present_action(false, false, false, PresentState::Prepared { no_output: false }),
        PresentAction::Complete
    );
    assert_eq!(present_action(false, false, true, PresentState::InFlight), PresentAction::PollReceipt);
    assert_eq!(present_action(false, false, true, PresentState::Completing), PresentAction::Wait);
    assert_eq!(after_begin(BeginOutcome::Accepted), (PresentState::InFlight, false));
    assert_eq!(after_begin(BeginOutcome::WorkerStopped), (PresentState::Idle, true));
    assert_eq!(after_begin(BeginOutcome::Failed), (PresentState::Idle, true));
}

#[test]
fn flushes_open_in_the_hosts_order() {
    assert_eq!(
        flush_decision(true, HistoryWorkPoll::NoWork, false, true, true, None, 0).unwrap_err(),
        "host is closed"
    );
    assert_eq!(
        flush_decision(false, HistoryWorkPoll::Pending, true, true, true, None, 0),
        Ok(FlushDecision { ensure_pending: false, next: FlushNext::WaitForPhysicalWork })
    );
    assert_eq!(
        flush_decision(false, HistoryWorkPoll::Progress, true, true, true, None, 0),
        Ok(FlushDecision { ensure_pending: false, next: FlushNext::SchedulerFailure })
    );
    assert_eq!(
        flush_decision(false, HistoryWorkPoll::Blocked, false, true, true, Some((true, false)), 0),
        Ok(FlushDecision { ensure_pending: true, next: FlushNext::RetryOutcome })
    );
    assert_eq!(
        flush_decision(false, HistoryWorkPoll::NoWork, false, false, true, Some((false, false)), 3),
        Ok(FlushDecision { ensure_pending: false, next: FlushNext::Prepare { attempt: 4 } })
    );
    assert_eq!(
        flush_decision(false, HistoryWorkPoll::NoWork, false, true, false, None, u64::MAX).unwrap_err(),
        "host attempt revision exhausted"
    );
}

#[test]
fn final_frames_retry_after_history_transfers() {
    let mut final_loop = FinalFrameLoop::new();
    assert!(final_loop.uses_final_candidate());
    assert_eq!(
        final_loop.step(FinalAttempt::Transferred { inserted: 0, sink_blocked: true }),
        FinalFrameStep::Retry { mark_sink_blocked: true }
    );
    assert!(!final_loop.uses_final_candidate());
    assert_eq!(
        final_loop.step(FinalAttempt::Transferred { inserted: 3, sink_blocked: true }),
        FinalFrameStep::Retry { mark_sink_blocked: false }
    );
    assert_eq!(final_loop.step(FinalAttempt::Frame), FinalFrameStep::Present);
    assert_eq!(final_loop.step(FinalAttempt::TransferFailed), FinalFrameStep::GiveUp);
    let mut fresh = FinalFrameLoop::new();
    assert_eq!(fresh.step(FinalAttempt::PrepareFailed), FinalFrameStep::GiveUp);
    assert!(fresh.uses_final_candidate());
}

#[test]
fn terminals_of_no_area_are_refused() {
    assert_eq!(check_terminal_size(80, 24), Ok(()));
    assert_eq!(check_terminal_size(0, 24), Err("terminal size must be positive".to_owned()));
    assert_eq!(check_terminal_size(80, 0), Err("terminal size must be positive".to_owned()));
}

#[test]
fn content_commit_failures_keep_their_classification() {
    let known = content_commit_failure(Some(("SOURCE_CLEANUP_FAILED".to_owned(), false)), "poisoned".to_owned());
    assert_eq!(known.phase, "frame");
    assert_eq!(known.code, "SOURCE_CLEANUP_FAILED");
    assert!(!known.retryable);
    let unknown = content_commit_failure(None, "lost".to_owned());
    assert_eq!(unknown.code, "FRAME_PREPARATION_FAILED");
    assert!(unknown.retryable);
    assert_eq!(unknown.diagnostic, "lost");
}

#[test]
fn completing_a_frame_settles_the_host_facts() {
    let mut facts = FrameCommitFacts {
        pending_epoch: 5,
        content_dirty: true,
        pending_ui_changes: Some(3),
        physical_sync_unknown: true,
    };
    assert!(!facts.complete(4, 2, true));
    assert_eq!(
        facts,
        FrameCommitFacts { pending_epoch: 5, content_dirty: true, pending_ui_changes: Some(3), physical_sync_unknown: false }
    );
    assert!(facts.complete(5, 3, true));
    assert_eq!(
        facts,
        FrameCommitFacts { pending_epoch: 5, content_dirty: false, pending_ui_changes: None, physical_sync_unknown: false }
    );
    assert!(!facts.complete(5, 3, false));
}
