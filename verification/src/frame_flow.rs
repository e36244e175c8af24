//! The host's decisions around one frame: how a candidate is anchored and
//! numbered, what presenting it asks of the terminal backend, how failures
//! are classified, what a flush does next, and how the final exit frame of a
//! close is retried after History transfers.
use vstd::prelude::*;
use vstd::string::StringExecFns;
use crate::runtime::HistoryWorkPoll;

verus! {

/// A failed host attempt as the host reports it: the phase that failed, a
/// stable code, whether a retry may succeed, and a diagnostic.
#[derive(Debug)]
pub struct HostAttemptFailure {
    pub phase: String,
    pub code: String,
    pub retryable: bool,
    pub diagnostic: String,
}

/// A terminal backend failure while handing a frame over, and whether it
/// also faults the host.
#[derive(Debug)]
pub struct BackendFailure {
    pub failure: HostAttemptFailure,
    pub faults_host: bool,
}

/// Classifies a backend that refused a frame: a stopped terminal worker is
/// not ready and faults the host; any other refusal is a retryable I/O
/// failure.
pub fn backend_failure(worker_stopped: bool, diagnostic: String) -> (f: BackendFailure)
    ensures
        f.failure.phase@ == "backend"@,
        worker_stopped ==> f.failure.code@ == "BACKEND_NOT_READY"@ && !f.failure.retryable && f.faults_host,
        !worker_stopped ==> f.failure.code@ == "BACKEND_IO_FAILED"@ && f.failure.retryable && !f.faults_host,
        f.failure.diagnostic == diagnostic,
{
    if worker_stopped {
        BackendFailure {
            failure: HostAttemptFailure {
                phase: "backend".to_owned(),
                code: "BACKEND_NOT_READY".to_owned(),
                retryable: false,
                diagnostic,
            },
            faults_host: true,
        }
    } else {
        BackendFailure {
            failure: HostAttemptFailure {
                phase: "backend".to_owned(),
                code: "BACKEND_IO_FAILED".to_owned(),
                retryable: true,
                diagnostic,
            },
            faults_host: false,
        }
    }
}

/// A presentation receipt that answered with an error: a retryable backend
/// I/O failure naming what the terminal said.
pub fn receipt_failure(diagnostic: &str) -> (f: HostAttemptFailure)
    ensures
        f.phase@ == "backend"@,
        f.code@ == "BACKEND_IO_FAILED"@,
        f.retryable,
        f.diagnostic@ == "terminal presentation failed: "@ + diagnostic@,
{
    let mut text = "terminal presentation failed: ".to_owned();
    text.append(diagnostic);
    HostAttemptFailure { phase: "backend".to_owned(), code: "BACKEND_IO_FAILED".to_owned(), retryable: true, diagnostic: text }
}

/// Classifies what content projection reported for a candidate: an error
/// in asking is an internal invariant failure, a reported diagnostic a
/// retryable projection failure, and nothing at all no failure.
pub fn content_failure(report: Result<Option<String>, String>) -> (f: Option<HostAttemptFailure>)
    ensures
        report == Ok::<Option<String>, String>(None) <==> f is None,
        report matches Err(e) ==> (f matches Some(x) && x.phase@ == "content"@
            && x.code@ == "INTERNAL_INVARIANT"@ && !x.retryable && x.diagnostic == e),
        report matches Ok(Some(d)) ==> (f matches Some(x) && x.phase@ == "content"@
            && x.code@ == "PROJECTION_FAILED"@ && x.retryable && x.diagnostic == d),
{
    match report {
        Err(e) => Some(HostAttemptFailure {
            phase: "content".to_owned(),
            code: "INTERNAL_INVARIANT".to_owned(),
            retryable: false,
            diagnostic: e,
        }),
        Ok(Some(d)) => Some(HostAttemptFailure {
            phase: "content".to_owned(),
            code: "PROJECTION_FAILED".to_owned(),
            retryable: true,
            diagnostic: d,
        }),
        Ok(None) => None,
    }
}

/// Where a candidate frame anchors its History region.
#[derive(Clone, Copy, Debug, PartialEq, Eq, Structural)]
pub enum HistoryAnchor {
    /// Pinned to the rows native History already holds.
    NativeFrontier,
    /// Following the end of the content.
    FollowEnd,
}

/// What preparing a candidate frame decided: its History anchor, whether
/// the History transfer plan it produced is kept, whether it changes no
/// output, and the physical frame identity it will carry.
#[derive(Clone, Copy, Debug, PartialEq, Eq, Structural)]
pub struct CandidateDecision {
    pub anchor: HistoryAnchor,
    pub keeps_history_plan: bool,
    pub no_output: bool,
    pub frame_id: u64,
}

/// The anchor of a candidate: the native frontier when History is anchored
/// there and any of the sink, native History or the front content is
/// blocked; otherwise the content's end.
pub open spec fn anchor_of(anchored: bool, sink_blocked: bool, native_blocked: bool, front_blocked: bool) -> HistoryAnchor {
    if anchored && (sink_blocked || native_blocked || front_blocked) {
        HistoryAnchor::NativeFrontier
    } else {
        HistoryAnchor::FollowEnd
    }
}

/// A candidate is pinned to the native frontier whenever History is
/// anchored there and any one of the sink, native History or the front
/// content is blocked; it follows the end when History is not anchored, or
/// when none of the three is blocked.
pub proof fn blocked_history_pins_the_frontier(anchored: bool, sink_blocked: bool, native_blocked: bool, front_blocked: bool)
    ensures
        anchored && sink_blocked ==> anchor_of(anchored, sink_blocked, native_blocked, front_blocked) == HistoryAnchor::NativeFrontier,
        anchored && native_blocked ==> anchor_of(anchored, sink_blocked, native_blocked, front_blocked) == HistoryAnchor::NativeFrontier,
        anchored && front_blocked ==> anchor_of(anchored, sink_blocked, native_blocked, front_blocked) == HistoryAnchor::NativeFrontier,
        !anchored ==> anchor_of(anchored, sink_blocked, native_blocked, front_blocked) == HistoryAnchor::FollowEnd,
        !sink_blocked && !native_blocked && !front_blocked ==> anchor_of(anchored, sink_blocked, native_blocked, front_blocked)
            == HistoryAnchor::FollowEnd,
{
}

/// Decides a candidate frame. It changes no output when its surface is the
/// one shown and the physical terminal state is known; then it keeps the
/// visible frame's identity, and otherwise takes the next one. A History
/// plan is kept only while the sink is not blocked.
pub fn candidate_decision(
    sink_blocked: bool,
    anchored: bool,
    native_blocked: bool,
    front_blocked: bool,
    same_surface: bool,
    sync_unknown: bool,
    visible: u64,
) -> (d: Result<CandidateDecision, String>)
    ensures
        d is Err <==> !(same_surface && !sync_unknown) && visible == u64::MAX,
        d matches Err(e) ==> e@ == "visible frame revision exhausted"@,
        d matches Ok(c) ==> {
            &&& c.anchor == anchor_of(anchored, sink_blocked, native_blocked, front_blocked)
            &&& (anchored && (sink_blocked || native_blocked || front_blocked) ==> c.anchor == HistoryAnchor::NativeFrontier)
            &&& (!anchored || !(sink_blocked || native_blocked || front_blocked) ==> c.anchor == HistoryAnchor::FollowEnd)
            &&& c.keeps_history_plan == !sink_blocked
            &&& c.no_output == (same_surface && !sync_unknown)
            &&& c.frame_id == if c.no_output { visible as int } else { visible + 1 }
        },
{
    let anchor = if anchored && (sink_blocked || native_blocked || front_blocked) {
        HistoryAnchor::NativeFrontier
    } else {
        HistoryAnchor::FollowEnd
    };
    let no_output = same_surface && !sync_unknown;
    let frame_id = if no_output {
        visible
    } else {
        match visible.checked_add(1) {
            Some(next) => next,
            None => {
                return Err("visible frame revision exhausted".to_owned());
            },
        }
    };
    Ok(CandidateDecision { anchor, keeps_history_plan: !sink_blocked, no_output, frame_id })
}

/// Where a host's presentation of its next frame stands before a present.
#[derive(Clone, Copy, Debug, PartialEq, Eq, Structural)]
pub enum PresentState {
    Idle,
    /// A frame was prepared; whether it changes no output.
    Prepared { no_output: bool },
    Completing,
    InFlight,
    Failed,
    Closed,
}

/// What presenting asks for.
#[derive(Clone, Copy, Debug, PartialEq, Eq, Structural)]
pub enum PresentAction {
    /// Nothing to do now.
    Wait,
    /// Hand the bootstrap frame to the terminal backend.
    BeginBootstrap,
    /// The bootstrap frame needs no terminal: it is done.
    FinishBootstrap,
    /// Hand the prepared frame to the terminal backend.
    BeginFrame,
    /// The prepared frame needs no terminal hand-over: complete it.
    Complete,
    /// Poll the receipt of the frame in flight.
    PollReceipt,
}

/// The next presentation action: a bootstrap receipt still pending waits;
/// a pending bootstrap frame goes to a terminal backend first; a prepared
/// frame goes to the terminal only when it has output and the backend is a
/// terminal, and is completed directly otherwise; a frame in flight has its
/// receipt polled; any other state is left as it is.
pub fn present_action(bootstrap_waiting: bool, bootstrap_pending: bool, terminal_backend: bool, state: PresentState) -> (a: PresentAction)
    ensures
        bootstrap_waiting ==> a == PresentAction::Wait,
        !bootstrap_waiting && bootstrap_pending ==> a == if terminal_backend {
            PresentAction::BeginBootstrap
        } else {
            PresentAction::FinishBootstrap
        },
        !bootstrap_waiting && !bootstrap_pending ==> a == match state {
            PresentState::Prepared { no_output } => if !no_output && terminal_backend {
                PresentAction::BeginFrame
            } else {
                PresentAction::Complete
            },
            PresentState::InFlight => PresentAction::PollReceipt,
            _ => PresentAction::Wait,
        },
{
    if bootstrap_waiting {
        return PresentAction::Wait;
    }
    if bootstrap_pending {
        return if terminal_backend { PresentAction::BeginBootstrap } else { PresentAction::FinishBootstrap };
    }
    match state {
        PresentState::Prepared { no_output } => {
            if !no_output && terminal_backend {
                PresentAction::BeginFrame
            } else {
                PresentAction::Complete
            }
        },
        PresentState::InFlight => PresentAction::PollReceipt,
        _ => PresentAction::Wait,
    }
}

/// What the terminal answered when handed a frame.
#[derive(Clone, Copy, Debug, PartialEq, Eq, Structural)]
pub enum BeginOutcome {
    /// It took the frame; a receipt will follow.
    Accepted,
    /// Its worker has stopped.
    WorkerStopped,
    /// It failed otherwise.
    Failed,
}

/// The presentation state after handing a prepared frame to the terminal,
/// and whether the physical terminal state became unknown: in flight when
/// the terminal took the frame; otherwise the frame is dropped, the
/// presentation is idle and the physical state unknown.
pub fn after_begin(outcome: BeginOutcome) -> (next: (PresentState, bool))
    ensures
        outcome == BeginOutcome::Accepted ==> next == (PresentState::InFlight, false),
        outcome != BeginOutcome::Accepted ==> next == (PresentState::Idle, true),
{
    match outcome {
        BeginOutcome::Accepted => (PresentState::InFlight, false),
        _ => (PresentState::Idle, true),
    }
}

/// What a flush does after its opening checks.
#[derive(Clone, Copy, Debug, PartialEq, Eq, Structural)]
pub enum FlushNext {
    /// A History transfer is still pending: report waiting for physical work.
    WaitForPhysicalWork,
    /// The scheduler failed earlier: report that failure.
    SchedulerFailure,
    /// Reconciling an already received candidate settled the flush: report
    /// its outcome.
    RetryOutcome,
    /// Prepare a new candidate under this attempt revision.
    Prepare { attempt: u64 },
}

/// The opening of a flush: whether a new pending epoch is opened first, to
/// retry blocked Source cleanup, and what follows.
#[derive(Clone, Copy, Debug, PartialEq, Eq, Structural)]
pub struct FlushDecision {
    pub ensure_pending: bool,
    pub next: FlushNext,
}

/// Decides the opening of a flush, in the order a host checks: a closed
/// host refuses; a pending History transfer waits; a recorded scheduler
/// failure is reported; with nothing pending and Source cleanup blocked a
/// pending epoch is opened; a reconciled candidate that committed or waits
/// on presentation ends the flush; otherwise the attempt revision advances
/// and a new candidate is prepared.
pub fn flush_decision(
    closed: bool,
    poll: HistoryWorkPoll,
    scheduler_failed: bool,
    nothing_pending: bool,
    cleanup_blocked: bool,
    retry: Option<(bool, bool)>,
    attempt: u64,
) -> (d: Result<FlushDecision, String>)
    ensures
        closed ==> (d matches Err(e) && e@ == "host is closed"@),
        !closed && poll == HistoryWorkPoll::Pending ==> d == Ok::<FlushDecision, String>(
            FlushDecision { ensure_pending: false, next: FlushNext::WaitForPhysicalWork },
        ),
        !closed && poll != HistoryWorkPoll::Pending && scheduler_failed ==> d == Ok::<FlushDecision, String>(
            FlushDecision { ensure_pending: false, next: FlushNext::SchedulerFailure },
        ),
        !closed && poll != HistoryWorkPoll::Pending && !scheduler_failed ==> ({
            let ensure = nothing_pending && cleanup_blocked;
            let settled = match retry {
                Some((committed, waiting)) => committed || waiting,
                None => false,
            };
            if settled {
                d == Ok::<FlushDecision, String>(FlushDecision { ensure_pending: ensure, next: FlushNext::RetryOutcome })
            } else if attempt == u64::MAX {
                d matches Err(e) && e@ == "host attempt revision exhausted"@
            } else {
                d == Ok::<FlushDecision, String>(
                    FlushDecision { ensure_pending: ensure, next: FlushNext::Prepare { attempt: (attempt + 1) as u64 } },
                )
            }
        }),
{
    if closed {
        return Err("host is closed".to_owned());
    }
    if poll == HistoryWorkPoll::Pending {
        return Ok(FlushDecision { ensure_pending: false, next: FlushNext::WaitForPhysicalWork });
    }
    if scheduler_failed {
        return Ok(FlushDecision { ensure_pending: false, next: FlushNext::SchedulerFailure });
    }
    let ensure_pending = nothing_pending && cleanup_blocked;
    if let Some((committed, waiting)) = retry {
        if committed || waiting {
            return Ok(FlushDecision { ensure_pending, next: FlushNext::RetryOutcome });
        }
    }
    match attempt.checked_add(1) {
        Some(next) => Ok(FlushDecision { ensure_pending, next: FlushNext::Prepare { attempt: next } }),
        None => Err("host attempt revision exhausted".to_owned()),
    }
}

/// One attempt at the final exit frame of a close, with what its History
/// transfer did when the candidate carried a transfer plan.
#[derive(Clone, Copy, Debug, PartialEq, Eq, Structural)]
pub enum FinalAttempt {
    /// Preparing the candidate failed.
    PrepareFailed,
    /// The candidate carries no History plan: it is the final frame.
    Frame,
    /// The candidate's History transfer failed.
    TransferFailed,
    /// The candidate's History transfer settled: rows inserted, and whether
    /// the sink reported itself blocked.
    Transferred { inserted: u64, sink_blocked: bool },
}

/// What follows one final-frame attempt.
#[derive(Clone, Copy, Debug, PartialEq, Eq, Structural)]
pub enum FinalFrameStep {
    /// Present this candidate as the final frame.
    Present,
    /// Prepare another candidate; first mark the History sink blocked when
    /// the sink took no rows, so the next candidate pins to the frontier
    /// instead of resubmitting them.
    Retry { mark_sink_blocked: bool },
    /// Give up on the final frame and report the failure.
    GiveUp,
}

/// The final-frame loop of a close: the first candidate is the dedicated
/// final one, every later one an ordinary candidate.
#[derive(Clone, Copy, Debug, PartialEq, Eq, Structural)]
pub struct FinalFrameLoop {
    pub advanced: bool,
}

impl FinalFrameLoop {
    pub fn new() -> (l: Self)
        ensures
            !l.advanced,
    {
        FinalFrameLoop { advanced: false }
    }

    /// Whether the next candidate is the dedicated final one.
    pub fn uses_final_candidate(&self) -> (b: bool)
        ensures
            b == !self.advanced,
    {
        !self.advanced
    }

    /// Decides what follows an attempt: a failure gives up, a candidate
    /// without History plan is presented, and a settled transfer prepares
    /// another candidate, marking the sink blocked when it took no rows and
    /// reported itself blocked.
    pub fn step(&mut self, attempt: FinalAttempt) -> (step: FinalFrameStep)
        ensures
            step == match attempt {
                FinalAttempt::PrepareFailed => FinalFrameStep::GiveUp,
                FinalAttempt::TransferFailed => FinalFrameStep::GiveUp,
                FinalAttempt::Frame => FinalFrameStep::Present,
                FinalAttempt::Transferred { inserted, sink_blocked } => FinalFrameStep::Retry {
                    mark_sink_blocked: inserted == 0 && sink_blocked,
                },
            },
            final(self).advanced == (old(self).advanced || step is Retry),
    {
        match attempt {
            FinalAttempt::PrepareFailed | FinalAttempt::TransferFailed => FinalFrameStep::GiveUp,
            FinalAttempt::Frame => FinalFrameStep::Present,
            FinalAttempt::Transferred { inserted, sink_blocked } => {
                self.advanced = true;
                FinalFrameStep::Retry { mark_sink_blocked: inserted == 0 && sink_blocked }
            },
        }
    }
}

/// Refuses a terminal of no area: a host opens only with a positive width
/// and height.
pub fn check_terminal_size(width: u16, height: u16) -> (r: Result<(), String>)
    ensures
        r is Ok <==> width > 0 && height > 0,
        r matches Err(e) ==> e@ == "terminal size must be positive"@,
{
    if width == 0 || height == 0 {
        return Err("terminal size must be positive".to_owned());
    }
    Ok(())
}

/// A content commit that failed while a frame was being completed: the
/// code and retryability the failure carried, when it was a classified host
/// attempt failure, and otherwise a retryable frame-preparation failure.
pub fn content_commit_failure(classified: Option<(String, bool)>, diagnostic: String) -> (f: HostAttemptFailure)
    ensures
        f.phase@ == "frame"@,
        f.diagnostic == diagnostic,
        classified matches Some((code, retryable)) ==> f.code == code && f.retryable == retryable,
        classified is None ==> f.code@ == "FRAME_PREPARATION_FAILED"@ && f.retryable,
{
    match classified {
        Some((code, retryable)) => HostAttemptFailure { phase: "frame".to_owned(), code, retryable, diagnostic },
        None => HostAttemptFailure {
            phase: "frame".to_owned(),
            code: "FRAME_PREPARATION_FAILED".to_owned(),
            retryable: true,
            diagnostic,
        },
    }
}

/// The host facts that completing a frame settles: the newest pending work
/// epoch, whether content changes still wait for a frame, the UI revision
/// of UI changes not yet shown, and whether the physical terminal state is
/// unknown.
#[derive(Clone, Copy, Debug, PartialEq, Eq, Structural)]
pub struct FrameCommitFacts {
    pub pending_epoch: u64,
    pub content_dirty: bool,
    pub pending_ui_changes: Option<u64>,
    pub physical_sync_unknown: bool,
}

impl FrameCommitFacts {
    /// Settles a completed frame of work epoch `epoch` and UI revision
    /// `ui_revision`: the physical state is known again, pending UI changes
    /// the frame shows are cleared, content is clean when the frame covers
    /// the newest pending epoch, and the answer says whether deferred Source
    /// cleanup must block that epoch.
    pub fn complete(&mut self, epoch: u64, ui_revision: u64, deferred_cleanup: bool) -> (block_for_cleanup: bool)
        ensures
            final(self).pending_epoch == old(self).pending_epoch,
            !final(self).physical_sync_unknown,
            final(self).pending_ui_changes == match old(self).pending_ui_changes {
                Some(r) => if r <= ui_revision { None } else { Some(r) },
                None => None,
            },
            final(self).content_dirty == (old(self).content_dirty && old(self).pending_epoch != epoch),
            block_for_cleanup == (deferred_cleanup && old(self).pending_epoch == epoch),
    {
        self.physical_sync_unknown = false;
        match self.pending_ui_changes {
            Some(r) => {
                if r <= ui_revision {
                    self.pending_ui_changes = None;
                }
            },
            None => {},
        }
        if self.pending_epoch == epoch {
            self.content_dirty = false;
        }
        deferred_cleanup && self.pending_epoch == epoch
    }
}

} // verus!
