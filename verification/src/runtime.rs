//! The native runtime's own bookkeeping between interaction and
//! presentation: routed outputs waiting for the embedder, pastes forwarded
//! before they can be dispatched, component retirements deferred while a
//! component is still mounted, the redraw flag and the exit request.
use std::collections::{HashSet, VecDeque};
use vstd::prelude::*;

use crate::component::ids::ComponentId;
use crate::host::RoutedOutput;
use crate::ui_resources::HistoryUnitStatus;

verus! {

broadcast use vstd::std_specs::hash::group_hash_axioms;

/// Outputs moved to the embedder per readiness step.
pub const OUTPUT_BATCH_BUDGET: usize = 128;

/// What one readiness step reports.
#[derive(Clone, Debug, PartialEq, Eq)]
pub struct ReadyStatus {
    pub dirty: bool,
    pub exiting: bool,
    pub more_ready: bool,
    pub changed_components: Vec<u64>,
}

/// How an input was handled.
#[derive(Clone, Copy, Debug, PartialEq, Eq, Structural)]
pub enum InteractionResult {
    Ignored,
    Consumed,
}

/// A key whose UI events were admitted ahead of routing must then be
/// consumed by routing; an ignored one means the editor preview the events
/// were built from diverged.
pub fn check_key_preview(admitted: bool, result: InteractionResult) -> (r: Result<(), String>)
    ensures
        r is Err <==> admitted && result == InteractionResult::Ignored,
        r matches Err(e) ==> e@ == "UI editor preview diverged during key routing"@,
{
    if admitted && result == InteractionResult::Ignored {
        return Err("UI editor preview diverged during key routing".to_owned());
    }
    Ok(())
}

/// Where a paste goes.
#[derive(Debug, PartialEq, Eq)]
pub enum PasteDispatchOutcome {
    /// The runtime is exiting and takes no input.
    Disabled,
    /// An interceptor turned the paste into an output.
    Intercepted(RoutedOutput),
    /// The focused component handles the paste itself.
    Local,
}

/// The identities to redraw after focus moved from `previous` to `next`:
/// the previously focused one, then the newly focused one if it differs.
pub open spec fn focus_invalidations(previous: Option<ComponentId>, next: Option<ComponentId>) -> Seq<ComponentId> {
    let first = match previous {
        Some(id) => seq![id],
        None => Seq::empty(),
    };
    match next {
        Some(id) => if next != previous { first.push(id) } else { first },
        None => first,
    }
}

/// After focus moves, the previously focused component, when there is one,
/// is redrawn first, whatever gains focus; a newly focused component that
/// differs from it is redrawn after it; nothing else is redrawn, and none
/// twice.
pub proof fn focus_moves_redraw_the_previous_component_first(previous: Option<ComponentId>, next: Option<ComponentId>)
    ensures
        previous matches Some(a) ==> focus_invalidations(previous, next).len() >= 1
            && focus_invalidations(previous, next)[0] == a,
        next matches Some(b) ==> focus_invalidations(previous, next).contains(b),
        forall|x: ComponentId| #[trigger] focus_invalidations(previous, next).contains(x) ==> previous == Some(x) || next == Some(x),
        focus_invalidations(previous, next).no_duplicates(),
        previous is None && next is None ==> focus_invalidations(previous, next).len() == 0,
{
    let r = focus_invalidations(previous, next);
    if next is Some {
        let b = next->0;
        if next != previous {
            assert(r.last() == b);
        } else {
            assert(r[0] == b);
        }
    }
}

/// Retirements still waiting because their component is mounted.
pub open spec fn still_mounted(pending: Seq<u64>, mounted: Set<u64>) -> Seq<u64> {
    pending.filter(|k: u64| mounted.contains(k))
}

/// Retirements that can complete now.
pub open spec fn reapable(pending: Seq<u64>, mounted: Set<u64>) -> Seq<u64> {
    pending.filter(|k: u64| !mounted.contains(k))
}

/// The runtime's output, paste and retirement queues with its redraw and
/// exit flags.
pub struct RuntimeQueues {
    pending_outputs: VecDeque<RoutedOutput>,
    routed_outputs: VecDeque<RoutedOutput>,
    deferred_pastes: VecDeque<String>,
    pending_retirements: Vec<u64>,
    dirty: bool,
    exit_requested: bool,
}

impl RuntimeQueues {
    /// Outputs produced but not yet handed to the embedder.
    pub closed spec fn pending(&self) -> Seq<RoutedOutput> {
        self.pending_outputs@
    }

    /// Outputs the embedder may take, oldest first.
    pub closed spec fn routed(&self) -> Seq<RoutedOutput> {
        self.routed_outputs@
    }

    pub closed spec fn deferred(&self) -> Seq<String> {
        self.deferred_pastes@
    }

    pub closed spec fn retirements(&self) -> Seq<u64> {
        self.pending_retirements@
    }

    pub closed spec fn needs_redraw(&self) -> bool {
        self.dirty
    }

    pub closed spec fn exiting(&self) -> bool {
        self.exit_requested
    }

    /// Empty queues; the first frame is due.
    pub fn new() -> (queues: Self)
        ensures
            queues.pending() == Seq::<RoutedOutput>::empty(),
            queues.routed() == Seq::<RoutedOutput>::empty(),
            queues.deferred() == Seq::<String>::empty(),
            queues.retirements() == Seq::<u64>::empty(),
            queues.needs_redraw(),
            !queues.exiting(),
    {
        RuntimeQueues {
            pending_outputs: VecDeque::new(),
            routed_outputs: VecDeque::new(),
            deferred_pastes: VecDeque::new(),
            pending_retirements: Vec::new(),
            dirty: true,
            exit_requested: false,
        }
    }

    /// Requests exit: queued outputs and pastes are dropped and a final
    /// frame is due.
    pub fn exit(&mut self)
        ensures
            final(self).exiting(),
            final(self).needs_redraw(),
            final(self).pending() == Seq::<RoutedOutput>::empty(),
            final(self).deferred() == Seq::<String>::empty(),
            final(self).routed() == old(self).routed(),
            final(self).retirements() == old(self).retirements(),
    {
        self.exit_requested = true;
        self.pending_outputs.clear();
        self.deferred_pastes.clear();
        self.dirty = true;
    }

    pub fn exited(&self) -> (b: bool)
        ensures
            b == self.exiting(),
    {
        self.exit_requested
    }

    /// Input is refused once exit was requested.
    pub fn input_disabled(&self) -> (b: bool)
        ensures
            b == self.exiting(),
    {
        self.exit_requested
    }

    pub fn invalidate_frame(&mut self)
        ensures
            final(self).needs_redraw(),
            final(self).exiting() == old(self).exiting(),
            final(self).pending() == old(self).pending(),
            final(self).routed() == old(self).routed(),
            final(self).deferred() == old(self).deferred(),
            final(self).retirements() == old(self).retirements(),
    {
        self.dirty = true;
    }

    pub fn clear_dirty(&mut self)
        ensures
            !final(self).needs_redraw(),
            final(self).exiting() == old(self).exiting(),
            final(self).pending() == old(self).pending(),
            final(self).routed() == old(self).routed(),
            final(self).deferred() == old(self).deferred(),
            final(self).retirements() == old(self).retirements(),
    {
        self.dirty = false;
    }

    pub fn is_dirty(&self) -> (b: bool)
        ensures
            b == self.needs_redraw(),
    {
        self.dirty
    }

    /// Queues one output produced by interaction, after those already
    /// queued.
    pub fn queue_output(&mut self, output: RoutedOutput)
        ensures
            final(self).pending() == old(self).pending().push(output),
            final(self).routed() == old(self).routed(),
            final(self).deferred() == old(self).deferred(),
            final(self).retirements() == old(self).retirements(),
            final(self).needs_redraw() == old(self).needs_redraw(),
            final(self).exiting() == old(self).exiting(),
    {
        self.pending_outputs.push_back(output);
    }

    pub fn has_pending_outputs(&self) -> (b: bool)
        ensures
            b == (self.pending().len() > 0),
    {
        self.pending_outputs.len() > 0
    }

    /// The oldest output ready for the embedder.
    pub fn next_output(&mut self) -> (output: Option<RoutedOutput>)
        ensures
            old(self).routed().len() == 0 ==> output is None && final(self).routed() == old(self).routed(),
            old(self).routed().len() > 0 ==> output == Some(old(self).routed()[0])
                && final(self).routed() == old(self).routed().drop_first(),
            final(self).pending() == old(self).pending(),
            final(self).deferred() == old(self).deferred(),
            final(self).retirements() == old(self).retirements(),
            final(self).needs_redraw() == old(self).needs_redraw(),
            final(self).exiting() == old(self).exiting(),
    {
        self.routed_outputs.pop_front()
    }

    /// The report of one readiness step.
    fn status(&self, more_ready: bool, changed_components: Vec<u64>) -> (status: ReadyStatus)
        ensures
            status.dirty == self.needs_redraw(),
            status.exiting == self.exiting(),
            status.more_ready == (more_ready && !self.exiting()),
            status.changed_components@ == changed_components@,
    {
        ReadyStatus {
            dirty: self.dirty,
            exiting: self.exit_requested,
            more_ready: more_ready && !self.exit_requested,
            changed_components,
        }
    }

    /// One readiness step after the due ticks ran: an exiting runtime drops
    /// what is queued; otherwise up to `OUTPUT_BATCH_BUDGET` queued outputs
    /// move to the embedder, oldest first, and more are ready when some
    /// remain.
    pub fn advance_ready(&mut self, tick_dirty: bool, changed_components: Vec<u64>) -> (status: ReadyStatus)
        ensures
            final(self).exiting() == old(self).exiting(),
            final(self).retirements() == old(self).retirements(),
            old(self).exiting() ==> {
                &&& final(self).pending() == Seq::<RoutedOutput>::empty()
                &&& final(self).deferred() == Seq::<String>::empty()
                &&& final(self).routed() == old(self).routed()
                &&& final(self).needs_redraw() == old(self).needs_redraw()
                &&& status == (ReadyStatus {
                    dirty: old(self).needs_redraw(),
                    exiting: true,
                    more_ready: false,
                    changed_components: status.changed_components,
                })
                &&& status.changed_components@ == Seq::<u64>::empty()
            },
            !old(self).exiting() ==> ({
                let moved = if old(self).pending().len() < OUTPUT_BATCH_BUDGET {
                    old(self).pending().len() as int
                } else {
                    OUTPUT_BATCH_BUDGET as int
                };
                &&& final(self).routed() == old(self).routed() + old(self).pending().take(moved)
                &&& final(self).pending() == old(self).pending().skip(moved)
                &&& final(self).deferred() == old(self).deferred()
                &&& final(self).needs_redraw() == (old(self).needs_redraw() || tick_dirty || moved > 0)
                &&& status.dirty == final(self).needs_redraw()
                &&& !status.exiting
                &&& status.more_ready == (final(self).pending().len() > 0)
                &&& status.changed_components@ == changed_components@
            }),
    {
        if self.exit_requested {
            self.pending_outputs.clear();
            self.deferred_pastes.clear();
            return self.status(false, Vec::new());
        }
        self.dirty = self.dirty || tick_dirty;
        let ghost start_pending = self.pending_outputs@;
        let ghost start_routed = self.routed_outputs@;
        let ghost start_dirty = self.dirty;
        let mut moved: usize = 0;
        while moved < OUTPUT_BATCH_BUDGET
            invariant
                moved <= OUTPUT_BATCH_BUDGET,
                moved <= start_pending.len(),
                self.pending_outputs@ == start_pending.skip(moved as int),
                self.routed_outputs@ == start_routed + start_pending.take(moved as int),
                self.deferred_pastes@ == old(self).deferred(),
                self.pending_retirements@ == old(self).retirements(),
                self.exit_requested == old(self).exiting(),
                self.dirty == (start_dirty || moved > 0),
            ensures
                moved <= OUTPUT_BATCH_BUDGET,
                moved <= start_pending.len(),
                moved == OUTPUT_BATCH_BUDGET || moved == start_pending.len(),
                self.pending_outputs@ == start_pending.skip(moved as int),
                self.routed_outputs@ == start_routed + start_pending.take(moved as int),
                self.deferred_pastes@ == old(self).deferred(),
                self.pending_retirements@ == old(self).retirements(),
                self.exit_requested == old(self).exiting(),
                self.dirty == (start_dirty || moved > 0),
            decreases OUTPUT_BATCH_BUDGET - moved,
        {
            match self.pending_outputs.pop_front() {
                Some(output) => {
                    proof {
                        assert(start_pending.skip(moved as int)[0] == output);
                        assert(start_pending.skip(moved as int + 1) =~= start_pending.skip(moved as int).drop_first());
                        assert(start_pending.take(moved as int + 1) =~= start_pending.take(moved as int).push(output));
                    }
                    self.routed_outputs.push_back(output);
                    moved = moved + 1;
                    self.dirty = true;
                },
                None => {
                    break;
                },
            }
        }
        let more = self.pending_outputs.len() > 0;
        self.status(more, changed_components)
    }

    /// Dispatches a key at the runtime level, given the output a global
    /// binding maps it to: while exiting every key is ignored; a globally
    /// bound key queues its output and is consumed; otherwise `None` leaves
    /// the key to local routing.
    pub fn dispatch_key_global(&mut self, global_output: Option<RoutedOutput>) -> (handled: Option<InteractionResult>)
        ensures
            old(self).exiting() ==> handled == Some(InteractionResult::Ignored),
            !old(self).exiting() ==> handled == match global_output {
                Some(_) => Some(InteractionResult::Consumed),
                None => None::<InteractionResult>,
            },
            final(self).pending() == if !old(self).exiting() && global_output is Some {
                old(self).pending().push(global_output->0)
            } else {
                old(self).pending()
            },
            final(self).routed() == old(self).routed(),
            final(self).deferred() == old(self).deferred(),
            final(self).retirements() == old(self).retirements(),
            final(self).needs_redraw() == old(self).needs_redraw(),
            final(self).exiting() == old(self).exiting(),
    {
        if self.exit_requested {
            return Some(InteractionResult::Ignored);
        }
        match global_output {
            Some(output) => {
                self.pending_outputs.push_back(output);
                Some(InteractionResult::Consumed)
            },
            None => None,
        }
    }

    /// Where a paste goes, given what an interceptor made of it.
    pub fn paste_route(&self, intercepted: Option<RoutedOutput>) -> (route: PasteDispatchOutcome)
        ensures
            self.exiting() ==> route == PasteDispatchOutcome::Disabled,
            !self.exiting() ==> route == match intercepted {
                Some(output) => PasteDispatchOutcome::Intercepted(output),
                None => PasteDispatchOutcome::Local,
            },
    {
        if self.exit_requested {
            return PasteDispatchOutcome::Disabled;
        }
        match intercepted {
            Some(output) => PasteDispatchOutcome::Intercepted(output),
            None => PasteDispatchOutcome::Local,
        }
    }

    /// Forwards a paste to be dispatched once the runtime can.
    pub fn defer_paste(&mut self, text: String)
        ensures
            final(self).deferred() == old(self).deferred().push(text),
            final(self).pending() == old(self).pending(),
            final(self).routed() == old(self).routed(),
            final(self).retirements() == old(self).retirements(),
            final(self).needs_redraw() == old(self).needs_redraw(),
            final(self).exiting() == old(self).exiting(),
    {
        self.deferred_pastes.push_back(text);
    }

    /// The oldest forwarded paste still waiting.
    pub fn next_deferred_paste(&mut self) -> (text: Option<String>)
        ensures
            old(self).deferred().len() == 0 ==> text is None && final(self).deferred() == old(self).deferred(),
            old(self).deferred().len() > 0 ==> text == Some(old(self).deferred()[0])
                && final(self).deferred() == old(self).deferred().drop_first(),
            final(self).pending() == old(self).pending(),
            final(self).routed() == old(self).routed(),
            final(self).retirements() == old(self).retirements(),
            final(self).needs_redraw() == old(self).needs_redraw(),
            final(self).exiting() == old(self).exiting(),
    {
        self.deferred_pastes.pop_front()
    }

    /// After a local dispatch: a consumed input needs a redraw of the
    /// components whose focus changed, which are returned.
    pub fn after_local_dispatch(&mut self, consumed: bool, previous: Option<ComponentId>, next: Option<ComponentId>) -> (redraw: Vec<ComponentId>)
        ensures
            consumed ==> redraw@ == focus_invalidations(previous, next) && final(self).needs_redraw(),
            consumed && previous is Some ==> redraw@.len() >= 1 && redraw@[0] == previous->0,
            consumed && next is Some ==> redraw@.contains(next->0),
            forall|x: ComponentId| #[trigger] redraw@.contains(x) ==> previous == Some(x) || next == Some(x),
            !consumed ==> redraw@ == Seq::<ComponentId>::empty() && final(self).needs_redraw() == old(self).needs_redraw(),
            final(self).pending() == old(self).pending(),
            final(self).routed() == old(self).routed(),
            final(self).deferred() == old(self).deferred(),
            final(self).retirements() == old(self).retirements(),
            final(self).exiting() == old(self).exiting(),
    {
        let mut redraw: Vec<ComponentId> = Vec::new();
        if !consumed {
            return redraw;
        }
        match previous {
            Some(id) => redraw.push(id),
            None => {},
        }
        match next {
            Some(id) => {
                let differs = match previous {
                    Some(p) => p.value != id.value,
                    None => true,
                };
                if differs {
                    redraw.push(id);
                }
            },
            None => {},
        }
        self.dirty = true;
        proof {
            assert(redraw@ =~= focus_invalidations(previous, next));
            focus_moves_redraw_the_previous_component_first(previous, next);
        }
        redraw
    }

    /// Notes a component to retire once it is no longer mounted.
    pub fn retire(&mut self, raw_id: u64)
        ensures
            final(self).retirements() == old(self).retirements().push(raw_id),
            final(self).pending() == old(self).pending(),
            final(self).routed() == old(self).routed(),
            final(self).deferred() == old(self).deferred(),
            final(self).needs_redraw() == old(self).needs_redraw(),
            final(self).exiting() == old(self).exiting(),
    {
        self.pending_retirements.push(raw_id);
    }

    /// Completes the retirements whose component is no longer mounted and
    /// returns them in the order they were noted; the others keep waiting.
    pub fn reap_retired(&mut self, mounted: &HashSet<u64>) -> (reaped: Vec<u64>)
        ensures
            reaped@ == reapable(old(self).retirements(), mounted@),
            final(self).retirements() == still_mounted(old(self).retirements(), mounted@),
            final(self).pending() == old(self).pending(),
            final(self).routed() == old(self).routed(),
            final(self).deferred() == old(self).deferred(),
            final(self).needs_redraw() == old(self).needs_redraw(),
            final(self).exiting() == old(self).exiting(),
    {
        let ghost all = self.pending_retirements@;
        let mut keep: Vec<u64> = Vec::new();
        let mut reaped: Vec<u64> = Vec::new();
        let mut i: usize = 0;
        while i < self.pending_retirements.len()
            invariant
                all == self.pending_retirements@,
                i <= all.len(),
                keep@ == still_mounted(all.take(i as int), mounted@),
                reaped@ == reapable(all.take(i as int), mounted@),
            decreases all.len() - i,
        {
            let raw_id = self.pending_retirements[i];
            proof {
                let t = all.take(i as int + 1);
                assert(t.drop_last() =~= all.take(i as int));
                assert(t.last() == raw_id);
                reveal_with_fuel(Seq::filter, 1);
            }
            if mounted.contains(&raw_id) {
                keep.push(raw_id);
            } else {
                reaped.push(raw_id);
            }
            i = i + 1;
        }
        assert(all.take(i as int) =~= all);
        self.pending_retirements = keep;
        reaped
    }
}

/// What synchronizing one accepted History root does to the native History.
#[derive(Clone, Copy, Debug, PartialEq, Eq, Structural)]
pub enum HistorySyncAction {
    /// Push the unit's content under its identity.
    Push,
    /// Replace the content of a live unit.
    Replace,
    /// Freeze a live unit with its final content.
    Freeze,
    /// Only update whether native transfer of the unit is blocked.
    SetTransferBlocked,
    /// Leave a frozen unit that History already let go of.
    Keep,
}

/// The action for a History root, from the status it was accepted with
/// before (if any), whether History still holds its unit, and the status it
/// is accepted with now; `None` when a live unit disappeared.
pub open spec fn history_sync(previous: Option<HistoryUnitStatus>, present: bool, next: HistoryUnitStatus) -> Option<HistorySyncAction> {
    match previous {
        None => if present { Some(HistorySyncAction::SetTransferBlocked) } else { Some(HistorySyncAction::Push) },
        Some(old) => if present {
            if old == HistoryUnitStatus::Live && next == HistoryUnitStatus::Live {
                Some(HistorySyncAction::Replace)
            } else if old == HistoryUnitStatus::Live && next == HistoryUnitStatus::Frozen {
                Some(HistorySyncAction::Freeze)
            } else {
                Some(HistorySyncAction::SetTransferBlocked)
            }
        } else if old == HistoryUnitStatus::Frozen {
            Some(HistorySyncAction::Keep)
        } else {
            None
        },
    }
}

/// Decides how one accepted History root is synchronized.
pub fn history_sync_action(previous: Option<HistoryUnitStatus>, present: bool, next: HistoryUnitStatus) -> (r: Result<HistorySyncAction, String>)
    ensures
        match history_sync(previous, present, next) {
            Some(action) => r == Ok::<HistorySyncAction, String>(action),
            None => (r matches Err(e) && e@ == "accepted live History unit disappeared"@),
        },
{
    match previous {
        None => {
            if present {
                Ok(HistorySyncAction::SetTransferBlocked)
            } else {
                Ok(HistorySyncAction::Push)
            }
        },
        Some(old) => {
            if present {
                match (old, next) {
                    (HistoryUnitStatus::Live, HistoryUnitStatus::Live) => Ok(HistorySyncAction::Replace),
                    (HistoryUnitStatus::Live, HistoryUnitStatus::Frozen) => Ok(HistorySyncAction::Freeze),
                    _ => Ok(HistorySyncAction::SetTransferBlocked),
                }
            } else {
                match old {
                    HistoryUnitStatus::Frozen => Ok(HistorySyncAction::Keep),
                    HistoryUnitStatus::Live => Err("accepted live History unit disappeared".to_owned()),
                }
            }
        },
    }
}

/// Where a host's native History transfer stands.
#[derive(Clone, Copy, Debug, PartialEq, Eq, Structural)]
pub enum HistoryWorkPhase {
    /// No transfer is planned.
    Idle,
    /// A transfer plan waits to be submitted.
    Prepared,
    /// The plan was handed to the terminal, which has not answered yet.
    Submitting,
    /// The terminal took the rows and a receipt is pending.
    InFlight,
}

/// What polling the History transfer reports.
#[derive(Clone, Copy, Debug, PartialEq, Eq, Structural)]
pub enum HistoryWorkPoll {
    /// No transfer to poll.
    NoWork,
    Pending,
    Progress,
    Blocked,
}

/// What the terminal's receipt for submitted History rows says.
#[derive(Clone, Copy, Debug, PartialEq, Eq, Structural)]
pub enum HistoryReceiptState {
    /// No answer yet.
    Pending,
    /// The rows were accepted and committed to History: how many were
    /// inserted, whether the transfer made progress, and whether the sink is
    /// blocked.
    Committed { inserted: u64, progress: bool, sink_blocked: bool },
    /// The transfer or its commit failed.
    Failed,
}

/// What starting a prepared transfer does.
#[derive(Clone, Copy, Debug, PartialEq, Eq, Structural)]
pub enum HistoryStart {
    /// Nothing to start now; the phase is unchanged.
    Idle,
    /// The host owns no backend: an error, and the plan stays prepared.
    MissingBackend,
    /// The plan goes to the terminal.
    Submit,
}

/// One poll of the transfer: what it reports, whether the transfer failed,
/// and whether direct content must be resynchronized.
#[derive(Clone, Copy, Debug, PartialEq, Eq, Structural)]
pub struct HistoryPollStep {
    pub poll: HistoryWorkPoll,
    pub failed: bool,
    pub resync: bool,
}

/// The native History transfer's phase and whether its sink is blocked.
#[derive(Clone, Copy, Debug, PartialEq, Eq, Structural)]
pub struct HistoryWorkState {
    pub phase: HistoryWorkPhase,
    pub sink_blocked: bool,
}

impl HistoryWorkState {
    pub fn new() -> (state: Self)
        ensures
            state.phase == HistoryWorkPhase::Idle,
            !state.sink_blocked,
    {
        HistoryWorkState { phase: HistoryWorkPhase::Idle, sink_blocked: false }
    }

    /// A transfer plan was prepared.
    pub fn prepare(&mut self)
        ensures
            final(self).phase == HistoryWorkPhase::Prepared,
            final(self).sink_blocked == old(self).sink_blocked,
    {
        self.phase = HistoryWorkPhase::Prepared;
    }

    /// Starts a prepared transfer while the host is open or faulted and owns
    /// its backend.
    pub fn start(&mut self, host_usable: bool, has_backend: bool) -> (start: HistoryStart)
        ensures
            final(self).sink_blocked == old(self).sink_blocked,
            !(old(self).phase == HistoryWorkPhase::Prepared && host_usable) ==> start == HistoryStart::Idle
                && final(self).phase == old(self).phase,
            old(self).phase == HistoryWorkPhase::Prepared && host_usable && !has_backend ==> start
                == HistoryStart::MissingBackend && final(self).phase == HistoryWorkPhase::Prepared,
            old(self).phase == HistoryWorkPhase::Prepared && host_usable && has_backend ==> start == HistoryStart::Submit
                && final(self).phase == HistoryWorkPhase::Submitting,
    {
        match self.phase {
            HistoryWorkPhase::Prepared => {
                if !host_usable {
                    return HistoryStart::Idle;
                }
                if !has_backend {
                    return HistoryStart::MissingBackend;
                }
                self.phase = HistoryWorkPhase::Submitting;
                HistoryStart::Submit
            },
            _ => HistoryStart::Idle,
        }
    }

    /// The terminal answered a submission: accepted rows are in flight; a
    /// refused submission ends the transfer as failed.
    pub fn submitted(&mut self, accepted: bool)
        requires
            old(self).phase == HistoryWorkPhase::Submitting,
        ensures
            final(self).phase == if accepted { HistoryWorkPhase::InFlight } else { HistoryWorkPhase::Idle },
            final(self).sink_blocked == old(self).sink_blocked,
    {
        self.phase = if accepted { HistoryWorkPhase::InFlight } else { HistoryWorkPhase::Idle };
    }

    /// Polls the transfer with the receipt's state: only a transfer in
    /// flight can finish; a committed transfer that inserted nothing into a
    /// blocked sink reports `Blocked`, any other commit `Progress`, and a
    /// failure ends the transfer.
    pub fn poll(&mut self, receipt: HistoryReceiptState) -> (step: HistoryPollStep)
        ensures
            old(self).phase == HistoryWorkPhase::Idle ==> step == (HistoryPollStep {
                poll: HistoryWorkPoll::NoWork,
                failed: false,
                resync: false,
            }) && *final(self) == *old(self),
            (old(self).phase == HistoryWorkPhase::Prepared || old(self).phase == HistoryWorkPhase::Submitting)
                ==> step == (HistoryPollStep { poll: HistoryWorkPoll::Pending, failed: false, resync: false })
                && *final(self) == *old(self),
            old(self).phase == HistoryWorkPhase::InFlight ==> match receipt {
                HistoryReceiptState::Pending => step == (HistoryPollStep {
                    poll: HistoryWorkPoll::Pending,
                    failed: false,
                    resync: false,
                }) && *final(self) == *old(self),
                HistoryReceiptState::Committed { inserted, progress, sink_blocked } => {
                    let blocked = inserted == 0 && sink_blocked;
                    &&& final(self).phase == HistoryWorkPhase::Idle
                    &&& final(self).sink_blocked == blocked
                    &&& step == (HistoryPollStep {
                        poll: if blocked { HistoryWorkPoll::Blocked } else { HistoryWorkPoll::Progress },
                        failed: false,
                        resync: inserted > 0 || progress,
                    })
                },
                HistoryReceiptState::Failed => step == (HistoryPollStep {
                    poll: HistoryWorkPoll::NoWork,
                    failed: true,
                    resync: false,
                }) && final(self).phase == HistoryWorkPhase::Idle && final(self).sink_blocked == old(self).sink_blocked,
            },
    {
        match self.phase {
            HistoryWorkPhase::Idle => HistoryPollStep { poll: HistoryWorkPoll::NoWork, failed: false, resync: false },
            HistoryWorkPhase::Prepared | HistoryWorkPhase::Submitting => {
                HistoryPollStep { poll: HistoryWorkPoll::Pending, failed: false, resync: false }
            },
            HistoryWorkPhase::InFlight => match receipt {
                HistoryReceiptState::Pending => HistoryPollStep {
                    poll: HistoryWorkPoll::Pending,
                    failed: false,
                    resync: false,
                },
                HistoryReceiptState::Committed { inserted, progress, sink_blocked } => {
                    let blocked = inserted == 0 && sink_blocked;
                    self.phase = HistoryWorkPhase::Idle;
                    self.sink_blocked = blocked;
                    HistoryPollStep {
                        poll: if blocked { HistoryWorkPoll::Blocked } else { HistoryWorkPoll::Progress },
                        failed: false,
                        resync: inserted > 0 || progress,
                    }
                },
                HistoryReceiptState::Failed => {
                    self.phase = HistoryWorkPhase::Idle;
                    HistoryPollStep { poll: HistoryWorkPoll::NoWork, failed: true, resync: false }
                },
            },
        }
    }
}

} // verus!
