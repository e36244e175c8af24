use std::collections::HashSet;

use iyon_tui::component::ids::ComponentId;
use iyon_tui::host::RoutedOutput;
use iyon_tui::runtime::{
    HistoryReceiptState, HistoryStart, HistoryWorkPhase, HistoryWorkPoll, HistoryWorkState,
    history_sync_action, HistorySyncAction, PasteDispatchOutcome, RuntimeQueues, OUTPUT_BATCH_BUDGET,
    check_key_preview, InteractionResult,
};
use iyon_tui::ui_resources::HistoryUnitStatus;

fn output(route: &str) -> RoutedOutput {
    RoutedOutput { route_id: route.to_owned(), payload: None }
}

#[test]
fn readiness_moves_at_most_one_budget_of_outputs_in_order() {
    let mut queues = RuntimeQueues::new();
    queues.clear_dirty();
    for i in 0..(OUTPUT_BATCH_BUDGET + 2) {
        queues.queue_output(output(&format!("r{i}")));
    }
    let status = queues.advance_ready(false, vec![7]);
    assert!(status.dirty);
    assert!(status.more_ready);
    assert!(!status.exiting);
    assert_eq!(status.changed_components, vec![7]);
    assert_eq!(queues.next_output(), Some(output("r0")));
    assert_eq!(queues.next_output(), Some(output("r1")));
    let status = queues.advance_ready(false, Vec::new());
    assert!(!status.more_ready);
    assert!(!queues.has_pending_outputs());
    let mut last = None;
    while let Some(next) = queues.next_output() {
        last = Some(next);
    }
    assert_eq!(last, Some(output(&format!("r{}", OUTPUT_BATCH_BUDGET + 1))));
}

#[test]
fn idle_readiness_keeps_the_frame_clean_unless_a_tick_redrew() {
    let mut queues = RuntimeQueues::new();
    queues.clear_dirty();
    assert!(!queues.advance_ready(false, Vec::new()).dirty);
    assert!(queues.advance_ready(true, Vec::new()).dirty);
}

#[test]
fn exit_drops_queued_work_and_disables_input() {
    let mut queues = RuntimeQueues::new();
    queues.queue_output(output("a"));
    queues.defer_paste("text".to_owned());
    queues.exit();
    assert!(queues.exited());
    assert!(queues.input_disabled());
    assert!(!queues.has_pending_outputs());
    assert_eq!(queues.next_deferred_paste(), None);
    let status = queues.advance_ready(true, vec![1]);
    assert!(status.exiting);
    assert!(!status.more_ready);
    assert!(status.changed_components.is_empty());
    assert_eq!(queues.paste_route(Some(output("p"))), PasteDispatchOutcome::Disabled);
}

#[test]
fn pastes_route_to_interceptors_or_locally() {
    let mut queues = RuntimeQueues::new();
    assert_eq!(queues.paste_route(Some(output("p"))), PasteDispatchOutcome::Intercepted(output("p")));
    assert_eq!(queues.paste_route(None), PasteDispatchOutcome::Local);
    queues.defer_paste("one".to_owned());
    queues.defer_paste("two".to_owned());
    assert_eq!(queues.next_deferred_paste(), Some("one".to_owned()));
    assert_eq!(queues.next_deferred_paste(), Some("two".to_owned()));
    assert_eq!(queues.next_deferred_paste(), None);
}

#[test]
fn consumed_input_redraws_old_and_new_focus() {
    let mut queues = RuntimeQueues::new();
    queues.clear_dirty();
    let a = ComponentId::from_raw(1);
    let b = ComponentId::from_raw(2);
    assert!(queues.after_local_dispatch(false, Some(a), Some(b)).is_empty());
    assert!(!queues.is_dirty());
    assert_eq!(queues.after_local_dispatch(true, Some(a), Some(b)), vec![a, b]);
    assert!(queues.is_dirty());
    assert_eq!(queues.after_local_dispatch(true, Some(a), Some(a)), vec![a]);
    assert_eq!(queues.after_local_dispatch(true, None, Some(b)), vec![b]);
}

#[test]
fn retirements_wait_while_mounted() {
    let mut queues = RuntimeQueues::new();
    queues.retire(3);
    queues.retire(4);
    queues.retire(5);
    let mounted: HashSet<u64> = [4u64].into_iter().collect();
    assert_eq!(queues.reap_retired(&mounted), vec![3, 5]);
    assert_eq!(queues.reap_retired(&mounted), Vec::<u64>::new());
    assert_eq!(queues.reap_retired(&HashSet::new()), vec![4]);
}

#[test]
fn history_roots_sync_by_previous_status_and_presence() {
    let live = HistoryUnitStatus::Live;
    let frozen = HistoryUnitStatus::Frozen;
    assert_eq!(history_sync_action(None, false, live), Ok(HistorySyncAction::Push));
    assert_eq!(history_sync_action(None, true, frozen), Ok(HistorySyncAction::SetTransferBlocked));
    assert_eq!(history_sync_action(Some(live), true, live), Ok(HistorySyncAction::Replace));
    assert_eq!(history_sync_action(Some(live), true, frozen), Ok(HistorySyncAction::Freeze));
    assert_eq!(history_sync_action(Some(frozen), true, live), Ok(HistorySyncAction::SetTransferBlocked));
    assert_eq!(history_sync_action(Some(frozen), false, frozen), Ok(HistorySyncAction::Keep));
    assert_eq!(
        history_sync_action(Some(live), false, live),
        Err("accepted live History unit disappeared".to_owned())
    );
}

#[test]
fn history_transfer_moves_from_prepared_to_in_flight_to_done() {
    let mut work = HistoryWorkState::new();
    assert_eq!(work.poll(HistoryReceiptState::Pending).poll, HistoryWorkPoll::NoWork);
    assert_eq!(work.start(true, true), HistoryStart::Idle);
    work.prepare();
    assert_eq!(work.start(false, true), HistoryStart::Idle);
    assert_eq!(work.start(true, false), HistoryStart::MissingBackend);
    assert_eq!(work.phase, HistoryWorkPhase::Prepared);
    assert_eq!(work.poll(HistoryReceiptState::Failed).poll, HistoryWorkPoll::Pending);
    assert_eq!(work.start(true, true), HistoryStart::Submit);
    work.submitted(true);
    assert_eq!(work.phase, HistoryWorkPhase::InFlight);
    assert_eq!(work.poll(HistoryReceiptState::Pending).poll, HistoryWorkPoll::Pending);
    let step = work.poll(HistoryReceiptState::Committed { inserted: 0, progress: false, sink_blocked: true });
    assert_eq!(step.poll, HistoryWorkPoll::Blocked);
    assert!(!step.resync);
    assert!(work.sink_blocked);
    assert_eq!(work.phase, HistoryWorkPhase::Idle);
    work.prepare();
    work.start(true, true);
    work.submitted(true);
    let step = work.poll(HistoryReceiptState::Committed { inserted: 3, progress: true, sink_blocked: true });
    assert_eq!(step.poll, HistoryWorkPoll::Progress);
    assert!(step.resync);
    assert!(!work.sink_blocked);
    work.prepare();
    work.start(true, true);
    work.submitted(true);
    assert!(work.poll(HistoryReceiptState::Failed).failed);
    assert_eq!(work.phase, HistoryWorkPhase::Idle);
}

#[test]
fn global_bindings_win_and_exiting_ignores_keys() {
    let mut queues = RuntimeQueues::new();
    assert_eq!(queues.dispatch_key_global(Some(output("quit"))), Some(InteractionResult::Consumed));
    assert!(queues.has_pending_outputs());
    queues.advance_ready(false, Vec::new());
    assert_eq!(queues.next_output(), Some(output("quit")));
    assert_eq!(queues.dispatch_key_global(None), None);
    assert!(!queues.has_pending_outputs());
    queues.exit();
    assert_eq!(queues.dispatch_key_global(Some(output("quit"))), Some(InteractionResult::Ignored));
    assert!(!queues.has_pending_outputs());
}

#[test]
fn admitted_keys_must_be_consumed() {
    assert_eq!(check_key_preview(false, InteractionResult::Ignored), Ok(()));
    assert_eq!(check_key_preview(true, InteractionResult::Consumed), Ok(()));
    assert_eq!(
        check_key_preview(true, InteractionResult::Ignored),
        Err("UI editor preview diverged during key routing".to_owned())
    );
}
