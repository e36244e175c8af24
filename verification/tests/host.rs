use iyon_tui::host::{close_schedule, CloseStep};
use iyon_tui::host::{physical_color, PhysicalColor};
use iyon_tui::component::control::{AnimationSnapshot, ControlSnapshot};
use iyon_tui::component::Component;
use iyon_tui::host::{
    presentation_completable, PresentationPhase, VisibleFrame,
    runs_final_frame, settle_close_report, CloseOutcomes, FinalPosition,
    combine_close_failures, stamp_revision, ui_event_mask, ui_event_targets, ui_events_for_targets, is_event_backpressure, AnimationClock, NativeUiEvent, UiEventLimitError,
    UiEventQueue, UiEventQueueLimits, UiInputAdmissionError, UI_EVENT_QUEUE_MAX_BYTES,
    UI_EVENT_QUEUE_MAX_RECORDS,
};
use iyon_tui::ui_resources::UiHandle;

fn event(text: &str, key: Option<&str>) -> NativeUiEvent {
    NativeUiEvent {
        handle: UiHandle { value: 7 },
        mask: 1,
        text: Some(text.to_owned()),
        cursor_bytes: Some(text.len()),
        key: key.map(str::to_owned),
        revision: None,
    }
}

#[test]
fn payload_counts_text_and_key_bytes() {
    assert_eq!(event("héllo", Some("Enter")).payload_bytes(), Ok(6 + 5));
    let bare = NativeUiEvent { text: None, key: None, ..event("", None) };
    assert_eq!(bare.payload_bytes(), Ok(0));
}

#[test]
fn default_limits_are_four_thousand_records_and_eight_mebibytes() {
    let limits = UiEventQueueLimits::default();
    assert_eq!(limits.max_records, 4096);
    assert_eq!(limits.max_bytes, 8 * 1024 * 1024);
    assert_eq!(UI_EVENT_QUEUE_MAX_RECORDS, 4096);
    assert_eq!(UI_EVENT_QUEUE_MAX_BYTES, 8 * 1024 * 1024);
}

#[test]
fn queue_admits_until_full_then_latches_backpressure_until_drained() {
    let mut queue = UiEventQueue::new();
    assert_eq!(queue.set_limits(2, 100), Ok(()));
    assert_eq!(queue.enqueue(vec![event("ab", None)]), Ok(()));
    assert_eq!(queue.len(), 1);
    assert_eq!(queue.bytes(), 2);
    assert_eq!(queue.ensure_capacity(), Ok(()));
    assert_eq!(
        queue.enqueue(vec![event("c", None), event("d", None)]),
        Err(UiInputAdmissionError::Backpressure)
    );
    assert!(queue.is_backpressured());
    // The latch refuses even a batch that would fit.
    assert_eq!(queue.enqueue(vec![event("e", None)]), Err(UiInputAdmissionError::Backpressure));
    assert_eq!(queue.ensure_capacity(), Err(UiInputAdmissionError::Backpressure));
    let batch = queue.take_batch();
    assert_eq!(batch.len(), 1);
    assert_eq!(batch[0].text.as_deref(), Some("ab"));
    assert!(!queue.is_backpressured());
    assert_eq!(queue.bytes(), 0);
    assert_eq!(queue.enqueue(vec![event("e", None)]), Ok(()));
}

#[test]
fn one_batch_larger_than_the_limits_is_too_large() {
    let mut queue = UiEventQueue::new();
    assert_eq!(queue.set_limits(4, 3), Ok(()));
    let refused = queue.enqueue(vec![event("abcd", None)]);
    assert_eq!(refused, Err(UiInputAdmissionError::TooLarge));
    assert!(!is_event_backpressure(&refused.unwrap_err()));
    assert!(!queue.is_backpressured());
    assert!(queue.is_empty());
    assert_eq!(
        UiInputAdmissionError::TooLarge.message(),
        "EVENT_TOO_LARGE: one native UI event batch cannot fit configured limits"
    );
    assert_eq!(
        UiInputAdmissionError::Backpressure.message(),
        "EVENT_BACKPRESSURE: native UI event queue is full"
    );
    assert!(is_event_backpressure(&UiInputAdmissionError::Backpressure));
}

#[test]
fn reservation_overflow_is_refused_before_the_limits() {
    let mut queue = UiEventQueue::new();
    assert_eq!(queue.enqueue(vec![event("a", None)]), Ok(()));
    assert_eq!(queue.reserve(usize::MAX, 0), Err(UiInputAdmissionError::RecordOverflow));
    assert_eq!(queue.reserve(0, usize::MAX), Err(UiInputAdmissionError::ByteOverflow));
    assert!(!queue.is_backpressured());
}

#[test]
fn limits_only_decrease_and_never_below_occupancy() {
    let mut queue = UiEventQueue::new();
    assert_eq!(queue.set_limits(0, 10), Err(UiEventLimitError::NotPositive));
    assert_eq!(queue.set_limits(5000, 10), Err(UiEventLimitError::Increase));
    assert_eq!(queue.enqueue(vec![event("abc", None), event("de", None)]), Ok(()));
    assert_eq!(queue.set_limits(1, 100), Err(UiEventLimitError::BelowOccupancy));
    assert_eq!(queue.set_limits(2, 4), Err(UiEventLimitError::BelowOccupancy));
    assert_eq!(queue.set_limits(2, 5), Ok(()));
    assert_eq!(queue.limits(), UiEventQueueLimits { max_records: 2, max_bytes: 5 });
    assert_eq!(queue.set_limits(3, 5), Err(UiEventLimitError::Increase));
    assert_eq!(
        UiEventLimitError::Increase.message(),
        "UI event queue limits may only decrease"
    );
}

#[test]
fn animation_advances_one_frame_per_elapsed_period_and_wraps() {
    let mut clock = AnimationClock::new();
    assert!(clock.running());
    clock.configure(3, 4, 100, true, 1_000);
    assert_eq!(clock.frame_index(), 1);
    assert!(!clock.tick(1_099));
    assert_eq!(clock.frame_index(), 1);
    assert!(clock.tick(1_100));
    assert_eq!(clock.frame_index(), 2);
    assert!(clock.tick(1_250));
    assert_eq!(clock.frame_index(), 0);
    // Times before the period began count as no time at all.
    assert!(!clock.tick(10));
    assert_eq!(
        clock.control_snapshot(),
        Some(ControlSnapshot::Animation(AnimationSnapshot { active_frame: 0, frame_count: 3, running: true }))
    );
}

#[test]
fn stopped_or_single_frame_animation_never_advances() {
    let mut clock = AnimationClock::new();
    clock.configure(1, 0, 100, true, 0);
    assert!(!clock.tick(1_000));
    clock.configure(4, 2, 100, false, 0);
    assert!(!clock.tick(1_000));
    assert_eq!(clock.frame_index(), 2);
    clock.configure(4, 2, 0, true, 0);
    assert!(!clock.tick(1_000));
    // A clock with no start time begins its period on the first tick.
    clock.configure(0, 9, 0, true, 0);
    assert_eq!(clock.frame_index(), 0);
    assert_eq!(clock.frame_count(), 0);
}

#[test]
fn close_failures_fold_into_one_report() {
    assert_eq!(combine_close_failures(Vec::new()), Ok(()));
    assert_eq!(
        combine_close_failures(vec![("terminal restoration".to_owned(), "boom".to_owned())]),
        Err("terminal restoration: boom".to_owned())
    );
    assert_eq!(
        combine_close_failures(vec![
            ("terminal restoration".to_owned(), "boom".to_owned()),
            ("owner cleanup".to_owned(), "bang".to_owned()),
        ]),
        Err("close failures: terminal restoration: boom; owner cleanup: bang".to_owned())
    );
}

#[test]
fn editor_input_raises_bits_by_what_changed() {
    assert_eq!(ui_event_mask(true, false, false), 2 | 8 | 4);
    assert_eq!(ui_event_mask(false, true, false), 4 | 16);
    assert_eq!(ui_event_mask(false, false, true), 1 | 32);
    assert_eq!(ui_event_mask(true, true, true), 63);
    assert_eq!(ui_event_mask(false, false, false), 0);
}

#[test]
fn only_subscribed_nodes_receive_events_with_their_bits() {
    let nodes = vec![(UiHandle { value: 1 }, 4u32), (UiHandle { value: 2 }, 1), (UiHandle { value: 3 }, 0xff)];
    let targets = ui_event_targets(&nodes, 2 | 8 | 4);
    assert_eq!(targets, vec![(UiHandle { value: 1 }, 4), (UiHandle { value: 3 }, 14)]);
    let mut events = ui_events_for_targets(&targets, &"hi".to_owned(), 2, &Some("Char('i')".to_owned()));
    assert_eq!(events.len(), 2);
    assert_eq!(events[1].handle, UiHandle { value: 3 });
    assert_eq!(events[1].mask, 14);
    assert_eq!(events[0].text.as_deref(), Some("hi"));
    assert_eq!(events[0].revision, None);
    stamp_revision(&mut events, Some(9));
    assert!(events.iter().all(|event| event.revision == Some(9)));
    assert_eq!(UiEventQueue::batch_bytes(&events), Ok(2 * (2 + 9)));
}

#[test]
fn close_presents_a_final_frame_only_after_a_clean_settlement() {
    assert!(runs_final_frame(false, true, FinalPosition::PositionAfterFinalFrame));
    assert!(!runs_final_frame(true, true, FinalPosition::PositionAfterFinalFrame));
    assert!(!runs_final_frame(false, false, FinalPosition::PositionAfterFinalFrame));
    assert!(!runs_final_frame(false, true, FinalPosition::Restore));
}

#[test]
fn close_failures_are_labelled_in_step_order() {
    let none = CloseOutcomes { receipt: None, history: None, prepare: None, final_frame: None, restore: None, cleanup: None };
    assert_eq!(settle_close_report(none), Ok(()));
    let one = CloseOutcomes { restore: Some("tty".to_owned()), receipt: None, history: None, prepare: None, final_frame: None, cleanup: None };
    assert_eq!(settle_close_report(one), Err("terminal restoration: tty".to_owned()));
    let two = CloseOutcomes {
        receipt: None,
        history: Some("sink".to_owned()),
        prepare: None,
        final_frame: None,
        restore: None,
        cleanup: Some("leak".to_owned()),
    };
    assert_eq!(
        settle_close_report(two),
        Err("close failures: History transfer: sink; owner cleanup: leak".to_owned())
    );
}

#[test]
fn visible_frames_advance_one_at_a_time() {
    let mut visible = VisibleFrame { frame_revision: 4, structural_revision: 1, committed_epoch: 2 };
    assert_eq!(
        visible.commit_candidate(6, false, 9, 9),
        Err("output candidate physical frame identity is not monotonic".to_owned())
    );
    assert_eq!(visible.frame_revision, 4);
    assert_eq!(
        visible.commit_candidate(5, true, 9, 9),
        Err("metadata candidate does not reference the confirmed physical frame".to_owned())
    );
    assert_eq!(visible.commit_candidate(5, false, 7, 3), Ok(()));
    assert_eq!(visible, VisibleFrame { frame_revision: 5, structural_revision: 7, committed_epoch: 3 });
    assert_eq!(visible.commit_candidate(5, true, 8, 4), Ok(()));
    assert_eq!(visible.frame_revision, 5);
    let mut last = VisibleFrame { frame_revision: u64::MAX, structural_revision: 0, committed_epoch: 0 };
    assert_eq!(last.commit_candidate(0, false, 0, 0), Err("visible frame revision exhausted".to_owned()));
}

#[test]
fn only_prepared_frames_complete() {
    assert_eq!(presentation_completable(PresentationPhase::Prepared), Ok(()));
    assert_eq!(presentation_completable(PresentationPhase::Completing), Ok(()));
    assert_eq!(
        presentation_completable(PresentationPhase::InFlight),
        Err("cannot complete a frame while its receipt is still in flight".to_owned())
    );
    assert_eq!(presentation_completable(PresentationPhase::Closed), Err("missing prepared presentation frame".to_owned()));
}

#[test]
fn physical_colors_are_reported_by_kind() {
    assert_eq!(physical_color(&PhysicalColor::Default), "default");
    assert_eq!(physical_color(&PhysicalColor::Named("Red".to_owned())), "Red");
    assert_eq!(physical_color(&PhysicalColor::Indexed(203)), "ansi:203");
    assert_eq!(physical_color(&PhysicalColor::Rgb { r: 0, g: 171, b: 255 }), "#00abff");
}

#[test]
fn closes_run_their_steps_in_order() {
    let with_final = close_schedule(false, true, FinalPosition::PositionAfterFinalFrame);
    assert_eq!(
        with_final,
        vec![
            CloseStep::CancelScheduling,
            CloseStep::SettleReceipt,
            CloseStep::FinalFrame,
            CloseStep::RestoreTerminal,
            CloseStep::CleanupOwner,
            CloseStep::Unregister,
        ]
    );
    let without_final = vec![
        CloseStep::CancelScheduling,
        CloseStep::SettleReceipt,
        CloseStep::RestoreTerminal,
        CloseStep::CleanupOwner,
        CloseStep::Unregister,
    ];
    assert_eq!(close_schedule(true, true, FinalPosition::PositionAfterFinalFrame), without_final);
    assert_eq!(close_schedule(false, true, FinalPosition::Restore), without_final);
}
