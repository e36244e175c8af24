use std::cell::RefCell;
use std::collections::HashMap;

use iyon_tui::component::control::{ControlSnapshot, MountedScroll, ScrollSnapshot, Size};
use iyon_tui::component::Component;
use iyon_tui::ui_resources::{
    control_rejection, decode_annotation_records, default_funnel, validate_funnel_spec, CommitDetail,
    ContentAnnotationRecord, ControlError, FunnelSpec, HostContentSource, HostNamespace, SidecarError,
    SourceIdentity, SourceRelease, TuiEnvironment, UiHandle, UiResourceAction, UiResourceLifecycle,
    UiResourceOwner, HistoryUnitOwner, HistoryUnitStatus, HistoryRootConfig, HistoryRootSummary,
};

fn source(id: u64) -> HostContentSource {
    HostContentSource { id, generation: 2, environment_slot: 3, environment_generation: 4 }
}

fn owner() -> UiResourceOwner {
    UiResourceOwner::new(
        HostNamespace { value: 9 },
        TuiEnvironment { slot: 3, generation: 4 },
        UiHandle { value: 77 },
    )
}

fn words(values: &[u32]) -> Vec<u8> {
    values.iter().flat_map(|v| v.to_le_bytes()).collect()
}

#[test]
fn identity_copies_the_source_facts() {
    let identity = SourceIdentity::from_source(&source(5));
    assert_eq!(
        identity,
        SourceIdentity { id: 5, generation: 2, environment_slot: 3, environment_generation: 4 }
    );
}

#[test]
fn body_handle_only_while_open() {
    let mut owner = owner();
    assert_eq!(owner.body_handle(), Ok(UiHandle { value: 77 }));
    assert!(owner.is_open());
    assert_eq!(owner.close(|_| Ok(())), Ok(()));
    assert_eq!(owner.lifecycle(), UiResourceLifecycle::Closed);
    assert_eq!(owner.body_handle(), Err("UI resource owner is closing or closed".to_owned()));
    // Closing again is a no-op.
    assert_eq!(owner.close(|_| Err("unused".to_owned())), Ok(()));
}

#[test]
fn actions_install_and_dispose_resources() {
    let mut owner = owner();
    let funnel = default_funnel();
    owner.apply_actions(vec![
        UiResourceAction::CreatePort { key: 1 },
        UiResourceAction::CreateConnector { key: 2, source: source(10), funnel },
        UiResourceAction::ReplaceLiteral { port: 1, source: source(11), funnel },
    ]);
    assert!(owner.has_port(1));
    assert_eq!(owner.connector(2), Some((SourceIdentity::from_source(&source(10)), funnel)));
    assert_eq!(owner.literal_source(1), Some(SourceIdentity::from_source(&source(11))));
    assert_eq!(owner.private_source(1), Some(SourceIdentity::from_source(&source(11))));
    owner.apply_actions(vec![UiResourceAction::DisposePort { key: 1 }]);
    assert!(!owner.has_port(1));
    assert_eq!(owner.connector(1), None);
    assert_eq!(owner.literal_source(1), None);
    assert_eq!(owner.connector(2), Some((SourceIdentity::from_source(&source(10)), funnel)));
}

#[test]
fn history_updates_bind_and_unbind_roots() {
    let mut owner = owner();
    let unit = HistoryUnitOwner { id: 4, flow_boundary: 1, status: HistoryUnitStatus::Live };
    owner.apply_history_updates(vec![(8, Some(unit)), (9, Some(unit)), (8, None)]);
    assert_eq!(owner.history_unit(8), None);
    assert_eq!(owner.history_unit(9), Some(unit));
}

#[test]
fn close_releases_connectors_then_unshared_private_sources() {
    let mut owner = owner();
    let funnel = default_funnel();
    owner.apply_actions(vec![
        UiResourceAction::CreatePort { key: 1 },
        UiResourceAction::CreateConnector { key: 2, source: source(10), funnel },
        UiResourceAction::ReplaceLiteral { port: 1, source: source(11), funnel },
    ]);
    let calls = RefCell::new(Vec::new());
    let result = owner.close(|release| {
        calls.borrow_mut().push(release);
        Ok(())
    });
    assert_eq!(result, Ok(()));
    let calls = calls.into_inner();
    assert_eq!(calls.len(), 3);
    assert!(calls.contains(&SourceRelease::Connector(SourceIdentity::from_source(&source(10)))));
    assert!(calls.contains(&SourceRelease::Connector(SourceIdentity::from_source(&source(11)))));
    assert_eq!(calls[2], SourceRelease::Private(SourceIdentity::from_source(&source(11))));
    assert!(!owner.has_port(1));
    assert_eq!(owner.lifecycle(), UiResourceLifecycle::Closed);
}

#[test]
fn failed_release_keeps_the_owner_closing_with_what_remains() {
    let mut owner = owner();
    let funnel = default_funnel();
    owner.apply_actions(vec![
        UiResourceAction::CreatePort { key: 1 },
        UiResourceAction::ReplaceLiteral { port: 1, source: source(11), funnel },
        UiResourceAction::CreateConnector { key: 2, source: source(10), funnel },
    ]);
    let result = owner.close(|release| match release {
        SourceRelease::Connector(identity) if identity.id == 11 => Err("busy".to_owned()),
        _ => Ok(()),
    });
    assert_eq!(
        result,
        Err("failed to release Source membership for Connector 1: busy".to_owned())
    );
    assert_eq!(owner.lifecycle(), UiResourceLifecycle::Closing);
    assert_eq!(owner.body_handle(), Err("UI resource owner is closing or closed".to_owned()));
    assert_eq!(owner.connector(2), None);
    assert!(owner.connector(1).is_some());
    // The private Source stays while its Connector still uses it.
    assert!(owner.private_source(1).is_some());
    assert!(owner.has_port(1));
}

#[test]
fn funnels_outside_the_known_kinds_are_invalid() {
    assert!(validate_funnel_spec(default_funnel(), 3).is_ok());
    let spec = FunnelSpec { kind: 3, wrap: 2, hyperlinks: false, smooth: true };
    assert!(validate_funnel_spec(spec, 3).is_ok());
    let rejection = validate_funnel_spec(FunnelSpec { kind: 4, ..spec }, 3).unwrap_err();
    assert_eq!(rejection.revision, 3);
    assert_eq!(rejection.detail, CommitDetail::InvalidProperty);
    assert_eq!(rejection.message, "Funnel value is invalid");
    assert!(validate_funnel_spec(FunnelSpec { wrap: 3, ..spec }, 3).is_err());
}

#[test]
fn control_errors_map_to_commit_details() {
    let rejection = control_rejection(12, ControlError::StaleEditRevision);
    assert_eq!(rejection.revision, 12);
    assert_eq!(rejection.detail, CommitDetail::StaleRevision);
    assert_eq!(rejection.message, "control transition: StaleEditRevision");
    assert_eq!(control_rejection(1, ControlError::InvalidValue).detail, CommitDetail::Malformed);
    assert_eq!(control_rejection(1, ControlError::UnknownCommand).detail, CommitDetail::Unsupported);
    assert_eq!(control_rejection(1, ControlError::RevisionExhausted).detail, CommitDetail::Capacity);
}

#[test]
fn sidecar_decodes_records_and_payload() {
    let mut bytes = words(&[2, 1, 0, 3, 7, 0, 2, 9, 10, 4, 1, 5, 9, 2, 1, 0, 0]);
    bytes.extend_from_slice(b"abc");
    let (records, payload) = decode_annotation_records(&bytes).unwrap();
    assert_eq!(payload, b"abc".to_vec());
    assert_eq!(
        records,
        vec![
            ContentAnnotationRecord {
                kind: 1, flags: 0, start_byte: 3, end_byte: 7,
                payload_offset: 0, payload_length: 2, aux0: 9, aux1: 10,
            },
            ContentAnnotationRecord {
                kind: 4, flags: 1, start_byte: 5, end_byte: 9,
                payload_offset: 2, payload_length: 1, aux0: 0, aux1: 0,
            },
        ]
    );
    assert_eq!(decode_annotation_records(&[]), Ok((Vec::new(), Vec::new())));
}

#[test]
fn sidecar_errors_name_the_broken_part() {
    assert_eq!(decode_annotation_records(&[1, 0]), Err(SidecarError::Truncated));
    assert_eq!(decode_annotation_records(&words(&[1, 0, 0])), Err(SidecarError::Exceed));
    let mut bytes = words(&[1, 1, 0, 0, 0, 2, 2, 0, 0]);
    bytes.extend_from_slice(b"abc");
    assert_eq!(decode_annotation_records(&bytes), Err(SidecarError::PayloadRange));
    let overflow = words(&[1, 1, 0, 0, 0, u32::MAX, 1, 0, 0]);
    assert_eq!(decode_annotation_records(&overflow), Err(SidecarError::PayloadRange));
    assert_eq!(SidecarError::Exceed.message(), "annotation records exceed sidecar");
}

#[test]
fn scroll_control_reports_viewport_and_extent_rows() {
    let mut scroll = MountedScroll::new();
    scroll.layout_changed(Size { width: 80, height: 24 });
    scroll.extent_changed(Size { width: 80, height: 300 });
    assert_eq!(
        scroll.control_snapshot(),
        Some(ControlSnapshot::Scroll(ScrollSnapshot {
            viewport_rows: 24,
            extent_rows: 300,
            top_row: 0,
            following_end: true,
        }))
    );
}

#[test]
fn two_runs_of_actions_equal_their_concatenation() {
    let funnel = default_funnel();
    let first = vec![
        UiResourceAction::CreatePort { key: 1 },
        UiResourceAction::SetLiteralFunnel { port: 1, source: source(11), funnel },
    ];
    let second = vec![
        UiResourceAction::CreateConnector { key: 2, source: source(10), funnel },
        UiResourceAction::DisposeLiteral { port: 1 },
    ];
    let mut stepwise = owner();
    stepwise.apply_actions(first.clone());
    stepwise.apply_actions(second.clone());
    let mut at_once = owner();
    at_once.apply_actions(first.into_iter().chain(second).collect());
    for key in [1u64, 2] {
        assert_eq!(stepwise.has_port(key), at_once.has_port(key));
        assert_eq!(stepwise.connector(key), at_once.connector(key));
        assert_eq!(stepwise.literal_source(key), at_once.literal_source(key));
        assert_eq!(stepwise.private_source(key), at_once.private_source(key));
    }
    assert!(at_once.has_port(1));
    assert_eq!(at_once.connector(1), None);
}

fn summary(root: u64, action: Option<u32>, added: bool, supplied: bool, identity: Option<u64>) -> HistoryRootSummary {
    HistoryRootSummary {
        root,
        action,
        has_live_control: false,
        added,
        identity_supplied: supplied,
        config: Some(HistoryRootConfig { flow_boundary: 1, unit_identity: identity }),
    }
}

#[test]
fn history_roots_bind_freeze_and_discard_by_the_history_rules() {
    let mut owner = owner();
    let live = HistoryUnitOwner { id: 4, flow_boundary: 1, status: HistoryUnitStatus::Live };
    owner.apply_history_updates(vec![(8, Some(live))]);
    let none: HashMap<u64, bool> = HashMap::new();
    // A new root binds its allocated unit live; a freeze of a live root freezes it.
    let updates = owner
        .prepare_history_updates(&vec![summary(9, None, true, false, Some(5)), summary(8, Some(1), false, false, None)], &vec![], None, &none, 3)
        .unwrap();
    assert_eq!(
        updates,
        vec![
            (9, Some(HistoryUnitOwner { id: 5, flow_boundary: 1, status: HistoryUnitStatus::Live })),
            (8, Some(HistoryUnitOwner { status: HistoryUnitStatus::Frozen, ..live })),
        ]
    );
    // A discard must retire its live tail root, and then unbinds it.
    let refused = owner.prepare_history_updates(&vec![summary(8, Some(2), false, false, None)], &vec![], Some(8), &none, 3).unwrap_err();
    assert_eq!(refused.message, "History discard must retire its live tail root");
    assert_eq!(refused.revision, 3);
    assert_eq!(refused.detail, CommitDetail::InvalidTopology);
    let updates = owner.prepare_history_updates(&vec![summary(8, Some(2), false, false, None)], &vec![8], Some(8), &none, 3).unwrap();
    assert_eq!(updates, vec![(8, None)]);
    // Retiring a bound root that is not the live tail is refused.
    let refused = owner.prepare_history_updates(&vec![], &vec![8], Some(9), &none, 3).unwrap_err();
    assert_eq!(refused.message, "RetireRoot cannot bypass History live-tail restrictions");
    // A root that is neither bound nor added has no unit.
    let refused = owner.prepare_history_updates(&vec![summary(7, None, false, false, Some(6))], &vec![], None, &none, 3).unwrap_err();
    assert_eq!(refused.message, "History root has no accepted native unit identity");
}

#[test]
fn supplied_history_identities_adopt_a_matching_unit_once() {
    let mut owner = owner();
    let live = HistoryUnitOwner { id: 4, flow_boundary: 1, status: HistoryUnitStatus::Live };
    owner.apply_history_updates(vec![(8, Some(live))]);
    let existing: HashMap<u64, bool> = [(6u64, true), (7u64, false)].into_iter().collect();
    let ok = owner.prepare_history_updates(&vec![summary(9, None, true, true, Some(6))], &vec![], None, &existing, 1).unwrap();
    assert_eq!(ok, vec![(9, Some(HistoryUnitOwner { id: 6, flow_boundary: 1, status: HistoryUnitStatus::Live }))]);
    let refused = owner.prepare_history_updates(&vec![summary(9, None, true, true, Some(7))], &vec![], None, &existing, 1).unwrap_err();
    assert_eq!(refused.message, "History identity must adapt a same-host unit with matching status");
    let refused = owner.prepare_history_updates(&vec![summary(9, None, true, true, Some(4))], &vec![], None, &existing, 1).unwrap_err();
    assert_eq!(refused.message, "History unit identity is already owned by this UI document");
    let twice = vec![summary(9, None, true, true, Some(6)), summary(10, None, true, true, Some(6))];
    let refused = owner.prepare_history_updates(&twice, &vec![], None, &existing, 1).unwrap_err();
    assert_eq!(refused.message, "History unit identity is already owned by this UI document");
}


#[test]
fn close_reports_connector_failures_before_private_sources() {
    let mut owner = owner();
    let funnel = default_funnel();
    owner.apply_actions(vec![
        UiResourceAction::CreatePort { key: 1 },
        UiResourceAction::ReplaceLiteral { port: 1, source: source(11), funnel },
        UiResourceAction::DisposeConnector { key: 1 },
        UiResourceAction::CreateConnector { key: 2, source: source(10), funnel },
    ]);
    let result = owner.close(|_| Err("busy".to_owned()));
    assert_eq!(
        result,
        Err("failed to release Source membership for Connector 2: busy; failed to dispose private Source for Port 1: busy"
            .to_owned())
    );
    // A later close retries only what remains, and a closed owner stays closed.
    assert_eq!(owner.close(|_| Ok(())), Ok(()));
    assert_eq!(owner.lifecycle(), UiResourceLifecycle::Closed);
    assert_eq!(owner.close(|_| Err("unused".to_owned())), Ok(()));
    assert!(!owner.has_port(1));
    assert_eq!(owner.body_handle(), Err("UI resource owner is closing or closed".to_owned()));
}

