use std::collections::{HashMap, HashSet};

use iyon_tui::commit_plan::{
    interpret_operation, DocumentHandle, HandleKind, NativeSource, ResourcePlan, ResourceRef, RetentionFacts,
    UiCommitBatch, UiOp,
};
use iyon_tui::ui_resources::{
    default_funnel, CommitDetail, ControlError, FunnelSpec, HistoryRootConfig, HistoryRootSummary,
    HistoryUnitOwner, HistoryUnitStatus, HostContentSource, HostNamespace, TuiEnvironment, UiHandle,
    UiResourceAction, UiResourceOwner,
};

fn owner() -> UiResourceOwner {
    UiResourceOwner::new(HostNamespace { value: 9 }, TuiEnvironment { slot: 3, generation: 4 }, UiHandle { value: 77 })
}

fn facts(ok: bool) -> RetentionFacts {
    RetentionFacts { plain: Ok(ok), markdown: Ok(ok), diff: Ok(ok), ansi: Err("retention unknown".to_owned()) }
}

fn native(id: u64) -> NativeSource {
    NativeSource {
        source: HostContentSource { id, generation: 2, environment_slot: 3, environment_generation: 4 },
        live: true,
        text: true,
        retention: facts(true),
    }
}

fn handle(key: u64, kind: HandleKind) -> DocumentHandle {
    DocumentHandle { key, kind }
}

fn batch(revision: u64, ops: Vec<UiOp>, created: Vec<DocumentHandle>, sources: Vec<NativeSource>) -> UiCommitBatch {
    UiCommitBatch {
        revision,
        ops,
        created,
        live: HashSet::new(),
        installed_controls: HashSet::new(),
        sources,
        retired: Vec::new(),
        retired_roots: Vec::new(),
        summaries: Vec::new(),
        history_tail: None,
    }
}

fn interpret(plan: &mut ResourcePlan, owner: &UiResourceOwner, created: &Vec<DocumentHandle>, op: UiOp) -> Result<(), (CommitDetail, String)> {
    let live: HashSet<u64> = [40u64].into_iter().collect();
    let installed: HashSet<u64> = HashSet::new();
    let sources = vec![native(5)];
    interpret_operation(plan, owner, created, &live, &installed, &sources, &op).map_err(|e| (e.detail, e.message))
}

#[test]
fn operations_resolve_only_acknowledged_live_resources_of_their_kind() {
    let owner = owner();
    let created = vec![handle(1, HandleKind::Port), handle(2, HandleKind::Node), handle(3, HandleKind::Connector)];
    let mut plan = ResourcePlan::new(6);
    assert_eq!(
        interpret(&mut plan, &owner, &created, UiOp::CreatePort { local_ordinal: 9 }),
        Err((CommitDetail::Invariant, "created resource ordinal is not acknowledged".to_owned()))
    );
    assert_eq!(
        interpret(&mut plan, &owner, &created, UiOp::CreatePort { local_ordinal: 2 }),
        Err((CommitDetail::WrongKind, "created handle is not a resource".to_owned()))
    );
    assert_eq!(
        interpret(&mut plan, &owner, &created, UiOp::CreatePort { local_ordinal: 3 }),
        Err((CommitDetail::WrongKind, "created resource kind is invalid".to_owned()))
    );
    assert!(plan.actions.is_empty());
    // A Port that is neither planned nor live is stale.
    assert_eq!(
        interpret(&mut plan, &owner, &created, UiOp::DisposePort { port: ResourceRef::Existing(handle(41, HandleKind::Port)) }),
        Err((CommitDetail::StaleHandle, "resource is not live".to_owned()))
    );
    assert_eq!(
        interpret(&mut plan, &owner, &created, UiOp::DisposePort { port: ResourceRef::Existing(handle(41, HandleKind::Node)) }),
        Err((CommitDetail::WrongKind, "resource handle is invalid".to_owned()))
    );
    assert_eq!(interpret(&mut plan, &owner, &created, UiOp::DisposePort { port: ResourceRef::Existing(handle(40, HandleKind::Port)) }), Ok(()));
    assert_eq!(plan.bindings.get(&40), Some(&None));
    assert_eq!(interpret(&mut plan, &owner, &created, UiOp::CreatePort { local_ordinal: 1 }), Ok(()));
    assert_eq!(plan.actions, vec![UiResourceAction::CreatePort { key: 1 }]);
}

#[test]
fn connectors_check_their_source_and_funnel() {
    let owner = owner();
    let created = vec![handle(1, HandleKind::Port), handle(3, HandleKind::Connector)];
    let mut plan = ResourcePlan::new(6);
    interpret(&mut plan, &owner, &created, UiOp::CreatePort { local_ordinal: 1 }).unwrap();
    let connector = |source_index: u32, funnel: FunnelSpec| UiOp::CreateConnector {
        local_ordinal: 2,
        source_index,
        port: ResourceRef::Local(1),
        funnel,
    };
    assert_eq!(
        interpret(&mut plan, &owner, &created, connector(4, default_funnel())),
        Err((CommitDetail::Malformed, "Connector Source index is out of range".to_owned()))
    );
    let bad = FunnelSpec { kind: 7, ..default_funnel() };
    assert_eq!(
        interpret(&mut plan, &owner, &created, connector(0, bad)),
        Err((CommitDetail::InvalidProperty, "Funnel value is invalid".to_owned()))
    );
    let ansi = FunnelSpec { kind: 3, ..default_funnel() };
    assert_eq!(
        interpret(&mut plan, &owner, &created, connector(0, ansi)),
        Err((CommitDetail::InvalidTopology, "retention unknown".to_owned()))
    );
    assert_eq!(interpret(&mut plan, &owner, &created, connector(0, default_funnel())), Ok(()));
    assert_eq!(plan.actions.len(), 2);
    assert!(plan.connectors.contains(&3));
    // Disposing an unknown Connector is refused; a planned one unbinds.
    assert_eq!(
        interpret(&mut plan, &owner, &created, UiOp::DisposeConnector { connector: ResourceRef::Existing(handle(40, HandleKind::Connector)) }),
        Err((CommitDetail::StaleHandle, "Connector is not installed".to_owned()))
    );
    assert_eq!(interpret(&mut plan, &owner, &created, UiOp::DisposeConnector { connector: ResourceRef::Local(2) }), Ok(()));
    assert_eq!(plan.bindings.get(&3), Some(&None));
}

#[test]
fn controls_need_native_state_and_report_their_transitions() {
    let owner = owner();
    let created = vec![handle(8, HandleKind::Control)];
    let mut plan = ResourcePlan::new(6);
    let live_control = ResourceRef::Existing(handle(40, HandleKind::Control));
    assert_eq!(
        interpret(&mut plan, &owner, &created, UiOp::ControlCommand { control: live_control, outcome: Ok(()) }),
        Err((CommitDetail::Invariant, "live Control has no concrete native state".to_owned()))
    );
    interpret(&mut plan, &owner, &created, UiOp::CreateControl { local_ordinal: 1 }).unwrap();
    assert_eq!(
        interpret(&mut plan, &owner, &created, UiOp::ReplaceEditorContent {
            control: ResourceRef::Local(1),
            outcome: Err(ControlError::StaleEditRevision),
        }),
        Err((CommitDetail::StaleRevision, "control transition: StaleEditRevision".to_owned()))
    );
    assert_eq!(interpret(&mut plan, &owner, &created, UiOp::ControlCommand { control: ResourceRef::Local(1), outcome: Ok(()) }), Ok(()));
    assert!(plan.control_plans.contains(&8));
}

#[test]
fn literals_take_a_fresh_source_and_their_funnel() {
    let owner = owner();
    let created = vec![handle(1, HandleKind::Port)];
    let mut plan = ResourcePlan::new(6);
    interpret(&mut plan, &owner, &created, UiOp::CreatePort { local_ordinal: 1 }).unwrap();
    let replace = |format: u32, lookup: Result<NativeSource, String>| UiOp::ReplaceLiteral {
        port: ResourceRef::Local(1),
        content_format: format,
        annotations: Vec::new(),
        content_check: Ok(()),
        lookup,
    };
    assert_eq!(
        interpret(&mut plan, &owner, &created, replace(2, Ok(native(9)))),
        Err((CommitDetail::Malformed, "literal replacement requires format 1".to_owned()))
    );
    assert_eq!(
        interpret(&mut plan, &owner, &created, replace(1, Err("no Source slots".to_owned()))),
        Err((CommitDetail::Capacity, "no Source slots".to_owned()))
    );
    let mut truncated = replace(1, Ok(native(9)));
    if let UiOp::ReplaceLiteral { annotations, .. } = &mut truncated {
        *annotations = vec![1, 0];
    }
    assert_eq!(
        interpret(&mut plan, &owner, &created, truncated),
        Err((CommitDetail::Malformed, "annotation sidecar header is truncated".to_owned()))
    );
    assert!(plan.candidates.is_empty());
    assert_eq!(interpret(&mut plan, &owner, &created, replace(1, Ok(native(9)))), Ok(()));
    assert_eq!(plan.candidates.len(), 1);
    let markdown = FunnelSpec { kind: 1, ..default_funnel() };
    assert_eq!(
        interpret(&mut plan, &owner, &created, UiOp::SetLiteralFunnel { port: ResourceRef::Local(1), funnel: markdown, lookup: Err("unused".to_owned()) }),
        Ok(())
    );
    let literal = plan.literals.get(&1).unwrap();
    assert!(literal.replaced);
    assert_eq!(literal.funnel, markdown);
    assert_eq!(literal.source.source.id, 9);
}

#[test]
fn commit_plans_from_operations_and_installs_them() {
    let mut owner = owner();
    let none: HashMap<u64, bool> = HashMap::new();
    let created = vec![handle(1, HandleKind::Port), handle(3, HandleKind::Connector), handle(9, HandleKind::Node)];
    let ops = vec![
        UiOp::CreatePort { local_ordinal: 1 },
        UiOp::CreateConnector { local_ordinal: 2, source_index: 0, port: ResourceRef::Local(1), funnel: default_funnel() },
        UiOp::CreateRoot {
            local_ordinal: 3,
            legacy_history: true,
            config: HistoryRootConfig { flow_boundary: 1, unit_identity: None },
            fresh_identity: 5,
        },
        UiOp::NodeOnly,
    ];
    let mut b = batch(4, ops, created, vec![native(5)]);
    b.summaries = vec![HistoryRootSummary {
        root: 9,
        action: None,
        has_live_control: false,
        added: true,
        identity_supplied: false,
        config: None,
    }];
    let out = owner.commit(&b, &none).unwrap();
    assert_eq!(out.revision, 4);
    assert_eq!(out.changed_resources, vec![1, 3]);
    let bound = HistoryUnitOwner { id: 5, flow_boundary: 1, status: HistoryUnitStatus::Live };
    assert_eq!(out.history_updates, vec![(9, Some(bound))]);
    assert_eq!(out.roots.len(), 1);
    assert_eq!(out.roots[0].config.unit_identity, Some(5));
    assert!(owner.has_port(1));
    assert!(owner.connector(3).is_some());
    assert_eq!(owner.history_unit(9), Some(bound));
}

#[test]
fn a_refused_commit_changes_nothing() {
    let mut owner = owner();
    let none: HashMap<u64, bool> = HashMap::new();
    let created = vec![handle(1, HandleKind::Port), handle(2, HandleKind::Port)];
    let ops = vec![UiOp::CreatePort { local_ordinal: 1 }, UiOp::CreatePort { local_ordinal: 7 }];
    let refused = owner.commit(&batch(5, ops, created.clone(), Vec::new()), &none).unwrap_err();
    assert_eq!(refused.revision, 5);
    assert_eq!(refused.detail, CommitDetail::Invariant);
    assert!(!owner.has_port(1));
    // Retiring a Connector that is not installed refuses the whole batch.
    let mut b = batch(5, vec![UiOp::CreatePort { local_ordinal: 1 }], created.clone(), Vec::new());
    b.retired = vec![handle(30, HandleKind::Connector)];
    let refused = owner.commit(&b, &none).unwrap_err();
    assert_eq!(refused.message, "Connector is not installed");
    assert!(!owner.has_port(1));
    // A closed owner refuses every commit.
    assert_eq!(owner.close(|_| Ok(())), Ok(()));
    let refused = owner.commit(&batch(5, vec![UiOp::CreatePort { local_ordinal: 1 }], created, Vec::new()), &none).unwrap_err();
    assert_eq!(refused.revision, 0);
    assert_eq!(refused.message, "UI resource owner is closed");
}

#[test]
fn retired_ports_and_literals_close_the_plan_in_port_order() {
    let mut owner = owner();
    let none: HashMap<u64, bool> = HashMap::new();
    let created = vec![handle(6, HandleKind::Port), handle(2, HandleKind::Port)];
    let literal = |ordinal: u32, id: u64| UiOp::ReplaceLiteral {
        port: ResourceRef::Local(ordinal),
        content_format: 1,
        annotations: Vec::new(),
        content_check: Ok(()),
        lookup: Ok(native(id)),
    };
    let ops = vec![
        UiOp::CreatePort { local_ordinal: 1 },
        UiOp::CreatePort { local_ordinal: 2 },
        literal(1, 11),
        literal(2, 12),
    ];
    let out = owner.commit(&batch(1, ops, created, Vec::new()), &none).unwrap();
    assert_eq!(out.changed_resources, vec![2, 6]);
    assert_eq!(out.candidates.len(), 2);
    assert_eq!(owner.literal_source(2).unwrap().id, 12);
    assert_eq!(owner.literal_source(6).unwrap().id, 11);
    // Retiring a Port disposes it and its literal.
    let mut b = batch(2, Vec::new(), Vec::new(), Vec::new());
    b.retired = vec![handle(6, HandleKind::Port)];
    owner.commit(&b, &none).unwrap();
    assert!(!owner.has_port(6));
    assert_eq!(owner.literal_source(6), None);
}

#[test]
fn commits_report_the_source_mutations_they_need() {
    let mut owner = owner();
    let none: HashMap<u64, bool> = HashMap::new();
    let created = vec![handle(1, HandleKind::Port), handle(3, HandleKind::Connector), handle(2, HandleKind::Port)];
    let ops = vec![
        UiOp::CreatePort { local_ordinal: 1 },
        UiOp::CreateConnector { local_ordinal: 2, source_index: 0, port: ResourceRef::Local(1), funnel: default_funnel() },
        UiOp::CreatePort { local_ordinal: 3 },
        UiOp::ReplaceLiteral {
            port: ResourceRef::Local(3),
            content_format: 1,
            annotations: Vec::new(),
            content_check: Ok(()),
            lookup: Ok(native(12)),
        },
    ];
    let out = owner.commit(&batch(1, ops, created, vec![native(5)]), &none).unwrap();
    let ids = |v: &Vec<iyon_tui::ui_resources::SourceIdentity>| v.iter().map(|i| i.id).collect::<Vec<_>>();
    assert_eq!(ids(&out.source_mutations.gains), vec![12, 5]);
    assert!(out.source_mutations.losses.is_empty());
    assert_eq!(ids(&out.source_mutations.replaced), vec![12]);
    assert!(out.source_mutations.unaccepted.is_empty());
    // Retiring the literal's Port drops its membership and disposes its private Source.
    let mut b = batch(2, Vec::new(), Vec::new(), Vec::new());
    b.retired = vec![handle(2, HandleKind::Port), handle(3, HandleKind::Connector)];
    let out = owner.commit(&b, &none).unwrap();
    assert!(out.source_mutations.gains.is_empty());
    assert_eq!(ids(&out.source_mutations.losses), vec![12, 5]);
    assert_eq!(ids(&out.source_mutations.dispose_when_empty), vec![12]);
}

#[test]
fn created_sources_that_end_unbound_are_reported_for_disposal() {
    let mut owner = owner();
    let none: HashMap<u64, bool> = HashMap::new();
    let created = vec![handle(1, HandleKind::Port)];
    let ops = vec![
        UiOp::CreatePort { local_ordinal: 1 },
        UiOp::ReplaceLiteral {
            port: ResourceRef::Local(1),
            content_format: 1,
            annotations: Vec::new(),
            content_check: Ok(()),
            lookup: Ok(native(12)),
        },
        UiOp::DisposePort { port: ResourceRef::Local(1) },
    ];
    let out = owner.commit(&batch(1, ops, created, Vec::new()), &none).unwrap();
    assert_eq!(out.source_mutations.unaccepted.len(), 1);
    assert_eq!(out.source_mutations.unaccepted[0].id, 12);
    assert!(out.source_mutations.replaced.is_empty());
}
