//! Commit planning: how the operations of a UI commit, checked against what
//! the accepted document acknowledged and keeps live, become the resource
//! actions, Source bindings, literal Source plans, control plans and History
//! root configurations that the owner then installs.
use vstd::prelude::*;
use vstd::string::StringExecFns;
use std::collections::{HashMap, HashSet};
use crate::ui_resources::{
    control_detail, control_error_name, control_rejection, decode_annotation_records, decoded_sidecar,
    default_funnel, CommitDetail, ControlError, FunnelSpec, HistoryRootConfig, HostContentSource,
    ResourceMaps, SidecarError, SourceIdentity, TuiEnvironment, UiRejection, UiResourceAction,
    UiResourceOwner, strictly_ascending, insert_sorted, action_key, after_actions, after_history_updates,
    copy_updates, history_plan, summaries_prepared, touched_resource_keys, HistoryRootSummary, HistoryUnitOwner,
    UiResourceLifecycle,
};
use crate::component::graph::map_keys;

verus! {

broadcast use vstd::std_specs::hash::group_hash_axioms;

/// What a handle names.
#[derive(Clone, Copy, Debug, PartialEq, Eq, Structural)]
pub enum HandleKind {
    Node,
    Port,
    Connector,
    Control,
}

/// A handle of the accepted document: its key and what it names.
#[derive(Clone, Copy, Debug, PartialEq, Eq, Structural)]
pub struct DocumentHandle {
    pub key: u64,
    pub kind: HandleKind,
}

/// How an operation names a resource: an existing handle, or the ordinal
/// (from 1) of a resource this commit creates.
#[derive(Clone, Copy, Debug, PartialEq, Eq, Structural)]
pub enum ResourceRef {
    Existing(DocumentHandle),
    Local(u32),
}

/// Whether a Source's retention suits each text funnel kind, or what went
/// wrong asking.
#[derive(Debug)]
pub struct RetentionFacts {
    pub plain: Result<bool, String>,
    pub markdown: Result<bool, String>,
    pub diff: Result<bool, String>,
    pub ansi: Result<bool, String>,
}

/// A content Source with the facts a commit checks: whether it is live,
/// whether it holds text, and its retention.
#[derive(Debug)]
pub struct NativeSource {
    pub source: HostContentSource,
    pub live: bool,
    pub text: bool,
    pub retention: RetentionFacts,
}

/// A literal Source planned for a Port: the Source, its funnel, and whether
/// its content is replaced.
#[derive(Debug)]
pub struct LiteralPlan {
    pub source: NativeSource,
    pub funnel: FunnelSpec,
    pub replaced: bool,
}

/// A History root configuration a commit installs, and whether the commit
/// supplied its unit identity.
#[derive(Clone, Copy, Debug, PartialEq, Eq, Structural)]
pub struct RootInstall {
    pub key: u64,
    pub config: HistoryRootConfig,
    pub identity_supplied: bool,
}

/// One operation of a UI commit, with what the outside world answered for
/// it: for literal operations, the Source the environment looked up or
/// created for the Port when the plan and the batch have none; for content
/// replacement, whether the content validates; for control transitions,
/// what the control answered.
#[derive(Debug)]
pub enum UiOp {
    CreateRoot { local_ordinal: u32, legacy_history: bool, config: HistoryRootConfig, fresh_identity: u64 },
    CreatePort { local_ordinal: u32 },
    CreateConnector { local_ordinal: u32, source_index: u32, port: ResourceRef, funnel: FunnelSpec },
    SelectConnector { port: ResourceRef, connector: Option<ResourceRef> },
    ReplaceLiteral {
        port: ResourceRef,
        content_format: u32,
        annotations: Vec<u8>,
        content_check: Result<(), String>,
        lookup: Result<NativeSource, String>,
    },
    SetLiteralFunnel { port: ResourceRef, funnel: FunnelSpec, lookup: Result<NativeSource, String> },
    DisposeConnector { connector: ResourceRef },
    DisposePort { port: ResourceRef },
    CreateControl { local_ordinal: u32 },
    ControlCommand { control: ResourceRef, outcome: Result<(), ControlError> },
    ReplaceEditorContent { control: ResourceRef, outcome: Result<(), ControlError> },
    DisposeControl { control: ResourceRef },
    /// An operation on nodes only, which plans no resource.
    NodeOnly,
}

/// A commit plan in progress.
pub struct ResourcePlan {
    pub revision: u64,
    pub actions: Vec<UiResourceAction>,
    pub roots: Vec<RootInstall>,
    pub ports: HashSet<u64>,
    pub connectors: HashSet<u64>,
    pub controls: HashSet<u64>,
    pub control_plans: HashSet<u64>,
    pub bindings: HashMap<u64, Option<SourceIdentity>>,
    pub literals: HashMap<u64, LiteralPlan>,
    pub candidates: Vec<NativeSource>,
}

/// The model of a commit plan.
pub struct PlanView {
    pub revision: u64,
    pub actions: Seq<UiResourceAction>,
    pub roots: Seq<RootInstall>,
    pub ports: Set<u64>,
    pub connectors: Set<u64>,
    pub controls: Set<u64>,
    pub control_plans: Set<u64>,
    pub bindings: Map<u64, Option<SourceIdentity>>,
    pub literals: Map<u64, LiteralPlan>,
    pub candidates: Seq<NativeSource>,
}

impl View for ResourcePlan {
    type V = PlanView;

    open spec fn view(&self) -> PlanView {
        PlanView {
            revision: self.revision,
            actions: self.actions@,
            roots: self.roots@,
            ports: self.ports@,
            connectors: self.connectors@,
            controls: self.controls@,
            control_plans: self.control_plans@,
            bindings: self.bindings@,
            literals: self.literals@,
            candidates: self.candidates@,
        }
    }
}

/// A refusal: what was wrong and the message.
pub open spec fn refusal(detail: CommitDetail, message: Seq<char>) -> (CommitDetail, Seq<char>) {
    (detail, message)
}

/// `r` reports `f` at `revision`.
pub open spec fn reports(r: UiRejection, revision: u64, f: (CommitDetail, Seq<char>)) -> bool {
    r.revision == revision && r.detail == f.0 && r.message@ == f.1
}

/// The index of the created handle that ordinal `ordinal` names.
pub open spec fn ack_index(ordinal: u32) -> int {
    if ordinal == 0 { 0 } else { ordinal - 1 }
}

/// The key of a resource of kind `kind` this commit created under
/// `ordinal`.
pub open spec fn acked_resource(created: Seq<DocumentHandle>, ordinal: u32, kind: HandleKind) -> Result<u64, (CommitDetail, Seq<char>)> {
    let i = ack_index(ordinal);
    if i >= created.len() {
        Err(refusal(CommitDetail::Invariant, "created resource ordinal is not acknowledged"@))
    } else if created[i].kind == HandleKind::Node {
        Err(refusal(CommitDetail::WrongKind, "created handle is not a resource"@))
    } else if created[i].kind != kind {
        Err(refusal(CommitDetail::WrongKind, "created resource kind is invalid"@))
    } else {
        Ok(created[i].key)
    }
}

/// The key of a node this commit created under `ordinal`.
pub open spec fn acked_node(created: Seq<DocumentHandle>, ordinal: u32) -> Result<u64, (CommitDetail, Seq<char>)> {
    let i = ack_index(ordinal);
    if i >= created.len() {
        Err(refusal(CommitDetail::Invariant, "created node ordinal is not acknowledged"@))
    } else if created[i].kind != HandleKind::Node {
        Err(refusal(CommitDetail::WrongKind, "created handle is not a node"@))
    } else {
        Ok(created[i].key)
    }
}

/// The key a reference resolves to: a resource of kind `kind` that this
/// commit plans or the accepted document keeps live.
pub open spec fn resolved(
    reference: ResourceRef,
    created: Seq<DocumentHandle>,
    kind: HandleKind,
    planned: Set<u64>,
    live: Set<u64>,
) -> Result<u64, (CommitDetail, Seq<char>)> {
    let found: Result<DocumentHandle, (CommitDetail, Seq<char>)> = match reference {
        ResourceRef::Existing(h) => if h.kind == HandleKind::Node {
            Err(refusal(CommitDetail::WrongKind, "resource handle is invalid"@))
        } else {
            Ok(h)
        },
        ResourceRef::Local(o) => match acked_resource(created, o, kind) {
            Ok(k) => Ok(DocumentHandle { key: k, kind }),
            Err(f) => Err(f),
        },
    };
    match found {
        Err(f) => Err(f),
        Ok(h) => if h.kind != kind || (!planned.contains(h.key) && !live.contains(h.key)) {
            Err(refusal(CommitDetail::StaleHandle, "resource is not live"@))
        } else {
            Ok(h.key)
        },
    }
}

/// Whether the Source's retention suits funnel kind `kind`.
pub open spec fn retention_for(r: RetentionFacts, kind: u8) -> Result<bool, String> {
    if kind == 0 { r.plain } else if kind == 1 { r.markdown } else if kind == 2 { r.diff } else { r.ansi }
}

/// Checks a Source against the funnel it is to feed: the funnel is valid,
/// the Source is a live text Source, and its retention suits the funnel.
pub open spec fn source_check(s: NativeSource, funnel: FunnelSpec) -> Result<(), (CommitDetail, Seq<char>)> {
    if !(funnel.kind <= 3 && funnel.wrap <= 2) {
        Err(refusal(CommitDetail::InvalidProperty, "Funnel value is invalid"@))
    } else if !s.live || !s.text {
        Err(refusal(CommitDetail::StaleHandle, "Source is not live"@))
    } else {
        match retention_for(s.retention, funnel.kind) {
            Err(e) => Err(refusal(CommitDetail::InvalidTopology, e@)),
            Ok(false) => Err(refusal(CommitDetail::InvalidTopology, "Source retention is incompatible with Funnel"@)),
            Ok(true) => Ok(()),
        }
    }
}

/// The identity of a Source.
pub open spec fn identity_of(s: HostContentSource) -> SourceIdentity {
    SourceIdentity {
        id: s.id,
        generation: s.generation,
        environment_slot: s.environment_slot,
        environment_generation: s.environment_generation,
    }
}

/// The first Source of `s` with identity `id`.
pub open spec fn find_source(s: Seq<NativeSource>, id: SourceIdentity) -> Option<NativeSource>
    decreases s.len(),
{
    if s.len() == 0 {
        None
    } else if identity_of(s[0].source) == id {
        Some(s[0])
    } else {
        find_source(s.drop_first(), id)
    }
}

/// The literal Source of a Port, its funnel, and whether it is a freshly
/// created candidate: the one already planned; else the Port's literal
/// Source, found among the candidates, then (when it belongs to this
/// environment) among the batch's Sources, then as the environment looked
/// it up; else the Source the environment created. The funnel is the
/// Port's Connector's, or the default.
pub open spec fn literal_source(
    p: PlanView,
    owner: ResourceMaps,
    env: TuiEnvironment,
    sources: Seq<NativeSource>,
    port: u64,
    lookup: Result<NativeSource, String>,
) -> Result<(NativeSource, FunnelSpec, bool), (CommitDetail, Seq<char>)> {
    if p.literals.contains_key(port) {
        Ok((p.literals[port].source, p.literals[port].funnel, false))
    } else {
        let funnel = if owner.connectors.contains_key(port) {
            owner.connectors[port].1
        } else {
            FunnelSpec { kind: 0, wrap: 0, hyperlinks: true, smooth: false }
        };
        if owner.literal_sources.contains_key(port) {
            let id = owner.literal_sources[port];
            match find_source(p.candidates, id) {
                Some(s) => Ok((s, funnel, false)),
                None => if id.environment_slot != env.slot || id.environment_generation != env.generation {
                    Err(refusal(CommitDetail::StaleHandle, "Source identity belongs to another environment"@))
                } else {
                    match find_source(sources, id) {
                        Some(s) => Ok((s, funnel, false)),
                        None => match lookup {
                            Ok(s) => Ok((s, funnel, false)),
                            Err(e) => Err(refusal(CommitDetail::StaleHandle, e@)),
                        },
                    }
                },
            }
        } else {
            match lookup {
                Ok(s) => Ok((s, funnel, true)),
                Err(e) => Err(refusal(CommitDetail::Capacity, e@)),
            }
        }
    }
}

/// The message of a sidecar that fails to decode.
pub open spec fn sidecar_text(e: SidecarError) -> Seq<char> {
    match e {
        SidecarError::Truncated => "annotation sidecar header is truncated"@,
        SidecarError::Size => "annotation sidecar size"@,
        SidecarError::Exceed => "annotation records exceed sidecar"@,
        SidecarError::PayloadRange => "annotation payload range"@,
    }
}

/// The History root configuration installed: a legacy History root without
/// a unit identity takes the freshly allocated one.
pub open spec fn prepared_root_config(legacy_history: bool, config: HistoryRootConfig, fresh_identity: u64) -> HistoryRootConfig {
    if legacy_history && config.unit_identity is None {
        HistoryRootConfig { unit_identity: Some(fresh_identity), ..config }
    } else {
        config
    }
}

/// The plan with a literal Source planned for `port` and bound to it,
/// keeping a fresh Source as a candidate.
pub open spec fn with_literal(p: PlanView, port: u64, plan: LiteralPlan, fresh: bool) -> PlanView {
    PlanView {
        candidates: if fresh { p.candidates.push(plan.source) } else { p.candidates },
        bindings: p.bindings.insert(port, Some(identity_of(plan.source.source))),
        literals: p.literals.insert(port, plan),
        ..p
    }
}

/// What interpreting one operation makes of a plan, or why it is refused.
pub open spec fn interpreted(
    p: PlanView,
    owner: ResourceMaps,
    env: TuiEnvironment,
    created: Seq<DocumentHandle>,
    live: Set<u64>,
    installed_controls: Set<u64>,
    sources: Seq<NativeSource>,
    op: UiOp,
) -> Result<PlanView, (CommitDetail, Seq<char>)> {
    match op {
        UiOp::CreateRoot { local_ordinal, legacy_history, config, fresh_identity } => match acked_node(created, local_ordinal) {
            Err(f) => Err(f),
            Ok(key) => Ok(PlanView {
                roots: p.roots.push(RootInstall {
                    key,
                    config: prepared_root_config(legacy_history, config, fresh_identity),
                    identity_supplied: legacy_history && config.unit_identity is Some,
                }),
                ..p
            }),
        },
        UiOp::CreatePort { local_ordinal } => match acked_resource(created, local_ordinal, HandleKind::Port) {
            Err(f) => Err(f),
            Ok(key) => Ok(PlanView {
                ports: p.ports.insert(key),
                actions: p.actions.push(UiResourceAction::CreatePort { key }),
                ..p
            }),
        },
        UiOp::CreateConnector { local_ordinal, source_index, port, funnel } => match acked_resource(created, local_ordinal, HandleKind::Connector) {
            Err(f) => Err(f),
            Ok(key) => match resolved(port, created, HandleKind::Port, p.ports, live) {
                Err(f) => Err(f),
                Ok(_) => if source_index >= sources.len() {
                    Err(refusal(CommitDetail::Malformed, "Connector Source index is out of range"@))
                } else {
                    match source_check(sources[source_index as int], funnel) {
                        Err(f) => Err(f),
                        Ok(()) => Ok(PlanView {
                            bindings: p.bindings.insert(key, Some(identity_of(sources[source_index as int].source))),
                            connectors: p.connectors.insert(key),
                            actions: p.actions.push(UiResourceAction::CreateConnector {
                                key,
                                source: sources[source_index as int].source,
                                funnel,
                            }),
                            ..p
                        }),
                    }
                },
            },
        },
        UiOp::SelectConnector { port, connector } => if connector is None {
            Ok(p)
        } else {
            match resolved(port, created, HandleKind::Port, p.ports, live) {
                Err(f) => Err(f),
                Ok(k) => if owner.literal_sources.contains_key(k) && !p.bindings.contains_key(k) {
                    Ok(PlanView {
                        bindings: p.bindings.insert(k, None),
                        actions: p.actions.push(UiResourceAction::DisposeLiteral { port: k }),
                        ..p
                    })
                } else {
                    Ok(p)
                },
            }
        },
        UiOp::ReplaceLiteral { port, content_format, annotations, content_check, lookup } => if content_format != 1 {
            Err(refusal(CommitDetail::Malformed, "literal replacement requires format 1"@))
        } else {
            match resolved(port, created, HandleKind::Port, p.ports, live) {
                Err(f) => Err(f),
                Ok(k) => match literal_source(p, owner, env, sources, k, lookup) {
                    Err(f) => Err(f),
                    Ok((s, funnel, fresh)) => match decoded_sidecar(annotations@) {
                        Err(e) => Err(refusal(CommitDetail::Malformed, sidecar_text(e))),
                        Ok(_) => match content_check {
                            Err(e) => Err(refusal(CommitDetail::Malformed, e@)),
                            Ok(()) => match source_check(s, funnel) {
                                Err(f) => Err(f),
                                Ok(()) => Ok(with_literal(p, k, LiteralPlan { source: s, funnel, replaced: true }, fresh)),
                            },
                        },
                    },
                },
            }
        },
        UiOp::SetLiteralFunnel { port, funnel, lookup } => match resolved(port, created, HandleKind::Port, p.ports, live) {
            Err(f) => Err(f),
            Ok(k) => if !(funnel.kind <= 3 && funnel.wrap <= 2) {
                Err(refusal(CommitDetail::InvalidProperty, "Funnel value is invalid"@))
            } else if p.literals.contains_key(k) {
                Ok(PlanView { literals: p.literals.insert(k, LiteralPlan { funnel, ..p.literals[k] }), ..p })
            } else {
                match literal_source(p, owner, env, sources, k, lookup) {
                    Err(f) => Err(f),
                    Ok((s, _, fresh)) => Ok(with_literal(p, k, LiteralPlan { source: s, funnel, replaced: false }, fresh)),
                }
            },
        },
        UiOp::DisposeConnector { connector } => match resolved(connector, created, HandleKind::Connector, p.connectors, live) {
            Err(f) => Err(f),
            Ok(k) => if !p.connectors.contains(k) && !owner.connectors.contains_key(k) {
                Err(refusal(CommitDetail::StaleHandle, "Connector is not installed"@))
            } else {
                Ok(PlanView { bindings: p.bindings.insert(k, None), ..p })
            },
        },
        UiOp::DisposePort { port } => match resolved(port, created, HandleKind::Port, p.ports, live) {
            Err(f) => Err(f),
            Ok(k) => Ok(PlanView { bindings: p.bindings.insert(k, None), ..p }),
        },
        UiOp::CreateControl { local_ordinal } => match acked_resource(created, local_ordinal, HandleKind::Control) {
            Err(f) => Err(f),
            Ok(k) => Ok(PlanView { controls: p.controls.insert(k), control_plans: p.control_plans.insert(k), ..p }),
        },
        UiOp::ControlCommand { control, outcome } => control_transition(p, created, live, installed_controls, control, outcome),
        UiOp::ReplaceEditorContent { control, outcome } => control_transition(p, created, live, installed_controls, control, outcome),
        UiOp::DisposeControl { control } => match resolved(control, created, HandleKind::Control, p.controls, live) {
            Err(f) => Err(f),
            Ok(_) => Ok(p),
        },
        UiOp::NodeOnly => Ok(p),
    }
}

/// A control transition: the control must resolve and have native state,
/// planned or installed; its answer is refused or planned.
pub open spec fn control_transition(
    p: PlanView,
    created: Seq<DocumentHandle>,
    live: Set<u64>,
    installed_controls: Set<u64>,
    control: ResourceRef,
    outcome: Result<(), ControlError>,
) -> Result<PlanView, (CommitDetail, Seq<char>)> {
    match resolved(control, created, HandleKind::Control, p.controls, live) {
        Err(f) => Err(f),
        Ok(k) => if !p.control_plans.contains(k) && !installed_controls.contains(k) {
            Err(refusal(CommitDetail::Invariant, "live Control has no concrete native state"@))
        } else {
            match outcome {
                Err(e) => Err(refusal(control_detail(e), "control transition: "@ + control_error_name(e))),
                Ok(()) => Ok(PlanView { control_plans: p.control_plans.insert(k), ..p }),
            }
        },
    }
}

fn copy_answer(a: &Result<bool, String>) -> (c: Result<bool, String>)
    ensures
        c == *a,
{
    match a {
        Ok(b) => Ok(*b),
        Err(e) => Err(e.clone()),
    }
}

fn copy_native(s: &NativeSource) -> (c: NativeSource)
    ensures
        c == *s,
{
    NativeSource {
        source: s.source,
        live: s.live,
        text: s.text,
        retention: RetentionFacts {
            plain: copy_answer(&s.retention.plain),
            markdown: copy_answer(&s.retention.markdown),
            diff: copy_answer(&s.retention.diff),
            ansi: copy_answer(&s.retention.ansi),
        },
    }
}

fn source_identity(s: &HostContentSource) -> (id: SourceIdentity)
    ensures
        id == identity_of(*s),
{
    SourceIdentity::from_source(s)
}

fn ack_resource(created: &Vec<DocumentHandle>, ordinal: u32, kind: HandleKind, revision: u64) -> (r: Result<u64, UiRejection>)
    ensures
        match acked_resource(created@, ordinal, kind) {
            Ok(k) => r == Ok::<u64, UiRejection>(k),
            Err(f) => r matches Err(e) && reports(e, revision, f),
        },
{
    let i: usize = if ordinal == 0 { 0 } else { (ordinal - 1) as usize };
    if i >= created.len() {
        return Err(UiRejection::internal(revision, CommitDetail::Invariant, "created resource ordinal is not acknowledged".to_owned()));
    }
    let h = created[i];
    if h.kind == HandleKind::Node {
        return Err(UiRejection::internal(revision, CommitDetail::WrongKind, "created handle is not a resource".to_owned()));
    }
    if h.kind != kind {
        return Err(UiRejection::internal(revision, CommitDetail::WrongKind, "created resource kind is invalid".to_owned()));
    }
    Ok(h.key)
}

fn ack_node(created: &Vec<DocumentHandle>, ordinal: u32, revision: u64) -> (r: Result<u64, UiRejection>)
    ensures
        match acked_node(created@, ordinal) {
            Ok(k) => r == Ok::<u64, UiRejection>(k),
            Err(f) => r matches Err(e) && reports(e, revision, f),
        },
{
    let i: usize = if ordinal == 0 { 0 } else { (ordinal - 1) as usize };
    if i >= created.len() {
        return Err(UiRejection::internal(revision, CommitDetail::Invariant, "created node ordinal is not acknowledged".to_owned()));
    }
    let h = created[i];
    if h.kind != HandleKind::Node {
        return Err(UiRejection::internal(revision, CommitDetail::WrongKind, "created handle is not a node".to_owned()));
    }
    Ok(h.key)
}

fn resolve(
    reference: &ResourceRef,
    created: &Vec<DocumentHandle>,
    kind: HandleKind,
    planned: &HashSet<u64>,
    live: &HashSet<u64>,
    revision: u64,
) -> (r: Result<u64, UiRejection>)
    ensures
        match resolved(*reference, created@, kind, planned@, live@) {
            Ok(k) => r == Ok::<u64, UiRejection>(k),
            Err(f) => r matches Err(e) && reports(e, revision, f),
        },
{
    let h = match reference {
        ResourceRef::Existing(h) => {
            if h.kind == HandleKind::Node {
                return Err(UiRejection::internal(revision, CommitDetail::WrongKind, "resource handle is invalid".to_owned()));
            }
            *h
        },
        ResourceRef::Local(o) => {
            let k = ack_resource(created, *o, kind, revision)?;
            DocumentHandle { key: k, kind }
        },
    };
    if h.kind != kind || (!planned.contains(&h.key) && !live.contains(&h.key)) {
        return Err(UiRejection::internal(revision, CommitDetail::StaleHandle, "resource is not live".to_owned()));
    }
    Ok(h.key)
}

fn check_source(s: &NativeSource, funnel: FunnelSpec, revision: u64) -> (r: Result<(), UiRejection>)
    ensures
        match source_check(*s, funnel) {
            Ok(()) => r is Ok,
            Err(f) => r matches Err(e) && reports(e, revision, f),
        },
{
    if funnel.kind > 3 || funnel.wrap > 2 {
        return Err(UiRejection::internal(revision, CommitDetail::InvalidProperty, "Funnel value is invalid".to_owned()));
    }
    if !s.live || !s.text {
        return Err(UiRejection::internal(revision, CommitDetail::StaleHandle, "Source is not live".to_owned()));
    }
    let answer = if funnel.kind == 0 {
        &s.retention.plain
    } else if funnel.kind == 1 {
        &s.retention.markdown
    } else if funnel.kind == 2 {
        &s.retention.diff
    } else {
        &s.retention.ansi
    };
    match answer {
        Err(e) => Err(UiRejection::internal(revision, CommitDetail::InvalidTopology, e.clone())),
        Ok(false) => Err(UiRejection::internal(
            revision,
            CommitDetail::InvalidTopology,
            "Source retention is incompatible with Funnel".to_owned(),
        )),
        Ok(true) => Ok(()),
    }
}

fn find_native(s: &Vec<NativeSource>, id: SourceIdentity) -> (r: Option<NativeSource>)
    ensures
        r == find_source(s@, id),
{
    let mut i: usize = 0;
    assert(s@.skip(0) =~= s@);
    while i < s.len()
        invariant
            i <= s@.len(),
            find_source(s@.skip(i as int), id) == find_source(s@, id),
        decreases s.len() - i,
    {
        assert(s@.skip(i as int)[0] == s@[i as int]);
        if source_identity(&s[i].source) == id {
            return Some(copy_native(&s[i]));
        }
        assert(s@.skip(i as int).drop_first() =~= s@.skip(i as int + 1));
        i = i + 1;
    }
    assert(s@.skip(i as int) =~= Seq::<NativeSource>::empty());
    None
}

fn copy_lookup(l: &Result<NativeSource, String>) -> (c: Result<NativeSource, String>)
    ensures
        c == *l,
{
    match l {
        Ok(s) => Ok(copy_native(s)),
        Err(e) => Err(e.clone()),
    }
}

fn literal_source_of(
    plan: &ResourcePlan,
    owner: &UiResourceOwner,
    sources: &Vec<NativeSource>,
    port: u64,
    lookup: &Result<NativeSource, String>,
) -> (r: Result<(NativeSource, FunnelSpec, bool), UiRejection>)
    ensures
        match literal_source(plan@, owner.maps(), owner.env(), sources@, port, *lookup) {
            Ok(found) => r == Ok::<(NativeSource, FunnelSpec, bool), UiRejection>(found),
            Err(f) => r matches Err(e) && reports(e, plan.revision, f),
        },
{
    match plan.literals.get(&port) {
        Some(existing) => {
            return Ok((copy_native(&existing.source), existing.funnel, false));
        },
        None => {},
    }
    let funnel = match owner.connector(port) {
        Some(entry) => entry.1,
        None => default_funnel(),
    };
    match owner.literal_source(port) {
        Some(id) => {
            match find_native(&plan.candidates, id) {
                Some(s) => Ok((s, funnel, false)),
                None => {
                    let env = owner.environment();
                    if id.environment_slot != env.slot || id.environment_generation != env.generation {
                        return Err(UiRejection::internal(
                            plan.revision,
                            CommitDetail::StaleHandle,
                            "Source identity belongs to another environment".to_owned(),
                        ));
                    }
                    match find_native(sources, id) {
                        Some(s) => Ok((s, funnel, false)),
                        None => match lookup {
                            Ok(s) => Ok((copy_native(s), funnel, false)),
                            Err(e) => Err(UiRejection::internal(plan.revision, CommitDetail::StaleHandle, e.clone())),
                        },
                    }
                },
            }
        },
        None => match lookup {
            Ok(s) => Ok((copy_native(s), funnel, true)),
            Err(e) => Err(UiRejection::internal(plan.revision, CommitDetail::Capacity, e.clone())),
        },
    }
}

impl ResourcePlan {
    /// An empty plan against accepted revision `revision`.
    pub fn new(revision: u64) -> (plan: Self)
        ensures
            plan@ == (PlanView {
                revision,
                actions: Seq::empty(),
                roots: Seq::empty(),
                ports: Set::empty(),
                connectors: Set::empty(),
                controls: Set::empty(),
                control_plans: Set::empty(),
                bindings: Map::empty(),
                literals: Map::empty(),
                candidates: Seq::empty(),
            }),
    {
        let plan = ResourcePlan {
            revision,
            actions: Vec::new(),
            roots: Vec::new(),
            ports: HashSet::new(),
            connectors: HashSet::new(),
            controls: HashSet::new(),
            control_plans: HashSet::new(),
            bindings: HashMap::new(),
            literals: HashMap::new(),
            candidates: Vec::new(),
        };
        assert(plan@.literals =~= Map::<u64, LiteralPlan>::empty());
        plan
    }

    fn plan_literal(&mut self, port: u64, literal: LiteralPlan, fresh: bool)
        ensures
            final(self)@ == with_literal(old(self)@, port, literal, fresh),
    {
        if fresh {
            self.candidates.push(copy_native(&literal.source));
        }
        let id = source_identity(&literal.source.source);
        self.bindings.insert(port, Some(id));
        self.literals.insert(port, literal);
    }
}

/// Interprets one operation of a commit into `plan`, against the owner's
/// accepted resources, the handles the document acknowledged as created,
/// the resources it keeps live, the controls with installed native state,
/// and the batch's Sources. A refused operation leaves the plan as it was.
pub fn interpret_operation(
    plan: &mut ResourcePlan,
    owner: &UiResourceOwner,
    created: &Vec<DocumentHandle>,
    live: &HashSet<u64>,
    installed_controls: &HashSet<u64>,
    sources: &Vec<NativeSource>,
    op: &UiOp,
) -> (r: Result<(), UiRejection>)
    ensures
        match interpreted(old(plan)@, owner.maps(), owner.env(), created@, live@, installed_controls@, sources@, *op) {
            Ok(next) => r is Ok && final(plan)@ == next,
            Err(f) => (r matches Err(e) && reports(e, old(plan).revision, f)) && final(plan)@ == old(plan)@,
        },
{
    let revision = plan.revision;
    match op {
        UiOp::CreateRoot { local_ordinal, legacy_history, config, fresh_identity } => {
            let key = ack_node(created, *local_ordinal, revision)?;
            let prepared = if *legacy_history && config.unit_identity.is_none() {
                HistoryRootConfig { flow_boundary: config.flow_boundary, unit_identity: Some(*fresh_identity) }
            } else {
                *config
            };
            self_roots_push(plan, RootInstall {
                key,
                config: prepared,
                identity_supplied: *legacy_history && config.unit_identity.is_some(),
            });
            Ok(())
        },
        UiOp::CreatePort { local_ordinal } => {
            let key = ack_resource(created, *local_ordinal, HandleKind::Port, revision)?;
            plan.ports.insert(key);
            plan.actions.push(UiResourceAction::CreatePort { key });
            Ok(())
        },
        UiOp::CreateConnector { local_ordinal, source_index, port, funnel } => {
            let key = ack_resource(created, *local_ordinal, HandleKind::Connector, revision)?;
            let _ = resolve(port, created, HandleKind::Port, &plan.ports, live, revision)?;
            let index = *source_index as usize;
            if index >= sources.len() {
                return Err(UiRejection::internal(
                    revision,
                    CommitDetail::Malformed,
                    "Connector Source index is out of range".to_owned(),
                ));
            }
            check_source(&sources[index], *funnel, revision)?;
            let source = sources[index].source;
            plan.bindings.insert(key, Some(source_identity(&source)));
            plan.connectors.insert(key);
            plan.actions.push(UiResourceAction::CreateConnector { key, source, funnel: *funnel });
            Ok(())
        },
        UiOp::SelectConnector { port, connector } => {
            if connector.is_none() {
                return Ok(());
            }
            let k = resolve(port, created, HandleKind::Port, &plan.ports, live, revision)?;
            if owner.literal_source(k).is_some() && !plan.bindings.contains_key(&k) {
                plan.bindings.insert(k, None);
                plan.actions.push(UiResourceAction::DisposeLiteral { port: k });
            }
            Ok(())
        },
        UiOp::ReplaceLiteral { port, content_format, annotations, content_check, lookup } => {
            if *content_format != 1 {
                return Err(UiRejection::internal(
                    revision,
                    CommitDetail::Malformed,
                    "literal replacement requires format 1".to_owned(),
                ));
            }
            let k = resolve(port, created, HandleKind::Port, &plan.ports, live, revision)?;
            let (s, funnel, fresh) = literal_source_of(plan, owner, sources, k, lookup)?;
            match decode_annotation_records(annotations.as_slice()) {
                Err(e) => {
                    return Err(UiRejection::internal(revision, CommitDetail::Malformed, e.message()));
                },
                Ok(_) => {},
            }
            match content_check {
                Err(e) => {
                    return Err(UiRejection::internal(revision, CommitDetail::Malformed, e.clone()));
                },
                Ok(()) => {},
            }
            check_source(&s, funnel, revision)?;
            plan.plan_literal(k, LiteralPlan { source: s, funnel, replaced: true }, fresh);
            Ok(())
        },
        UiOp::SetLiteralFunnel { port, funnel, lookup } => {
            let k = resolve(port, created, HandleKind::Port, &plan.ports, live, revision)?;
            if funnel.kind > 3 || funnel.wrap > 2 {
                return Err(UiRejection::internal(revision, CommitDetail::InvalidProperty, "Funnel value is invalid".to_owned()));
            }
            let existing = match plan.literals.get(&k) {
                Some(l) => Some(LiteralPlan { source: copy_native(&l.source), funnel: *funnel, replaced: l.replaced }),
                None => None,
            };
            match existing {
                Some(l) => {
                    plan.literals.insert(k, l);
                },
                None => {
                    let (s, _, fresh) = literal_source_of(plan, owner, sources, k, lookup)?;
                    plan.plan_literal(k, LiteralPlan { source: s, funnel: *funnel, replaced: false }, fresh);
                },
            }
            Ok(())
        },
        UiOp::DisposeConnector { connector } => {
            let k = resolve(connector, created, HandleKind::Connector, &plan.connectors, live, revision)?;
            if !plan.connectors.contains(&k) && owner.connector(k).is_none() {
                return Err(UiRejection::internal(revision, CommitDetail::StaleHandle, "Connector is not installed".to_owned()));
            }
            plan.bindings.insert(k, None);
            Ok(())
        },
        UiOp::DisposePort { port } => {
            let k = resolve(port, created, HandleKind::Port, &plan.ports, live, revision)?;
            plan.bindings.insert(k, None);
            Ok(())
        },
        UiOp::CreateControl { local_ordinal } => {
            let k = ack_resource(created, *local_ordinal, HandleKind::Control, revision)?;
            plan.controls.insert(k);
            plan.control_plans.insert(k);
            Ok(())
        },
        UiOp::ControlCommand { control, outcome } => plan_control_transition(plan, created, live, installed_controls, control, outcome),
        UiOp::ReplaceEditorContent { control, outcome } => plan_control_transition(plan, created, live, installed_controls, control, outcome),
        UiOp::DisposeControl { control } => {
            let _ = resolve(control, created, HandleKind::Control, &plan.controls, live, revision)?;
            Ok(())
        },
        UiOp::NodeOnly => Ok(()),
    }
}

fn self_roots_push(plan: &mut ResourcePlan, root: RootInstall)
    ensures
        final(plan)@ == (PlanView { roots: old(plan)@.roots.push(root), ..old(plan)@ }),
{
    plan.roots.push(root);
}

fn plan_control_transition(
    plan: &mut ResourcePlan,
    created: &Vec<DocumentHandle>,
    live: &HashSet<u64>,
    installed_controls: &HashSet<u64>,
    control: &ResourceRef,
    outcome: &Result<(), ControlError>,
) -> (r: Result<(), UiRejection>)
    ensures
        match control_transition(old(plan)@, created@, live@, installed_controls@, *control, *outcome) {
            Ok(next) => r is Ok && final(plan)@ == next,
            Err(f) => (r matches Err(e) && reports(e, old(plan).revision, f)) && final(plan)@ == old(plan)@,
        },
{
    let k = resolve(control, created, HandleKind::Control, &plan.controls, live, plan.revision)?;
    if !plan.control_plans.contains(&k) && !installed_controls.contains(&k) {
        return Err(UiRejection::internal(
            plan.revision,
            CommitDetail::Invariant,
            "live Control has no concrete native state".to_owned(),
        ));
    }
    match outcome {
        Err(e) => Err(control_rejection(plan.revision, *e)),
        Ok(()) => {
            plan.control_plans.insert(k);
            Ok(())
        },
    }
}

/// What retiring one resource of the accepted document plans: a retired
/// Connector must be installed, and is unbound and disposed; a retired Port
/// is unbound and disposed; a retired Control loses its plan.
pub open spec fn retired_step(p: PlanView, owner: ResourceMaps, h: DocumentHandle) -> Result<PlanView, (CommitDetail, Seq<char>)> {
    match h.kind {
        HandleKind::Connector => if !owner.connectors.contains_key(h.key) {
            Err(refusal(CommitDetail::StaleHandle, "Connector is not installed"@))
        } else {
            Ok(PlanView {
                bindings: p.bindings.insert(h.key, None),
                actions: p.actions.push(UiResourceAction::DisposeConnector { key: h.key }),
                ..p
            })
        },
        HandleKind::Port => Ok(PlanView {
            bindings: p.bindings.insert(h.key, None),
            actions: p.actions.push(UiResourceAction::DisposePort { key: h.key }),
            ..p
        }),
        HandleKind::Control => Ok(PlanView { control_plans: p.control_plans.remove(h.key), ..p }),
        HandleKind::Node => Ok(p),
    }
}

/// Retiring resources in order.
pub open spec fn retired_all(p: PlanView, owner: ResourceMaps, hs: Seq<DocumentHandle>) -> Result<PlanView, (CommitDetail, Seq<char>)>
    decreases hs.len(),
{
    if hs.len() == 0 {
        Ok(p)
    } else {
        match retired_all(p, owner, hs.drop_last()) {
            Ok(q) => retired_step(q, owner, hs.last()),
            Err(f) => Err(f),
        }
    }
}

/// The action of a planned literal, unless its Port ends unbound.
pub open spec fn literal_action(p: PlanView, port: u64) -> Seq<UiResourceAction> {
    if p.bindings.contains_key(port) && p.bindings[port] is None {
        Seq::empty()
    } else if p.literals[port].replaced {
        seq![UiResourceAction::ReplaceLiteral { port, source: p.literals[port].source.source, funnel: p.literals[port].funnel }]
    } else {
        seq![UiResourceAction::SetLiteralFunnel { port, source: p.literals[port].source.source, funnel: p.literals[port].funnel }]
    }
}

/// The actions of the planned literals of `ports`, in order.
pub open spec fn literal_actions(p: PlanView, ports: Seq<u64>) -> Seq<UiResourceAction>
    decreases ports.len(),
{
    if ports.len() == 0 {
        Seq::empty()
    } else {
        literal_actions(p, ports.drop_last()) + literal_action(p, ports.last())
    }
}

/// The keys of `keys` in ascending order.
pub open spec fn ascending(keys: Set<u64>) -> Seq<u64> {
    choose|s: Seq<u64>| strictly_ascending(s) && s.to_set() == keys
}

/// Two strictly ascending runs of the same keys are the same run.
pub proof fn lemma_ascending_unique(a: Seq<u64>, b: Seq<u64>)
    requires
        strictly_ascending(a),
        strictly_ascending(b),
        a.to_set() == b.to_set(),
    ensures
        a == b,
    decreases a.len(),
{
    if a.len() == 0 {
        if b.len() > 0 {
            assert(b.to_set().contains(b[0]));
        }
        assert(a =~= b);
    } else {
        assert(a.to_set().contains(a[0]));
        if b.len() == 0 {
            assert(b.to_set().contains(a[0]));
        }
        assert(b.to_set().contains(b[0]));
        assert(b.contains(a[0]));
        assert(a.contains(b[0]));
        let ja = choose|j: int| 0 <= j < b.len() && b[j] == a[0];
        let jb = choose|j: int| 0 <= j < a.len() && a[j] == b[0];
        assert(a[0] == b[0]) by {
            if ja > 0 { assert(b[0] < b[ja]); }
            if jb > 0 { assert(a[0] < a[jb]); }
        }
        let at = a.drop_first();
        let bt = b.drop_first();
        assert forall|x: u64| at.to_set().contains(x) <==> bt.to_set().contains(x) by {
            if at.contains(x) {
                let j = choose|j: int| 0 <= j < at.len() && at[j] == x;
                assert(a[j + 1] == x);
                assert(a.contains(x));
                assert(b.to_set().contains(x));
                let k = choose|k: int| 0 <= k < b.len() && b[k] == x;
                assert(a[0] < x);
                assert(k > 0);
                assert(bt[k - 1] == x);
            }
            if bt.contains(x) {
                let j = choose|j: int| 0 <= j < bt.len() && bt[j] == x;
                assert(b[j + 1] == x);
                assert(b.contains(x));
                assert(a.to_set().contains(x));
                let k = choose|k: int| 0 <= k < a.len() && a[k] == x;
                assert(b[0] < x);
                assert(k > 0);
                assert(at[k - 1] == x);
            }
        }
        assert(at.to_set() =~= bt.to_set());
        lemma_ascending_unique(at, bt);
        assert(a =~= seq![a[0]] + at);
        assert(b =~= seq![b[0]] + bt);
    }
}

/// What finishing a plan makes of it: resources the accepted document
/// retires are planned away, then the literal actions follow in ascending
/// Port order.
pub open spec fn finished(p: PlanView, owner: ResourceMaps, retired: Seq<DocumentHandle>) -> Result<PlanView, (CommitDetail, Seq<char>)> {
    match retired_all(p, owner, retired) {
        Err(f) => Err(f),
        Ok(q) => Ok(PlanView { actions: q.actions + literal_actions(q, ascending(q.literals.dom())), ..q }),
    }
}

fn ascending_keys(keys: &Vec<u64>) -> (sorted: Vec<u64>)
    ensures
        strictly_ascending(sorted@),
        sorted@.to_set() == keys@.to_set(),
{
    let mut sorted: Vec<u64> = Vec::new();
    let mut i: usize = 0;
    assert(sorted@.to_set() =~= keys@.take(0).to_set());
    while i < keys.len()
        invariant
            i <= keys@.len(),
            strictly_ascending(sorted@),
            sorted@.to_set() == keys@.take(i as int).to_set(),
        decreases keys.len() - i,
    {
        insert_sorted(&mut sorted, keys[i]);
        assert(keys@.take(i as int + 1) =~= keys@.take(i as int).push(keys@[i as int]));
        proof {
            let t0 = keys@.take(i as int);
            let t1 = keys@.take(i as int + 1);
            assert forall|x: u64| t1.to_set().contains(x) <==> t0.to_set().insert(keys@[i as int]).contains(x) by {
                if t1.contains(x) {
                    let j = choose|j: int| 0 <= j < t1.len() && t1[j] == x;
                    if j < t0.len() {
                        assert(t0[j] == x);
                        assert(t0.contains(x));
                    }
                }
                if t0.contains(x) {
                    let j = choose|j: int| 0 <= j < t0.len() && t0[j] == x;
                    assert(t1[j] == x);
                }
                if x == keys@[i as int] {
                    assert(t1[i as int] == x);
                }
            }
            assert(t1.to_set() =~= t0.to_set().insert(keys@[i as int]));
        }
        i = i + 1;
    }
    assert(keys@.take(i as int) =~= keys@);
    sorted
}

impl ResourcePlan {
    fn retire(&mut self, owner: &UiResourceOwner, h: DocumentHandle) -> (r: Result<(), UiRejection>)
        ensures
            match retired_step(old(self)@, owner.maps(), h) {
                Ok(next) => r is Ok && final(self)@ == next,
                Err(f) => (r matches Err(e) && reports(e, old(self).revision, f)) && final(self)@ == old(self)@,
            },
    {
        match h.kind {
            HandleKind::Connector => {
                if owner.connector(h.key).is_none() {
                    return Err(UiRejection::internal(self.revision, CommitDetail::StaleHandle, "Connector is not installed".to_owned()));
                }
                self.bindings.insert(h.key, None);
                self.actions.push(UiResourceAction::DisposeConnector { key: h.key });
            },
            HandleKind::Port => {
                self.bindings.insert(h.key, None);
                self.actions.push(UiResourceAction::DisposePort { key: h.key });
            },
            HandleKind::Control => {
                self.control_plans.remove(&h.key);
            },
            HandleKind::Node => {},
        }
        Ok(())
    }

    /// Finishes the plan: plans away the resources the accepted document
    /// retires, in order, then appends the literal actions in ascending
    /// Port order. A refusal leaves the plan as it was.
    pub fn finish(&mut self, owner: &UiResourceOwner, retired: &Vec<DocumentHandle>) -> (r: Result<(), UiRejection>)
        ensures
            final(self).revision == old(self).revision,
            match finished(old(self)@, owner.maps(), retired@) {
                Ok(next) => r is Ok && final(self)@ == next,
                Err(f) => (r matches Err(e) && reports(e, old(self).revision, f)) && final(self)@ == old(self)@,
            },
    {
        let ghost start = self@;
        let mut c: usize = 0;
        while c < retired.len()
            invariant
                c <= retired@.len(),
                self@ == start,
                forall|k: int| 0 <= k < c ==> retirable(owner.maps(), #[trigger] retired@[k]),
            decreases retired.len() - c,
        {
            let h = retired[c];
            if h.kind == HandleKind::Connector && owner.connector(h.key).is_none() {
                proof {
                    assert(!retirable(owner.maps(), retired@[c as int]));
                    lemma_retired_all(start, owner.maps(), retired@);
                    assert(retired_all(start, owner.maps(), retired@) is Err);
                    assert(finished(start, owner.maps(), retired@) == Err::<PlanView, (CommitDetail, Seq<char>)>(
                        refusal(CommitDetail::StaleHandle, "Connector is not installed"@)));
                }
                let e = UiRejection::internal(self.revision, CommitDetail::StaleHandle, "Connector is not installed".to_owned());
                assert(reports(e, start.revision, refusal(CommitDetail::StaleHandle, "Connector is not installed"@)));
                assert(self@ == start);
                return Err(e);
            }
            c = c + 1;
        }
        proof {
            lemma_retired_all(start, owner.maps(), retired@);
        }
        let mut i: usize = 0;
        assert(retired@.take(0) =~= Seq::<DocumentHandle>::empty());
        while i < retired.len()
            invariant
                i <= retired@.len(),
                forall|k: int| 0 <= k < retired@.len() ==> retirable(owner.maps(), #[trigger] retired@[k]),
                retired_all(start, owner.maps(), retired@.take(i as int)) == Ok::<PlanView, (CommitDetail, Seq<char>)>(self@),
                self.revision == start.revision,
                start.revision == old(self).revision,
            decreases retired.len() - i,
        {
            assert(retired@.take(i as int + 1).drop_last() =~= retired@.take(i as int));
            assert(retirable(owner.maps(), retired@[i as int]));
            let step = self.retire(owner, retired[i]);
            assert(step is Ok);
            i = i + 1;
        }
        assert(retired@.take(i as int) =~= retired@);
        let keys = map_keys(&self.literals);
        let ports = ascending_keys(&keys);
        proof {
            assert(ports@.to_set() =~= self@.literals.dom());
            lemma_ascending_unique(ports@, ascending(self@.literals.dom()));
        }
        let ghost q = self@;
        let mut j: usize = 0;
        assert(ports@.take(0) =~= Seq::<u64>::empty());
        assert(q.actions + literal_actions(q, ports@.take(0)) =~= q.actions);
        while j < ports.len()
            invariant
                j <= ports@.len(),
                forall|k: u64| #[trigger] ports@.contains(k) ==> q.literals.contains_key(k),
                self.revision == old(self).revision,
                q.revision == old(self).revision,
                self@ == (PlanView { actions: q.actions + literal_actions(q, ports@.take(j as int)), ..q }),
            decreases ports.len() - j,
        {
            let port = ports[j];
            assert(ports@.contains(port));
            assert(ports@.take(j as int + 1).drop_last() =~= ports@.take(j as int));
            assert(ports@.take(j as int + 1).last() == port);
            let unbound = match self.bindings.get(&port) {
                Some(b) => b.is_none(),
                None => false,
            };
            if !unbound {
                let action = match self.literals.get(&port) {
                    Some(l) => if l.replaced {
                        UiResourceAction::ReplaceLiteral { port, source: l.source.source, funnel: l.funnel }
                    } else {
                        UiResourceAction::SetLiteralFunnel { port, source: l.source.source, funnel: l.funnel }
                    },
                    None => {
                        proof { assert(false); }
                        UiResourceAction::DisposeLiteral { port }
                    },
                };
                let ghost acts = self.actions@;
                self.actions.push(action);
                assert(self.actions@ =~= acts + literal_action(q, port));
            } else {
                assert(literal_action(q, port) =~= Seq::<UiResourceAction>::empty());
            }
            assert(q.actions + literal_actions(q, ports@.take(j as int + 1)) =~= q.actions + literal_actions(q, ports@.take(j as int)) + literal_action(q, port));
            j = j + 1;
        }
        assert(ports@.take(j as int) =~= ports@);
        Ok(())
    }

}

/// A resource the accepted document retires can be planned away: a
/// retired Connector must be installed.
pub open spec fn retirable(owner: ResourceMaps, h: DocumentHandle) -> bool {
    h.kind == HandleKind::Connector ==> owner.connectors.contains_key(h.key)
}

/// Retiring a run succeeds exactly when every resource in it can be
/// retired; otherwise it is refused because a Connector is not installed.
proof fn lemma_retired_all(p: PlanView, owner: ResourceMaps, hs: Seq<DocumentHandle>)
    ensures
        retired_all(p, owner, hs) is Ok <==> forall|k: int| 0 <= k < hs.len() ==> retirable(owner, #[trigger] hs[k]),
        retired_all(p, owner, hs) is Err ==> retired_all(p, owner, hs) == Err::<PlanView, (CommitDetail, Seq<char>)>(
            refusal(CommitDetail::StaleHandle, "Connector is not installed"@)),
    decreases hs.len(),
{
    if hs.len() > 0 {
        let init = hs.drop_last();
        lemma_retired_all(p, owner, init);
        assert forall|k: int| 0 <= k < init.len() implies init[k] == hs[k] by {}
        if !(forall|k: int| 0 <= k < init.len() ==> retirable(owner, #[trigger] init[k])) {
            let k = choose|k: int| 0 <= k < init.len() && !retirable(owner, #[trigger] init[k]);
            assert(!retirable(owner, hs[k]));
        } else {
            if !retirable(owner, hs.last()) {
                assert(!retirable(owner, hs[hs.len() - 1]));
            } else {
                assert forall|k: int| 0 <= k < hs.len() implies retirable(owner, #[trigger] hs[k]) by {
                    if k < init.len() {
                        assert(retirable(owner, init[k]));
                    }
                }
            }
        }
    }
}

/// Interpreting operations in order.
pub open spec fn interpreted_all(
    p: PlanView,
    owner: ResourceMaps,
    env: TuiEnvironment,
    created: Seq<DocumentHandle>,
    live: Set<u64>,
    installed_controls: Set<u64>,
    sources: Seq<NativeSource>,
    ops: Seq<UiOp>,
) -> Result<PlanView, (CommitDetail, Seq<char>)>
    decreases ops.len(),
{
    if ops.len() == 0 {
        Ok(p)
    } else {
        match interpreted_all(p, owner, env, created, live, installed_controls, sources, ops.drop_last()) {
            Ok(q) => interpreted(q, owner, env, created, live, installed_controls, sources, ops.last()),
            Err(f) => Err(f),
        }
    }
}

/// An empty plan against accepted revision `revision`.
pub open spec fn empty_plan(revision: u64) -> PlanView {
    PlanView {
        revision,
        actions: Seq::empty(),
        roots: Seq::empty(),
        ports: Set::empty(),
        connectors: Set::empty(),
        controls: Set::empty(),
        control_plans: Set::empty(),
        bindings: Map::empty(),
        literals: Map::empty(),
        candidates: Seq::empty(),
    }
}

/// A UI commit as the owner receives it: the revision accepted so far, its
/// operations, the handles the accepted document acknowledged as created,
/// the resources it keeps live, the controls with installed native state,
/// the batch's Sources, the resources and History roots it retires, its
/// History root summaries (with the accepted configuration of each root),
/// and the live History tail.
#[derive(Debug)]
pub struct UiCommitBatch {
    pub revision: u64,
    pub ops: Vec<UiOp>,
    pub created: Vec<DocumentHandle>,
    pub live: HashSet<u64>,
    pub installed_controls: HashSet<u64>,
    pub sources: Vec<NativeSource>,
    pub retired: Vec<DocumentHandle>,
    pub retired_roots: Vec<u64>,
    pub summaries: Vec<HistoryRootSummary>,
    pub history_tail: Option<u64>,
}

/// What a batch plans against an owner's accepted resources and
/// environment: its operations interpreted in order, then finished.
pub open spec fn planned(b: UiCommitBatch, owner: ResourceMaps, env: TuiEnvironment) -> Result<PlanView, (CommitDetail, Seq<char>)> {
    match interpreted_all(empty_plan(b.revision), owner, env, b.created@, b.live@, b.installed_controls@, b.sources@, b.ops@) {
        Ok(q) => finished(q, owner, b.retired@),
        Err(f) => Err(f),
    }
}

/// The first root configuration a plan installs for `root`.
pub open spec fn root_config_in(roots: Seq<RootInstall>, root: u64) -> Option<HistoryRootConfig>
    decreases roots.len(),
{
    if roots.len() == 0 {
        None
    } else if roots[0].key == root {
        Some(roots[0].config)
    } else {
        root_config_in(roots.drop_first(), root)
    }
}

/// Whether a plan installs `root` with a supplied unit identity.
pub open spec fn identity_supplied_in(roots: Seq<RootInstall>, root: u64) -> bool {
    exists|i: int| 0 <= i < roots.len() && #[trigger] roots[i].key == root && roots[i].identity_supplied
}

/// The History root summaries with each root's configuration taken from
/// the plan when the plan installs it, and whether the plan supplied its
/// unit identity.
pub open spec fn with_root_configs(summaries: Seq<HistoryRootSummary>, roots: Seq<RootInstall>) -> Seq<HistoryRootSummary> {
    summaries.map_values(|s: HistoryRootSummary| HistoryRootSummary {
        config: match root_config_in(roots, s.root) {
            Some(c) => Some(c),
            None => s.config,
        },
        identity_supplied: identity_supplied_in(roots, s.root),
        ..s
    })
}

fn root_facts(roots: &Vec<RootInstall>, root: u64) -> (facts: (Option<HistoryRootConfig>, bool))
    ensures
        facts.0 == root_config_in(roots@, root),
        facts.1 == identity_supplied_in(roots@, root),
{
    let mut config: Option<HistoryRootConfig> = None;
    let mut found = false;
    let mut supplied = false;
    let mut i: usize = 0;
    assert(roots@.skip(0) =~= roots@);
    while i < roots.len()
        invariant
            i <= roots@.len(),
            !found ==> root_config_in(roots@.skip(i as int), root) == root_config_in(roots@, root),
            found ==> config == root_config_in(roots@, root),
            !found ==> config is None,
            supplied == exists|j: int| 0 <= j < i && #[trigger] roots@[j].key == root && roots@[j].identity_supplied,
        decreases roots.len() - i,
    {
        let r = roots[i];
        assert(roots@.skip(i as int)[0] == r);
        assert(roots@.skip(i as int).drop_first() =~= roots@.skip(i as int + 1));
        if r.key == root {
            if !found {
                config = Some(r.config);
                found = true;
            }
            if r.identity_supplied {
                supplied = true;
            }
        }
        proof {
            if supplied && !(exists|j: int| 0 <= j < i && #[trigger] roots@[j].key == root && roots@[j].identity_supplied) {
                assert(roots@[i as int].key == root && roots@[i as int].identity_supplied);
            }
        }
        i = i + 1;
    }
    if !found {
        assert(roots@.skip(i as int) =~= Seq::<RootInstall>::empty());
    }
    (config, supplied)
}

fn summaries_with_roots(summaries: &Vec<HistoryRootSummary>, roots: &Vec<RootInstall>) -> (out: Vec<HistoryRootSummary>)
    ensures
        out@ == with_root_configs(summaries@, roots@),
{
    let mut out: Vec<HistoryRootSummary> = Vec::new();
    let mut i: usize = 0;
    while i < summaries.len()
        invariant
            i <= summaries@.len(),
            out@ == with_root_configs(summaries@.take(i as int), roots@),
        decreases summaries.len() - i,
    {
        let s = summaries[i];
        let (config, supplied) = root_facts(roots, s.root);
        let config = match config {
            Some(c) => Some(c),
            None => s.config,
        };
        out.push(HistoryRootSummary { config, identity_supplied: supplied, ..s });
        assert(with_root_configs(summaries@.take(i as int + 1), roots@) =~= with_root_configs(summaries@.take(i as int), roots@).push(
            HistoryRootSummary { config, identity_supplied: supplied, ..s },
        ));
        i = i + 1;
    }
    assert(summaries@.take(i as int) =~= summaries@);
    out
}

/// The Source a key is bound to in the accepted resources.
pub open spec fn bound_before(owner: ResourceMaps, k: u64) -> Option<SourceIdentity> {
    if owner.connectors.contains_key(k) { Some(owner.connectors[k].0) } else { None }
}

/// The Source memberships a plan gains, over `keys` in order: each key whose
/// final binding names a Source other than its accepted one.
pub open spec fn membership_gains(p: PlanView, owner: ResourceMaps, keys: Seq<u64>) -> Seq<SourceIdentity>
    decreases keys.len(),
{
    if keys.len() == 0 {
        Seq::empty()
    } else {
        let k = keys.last();
        membership_gains(p, owner, keys.drop_last()) + match p.bindings[k] {
            Some(id) => if bound_before(owner, k) != Some(id) { seq![id] } else { Seq::empty() },
            None => Seq::empty(),
        }
    }
}

/// The Source memberships a plan drops, over `keys` in order: each key whose
/// accepted Source differs from its final binding.
pub open spec fn membership_losses(p: PlanView, owner: ResourceMaps, keys: Seq<u64>) -> Seq<SourceIdentity>
    decreases keys.len(),
{
    if keys.len() == 0 {
        Seq::empty()
    } else {
        let k = keys.last();
        membership_losses(p, owner, keys.drop_last()) + match bound_before(owner, k) {
            Some(id) => if p.bindings[k] != Some(id) { seq![id] } else { Seq::empty() },
            None => Seq::empty(),
        }
    }
}

/// The private Sources to dispose once they are empty, over `keys` in
/// order: those of Ports that end unbound.
pub open spec fn private_disposals(p: PlanView, owner: ResourceMaps, keys: Seq<u64>) -> Seq<SourceIdentity>
    decreases keys.len(),
{
    if keys.len() == 0 {
        Seq::empty()
    } else {
        let k = keys.last();
        private_disposals(p, owner, keys.drop_last()) + if p.bindings[k] is None && owner.private_sources.contains_key(k) {
            seq![owner.private_sources[k]]
        } else {
            Seq::empty()
        }
    }
}

/// The literal Sources whose content is replaced, over `ports` in order:
/// those planned with a replacement whose Port does not end unbound.
pub open spec fn replaced_sources(p: PlanView, ports: Seq<u64>) -> Seq<SourceIdentity>
    decreases ports.len(),
{
    if ports.len() == 0 {
        Seq::empty()
    } else {
        let k = ports.last();
        replaced_sources(p, ports.drop_last()) + if p.literals[k].replaced
            && !(p.bindings.contains_key(k) && p.bindings[k] is None) {
            seq![identity_of(p.literals[k].source.source)]
        } else {
            Seq::empty()
        }
    }
}

/// Some key ends bound to `id`.
pub open spec fn accepted(p: PlanView, id: SourceIdentity) -> bool {
    exists|k: u64| #[trigger] p.bindings.contains_key(k) && p.bindings[k] == Some(id)
}

/// The created Sources that no key ends bound to, in order.
pub open spec fn unaccepted(p: PlanView, cs: Seq<NativeSource>) -> Seq<HostContentSource>
    decreases cs.len(),
{
    if cs.len() == 0 {
        Seq::empty()
    } else {
        unaccepted(p, cs.drop_last()) + if accepted(p, identity_of(cs.last().source)) {
            Seq::empty()
        } else {
            seq![cs.last().source]
        }
    }
}

/// The Source mutations a finished plan asks for: membership gains and
/// losses and private Sources to dispose once empty, by bound key in
/// ascending order; literal Sources replaced, by Port in ascending order;
/// and the created Sources nothing accepted, to dispose.
#[derive(Debug)]
pub struct SourceMutations {
    pub gains: Vec<SourceIdentity>,
    pub losses: Vec<SourceIdentity>,
    pub dispose_when_empty: Vec<SourceIdentity>,
    pub replaced: Vec<SourceIdentity>,
    pub unaccepted: Vec<HostContentSource>,
}

/// `m` is what finished plan `p` asks of the Sources.
pub open spec fn mutations_of(p: PlanView, owner: ResourceMaps, m: SourceMutations) -> bool {
    let keys = ascending(p.bindings.dom());
    &&& m.gains@ == membership_gains(p, owner, keys)
    &&& m.losses@ == membership_losses(p, owner, keys)
    &&& m.dispose_when_empty@ == private_disposals(p, owner, keys)
    &&& m.replaced@ == replaced_sources(p, ascending(p.literals.dom()))
    &&& m.unaccepted@ == unaccepted(p, p.candidates)
}

fn is_accepted(plan: &ResourcePlan, keys: &Vec<u64>, id: SourceIdentity) -> (b: bool)
    requires
        forall|k: u64| #[trigger] keys@.contains(k) <==> plan@.bindings.contains_key(k),
    ensures
        b == accepted(plan@, id),
{
    let mut i: usize = 0;
    while i < keys.len()
        invariant
            i <= keys@.len(),
            forall|k: u64| #[trigger] keys@.contains(k) <==> plan@.bindings.contains_key(k),
            forall|j: int| 0 <= j < i ==> plan@.bindings[#[trigger] keys@[j]] != Some(id),
        decreases keys.len() - i,
    {
        assert(keys@.contains(keys@[i as int]));
        match plan.bindings.get(&keys[i]) {
            Some(b) => {
                if *b == Some(id) {
                    return true;
                }
            },
            None => {},
        }
        i = i + 1;
    }
    proof {
        if accepted(plan@, id) {
            let k = choose|k: u64| #[trigger] plan@.bindings.contains_key(k) && plan@.bindings[k] == Some(id);
            assert(keys@.contains(k));
            let j = choose|j: int| 0 <= j < keys@.len() && keys@[j] == k;
            assert(plan@.bindings[keys@[j]] != Some(id));
        }
    }
    false
}

/// The Source mutations that a finished plan asks for.
pub fn source_mutations(plan: &ResourcePlan, owner: &UiResourceOwner) -> (m: SourceMutations)
    ensures
        mutations_of(plan@, owner.maps(), m),
{
    let keys = map_keys(&plan.bindings);
    let ordered = ascending_keys(&keys);
    proof {
        assert(ordered@.to_set() =~= plan@.bindings.dom());
        lemma_ascending_unique(ordered@, ascending(plan@.bindings.dom()));
    }
    let mut gains: Vec<SourceIdentity> = Vec::new();
    let mut losses: Vec<SourceIdentity> = Vec::new();
    let mut disposals: Vec<SourceIdentity> = Vec::new();
    let ghost p = plan@;
    let ghost o = owner.maps();
    let mut i: usize = 0;
    while i < ordered.len()
        invariant
            i <= ordered@.len(),
            p == plan@,
            o == owner.maps(),
            forall|k: u64| #[trigger] ordered@.contains(k) ==> p.bindings.contains_key(k),
            gains@ == membership_gains(p, o, ordered@.take(i as int)),
            losses@ == membership_losses(p, o, ordered@.take(i as int)),
            disposals@ == private_disposals(p, o, ordered@.take(i as int)),
        decreases ordered.len() - i,
    {
        let k = ordered[i];
        assert(ordered@.contains(k));
        assert(ordered@.take(i as int + 1).drop_last() =~= ordered@.take(i as int));
        assert(ordered@.take(i as int + 1).last() == k);
        let after = match plan.bindings.get(&k) {
            Some(b) => *b,
            None => None,
        };
        let before = match owner.connector(k) {
            Some(entry) => Some(entry.0),
            None => None,
        };
        let ghost g0 = gains@;
        let ghost l0 = losses@;
        let ghost d0 = disposals@;
        match after {
            Some(id) => {
                if before != Some(id) {
                    gains.push(id);
                }
            },
            None => {},
        }
        assert(gains@ =~= g0 + match p.bindings[k] {
            Some(id) => if bound_before(o, k) != Some(id) { seq![id] } else { Seq::<SourceIdentity>::empty() },
            None => Seq::<SourceIdentity>::empty(),
        });
        match before {
            Some(id) => {
                if after != Some(id) {
                    losses.push(id);
                }
            },
            None => {},
        }
        assert(losses@ =~= l0 + match bound_before(o, k) {
            Some(id) => if p.bindings[k] != Some(id) { seq![id] } else { Seq::<SourceIdentity>::empty() },
            None => Seq::<SourceIdentity>::empty(),
        });
        if after.is_none() {
            match owner.private_source(k) {
                Some(id) => {
                    disposals.push(id);
                },
                None => {},
            }
        }
        assert(disposals@ =~= d0 + if p.bindings[k] is None && o.private_sources.contains_key(k) {
            seq![o.private_sources[k]]
        } else {
            Seq::<SourceIdentity>::empty()
        });
        i = i + 1;
    }
    assert(ordered@.take(i as int) =~= ordered@);
    let literal_keys = map_keys(&plan.literals);
    let ports = ascending_keys(&literal_keys);
    proof {
        assert(ports@.to_set() =~= plan@.literals.dom());
        lemma_ascending_unique(ports@, ascending(plan@.literals.dom()));
    }
    let mut replaced: Vec<SourceIdentity> = Vec::new();
    let mut j: usize = 0;
    while j < ports.len()
        invariant
            j <= ports@.len(),
            p == plan@,
            forall|k: u64| #[trigger] ports@.contains(k) ==> p.literals.contains_key(k),
            replaced@ == replaced_sources(p, ports@.take(j as int)),
        decreases ports.len() - j,
    {
        let k = ports[j];
        assert(ports@.contains(k));
        assert(ports@.take(j as int + 1).drop_last() =~= ports@.take(j as int));
        assert(ports@.take(j as int + 1).last() == k);
        let unbound = match plan.bindings.get(&k) {
            Some(b) => b.is_none(),
            None => false,
        };
        let ghost r0 = replaced@;
        match plan.literals.get(&k) {
            Some(l) => {
                if l.replaced && !unbound {
                    replaced.push(source_identity(&l.source.source));
                }
            },
            None => {},
        }
        assert(replaced@ =~= r0 + if p.literals[k].replaced && !(p.bindings.contains_key(k) && p.bindings[k] is None) {
            seq![identity_of(p.literals[k].source.source)]
        } else {
            Seq::<SourceIdentity>::empty()
        });
        j = j + 1;
    }
    assert(ports@.take(j as int) =~= ports@);
    let mut rejected: Vec<HostContentSource> = Vec::new();
    let mut c: usize = 0;
    while c < plan.candidates.len()
        invariant
            c <= p.candidates.len(),
            p == plan@,
            forall|k: u64| #[trigger] keys@.contains(k) <==> plan@.bindings.contains_key(k),
            rejected@ == unaccepted(p, p.candidates.take(c as int)),
        decreases plan.candidates.len() - c,
    {
        assert(p.candidates.take(c as int + 1).drop_last() =~= p.candidates.take(c as int));
        assert(p.candidates.take(c as int + 1).last() == p.candidates[c as int]);
        let source = plan.candidates[c].source;
        let ghost u0 = rejected@;
        if !is_accepted(plan, &keys, source_identity(&source)) {
            rejected.push(source);
        }
        assert(rejected@ =~= u0 + if accepted(p, identity_of(p.candidates[c as int].source)) {
            Seq::<HostContentSource>::empty()
        } else {
            seq![p.candidates[c as int].source]
        });
        c = c + 1;
    }
    assert(p.candidates.take(c as int) =~= p.candidates);
    SourceMutations { gains, losses, dispose_when_empty: disposals, replaced, unaccepted: rejected }
}

/// What an accepted commit did: the revision it was planned against, the
/// resources its actions touched (ascending, each once), the History
/// updates it applied, the History root configurations it installs, the
/// controls it plans native state for, the Sources it created, and the
/// Source mutations it asks for.
#[derive(Debug)]
pub struct UiCommitOutput {
    pub revision: u64,
    pub changed_resources: Vec<u64>,
    pub history_updates: Vec<(u64, Option<HistoryUnitOwner>)>,
    pub roots: Vec<RootInstall>,
    pub control_plans: HashSet<u64>,
    pub candidates: Vec<NativeSource>,
    pub source_mutations: SourceMutations,
}

impl UiResourceOwner {
    /// Commits a UI batch: a closed or closing owner refuses it; otherwise
    /// its operations are planned against the accepted resources, the
    /// History updates are planned from the summaries and the plan's root
    /// configurations, and only when both succeed are the resource actions
    /// and then the History updates applied. A refused commit changes
    /// nothing.
    pub fn commit(&mut self, batch: &UiCommitBatch, existing_history: &HashMap<u64, bool>) -> (r: Result<UiCommitOutput, UiRejection>)
        requires
            old(self).state() == UiResourceLifecycle::Open ==> (planned(*batch, old(self).maps(), old(self).env()) matches Ok(q)
                ==> summaries_prepared(old(self).history(), with_root_configs(batch.summaries@, q.roots))),
        ensures
            old(self).state() != UiResourceLifecycle::Open ==> (r matches Err(e)
                && e.detail == CommitDetail::Invariant
                && e.message@ == "UI resource owner is closed"@
                && e.revision == if old(self).state() == UiResourceLifecycle::Closed { 0 } else { batch.revision }),
            old(self).state() == UiResourceLifecycle::Open ==> match planned(*batch, old(self).maps(), old(self).env()) {
                Err(f) => r matches Err(e) && reports(e, batch.revision, f),
                Ok(q) => match history_plan(
                    old(self).history(),
                    with_root_configs(batch.summaries@, q.roots),
                    batch.retired_roots@,
                    batch.history_tail,
                    existing_history@,
                ) {
                    Ok(updates) => (r matches Ok(out) && out.revision == batch.revision && out.history_updates@ == updates
                        && out.roots@ == q.roots && out.control_plans@ == q.control_plans
                        && out.candidates@ == q.candidates
                        && mutations_of(q, old(self).maps(), out.source_mutations)
                        && strictly_ascending(out.changed_resources@)
                        && (forall|k: u64| #[trigger] out.changed_resources@.contains(k) <==> exists|i: int|
                            0 <= i < q.actions.len() && action_key(#[trigger] q.actions[i]) == k)
                        && final(self).maps() == after_actions(old(self).maps(), q.actions)
                        && final(self).history() == after_history_updates(old(self).history(), updates)),
                    Err(m) => (r matches Err(e) && e.revision == batch.revision
                        && e.detail == CommitDetail::InvalidTopology && e.message@ == m),
                },
            },
            r is Err ==> final(self).maps() == old(self).maps() && final(self).history() == old(self).history(),
            final(self).state() == old(self).state(),
            final(self).body() == old(self).body(),
            final(self).space() == old(self).space(),
            final(self).env() == old(self).env(),
    {
        if !self.is_open() {
            let revision = if self.lifecycle() == UiResourceLifecycle::Closed { 0 } else { batch.revision };
            return Err(UiRejection::internal(revision, CommitDetail::Invariant, "UI resource owner is closed".to_owned()));
        }
        let mut plan = ResourcePlan::new(batch.revision);
        let ghost p0 = plan@;
        let mut i: usize = 0;
        assert(batch.ops@.take(0) =~= Seq::<UiOp>::empty());
        while i < batch.ops.len()
            invariant
                i <= batch.ops@.len(),
                plan.revision == batch.revision,
                self.state() == UiResourceLifecycle::Open,
                self.maps() == old(self).maps(),
                self.history() == old(self).history(),
                self.env() == old(self).env(),
                self.body() == old(self).body(),
                self.space() == old(self).space(),
                p0 == empty_plan(batch.revision),
                interpreted_all(p0, self.maps(), self.env(), batch.created@, batch.live@, batch.installed_controls@,
                    batch.sources@, batch.ops@.take(i as int)) == Ok::<PlanView, (CommitDetail, Seq<char>)>(plan@),
            decreases batch.ops.len() - i,
        {
            assert(batch.ops@.take(i as int + 1).drop_last() =~= batch.ops@.take(i as int));
            assert(batch.ops@.take(i as int + 1).last() == batch.ops@[i as int]);
            let step = interpret_operation(
                &mut plan,
                self,
                &batch.created,
                &batch.live,
                &batch.installed_controls,
                &batch.sources,
                &batch.ops[i],
            );
            match step {
                Ok(()) => {},
                Err(e) => {
                    proof {
                        lemma_interpreted_refusal_sticks(p0, self.maps(), self.env(), batch.created@, batch.live@,
                            batch.installed_controls@, batch.sources@, batch.ops@, i as int + 1);
                        assert(batch.ops@.take(batch.ops@.len() as int) =~= batch.ops@);
                    }
                    return Err(e);
                },
            }
            i = i + 1;
        }
        assert(batch.ops@.take(i as int) =~= batch.ops@);
        let ghost interpreted_plan = plan@;
        assert(planned(*batch, self.maps(), self.env()) == finished(interpreted_plan, self.maps(), batch.retired@));
        plan.finish(self, &batch.retired)?;
        assert(planned(*batch, self.maps(), self.env()) == Ok::<PlanView, (CommitDetail, Seq<char>)>(plan@));
        let summaries = summaries_with_roots(&batch.summaries, &plan.roots);
        let updates = self.prepare_history_updates(
            &summaries,
            &batch.retired_roots,
            batch.history_tail,
            existing_history,
            batch.revision,
        )?;
        let applied = copy_updates(&updates);
        let changed_resources = touched_resource_keys(&plan.actions);
        let source_mutations = source_mutations(&plan, self);
        let ghost q = plan@;
        let ResourcePlan { revision, actions, roots, control_plans, candidates, .. } = plan;
        assert(actions@ == q.actions && roots@ == q.roots && control_plans@ == q.control_plans && candidates@ == q.candidates);
        self.apply_actions(actions);
        self.apply_history_updates(applied);
        assert(self.maps() == after_actions(old(self).maps(), q.actions));
        assert(self.history() == after_history_updates(old(self).history(), updates@));
        let out = UiCommitOutput {
            revision,
            changed_resources,
            history_updates: updates,
            roots,
            control_plans,
            candidates,
            source_mutations,
        };
        assert(planned(*batch, old(self).maps(), old(self).env()) == Ok::<PlanView, (CommitDetail, Seq<char>)>(q));
        assert(history_plan(old(self).history(), with_root_configs(batch.summaries@, q.roots), batch.retired_roots@,
            batch.history_tail, existing_history@) == Ok::<Seq<(u64, Option<HistoryUnitOwner>)>, Seq<char>>(out.history_updates@));
        Ok(out)
    }
}

/// Once interpreting a prefix of the operations is refused, interpreting
/// any longer prefix is refused the same way.
proof fn lemma_interpreted_refusal_sticks(
    p: PlanView,
    owner: ResourceMaps,
    env: TuiEnvironment,
    created: Seq<DocumentHandle>,
    live: Set<u64>,
    installed_controls: Set<u64>,
    sources: Seq<NativeSource>,
    ops: Seq<UiOp>,
    n: int,
)
    requires
        0 < n <= ops.len(),
        interpreted_all(p, owner, env, created, live, installed_controls, sources, ops.take(n)) is Err,
    ensures
        interpreted_all(p, owner, env, created, live, installed_controls, sources, ops.take(ops.len() as int))
            == interpreted_all(p, owner, env, created, live, installed_controls, sources, ops.take(n)),
    decreases ops.len() - n,
{
    if n < ops.len() {
        assert(ops.take(n + 1).drop_last() =~= ops.take(n));
        lemma_interpreted_refusal_sticks(p, owner, env, created, live, installed_controls, sources, ops, n + 1);
    }
}

} // verus!
