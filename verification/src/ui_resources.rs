//! The owner of accepted UI resource state: Ports, Connectors, literal and
//! private Sources, and History unit identities, with its lifecycle; and the
//! checks and decoders that UI commits go through.
use vstd::prelude::*;
use vstd::string::StringExecFns;
use std::collections::{HashMap, HashSet};
use crate::component::graph::map_keys;
use crate::host::joined;

verus! {

broadcast use vstd::std_specs::hash::group_hash_axioms;

/// The wire form of a handle naming one UI node or resource.
#[derive(Clone, Copy, Debug, PartialEq, Eq, Hash, Structural)]
pub struct UiHandle {
    pub value: u64,
}

/// The namespace that keeps one host's UI handles apart from another's.
#[derive(Clone, Copy, Debug, PartialEq, Eq, Hash, Structural)]
pub struct HostNamespace {
    pub value: u64,
}

/// The identity of the runtime environment that owns content Sources.
#[derive(Clone, Copy, Debug, PartialEq, Eq, Hash, Structural)]
pub struct TuiEnvironment {
    pub slot: u32,
    pub generation: u32,
}

/// The identity facts of one content Source as its environment reports
/// them.
#[derive(Clone, Copy, Debug, PartialEq, Eq, Structural)]
pub struct HostContentSource {
    pub id: u64,
    pub generation: u32,
    pub environment_slot: u32,
    pub environment_generation: u32,
}

impl HostContentSource {
    pub fn id(&self) -> (id: u64)
        ensures
            id == self.id,
    {
        self.id
    }

    pub fn generation(&self) -> (generation: u32)
        ensures
            generation == self.generation,
    {
        self.generation
    }

    pub fn environment_slot(&self) -> (slot: u32)
        ensures
            slot == self.environment_slot,
    {
        self.environment_slot
    }

    pub fn environment_generation(&self) -> (generation: u32)
        ensures
            generation == self.environment_generation,
    {
        self.environment_generation
    }
}

/// What names one content Source across environments and generations.
#[derive(Clone, Copy, Debug, PartialEq, Eq, Hash, Structural)]
pub struct SourceIdentity {
    pub id: u64,
    pub generation: u32,
    pub environment_slot: u32,
    pub environment_generation: u32,
}

impl SourceIdentity {
    /// The identity of a Source.
    pub fn from_source(source: &HostContentSource) -> (identity: Self)
        ensures
            identity.id == source.id,
            identity.generation == source.generation,
            identity.environment_slot == source.environment_slot,
            identity.environment_generation == source.environment_generation,
    {
        SourceIdentity {
            id: source.id(),
            generation: source.generation(),
            environment_slot: source.environment_slot(),
            environment_generation: source.environment_generation(),
        }
    }
}

/// How a Connector turns Source text into presented text.
#[derive(Clone, Copy, Debug, PartialEq, Eq, Hash, Structural)]
pub struct FunnelSpec {
    pub kind: u8,
    pub wrap: u8,
    pub hyperlinks: bool,
    pub smooth: bool,
}

/// The funnel of a Port whose literal text names none: plain, unwrapped,
/// with hyperlinks, not smoothed.
pub fn default_funnel() -> (spec: FunnelSpec)
    ensures
        spec == (FunnelSpec { kind: 0, wrap: 0, hyperlinks: true, smooth: false }),
{
    FunnelSpec { kind: 0, wrap: 0, hyperlinks: true, smooth: false }
}

/// Which part of a UI commit was refused.
#[derive(Clone, Copy, Debug, PartialEq, Eq, Structural)]
pub enum CommitDetail {
    Malformed,
    Unsupported,
    WrongKind,
    StaleHandle,
    StaleRevision,
    InvalidProperty,
    InvalidTopology,
    Capacity,
    Invariant,
}

/// A refused UI commit: the revision still accepted, what was wrong, and a
/// message.
#[derive(Clone, Debug)]
pub struct UiRejection {
    pub revision: u64,
    pub detail: CommitDetail,
    pub message: String,
}

impl UiRejection {
    pub fn internal(revision: u64, detail: CommitDetail, message: String) -> (rejection: Self)
        ensures
            rejection.revision == revision,
            rejection.detail == detail,
            rejection.message == message,
    {
        UiRejection { revision, detail, message }
    }
}

/// Refuses a funnel whose kind or wrap mode is unknown.
pub fn validate_funnel_spec(spec: FunnelSpec, revision: u64) -> (r: Result<(), UiRejection>)
    ensures
        r is Ok <==> spec.kind <= 3 && spec.wrap <= 2,
        r matches Err(e) ==> e.revision == revision && e.detail == CommitDetail::InvalidProperty
            && e.message@ == "Funnel value is invalid"@,
{
    if spec.kind > 3 || spec.wrap > 2 {
        return Err(UiRejection::internal(revision, CommitDetail::InvalidProperty, "Funnel value is invalid".to_owned()));
    }
    Ok(())
}

/// Why a control transition was refused.
#[derive(Clone, Copy, Debug, PartialEq, Eq, Structural)]
pub enum ControlError {
    WrongKind,
    UnknownCommand,
    InvalidOperands,
    InvalidValue,
    StaleEditRevision,
    RevisionExhausted,
}

/// The commit detail a refused control transition is reported under.
pub open spec fn control_detail(error: ControlError) -> CommitDetail {
    match error {
        ControlError::WrongKind => CommitDetail::WrongKind,
        ControlError::UnknownCommand => CommitDetail::Unsupported,
        ControlError::InvalidOperands => CommitDetail::Malformed,
        ControlError::InvalidValue => CommitDetail::Malformed,
        ControlError::StaleEditRevision => CommitDetail::StaleRevision,
        ControlError::RevisionExhausted => CommitDetail::Capacity,
    }
}

/// The name of a control error in reports.
pub open spec fn control_error_name(error: ControlError) -> Seq<char> {
    match error {
        ControlError::WrongKind => "WrongKind"@,
        ControlError::UnknownCommand => "UnknownCommand"@,
        ControlError::InvalidOperands => "InvalidOperands"@,
        ControlError::InvalidValue => "InvalidValue"@,
        ControlError::StaleEditRevision => "StaleEditRevision"@,
        ControlError::RevisionExhausted => "RevisionExhausted"@,
    }
}

/// The rejection of a commit whose control transition failed.
pub fn control_rejection(revision: u64, error: ControlError) -> (rejection: UiRejection)
    ensures
        rejection.revision == revision,
        rejection.detail == control_detail(error),
        rejection.message@ == "control transition: "@ + control_error_name(error),
{
    let (detail, name) = match error {
        ControlError::WrongKind => (CommitDetail::WrongKind, "WrongKind"),
        ControlError::UnknownCommand => (CommitDetail::Unsupported, "UnknownCommand"),
        ControlError::InvalidOperands => (CommitDetail::Malformed, "InvalidOperands"),
        ControlError::InvalidValue => (CommitDetail::Malformed, "InvalidValue"),
        ControlError::StaleEditRevision => (CommitDetail::StaleRevision, "StaleEditRevision"),
        ControlError::RevisionExhausted => (CommitDetail::Capacity, "RevisionExhausted"),
    };
    let mut message = "control transition: ".to_owned();
    message.append(name);
    UiRejection::internal(revision, detail, message)
}

/// One annotation record of a content payload's sidecar as it stands on the
/// wire.
#[derive(Clone, Copy, Debug, PartialEq, Eq, Structural)]
pub struct ContentAnnotationRecord {
    pub kind: u32,
    pub flags: u32,
    pub start_byte: u32,
    pub end_byte: u32,
    pub payload_offset: u32,
    pub payload_length: u32,
    pub aux0: u32,
    pub aux1: u32,
}

/// The little-endian 32-bit word at `at`.
pub open spec fn le_u32(b: Seq<u8>, at: int) -> int {
    b[at] + b[at + 1] * 256 + b[at + 2] * 65536 + b[at + 3] * 16777216
}

/// Bytes of one record on the wire.
pub const ANNOTATION_RECORD_BYTES: usize = 32;

/// The `i`-th record of a sidecar: eight little-endian words after the
/// four-byte count.
pub open spec fn record_at(b: Seq<u8>, i: int) -> ContentAnnotationRecord {
    let base = 4 + 32 * i;
    ContentAnnotationRecord {
        kind: le_u32(b, base) as u32,
        flags: le_u32(b, base + 4) as u32,
        start_byte: le_u32(b, base + 8) as u32,
        end_byte: le_u32(b, base + 12) as u32,
        payload_offset: le_u32(b, base + 16) as u32,
        payload_length: le_u32(b, base + 20) as u32,
        aux0: le_u32(b, base + 24) as u32,
        aux1: le_u32(b, base + 28) as u32,
    }
}

/// A record's payload range lies inside the payload.
pub open spec fn record_fits(r: ContentAnnotationRecord, payload_len: int) -> bool {
    &&& r.payload_offset + r.payload_length <= u32::MAX
    &&& r.payload_offset + r.payload_length <= payload_len
}

/// Why an annotation sidecar was refused.
#[derive(Clone, Copy, Debug, PartialEq, Eq, Structural)]
pub enum SidecarError {
    /// Fewer than four bytes, so no record count.
    Truncated,
    /// The records' size does not fit in a `usize`.
    Size,
    /// The records run past the sidecar.
    Exceed,
    /// A record's payload range leaves the payload.
    PayloadRange,
}

impl SidecarError {
    pub fn message(&self) -> (text: String)
        ensures
            *self == SidecarError::Truncated ==> text@ == "annotation sidecar header is truncated"@,
            *self == SidecarError::Size ==> text@ == "annotation sidecar size"@,
            *self == SidecarError::Exceed ==> text@ == "annotation records exceed sidecar"@,
            *self == SidecarError::PayloadRange ==> text@ == "annotation payload range"@,
    {
        match self {
            SidecarError::Truncated => "annotation sidecar header is truncated".to_owned(),
            SidecarError::Size => "annotation sidecar size".to_owned(),
            SidecarError::Exceed => "annotation records exceed sidecar".to_owned(),
            SidecarError::PayloadRange => "annotation payload range".to_owned(),
        }
    }
}

/// What a sidecar decodes to: a little-endian record count, that many
/// 32-byte records, then the payload that the records point into.
pub open spec fn decoded_sidecar(b: Seq<u8>) -> Result<(Seq<ContentAnnotationRecord>, Seq<u8>), SidecarError> {
    if b.len() == 0 {
        Ok((Seq::empty(), Seq::empty()))
    } else if b.len() < 4 {
        Err(SidecarError::Truncated)
    } else {
        let count = le_u32(b, 0);
        let end = 4 + 32 * count;
        if end > usize::MAX {
            Err(SidecarError::Size)
        } else if end > b.len() {
            Err(SidecarError::Exceed)
        } else {
            let payload = b.subrange(end, b.len() as int);
            if exists|i: int| 0 <= i < count && !record_fits(#[trigger] record_at(b, i), payload.len() as int) {
                Err(SidecarError::PayloadRange)
            } else {
                Ok((Seq::new(count as nat, |i: int| record_at(b, i)), payload))
            }
        }
    }
}

fn read_u32(b: &[u8], at: usize) -> (v: u32)
    requires
        at + 4 <= b@.len(),
    ensures
        v == le_u32(b@, at as int),
{
    (b[at] as u32) + (b[at + 1] as u32) * 256 + (b[at + 2] as u32) * 65536 + (b[at + 3] as u32) * 16777216
}

/// Splits an annotation sidecar into its records and the payload they point
/// into.
pub fn decode_annotation_records(bytes: &[u8]) -> (r: Result<(Vec<ContentAnnotationRecord>, Vec<u8>), SidecarError>)
    ensures
        match decoded_sidecar(bytes@) {
            Ok((records, payload)) => (r matches Ok((v, p)) && v@ == records && p@ == payload),
            Err(e) => r == Err::<(Vec<ContentAnnotationRecord>, Vec<u8>), SidecarError>(e),
        },
{
    let len = bytes.len();
    if len == 0 {
        return Ok((Vec::new(), Vec::new()));
    }
    if len < 4 {
        return Err(SidecarError::Truncated);
    }
    let count = read_u32(bytes, 0) as usize;
    let record_bytes = match count.checked_mul(ANNOTATION_RECORD_BYTES) {
        Some(n) => match n.checked_add(4) {
            Some(m) => m,
            None => {
                return Err(SidecarError::Size);
            },
        },
        None => {
            return Err(SidecarError::Size);
        },
    };
    if record_bytes > len {
        return Err(SidecarError::Exceed);
    }
    let ghost b = bytes@;
    let ghost end = record_bytes as int;
    let mut payload: Vec<u8> = Vec::new();
    let mut j: usize = record_bytes;
    while j < len
        invariant
            b == bytes@,
            len == b.len(),
            record_bytes <= j <= len,
            end == record_bytes,
            payload@ == b.subrange(end, j as int),
        decreases len - j,
    {
        payload.push(bytes[j]);
        assert(payload@ =~= b.subrange(end, j as int + 1));
        j = j + 1;
    }
    let ghost p = b.subrange(end, len as int);
    let mut records: Vec<ContentAnnotationRecord> = Vec::new();
    let mut i: usize = 0;
    while i < count
        invariant
            b == bytes@,
            len == b.len(),
            count == le_u32(b, 0),
            record_bytes == 4 + 32 * count,
            record_bytes <= len,
            i <= count,
            payload@ == p,
            p == b.subrange(end, len as int),
            end == record_bytes,
            records@ == Seq::new(i as nat, |k: int| record_at(b, k)),
            forall|k: int| 0 <= k < i ==> record_fits(#[trigger] record_at(b, k), p.len() as int),
        decreases count - i,
    {
        let start = 4 + i * ANNOTATION_RECORD_BYTES;
        let record = ContentAnnotationRecord {
            kind: read_u32(bytes, start),
            flags: read_u32(bytes, start + 4),
            start_byte: read_u32(bytes, start + 8),
            end_byte: read_u32(bytes, start + 12),
            payload_offset: read_u32(bytes, start + 16),
            payload_length: read_u32(bytes, start + 20),
            aux0: read_u32(bytes, start + 24),
            aux1: read_u32(bytes, start + 28),
        };
        assert(record == record_at(b, i as int));
        let payload_end = match record.payload_offset.checked_add(record.payload_length) {
            Some(n) => n,
            None => {
                assert(!record_fits(record_at(b, i as int), p.len() as int));
                return Err(SidecarError::PayloadRange);
            },
        };
        if payload_end as usize > payload.len() {
            assert(!record_fits(record_at(b, i as int), p.len() as int));
            return Err(SidecarError::PayloadRange);
        }
        records.push(record);
        assert(records@ =~= Seq::new(i as nat + 1, |k: int| record_at(b, k)));
        i = i + 1;
    }
    assert(!exists|k: int| 0 <= k < count && !record_fits(#[trigger] record_at(b, k), p.len() as int));
    Ok((records, payload))
}

/// The decimal digit `d`.
pub open spec fn digit_char(d: nat) -> char {
    if d == 0 { '0' } else if d == 1 { '1' } else if d == 2 { '2' } else if d == 3 { '3' }
    else if d == 4 { '4' } else if d == 5 { '5' } else if d == 6 { '6' } else if d == 7 { '7' }
    else if d == 8 { '8' } else { '9' }
}

/// The decimal text of `n`, without leading zeros.
pub open spec fn decimal(n: nat) -> Seq<char>
    decreases n,
{
    if n < 10 {
        seq![digit_char(n)]
    } else {
        decimal(n / 10) + seq![digit_char(n % 10)]
    }
}

fn digit_text(d: u64) -> (t: &'static str)
    requires
        d < 10,
    ensures
        t@ == seq![digit_char(d as nat)],
{
    proof {
        reveal_strlit("0");
        reveal_strlit("1");
        reveal_strlit("2");
        reveal_strlit("3");
        reveal_strlit("4");
        reveal_strlit("5");
        reveal_strlit("6");
        reveal_strlit("7");
        reveal_strlit("8");
        reveal_strlit("9");
    }
    if d == 0 { "0" } else if d == 1 { "1" } else if d == 2 { "2" } else if d == 3 { "3" }
    else if d == 4 { "4" } else if d == 5 { "5" } else if d == 6 { "6" } else if d == 7 { "7" }
    else if d == 8 { "8" } else { "9" }
}

/// Appends the decimal text of `n`.
pub fn push_decimal(out: &mut String, n: u64)
    ensures
        final(out)@ == old(out)@ + decimal(n as nat),
    decreases n,
{
    if n >= 10 {
        push_decimal(out, n / 10);
    }
    out.append(digit_text(n % 10));
}

/// Texts joined by "; ".
pub fn join_texts(parts: &Vec<String>) -> (text: String)
    ensures
        text@ == joined(parts@.map_values(|p: String| p@), "; "@),
{
    let ghost lines = parts@.map_values(|p: String| p@);
    let mut text = String::new();
    let mut i: usize = 0;
    while i < parts.len()
        invariant
            i <= parts@.len(),
            lines == parts@.map_values(|p: String| p@),
            text@ == joined(lines.take(i as int), "; "@),
        decreases parts.len() - i,
    {
        let ghost before = text@;
        if i > 0 {
            text.append("; ");
        }
        text.append(parts[i].as_str());
        proof {
            let t = lines.take(i as int + 1);
            assert(t.drop_last() =~= lines.take(i as int));
            if i == 0 {
                assert(text@ =~= lines[0]);
            } else {
                assert(text@ =~= before + "; "@ + lines[i as int]);
            }
        }
        i = i + 1;
    }
    assert(lines.take(i as int) =~= lines);
    text
}

/// Whether a History unit still grows or has been frozen.
#[derive(Clone, Copy, Debug, PartialEq, Eq, Structural)]
pub enum HistoryUnitStatus {
    Live,
    Frozen,
}

/// The native History unit that a History root is bound to.
#[derive(Clone, Copy, Debug, PartialEq, Eq, Structural)]
pub struct HistoryUnitOwner {
    pub id: u64,
    pub flow_boundary: u32,
    pub status: HistoryUnitStatus,
}

/// Where an owner stands between creation and its final release.
#[derive(Clone, Copy, Debug, PartialEq, Eq, Structural)]
pub enum UiResourceLifecycle {
    Open,
    Closing,
    Closed,
}

/// One piece of outside work that closing an owner needs: releasing a
/// Connector's membership of its Source, or disposing a Port's private
/// Source.
#[derive(Clone, Copy, Debug, PartialEq, Eq, Structural)]
pub enum SourceRelease {
    Connector(SourceIdentity),
    Private(SourceIdentity),
}

/// One accepted change to the owner's resource maps.
#[derive(Clone, Copy, Debug, PartialEq, Eq, Structural)]
pub enum UiResourceAction {
    CreatePort { key: u64 },
    CreateConnector { key: u64, source: HostContentSource, funnel: FunnelSpec },
    ReplaceLiteral { port: u64, source: HostContentSource, funnel: FunnelSpec },
    SetLiteralFunnel { port: u64, source: HostContentSource, funnel: FunnelSpec },
    DisposeConnector { key: u64 },
    DisposePort { key: u64 },
    DisposeLiteral { port: u64 },
}

/// The resource maps of an owner, as values.
#[verifier::ext_equal]
pub struct ResourceMaps {
    pub ports: Set<u64>,
    pub connectors: Map<u64, (SourceIdentity, FunnelSpec)>,
    pub literal_sources: Map<u64, SourceIdentity>,
    pub private_sources: Map<u64, SourceIdentity>,
}

/// The identity of a Source, as a value.
pub open spec fn identity_of(source: HostContentSource) -> SourceIdentity {
    SourceIdentity {
        id: source.id,
        generation: source.generation,
        environment_slot: source.environment_slot,
        environment_generation: source.environment_generation,
    }
}

/// The maps after one action.
pub open spec fn after_action(m: ResourceMaps, action: UiResourceAction) -> ResourceMaps {
    match action {
        UiResourceAction::CreatePort { key } => ResourceMaps { ports: m.ports.insert(key), ..m },
        UiResourceAction::CreateConnector { key, source, funnel } => ResourceMaps {
            connectors: m.connectors.insert(key, (identity_of(source), funnel)),
            ..m
        },
        UiResourceAction::ReplaceLiteral { port, source, funnel } => ResourceMaps {
            ports: m.ports,
            connectors: m.connectors.insert(port, (identity_of(source), funnel)),
            literal_sources: m.literal_sources.insert(port, identity_of(source)),
            private_sources: m.private_sources.insert(port, identity_of(source)),
        },
        UiResourceAction::SetLiteralFunnel { port, source, funnel } => ResourceMaps {
            ports: m.ports,
            connectors: m.connectors.insert(port, (identity_of(source), funnel)),
            literal_sources: m.literal_sources.insert(port, identity_of(source)),
            private_sources: m.private_sources.insert(port, identity_of(source)),
        },
        UiResourceAction::DisposeConnector { key } => ResourceMaps {
            connectors: m.connectors.remove(key),
            ..m
        },
        UiResourceAction::DisposePort { key } => ResourceMaps {
            ports: m.ports.remove(key),
            connectors: m.connectors.remove(key),
            literal_sources: m.literal_sources.remove(key),
            private_sources: m.private_sources.remove(key),
        },
        UiResourceAction::DisposeLiteral { port } => ResourceMaps {
            ports: m.ports,
            connectors: m.connectors.remove(port),
            literal_sources: m.literal_sources.remove(port),
            private_sources: m.private_sources.remove(port),
        },
    }
}

/// The maps after a run of actions, applied in order.
pub open spec fn after_actions(m: ResourceMaps, actions: Seq<UiResourceAction>) -> ResourceMaps
    decreases actions.len(),
{
    if actions.len() == 0 {
        m
    } else {
        after_action(after_actions(m, actions.drop_last()), actions.last())
    }
}

/// The History bindings after a run of updates: a bound owner is installed,
/// `None` unbinds the root.
pub open spec fn after_history_updates(
    m: Map<u64, HistoryUnitOwner>,
    updates: Seq<(u64, Option<HistoryUnitOwner>)>,
) -> Map<u64, HistoryUnitOwner>
    decreases updates.len(),
{
    if updates.len() == 0 {
        m
    } else {
        let prior = after_history_updates(m, updates.drop_last());
        match updates.last().1 {
            Some(owner) => prior.insert(updates.last().0, owner),
            None => prior.remove(updates.last().0),
        }
    }
}

/// One release that failed while closing: a Connector's membership or a
/// Port's private Source, with the error it answered.
pub struct CloseFailure {
    pub connector: bool,
    pub key: u64,
    pub error: String,
}

/// The report line of one failed release.
pub open spec fn failure_message(f: CloseFailure) -> Seq<char> {
    if f.connector {
        "failed to release Source membership for Connector "@ + decimal(f.key as nat) + ": "@ + f.error@
    } else {
        "failed to dispose private Source for Port "@ + decimal(f.key as nat) + ": "@ + f.error@
    }
}

/// The report of a close that failed: one line per failed release, joined
/// by "; ".
pub open spec fn close_report(fails: Seq<CloseFailure>) -> Seq<char> {
    joined(fails.map_values(|f: CloseFailure| failure_message(f)), "; "@)
}

/// `fails` lists exactly the releases a close left undone, every Connector
/// failure before every private Source failure: each failed
/// Connector release once, for a Connector still held, and each failed
/// private Source disposal once, for a Port whose private Source is still
/// held and that holds no Connector; each with the error `release` may
/// answer for it.
#[verifier::opaque]
pub open spec fn failures_account<F: Fn(SourceRelease) -> Result<(), String>>(
    fails: Seq<CloseFailure>,
    release: F,
    before: ResourceMaps,
    after: ResourceMaps,
) -> bool {
    &&& fails.len() > 0
    &&& forall|a: int, b: int| 0 <= a < b < fails.len() && fails[a].connector == fails[b].connector
        ==> fails[a].key != fails[b].key
    &&& forall|a: int, b: int| 0 <= a < b < fails.len() && (#[trigger] fails[b]).connector
        ==> (#[trigger] fails[a]).connector
    &&& forall|a: int| 0 <= a < fails.len() && (#[trigger] fails[a]).connector ==> {
        &&& after.connectors.contains_key(fails[a].key)
        &&& release.ensures((SourceRelease::Connector(before.connectors[fails[a].key].0),), Err::<(), String>(fails[a].error))
    }
    &&& forall|a: int| 0 <= a < fails.len() && !(#[trigger] fails[a]).connector ==> {
        &&& after.private_sources.contains_key(fails[a].key)
        &&& !after.connectors.contains_key(fails[a].key)
        &&& release.ensures((SourceRelease::Private(before.private_sources[fails[a].key]),), Err::<(), String>(fails[a].error))
    }
    &&& forall|k: u64| #[trigger] after.connectors.contains_key(k) ==> exists|a: int|
        0 <= a < fails.len() && (#[trigger] fails[a]).connector && fails[a].key == k
    &&& forall|k: u64| #[trigger] after.private_sources.contains_key(k) && !after.connectors.contains_key(k)
        ==> exists|a: int| 0 <= a < fails.len() && !(#[trigger] fails[a]).connector && fails[a].key == k
}

/// What closing an owner that was not yet closed leaves, given what
/// `release` may answer: closed with nothing held when every release went,
/// otherwise still closing with exactly the failed releases held and
/// reported.
#[verifier::opaque]
pub open spec fn closed_as_released<F: Fn(SourceRelease) -> Result<(), String>>(
    release: F,
    before: ResourceMaps,
    before_history: Map<u64, HistoryUnitOwner>,
    after: ResourceMaps,
    after_history: Map<u64, HistoryUnitOwner>,
    after_state: UiResourceLifecycle,
    r: Result<(), String>,
) -> bool {
    &&& (r is Ok <==> after_state == UiResourceLifecycle::Closed)
    &&& (r is Err ==> after_state == UiResourceLifecycle::Closing)
    &&& (r is Ok ==> after == (ResourceMaps {
        ports: Set::empty(),
        connectors: Map::empty(),
        literal_sources: Map::empty(),
        private_sources: Map::empty(),
    }))
    &&& (r is Ok ==> after_history == Map::<u64, HistoryUnitOwner>::empty())
    &&& (r is Err ==> after.ports == before.ports)
    &&& (r is Err ==> after.literal_sources == before.literal_sources)
    &&& (r is Err ==> after_history == before_history)
    &&& forall|k: u64| #[trigger] after.connectors.contains_key(k) ==> {
        &&& before.connectors.contains_key(k)
        &&& after.connectors[k] == before.connectors[k]
        &&& exists|e: String| release.ensures(
            (SourceRelease::Connector(before.connectors[k].0),), Err::<(), String>(e))
    }
    &&& forall|k: u64| #[trigger] before.connectors.contains_key(k)
        && !after.connectors.contains_key(k) ==> release.ensures(
            (SourceRelease::Connector(before.connectors[k].0),), Ok::<(), String>(()))
    &&& forall|k: u64| #[trigger] after.private_sources.contains_key(k) ==> {
        &&& before.private_sources.contains_key(k)
        &&& after.private_sources[k] == before.private_sources[k]
        &&& (after.connectors.contains_key(k) || exists|e: String| release.ensures(
            (SourceRelease::Private(before.private_sources[k]),), Err::<(), String>(e)))
    }
    &&& forall|k: u64| #[trigger] before.private_sources.contains_key(k)
        && !after.private_sources.contains_key(k) ==> release.ensures(
            (SourceRelease::Private(before.private_sources[k]),), Ok::<(), String>(()))
    &&& (r is Err ==> (exists|k: u64| #[trigger] after.connectors.contains_key(k))
        || (exists|k: u64| #[trigger] after.private_sources.contains_key(k)
            && !after.connectors.contains_key(k)))
    &&& (r matches Err(e) ==> exists|fails: Seq<CloseFailure>| #[trigger] close_report(fails) == e@
        && failures_account(fails, release, before, after))
}

/// No release of a Connector's membership or of a private Source held in
/// `before` can answer an error.
pub open spec fn releases_cannot_fail<F: Fn(SourceRelease) -> Result<(), String>>(
    release: F,
    before: ResourceMaps,
) -> bool {
    &&& forall|k: u64, e: String| before.connectors.contains_key(k) ==> !#[trigger] release.ensures(
        (SourceRelease::Connector(before.connectors[k].0),), Err::<(), String>(e))
    &&& forall|k: u64, e: String| before.private_sources.contains_key(k) ==> !#[trigger] release.ensures(
        (SourceRelease::Private(before.private_sources[k]),), Err::<(), String>(e))
}

/// A close in which no release can fail succeeds.
proof fn lemma_close_ok_when_releases_succeed<F: Fn(SourceRelease) -> Result<(), String>>(
    release: F,
    before: ResourceMaps,
    before_history: Map<u64, HistoryUnitOwner>,
    after: ResourceMaps,
    after_history: Map<u64, HistoryUnitOwner>,
    after_state: UiResourceLifecycle,
    r: Result<(), String>,
)
    requires
        closed_as_released(release, before, before_history, after, after_history, after_state, r),
    ensures
        releases_cannot_fail(release, before) ==> r is Ok,
{
    reveal(closed_as_released);
    if releases_cannot_fail(release, before) && r is Err {
        if exists|k: u64| #[trigger] after.connectors.contains_key(k) {
            let k = choose|k: u64| #[trigger] after.connectors.contains_key(k);
            let e = choose|e: String| release.ensures(
                (SourceRelease::Connector(before.connectors[k].0),), Err::<(), String>(e));
            assert(before.connectors.contains_key(k));
            assert(!release.ensures((SourceRelease::Connector(before.connectors[k].0),), Err::<(), String>(e)));
        } else {
            let k = choose|k: u64| #[trigger] after.private_sources.contains_key(k)
                && !after.connectors.contains_key(k);
            let e = choose|e: String| release.ensures(
                (SourceRelease::Private(before.private_sources[k]),), Err::<(), String>(e));
            assert(before.private_sources.contains_key(k));
            assert(!release.ensures((SourceRelease::Private(before.private_sources[k]),), Err::<(), String>(e)));
        }
    }
}

/// The owner of one host's accepted UI resources.
pub struct UiResourceOwner {
    namespace: HostNamespace,
    environment: TuiEnvironment,
    ports: HashSet<u64>,
    connectors: HashMap<u64, (SourceIdentity, FunnelSpec)>,
    literal_sources: HashMap<u64, SourceIdentity>,
    private_sources: HashMap<u64, SourceIdentity>,
    history_units: HashMap<u64, HistoryUnitOwner>,
    body: UiHandle,
    lifecycle: UiResourceLifecycle,
}

impl UiResourceOwner {
    pub closed spec fn state(&self) -> UiResourceLifecycle {
        self.lifecycle
    }

    /// The handle of the UI body root.
    pub closed spec fn body(&self) -> UiHandle {
        self.body
    }

    pub closed spec fn space(&self) -> HostNamespace {
        self.namespace
    }

    pub closed spec fn env(&self) -> TuiEnvironment {
        self.environment
    }

    /// The History root bindings.
    pub closed spec fn history(&self) -> Map<u64, HistoryUnitOwner> {
        self.history_units@
    }

    /// A closed owner holds no resources and no History units.
    pub open spec fn closed_holds_nothing(&self) -> bool {
        self.state() == UiResourceLifecycle::Closed ==> {
            &&& self.maps() == (ResourceMaps {
                ports: Set::empty(),
                connectors: Map::empty(),
                literal_sources: Map::empty(),
                private_sources: Map::empty(),
            })
            &&& self.history() == Map::<u64, HistoryUnitOwner>::empty()
        }
    }

    pub closed spec fn maps(&self) -> ResourceMaps {
        ResourceMaps {
            ports: self.ports@,
            connectors: self.connectors@,
            literal_sources: self.literal_sources@,
            private_sources: self.private_sources@,
        }
    }

    /// An open owner with no resources, whose UI body root is `body`.
    pub fn new(namespace: HostNamespace, environment: TuiEnvironment, body: UiHandle) -> (owner: Self)
        ensures
            owner.space() == namespace,
            owner.env() == environment,
            owner.body() == body,
            owner.state() == UiResourceLifecycle::Open,
            owner.maps() == (ResourceMaps {
                ports: Set::empty(),
                connectors: Map::empty(),
                literal_sources: Map::empty(),
                private_sources: Map::empty(),
            }),
            owner.history() == Map::<u64, HistoryUnitOwner>::empty(),
    {
        UiResourceOwner {
            namespace,
            environment,
            ports: HashSet::new(),
            connectors: HashMap::new(),
            literal_sources: HashMap::new(),
            private_sources: HashMap::new(),
            history_units: HashMap::new(),
            body,
            lifecycle: UiResourceLifecycle::Open,
        }
    }

    /// The UI body root, while the owner is open.
    pub fn body_handle(&self) -> (r: Result<UiHandle, String>)
        ensures
            self.state() == UiResourceLifecycle::Open ==> r == Ok::<UiHandle, String>(self.body()),
            self.state() != UiResourceLifecycle::Open ==> (r matches Err(e)
                && e@ == "UI resource owner is closing or closed"@),
    {
        match self.lifecycle {
            UiResourceLifecycle::Open => Ok(self.body),
            _ => Err("UI resource owner is closing or closed".to_owned()),
        }
    }

    pub fn is_open(&self) -> (b: bool)
        ensures
            b <==> self.state() == UiResourceLifecycle::Open,
    {
        match self.lifecycle {
            UiResourceLifecycle::Open => true,
            _ => false,
        }
    }

    pub fn lifecycle(&self) -> (state: UiResourceLifecycle)
        ensures
            state == self.state(),
    {
        self.lifecycle
    }

    pub fn namespace(&self) -> (namespace: HostNamespace)
        ensures
            namespace == self.space(),
    {
        self.namespace
    }

    pub fn environment(&self) -> (environment: TuiEnvironment)
        ensures
            environment == self.env(),
    {
        self.environment
    }

    pub fn has_port(&self, key: u64) -> (found: bool)
        ensures
            found == self.maps().ports.contains(key),
    {
        self.ports.contains(&key)
    }

    /// The Source and funnel a Connector presents.
    pub fn connector(&self, key: u64) -> (entry: Option<(SourceIdentity, FunnelSpec)>)
        ensures
            entry == (if self.maps().connectors.contains_key(key) {
                Some(self.maps().connectors[key])
            } else {
                None::<(SourceIdentity, FunnelSpec)>
            }),
    {
        match self.connectors.get(&key) {
            Some(entry) => Some(*entry),
            None => None,
        }
    }

    /// The Source holding a Port's literal text.
    pub fn literal_source(&self, port: u64) -> (identity: Option<SourceIdentity>)
        ensures
            identity == (if self.maps().literal_sources.contains_key(port) {
                Some(self.maps().literal_sources[port])
            } else {
                None::<SourceIdentity>
            }),
    {
        match self.literal_sources.get(&port) {
            Some(identity) => Some(*identity),
            None => None,
        }
    }

    /// The Source a Port owns privately.
    pub fn private_source(&self, port: u64) -> (identity: Option<SourceIdentity>)
        ensures
            identity == (if self.maps().private_sources.contains_key(port) {
                Some(self.maps().private_sources[port])
            } else {
                None::<SourceIdentity>
            }),
    {
        match self.private_sources.get(&port) {
            Some(identity) => Some(*identity),
            None => None,
        }
    }

    /// The History unit bound to a History root.
    pub fn history_unit(&self, root: u64) -> (owner: Option<HistoryUnitOwner>)
        ensures
            owner == (if self.history().contains_key(root) {
                Some(self.history()[root])
            } else {
                None::<HistoryUnitOwner>
            }),
    {
        match self.history_units.get(&root) {
            Some(owner) => Some(*owner),
            None => None,
        }
    }

    /// Installs or removes History bindings, in order.
    pub fn apply_history_updates(&mut self, updates: Vec<(u64, Option<HistoryUnitOwner>)>)
        requires
            old(self).state() == UiResourceLifecycle::Open,
        ensures
            final(self).history() == after_history_updates(old(self).history(), updates@),
            final(self).maps() == old(self).maps(),
            final(self).state() == old(self).state(),
            final(self).body() == old(self).body(),
            final(self).space() == old(self).space(),
            final(self).env() == old(self).env(),
    {
        let ghost start = self.history_units@;
        let mut i: usize = 0;
        while i < updates.len()
            invariant
                i <= updates@.len(),
                self.history_units@ == after_history_updates(start, updates@.take(i as int)),
                self.maps() == old(self).maps(),
                self.state() == old(self).state(),
                self.body() == old(self).body(),
                self.space() == old(self).space(),
                self.env() == old(self).env(),
            decreases updates.len() - i,
        {
            assert(updates@.take(i as int + 1).drop_last() =~= updates@.take(i as int));
            let (root, owner) = updates[i];
            match owner {
                Some(o) => {
                    self.history_units.insert(root, o);
                },
                None => {
                    self.history_units.remove(&root);
                },
            }
            i = i + 1;
        }
        assert(updates@.take(i as int) =~= updates@);
    }

    /// Applies accepted resource actions, in order.
    pub fn apply_actions(&mut self, actions: Vec<UiResourceAction>)
        requires
            old(self).state() == UiResourceLifecycle::Open,
        ensures
            final(self).maps() == after_actions(old(self).maps(), actions@),
            final(self).history() == old(self).history(),
            final(self).state() == old(self).state(),
            final(self).body() == old(self).body(),
            final(self).space() == old(self).space(),
            final(self).env() == old(self).env(),
    {
        let ghost start = self.maps();
        let mut i: usize = 0;
        while i < actions.len()
            invariant
                i <= actions@.len(),
                self.maps() == after_actions(start, actions@.take(i as int)),
                self.history() == old(self).history(),
                self.state() == old(self).state(),
                self.body() == old(self).body(),
                self.space() == old(self).space(),
                self.env() == old(self).env(),
            decreases actions.len() - i,
        {
            assert(actions@.take(i as int + 1).drop_last() =~= actions@.take(i as int));
            let ghost before = self.maps();
            match actions[i] {
                UiResourceAction::CreatePort { key } => {
                    self.ports.insert(key);
                },
                UiResourceAction::CreateConnector { key, source, funnel } => {
                    let identity = SourceIdentity::from_source(&source);
                    self.connectors.insert(key, (identity, funnel));
                },
                UiResourceAction::ReplaceLiteral { port, source, funnel } => {
                    let identity = SourceIdentity::from_source(&source);
                    self.literal_sources.insert(port, identity);
                    self.private_sources.insert(port, identity);
                    self.connectors.insert(port, (identity, funnel));
                },
                UiResourceAction::SetLiteralFunnel { port, source, funnel } => {
                    let identity = SourceIdentity::from_source(&source);
                    self.literal_sources.insert(port, identity);
                    self.private_sources.insert(port, identity);
                    self.connectors.insert(port, (identity, funnel));
                },
                UiResourceAction::DisposeConnector { key } => {
                    self.connectors.remove(&key);
                },
                UiResourceAction::DisposePort { key } => {
                    self.connectors.remove(&key);
                    self.literal_sources.remove(&key);
                    self.private_sources.remove(&key);
                    self.ports.remove(&key);
                },
                UiResourceAction::DisposeLiteral { port } => {
                    self.connectors.remove(&port);
                    self.literal_sources.remove(&port);
                    self.private_sources.remove(&port);
                },
            }
            assert(self.maps() =~= after_action(before, actions@[i as int]));
            i = i + 1;
        }
        assert(actions@.take(i as int) =~= actions@);
    }

    /// Releases, through `release`, every Connector's Source membership and
    /// then every private Source that no remaining Connector uses; the owner
    /// closes when all of them went, and stays closing otherwise.
    #[verifier::spinoff_prover]
    #[verifier::rlimit(60)]
    pub fn close<F: Fn(SourceRelease) -> Result<(), String>>(&mut self, release: F) -> (r: Result<(), String>)
        requires
            forall|t: SourceRelease| release.requires((t,)),
        ensures
            final(self).body() == old(self).body(),
            final(self).space() == old(self).space(),
            final(self).env() == old(self).env(),
            old(self).state() == UiResourceLifecycle::Closed ==> {
                &&& r is Ok
                &&& final(self).state() == UiResourceLifecycle::Closed
                &&& final(self).maps() == old(self).maps()
                &&& final(self).history() == old(self).history()
            },
            old(self).state() != UiResourceLifecycle::Closed ==> closed_as_released(release, old(self).maps(),
                old(self).history(), final(self).maps(), final(self).history(), final(self).state(), r),
            old(self).state() != UiResourceLifecycle::Closed && releases_cannot_fail(release, old(self).maps())
                ==> r is Ok && final(self).state() == UiResourceLifecycle::Closed,
            final(self).state() != UiResourceLifecycle::Open,
            old(self).state() != UiResourceLifecycle::Closed ==> final(self).closed_holds_nothing(),
            old(self).closed_holds_nothing() ==> final(self).closed_holds_nothing(),
    {
        if self.lifecycle == UiResourceLifecycle::Closed {
            return Ok(());
        }
        self.lifecycle = UiResourceLifecycle::Closing;
        let ghost c0 = self.connectors@;
        let ghost p0 = self.private_sources@;
        let keys = map_keys(&self.connectors);
        let mut errors: Vec<String> = Vec::new();
        let ghost mut fails: Seq<CloseFailure> = Seq::empty();
        assert forall|j: int| 0 <= j < keys@.len() implies self.connectors@.contains_key(#[trigger] keys@[j]) by {
            assert(keys@.contains(keys@[j]));
        }
        let mut i: usize = 0;
        while i < keys.len()
            invariant
                forall|t: SourceRelease| release.requires((t,)),
                keys@.no_duplicates(),
                forall|k: u64| #[trigger] keys@.contains(k) <==> c0.contains_key(k),
                i <= keys@.len(),
                self.lifecycle == UiResourceLifecycle::Closing,
                self.ports@ == old(self).maps().ports,
                self.literal_sources@ == old(self).maps().literal_sources,
                self.private_sources@ == p0,
                self.history_units@ == old(self).history(),
                self.body == old(self).body(),
                self.namespace == old(self).space(),
                self.environment == old(self).env(),
                c0 == old(self).maps().connectors,
                p0 == old(self).maps().private_sources,
                forall|k: u64| #[trigger] self.connectors@.contains_key(k) ==> c0.contains_key(k)
                    && self.connectors@[k] == c0[k],
                forall|j: int| i <= j < keys@.len() ==> self.connectors@.contains_key(#[trigger] keys@[j]),
                forall|k: u64| #[trigger] c0.contains_key(k) && !self.connectors@.contains_key(k)
                    ==> release.ensures((SourceRelease::Connector(c0[k].0),), Ok::<(), String>(())),
                forall|j: int| 0 <= j < i && self.connectors@.contains_key(#[trigger] keys@[j])
                    ==> exists|e: String| release.ensures((SourceRelease::Connector(c0[keys@[j]].0),), Err::<(), String>(e)),
                errors@.len() == 0 ==> forall|j: int| 0 <= j < i ==> !self.connectors@.contains_key(#[trigger] keys@[j]),
                errors@.len() == fails.len(),
                forall|a: int| 0 <= a < fails.len() ==> #[trigger] errors@[a]@ == failure_message(fails[a]),
                forall|a: int| 0 <= a < fails.len() ==> {
                    &&& (#[trigger] fails[a]).connector
                    &&& self.connectors@.contains_key(fails[a].key)
                    &&& release.ensures((SourceRelease::Connector(c0[fails[a].key].0),), Err::<(), String>(fails[a].error))
                    &&& exists|j: int| 0 <= j < i && keys@[j] == fails[a].key
                },
                forall|j: int| 0 <= j < i && self.connectors@.contains_key(#[trigger] keys@[j])
                    ==> exists|a: int| 0 <= a < fails.len() && (#[trigger] fails[a]).key == keys@[j],
                forall|a: int, b: int| 0 <= a < b < fails.len() ==> fails[a].key != fails[b].key,
            decreases keys.len() - i,
        {
            let key = keys[i];
            let identity = match self.connectors.get(&key) {
                Some(entry) => entry.0,
                None => {
                    i = i + 1;
                    continue;
                },
            };
            let outcome = release(SourceRelease::Connector(identity));
            assert(identity == c0[key].0);
            assert(release.ensures((SourceRelease::Connector(identity),), outcome));
            let ghost answered = outcome;
            match outcome {
                Ok(()) => {
                    let ghost before = self.connectors@;
                    self.connectors.remove(&key);
                    proof {
                        assert forall|k: u64| #[trigger] c0.contains_key(k) && !self.connectors@.contains_key(k)
                            implies release.ensures((SourceRelease::Connector(c0[k].0),), Ok::<(), String>(())) by {
                            if k != key {
                                assert(!before.contains_key(k));
                            } else {
                                assert(answered is Ok);
                                assert(answered->Ok_0 == ());
                                assert(answered == Ok::<(), String>(()));
                            }
                        }
                    }
                    proof {
                        assert forall|j: int| i < j < keys@.len() implies self.connectors@.contains_key(#[trigger] keys@[j]) by {
                            assert(keys@[j] != key);
                        }
                        assert forall|a: int| 0 <= a < fails.len() implies self.connectors@.contains_key(
                            (#[trigger] fails[a]).key) by {
                            let j = choose|j: int| 0 <= j < i && keys@[j] == fails[a].key;
                            assert(keys@[j] != keys@[i as int]);
                            assert(before.contains_key(fails[a].key));
                        }
                        assert forall|j: int| 0 <= j < i + 1 && self.connectors@.contains_key(#[trigger] keys@[j])
                            implies exists|a: int| 0 <= a < fails.len() && (#[trigger] fails[a]).key == keys@[j] by {
                            assert(before.contains_key(keys@[j]));
                        }
                    }
                },
                Err(error) => {
                    let mut message = "failed to release Source membership for Connector ".to_owned();
                    push_decimal(&mut message, key);
                    message.append(": ");
                    message.append(error.as_str());
                    let ghost f = CloseFailure { connector: true, key, error };
                    proof {
                        assert(answered == Err::<(), String>(error));
                        assert(message@ =~= failure_message(f));
                        assert forall|a: int| 0 <= a < fails.len() implies fails[a].key != key by {
                            let j = choose|j: int| 0 <= j < i && keys@[j] == fails[a].key;
                            assert(keys@[j] != keys@[i as int]);
                        }
                        let prior = fails;
                        fails = fails.push(f);
                        assert forall|j: int| 0 <= j < i + 1 && self.connectors@.contains_key(#[trigger] keys@[j])
                            implies exists|a: int| 0 <= a < fails.len() && (#[trigger] fails[a]).key == keys@[j] by {
                            if j < i {
                                let a = choose|a: int| 0 <= a < prior.len() && (#[trigger] prior[a]).key == keys@[j];
                                assert(fails[a] == prior[a]);
                            } else {
                                assert(fails[prior.len() as int].key == keys@[j]);
                            }
                        }
                        assert forall|a: int| 0 <= a < fails.len() implies exists|j: int| 0 <= j < i + 1 && keys@[j] == (#[trigger] fails[a]).key by {
                            if a < prior.len() {
                                assert(fails[a] == prior[a]);
                                let j = choose|j: int| 0 <= j < i && keys@[j] == prior[a].key;
                                assert(0 <= j < i + 1 && keys@[j] == fails[a].key);
                            } else {
                                assert(keys@[i as int] == fails[a].key);
                            }
                        }
                    }
                    errors.push(message);
                },
            }
            i = i + 1;
        }
        let ghost c1 = self.connectors@;
        assert forall|k: u64| #[trigger] c1.contains_key(k) implies exists|e: String| release.ensures(
            (SourceRelease::Connector(c0[k].0),), Err::<(), String>(e)) by {
            assert(keys@.contains(k));
            let j = choose|j: int| 0 <= j < keys@.len() && keys@[j] == k;
            assert(self.connectors@.contains_key(keys@[j]));
        }
        assert(errors@.len() == 0 ==> c1 =~= Map::<u64, (SourceIdentity, FunnelSpec)>::empty()) by {
            if errors@.len() == 0 {
                assert forall|k: u64| !c1.contains_key(k) by {
                    if c1.contains_key(k) {
                        assert(keys@.contains(k));
                        let j = choose|j: int| 0 <= j < keys@.len() && keys@[j] == k;
                        assert(!self.connectors@.contains_key(keys@[j]));
                    }
                }
            }
        }
        let ghost errors1 = errors@.len();
        assert forall|k: u64| #[trigger] c1.contains_key(k) implies exists|a: int|
            0 <= a < fails.len() && (#[trigger] fails[a]).connector && fails[a].key == k by {
            assert(keys@.contains(k));
            let j = choose|j: int| 0 <= j < keys@.len() && keys@[j] == k;
            assert(self.connectors@.contains_key(keys@[j]));
            let a = choose|a: int| 0 <= a < fails.len() && (#[trigger] fails[a]).key == keys@[j];
            assert(fails[a].connector);
        }
        let ports = map_keys(&self.private_sources);
        assert forall|j: int| 0 <= j < ports@.len() implies self.private_sources@.contains_key(#[trigger] ports@[j]) by {
            assert(ports@.contains(ports@[j]));
        }
        let mut i: usize = 0;
        while i < ports.len()
            invariant
                forall|t: SourceRelease| release.requires((t,)),
                ports@.no_duplicates(),
                forall|k: u64| #[trigger] ports@.contains(k) <==> p0.contains_key(k),
                i <= ports@.len(),
                self.lifecycle == UiResourceLifecycle::Closing,
                self.ports@ == old(self).maps().ports,
                self.literal_sources@ == old(self).maps().literal_sources,
                self.connectors@ == c1,
                self.history_units@ == old(self).history(),
                self.body == old(self).body(),
                self.namespace == old(self).space(),
                self.environment == old(self).env(),
                errors1 == 0 ==> c1 == Map::<u64, (SourceIdentity, FunnelSpec)>::empty(),
                errors@.len() >= errors1,
                forall|k: u64| #[trigger] self.private_sources@.contains_key(k) ==> p0.contains_key(k)
                    && self.private_sources@[k] == p0[k],
                forall|j: int| i <= j < ports@.len() ==> self.private_sources@.contains_key(#[trigger] ports@[j]),
                forall|k: u64| #[trigger] p0.contains_key(k) && !self.private_sources@.contains_key(k)
                    ==> release.ensures((SourceRelease::Private(p0[k]),), Ok::<(), String>(())),
                forall|j: int| 0 <= j < i && self.private_sources@.contains_key(#[trigger] ports@[j])
                    ==> c1.contains_key(ports@[j]) || exists|e: String| release.ensures(
                        (SourceRelease::Private(p0[ports@[j]]),), Err::<(), String>(e)),
                errors@.len() == 0 ==> forall|j: int| 0 <= j < i ==> !self.private_sources@.contains_key(#[trigger] ports@[j]),
                errors@.len() == fails.len(),
                forall|a: int| 0 <= a < fails.len() ==> #[trigger] errors@[a]@ == failure_message(fails[a]),
                forall|a: int| 0 <= a < fails.len() && (#[trigger] fails[a]).connector ==> {
                    &&& c1.contains_key(fails[a].key)
                    &&& release.ensures((SourceRelease::Connector(c0[fails[a].key].0),), Err::<(), String>(fails[a].error))
                },
                forall|a: int| 0 <= a < fails.len() && !(#[trigger] fails[a]).connector ==> {
                    &&& self.private_sources@.contains_key(fails[a].key)
                    &&& !c1.contains_key(fails[a].key)
                    &&& release.ensures((SourceRelease::Private(p0[fails[a].key]),), Err::<(), String>(fails[a].error))
                    &&& exists|j: int| 0 <= j < i && ports@[j] == fails[a].key
                },
                forall|k: u64| #[trigger] c1.contains_key(k) ==> exists|a: int|
                    0 <= a < fails.len() && (#[trigger] fails[a]).connector && fails[a].key == k,
                forall|j: int| 0 <= j < i && self.private_sources@.contains_key(#[trigger] ports@[j]) && !c1.contains_key(ports@[j])
                    ==> exists|a: int| 0 <= a < fails.len() && !(#[trigger] fails[a]).connector && fails[a].key == ports@[j],
                forall|a: int, b: int| 0 <= a < b < fails.len() && fails[a].connector == fails[b].connector
                    ==> fails[a].key != fails[b].key,
                forall|a: int, b: int| 0 <= a < b < fails.len() && (#[trigger] fails[b]).connector
                    ==> (#[trigger] fails[a]).connector,
            decreases ports.len() - i,
        {
            let port = ports[i];
            if self.connectors.contains_key(&port) {
                i = i + 1;
                continue;
            }
            let identity = match self.private_sources.get(&port) {
                Some(identity) => *identity,
                None => {
                    i = i + 1;
                    continue;
                },
            };
            let outcome = release(SourceRelease::Private(identity));
            assert(identity == p0[port]);
            assert(release.ensures((SourceRelease::Private(identity),), outcome));
            let ghost answered = outcome;
            match outcome {
                Ok(()) => {
                    let ghost before = self.private_sources@;
                    self.private_sources.remove(&port);
                    proof {
                        assert forall|k: u64| #[trigger] p0.contains_key(k) && !self.private_sources@.contains_key(k)
                            implies release.ensures((SourceRelease::Private(p0[k]),), Ok::<(), String>(())) by {
                            if k != port {
                                assert(!before.contains_key(k));
                            } else {
                                assert(answered is Ok);
                                assert(answered->Ok_0 == ());
                                assert(answered == Ok::<(), String>(()));
                            }
                        }
                    }
                    proof {
                        assert forall|j: int| i < j < ports@.len() implies self.private_sources@.contains_key(#[trigger] ports@[j]) by {
                            assert(ports@[j] != port);
                        }
                        assert forall|a: int| 0 <= a < fails.len() && !(#[trigger] fails[a]).connector
                            implies self.private_sources@.contains_key(fails[a].key) by {
                            let j = choose|j: int| 0 <= j < i && ports@[j] == fails[a].key;
                            assert(ports@[j] != ports@[i as int]);
                            assert(before.contains_key(fails[a].key));
                        }
                        assert forall|j: int| 0 <= j < i + 1 && self.private_sources@.contains_key(#[trigger] ports@[j])
                            && !c1.contains_key(ports@[j]) implies exists|a: int| 0 <= a < fails.len()
                            && !(#[trigger] fails[a]).connector && fails[a].key == ports@[j] by {
                            assert(before.contains_key(ports@[j]));
                        }
                    }
                },
                Err(error) => {
                    let mut message = "failed to dispose private Source for Port ".to_owned();
                    push_decimal(&mut message, port);
                    message.append(": ");
                    message.append(error.as_str());
                    let ghost f = CloseFailure { connector: false, key: port, error };
                    proof {
                        assert(answered == Err::<(), String>(error));
                        assert(message@ =~= failure_message(f));
                        let prior = fails;
                        assert forall|a: int| 0 <= a < prior.len() && !prior[a].connector implies prior[a].key != port by {
                            let j = choose|j: int| 0 <= j < i && ports@[j] == prior[a].key;
                            assert(ports@[j] != ports@[i as int]);
                        }
                        fails = fails.push(f);
                        assert forall|j: int| 0 <= j < i + 1 && self.private_sources@.contains_key(#[trigger] ports@[j])
                            && !c1.contains_key(ports@[j]) implies exists|a: int| 0 <= a < fails.len()
                            && !(#[trigger] fails[a]).connector && fails[a].key == ports@[j] by {
                            if j < i {
                                let a = choose|a: int| 0 <= a < prior.len() && !(#[trigger] prior[a]).connector && prior[a].key == ports@[j];
                                assert(fails[a] == prior[a]);
                            } else {
                                assert(fails[prior.len() as int].key == ports@[j]);
                            }
                        }
                        assert forall|k: u64| #[trigger] c1.contains_key(k) implies exists|a: int|
                            0 <= a < fails.len() && (#[trigger] fails[a]).connector && fails[a].key == k by {
                            let a = choose|a: int| 0 <= a < prior.len() && (#[trigger] prior[a]).connector && prior[a].key == k;
                            assert(fails[a] == prior[a]);
                        }
                        assert forall|a: int| 0 <= a < fails.len() && !(#[trigger] fails[a]).connector
                            implies exists|j: int| 0 <= j < i + 1 && ports@[j] == fails[a].key by {
                            if a < prior.len() {
                                assert(fails[a] == prior[a]);
                                let j = choose|j: int| 0 <= j < i && ports@[j] == prior[a].key;
                                assert(0 <= j < i + 1 && ports@[j] == fails[a].key);
                            } else {
                                assert(ports@[i as int] == fails[a].key);
                            }
                        }
                    }
                    errors.push(message);
                },
            }
            i = i + 1;
        }
        assert forall|k: u64| #[trigger] self.private_sources@.contains_key(k) implies (c1.contains_key(k)
            || exists|e: String| release.ensures((SourceRelease::Private(p0[k]),), Err::<(), String>(e))) by {
            assert(ports@.contains(k));
            let j = choose|j: int| 0 <= j < ports@.len() && ports@[j] == k;
            assert(self.private_sources@.contains_key(ports@[j]));
        }
        if errors.len() == 0 {
            proof {
                assert forall|k: u64| #[trigger] p0.contains_key(k) implies release.ensures(
                    (SourceRelease::Private(p0[k]),), Ok::<(), String>(())) by {
                    assert(ports@.contains(k));
                    let j = choose|j: int| 0 <= j < ports@.len() && ports@[j] == k;
                    assert(!self.private_sources@.contains_key(ports@[j]));
                }
            }
            self.connectors.clear();
            self.literal_sources.clear();
            self.private_sources.clear();
            self.ports.clear();
            self.history_units.clear();
            self.lifecycle = UiResourceLifecycle::Closed;
            proof {
                assert(self.maps() =~= (ResourceMaps {
                    ports: Set::empty(),
                    connectors: Map::empty(),
                    literal_sources: Map::empty(),
                    private_sources: Map::empty(),
                }));
            }
            proof {
                assert(closed_as_released(release, old(self).maps(), old(self).history(), self.maps(), self.history(),
                    self.state(), Ok::<(), String>(()))) by {
                    reveal(closed_as_released);
                }
            }
            Ok(())
        } else {
            let text = join_texts(&errors);
            proof {
                assert(errors@.map_values(|p: String| p@) =~= fails.map_values(|f: CloseFailure| failure_message(f)));
                assert(close_report(fails) == text@);
                assert forall|k: u64| #[trigger] self.private_sources@.contains_key(k) && !self.connectors@.contains_key(k)
                    implies exists|a: int| 0 <= a < fails.len() && !(#[trigger] fails[a]).connector && fails[a].key == k by {
                    assert(ports@.contains(k));
                    let j = choose|j: int| 0 <= j < ports@.len() && ports@[j] == k;
                    assert(self.private_sources@.contains_key(ports@[j]));
                }
                assert(fails.len() > 0);
                assert(failures_account(fails, release, old(self).maps(), self.maps())) by {
                    reveal(failures_account);
                }
                assert(exists|fs: Seq<CloseFailure>| #[trigger] close_report(fs) == text@
                    && failures_account(fs, release, old(self).maps(), self.maps()));
                assert(closed_as_released(release, old(self).maps(), old(self).history(), self.maps(), self.history(),
                    self.state(), Err::<(), String>(text))) by {
                    reveal(closed_as_released);
                    let before = old(self).maps();
                    let after = self.maps();
                    assert(forall|k: u64| #[trigger] after.connectors.contains_key(k) ==> {
                        &&& before.connectors.contains_key(k)
                        &&& after.connectors[k] == before.connectors[k]
                        &&& exists|e: String| release.ensures(
                            (SourceRelease::Connector(before.connectors[k].0),), Err::<(), String>(e))
                    });
                    assert(forall|k: u64| #[trigger] before.connectors.contains_key(k)
                        && !after.connectors.contains_key(k) ==> release.ensures(
                            (SourceRelease::Connector(before.connectors[k].0),), Ok::<(), String>(())));
                    assert(forall|k: u64| #[trigger] after.private_sources.contains_key(k) ==> {
                        &&& before.private_sources.contains_key(k)
                        &&& after.private_sources[k] == before.private_sources[k]
                        &&& (after.connectors.contains_key(k) || exists|e: String| release.ensures(
                            (SourceRelease::Private(before.private_sources[k]),), Err::<(), String>(e)))
                    });
                    assert(forall|k: u64| #[trigger] before.private_sources.contains_key(k)
                        && !after.private_sources.contains_key(k) ==> release.ensures(
                            (SourceRelease::Private(before.private_sources[k]),), Ok::<(), String>(())));
                    if fails[0].connector {
                        assert(after.connectors.contains_key(fails[0].key));
                    } else {
                        assert(after.private_sources.contains_key(fails[0].key));
                        assert(!after.connectors.contains_key(fails[0].key));
                    }
                    assert((exists|k: u64| #[trigger] after.connectors.contains_key(k))
                        || (exists|k: u64| #[trigger] after.private_sources.contains_key(k)
                            && !after.connectors.contains_key(k)));
                    assert(after.ports == before.ports);
                    assert(after.literal_sources == before.literal_sources);
                }
                if fails[0].connector {
                    assert(self.connectors@.contains_key(fails[0].key));
                } else {
                    assert(self.private_sources@.contains_key(fails[0].key));
                }
                lemma_close_ok_when_releases_succeed(release, old(self).maps(), old(self).history(), self.maps(),
                    self.history(), self.state(), Err::<(), String>(text));
            }
            Err(text)
        }
    }
}

/// The accepted configuration of a History root: its flow boundary and the
/// native unit identity it names, if any.
#[derive(Clone, Copy, Debug, PartialEq, Eq, Structural)]
pub struct HistoryRootConfig {
    pub flow_boundary: u32,
    pub unit_identity: Option<u64>,
}

/// What a prepared UI commit says of one History root: its requested
/// History action (1 freezes, 2 discards), whether its final content holds a
/// live control, whether the commit adds the root, whether the commit
/// supplies the root's unit identity, and the root's configuration.
#[derive(Clone, Copy, Debug, PartialEq, Eq, Structural)]
pub struct HistoryRootSummary {
    pub root: u64,
    pub action: Option<u32>,
    pub has_live_control: bool,
    pub added: bool,
    pub identity_supplied: bool,
    pub config: Option<HistoryRootConfig>,
}

/// Some accepted History binding already owns unit `id`.
pub open spec fn owns_unit(history: Map<u64, HistoryUnitOwner>, id: u64) -> bool {
    exists|k: u64| #[trigger] history.contains_key(k) && history[k].id == id
}

/// One History root's update, given the accepted bindings, the identities
/// supplied by earlier roots of the commit, and the roots the commit
/// retires: the binding to install (none for a discard, which the
/// retirement removes), or the reason for refusing the commit.
pub open spec fn history_root_update(
    history: Map<u64, HistoryUnitOwner>,
    supplied: Set<u64>,
    s: HistoryRootSummary,
    retired: Seq<u64>,
    existing: Map<u64, bool>,
) -> Result<Option<(u64, Option<HistoryUnitOwner>)>, Seq<char>> {
    match s.config {
        None => Err("History root config is missing"@),
        Some(c) => {
            let fresh = !history.contains_key(s.root);
            let id = c.unit_identity->0;
            if fresh && !s.added {
                Err("History root has no accepted native unit identity"@)
            } else if fresh && s.identity_supplied && id == 0 {
                Err("History unit identity is invalid"@)
            } else if fresh && s.identity_supplied && (supplied.contains(id) || owns_unit(history, id)) {
                Err("History unit identity is already owned by this UI document"@)
            } else if fresh && s.identity_supplied && s.action == Some(2u32) {
                Err("History discard requires an accepted live tail root"@)
            } else if fresh && s.identity_supplied && !(existing.contains_key(id) && existing[id] == (s.action is None)) {
                Err("History identity must adapt a same-host unit with matching status"@)
            } else if !fresh && (c.flow_boundary != history[s.root].flow_boundary
                || (c.unit_identity is Some && id != history[s.root].id)) {
                Err("History root config does not match its accepted native unit"@)
            } else if !fresh {
                let owner = history[s.root];
                if owner.status == HistoryUnitStatus::Frozen && (s.action is None || s.action == Some(1u32)) {
                    Err("a frozen History unit cannot change"@)
                } else if owner.status == HistoryUnitStatus::Live && s.action == Some(1u32) {
                    if s.has_live_control {
                        Err("History freeze final content cannot contain a live control"@)
                    } else {
                        Ok(Some((s.root, Some(HistoryUnitOwner { status: HistoryUnitStatus::Frozen, ..owner }))))
                    }
                } else if owner.status == HistoryUnitStatus::Live && s.action is None {
                    Ok(Some((s.root, Some(owner))))
                } else if owner.status == HistoryUnitStatus::Live && s.action == Some(2u32) {
                    if !retired.contains(s.root) {
                        Err("History discard must retire its live tail root"@)
                    } else {
                        Ok(None)
                    }
                } else if owner.status == HistoryUnitStatus::Frozen && s.action == Some(2u32) {
                    Err("History discard requires a live tail root"@)
                } else {
                    Err("History action is invalid"@)
                }
            } else if s.action == Some(2u32) {
                Err("History discard requires an accepted live tail root"@)
            } else if s.action == Some(1u32) && s.has_live_control {
                Err("History freeze final content cannot contain a live control"@)
            } else {
                Ok(Some((s.root, Some(HistoryUnitOwner {
                    id,
                    flow_boundary: c.flow_boundary,
                    status: if s.action == Some(1u32) { HistoryUnitStatus::Frozen } else { HistoryUnitStatus::Live },
                }))))
            }
        },
    }
}

/// The identities a root supplies that later roots may not supply again.
pub open spec fn supplied_after(history: Map<u64, HistoryUnitOwner>, supplied: Set<u64>, s: HistoryRootSummary) -> Set<u64> {
    match s.config {
        Some(c) => if !history.contains_key(s.root) && s.added && s.identity_supplied {
            supplied.insert(c.unit_identity->0)
        } else {
            supplied
        },
        None => supplied,
    }
}

/// The updates of a run of History roots, in order, with the identities
/// they supplied; the first refusal wins.
pub open spec fn history_root_updates(
    history: Map<u64, HistoryUnitOwner>,
    summaries: Seq<HistoryRootSummary>,
    retired: Seq<u64>,
    existing: Map<u64, bool>,
) -> Result<(Seq<(u64, Option<HistoryUnitOwner>)>, Set<u64>), Seq<char>>
    decreases summaries.len(),
{
    if summaries.len() == 0 {
        Ok((Seq::empty(), Set::empty()))
    } else {
        match history_root_updates(history, summaries.drop_last(), retired, existing) {
            Err(m) => Err(m),
            Ok((updates, supplied)) => match history_root_update(history, supplied, summaries.last(), retired, existing) {
                Err(m) => Err(m),
                Ok(step) => Ok((
                    match step {
                        Some(u) => updates.push(u),
                        None => updates,
                    },
                    supplied_after(history, supplied, summaries.last()),
                )),
            },
        }
    }
}

/// The unbindings of retired roots: a retired root that holds a binding must
/// be the live tail of History.
pub open spec fn retirement_updates(
    history: Map<u64, HistoryUnitOwner>,
    retired: Seq<u64>,
    tail: Option<u64>,
) -> Result<Seq<(u64, Option<HistoryUnitOwner>)>, Seq<char>>
    decreases retired.len(),
{
    if retired.len() == 0 {
        Ok(Seq::empty())
    } else {
        match retirement_updates(history, retired.drop_last(), tail) {
            Err(m) => Err(m),
            Ok(updates) => {
                let root = retired.last();
                if !history.contains_key(root) {
                    Ok(updates)
                } else if history[root].status != HistoryUnitStatus::Live || tail != Some(root) {
                    Err("RetireRoot cannot bypass History live-tail restrictions"@)
                } else {
                    Ok(updates.push((root, None::<HistoryUnitOwner>)))
                }
            },
        }
    }
}

/// The History binding updates of a commit: the roots' updates, then the
/// retirements'.
pub open spec fn history_plan(
    history: Map<u64, HistoryUnitOwner>,
    summaries: Seq<HistoryRootSummary>,
    retired: Seq<u64>,
    tail: Option<u64>,
    existing: Map<u64, bool>,
) -> Result<Seq<(u64, Option<HistoryUnitOwner>)>, Seq<char>> {
    match history_root_updates(history, summaries, retired, existing) {
        Err(m) => Err(m),
        Ok((updates, _)) => match retirement_updates(history, retired, tail) {
            Err(m) => Err(m),
            Ok(unbinds) => Ok(updates + unbinds),
        },
    }
}

/// The summaries hold what commit preparation guarantees: a supplied unit
/// identity is present with a known History action, and an allocated one is
/// present and non-zero.
pub open spec fn summaries_prepared(history: Map<u64, HistoryUnitOwner>, summaries: Seq<HistoryRootSummary>) -> bool {
    forall|i: int| 0 <= i < summaries.len() && (#[trigger] summaries[i]).config is Some
        && !history.contains_key(summaries[i].root) && summaries[i].added ==> {
        &&& summaries[i].config->0.unit_identity is Some
        &&& summaries[i].identity_supplied ==> (summaries[i].action is None || summaries[i].action == Some(1u32)
            || summaries[i].action == Some(2u32))
        &&& !summaries[i].identity_supplied ==> summaries[i].config->0.unit_identity->0 != 0
    }
}

/// Once a prefix of the roots is refused, the whole run is refused alike.
proof fn lemma_root_refusal_sticks(
    history: Map<u64, HistoryUnitOwner>,
    summaries: Seq<HistoryRootSummary>,
    i: int,
    retired: Seq<u64>,
    existing: Map<u64, bool>,
)
    requires
        0 <= i <= summaries.len(),
        history_root_updates(history, summaries.take(i), retired, existing) is Err,
    ensures
        history_root_updates(history, summaries, retired, existing) == history_root_updates(
            history,
            summaries.take(i),
            retired,
            existing,
        ),
    decreases summaries.len(),
{
    if i == summaries.len() {
        assert(summaries.take(i) =~= summaries);
    } else {
        assert(summaries.drop_last().take(i) =~= summaries.take(i));
        lemma_root_refusal_sticks(history, summaries.drop_last(), i, retired, existing);
    }
}

/// Once a prefix of the retirements is refused, all of them are refused
/// alike.
proof fn lemma_retire_refusal_sticks(history: Map<u64, HistoryUnitOwner>, retired: Seq<u64>, i: int, tail: Option<u64>)
    requires
        0 <= i <= retired.len(),
        retirement_updates(history, retired.take(i), tail) is Err,
    ensures
        retirement_updates(history, retired, tail) == retirement_updates(history, retired.take(i), tail),
    decreases retired.len(),
{
    if i == retired.len() {
        assert(retired.take(i) =~= retired);
    } else {
        assert(retired.drop_last().take(i) =~= retired.take(i));
        lemma_retire_refusal_sticks(history, retired.drop_last(), i, tail);
    }
}

fn contains_key_u64(keys: &Vec<u64>, key: u64) -> (found: bool)
    ensures
        found == keys@.contains(key),
{
    let mut i: usize = 0;
    while i < keys.len()
        invariant
            i <= keys@.len(),
            forall|j: int| 0 <= j < i ==> keys@[j] != key,
        decreases keys.len() - i,
    {
        if keys[i] == key {
            return true;
        }
        i = i + 1;
    }
    false
}

/// The refusal of a commit whose History roots break the History rules.
fn history_rejection(revision: u64, message: &str) -> (rejection: UiRejection)
    ensures
        rejection.revision == revision,
        rejection.detail == CommitDetail::InvalidTopology,
        rejection.message@ == message@,
{
    UiRejection::internal(revision, CommitDetail::InvalidTopology, message.to_owned())
}

impl UiResourceOwner {
    /// Whether some accepted History binding owns unit `id`.
    fn owns_unit_id(&self, id: u64) -> (owned: bool)
        ensures
            owned == owns_unit(self.history(), id),
    {
        let roots = map_keys(&self.history_units);
        let mut i: usize = 0;
        while i < roots.len()
            invariant
                i <= roots@.len(),
                forall|k: u64| #[trigger] roots@.contains(k) <==> self.history_units@.contains_key(k),
                forall|j: int| 0 <= j < i ==> self.history_units@[#[trigger] roots@[j]].id != id,
            decreases roots.len() - i,
        {
            assert(roots@.contains(roots@[i as int]));
            match self.history_units.get(&roots[i]) {
                Some(owner) => {
                    if owner.id == id {
                        return true;
                    }
                },
                None => {},
            }
            i = i + 1;
        }
        proof {
            if owns_unit(self.history(), id) {
                let k = choose|k: u64| #[trigger] self.history().contains_key(k) && self.history()[k].id == id;
                assert(roots@.contains(k));
                let j = choose|j: int| 0 <= j < roots@.len() && roots@[j] == k;
                assert(self.history_units@[roots@[j]].id != id);
            }
        }
        false
    }

    /// One History root's update; see `history_root_update`.
    fn history_root_update_of(
        &self,
        s: &HistoryRootSummary,
        supplied: &HashSet<u64>,
        retired: &Vec<u64>,
        existing: &HashMap<u64, bool>,
        revision: u64,
    ) -> (r: Result<Option<(u64, Option<HistoryUnitOwner>)>, UiRejection>)
        requires
            s.config is Some && !self.history().contains_key(s.root) && s.added ==> {
                &&& s.config->0.unit_identity is Some
                &&& s.identity_supplied ==> (s.action is None || s.action == Some(1u32) || s.action == Some(2u32))
                &&& !s.identity_supplied ==> s.config->0.unit_identity->0 != 0
            },
        ensures
            match history_root_update(self.history(), supplied@, *s, retired@, existing@) {
                Ok(step) => r == Ok::<Option<(u64, Option<HistoryUnitOwner>)>, UiRejection>(step),
                Err(m) => (r matches Err(e) && e.revision == revision && e.detail == CommitDetail::InvalidTopology
                    && e.message@ == m),
            },
    {
        let c = match s.config {
            Some(c) => c,
            None => {
                return Err(history_rejection(revision, "History root config is missing"));
            },
        };
        let current = match self.history_units.get(&s.root) {
            Some(owner) => Some(*owner),
            None => None,
        };
        let fresh = current.is_none();
        if fresh && !s.added {
            return Err(history_rejection(revision, "History root has no accepted native unit identity"));
        }
        if fresh && s.identity_supplied {
            let id = match c.unit_identity {
                Some(id) => id,
                None => 0,
            };
            if id == 0 {
                return Err(history_rejection(revision, "History unit identity is invalid"));
            }
            if supplied.contains(&id) || self.owns_unit_id(id) {
                return Err(history_rejection(revision, "History unit identity is already owned by this UI document"));
            }
            let expected_live = match s.action {
                None => true,
                Some(action) => {
                    if action == 2 {
                        return Err(history_rejection(revision, "History discard requires an accepted live tail root"));
                    }
                    false
                },
            };
            let matches = match existing.get(&id) {
                Some(live) => *live == expected_live,
                None => false,
            };
            if !matches {
                return Err(history_rejection(
                    revision,
                    "History identity must adapt a same-host unit with matching status",
                ));
            }
        }
        match current {
            Some(owner) => {
                let mismatched = match c.unit_identity {
                    Some(id) => id != owner.id,
                    None => false,
                };
                if c.flow_boundary != owner.flow_boundary || mismatched {
                    return Err(history_rejection(revision, "History root config does not match its accepted native unit"));
                }
                match (owner.status, s.action) {
                    (HistoryUnitStatus::Frozen, None) => Err(history_rejection(revision, "a frozen History unit cannot change")),
                    (HistoryUnitStatus::Live, None) => Ok(Some((s.root, Some(owner)))),
                    (status, Some(action)) => {
                        if action == 1 {
                            match status {
                                HistoryUnitStatus::Frozen => Err(history_rejection(revision, "a frozen History unit cannot change")),
                                HistoryUnitStatus::Live => {
                                    if s.has_live_control {
                                        Err(history_rejection(
                                            revision,
                                            "History freeze final content cannot contain a live control",
                                        ))
                                    } else {
                                        Ok(Some((s.root, Some(HistoryUnitOwner { status: HistoryUnitStatus::Frozen, ..owner }))))
                                    }
                                },
                            }
                        } else if action == 2 {
                            match status {
                                HistoryUnitStatus::Live => {
                                    if !contains_key_u64(retired, s.root) {
                                        Err(history_rejection(revision, "History discard must retire its live tail root"))
                                    } else {
                                        Ok(None)
                                    }
                                },
                                HistoryUnitStatus::Frozen => Err(history_rejection(revision, "History discard requires a live tail root")),
                            }
                        } else {
                            Err(history_rejection(revision, "History action is invalid"))
                        }
                    },
                }
            },
            None => {
                if s.action == Some(2u32) {
                    return Err(history_rejection(revision, "History discard requires an accepted live tail root"));
                }
                let frozen = s.action == Some(1u32);
                if frozen && s.has_live_control {
                    return Err(history_rejection(revision, "History freeze final content cannot contain a live control"));
                }
                let id = match c.unit_identity {
                    Some(id) => id,
                    None => 0,
                };
                Ok(Some((s.root, Some(HistoryUnitOwner {
                    id,
                    flow_boundary: c.flow_boundary,
                    status: if frozen { HistoryUnitStatus::Frozen } else { HistoryUnitStatus::Live },
                }))))
            },
        }
    }
}

impl UiResourceOwner {
    /// The History binding updates a prepared commit makes, checked against
    /// the History rules: roots bind, keep, freeze or discard their units in
    /// order, supplied identities must adopt a unit of the same host with a
    /// matching status, and a retired root that holds a binding must be the
    /// live tail (`history_tail`). A refusal reports the still-accepted
    /// `revision`.
    pub fn prepare_history_updates(
        &self,
        summaries: &Vec<HistoryRootSummary>,
        retired: &Vec<u64>,
        history_tail: Option<u64>,
        existing_history: &HashMap<u64, bool>,
        revision: u64,
    ) -> (r: Result<Vec<(u64, Option<HistoryUnitOwner>)>, UiRejection>)
        requires
            self.state() == UiResourceLifecycle::Open,
            summaries_prepared(self.history(), summaries@),
        ensures
            match history_plan(self.history(), summaries@, retired@, history_tail, existing_history@) {
                Ok(updates) => (r matches Ok(u) && u@ == updates),
                Err(m) => (r matches Err(e) && e.revision == revision && e.detail == CommitDetail::InvalidTopology
                    && e.message@ == m),
            },
    {
        let ghost h = self.history();
        let mut updates: Vec<(u64, Option<HistoryUnitOwner>)> = Vec::new();
        let mut supplied: HashSet<u64> = HashSet::new();
        let mut i: usize = 0;
        proof {
            assert(summaries@.take(0) =~= Seq::<HistoryRootSummary>::empty());
        }
        while i < summaries.len()
            invariant
                h == self.history(),
                summaries_prepared(h, summaries@),
                i <= summaries@.len(),
                history_root_updates(h, summaries@.take(i as int), retired@, existing_history@) == Ok::<
                    (Seq<(u64, Option<HistoryUnitOwner>)>, Set<u64>),
                    Seq<char>,
                >((updates@, supplied@)),
            decreases summaries.len() - i,
        {
            let s = summaries[i];
            proof {
                assert(summaries@.take(i as int + 1).drop_last() =~= summaries@.take(i as int));
                assert(summaries@.take(i as int + 1).last() == s);
                assert(summaries@[i as int] == s);
            }
            match self.history_root_update_of(&s, &supplied, retired, existing_history, revision) {
                Err(e) => {
                    proof {
                        lemma_root_refusal_sticks(h, summaries@, i as int + 1, retired@, existing_history@);
                    }
                    return Err(e);
                },
                Ok(step) => {
                    match step {
                        Some(u) => updates.push(u),
                        None => {},
                    }
                },
            }
            match s.config {
                Some(c) => {
                    if !self.history_units.contains_key(&s.root) && s.added && s.identity_supplied {
                        match c.unit_identity {
                            Some(id) => {
                                supplied.insert(id);
                            },
                            None => {},
                        }
                    }
                },
                None => {},
            }
            i = i + 1;
        }
        proof {
            assert(summaries@.take(i as int) =~= summaries@);
        }
        let ghost bound = updates@;
        let mut j: usize = 0;
        proof {
            assert(retired@.take(0) =~= Seq::<u64>::empty());
        }
        while j < retired.len()
            invariant
                h == self.history(),
                j <= retired@.len(),
                retirement_updates(h, retired@.take(j as int), history_tail) matches Ok(v) && updates@ == bound + v,
                history_root_updates(h, summaries@, retired@, existing_history@) matches Ok((u, _)) && u == bound,
            decreases retired.len() - j,
        {
            let root = retired[j];
            proof {
                assert(retired@.take(j as int + 1).drop_last() =~= retired@.take(j as int));
                assert(retired@.take(j as int + 1).last() == root);
            }
            match self.history_units.get(&root) {
                None => {},
                Some(owner) => {
                    let live = match owner.status {
                        HistoryUnitStatus::Live => true,
                        HistoryUnitStatus::Frozen => false,
                    };
                    let at_tail = match history_tail {
                        Some(tail) => tail == root,
                        None => false,
                    };
                    if !live || !at_tail {
                        proof {
                            lemma_retire_refusal_sticks(h, retired@, j as int + 1, history_tail);
                        }
                        return Err(history_rejection(revision, "RetireRoot cannot bypass History live-tail restrictions"));
                    }
                    let ghost before = updates@;
                    updates.push((root, None));
                    proof {
                        let v = retirement_updates(h, retired@.take(j as int), history_tail)->Ok_0;
                        assert(updates@ =~= bound + v.push((root, None::<HistoryUnitOwner>)));
                    }
                },
            }
            j = j + 1;
        }
        proof {
            assert(retired@.take(j as int) =~= retired@);
        }
        Ok(updates)
    }
}

/// The resource an action touches.
pub open spec fn action_key(action: UiResourceAction) -> u64 {
    match action {
        UiResourceAction::CreatePort { key } => key,
        UiResourceAction::CreateConnector { key, .. } => key,
        UiResourceAction::ReplaceLiteral { port, .. } => port,
        UiResourceAction::SetLiteralFunnel { port, .. } => port,
        UiResourceAction::DisposeConnector { key } => key,
        UiResourceAction::DisposePort { key } => key,
        UiResourceAction::DisposeLiteral { port } => port,
    }
}

pub(crate) fn key_of(action: &UiResourceAction) -> (key: u64)
    ensures
        key == action_key(*action),
{
    match action {
        UiResourceAction::CreatePort { key } => *key,
        UiResourceAction::CreateConnector { key, .. } => *key,
        UiResourceAction::ReplaceLiteral { port, .. } => *port,
        UiResourceAction::SetLiteralFunnel { port, .. } => *port,
        UiResourceAction::DisposeConnector { key } => *key,
        UiResourceAction::DisposePort { key } => *key,
        UiResourceAction::DisposeLiteral { port } => *port,
    }
}

/// `keys` ascend strictly.
pub open spec fn strictly_ascending(keys: Seq<u64>) -> bool {
    forall|a: int, b: int| 0 <= a < b < keys.len() ==> keys[a] < keys[b]
}

/// Inserts `key` into an ascending run of distinct keys, keeping it so.
pub(crate) fn insert_sorted(keys: &mut Vec<u64>, key: u64)
    requires
        strictly_ascending(old(keys)@),
    ensures
        strictly_ascending(final(keys)@),
        final(keys)@.to_set() == old(keys)@.to_set().insert(key),
{
    let mut i: usize = 0;
    while i < keys.len() && keys[i] < key
        invariant
            i <= keys@.len(),
            forall|a: int| 0 <= a < i ==> keys@[a] < key,
        decreases keys.len() - i,
    {
        i = i + 1;
    }
    let ghost before = keys@;
    if i < keys.len() && keys[i] == key {
        assert(keys@.to_set() =~= before.to_set().insert(key)) by {
            assert(before.contains(key));
        }
        return;
    }
    keys.insert(i, key);
    proof {
        assert(keys@ =~= before.take(i as int).push(key) + before.skip(i as int));
        assert forall|a: int, b: int| 0 <= a < b < keys@.len() implies keys@[a] < keys@[b] by {
            if b == i as int {
                assert(keys@[a] == before[a]);
            } else if a == i as int {
                assert(keys@[b] == before[b - 1]);
                assert(before[i as int] >= key);
                if b - 1 > i as int {
                    assert(before[i as int] < before[b - 1]);
                }
            } else if a < i as int && b < i as int {
                assert(keys@[a] == before[a] && keys@[b] == before[b]);
            } else if a < i as int {
                assert(keys@[a] == before[a] && keys@[b] == before[b - 1]);
                assert(before[a] < key);
                assert(before[i as int] >= key);
                if b - 1 > i as int {
                    assert(before[i as int] < before[b - 1]);
                }
            } else {
                assert(keys@[a] == before[a - 1] && keys@[b] == before[b - 1]);
            }
        }
        assert forall|x: u64| keys@.to_set().contains(x) <==> before.to_set().insert(key).contains(x) by {
            if keys@.contains(x) {
                let j = choose|j: int| 0 <= j < keys@.len() && keys@[j] == x;
                if j < i as int {
                    assert(before[j] == x);
                } else if j > i as int {
                    assert(before[j - 1] == x);
                }
            }
            if before.contains(x) {
                let j = choose|j: int| 0 <= j < before.len() && before[j] == x;
                if j < i as int {
                    assert(keys@[j] == x);
                } else {
                    assert(keys@[j + 1] == x);
                }
            }
            if x == key {
                assert(keys@[i as int] == key);
            }
        }
        assert(keys@.to_set() =~= before.to_set().insert(key));
    }
}

/// The resources that `actions` touch, ascending and each once.
pub(crate) fn touched_resource_keys(actions: &Vec<UiResourceAction>) -> (keys: Vec<u64>)
    ensures
        strictly_ascending(keys@),
        forall|k: u64| #[trigger] keys@.contains(k) <==> exists|i: int| 0 <= i < actions@.len() && action_key(#[trigger] actions@[i]) == k,
{
    let mut keys: Vec<u64> = Vec::new();
    let mut i: usize = 0;
    while i < actions.len()
        invariant
            i <= actions@.len(),
            strictly_ascending(keys@),
            forall|k: u64| #[trigger] keys@.to_set().contains(k) <==> exists|j: int| 0 <= j < i && action_key(#[trigger] actions@[j]) == k,
        decreases actions.len() - i,
    {
        let key = key_of(&actions[i]);
        let ghost before = keys@.to_set();
        insert_sorted(&mut keys, key);
        proof {
            assert forall|k: u64| #[trigger] keys@.to_set().contains(k) <==> exists|j: int| 0 <= j < i + 1 && action_key(#[trigger] actions@[j]) == k by {
                if k == key {
                    assert(action_key(actions@[i as int]) == k);
                }
                if exists|j: int| 0 <= j < i + 1 && action_key(#[trigger] actions@[j]) == k {
                    let j = choose|j: int| 0 <= j < i + 1 && action_key(#[trigger] actions@[j]) == k;
                    if j < i as int {
                        assert(before.contains(k));
                    }
                }
            }
        }
        i = i + 1;
    }
    proof {
        assert forall|k: u64| #[trigger] keys@.contains(k) <==> keys@.to_set().contains(k) by {}
    }
    keys
}

pub(crate) fn copy_updates(updates: &Vec<(u64, Option<HistoryUnitOwner>)>) -> (copy: Vec<(u64, Option<HistoryUnitOwner>)>)
    ensures
        copy@ == updates@,
{
    let mut copy: Vec<(u64, Option<HistoryUnitOwner>)> = Vec::new();
    let mut i: usize = 0;
    while i < updates.len()
        invariant
            i <= updates@.len(),
            copy@ == updates@.take(i as int),
        decreases updates.len() - i,
    {
        copy.push(updates[i]);
        i = i + 1;
        assert(copy@ =~= updates@.take(i as int));
    }
    assert(updates@.take(updates@.len() as int) =~= updates@);
    copy
}

} // verus!
