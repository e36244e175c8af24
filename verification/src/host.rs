//! Plain values exchanged with a language-binding host, and the host's own
//! decisions: admission of native UI events into a bounded queue, the
//! animation clock behind a mounted animation control, and the folding of
//! close failures into one report.
use vstd::prelude::*;
use vstd::string::StringExecFns;
use crate::ui_resources::{decimal, push_decimal, UiHandle};
use crate::component::Component;
use crate::component::control::{AnimationSnapshot, ControlSnapshot};

verus! {

/// One caller-defined routed output produced by native interaction routing.
#[derive(Clone, Debug, PartialEq, Eq)]
pub struct RoutedOutput {
    pub route_id: String,
    pub payload: Option<String>,
}

/// The style facts of one rendered cell as a host reports them.
#[derive(Clone, Debug, PartialEq, Eq)]
pub struct HostCellStyle {
    pub foreground: Option<String>,
    pub background: Option<String>,
    pub bold: bool,
    pub dim: bool,
    pub italic: bool,
    pub underline: bool,
    pub reversed: bool,
    pub strikethrough: bool,
}

/// One native UI event addressed to a UI node.
#[derive(Clone, Debug)]
pub struct NativeUiEvent {
    pub handle: UiHandle,
    pub mask: u32,
    pub text: Option<String>,
    pub cursor_bytes: Option<usize>,
    pub key: Option<String>,
    pub revision: Option<u64>,
}

/// UTF-8 length of an optional text.
pub open spec fn opt_text_bytes(text: Option<String>) -> nat {
    match text {
        Some(s) => vstd::utf8::encode_utf8(s@).len(),
        None => 0,
    }
}

/// Bytes an event holds in the queue: its text and its key text.
pub open spec fn event_bytes(event: NativeUiEvent) -> nat {
    opt_text_bytes(event.text) + opt_text_bytes(event.key)
}

/// Bytes a run of events holds in the queue.
pub open spec fn total_bytes(events: Seq<NativeUiEvent>) -> nat
    decreases events.len(),
{
    if events.len() == 0 {
        0
    } else {
        total_bytes(events.drop_last()) + event_bytes(events.last())
    }
}

fn opt_len(text: &Option<String>) -> (n: usize)
    ensures
        n == opt_text_bytes(*text),
{
    match text {
        Some(s) => s.as_str().as_bytes().len(),
        None => 0,
    }
}

/// Why the host refused native UI events.
#[derive(Clone, Copy, Debug, PartialEq, Eq, Structural)]
pub enum UiInputAdmissionError {
    /// The queue holds as much as it may; the producer must wait.
    Backpressure,
    /// One batch exceeds the configured limits on its own.
    TooLarge,
    /// The size of one event does not fit in a `usize`.
    PayloadOverflow,
    /// The queued record count would not fit in a `usize`.
    RecordOverflow,
    /// The queued byte count would not fit in a `usize`.
    ByteOverflow,
}

impl UiInputAdmissionError {
    /// The report the host hands to its embedder.
    pub fn message(&self) -> (text: String)
        ensures
            *self == UiInputAdmissionError::Backpressure ==> text@ == "EVENT_BACKPRESSURE: native UI event queue is full"@,
            *self == UiInputAdmissionError::TooLarge ==> text@ == "EVENT_TOO_LARGE: one native UI event batch cannot fit configured limits"@,
            *self == UiInputAdmissionError::PayloadOverflow ==> text@ == "UI event payload size overflow"@,
            *self == UiInputAdmissionError::RecordOverflow ==> text@ == "UI event record accounting overflow"@,
            *self == UiInputAdmissionError::ByteOverflow ==> text@ == "UI event byte accounting overflow"@,
    {
        match self {
            UiInputAdmissionError::Backpressure => "EVENT_BACKPRESSURE: native UI event queue is full".to_owned(),
            UiInputAdmissionError::TooLarge => "EVENT_TOO_LARGE: one native UI event batch cannot fit configured limits".to_owned(),
            UiInputAdmissionError::PayloadOverflow => "UI event payload size overflow".to_owned(),
            UiInputAdmissionError::RecordOverflow => "UI event record accounting overflow".to_owned(),
            UiInputAdmissionError::ByteOverflow => "UI event byte accounting overflow".to_owned(),
        }
    }
}

/// Whether a refusal asks the producer to retry later.
pub fn is_event_backpressure(error: &UiInputAdmissionError) -> (b: bool)
    ensures
        b <==> *error == UiInputAdmissionError::Backpressure,
{
    match error {
        UiInputAdmissionError::Backpressure => true,
        _ => false,
    }
}

impl NativeUiEvent {
    /// The bytes this event holds in the queue, if that count fits.
    pub fn payload_bytes(&self) -> (r: Result<usize, UiInputAdmissionError>)
        ensures
            event_bytes(*self) <= usize::MAX ==> r == Ok::<usize, UiInputAdmissionError>(event_bytes(*self) as usize),
            event_bytes(*self) > usize::MAX ==> r == Err::<usize, UiInputAdmissionError>(UiInputAdmissionError::PayloadOverflow),
    {
        let text = opt_len(&self.text);
        let key = opt_len(&self.key);
        match text.checked_add(key) {
            Some(n) => Ok(n),
            None => Err(UiInputAdmissionError::PayloadOverflow),
        }
    }
}

/// Records the host may queue before a producer sees backpressure.
pub const UI_EVENT_QUEUE_MAX_RECORDS: usize = 4096;

/// Bytes the host may queue before a producer sees backpressure.
pub const UI_EVENT_QUEUE_MAX_BYTES: usize = 8388608;

/// Admission bounds of the native UI event queue.
#[derive(Clone, Copy, Debug, PartialEq, Eq, Structural)]
pub struct UiEventQueueLimits {
    pub max_records: usize,
    pub max_bytes: usize,
}

impl Default for UiEventQueueLimits {
    fn default() -> (limits: Self)
        ensures
            limits.max_records == UI_EVENT_QUEUE_MAX_RECORDS,
            limits.max_bytes == UI_EVENT_QUEUE_MAX_BYTES,
    {
        UiEventQueueLimits { max_records: UI_EVENT_QUEUE_MAX_RECORDS, max_bytes: UI_EVENT_QUEUE_MAX_BYTES }
    }
}

/// Why new queue limits were refused.
#[derive(Clone, Copy, Debug, PartialEq, Eq, Structural)]
pub enum UiEventLimitError {
    NotPositive,
    Increase,
    BelowOccupancy,
}

impl UiEventLimitError {
    pub fn message(&self) -> (text: String)
        ensures
            *self == UiEventLimitError::NotPositive ==> text@ == "UI event queue limits must be positive"@,
            *self == UiEventLimitError::Increase ==> text@ == "UI event queue limits may only decrease"@,
            *self == UiEventLimitError::BelowOccupancy ==> text@ == "UI event queue limits are below current occupancy"@,
    {
        match self {
            UiEventLimitError::NotPositive => "UI event queue limits must be positive".to_owned(),
            UiEventLimitError::Increase => "UI event queue limits may only decrease".to_owned(),
            UiEventLimitError::BelowOccupancy => "UI event queue limits are below current occupancy".to_owned(),
        }
    }
}

/// Concatenating two runs of events adds their byte counts.
pub proof fn lemma_total_bytes_concat(a: Seq<NativeUiEvent>, b: Seq<NativeUiEvent>)
    ensures
        total_bytes(a + b) == total_bytes(a) + total_bytes(b),
    decreases b.len(),
{
    if b.len() == 0 {
        assert(a + b =~= a);
    } else {
        lemma_total_bytes_concat(a, b.drop_last());
        assert((a + b).drop_last() =~= a + b.drop_last());
    }
}

/// A prefix of a run holds no more bytes than the run.
proof fn lemma_total_bytes_prefix(s: Seq<NativeUiEvent>, i: int)
    requires
        0 <= i <= s.len(),
    ensures
        total_bytes(s.take(i)) <= total_bytes(s),
{
    lemma_total_bytes_concat(s.take(i), s.skip(i));
    assert(s.take(i) + s.skip(i) =~= s);
}

/// What the queue answers a batch of `records` events holding `bytes`
/// bytes, given what it already holds.
pub open spec fn admission(
    queued_records: nat,
    queued_bytes: nat,
    backpressure: bool,
    limits: UiEventQueueLimits,
    records: nat,
    bytes: nat,
) -> Result<(), UiInputAdmissionError> {
    if queued_records + records > usize::MAX {
        Err(UiInputAdmissionError::RecordOverflow)
    } else if queued_bytes + bytes > usize::MAX {
        Err(UiInputAdmissionError::ByteOverflow)
    } else if records > limits.max_records || bytes > limits.max_bytes {
        Err(UiInputAdmissionError::TooLarge)
    } else if backpressure || queued_records + records > limits.max_records
        || queued_bytes + bytes > limits.max_bytes {
        Err(UiInputAdmissionError::Backpressure)
    } else {
        Ok(())
    }
}

/// The bounded queue of native UI events awaiting the embedder.
pub struct UiEventQueue {
    events: Vec<NativeUiEvent>,
    bytes: usize,
    backpressure: bool,
    limits: UiEventQueueLimits,
}

impl UiEventQueue {
    /// The queued events, oldest first.
    pub closed spec fn events(&self) -> Seq<NativeUiEvent> {
        self.events@
    }

    /// The bytes the queue accounts for.
    pub closed spec fn queued_bytes(&self) -> nat {
        self.bytes as nat
    }

    /// Whether a refusal has latched until the next drain.
    pub closed spec fn backpressured(&self) -> bool {
        self.backpressure
    }

    pub closed spec fn bounds(&self) -> UiEventQueueLimits {
        self.limits
    }

    /// The accounting matches the events, and both stay within positive
    /// limits.
    pub open spec fn wf(&self) -> bool {
        &&& self.queued_bytes() == total_bytes(self.events())
        &&& self.events().len() <= self.bounds().max_records
        &&& self.queued_bytes() <= self.bounds().max_bytes
        &&& self.bounds().max_records > 0
        &&& self.bounds().max_bytes > 0
    }

    /// An empty queue with the default limits.
    pub fn new() -> (queue: Self)
        ensures
            queue.wf(),
            queue.events() == Seq::<NativeUiEvent>::empty(),
            queue.queued_bytes() == 0,
            !queue.backpressured(),
            queue.bounds() == (UiEventQueueLimits {
                max_records: UI_EVENT_QUEUE_MAX_RECORDS,
                max_bytes: UI_EVENT_QUEUE_MAX_BYTES,
            }),
    {
        UiEventQueue {
            events: Vec::new(),
            bytes: 0,
            backpressure: false,
            limits: UiEventQueueLimits::default(),
        }
    }

    pub fn len(&self) -> (n: usize)
        ensures
            n == self.events().len(),
    {
        self.events.len()
    }

    pub fn is_empty(&self) -> (b: bool)
        ensures
            b <==> self.events().len() == 0,
    {
        self.events.len() == 0
    }

    pub fn bytes(&self) -> (n: usize)
        ensures
            n == self.queued_bytes(),
    {
        self.bytes
    }

    pub fn is_backpressured(&self) -> (b: bool)
        ensures
            b == self.backpressured(),
    {
        self.backpressure
    }

    pub fn limits(&self) -> (limits: UiEventQueueLimits)
        ensures
            limits == self.bounds(),
    {
        self.limits
    }

    /// Refuses a new producer while the queue is full or latched.
    pub fn ensure_capacity(&self) -> (r: Result<(), UiInputAdmissionError>)
        ensures
            r == (if self.backpressured() || self.events().len() >= self.bounds().max_records
                || self.queued_bytes() >= self.bounds().max_bytes {
                Err::<(), UiInputAdmissionError>(UiInputAdmissionError::Backpressure)
            } else {
                Ok::<(), UiInputAdmissionError>(())
            }),
    {
        if self.backpressure || self.events.len() >= self.limits.max_records
            || self.bytes >= self.limits.max_bytes {
            Err(UiInputAdmissionError::Backpressure)
        } else {
            Ok(())
        }
    }

    /// The bytes a batch would hold, if that count fits.
    pub fn batch_bytes(events: &Vec<NativeUiEvent>) -> (r: Result<usize, UiInputAdmissionError>)
        ensures
            total_bytes(events@) <= usize::MAX ==> r == Ok::<usize, UiInputAdmissionError>(total_bytes(events@) as usize),
            total_bytes(events@) > usize::MAX ==> r == Err::<usize, UiInputAdmissionError>(UiInputAdmissionError::PayloadOverflow),
    {
        let mut total: usize = 0;
        let mut i: usize = 0;
        while i < events.len()
            invariant
                i <= events.len(),
                total == total_bytes(events@.take(i as int)),
            decreases events.len() - i,
        {
            assert(events@.take(i as int + 1).drop_last() =~= events@.take(i as int));
            let one = match events[i].payload_bytes() {
                Ok(n) => n,
                Err(e) => {
                    proof {
                        lemma_total_bytes_prefix(events@, i as int + 1);
                    }
                    return Err(e);
                },
            };
            match total.checked_add(one) {
                Some(n) => {
                    total = n;
                },
                None => {
                    proof {
                        lemma_total_bytes_prefix(events@, i as int + 1);
                    }
                    return Err(UiInputAdmissionError::PayloadOverflow);
                },
            }
            i = i + 1;
        }
        assert(events@.take(i as int) =~= events@);
        Ok(total)
    }

    /// Decides whether a batch of `records` events holding `bytes` bytes may
    /// be queued; a refusal for want of room latches backpressure.
    pub fn reserve(&mut self, records: usize, bytes: usize) -> (r: Result<(), UiInputAdmissionError>)
        requires
            old(self).wf(),
        ensures
            final(self).wf(),
            r == admission(old(self).events().len(), old(self).queued_bytes(), old(self).backpressured(),
                old(self).bounds(), records as nat, bytes as nat),
            final(self).events() == old(self).events(),
            final(self).queued_bytes() == old(self).queued_bytes(),
            final(self).bounds() == old(self).bounds(),
            final(self).backpressured() == (old(self).backpressured()
                || r == Err::<(), UiInputAdmissionError>(UiInputAdmissionError::Backpressure)),
    {
        let queued_records = match self.events.len().checked_add(records) {
            Some(n) => n,
            None => {
                return Err(UiInputAdmissionError::RecordOverflow);
            },
        };
        let queued_bytes = match self.bytes.checked_add(bytes) {
            Some(n) => n,
            None => {
                return Err(UiInputAdmissionError::ByteOverflow);
            },
        };
        if records > self.limits.max_records || bytes > self.limits.max_bytes {
            return Err(UiInputAdmissionError::TooLarge);
        }
        if self.backpressure || queued_records > self.limits.max_records
            || queued_bytes > self.limits.max_bytes {
            self.backpressure = true;
            return Err(UiInputAdmissionError::Backpressure);
        }
        Ok(())
    }

    /// Appends a batch that `reserve` admitted.
    pub fn accept(&mut self, events: Vec<NativeUiEvent>, bytes: usize)
        requires
            old(self).wf(),
            bytes == total_bytes(events@),
            old(self).events().len() + events@.len() <= old(self).bounds().max_records,
            old(self).queued_bytes() + bytes <= old(self).bounds().max_bytes,
        ensures
            final(self).wf(),
            final(self).events() == old(self).events() + events@,
            final(self).queued_bytes() == old(self).queued_bytes() + bytes,
            final(self).bounds() == old(self).bounds(),
            final(self).backpressured() == old(self).backpressured(),
    {
        let ghost before = self.events@;
        let mut events = events;
        proof {
            lemma_total_bytes_concat(before, events@);
        }
        self.bytes = self.bytes + bytes;
        self.events.append(&mut events);
    }

    /// Sizes, checks and queues one batch of events.
    pub fn enqueue(&mut self, events: Vec<NativeUiEvent>) -> (r: Result<(), UiInputAdmissionError>)
        requires
            old(self).wf(),
        ensures
            final(self).wf(),
            r == (if total_bytes(events@) > usize::MAX {
                Err::<(), UiInputAdmissionError>(UiInputAdmissionError::PayloadOverflow)
            } else {
                admission(old(self).events().len(), old(self).queued_bytes(), old(self).backpressured(),
                    old(self).bounds(), events@.len(), total_bytes(events@))
            }),
            r is Ok ==> final(self).events() == old(self).events() + events@,
            r is Ok ==> final(self).queued_bytes() == old(self).queued_bytes() + total_bytes(events@),
            r is Err ==> final(self).events() == old(self).events(),
            r is Err ==> final(self).queued_bytes() == old(self).queued_bytes(),
            final(self).bounds() == old(self).bounds(),
            final(self).backpressured() == (old(self).backpressured()
                || r == Err::<(), UiInputAdmissionError>(UiInputAdmissionError::Backpressure)),
    {
        let bytes = match Self::batch_bytes(&events) {
            Ok(n) => n,
            Err(e) => {
                return Err(e);
            },
        };
        match self.reserve(events.len(), bytes) {
            Ok(()) => {},
            Err(e) => {
                return Err(e);
            },
        }
        self.accept(events, bytes);
        Ok(())
    }

    /// Hands out every queued event, oldest first, and clears the latch.
    pub fn take_batch(&mut self) -> (batch: Vec<NativeUiEvent>)
        requires
            old(self).wf(),
        ensures
            final(self).wf(),
            batch@ == old(self).events(),
            final(self).events() == Seq::<NativeUiEvent>::empty(),
            final(self).queued_bytes() == 0,
            !final(self).backpressured(),
            final(self).bounds() == old(self).bounds(),
    {
        let mut batch: Vec<NativeUiEvent> = Vec::new();
        std::mem::swap(&mut batch, &mut self.events);
        self.bytes = 0;
        self.backpressure = false;
        batch
    }

    /// Lowers the admission bounds; they never grow and never drop below
    /// what the queue holds.
    pub fn set_limits(&mut self, max_records: usize, max_bytes: usize) -> (r: Result<(), UiEventLimitError>)
        requires
            old(self).wf(),
        ensures
            final(self).wf(),
            r == (if max_records == 0 || max_bytes == 0 {
                Err::<(), UiEventLimitError>(UiEventLimitError::NotPositive)
            } else if max_records > old(self).bounds().max_records || max_bytes > old(self).bounds().max_bytes {
                Err::<(), UiEventLimitError>(UiEventLimitError::Increase)
            } else if max_records < old(self).events().len() || max_bytes < old(self).queued_bytes() {
                Err::<(), UiEventLimitError>(UiEventLimitError::BelowOccupancy)
            } else {
                Ok::<(), UiEventLimitError>(())
            }),
            r is Ok ==> final(self).bounds() == (UiEventQueueLimits { max_records, max_bytes }),
            r is Err ==> final(self).bounds() == old(self).bounds(),
            final(self).events() == old(self).events(),
            final(self).queued_bytes() == old(self).queued_bytes(),
            final(self).backpressured() == old(self).backpressured(),
    {
        if max_records == 0 || max_bytes == 0 {
            return Err(UiEventLimitError::NotPositive);
        }
        if max_records > self.limits.max_records || max_bytes > self.limits.max_bytes {
            return Err(UiEventLimitError::Increase);
        }
        if max_records < self.events.len() || max_bytes < self.bytes {
            return Err(UiEventLimitError::BelowOccupancy);
        }
        self.limits = UiEventQueueLimits { max_records, max_bytes };
        Ok(())
    }
}

/// The event bits an editor input raises: a text change raises 2 and 8,
/// any text or cursor change raises 4, a cursor move raises 16, and a
/// submitting key raises 1 and 32.
pub open spec fn event_mask(text_changed: bool, cursor_changed: bool, is_enter: bool) -> u32 {
    ((if text_changed { 10u32 } else { 0u32 }) + (if text_changed || cursor_changed { 4u32 } else { 0u32 })
        + (if cursor_changed { 16u32 } else { 0u32 }) + (if is_enter { 33u32 } else { 0u32 })) as u32
}

/// Each event bit answers one question about the input: bit 16 is raised
/// exactly when the cursor moved, whatever else changed; bits 2 and 8
/// exactly when the text changed; bit 4 when either did; bits 1 and 32
/// exactly on enter; and no other bit is ever raised.
pub proof fn event_bits_follow_the_input(text_changed: bool, cursor_changed: bool, is_enter: bool)
    by (bit_vector)
    ensures
        (event_mask(text_changed, cursor_changed, is_enter) & 16u32 == 16u32) == cursor_changed,
        (event_mask(text_changed, cursor_changed, is_enter) & 2u32 == 2u32) == text_changed,
        (event_mask(text_changed, cursor_changed, is_enter) & 8u32 == 8u32) == text_changed,
        (event_mask(text_changed, cursor_changed, is_enter) & 4u32 == 4u32) == (text_changed || cursor_changed),
        (event_mask(text_changed, cursor_changed, is_enter) & 1u32 == 1u32) == is_enter,
        (event_mask(text_changed, cursor_changed, is_enter) & 32u32 == 32u32) == is_enter,
        event_mask(text_changed, cursor_changed, is_enter) & 0xffff_ffc0u32 == 0u32,
{
}

/// The event bits raised by one editor input.
pub fn ui_event_mask(text_changed: bool, cursor_changed: bool, is_enter: bool) -> (mask: u32)
    ensures
        mask == event_mask(text_changed, cursor_changed, is_enter),
        (mask & 16u32 == 16u32) == cursor_changed,
        (mask & 2u32 == 2u32) == text_changed,
        (mask & 8u32 == 8u32) == text_changed,
        (mask & 4u32 == 4u32) == (text_changed || cursor_changed),
        (mask & 1u32 == 1u32) == is_enter,
        (mask & 32u32 == 32u32) == is_enter,
        mask & 0xffff_ffc0u32 == 0u32,
{
    proof {
        event_bits_follow_the_input(text_changed, cursor_changed, is_enter);
    }
    let mut mask: u32 = 0;
    if text_changed {
        mask = mask + 10;
    }
    if text_changed || cursor_changed {
        mask = mask + 4;
    }
    if cursor_changed {
        mask = mask + 16;
    }
    if is_enter {
        mask = mask + 33;
    }
    mask
}

/// The nodes that subscribe to any of the raised bits, each with the bits
/// it receives, in node order.
pub open spec fn subscribed_targets(nodes: Seq<(UiHandle, u32)>, mask: u32) -> Seq<(UiHandle, u32)>
    decreases nodes.len(),
{
    if nodes.len() == 0 {
        Seq::empty()
    } else {
        let rest = subscribed_targets(nodes.drop_last(), mask);
        let bits = mask & nodes.last().1;
        if bits != 0 {
            rest.push((nodes.last().0, bits))
        } else {
            rest
        }
    }
}

/// A node receives an input exactly when it subscribes to one of the raised
/// bits, and then receives exactly those of its bits that were raised;
/// targets keep node order.
pub proof fn targets_receive_exactly_their_raised_bits(nodes: Seq<(UiHandle, u32)>, mask: u32)
    ensures
        forall|i: int| 0 <= i < nodes.len() && #[trigger] (mask & nodes[i].1) != 0
            ==> subscribed_targets(nodes, mask).contains((nodes[i].0, mask & nodes[i].1)),
        forall|t: (UiHandle, u32)| #[trigger] subscribed_targets(nodes, mask).contains(t) ==> t.1 != 0
            && exists|i: int| 0 <= i < nodes.len() && nodes[i].0 == t.0 && #[trigger] (mask & nodes[i].1) == t.1,
        subscribed_targets(nodes, mask).len() <= nodes.len(),
    decreases nodes.len(),
{
    if nodes.len() > 0 {
        let init = nodes.drop_last();
        let n = nodes.len() - 1;
        targets_receive_exactly_their_raised_bits(init, mask);
        let rest = subscribed_targets(init, mask);
        let all = subscribed_targets(nodes, mask);
        assert forall|t: (UiHandle, u32)| rest.contains(t) implies all.contains(t) by {
            let j = choose|j: int| 0 <= j < rest.len() && rest[j] == t;
            if (mask & nodes.last().1) != 0 {
                assert(all[j] == t);
            }
        }
        assert forall|i: int| 0 <= i < nodes.len() && #[trigger] (mask & nodes[i].1) != 0
            implies all.contains((nodes[i].0, mask & nodes[i].1)) by {
            if i < n {
                assert(init[i] == nodes[i]);
                assert(rest.contains((init[i].0, mask & init[i].1)));
            } else {
                assert(all[all.len() - 1] == (nodes[i].0, mask & nodes[i].1));
            }
        }
        assert forall|t: (UiHandle, u32)| #[trigger] all.contains(t) implies t.1 != 0
            && exists|i: int| 0 <= i < nodes.len() && nodes[i].0 == t.0 && #[trigger] (mask & nodes[i].1) == t.1 by {
            let j = choose|j: int| 0 <= j < all.len() && all[j] == t;
            if j < rest.len() {
                assert(rest[j] == t);
                assert(rest.contains(t));
                let k = choose|k: int| 0 <= k < init.len() && init[k].0 == t.0 && #[trigger] (mask & init[k].1) == t.1;
                assert(nodes[k] == init[k]);
            } else {
                assert(nodes[n].0 == t.0 && (mask & nodes[n].1) == t.1);
            }
        }
    }
}

/// Picks the nodes, given with their subscriptions, that receive an input
/// raising `mask`.
pub fn ui_event_targets(nodes: &Vec<(UiHandle, u32)>, mask: u32) -> (targets: Vec<(UiHandle, u32)>)
    ensures
        targets@ == subscribed_targets(nodes@, mask),
{
    let mut targets: Vec<(UiHandle, u32)> = Vec::new();
    let mut i: usize = 0;
    while i < nodes.len()
        invariant
            i <= nodes@.len(),
            targets@ == subscribed_targets(nodes@.take(i as int), mask),
        decreases nodes.len() - i,
    {
        assert(nodes@.take(i as int + 1).drop_last() =~= nodes@.take(i as int));
        let (handle, subscriptions) = nodes[i];
        let bits = mask & subscriptions;
        if bits != 0 {
            targets.push((handle, bits));
        }
        i = i + 1;
    }
    assert(nodes@.take(i as int) =~= nodes@);
    targets
}

/// One event per target carrying the editor's previewed text and cursor
/// and the key text, with no revision yet.
pub fn ui_events_for_targets(targets: &Vec<(UiHandle, u32)>, text: &String, cursor_bytes: usize, key: &Option<String>) -> (events: Vec<NativeUiEvent>)
    ensures
        events@.len() == targets@.len(),
        forall|i: int| 0 <= i < events@.len() ==> {
            &&& (#[trigger] events@[i]).handle == targets@[i].0
            &&& events@[i].mask == targets@[i].1
            &&& events@[i].text == Some(*text)
            &&& events@[i].cursor_bytes == Some(cursor_bytes)
            &&& events@[i].key == *key
            &&& events@[i].revision == None::<u64>
        },
{
    let mut events: Vec<NativeUiEvent> = Vec::new();
    let mut i: usize = 0;
    while i < targets.len()
        invariant
            i <= targets@.len(),
            events@.len() == i,
            forall|j: int| 0 <= j < i ==> {
                &&& (#[trigger] events@[j]).handle == targets@[j].0
                &&& events@[j].mask == targets@[j].1
                &&& events@[j].text == Some(*text)
                &&& events@[j].cursor_bytes == Some(cursor_bytes)
                &&& events@[j].key == *key
                &&& events@[j].revision == None::<u64>
            },
        decreases targets.len() - i,
    {
        let (handle, mask) = targets[i];
        events.push(NativeUiEvent {
            handle,
            mask,
            text: Some(text.clone()),
            cursor_bytes: Some(cursor_bytes),
            key: key.clone(),
            revision: None,
        });
        i = i + 1;
    }
    events
}

/// Stamps every event of a batch with the editor revision it reports.
pub fn stamp_revision(events: &mut Vec<NativeUiEvent>, revision: Option<u64>)
    ensures
        final(events)@.len() == old(events)@.len(),
        forall|i: int| 0 <= i < final(events)@.len() ==> #[trigger] final(events)@[i] == (NativeUiEvent {
            revision,
            ..old(events)@[i]
        }),
{
    let mut i: usize = 0;
    while i < events.len()
        invariant
            i <= events@.len(),
            events@.len() == old(events)@.len(),
            forall|j: int| 0 <= j < i ==> #[trigger] events@[j] == (NativeUiEvent { revision, ..old(events)@[j] }),
            forall|j: int| i <= j < events@.len() ==> #[trigger] events@[j] == old(events)@[j],
        decreases events.len() - i,
    {
        let mut event = events.remove(i);
        event.revision = revision;
        events.insert(i, event);
        i = i + 1;
    }
}

/// The frame state behind a mounted animation control. Times are
/// nanoseconds on one monotonic clock chosen by the caller.
#[derive(Clone, Copy, Debug)]
pub struct AnimationClock {
    active_frame: u32,
    frame_count: u32,
    interval: u64,
    last_tick: Option<u64>,
    running: bool,
}

impl AnimationClock {
    pub closed spec fn active(&self) -> u32 {
        self.active_frame
    }

    pub closed spec fn count(&self) -> u32 {
        self.frame_count
    }

    pub closed spec fn period(&self) -> u64 {
        self.interval
    }

    /// When the current frame began, while the clock advances.
    pub closed spec fn last(&self) -> Option<u64> {
        self.last_tick
    }

    pub closed spec fn is_running(&self) -> bool {
        self.running
    }

    /// The active frame is one of the frames, or the first when there are
    /// none.
    pub open spec fn wf(&self) -> bool {
        if self.count() == 0 {
            self.active() == 0
        } else {
            self.active() < self.count()
        }
    }

    /// A running clock with no frames yet.
    pub fn new() -> (clock: Self)
        ensures
            clock.wf(),
            clock.active() == 0,
            clock.count() == 0,
            clock.period() == 0,
            clock.last() == None::<u64>,
            clock.is_running(),
    {
        AnimationClock { active_frame: 0, frame_count: 0, interval: 0, last_tick: None, running: true }
    }

    /// Replaces the frame count, the frame shown, the period and whether
    /// the clock runs; the period starts now when the clock can advance.
    pub fn configure(&mut self, frame_count: u32, active_frame: u32, interval: u64, running: bool, now: u64)
        ensures
            final(self).wf(),
            final(self).count() == frame_count,
            final(self).active() == (if frame_count == 0 { 0 } else { active_frame % frame_count }),
            final(self).period() == interval,
            final(self).is_running() == running,
            final(self).last() == (if running && frame_count > 1 && interval != 0 {
                Some(now)
            } else {
                None::<u64>
            }),
    {
        self.frame_count = frame_count;
        self.active_frame = if frame_count == 0 { 0 } else { active_frame % frame_count };
        self.interval = interval;
        self.running = running;
        self.last_tick = if running && frame_count > 1 && interval != 0 { Some(now) } else { None };
    }

    /// Advances to the next frame, wrapping, once a whole period has passed
    /// since the current one began; reports whether the frame changed.
    pub fn tick(&mut self, now: u64) -> (advanced: bool)
        requires
            old(self).wf(),
        ensures
            final(self).wf(),
            final(self).count() == old(self).count(),
            final(self).period() == old(self).period(),
            final(self).is_running() == old(self).is_running(),
            !old(self).is_running() || old(self).count() < 2 || old(self).period() == 0 ==> {
                &&& !advanced
                &&& final(self).last() == None::<u64>
                &&& final(self).active() == old(self).active()
            },
            old(self).is_running() && old(self).count() >= 2 && old(self).period() != 0 ==> match old(self).last() {
                None => !advanced && final(self).last() == Some(now) && final(self).active() == old(self).active(),
                Some(last) => if now >= last && now - last >= old(self).period() {
                    &&& advanced
                    &&& final(self).last() == Some(now)
                    &&& final(self).active() == (old(self).active() + 1) % (old(self).count() as int)
                } else {
                    &&& !advanced
                    &&& final(self).last() == old(self).last()
                    &&& final(self).active() == old(self).active()
                },
            },
    {
        if !self.running || self.frame_count < 2 || self.interval == 0 {
            self.last_tick = None;
            return false;
        }
        match self.last_tick {
            None => {
                self.last_tick = Some(now);
                false
            },
            Some(last) => {
                if now < last || now - last < self.interval {
                    return false;
                }
                self.last_tick = Some(now);
                self.active_frame = (self.active_frame + 1) % self.frame_count;
                true
            },
        }
    }

    /// The frame shown.
    pub fn frame_index(&self) -> (index: usize)
        ensures
            index == self.active(),
    {
        self.active_frame as usize
    }

    pub fn frame_count(&self) -> (count: u32)
        ensures
            count == self.count(),
    {
        self.frame_count
    }

    pub fn running(&self) -> (running: bool)
        ensures
            running == self.is_running(),
    {
        self.running
    }
}

impl Component for AnimationClock {
    /// The frame shown, the frame count and whether the clock runs.
    fn control_snapshot(&self) -> (snapshot: Option<ControlSnapshot>)
        ensures
            snapshot == Some(ControlSnapshot::Animation(AnimationSnapshot {
                active_frame: self.active(),
                frame_count: self.count(),
                running: self.is_running(),
            })),
    {
        Some(ControlSnapshot::Animation(AnimationSnapshot {
            active_frame: self.active_frame,
            frame_count: self.frame_count,
            running: self.running,
        }))
    }
}

/// One labelled close failure as a line of the report.
pub open spec fn failure_line(failure: (String, String)) -> Seq<char> {
    failure.0@ + ": "@ + failure.1@
}

/// Lines joined by a separator.
pub open spec fn joined(lines: Seq<Seq<char>>, separator: Seq<char>) -> Seq<char>
    decreases lines.len(),
{
    if lines.len() == 0 {
        Seq::empty()
    } else if lines.len() == 1 {
        lines[0]
    } else {
        joined(lines.drop_last(), separator) + separator + lines.last()
    }
}

/// Folds the labelled failures of a close into one report: nothing when
/// there are none, the one line when there is one, and all of them after a
/// heading otherwise.
pub fn combine_close_failures(failures: Vec<(String, String)>) -> (r: Result<(), String>)
    ensures
        failures@.len() == 0 ==> r is Ok,
        failures@.len() == 1 ==> (r matches Err(e) && e@ == failure_line(failures@[0])),
        failures@.len() > 1 ==> (r matches Err(e) && e@ == "close failures: "@
            + joined(failures@.map_values(|f: (String, String)| failure_line(f)), "; "@)),
{
    let n = failures.len();
    if n == 0 {
        return Ok(());
    }
    let ghost lines = failures@.map_values(|f: (String, String)| failure_line(f));
    let mut report = String::new();
    let mut i: usize = 0;
    while i < n
        invariant
            n == failures@.len(),
            n > 0,
            i <= n,
            lines == failures@.map_values(|f: (String, String)| failure_line(f)),
            report@ == joined(lines.take(i as int), "; "@),
        decreases n - i,
    {
        let ghost before = report@;
        if i > 0 {
            report.append("; ");
        }
        report.append(failures[i].0.as_str());
        report.append(": ");
        report.append(failures[i].1.as_str());
        proof {
            let t = lines.take(i as int + 1);
            assert(t.drop_last() =~= lines.take(i as int));
            assert(t.last() == failure_line(failures@[i as int]));
            if i == 0 {
                assert(before =~= Seq::<char>::empty());
                assert(report@ =~= failure_line(failures@[0]));
            } else {
                assert(report@ =~= before + "; "@ + failure_line(failures@[i as int]));
            }
        }
        i = i + 1;
    }
    assert(lines.take(n as int) =~= lines);
    if n == 1 {
        return Err(report);
    }
    let mut heading = "close failures: ".to_owned();
    heading.append(report.as_str());
    Err(heading)
}

/// Where the terminal cursor is left when a host closes.
#[derive(Clone, Copy, Debug, PartialEq, Eq, Structural)]
pub enum FinalPosition {
    Restore,
    PositionAfterFinalFrame,
}

/// Whether closing presents a final exit frame: only when preparing the
/// close did not fail, the pending presentation settled so that a final
/// frame may follow, and the cursor is to be left after that frame.
pub fn runs_final_frame(prepare_failed: bool, continue_to_final: bool, position: FinalPosition) -> (runs: bool)
    ensures
        runs == (!prepare_failed && continue_to_final && position == FinalPosition::PositionAfterFinalFrame),
{
    !prepare_failed && continue_to_final && match position {
        FinalPosition::PositionAfterFinalFrame => true,
        FinalPosition::Restore => false,
    }
}

/// One step of closing a host.
#[derive(Clone, Copy, Debug, PartialEq, Eq, Structural)]
pub enum CloseStep {
    /// Stop scheduling work for the host.
    CancelScheduling,
    /// Settle the presentation receipt still pending.
    SettleReceipt,
    /// Prepare and adopt the final exit frame.
    FinalFrame,
    /// Restore the terminal, whatever failed before.
    RestoreTerminal,
    /// Release the owner's resources, whatever failed before.
    CleanupOwner,
    /// Unregister the host from its environment.
    Unregister,
}

/// The steps of a close, in order: scheduling stops and the pending
/// receipt settles first; the final exit frame runs only when
/// `runs_final_frame` says so; the terminal is restored, the owner cleaned
/// up and the host unregistered in every case.
pub fn close_schedule(prepare_failed: bool, continue_to_final: bool, position: FinalPosition) -> (steps: Vec<CloseStep>)
    ensures
        steps@ == seq![CloseStep::CancelScheduling, CloseStep::SettleReceipt] + (if runs_final_frame_spec(
            prepare_failed,
            continue_to_final,
            position,
        ) {
            seq![CloseStep::FinalFrame]
        } else {
            Seq::<CloseStep>::empty()
        }) + seq![CloseStep::RestoreTerminal, CloseStep::CleanupOwner, CloseStep::Unregister],
{
    let mut steps = vec![CloseStep::CancelScheduling, CloseStep::SettleReceipt];
    if runs_final_frame(prepare_failed, continue_to_final, position) {
        steps.push(CloseStep::FinalFrame);
    }
    steps.push(CloseStep::RestoreTerminal);
    steps.push(CloseStep::CleanupOwner);
    steps.push(CloseStep::Unregister);
    proof {
        let middle = if runs_final_frame_spec(prepare_failed, continue_to_final, position) {
            seq![CloseStep::FinalFrame]
        } else {
            Seq::<CloseStep>::empty()
        };
        assert(steps@ =~= seq![CloseStep::CancelScheduling, CloseStep::SettleReceipt] + middle
            + seq![CloseStep::RestoreTerminal, CloseStep::CleanupOwner, CloseStep::Unregister]);
    }
    steps
}

/// Whether closing presents a final exit frame.
pub open spec fn runs_final_frame_spec(prepare_failed: bool, continue_to_final: bool, position: FinalPosition) -> bool {
    !prepare_failed && continue_to_final && position == FinalPosition::PositionAfterFinalFrame
}

/// What failed in each step of a close, in the order the steps run.
pub struct CloseOutcomes {
    pub receipt: Option<String>,
    pub history: Option<String>,
    pub prepare: Option<String>,
    pub final_frame: Option<String>,
    pub restore: Option<String>,
    pub cleanup: Option<String>,
}

/// One labelled failure, if the step failed.
pub open spec fn labelled(label: Seq<char>, error: Option<String>) -> Seq<(Seq<char>, Seq<char>)> {
    match error {
        Some(e) => seq![(label, e@)],
        None => Seq::empty(),
    }
}

/// The labelled failures of a close, in step order.
pub open spec fn close_failure_lines(o: CloseOutcomes) -> Seq<(Seq<char>, Seq<char>)> {
    labelled("presentation receipt"@, o.receipt) + labelled("History transfer"@, o.history)
        + labelled("close preparation"@, o.prepare) + labelled("final exit frame preparation"@, o.final_frame)
        + labelled("terminal restoration"@, o.restore) + labelled("owner cleanup"@, o.cleanup)
}

/// A run of labelled failures folded into one result.
pub open spec fn folded_failures(fs: Seq<(Seq<char>, Seq<char>)>) -> Result<(), Seq<char>> {
    if fs.len() == 0 {
        Ok(())
    } else if fs.len() == 1 {
        Err(fs[0].0 + ": "@ + fs[0].1)
    } else {
        Err("close failures: "@ + joined(fs.map_values(|p: (Seq<char>, Seq<char>)| p.0 + ": "@ + p.1), "; "@))
    }
}

/// The failures as plain text pairs.
pub open spec fn failure_texts(failures: Seq<(String, String)>) -> Seq<(Seq<char>, Seq<char>)> {
    failures.map_values(|f: (String, String)| (f.0@, f.1@))
}

fn push_failure(failures: &mut Vec<(String, String)>, label: &str, error: Option<String>)
    ensures
        failure_texts(final(failures)@) == failure_texts(old(failures)@) + labelled(label@, error),
{
    match error {
        Some(e) => {
            let ghost before = failures@;
            failures.push((label.to_owned(), e));
            proof {
                assert(failure_texts(failures@) =~= failure_texts(before) + labelled(label@, Some(e)));
            }
        },
        None => {
            assert(failure_texts(old(failures)@) + labelled(label@, None::<String>) =~= failure_texts(old(failures)@));
        },
    }
}

/// The result of a close: its step failures, labelled in step order and
/// folded into one report.
pub fn settle_close_report(outcomes: CloseOutcomes) -> (r: Result<(), String>)
    ensures
        match folded_failures(close_failure_lines(outcomes)) {
            Ok(()) => r is Ok,
            Err(m) => (r matches Err(e) && e@ == m),
        },
{
    let ghost o = outcomes;
    let mut failures: Vec<(String, String)> = Vec::new();
    assert(failure_texts(failures@) =~= Seq::<(Seq<char>, Seq<char>)>::empty());
    push_failure(&mut failures, "presentation receipt", outcomes.receipt);
    push_failure(&mut failures, "History transfer", outcomes.history);
    push_failure(&mut failures, "close preparation", outcomes.prepare);
    push_failure(&mut failures, "final exit frame preparation", outcomes.final_frame);
    push_failure(&mut failures, "terminal restoration", outcomes.restore);
    push_failure(&mut failures, "owner cleanup", outcomes.cleanup);
    let ghost fs = failures@;
    proof {
        assert(failure_texts(fs) =~= close_failure_lines(o));
        assert(fs.map_values(|f: (String, String)| failure_line(f)) =~= close_failure_lines(o).map_values(
            |p: (Seq<char>, Seq<char>)| p.0 + ": "@ + p.1,
        ));
        if fs.len() == 1 {
            assert(failure_texts(fs)[0] == (fs[0].0@, fs[0].1@));
        }
    }
    combine_close_failures(failures)
}

/// Where a host's presentation of its next frame stands.
#[derive(Clone, Copy, Debug, PartialEq, Eq, Structural)]
pub enum PresentationPhase {
    Idle,
    Prepared,
    Completing,
    InFlight,
    Failed,
    Closed,
}

/// Whether a prepared frame can be completed in this phase.
pub fn presentation_completable(phase: PresentationPhase) -> (r: Result<(), String>)
    ensures
        (phase == PresentationPhase::Prepared || phase == PresentationPhase::Completing) <==> r is Ok,
        phase == PresentationPhase::InFlight ==> (r matches Err(e)
            && e@ == "cannot complete a frame while its receipt is still in flight"@),
        (phase == PresentationPhase::Idle || phase == PresentationPhase::Failed || phase == PresentationPhase::Closed)
            ==> (r matches Err(e) && e@ == "missing prepared presentation frame"@),
{
    match phase {
        PresentationPhase::Prepared | PresentationPhase::Completing => Ok(()),
        PresentationPhase::InFlight => Err("cannot complete a frame while its receipt is still in flight".to_owned()),
        _ => Err("missing prepared presentation frame".to_owned()),
    }
}

/// The physical frame a host shows: its identity, the structural revision
/// it presents, and the work epoch it committed.
#[derive(Clone, Copy, Debug, PartialEq, Eq, Structural)]
pub struct VisibleFrame {
    pub frame_revision: u64,
    pub structural_revision: u64,
    pub committed_epoch: u64,
}

impl VisibleFrame {
    /// Commits a candidate frame: a candidate without output must name the
    /// frame already shown, one with output the very next frame; on success
    /// the candidate's identity, structural revision and epoch become
    /// visible, and on refusal nothing changes.
    pub fn commit_candidate(&mut self, frame_id: u64, no_output: bool, structural_revision: u64, epoch: u64) -> (r: Result<(), String>)
        ensures
            no_output ==> (r is Ok <==> frame_id == old(self).frame_revision),
            no_output && frame_id != old(self).frame_revision ==> (r matches Err(e)
                && e@ == "metadata candidate does not reference the confirmed physical frame"@),
            !no_output && old(self).frame_revision == u64::MAX ==> (r matches Err(e)
                && e@ == "visible frame revision exhausted"@),
            !no_output && old(self).frame_revision < u64::MAX ==> (r is Ok <==> frame_id == old(self).frame_revision + 1),
            !no_output && old(self).frame_revision < u64::MAX && frame_id != old(self).frame_revision + 1 ==> (r matches Err(e)
                && e@ == "output candidate physical frame identity is not monotonic"@),
            r is Ok ==> *final(self) == (VisibleFrame { frame_revision: frame_id, structural_revision, committed_epoch: epoch }),
            r is Err ==> *final(self) == *old(self),
    {
        if no_output {
            if frame_id != self.frame_revision {
                return Err("metadata candidate does not reference the confirmed physical frame".to_owned());
            }
        } else {
            let next = match self.frame_revision.checked_add(1) {
                Some(next) => next,
                None => {
                    return Err("visible frame revision exhausted".to_owned());
                },
            };
            if frame_id != next {
                return Err("output candidate physical frame identity is not monotonic".to_owned());
            }
        }
        self.frame_revision = frame_id;
        self.structural_revision = structural_revision;
        self.committed_epoch = epoch;
        Ok(())
    }
}

/// A terminal color as the physical layer reports it.
#[derive(Clone, Debug, PartialEq, Eq)]
pub enum PhysicalColor {
    Default,
    /// A named color, by its name.
    Named(String),
    /// An indexed ANSI color.
    Indexed(u8),
    Rgb { r: u8, g: u8, b: u8 },
}

/// The lowercase hexadecimal digit `d`.
pub open spec fn hex_char(d: nat) -> char {
    if d == 10 { 'a' } else if d == 11 { 'b' } else if d == 12 { 'c' } else if d == 13 { 'd' }
    else if d == 14 { 'e' } else if d == 15 { 'f' } else if d == 0 { '0' } else if d == 1 { '1' }
    else if d == 2 { '2' } else if d == 3 { '3' } else if d == 4 { '4' } else if d == 5 { '5' }
    else if d == 6 { '6' } else if d == 7 { '7' } else if d == 8 { '8' } else { '9' }
}

/// A byte as two lowercase hexadecimal digits.
pub open spec fn hex_byte(b: u8) -> Seq<char> {
    seq![hex_char((b / 16) as nat), hex_char((b % 16) as nat)]
}

/// How a host reports a color: `default`, a named color by its name,
/// `ansi:` and the index, or `#` and the three channels in hexadecimal.
pub open spec fn color_text(color: PhysicalColor) -> Seq<char> {
    match color {
        PhysicalColor::Default => "default"@,
        PhysicalColor::Named(name) => name@,
        PhysicalColor::Indexed(value) => "ansi:"@ + decimal(value as nat),
        PhysicalColor::Rgb { r, g, b } => "#"@ + hex_byte(r) + hex_byte(g) + hex_byte(b),
    }
}

fn hex_text(d: u8) -> (t: &'static str)
    requires
        d < 16,
    ensures
        t@ == seq![hex_char(d as nat)],
{
    proof {
        reveal_strlit("0");
        reveal_strlit("1");
        reveal_strlit("2");
        reveal_strlit("3");
        reveal_strlit("4");
        reveal_strlit("5");
        reveal_strlit("6");
        reveal_strlit("7");
        reveal_strlit("8");
        reveal_strlit("9");
        reveal_strlit("a");
        reveal_strlit("b");
        reveal_strlit("c");
        reveal_strlit("d");
        reveal_strlit("e");
        reveal_strlit("f");
    }
    if d == 10 { "a" } else if d == 11 { "b" } else if d == 12 { "c" } else if d == 13 { "d" }
    else if d == 14 { "e" } else if d == 15 { "f" } else if d == 0 { "0" } else if d == 1 { "1" }
    else if d == 2 { "2" } else if d == 3 { "3" } else if d == 4 { "4" } else if d == 5 { "5" }
    else if d == 6 { "6" } else if d == 7 { "7" } else if d == 8 { "8" } else { "9" }
}

fn push_hex_byte(out: &mut String, b: u8)
    ensures
        final(out)@ == old(out)@ + hex_byte(b),
{
    out.append(hex_text(b / 16));
    out.append(hex_text(b % 16));
    assert(out@ =~= old(out)@ + hex_byte(b));
}

/// The text a host reports for a physical color.
pub fn physical_color(color: &PhysicalColor) -> (text: String)
    ensures
        text@ == color_text(*color),
{
    match color {
        PhysicalColor::Default => {
            let text = "default".to_owned();
            text
        },
        PhysicalColor::Named(name) => name.clone(),
        PhysicalColor::Indexed(value) => {
            let mut text = "ansi:".to_owned();
            push_decimal(&mut text, *value as u64);
            text
        },
        PhysicalColor::Rgb { r, g, b } => {
            let mut text = "#".to_owned();
            push_hex_byte(&mut text, *r);
            push_hex_byte(&mut text, *g);
            push_hex_byte(&mut text, *b);
            proof {
                assert(text@ =~= "#"@ + hex_byte(*r) + hex_byte(*g) + hex_byte(*b));
            }
            text
        },
    }
}

} // verus!
