//! Properties that hold across the library's operations, stated over the
//! same models their contracts use.
use vstd::prelude::*;

use crate::annotation::{sorted_by_seqno, overlaps, SourceAnnotation};
use crate::chunk::{line_starts, lemma_nl_ends_props, nl_ends};
use crate::component::graph::MountGraph;
use crate::component::ids::ComponentId;
use crate::component::mount::{mounts, unmounts, MountTransition};
use crate::component::tick::{mount_steps, TickRegistration};
use crate::host::{NativeUiEvent, UiEventQueue};
use crate::store::{lemma_overlap_filter, lemma_window_survivors, overlap_filter, retained, StoredSource};
use crate::ui_resources::{
    after_actions, after_history_updates, HistoryUnitOwner, ResourceMaps, UiResourceAction, UiResourceLifecycle,
    UiResourceOwner, closed_as_released, releases_cannot_fail, close_report, failures_account, CloseFailure,
    SourceRelease,
};

verus! {

/// Line entries of retained text start at the base and strictly increase,
/// and each lies inside the text or just past its end.
pub proof fn line_entries_start_at_base_and_increase(base: int, t: Seq<u8>)
    ensures
        line_starts(base, t).len() >= 1,
        line_starts(base, t)[0] == base,
        forall|i: int, j: int| 0 <= i < j < line_starts(base, t).len() ==> line_starts(base, t)[i] < line_starts(base, t)[j],
        forall|i: int| 0 <= i < line_starts(base, t).len() ==> base <= #[trigger] line_starts(base, t)[i] <= base + t.len(),
{
    lemma_nl_ends_props(t);
    let ls = line_starts(base, t);
    assert forall|i: int, j: int| 0 <= i < j < ls.len() implies ls[i] < ls[j] by {
        if i > 0 {
            assert(nl_ends(t)[i - 1] < nl_ends(t)[j - 1]);
        } else {
            assert(nl_ends(t)[j - 1] >= 1);
        }
    }
    assert forall|i: int| 0 <= i < ls.len() implies base <= #[trigger] ls[i] <= base + t.len() by {
        if i > 0 {
            assert(1 <= nl_ends(t)[i - 1] <= t.len());
        }
    }
}

/// Truncating the head of a Source keeps absolute coordinates: every byte
/// at or after the cut is found at the same absolute offset as before.
pub proof fn truncation_keeps_absolute_bytes(before: StoredSource, after: StoredSource, k: int)
    requires
        before.wf(),
        before.base < after.base <= k < before.end,
        after.content() == before.content().skip(after.base - before.base),
    ensures
        after.content()[k - after.base] == before.content()[k - before.base],
{
}

/// Retention never leaves more records than the count cap, keeps only
/// records it was given, and keeps them in acceptance order.
pub proof fn retention_respects_the_cap(s: Seq<SourceAnnotation>, end: u64, max_annotations: usize, max_retained_bytes: u64)
    ensures
        retained(s, end, max_annotations, max_retained_bytes).len() <= max_annotations || retained(s, end, max_annotations, max_retained_bytes) == s,
        retained(s, end, max_annotations, max_retained_bytes).len() <= s.len(),
        forall|a: SourceAnnotation| #[trigger] retained(s, end, max_annotations, max_retained_bytes).contains(a) ==> s.contains(a),
        sorted_by_seqno(s) ==> sorted_by_seqno(retained(s, end, max_annotations, max_retained_bytes)),
{
    if s.len() > max_annotations {
        let floor = crate::store::span_len(end, max_retained_bytes);
        lemma_window_survivors(s, floor);
        let kept = crate::store::window_survivors(s, floor);
        if kept.len() > max_annotations {
            let r = kept.skip(kept.len() - max_annotations);
            assert forall|a: SourceAnnotation| #[trigger] r.contains(a) implies s.contains(a) by {
                let i = choose|i: int| 0 <= i < r.len() && r[i] == a;
                assert(kept[i + kept.len() - max_annotations] == a);
                assert(kept.contains(a));
            }
        }
    }
}

/// Overlap queries answer in acceptance order, with exactly the records
/// that intersect the range.
pub proof fn overlaps_come_in_acceptance_order(s: Seq<SourceAnnotation>, start: u64, end: u64)
    ensures
        sorted_by_seqno(s) ==> sorted_by_seqno(overlap_filter(s, start, end)),
        forall|a: SourceAnnotation| #[trigger] overlap_filter(s, start, end).contains(a) <==> (s.contains(a) && overlaps(a, start, end)),
    decreases s.len(),
{
    lemma_overlap_filter(s, start, end);
    if s.len() > 0 {
        overlaps_come_in_acceptance_order(s.drop_last(), start, end);
        let p = s.drop_last();
        let f = overlap_filter(p, start, end);
        lemma_overlap_filter(p, start, end);
        if sorted_by_seqno(s) && overlaps(s.last(), start, end) {
            assert forall|i: int| 0 <= i < f.len() implies #[trigger] f[i].seqno < s.last().seqno by {
                assert(f.contains(f[i]));
                assert(p.contains(f[i]));
                let k = choose|k: int| 0 <= k < p.len() && p[k] == f[i];
                assert(s[k] == f[i]);
            }
        }
    }
}

/// Reconciling a graph that mounts the same identities as the current one
/// (reordered, reparented or with new revisions) produces no transition.
pub proof fn reconciling_the_same_identities_is_silent(current: MountGraph, next: MountGraph)
    requires
        current.wf(),
        next.wf(),
        current.nodes().dom() == next.nodes().dom(),
    ensures
        unmounts(current.order(), next.nodes()) + mounts(next.order(), next.nodes(), current.nodes())
            == Seq::<crate::component::mount::MountTransition>::empty(),
{
    current.lemma_order();
    next.lemma_order();
    lemma_no_unmounts(current.order(), next, current);
    lemma_no_mounts(next.order(), next, current);
}

proof fn lemma_no_unmounts(order: Seq<crate::component::ids::ComponentId>, next: MountGraph, current: MountGraph)
    requires
        current.nodes().dom() == next.nodes().dom(),
        forall|i: int| 0 <= i < order.len() ==> current.nodes().contains_key(#[trigger] order[i].value),
    ensures
        unmounts(order, next.nodes()) == Seq::<crate::component::mount::MountTransition>::empty(),
    decreases order.len(),
{
    if order.len() > 0 {
        assert(current.nodes().contains_key(order[0].value));
        assert forall|i: int| 0 <= i < order.drop_first().len() implies current.nodes().contains_key(#[trigger] order.drop_first()[i].value) by {
            assert(order.drop_first()[i] == order[i + 1]);
        }
        lemma_no_unmounts(order.drop_first(), next, current);
    }
}

proof fn lemma_no_mounts(order: Seq<crate::component::ids::ComponentId>, next: MountGraph, current: MountGraph)
    requires
        current.nodes().dom() == next.nodes().dom(),
        forall|i: int| 0 <= i < order.len() ==> next.nodes().contains_key(#[trigger] order[i].value),
    ensures
        mounts(order, next.nodes(), current.nodes()) == Seq::<crate::component::mount::MountTransition>::empty(),
    decreases order.len(),
{
    if order.len() > 0 {
        assert(next.nodes().contains_key(order.last().value));
        assert(current.nodes().dom().contains(order.last().value));
        assert forall|i: int| 0 <= i < order.drop_last().len() implies next.nodes().contains_key(#[trigger] order.drop_last()[i].value) by {
            assert(order.drop_last()[i] == order[i]);
        }
        lemma_no_mounts(order.drop_last(), next, current);
    }
}

/// Applying two runs of resource actions one after the other is applying
/// their concatenation.
pub proof fn resource_actions_compose(m: ResourceMaps, a: Seq<UiResourceAction>, b: Seq<UiResourceAction>)
    ensures
        after_actions(after_actions(m, a), b) == after_actions(m, a + b),
    decreases b.len(),
{
    if b.len() == 0 {
        assert(a + b =~= a);
    } else {
        resource_actions_compose(m, a, b.drop_last());
        assert((a + b).drop_last() =~= a + b.drop_last());
        assert((a + b).last() == b.last());
    }
}

/// Applying two runs of History binding updates one after the other is
/// applying their concatenation.
pub proof fn history_updates_compose(
    m: Map<u64, HistoryUnitOwner>,
    a: Seq<(u64, Option<HistoryUnitOwner>)>,
    b: Seq<(u64, Option<HistoryUnitOwner>)>,
)
    ensures
        after_history_updates(after_history_updates(m, a), b) == after_history_updates(m, a + b),
    decreases b.len(),
{
    if b.len() == 0 {
        assert(a + b =~= a);
    } else {
        history_updates_compose(m, a, b.drop_last());
        assert((a + b).drop_last() =~= a + b.drop_last());
        assert((a + b).last() == b.last());
    }
}

/// Unmounting a component takes its tick deadline away; mounting it again
/// starts a fresh interval from the moment of the remount.
pub proof fn unmount_then_remount_resets_the_deadline(
    regs: Map<u64, TickRegistration>,
    mounted: Set<u64>,
    id: ComponentId,
    parent: Option<ComponentId>,
    unmounted_at: u64,
    remounted_at: u64,
)
    requires
        regs.contains_key(id.value),
        remounted_at + regs[id.value].interval <= u64::MAX,
    ensures
        ({
            let (r1, m1) = mount_steps(regs, mounted, seq![MountTransition::Unmounted { id }], unmounted_at);
            let (r2, m2) = mount_steps(r1, m1, seq![MountTransition::Mounted { id, parent }], remounted_at);
            &&& r1.contains_key(id.value) && r1[id.value].next_due is None
            &&& !m1.contains(id.value)
            &&& r2[id.value].next_due == Some((remounted_at + regs[id.value].interval) as u64)
            &&& r2[id.value].interval == regs[id.value].interval
            &&& m2.contains(id.value)
        }),
{
    let u = seq![MountTransition::Unmounted { id }];
    let m = seq![MountTransition::Mounted { id, parent }];
    assert(u.drop_last() =~= Seq::<MountTransition>::empty());
    assert(m.drop_last() =~= Seq::<MountTransition>::empty());
    assert(mount_steps(regs, mounted, Seq::<MountTransition>::empty(), unmounted_at) == (regs, mounted));
    let (r1, m1) = mount_steps(regs, mounted, u, unmounted_at);
    assert(r1 == crate::component::tick::deactivate_map(regs, id.value));
    assert(m1 == mounted.remove(id.value));
    assert(mount_steps(r1, m1, Seq::<MountTransition>::empty(), remounted_at) == (r1, m1));
    let (r2, m2) = mount_steps(r1, m1, m, remounted_at);
    assert(r2 == crate::component::tick::activate_map(r1, id.value, remounted_at));
}

/// Events leave the queue in the order they were admitted: a drain after
/// two admitted batches hands out the first batch, then the second.
pub proof fn admitted_events_drain_in_admission_order(
    empty: UiEventQueue,
    first: UiEventQueue,
    second: UiEventQueue,
    a: Seq<NativeUiEvent>,
    b: Seq<NativeUiEvent>,
)
    requires
        empty.events() == Seq::<NativeUiEvent>::empty(),
        first.events() == empty.events() + a,
        second.events() == first.events() + b,
    ensures
        second.events() == a + b,
        second.events().take(a.len() as int) == a,
        second.events().skip(a.len() as int) == b,
{
    assert(empty.events() + a =~= a);
    assert((a + b).take(a.len() as int) =~= a);
    assert((a + b).skip(a.len() as int) =~= b);
}

/// A Source retains, from its base, the tail of everything it has taken in:
/// absolute offsets index the taken bytes directly, and the end is their
/// length.
pub open spec fn retains_tail_of(s: StoredSource, taken: Seq<u8>) -> bool {
    &&& s.end == taken.len()
    &&& s.base <= s.end
    &&& s.content() == taken.subrange(s.base as int, taken.len() as int)
}

/// Empty storage has taken in nothing.
pub proof fn empty_storage_retains_nothing(s: StoredSource)
    requires
        s.content().len() == 0,
        s.base == 0,
        s.end == 0,
    ensures
        retains_tail_of(s, Seq::<u8>::empty()),
{
    assert(s.content() =~= Seq::<u8>::empty().subrange(0, 0));
}

/// An append adds its text to what the Source has taken in.
pub proof fn append_extends_the_taken_bytes(before: StoredSource, after: StoredSource, taken: Seq<u8>, text: Seq<u8>)
    requires
        retains_tail_of(before, taken),
        after.base == before.base,
        after.end == before.end + text.len(),
        after.content() == before.content() + text,
    ensures
        retains_tail_of(after, taken + text),
{
    assert(after.content() =~= (taken + text).subrange(after.base as int, (taken + text).len() as int));
}

/// A head truncation drops retained bytes but leaves what was taken in, and
/// so every absolute offset, as it was.
pub proof fn truncation_keeps_the_taken_bytes(before: StoredSource, after: StoredSource, taken: Seq<u8>)
    requires
        retains_tail_of(before, taken),
        before.base <= after.base <= before.end,
        after.end == before.end,
        after.content() == before.content().skip(after.base - before.base),
    ensures
        retains_tail_of(after, taken),
{
    assert(after.content() =~= taken.subrange(after.base as int, taken.len() as int));
}

/// One step in the life of a Source: `Some(text)` is an append of `text`,
/// `None` a head truncation, as `apply_append` and `apply_truncate` state
/// them.
pub open spec fn source_step(before: StoredSource, step: Option<Seq<u8>>, after: StoredSource) -> bool {
    match step {
        Some(text) => {
            &&& after.base == before.base
            &&& after.end == before.end + text.len()
            &&& after.content() == before.content() + text
        },
        None => {
            &&& before.base <= after.base <= before.end
            &&& after.end == before.end
            &&& after.content() == before.content().skip(after.base - before.base)
        },
    }
}

/// Every byte the appends of `steps` took in, in order.
pub open spec fn taken_by(steps: Seq<Option<Seq<u8>>>) -> Seq<u8>
    decreases steps.len(),
{
    if steps.len() == 0 {
        Seq::empty()
    } else {
        taken_by(steps.drop_last()) + match steps.last() {
            Some(text) => text,
            None => Seq::<u8>::empty(),
        }
    }
}

/// After any run of `StoredSource::apply_append` and
/// `StoredSource::apply_truncate` calls from `StoredSource::empty()`, the
/// content that `collect_text` copies out is the appended bytes from the
/// base on: absolute offsets index them directly, and the end is their
/// total length.
pub proof fn any_history_retains_the_tail(states: Seq<StoredSource>, steps: Seq<Option<Seq<u8>>>)
    requires
        states.len() == steps.len() + 1,
        states[0].content().len() == 0,
        states[0].base == 0,
        states[0].end == 0,
        forall|i: int| 0 <= i < steps.len() ==> source_step(states[i], #[trigger] steps[i], states[i + 1]),
    ensures
        retains_tail_of(states.last(), taken_by(steps)),
        states.last().content() == taken_by(steps).subrange(states.last().base as int, taken_by(steps).len() as int),
        states.last().end == taken_by(steps).len(),
    decreases steps.len(),
{
    if steps.len() == 0 {
        empty_storage_retains_nothing(states[0]);
    } else {
        let n = steps.len() - 1;
        let prior = states.take(n + 1);
        let prior_steps = steps.drop_last();
        assert forall|i: int| 0 <= i < prior_steps.len() implies source_step(prior[i], #[trigger] prior_steps[i], prior[i + 1]) by {
            assert(source_step(states[i], steps[i], states[i + 1]));
        }
        any_history_retains_the_tail(prior, prior_steps);
        assert(prior.last() == states[n]);
        assert(source_step(states[n], steps[n], states[n + 1]));
        match steps[n] {
            Some(text) => {
                append_extends_the_taken_bytes(states[n], states[n + 1], taken_by(prior_steps), text);
            },
            None => {
                truncation_keeps_the_taken_bytes(states[n], states[n + 1], taken_by(prior_steps));
                assert(taken_by(prior_steps) + Seq::<u8>::empty() =~= taken_by(prior_steps));
            },
        }
        assert(states.last() == states[n + 1]);
    }
}

/// One step in the life of a UI resource owner: a close (`true`), or a
/// change that needs the owner open and keeps it open, as `close`,
/// `apply_actions` and `apply_history_updates` state them.
pub open spec fn owner_step(before: UiResourceOwner, closing: bool, after: UiResourceOwner) -> bool {
    if closing {
        &&& after.state() != UiResourceLifecycle::Open
        &&& (before.closed_holds_nothing() ==> after.closed_holds_nothing())
    } else {
        &&& before.state() == UiResourceLifecycle::Open
        &&& after.state() == before.state()
    }
}

/// From a new owner, the owner is open, and so hands out its body handle,
/// exactly until the first close, whatever that close answered; and a
/// closed owner holds nothing.
pub proof fn open_until_first_close(states: Seq<UiResourceOwner>, closes: Seq<bool>)
    requires
        states.len() == closes.len() + 1,
        states[0].state() == UiResourceLifecycle::Open,
        forall|i: int| 0 <= i < closes.len() ==> owner_step(states[i], #[trigger] closes[i], states[i + 1]),
    ensures
        states.last().state() == UiResourceLifecycle::Open <==> !closes.contains(true),
        states.last().closed_holds_nothing(),
    decreases closes.len(),
{
    if closes.len() > 0 {
        let n = closes.len() - 1;
        let prior = states.take(n + 1);
        let prior_closes = closes.drop_last();
        assert forall|i: int| 0 <= i < prior_closes.len() implies owner_step(prior[i], #[trigger] prior_closes[i], prior[i + 1]) by {
            assert(owner_step(states[i], closes[i], states[i + 1]));
        }
        open_until_first_close(prior, prior_closes);
        assert(prior.last() == states[n]);
        assert(owner_step(states[n], closes[n], states[n + 1]));
        assert(closes =~= prior_closes.push(closes[n]));
        if closes.contains(true) && !closes[n] {
            let j = choose|j: int| 0 <= j < closes.len() && closes[j] == true;
            assert(prior_closes[j] == true);
        }
        if prior_closes.contains(true) {
            let j = choose|j: int| 0 <= j < prior_closes.len() && prior_closes[j] == true;
            assert(closes[j] == true);
        }
        if closes[n] {
            assert(closes[n] == true);
        }
        assert(states.last() == states[n + 1]);
    }
}

/// What `UiResourceOwner::close` states of one call, answered by
/// `release`.
pub open spec fn close_step<F: Fn(SourceRelease) -> Result<(), String>>(
    release: F,
    before: UiResourceOwner,
    r: Result<(), String>,
    after: UiResourceOwner,
) -> bool {
    &&& before.state() == UiResourceLifecycle::Closed ==> {
        &&& r is Ok
        &&& after.state() == UiResourceLifecycle::Closed
        &&& after.maps() == before.maps()
        &&& after.history() == before.history()
    }
    &&& before.state() != UiResourceLifecycle::Closed ==> closed_as_released(
        release, before.maps(), before.history(), after.maps(), after.history(), after.state(), r)
    &&& after.state() != UiResourceLifecycle::Open
    &&& before.closed_holds_nothing() ==> after.closed_holds_nothing()
}

/// A close in which no release can fail succeeds, whether or not the owner
/// was closed already, and leaves a closed owner that holds nothing and
/// refuses its body handle.
pub proof fn close_without_failures_empties_the_owner<F: Fn(SourceRelease) -> Result<(), String>>(
    release: F,
    before: UiResourceOwner,
    r: Result<(), String>,
    after: UiResourceOwner,
)
    requires
        close_step(release, before, r, after),
        before.closed_holds_nothing(),
        releases_cannot_fail(release, before.maps()),
    ensures
        r is Ok,
        after.state() == UiResourceLifecycle::Closed,
        after.maps() == (ResourceMaps {
            ports: Set::empty(),
            connectors: Map::empty(),
            literal_sources: Map::empty(),
            private_sources: Map::empty(),
        }),
        after.history() == Map::<u64, HistoryUnitOwner>::empty(),
{
    if before.state() != UiResourceLifecycle::Closed {
        reveal(closed_as_released);
        if r is Err {
            if exists|k: u64| #[trigger] after.maps().connectors.contains_key(k) {
                let k = choose|k: u64| #[trigger] after.maps().connectors.contains_key(k);
                let e = choose|e: String| release.ensures(
                    (SourceRelease::Connector(before.maps().connectors[k].0),), Err::<(), String>(e));
                assert(!release.ensures((SourceRelease::Connector(before.maps().connectors[k].0),), Err::<(), String>(e)));
            } else {
                let k = choose|k: u64| #[trigger] after.maps().private_sources.contains_key(k)
                    && !after.maps().connectors.contains_key(k);
                let e = choose|e: String| release.ensures(
                    (SourceRelease::Private(before.maps().private_sources[k]),), Err::<(), String>(e));
                assert(!release.ensures((SourceRelease::Private(before.maps().private_sources[k]),), Err::<(), String>(e)));
            }
        }
    }
}

/// A close that fails leaves the owner closing, not open: it keeps its
/// Ports, literal Sources and History, keeps exactly the Connectors and
/// private Sources whose release failed, drops those released, and reports
/// one message per failure, Connectors first, joined by "; ". A later
/// close starts from what remains.
pub proof fn failed_close_keeps_what_failed<F: Fn(SourceRelease) -> Result<(), String>>(
    release: F,
    before: UiResourceOwner,
    e: String,
    after: UiResourceOwner,
)
    requires
        close_step(release, before, Err(e), after),
    ensures
        before.state() != UiResourceLifecycle::Closed,
        after.state() == UiResourceLifecycle::Closing,
        after.maps().ports == before.maps().ports,
        after.maps().literal_sources == before.maps().literal_sources,
        after.history() == before.history(),
        forall|k: u64| #[trigger] after.maps().connectors.contains_key(k) ==> before.maps().connectors.contains_key(k)
            && after.maps().connectors[k] == before.maps().connectors[k],
        forall|k: u64| #[trigger] before.maps().connectors.contains_key(k) && !after.maps().connectors.contains_key(k)
            ==> release.ensures((SourceRelease::Connector(before.maps().connectors[k].0),), Ok::<(), String>(())),
        forall|k: u64| #[trigger] before.maps().private_sources.contains_key(k) && !after.maps().private_sources.contains_key(k)
            ==> release.ensures((SourceRelease::Private(before.maps().private_sources[k]),), Ok::<(), String>(())),
        exists|fails: Seq<CloseFailure>| #[trigger] close_report(fails) == e@
            && failures_account(fails, release, before.maps(), after.maps()),
{
    reveal(closed_as_released);
}

} // verus!
