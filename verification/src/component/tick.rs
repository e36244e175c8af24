//! Tick scheduling for mounted retained components.
//!
//! The scheduler decides which mounted components are due and when the
//! next one will be; running a component's tick handler is the caller's
//! part. Times are nanoseconds on the caller's monotonic clock.
use std::collections::{HashMap, HashSet};
use vstd::prelude::*;
use vstd::std_specs::iter::IteratorSpec;

use crate::component::graph::{map_keys, MountGraph};
use crate::component::ids::ComponentId;
use crate::component::mount::{MountTransition, MountTransitions};

verus! {

broadcast use vstd::std_specs::hash::group_hash_axioms;

/// One declared tick: its interval and, while active, its next deadline.
#[derive(Clone, Copy, Debug, PartialEq, Eq, Structural)]
pub struct TickRegistration {
    pub interval: u64,
    pub next_due: Option<u64>,
}

/// Whether any tick ran, and whether a ran tick asked for a redraw.
#[derive(Clone, Copy, Debug, PartialEq, Eq, Structural)]
pub struct TickOutcome {
    pub ran: bool,
    pub dirty: bool,
}

/// The registration with its deadline one interval after `now`.
pub open spec fn due_at(r: TickRegistration, now: u64) -> TickRegistration {
    TickRegistration { next_due: Some((now + r.interval) as u64), ..r }
}

/// The registration with no deadline.
pub open spec fn inactive(r: TickRegistration) -> TickRegistration {
    TickRegistration { next_due: None, ..r }
}

/// Activating `k`: a registered component becomes due one interval on.
pub open spec fn activate_map(regs: Map<u64, TickRegistration>, k: u64, now: u64) -> Map<u64, TickRegistration> {
    if regs.contains_key(k) {
        regs.insert(k, due_at(regs[k], now))
    } else {
        regs
    }
}

/// Deactivating `k`: a registered component loses its deadline.
pub open spec fn deactivate_map(regs: Map<u64, TickRegistration>, k: u64) -> Map<u64, TickRegistration> {
    if regs.contains_key(k) {
        regs.insert(k, inactive(regs[k]))
    } else {
        regs
    }
}

/// Registrations and mounted set after the transitions `ts`, in order.
pub open spec fn mount_steps(
    regs: Map<u64, TickRegistration>,
    mounted: Set<u64>,
    ts: Seq<MountTransition>,
    now: u64,
) -> (Map<u64, TickRegistration>, Set<u64>)
    decreases ts.len(),
{
    if ts.len() == 0 {
        (regs, mounted)
    } else {
        let (r, m) = mount_steps(regs, mounted, ts.drop_last(), now);
        match ts.last() {
            MountTransition::Mounted { id, .. } => (activate_map(r, id.value, now), m.insert(id.value)),
            MountTransition::Unmounted { id } => (deactivate_map(r, id.value), m.remove(id.value)),
        }
    }
}

/// Registrations after activation is synchronized with the mounted
/// identities `ids`: newly mounted or inactive ones become due, formerly
/// mounted ones that left lose their deadline.
pub open spec fn synced(regs: Map<u64, TickRegistration>, mounted: Set<u64>, ids: Set<u64>, now: u64) -> Map<
    u64,
    TickRegistration,
> {
    Map::new(
        |k: u64| regs.contains_key(k),
        |k: u64|
            if ids.contains(k) {
                if !mounted.contains(k) || regs[k].next_due is None {
                    due_at(regs[k], now)
                } else {
                    regs[k]
                }
            } else if mounted.contains(k) {
                inactive(regs[k])
            } else {
                regs[k]
            },
    )
}

/// The raw identities of a sequence of components.
pub open spec fn raw_set(ids: Seq<ComponentId>) -> Set<u64> {
    Set::new(|k: u64| exists|i: int| 0 <= i < ids.len() && #[trigger] ids[i].value == k)
}

/// The elements of a set of raw identities, each once.
fn set_elems(s: &HashSet<u64>) -> (elems: Vec<u64>)
    ensures
        elems@.no_duplicates(),
        forall|k: u64| #[trigger] elems@.contains(k) <==> s@.contains(k),
{
    let mut elems: Vec<u64> = Vec::new();
    let ghost all = vstd::std_specs::hash::spec_hash_keys_iter(s).remaining();
    proof {
        vstd::std_specs::hash::axiom_spec_hash_keys_iter(s);
    }
    for k in it: s.iter()
        invariant
            it.seq() == all,
            all.unref().to_set() == s@,
            all.no_duplicates(),
            elems@ == it.seq().take(it.index() as int).map_values(|r: &u64| *r),
    {
        elems.push(*k);
    }
    proof {
        assert(elems@ =~= all.map_values(|r: &u64| *r));
        assert forall|k: u64| #[trigger] elems@.contains(k) <==> s@.contains(k) by {
            if elems@.contains(k) {
                let i = choose|i: int| 0 <= i < elems@.len() && elems@[i] == k;
                assert(all.unref()[i] == k);
                assert(all.unref().contains(k));
            }
            if s@.contains(k) {
                assert(all.unref().to_set().contains(k));
                let i = choose|i: int| 0 <= i < all.unref().len() && all.unref()[i] == k;
                assert(elems@[i] == k);
            }
        }
        assert(elems@.no_duplicates()) by {
            assert forall|i: int, j: int| 0 <= i < elems@.len() && 0 <= j < elems@.len() && i != j implies elems@[i] != elems@[j] by {
                assert(all[i] != all[j]);
            }
        }
    }
    elems
}

/// Private scheduler for mounted retained components.
pub struct TickScheduler {
    registrations: HashMap<u64, TickRegistration>,
    mounted: HashSet<u64>,
    mount_order: Vec<ComponentId>,
}

impl TickScheduler {
    pub closed spec fn regs(&self) -> Map<u64, TickRegistration> {
        self.registrations@
    }

    pub closed spec fn mounted_set(&self) -> Set<u64> {
        self.mounted@
    }

    pub closed spec fn order(&self) -> Seq<ComponentId> {
        self.mount_order@
    }

    /// Every registered deadline can be set one interval after `now`.
    pub open spec fn fits(&self, now: u64) -> bool {
        forall|k: u64| #[trigger] self.regs().contains_key(k) ==> now + self.regs()[k].interval <= u64::MAX
    }

    pub fn new() -> (scheduler: Self)
        ensures
            scheduler.regs() == Map::<u64, TickRegistration>::empty(),
            scheduler.mounted_set() == Set::<u64>::empty(),
            scheduler.order() == Seq::<ComponentId>::empty(),
    {
        TickScheduler { registrations: HashMap::new(), mounted: HashSet::new(), mount_order: Vec::new() }
    }

    /// A registered component becomes due one interval after `now`.
    fn activate(&mut self, id: u64, now: u64)
        requires
            old(self).fits(now),
        ensures
            final(self).regs() == activate_map(old(self).regs(), id, now),
            final(self).mounted_set() == old(self).mounted_set(),
            final(self).order() == old(self).order(),
    {
        match self.registrations.get(&id) {
            Some(registration) => {
                let updated = TickRegistration { interval: registration.interval, next_due: Some(now + registration.interval) };
                self.registrations.insert(id, updated);
            },
            None => {},
        }
    }

    /// A registered component loses its deadline.
    fn deactivate(&mut self, id: u64)
        ensures
            final(self).regs() == deactivate_map(old(self).regs(), id),
            final(self).mounted_set() == old(self).mounted_set(),
            final(self).order() == old(self).order(),
    {
        match self.registrations.get(&id) {
            Some(registration) => {
                let updated = TickRegistration { interval: registration.interval, next_due: None };
                self.registrations.insert(id, updated);
            },
            None => {},
        }
    }
}


/// `ids` with one more identity taken from the front of `order`.
proof fn lemma_raw_set_take(order: Seq<ComponentId>, j: int)
    requires
        0 <= j < order.len(),
    ensures
        raw_set(order.take(j + 1)) == raw_set(order.take(j)).insert(order[j].value),
{
    assert(raw_set(order.take(j + 1)) =~= raw_set(order.take(j)).insert(order[j].value)) by {
        assert forall|k: u64| raw_set(order.take(j + 1)).contains(k) <==> raw_set(order.take(j)).insert(order[j].value).contains(k) by {
            if raw_set(order.take(j + 1)).contains(k) {
                let i = choose|i: int| 0 <= i < order.take(j + 1).len() && #[trigger] order.take(j + 1)[i].value == k;
                if i < j {
                    assert(order.take(j)[i].value == k);
                }
            }
            if raw_set(order.take(j)).contains(k) {
                let i = choose|i: int| 0 <= i < order.take(j).len() && #[trigger] order.take(j)[i].value == k;
                assert(order.take(j + 1)[i].value == k);
            }
            if k == order[j].value {
                assert(order.take(j + 1)[j].value == k);
            }
        }
    }
}

impl TickScheduler {
    /// Synchronizes activation with the mount graph: applies the
    /// transitions, activates newly mounted or inactive components of the
    /// graph, deactivates mounted components the graph no longer holds, and
    /// records the graph's mount order.
    pub fn sync_mounts(&mut self, graph: &MountGraph, transitions: &MountTransitions, now: u64)
        requires
            old(self).fits(now),
            graph.wf(),
        ensures
            ({
                let (r1, m1) = mount_steps(old(self).regs(), old(self).mounted_set(), transitions.transitions@, now);
                &&& final(self).regs() == synced(r1, m1, raw_set(graph.order()), now)
                &&& final(self).mounted_set() == raw_set(graph.order())
                &&& final(self).order() == graph.order()
            }),
            final(self).fits(now),
    {
        let ghost r0 = self.regs();
        let ghost m0 = self.mounted_set();
        let ghost ts = transitions.transitions@;
        let mut i: usize = 0;
        proof {
            assert(ts.take(0) =~= Seq::<MountTransition>::empty());
        }
        while i < transitions.transitions.len()
            invariant
                ts == transitions.transitions@,
                i <= ts.len(),
                (self.regs(), self.mounted_set()) == mount_steps(r0, m0, ts.take(i as int), now),
                self.regs().dom() == r0.dom(),
                self.order() == old(self).order(),
                forall|k: u64| #[trigger] self.regs().contains_key(k) ==> self.regs()[k].interval == r0[k].interval,
                forall|k: u64| #[trigger] r0.contains_key(k) ==> now + r0[k].interval <= u64::MAX,
            decreases ts.len() - i,
        {
            proof {
                assert(ts.take(i + 1).drop_last() =~= ts.take(i as int));
                assert(ts.take(i + 1).last() == ts[i as int]);
            }
            match transitions.transitions[i] {
                MountTransition::Mounted { id, .. } => {
                    self.mounted.insert(id.value);
                    self.activate(id.value, now);
                },
                MountTransition::Unmounted { id } => {
                    self.mounted.remove(&id.value);
                    self.deactivate(id.value);
                },
            }
            proof {
                assert(self.regs().dom() =~= r0.dom());
            }
            i += 1;
        }
        proof {
            assert(ts.take(ts.len() as int) =~= ts);
        }
        let ghost r1 = self.regs();
        let ghost m1 = self.mounted_set();
        let ids = graph.ids();
        proof {
            graph.lemma_order();
        }
        let ghost order = ids@;
        let mut graph_ids: HashSet<u64> = HashSet::new();
        let mut j: usize = 0;
        proof {
            assert(raw_set(order.take(0)) =~= Set::<u64>::empty());
        }
        while j < ids.len()
            invariant
                order == ids@,
                order == graph.order(),
                order.no_duplicates(),
                j <= order.len(),
                graph_ids@ == raw_set(order.take(j as int)),
                self.mounted_set() == m1.union(raw_set(order.take(j as int))),
                self.regs().dom() == r1.dom(),
                self.order() == old(self).order(),
                forall|k: u64| #[trigger] r1.contains_key(k) ==> now + r1[k].interval <= u64::MAX,
                forall|k: u64| #[trigger] self.regs().contains_key(k) ==> self.regs()[k] == if raw_set(order.take(j as int)).contains(k)
                    && (!m1.contains(k) || r1[k].next_due is None) {
                    due_at(r1[k], now)
                } else {
                    r1[k]
                },
            decreases order.len() - j,
        {
            let id = ids[j].value;
            proof {
                lemma_raw_set_take(order, j as int);
                assert(!raw_set(order.take(j as int)).contains(id)) by {
                    if raw_set(order.take(j as int)).contains(id) {
                        let i = choose|i: int| 0 <= i < order.take(j as int).len() && #[trigger] order.take(j as int)[i].value == id;
                        assert(order[i] != order[j as int]);
                        assert(order[i] == ComponentId { value: id });
                    }
                }
            }
            graph_ids.insert(id);
            let newly = self.mounted.insert(id);
            let ghost before = self.regs();
            if newly {
                self.activate(id, now);
            } else {
                let inactive_now = match self.registrations.get(&id) {
                    Some(registration) => registration.next_due.is_none(),
                    None => false,
                };
                if inactive_now {
                    self.activate(id, now);
                }
            }
            proof {
                assert(self.regs().dom() =~= r1.dom());
                assert(self.mounted_set() =~= m1.union(raw_set(order.take(j + 1))));
            }
            j += 1;
        }
        proof {
            assert(order.take(order.len() as int) =~= order);
        }
        let ghost r2 = self.regs();
        let ghost ids_set = raw_set(order);
        let elems = set_elems(&self.mounted);
        let mut e: usize = 0;
        while e < elems.len()
            invariant
                elems@.no_duplicates(),
                forall|k: u64| #[trigger] elems@.contains(k) <==> m1.union(ids_set).contains(k),
                graph_ids@ == ids_set,
                e <= elems@.len(),
                self.regs().dom() == r1.dom(),
                self.order() == old(self).order(),
                self.mounted_set() == m1.union(ids_set).difference(
                    Set::new(|k: u64| elems@.take(e as int).contains(k) && !ids_set.contains(k)),
                ),
                forall|k: u64| #[trigger] self.regs().contains_key(k) ==> self.regs()[k] == if elems@.take(e as int).contains(k)
                    && !ids_set.contains(k) {
                    inactive(r2[k])
                } else {
                    r2[k]
                },
            decreases elems@.len() - e,
        {
            let k = elems[e];
            proof {
                lemma_take_contains_u64(elems@, e as int);
            }
            if !graph_ids.contains(&k) {
                self.mounted.remove(&k);
                self.deactivate(k);
            }
            proof {
                assert(self.regs().dom() =~= r1.dom());
                assert(self.mounted_set() =~= m1.union(ids_set).difference(
                    Set::new(|x: u64| elems@.take(e + 1).contains(x) && !ids_set.contains(x)),
                ));
            }
            e += 1;
        }
        self.mount_order = ids;
        proof {
            assert(elems@.take(elems@.len() as int) =~= elems@);
            assert(self.mounted_set() =~= ids_set);
            assert(self.regs() =~= synced(r1, m1, ids_set, now)) by {
                assert forall|k: u64| #[trigger] self.regs().contains_key(k) implies self.regs()[k] == synced(r1, m1, ids_set, now)[k] by {
                    if elems@.contains(k) && !ids_set.contains(k) {
                        assert(m1.contains(k));
                    }
                    if !ids_set.contains(k) && m1.contains(k) {
                        assert(m1.union(ids_set).contains(k));
                        assert(elems@.contains(k));
                    }
                }
            }
        }
    }
}

/// Membership in a prefix grown by one element.
proof fn lemma_take_contains_u64(s: Seq<u64>, k: int)
    requires
        0 <= k < s.len(),
    ensures
        forall|x: u64| #[trigger] s.take(k + 1).contains(x) <==> s.take(k).contains(x) || x == s[k],
{
    let t = s.take(k + 1);
    assert(t =~= s.take(k).push(s[k]));
    assert forall|x: u64| #[trigger] s.take(k + 1).contains(x) <==> s.take(k).contains(x) || x == s[k] by {
        if t.contains(x) {
            let j = choose|j: int| 0 <= j < t.len() && t[j] == x;
            if j < k {
                assert(s.take(k)[j] == x);
            }
        }
        if s.take(k).contains(x) {
            let j = choose|j: int| 0 <= j < k && s.take(k)[j] == x;
            assert(t[j] == x);
        }
        if x == s[k] {
            assert(t[k] == x);
        }
    }
}


/// The registration of a component whose declared interval is `interval`
/// after a capability sync at `now`.
pub open spec fn declared(regs: Map<u64, TickRegistration>, k: u64, interval: u64, now: u64) -> TickRegistration {
    if regs.contains_key(k) && regs[k].interval == interval && regs[k].next_due is Some {
        regs[k]
    } else {
        TickRegistration { interval, next_due: Some((now + interval) as u64) }
    }
}

/// Registrations after the tick declarations `ticks` of the mounted
/// identities `ids` are applied: a zero interval keeps what was there; any
/// other interval registers (or re-registers) the component; components
/// without a mounted declaration are dropped.
pub open spec fn capability_synced(regs: Map<u64, TickRegistration>, ticks: Map<u64, u64>, ids: Set<u64>, now: u64) -> Map<
    u64,
    TickRegistration,
> {
    Map::new(
        |k: u64| ids.contains(k) && ticks.contains_key(k) && (regs.contains_key(k) || ticks[k] != 0),
        |k: u64| if ticks[k] == 0 { regs[k] } else { declared(regs, k, ticks[k], now) },
    )
}

/// The earliest deadline among the registrations of `order`.
pub open spec fn min_due(order: Seq<ComponentId>, regs: Map<u64, TickRegistration>) -> Option<u64>
    decreases order.len(),
{
    if order.len() == 0 {
        None
    } else {
        let rest = min_due(order.drop_last(), regs);
        let k = order.last().value;
        let here = if regs.contains_key(k) { regs[k].next_due } else { None };
        match (rest, here) {
            (None, h) => h,
            (r, None) => r,
            (Some(a), Some(b)) => Some(if a <= b { a } else { b }),
        }
    }
}

/// The deadline of the `i`-th mounted component, if it has one.
pub open spec fn due_at_position(order: Seq<ComponentId>, regs: Map<u64, TickRegistration>, i: int) -> Option<u64> {
    if regs.contains_key(order[i].value) {
        regs[order[i].value].next_due
    } else {
        None
    }
}

/// The earliest deadline is the least deadline of any mounted component:
/// it is no later than any of them, it is one of them, and there is none
/// exactly when no mounted component has a deadline.
pub proof fn min_due_is_the_earliest_deadline(order: Seq<ComponentId>, regs: Map<u64, TickRegistration>)
    ensures
        min_due(order, regs) is None <==> forall|i: int| 0 <= i < order.len() ==> #[trigger] due_at_position(order, regs, i) is None,
        min_due(order, regs) matches Some(d) ==> forall|i: int| 0 <= i < order.len()
            && #[trigger] due_at_position(order, regs, i) is Some ==> d <= due_at_position(order, regs, i)->0,
        min_due(order, regs) matches Some(d) ==> exists|i: int| 0 <= i < order.len()
            && #[trigger] due_at_position(order, regs, i) == Some(d),
    decreases order.len(),
{
    if order.len() > 0 {
        let init = order.drop_last();
        let n = order.len() - 1;
        min_due_is_the_earliest_deadline(init, regs);
        assert forall|i: int| 0 <= i < init.len() implies due_at_position(init, regs, i) == due_at_position(order, regs, i) by {}
        assert(due_at_position(order, regs, n) == (if regs.contains_key(order.last().value) {
            regs[order.last().value].next_due
        } else {
            None
        }));
        if min_due(init, regs) is Some {
            let d0 = min_due(init, regs)->0;
            let j = choose|j: int| 0 <= j < init.len() && #[trigger] due_at_position(init, regs, j) == Some(d0);
            assert(due_at_position(order, regs, j) == Some(d0));
        }
        if !(forall|i: int| 0 <= i < init.len() ==> #[trigger] due_at_position(init, regs, i) is None) {
            let j = choose|j: int| 0 <= j < init.len() && !(#[trigger] due_at_position(init, regs, j) is None);
            assert(!(due_at_position(order, regs, j) is None));
        }
    }
}

/// The components reported due are exactly the mounted components whose
/// deadline has passed.
pub proof fn due_components_are_those_whose_deadline_passed(order: Seq<ComponentId>, regs: Map<u64, TickRegistration>, now: u64)
    ensures
        forall|i: int| 0 <= i < order.len() && #[trigger] due_at_position(order, regs, i) is Some
            && due_at_position(order, regs, i)->0 <= now ==> due_ids(order, regs, now).contains(order[i]),
        forall|x: ComponentId| #[trigger] due_ids(order, regs, now).contains(x) ==> exists|i: int| 0 <= i < order.len()
            && order[i] == x && #[trigger] due_at_position(order, regs, i) is Some && due_at_position(order, regs, i)->0 <= now,
    decreases order.len(),
{
    if order.len() > 0 {
        let init = order.drop_last();
        let n = order.len() - 1;
        due_components_are_those_whose_deadline_passed(init, regs, now);
        let rest = due_ids(init, regs, now);
        let all = due_ids(order, regs, now);
        assert forall|i: int| 0 <= i < init.len() implies due_at_position(init, regs, i) == due_at_position(order, regs, i) by {}
        assert forall|x: ComponentId| rest.contains(x) implies all.contains(x) by {
            let j = choose|j: int| 0 <= j < rest.len() && rest[j] == x;
            assert(all[j] == x);
        }
        assert forall|i: int| 0 <= i < order.len() && #[trigger] due_at_position(order, regs, i) is Some
            && due_at_position(order, regs, i)->0 <= now implies all.contains(order[i]) by {
            if i < n {
                assert(init[i] == order[i]);
                assert(due_at_position(init, regs, i) is Some);
                assert(rest.contains(init[i]));
            } else {
                assert(all[all.len() - 1] == order[i]);
            }
        }
        assert forall|x: ComponentId| #[trigger] all.contains(x) implies exists|i: int| 0 <= i < order.len()
            && order[i] == x && #[trigger] due_at_position(order, regs, i) is Some && due_at_position(order, regs, i)->0 <= now by {
            let j = choose|j: int| 0 <= j < all.len() && all[j] == x;
            if j < rest.len() {
                assert(rest[j] == x);
                assert(rest.contains(x));
                let k = choose|k: int| 0 <= k < init.len() && init[k] == x && #[trigger] due_at_position(init, regs, k) is Some
                    && due_at_position(init, regs, k)->0 <= now;
                assert(due_at_position(order, regs, k) == due_at_position(init, regs, k));
            } else {
                assert(order[n] == x);
                assert(due_at_position(order, regs, n) is Some);
            }
        }
    }
}

/// The identities of `order` whose deadline has passed at `now`, in order.
pub open spec fn due_ids(order: Seq<ComponentId>, regs: Map<u64, TickRegistration>, now: u64) -> Seq<ComponentId>
    decreases order.len(),
{
    if order.len() == 0 {
        Seq::empty()
    } else {
        let rest = due_ids(order.drop_last(), regs, now);
        let k = order.last().value;
        if regs.contains_key(k) && regs[k].next_due is Some && regs[k].next_due->0 <= now {
            rest.push(order.last())
        } else {
            rest
        }
    }
}

impl TickScheduler {
    /// Synchronizes activation with the mount graph, then the registered
    /// ticks with the mounted components' declared intervals.
    pub fn sync_capabilities(&mut self, graph: &MountGraph, ticks: &HashMap<u64, u64>, transitions: &MountTransitions, now: u64)
        requires
            old(self).fits(now),
            graph.wf(),
            forall|k: u64| #[trigger] ticks@.contains_key(k) ==> now + ticks@[k] <= u64::MAX,
        ensures
            ({
                let (r1, m1) = mount_steps(old(self).regs(), old(self).mounted_set(), transitions.transitions@, now);
                let r2 = synced(r1, m1, raw_set(graph.order()), now);
                &&& final(self).regs() == capability_synced(r2, ticks@, raw_set(graph.order()), now)
                &&& final(self).mounted_set() == raw_set(graph.order())
                &&& final(self).order() == graph.order()
            }),
            final(self).fits(now),
    {
        self.sync_mounts(graph, transitions, now);
        let ghost r2 = self.regs();
        let ids = graph.ids();
        proof {
            graph.lemma_order();
        }
        let ghost order = ids@;
        let ghost ids_set = raw_set(order);
        let mut graph_ids: HashSet<u64> = HashSet::new();
        let mut j: usize = 0;
        proof {
            assert(raw_set(order.take(0)) =~= Set::<u64>::empty());
        }
        while j < ids.len()
            invariant
                order == ids@,
                order == graph.order(),
                order.no_duplicates(),
                ids_set == raw_set(order),
                j <= order.len(),
                graph_ids@ == raw_set(order.take(j as int)),
                self.mounted_set() == ids_set,
                self.order() == order,
                forall|k: u64| #[trigger] ticks@.contains_key(k) ==> now + ticks@[k] <= u64::MAX,
                forall|k: u64| #[trigger] r2.contains_key(k) ==> now + r2[k].interval <= u64::MAX,
                forall|k: u64| #[trigger] self.regs().contains_key(k) <==> r2.contains_key(k) || (raw_set(order.take(j as int)).contains(k)
                    && ticks@.contains_key(k) && ticks@[k] != 0),
                forall|k: u64| #[trigger] self.regs().contains_key(k) ==> self.regs()[k] == if raw_set(order.take(j as int)).contains(k)
                    && ticks@.contains_key(k) && ticks@[k] != 0 {
                    declared(r2, k, ticks@[k], now)
                } else {
                    r2[k]
                },
            decreases order.len() - j,
        {
            let id = ids[j].value;
            proof {
                lemma_raw_set_take(order, j as int);
                assert(!raw_set(order.take(j as int)).contains(id)) by {
                    if raw_set(order.take(j as int)).contains(id) {
                        let i = choose|i: int| 0 <= i < order.take(j as int).len() && #[trigger] order.take(j as int)[i].value == id;
                        assert(order[i] != order[j as int]);
                        assert(order[i] == ComponentId { value: id });
                    }
                }
            }
            graph_ids.insert(id);
            let ghost before = self.regs();
            proof {
                assert(before.contains_key(id) <==> r2.contains_key(id));
                assert(before.contains_key(id) ==> before[id] == r2[id]);
            }
            match ticks.get(&id) {
                Some(interval) => {
                    let interval = *interval;
                    if interval != 0 {
                        let keep = match self.registrations.get(&id) {
                            Some(registration) => registration.interval == interval && registration.next_due.is_some(),
                            None => false,
                        };
                        if !keep {
                            self.registrations.insert(id, TickRegistration { interval, next_due: Some(now + interval) });
                        }
                        proof {
                            assert(self.regs().contains_key(id));
                            assert(self.regs()[id] == declared(r2, id, ticks@[id], now));
                            assert(forall|x: u64| x != id ==> (#[trigger] self.regs().contains_key(x) <==> before.contains_key(x)));
                            assert(forall|x: u64| x != id && #[trigger] self.regs().contains_key(x) ==> self.regs()[x] == before[x]);
                        }
                    } else {
                        proof {
                            assert(self.regs() == before);
                        }
                    }
                },
                None => {
                    proof {
                        assert(!ticks@.contains_key(id));
                    }
                },
            }
            proof {
                let next_set = raw_set(order.take(j + 1));
                assert forall|x: u64| #[trigger] self.regs().contains_key(x) <==> r2.contains_key(x) || (next_set.contains(x)
                    && ticks@.contains_key(x) && ticks@[x] != 0) by {
                    if x != id {
                        assert(next_set.contains(x) == raw_set(order.take(j as int)).contains(x));
                    }
                }
                assert forall|x: u64| #[trigger] self.regs().contains_key(x) implies self.regs()[x] == if next_set.contains(x)
                    && ticks@.contains_key(x) && ticks@[x] != 0 {
                    declared(r2, x, ticks@[x], now)
                } else {
                    r2[x]
                } by {
                    if x != id {
                        assert(next_set.contains(x) == raw_set(order.take(j as int)).contains(x));
                    }
                }
            }
            j += 1;
        }
        proof {
            assert(order.take(order.len() as int) =~= order);
        }
        let ghost r3 = self.regs();
        let keys = map_keys(&self.registrations);
        let mut k: usize = 0;
        while k < keys.len()
            invariant
                keys@.no_duplicates(),
                forall|x: u64| #[trigger] keys@.contains(x) <==> r3.contains_key(x),
                graph_ids@ == ids_set,
                k <= keys@.len(),
                self.mounted_set() == ids_set,
                self.order() == order,
                forall|x: u64| #[trigger] self.regs().contains_key(x) <==> r3.contains_key(x) && !(keys@.take(k as int).contains(x)
                    && !(ids_set.contains(x) && ticks@.contains_key(x))),
                forall|x: u64| #[trigger] self.regs().contains_key(x) ==> self.regs()[x] == r3[x],
            decreases keys@.len() - k,
        {
            let key = keys[k];
            proof {
                lemma_take_contains_u64(keys@, k as int);
            }
            let ghost before = self.regs();
            if !(graph_ids.contains(&key) && ticks.contains_key(&key)) {
                self.registrations.remove(&key);
            }
            proof {
                assert forall|x: u64| #[trigger] self.regs().contains_key(x) <==> r3.contains_key(x) && !(keys@.take(k + 1).contains(x)
                    && !(ids_set.contains(x) && ticks@.contains_key(x))) by {
                    if x != key {
                        assert(self.regs().contains_key(x) == before.contains_key(x));
                    }
                }
                assert forall|x: u64| #[trigger] self.regs().contains_key(x) implies self.regs()[x] == r3[x] by {
                    assert(before.contains_key(x));
                }
            }
            k += 1;
        }
        proof {
            assert(keys@.take(keys@.len() as int) =~= keys@);
            assert(self.regs() =~= capability_synced(r2, ticks@, ids_set, now));
        }
    }

    /// Updates one mounted component's tick without rescanning the graph.
    pub fn sync_component_capability(&mut self, id: ComponentId, tick: Option<u64>, now: u64)
        requires
            tick matches Some(interval) ==> now + interval <= u64::MAX,
        ensures
            final(self).regs() == match tick {
                Some(interval) => if interval == 0 {
                    old(self).regs().remove(id.value)
                } else {
                    old(self).regs().insert(id.value, declared(old(self).regs(), id.value, interval, now))
                },
                None => old(self).regs().remove(id.value),
            },
            final(self).mounted_set() == old(self).mounted_set(),
            final(self).order() == old(self).order(),
    {
        match tick {
            None => {
                self.registrations.remove(&id.value);
            },
            Some(interval) => {
                if interval == 0 {
                    self.registrations.remove(&id.value);
                    return;
                }
                let keep = match self.registrations.get(&id.value) {
                    Some(registration) => registration.interval == interval && registration.next_due.is_some(),
                    None => false,
                };
                if keep {
                    proof {
                        assert(old(self).regs().insert(id.value, declared(old(self).regs(), id.value, interval, now)) =~= old(self).regs());
                    }
                } else {
                    self.registrations.insert(id.value, TickRegistration { interval, next_due: Some(now + interval) });
                }
            },
        }
    }

    /// The earliest deadline of a mounted registration.
    pub fn next_deadline(&self) -> (deadline: Option<u64>)
        ensures
            deadline == min_due(self.order(), self.regs()),
            deadline is None <==> forall|i: int| 0 <= i < self.order().len()
                ==> #[trigger] due_at_position(self.order(), self.regs(), i) is None,
            deadline matches Some(d) ==> forall|i: int| 0 <= i < self.order().len()
                && #[trigger] due_at_position(self.order(), self.regs(), i) is Some
                ==> d <= due_at_position(self.order(), self.regs(), i)->0,
            deadline matches Some(d) ==> exists|i: int| 0 <= i < self.order().len()
                && #[trigger] due_at_position(self.order(), self.regs(), i) == Some(d),
    {
        proof {
            min_due_is_the_earliest_deadline(self.order(), self.regs());
        }
        let mut best: Option<u64> = None;
        let mut i: usize = 0;
        proof {
            assert(self.order().take(0) =~= Seq::<ComponentId>::empty());
        }
        while i < self.mount_order.len()
            invariant
                i <= self.order().len(),
                best == min_due(self.order().take(i as int), self.regs()),
            decreases self.order().len() - i,
        {
            proof {
                assert(self.order().take(i + 1).drop_last() =~= self.order().take(i as int));
                assert(self.order().take(i + 1).last() == self.order()[i as int]);
            }
            let here = match self.registrations.get(&self.mount_order[i].value) {
                Some(registration) => registration.next_due,
                None => None,
            };
            best = match (best, here) {
                (None, h) => h,
                (b, None) => b,
                (Some(a), Some(b)) => Some(if a <= b { a } else { b }),
            };
            i += 1;
        }
        proof {
            assert(self.order().take(self.order().len() as int) =~= self.order());
        }
        best
    }

    /// Time until the next deadline (zero if it passed), or `idle_timeout`
    /// when nothing is scheduled.
    pub fn next_timeout(&self, now: u64, idle_timeout: u64) -> (timeout: u64)
        ensures
            timeout == match min_due(self.order(), self.regs()) {
                Some(d) => if d >= now { (d - now) as u64 } else { 0 },
                None => idle_timeout,
            },
    {
        match self.next_deadline() {
            Some(deadline) => deadline.saturating_sub(now),
            None => idle_timeout,
        }
    }

    /// Marks every mounted component whose deadline has passed as ticked:
    /// each gets its next deadline one interval after `now`. Returns them
    /// in mount order; the caller runs their tick handlers.
    pub fn tick_due(&mut self, now: u64) -> (ticked: Vec<ComponentId>)
        requires
            old(self).fits(now),
        ensures
            ticked@ == if old(self).regs().len() == 0 { Seq::<ComponentId>::empty() } else { due_ids(old(self).order(), old(self).regs(), now) },
            final(self).order() == old(self).order(),
            final(self).mounted_set() == old(self).mounted_set(),
            final(self).regs().dom() == old(self).regs().dom(),
            forall|k: u64| #[trigger] final(self).regs().contains_key(k) ==> final(self).regs()[k] == if ticked@.contains(
                ComponentId { value: k },
            ) {
                due_at(old(self).regs()[k], now)
            } else {
                old(self).regs()[k]
            },
    {
        if self.registrations.len() == 0 {
            return Vec::new();
        }
        let ghost r0 = self.regs();
        let mut due: Vec<ComponentId> = Vec::new();
        let mut i: usize = 0;
        proof {
            assert(self.order().take(0) =~= Seq::<ComponentId>::empty());
        }
        while i < self.mount_order.len()
            invariant
                r0 == self.regs(),
                i <= self.order().len(),
                due@ == due_ids(self.order().take(i as int), r0, now),
            decreases self.order().len() - i,
        {
            proof {
                assert(self.order().take(i + 1).drop_last() =~= self.order().take(i as int));
                assert(self.order().take(i + 1).last() == self.order()[i as int]);
            }
            let id = self.mount_order[i];
            let is_due = match self.registrations.get(&id.value) {
                Some(registration) => match registration.next_due {
                    Some(deadline) => deadline <= now,
                    None => false,
                },
                None => false,
            };
            if is_due {
                due.push(id);
            }
            i += 1;
        }
        proof {
            assert(self.order().take(self.order().len() as int) =~= self.order());
            TickScheduler::lemma_due_ids(self.order(), r0, now);
        }
        let ghost order = self.order();
        let mut d: usize = 0;
        while d < due.len()
            invariant
                forall|m: int| 0 <= m < due@.len() ==> #[trigger] r0.contains_key(due@[m].value),
                forall|x: u64| #[trigger] r0.contains_key(x) ==> now + r0[x].interval <= u64::MAX,
                d <= due@.len(),
                self.order() == order,
                self.mounted_set() == old(self).mounted_set(),
                self.regs().dom() == r0.dom(),
                forall|k: u64| #[trigger] self.regs().contains_key(k) ==> self.regs()[k] == if due@.take(d as int).contains(
                    ComponentId { value: k },
                ) {
                    due_at(r0[k], now)
                } else {
                    r0[k]
                },
            decreases due@.len() - d,
        {
            let id = due[d];
            proof {
                let t = due@.take(d + 1);
                assert(t =~= due@.take(d as int).push(id));
                assert forall|x: ComponentId| #[trigger] t.contains(x) <==> due@.take(d as int).contains(x) || x == id by {
                    if t.contains(x) {
                        let j = choose|j: int| 0 <= j < t.len() && t[j] == x;
                        if j < d {
                            assert(due@.take(d as int)[j] == x);
                        }
                    }
                    if due@.take(d as int).contains(x) {
                        let j = choose|j: int| 0 <= j < d && due@.take(d as int)[j] == x;
                        assert(t[j] == x);
                    }
                    if x == id {
                        assert(t[d as int] == x);
                    }
                }
                assert(id == ComponentId { value: id.value });
            }
            match self.registrations.get(&id.value) {
                Some(registration) => {
                    proof {
                        assert(registration.interval == r0[id.value].interval);
                    }
                    let updated = TickRegistration { interval: registration.interval, next_due: Some(now + registration.interval) };
                    self.registrations.insert(id.value, updated);
                },
                None => {},
            }
            proof {
                assert(self.regs().dom() =~= r0.dom());
            }
            d += 1;
        }
        proof {
            assert(due@.take(due@.len() as int) =~= due@);
        }
        due
    }

    /// The due identities are registered.
    proof fn lemma_due_ids(order: Seq<ComponentId>, regs: Map<u64, TickRegistration>, now: u64)
        ensures
            forall|m: int| 0 <= m < due_ids(order, regs, now).len() ==> #[trigger] regs.contains_key(due_ids(order, regs, now)[m].value),
        decreases order.len(),
    {
        if order.len() > 0 {
            TickScheduler::lemma_due_ids(order.drop_last(), regs, now);
            let rest = due_ids(order.drop_last(), regs, now);
            let all = due_ids(order, regs, now);
            assert forall|m: int| 0 <= m < all.len() implies #[trigger] regs.contains_key(all[m].value) by {
                if m < rest.len() {
                    assert(all[m] == rest[m]);
                } else {
                    assert(all[m] == order.last());
                }
            }
        }
    }
}

/// The outcome of running the tick handlers of the components that
/// `tick_due` returned, given what each handler answered: whether any ran,
/// and whether any asked for a redraw.
pub fn tick_outcome(redraws: &Vec<bool>) -> (outcome: TickOutcome)
    ensures
        outcome.ran == (redraws@.len() > 0),
        outcome.dirty == redraws@.contains(true),
{
    let mut dirty = false;
    let mut i: usize = 0;
    while i < redraws.len()
        invariant
            i <= redraws@.len(),
            dirty == redraws@.take(i as int).contains(true),
        decreases redraws.len() - i,
    {
        proof {
            let t = redraws@.take(i as int + 1);
            assert(t =~= redraws@.take(i as int).push(redraws@[i as int]));
            if redraws@.take(i as int).contains(true) {
                let k = choose|k: int| 0 <= k < i && redraws@.take(i as int)[k] == true;
                assert(t[k] == true);
            }
            if redraws@[i as int] {
                assert(t[i as int] == true);
            }
        }
        dirty = dirty || redraws[i];
        i = i + 1;
    }
    assert(redraws@.take(i as int) =~= redraws@);
    TickOutcome { ran: redraws.len() > 0, dirty }
}

} // verus!
