//! The bookkeeping of retained components: identities handed out in
//! strictly increasing order and never reused, typed handles that resolve
//! only to a component of their own type, and revisions that change only
//! after a successful mutable access. The component values themselves are
//! kept beside this book by whoever owns their concrete types.
use vstd::prelude::*;
use std::collections::HashMap;
use crate::component::ids::{ComponentId, ComponentRevision};

verus! {

broadcast use vstd::std_specs::hash::group_hash_axioms;

/// Hands out component identities, each greater than every one before it.
/// One allocator serves every registry of a process, so handles from
/// different registries never alias.
pub struct ComponentIdAllocator {
    next: u64,
}

impl ComponentIdAllocator {
    /// The identity the next allocation hands out; every smaller one
    /// (from 1) was handed out already.
    pub closed spec fn next_id(&self) -> int {
        self.next as int
    }

    pub fn new() -> (ids: Self)
        ensures
            ids.next_id() == 1,
    {
        ComponentIdAllocator { next: 1 }
    }

    /// A fresh identity, or `None` once the identity space is spent.
    pub fn allocate(&mut self) -> (id: Option<ComponentId>)
        requires
            old(self).next_id() >= 1,
        ensures
            id is None <==> old(self).next_id() == u64::MAX,
            id is None ==> final(self).next_id() == old(self).next_id(),
            id matches Some(i) ==> i.value == old(self).next_id() && final(self).next_id() == old(self).next_id() + 1,
    {
        if self.next == u64::MAX {
            return None;
        }
        let id = ComponentId { value: self.next };
        self.next = self.next + 1;
        Some(id)
    }
}

/// A handle to a registered component of one concrete type, named by its
/// type tag.
#[derive(Clone, Copy, Debug, PartialEq, Eq, Structural)]
pub struct ComponentHandle {
    pub id: ComponentId,
    pub type_tag: u64,
}

/// One registered component: its type tag, its revision, and the revision
/// its cached resolution was taken at, if any.
#[derive(Clone, Copy, Debug, PartialEq, Eq, Structural)]
pub struct ComponentEntry {
    pub type_tag: u64,
    pub revision: ComponentRevision,
    pub cached: Option<ComponentRevision>,
}

/// What resolving a component gives: its current revision, and whether a
/// cached resolution taken at that revision was reused.
#[derive(Clone, Copy, Debug, PartialEq, Eq, Structural)]
pub struct Resolution {
    pub revision: ComponentRevision,
    pub reused: bool,
}

/// The sole owner of retained component bookkeeping.
pub struct ComponentRegistry {
    slots: HashMap<u64, ComponentEntry>,
}

/// A handle resolves in `slots` when its identity is registered with the
/// handle's own type.
pub open spec fn resolves(slots: Map<u64, ComponentEntry>, handle: ComponentHandle) -> bool {
    slots.contains_key(handle.id.value) && slots[handle.id.value].type_tag == handle.type_tag
}

/// The entry after a successful mutable access: the next revision, and no
/// cached resolution.
pub open spec fn touched(e: ComponentEntry) -> ComponentEntry {
    ComponentEntry {
        type_tag: e.type_tag,
        revision: ComponentRevision { value: if e.revision.value == u64::MAX { 0 } else { (e.revision.value + 1) as u64 } },
        cached: None,
    }
}

impl ComponentRegistry {
    /// The registered components by identity.
    pub closed spec fn entries(&self) -> Map<u64, ComponentEntry> {
        self.slots@
    }

    /// Every registered identity was handed out by `ids`.
    pub open spec fn issued_by(&self, ids: &ComponentIdAllocator) -> bool {
        forall|k: u64| #[trigger] self.entries().contains_key(k) ==> 1 <= k < ids.next_id()
    }

    pub fn new() -> (registry: Self)
        ensures
            registry.entries() == Map::<u64, ComponentEntry>::empty(),
    {
        ComponentRegistry { slots: HashMap::new() }
    }

    /// Registers a component of type `type_tag` under a fresh identity from
    /// `ids`, at revision 0 with nothing cached; `None` once identities are
    /// spent, with nothing changed.
    pub fn register(&mut self, ids: &mut ComponentIdAllocator, type_tag: u64) -> (handle: Option<ComponentHandle>)
        requires
            old(ids).next_id() >= 1,
            old(self).issued_by(old(ids)),
        ensures
            final(self).issued_by(final(ids)),
            handle is None <==> old(ids).next_id() == u64::MAX,
            handle is None ==> final(self).entries() == old(self).entries() && final(ids).next_id() == old(ids).next_id(),
            handle matches Some(h) ==> {
                &&& h.id.value == old(ids).next_id()
                &&& h.type_tag == type_tag
                &&& final(ids).next_id() == old(ids).next_id() + 1
                &&& !old(self).entries().contains_key(h.id.value)
                &&& final(self).entries() == old(self).entries().insert(h.id.value, ComponentEntry {
                    type_tag,
                    revision: ComponentRevision { value: 0 },
                    cached: None,
                })
            },
    {
        match ids.allocate() {
            None => None,
            Some(id) => {
                self.slots.insert(id.value, ComponentEntry {
                    type_tag,
                    revision: ComponentRevision::initial(),
                    cached: None,
                });
                proof {
                    assert forall|k: u64| #[trigger] self.entries().contains_key(k) implies 1 <= k < ids.next_id() by {
                        if k != id.value {
                            assert(old(self).entries().contains_key(k));
                        }
                    }
                }
                Some(ComponentHandle { id, type_tag })
            },
        }
    }

    /// Whether the handle resolves to a component of its own type.
    pub fn contains(&self, handle: ComponentHandle) -> (found: bool)
        ensures
            found == resolves(self.entries(), handle),
    {
        match self.slots.get(&handle.id.value) {
            Some(entry) => entry.type_tag == handle.type_tag,
            None => false,
        }
    }

    /// The revision of the handle's component, when the handle resolves.
    pub fn revision(&self, handle: ComponentHandle) -> (revision: Option<ComponentRevision>)
        ensures
            revision is Some <==> resolves(self.entries(), handle),
            revision matches Some(r) ==> r == self.entries()[handle.id.value].revision,
    {
        match self.slots.get(&handle.id.value) {
            Some(entry) => if entry.type_tag == handle.type_tag {
                Some(entry.revision)
            } else {
                None
            },
            None => None,
        }
    }

    /// Records a successful mutable access through a typed handle: the
    /// revision advances and the cached resolution is dropped. A handle that
    /// does not resolve changes nothing.
    pub fn touch(&mut self, handle: ComponentHandle) -> (touched_it: bool)
        ensures
            touched_it == resolves(old(self).entries(), handle),
            touched_it ==> final(self).entries() == old(self).entries().insert(
                handle.id.value, touched(old(self).entries()[handle.id.value])),
            !touched_it ==> final(self).entries() == old(self).entries(),
    {
        let entry = match self.slots.get(&handle.id.value) {
            Some(entry) => *entry,
            None => {
                return false;
            },
        };
        if entry.type_tag != handle.type_tag {
            return false;
        }
        self.slots.insert(handle.id.value, ComponentEntry {
            type_tag: entry.type_tag,
            revision: entry.revision.increment(),
            cached: None,
        });
        true
    }

    /// Records a successful type-erased mutable access, or an explicit
    /// invalidation, of the component with identity `id`.
    pub fn touch_id(&mut self, id: ComponentId) -> (touched_it: bool)
        ensures
            touched_it == old(self).entries().contains_key(id.value),
            touched_it ==> final(self).entries() == old(self).entries().insert(
                id.value, touched(old(self).entries()[id.value])),
            !touched_it ==> final(self).entries() == old(self).entries(),
    {
        let entry = match self.slots.get(&id.value) {
            Some(entry) => *entry,
            None => {
                return false;
            },
        };
        self.slots.insert(id.value, ComponentEntry {
            type_tag: entry.type_tag,
            revision: entry.revision.increment(),
            cached: None,
        });
        true
    }

    /// Resolves the component with identity `id`: a cached resolution taken
    /// at the current revision is reused, otherwise one is taken now and
    /// cached.
    pub fn resolve(&mut self, id: ComponentId) -> (r: Option<Resolution>)
        ensures
            r is Some <==> old(self).entries().contains_key(id.value),
            r is None ==> final(self).entries() == old(self).entries(),
            r matches Some(res) ==> {
                let e = old(self).entries()[id.value];
                &&& res.revision == e.revision
                &&& res.reused == (e.cached == Some(e.revision))
                &&& final(self).entries() == old(self).entries().insert(id.value, ComponentEntry {
                    cached: Some(e.revision),
                    ..e
                })
            },
    {
        let entry = match self.slots.get(&id.value) {
            Some(entry) => *entry,
            None => {
                return None;
            },
        };
        let reused = match entry.cached {
            Some(c) => c == entry.revision,
            None => false,
        };
        self.slots.insert(id.value, ComponentEntry { cached: Some(entry.revision), ..entry });
        Some(Resolution { revision: entry.revision, reused })
    }

    /// Removes the handle's component when the handle resolves.
    pub fn remove(&mut self, handle: ComponentHandle) -> (removed: bool)
        ensures
            removed == resolves(old(self).entries(), handle),
            removed ==> final(self).entries() == old(self).entries().remove(handle.id.value),
            !removed ==> final(self).entries() == old(self).entries(),
    {
        let matches = match self.slots.get(&handle.id.value) {
            Some(entry) => entry.type_tag == handle.type_tag,
            None => false,
        };
        if !matches {
            return false;
        }
        self.slots.remove(&handle.id.value);
        true
    }

    /// Removes the component with identity `id`, whatever its type.
    pub fn remove_id(&mut self, id: ComponentId) -> (removed: bool)
        ensures
            removed == old(self).entries().contains_key(id.value),
            final(self).entries() == old(self).entries().remove(id.value),
    {
        self.slots.remove(&id.value).is_some()
    }
}

/// One allocation as `allocate` states it.
pub open spec fn allocation_step(before: ComponentIdAllocator, id: Option<ComponentId>, after: ComponentIdAllocator) -> bool {
    match id {
        None => after.next_id() == before.next_id(),
        Some(i) => i.value == before.next_id() && after.next_id() == before.next_id() + 1,
    }
}

/// Along a run of allocations the next identity never goes down.
proof fn lemma_next_id_grows(states: Seq<ComponentIdAllocator>, ids: Seq<Option<ComponentId>>, a: int, b: int)
    requires
        states.len() == ids.len() + 1,
        forall|i: int| 0 <= i < ids.len() ==> allocation_step(states[i], #[trigger] ids[i], states[i + 1]),
        0 <= a <= b < states.len(),
    ensures
        states[a].next_id() <= states[b].next_id(),
    decreases b - a,
{
    if a < b {
        lemma_next_id_grows(states, ids, a, b - 1);
        assert(allocation_step(states[b - 1], ids[b - 1], states[b]));
    }
}

/// Identities are never reused: along any run of allocations from one
/// allocator, each identity handed out is strictly greater than every one
/// handed out before it, whatever was registered or removed meanwhile.
pub proof fn allocations_strictly_increase(states: Seq<ComponentIdAllocator>, ids: Seq<Option<ComponentId>>)
    requires
        states.len() == ids.len() + 1,
        forall|i: int| 0 <= i < ids.len() ==> allocation_step(states[i], #[trigger] ids[i], states[i + 1]),
    ensures
        forall|i: int, j: int| 0 <= i < j < ids.len() && ids[i] is Some && ids[j] is Some
            ==> (#[trigger] ids[i])->0.value < (#[trigger] ids[j])->0.value,
{
    assert forall|i: int, j: int| 0 <= i < j < ids.len() && ids[i] is Some && ids[j] is Some
        implies (#[trigger] ids[i])->0.value < (#[trigger] ids[j])->0.value by {
        assert(allocation_step(states[i], ids[i], states[i + 1]));
        assert(allocation_step(states[j], ids[j], states[j + 1]));
        lemma_next_id_grows(states, ids, i + 1, j);
    }
}

} // verus!
