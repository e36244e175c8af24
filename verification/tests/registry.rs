use std::collections::HashMap;

use iyon_tui::component::ids::ComponentId;
use iyon_tui::component::registry::{ComponentHandle, ComponentIdAllocator, ComponentRegistry};

const COUNTER: u64 = 1;
const SAME_VISUAL: u64 = 2;

/// The values of the registered counters, kept beside the registry's book.
struct Counters {
    registry: ComponentRegistry,
    values: HashMap<u64, u32>,
}

impl Counters {
    fn new() -> Self {
        Counters { registry: ComponentRegistry::new(), values: HashMap::new() }
    }

    fn register(&mut self, ids: &mut ComponentIdAllocator, value: u32) -> ComponentHandle {
        let handle = self.registry.register(ids, COUNTER).unwrap();
        self.values.insert(handle.id.value, value);
        handle
    }

    fn with(&self, handle: ComponentHandle) -> Option<u32> {
        if self.registry.contains(handle) { self.values.get(&handle.id.value).copied() } else { None }
    }

    fn with_mut(&mut self, handle: ComponentHandle, f: impl FnOnce(&mut u32)) -> Option<()> {
        if !self.registry.touch(handle) {
            return None;
        }
        f(self.values.get_mut(&handle.id.value)?);
        Some(())
    }

    fn remove(&mut self, handle: ComponentHandle) -> Option<u32> {
        if self.registry.remove(handle) { self.values.remove(&handle.id.value) } else { None }
    }
}

#[test]
fn ids_are_unique_monotonic_and_never_reused_after_remove() {
    let mut ids = ComponentIdAllocator::new();
    let mut registry = Counters::new();
    let first = registry.register(&mut ids, 1);
    let first_id = first.id.value();
    assert!(registry.remove(first).is_some());

    let second = registry.register(&mut ids, 2);
    assert!(second.id.value() > first_id);
    assert_ne!(first.id, second.id);
}

#[test]
fn typed_handles_resolve_only_their_own_state() {
    let mut ids = ComponentIdAllocator::new();
    let mut registry = Counters::new();
    let counter = registry.register(&mut ids, 7);
    let wrong_type = ComponentHandle { id: counter.id, type_tag: SAME_VISUAL };

    assert!(registry.registry.contains(counter));
    assert!(!registry.registry.contains(wrong_type));
    assert_eq!(registry.with(wrong_type), None);
    assert_eq!(registry.with_mut(wrong_type, |_| ()), None);
    assert!(registry.remove(wrong_type).is_none());
    assert_eq!(registry.with(counter), Some(7));
}

#[test]
fn handles_from_another_registry_never_alias() {
    let mut ids = ComponentIdAllocator::new();
    let mut first = Counters::new();
    let handle = first.register(&mut ids, 1);
    let mut second = Counters::new();
    second.register(&mut ids, 2);

    assert!(!second.registry.contains(handle));
    assert_eq!(second.with(handle), None);
}

#[test]
fn revisions_only_change_after_successful_mutable_access() {
    let mut ids = ComponentIdAllocator::new();
    let mut registry = Counters::new();
    let counter = registry.register(&mut ids, 1);
    let wrong_type = ComponentHandle { id: counter.id, type_tag: SAME_VISUAL };

    assert_eq!(registry.registry.revision(counter).unwrap().value(), 0);
    registry.with(counter);
    assert_eq!(registry.registry.revision(counter).unwrap().value(), 0);
    assert_eq!(registry.registry.revision(counter).unwrap().value(), 0);
    registry.with_mut(wrong_type, |_| ());
    assert_eq!(registry.registry.revision(counter).unwrap().value(), 0);
    registry.with_mut(counter, |value| *value += 1);
    assert_eq!(registry.registry.revision(counter).unwrap().value(), 1);
    registry.with_mut(counter, |_| {});
    assert_eq!(registry.registry.revision(counter).unwrap().value(), 2);
}

#[test]
fn resolutions_are_reused_until_the_next_mutable_access() {
    let mut ids = ComponentIdAllocator::new();
    let mut registry = Counters::new();
    let counter = registry.register(&mut ids, 1);
    let first = registry.registry.resolve(counter.id).unwrap();
    assert!(!first.reused);
    let again = registry.registry.resolve(counter.id).unwrap();
    assert!(again.reused);
    assert_eq!(again.revision, first.revision);
    registry.with_mut(counter, |value| *value = 9);
    let fresh = registry.registry.resolve(counter.id).unwrap();
    assert!(!fresh.reused);
    assert_eq!(fresh.revision.value(), 1);
    assert!(registry.registry.remove_id(counter.id));
    assert!(registry.registry.resolve(counter.id).is_none());
    assert!(!registry.registry.touch_id(ComponentId::from_raw(counter.id.value())));
}
