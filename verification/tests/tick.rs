use std::collections::HashMap;

use iyon_tui::component::graph::{MountGraph, MountNode};
use iyon_tui::component::ids::{ComponentId, ComponentRevision};
use iyon_tui::component::mount::MountedComponents;
use iyon_tui::component::tick::{tick_outcome, TickOutcome, TickScheduler};

const MS: u64 = 1_000_000;
const SECOND: u64 = 1_000 * MS;

/// A component that advances its frame on every tick and asks for a redraw.
#[derive(Debug)]
struct Blinker {
    frame: u8,
    interval: u64,
    revision: u64,
}

/// The components by raw identity, standing in for the registry that runs
/// tick handlers.
#[derive(Default)]
struct Blinkers {
    next_id: u64,
    components: HashMap<u64, Blinker>,
    ticked: Vec<ComponentId>,
}

impl Blinkers {
    fn register(&mut self, interval: u64) -> ComponentId {
        self.next_id += 1;
        self.components.insert(self.next_id, Blinker { frame: 0, interval, revision: 0 });
        ComponentId::from_raw(self.next_id)
    }

    fn frame(&self, id: ComponentId) -> Option<u8> {
        self.components.get(&id.value()).map(|blinker| blinker.frame)
    }

    fn revision(&self, id: ComponentId) -> Option<u64> {
        self.components.get(&id.value()).map(|blinker| blinker.revision)
    }

    fn tick_due_with_events(&mut self, scheduler: &mut TickScheduler, now: u64) -> TickOutcome {
        let due = scheduler.tick_due(now);
        let mut redraws = Vec::new();
        for id in &due {
            self.ticked.push(*id);
            if let Some(blinker) = self.components.get_mut(&id.value()) {
                blinker.frame += 1;
                blinker.revision += 1;
                redraws.push(true);
            }
        }
        tick_outcome(&redraws)
    }
}

fn make_graph(ids: &[(ComponentId, Option<ComponentId>)]) -> MountGraph {
    MountGraph::new(
        ids.iter()
            .map(|(id, parent)| MountNode {
                id: *id,
                parent: *parent,
                revision: ComponentRevision::default(),
            })
            .collect(),
    )
}

fn make_capabilities(registry: &Blinkers, graph: &MountGraph) -> HashMap<u64, u64> {
    let mut capabilities = HashMap::new();
    for id in graph.ids() {
        let blinker = registry.components.get(&id.value()).expect("registered component capabilities");
        capabilities.insert(id.value(), blinker.interval);
    }
    capabilities
}

#[test]
fn one_mounted_component_ticks_only_after_its_deadline() {
    let mut registry = Blinkers::default();
    let handle = registry.register(80 * MS);
    let mut scheduler = TickScheduler::new();

    let start = 5 * SECOND;
    let mut mounted = MountedComponents::default();
    let transitions = mounted.reconcile(make_graph(&[(handle, None)]));
    let graph = mounted.current();
    let capabilities = make_capabilities(&registry, graph);
    scheduler.sync_capabilities(graph, &capabilities, &transitions, start);
    assert_eq!(scheduler.next_timeout(start, SECOND), 80 * MS);
    assert_eq!(registry.tick_due_with_events(&mut scheduler, start + 79 * MS).ran, false);
    assert_eq!(registry.frame(handle), Some(0));
    assert!(registry.tick_due_with_events(&mut scheduler, start + 80 * MS).dirty);
    assert_eq!(registry.frame(handle), Some(1));
    assert_eq!(registry.revision(handle).unwrap(), 1);
}

#[test]
fn multiple_due_components_tick_in_mount_order() {
    let mut registry = Blinkers::default();
    let first = registry.register(80 * MS);
    let second = registry.register(80 * MS);
    let mut scheduler = TickScheduler::new();
    let now = 5 * SECOND;
    let mut mounted = MountedComponents::default();
    let transitions = mounted.reconcile(make_graph(&[(first, None), (second, None)]));
    let graph = mounted.current();
    let capabilities = make_capabilities(&registry, graph);
    scheduler.sync_capabilities(graph, &capabilities, &transitions, now);

    assert!(registry.tick_due_with_events(&mut scheduler, now + 80 * MS).dirty);
    assert_eq!(registry.ticked, vec![first, second]);
    assert_eq!(registry.frame(first), Some(1));
    assert_eq!(registry.frame(second), Some(1));
    assert_eq!(registry.revision(first).unwrap(), 1);
    assert_eq!(registry.revision(second).unwrap(), 1);
}

#[test]
fn local_capability_sync_updates_a_mounted_tick_without_graph_rescan() {
    let mut registry = Blinkers::default();
    let handle = registry.register(80 * MS);
    let mut scheduler = TickScheduler::new();
    let now = 5 * SECOND;
    let graph = make_graph(&[(handle, None)]);
    let mut mounted = MountedComponents::default();
    let transitions = mounted.reconcile(make_graph(&[(handle, None)]));
    let capabilities = make_capabilities(&registry, &graph);
    scheduler.sync_capabilities(&graph, &capabilities, &transitions, now);

    registry.components.get_mut(&handle.value()).unwrap().interval = 10 * MS;
    let capabilities = make_capabilities(&registry, &graph);
    scheduler.sync_component_capability(handle, capabilities.get(&handle.value()).copied(), now);
    assert_eq!(scheduler.next_timeout(now, SECOND), 10 * MS);
    assert!(registry.tick_due_with_events(&mut scheduler, now + 10 * MS).dirty);
    assert_eq!(registry.frame(handle), Some(1));
}

#[test]
fn unmount_deactivates_and_remount_resets_the_deadline() {
    let mut registry = Blinkers::default();
    let handle = registry.register(80 * MS);
    let mut scheduler = TickScheduler::new();
    let initial = 5 * SECOND;
    let mut mounted = MountedComponents::default();
    let transitions = mounted.reconcile(make_graph(&[(handle, None)]));
    let capabilities = make_capabilities(&registry, mounted.current());
    scheduler.sync_capabilities(mounted.current(), &capabilities, &transitions, initial);

    let transitions = mounted.reconcile(MountGraph::default());
    let capabilities = make_capabilities(&registry, mounted.current());
    scheduler.sync_capabilities(mounted.current(), &capabilities, &transitions, initial + 100 * MS);
    assert!(!registry.tick_due_with_events(&mut scheduler, initial + SECOND).ran);
    assert_eq!(registry.frame(handle), Some(0));

    let remount = initial + 2 * SECOND;
    let transitions = mounted.reconcile(make_graph(&[(handle, None)]));
    let capabilities = make_capabilities(&registry, mounted.current());
    scheduler.sync_capabilities(mounted.current(), &capabilities, &transitions, remount);
    assert!(!registry.tick_due_with_events(&mut scheduler, remount).ran);
    assert!(registry.tick_due_with_events(&mut scheduler, remount + 80 * MS).dirty);
    assert_eq!(registry.frame(handle), Some(1));
}

#[test]
fn different_intervals_select_the_earliest_deadline_independently() {
    let mut registry = Blinkers::default();
    let fast = registry.register(80 * MS);
    let slow = registry.register(200 * MS);
    let mut scheduler = TickScheduler::new();
    let start = 5 * SECOND;
    let mut mounted = MountedComponents::default();
    let transitions = mounted.reconcile(make_graph(&[(fast, None), (slow, None)]));
    let capabilities = make_capabilities(&registry, mounted.current());
    scheduler.sync_capabilities(mounted.current(), &capabilities, &transitions, start);
    assert_eq!(scheduler.next_timeout(start, SECOND), 80 * MS);
    registry.tick_due_with_events(&mut scheduler, start + 80 * MS);
    assert_eq!(registry.frame(fast), Some(1));
    assert_eq!(registry.frame(slow), Some(0));
    assert_eq!(scheduler.next_timeout(start + 80 * MS, SECOND), 80 * MS);
    registry.tick_due_with_events(&mut scheduler, start + 200 * MS);
    assert_eq!(registry.frame(slow), Some(1));
}

#[test]
fn tick_outcome_reports_runs_and_redraw_requests() {
    assert_eq!(tick_outcome(&Vec::new()), TickOutcome { ran: false, dirty: false });
    assert_eq!(tick_outcome(&vec![false, false]), TickOutcome { ran: true, dirty: false });
    assert_eq!(tick_outcome(&vec![false, true]), TickOutcome { ran: true, dirty: true });
}
