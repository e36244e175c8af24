use iyon_tui::component::graph::{MountGraph, MountNode};
use iyon_tui::component::ids::{ComponentId, ComponentRevision};
use iyon_tui::component::mount::{MountTransition, MountedComponents};

fn node(id: ComponentId, parent: Option<ComponentId>) -> MountNode {
    MountNode {
        id,
        parent,
        revision: ComponentRevision::default(),
    }
}

#[test]
fn mounts_are_parent_first_and_unmounts_are_child_first() {
    let a = ComponentId::from_raw(1);
    let b = ComponentId::from_raw(2);
    let mut mounted = MountedComponents::default();
    let next = MountGraph::new(vec![node(a, None), node(b, Some(a))]);

    let mounted_transitions = mounted.reconcile(next);
    assert_eq!(
        mounted_transitions.transitions,
        vec![
            MountTransition::Mounted { id: a, parent: None },
            MountTransition::Mounted { id: b, parent: Some(a) },
        ]
    );

    let removed = mounted.reconcile(MountGraph::default());
    assert_eq!(
        removed.transitions,
        vec![
            MountTransition::Unmounted { id: b },
            MountTransition::Unmounted { id: a },
        ]
    );
}

#[test]
fn reordering_and_reparenting_do_not_remount_existing_ids() {
    let a = ComponentId::from_raw(1);
    let b = ComponentId::from_raw(2);
    let c = ComponentId::from_raw(3);
    let mut mounted = MountedComponents::default();
    mounted.reconcile(MountGraph::new(vec![
        node(a, None),
        node(c, Some(a)),
        node(b, None),
    ]));

    let reordered = mounted.reconcile(MountGraph::new(vec![
        node(b, None),
        node(c, Some(b)),
        node(a, None),
    ]));
    assert!(reordered.is_empty());
    assert_eq!(mounted.current().to_nodes().iter().nth(1).unwrap().parent, Some(b));
}

#[test]
fn revisions_do_not_create_mount_transitions() {
    let a = ComponentId::from_raw(1);
    let mut mounted = MountedComponents::default();
    mounted.reconcile(MountGraph::new(vec![node(a, None)]));

    let mut changed = node(a, None);
    changed.revision = ComponentRevision::default().increment();
    assert!(mounted.reconcile(MountGraph::new(vec![changed])).is_empty());
}

#[test]
fn replacing_component_descendants_preserves_the_owner_and_depth_first_order() {
    let owner = ComponentId::from_raw(1);
    let old_child = ComponentId::from_raw(2);
    let new_child = ComponentId::from_raw(3);
    let mut graph = MountGraph::new(vec![node(owner, None), node(old_child, Some(owner))]);
    let replacement = MountGraph::new(vec![node(new_child, Some(owner))]);

    assert!(graph.replace_subtree(owner, replacement));
    assert_eq!(graph.ids(), vec![owner, new_child]);
    assert_eq!(graph.parent(owner), None);
    assert_eq!(graph.parent(new_child), Some(owner));
    assert_eq!(graph.subtree_ids(owner), vec![owner, new_child]);
    assert!(!graph.contains(old_child));
}

#[test]
fn revision_updates_are_not_topology_changes() {
    let a = ComponentId::from_raw(1);
    let b = ComponentId::from_raw(2);
    let before = MountGraph::new(vec![node(a, None), node(b, Some(a))]);
    let mut after = MountGraph::new(vec![node(a, None), node(b, Some(a))]);
    assert!(after.update_revision(b, ComponentRevision::default().increment()));
    assert!(after.same_topology(&before));
    assert_eq!(after.node(b).unwrap().revision.value(), 1);
    assert!(!after.update_revision(ComponentId::from_raw(9), ComponentRevision::default()));
}

#[test]
fn depth_first_order_puts_parents_before_children() {
    let a = ComponentId::from_raw(1);
    let b = ComponentId::from_raw(2);
    let c = ComponentId::from_raw(3);
    let d = ComponentId::from_raw(4);
    let graph = MountGraph::new(vec![node(c, Some(b)), node(d, None), node(b, Some(a)), node(a, None)]);
    assert_eq!(graph.ids(), vec![d, a, b, c]);
}
