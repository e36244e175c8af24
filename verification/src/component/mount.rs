//! Mount reconciliation: the transitions between two mount graphs.
use vstd::prelude::*;

use crate::component::graph::{MountGraph, MountNode};
use crate::component::ids::ComponentId;

verus! {

/// One component entering or leaving the mounted set.
#[derive(Clone, Copy, Debug, PartialEq, Eq, Structural)]
pub enum MountTransition {
    Mounted { id: ComponentId, parent: Option<ComponentId> },
    Unmounted { id: ComponentId },
}

/// The transitions of one reconciliation, in delivery order.
pub struct MountTransitions {
    pub transitions: Vec<MountTransition>,
}

impl MountTransitions {
    pub fn is_empty(&self) -> (empty: bool)
        ensures
            empty == (self.transitions@.len() == 0),
    {
        self.transitions.len() == 0
    }
}

/// Unmount transitions for the identities of `order` that `next` no
/// longer mounts, in reverse order (children before their parents).
pub open spec fn unmounts(order: Seq<ComponentId>, next: Map<u64, MountNode>) -> Seq<MountTransition>
    decreases order.len(),
{
    if order.len() == 0 {
        Seq::empty()
    } else {
        let rest = unmounts(order.drop_first(), next);
        if next.contains_key(order[0].value) {
            rest
        } else {
            rest.push(MountTransition::Unmounted { id: order[0] })
        }
    }
}

/// Mount transitions for the identities of `order` that `current` does not
/// mount yet, each with its parent in `next`.
pub open spec fn mounts(order: Seq<ComponentId>, next: Map<u64, MountNode>, current: Map<u64, MountNode>) -> Seq<
    MountTransition,
>
    decreases order.len(),
{
    if order.len() == 0 {
        Seq::empty()
    } else {
        let rest = mounts(order.drop_last(), next, current);
        let id = order.last();
        if current.contains_key(id.value) {
            rest
        } else {
            rest.push(MountTransition::Mounted { id, parent: next[id.value].parent })
        }
    }
}

/// The currently mounted graph.
pub struct MountedComponents {
    current: MountGraph,
}

impl MountedComponents {
    pub closed spec fn graph(&self) -> MountGraph {
        self.current
    }

    /// Nothing mounted.
    pub fn new() -> (mounted: Self)
        ensures
            mounted.graph().wf(),
            mounted.graph().nodes() == Map::<u64, MountNode>::empty(),
            mounted.graph().root_ids() == Seq::<ComponentId>::empty(),
    {
        MountedComponents { current: MountGraph::empty() }
    }

    pub fn current(&self) -> (graph: &MountGraph)
        ensures
            *graph == self.graph(),
    {
        &self.current
    }

    /// Replaces the mounted graph. Unmounts come first, children before
    /// their parents (reverse depth-first order of the current graph); then
    /// mounts, parents before children (depth-first order of the next
    /// graph). Reordering, reparenting and revision changes of identities
    /// mounted on both sides produce no transition.
    pub fn reconcile(&mut self, next: MountGraph) -> (transitions: MountTransitions)
        requires
            old(self).graph().wf(),
            next.wf(),
        ensures
            final(self).graph() == next,
            transitions.transitions@ == unmounts(old(self).graph().order(), next.nodes()) + mounts(
                next.order(),
                next.nodes(),
                old(self).graph().nodes(),
            ),
    {
        let mut transitions: Vec<MountTransition> = Vec::new();
        let current_ids = self.current.ids();
        let ghost order = current_ids@;
        let mut i: usize = current_ids.len();
        proof {
            assert(order.skip(order.len() as int) =~= Seq::<ComponentId>::empty());
        }
        while i > 0
            invariant
                i <= order.len(),
                order == current_ids@,
                transitions@ == unmounts(order.skip(i as int), next.nodes()),
            decreases i,
        {
            let id = current_ids[i - 1];
            proof {
                assert(order.skip(i - 1).drop_first() =~= order.skip(i as int));
                assert(order.skip(i - 1)[0] == id);
            }
            if !next.contains(id) {
                transitions.push(MountTransition::Unmounted { id });
            }
            i -= 1;
        }
        proof {
            assert(order.skip(0) =~= order);
        }
        let ghost head = transitions@;
        let next_nodes = next.to_nodes();
        proof {
            next.lemma_order();
            next.lemma_keys();
        }
        let mut k: usize = 0;
        proof {
            assert(next.order().take(0) =~= Seq::<ComponentId>::empty());
        }
        while k < next_nodes.len()
            invariant
                next.wf(),
                self.current.wf(),
                next_nodes@.len() == next.order().len(),
                forall|m: int| 0 <= m < next_nodes@.len() ==> #[trigger] next_nodes@[m] == next.node_of(next.order()[m].value),
                forall|m: int| 0 <= m < next.order().len() ==> next.nodes().contains_key(#[trigger] next.order()[m].value),
                forall|x: u64| #[trigger] next.nodes().contains_key(x) ==> next.nodes()[x].id.value == x,
                k <= next_nodes@.len(),
                transitions@ == head + mounts(next.order().take(k as int), next.nodes(), self.current.nodes()),
            decreases next_nodes@.len() - k,
        {
            let node = next_nodes[k];
            proof {
                assert(next.order().take(k + 1).drop_last() =~= next.order().take(k as int));
                assert(next.order().take(k + 1).last() == next.order()[k as int]);
                assert(next.nodes()[next.order()[k as int].value].id.value == next.order()[k as int].value);
                assert(node.id == next.order()[k as int]);
            }
            if !self.current.contains(node.id) {
                transitions.push(MountTransition::Mounted { id: node.id, parent: node.parent });
            }
            k += 1;
        }
        proof {
            assert(next.order().take(next.order().len() as int) =~= next.order());
        }
        self.current = next;
        MountTransitions { transitions }
    }
}

impl Default for MountedComponents {
    fn default() -> (mounted: Self)
        ensures
            mounted.graph().wf(),
            mounted.graph().nodes() == Map::<u64, MountNode>::empty(),
            mounted.graph().root_ids() == Seq::<ComponentId>::empty(),
    {
        MountedComponents::new()
    }
}

} // verus!
