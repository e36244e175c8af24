//! Semantic component placements in depth-first mount order.
//!
//! The graph stores topology by stable component identities instead of
//! indexing a contiguous node vector: local subtree replacement updates only
//! the affected entries, and iterating the whole graph is reserved for
//! callers that need global order (focus, mount reconciliation, ticks).
use std::collections::HashMap;
use vstd::std_specs::iter::IteratorSpec;
use vstd::prelude::*;

use crate::component::ids::{ComponentId, ComponentRevision};

verus! {

broadcast use vstd::std_specs::hash::group_hash_axioms;

/// One mounted component and the component that owns it.
#[derive(Clone, Copy, Debug, PartialEq, Eq, Structural)]
pub struct MountNode {
    pub id: ComponentId,
    pub parent: Option<ComponentId>,
    pub revision: ComponentRevision,
}

/// Identities of `ns` whose parent is `p`, in order.
pub open spec fn children_of(ns: Seq<MountNode>, p: Option<ComponentId>) -> Seq<ComponentId>
    decreases ns.len(),
{
    if ns.len() == 0 {
        Seq::empty()
    } else if ns.last().parent == p {
        children_of(ns.drop_last(), p).push(ns.last().id)
    } else {
        children_of(ns.drop_last(), p)
    }
}

/// No two nodes of `ns` share an identity.
pub open spec fn distinct_ids(ns: Seq<MountNode>) -> bool {
    forall|i: int, j: int| 0 <= i < j < ns.len() ==> ns[i].id != ns[j].id
}

pub struct MountGraph {
    entries: HashMap<u64, MountNode>,
    roots: Vec<ComponentId>,
    children: HashMap<u64, Vec<ComponentId>>,
}

impl MountGraph {
    /// Mounted nodes keyed by raw identity.
    pub closed spec fn nodes(&self) -> Map<u64, MountNode> {
        self.entries@
    }

    /// Top-level components, in order.
    pub closed spec fn root_ids(&self) -> Seq<ComponentId> {
        self.roots@
    }

    /// The ordered child list kept under raw identity `p`.
    pub closed spec fn kids(&self, p: u64) -> Seq<ComponentId> {
        if self.children@.contains_key(p) {
            self.children@[p]@
        } else {
            Seq::empty()
        }
    }

    /// Every node is keyed by its own identity; every identity occurs at
    /// most once across the root list and all child lists, and each listed
    /// identity is mounted.
    pub closed spec fn wf(&self) -> bool {
        &&& forall|k: u64| #[trigger] self.entries@.contains_key(k) ==> self.entries@[k].id.value == k
        &&& forall|i: int, j: int| 0 <= i < j < self.roots@.len() ==> self.roots@[i] != self.roots@[j]
        &&& forall|p: u64, i: int, j: int|
            0 <= i < j < self.kids(p).len() ==> #[trigger] self.kids(p)[i] != #[trigger] self.kids(p)[j]
        &&& forall|p: u64, i: int, j: int|
            0 <= i < self.roots@.len() && 0 <= j < self.kids(p).len() ==> #[trigger] self.roots@[i] != #[trigger] self.kids(p)[j]
        &&& forall|p: u64, q: u64, i: int, j: int|
            p != q && 0 <= i < self.kids(p).len() && 0 <= j < self.kids(q).len() ==> #[trigger] self.kids(p)[i]
                != #[trigger] self.kids(q)[j]
        &&& forall|i: int| 0 <= i < self.roots@.len() ==> self.entries@.contains_key(#[trigger] self.roots@[i].value)
        &&& forall|p: u64, i: int| 0 <= i < self.kids(p).len() ==> self.entries@.contains_key(#[trigger] self.kids(p)[i].value)
    }

    /// Each mounted node is keyed by its own identity.
    pub proof fn lemma_keys(&self)
        requires
            self.wf(),
        ensures
            forall|k: u64| #[trigger] self.nodes().contains_key(k) ==> self.nodes()[k].id.value == k,
    {
    }

    /// The empty graph.
    pub fn empty() -> (graph: Self)
        ensures
            graph.wf(),
            graph.nodes() == Map::<u64, MountNode>::empty(),
            graph.root_ids() == Seq::<ComponentId>::empty(),
            forall|p: u64| #[trigger] graph.kids(p) == Seq::<ComponentId>::empty(),
    {
        let graph = MountGraph { entries: HashMap::new(), roots: Vec::new(), children: HashMap::new() };
        assert(graph.entries@ =~= Map::<u64, MountNode>::empty());
        graph
    }

    /// Builds the graph from placements with distinct identities: each node
    /// joins the child list of its parent, or the root list.
    pub fn new(nodes: Vec<MountNode>) -> (graph: Self)
        requires
            distinct_ids(nodes@),
        ensures
            graph.wf(),
            forall|k: u64| #[trigger] graph.nodes().contains_key(k) <==> exists|i: int| 0 <= i < nodes@.len() && nodes@[i].id.value == k,
            forall|i: int| 0 <= i < nodes@.len() ==> #[trigger] graph.nodes()[nodes@[i].id.value] == nodes@[i],
            graph.root_ids() == children_of(nodes@, None),
            forall|p: u64| #[trigger] graph.kids(p) == children_of(nodes@, Some(ComponentId { value: p })),
    {
        let mut graph = MountGraph::empty();
        let mut i: usize = 0;
        proof {
            assert(nodes@.take(0) =~= Seq::<MountNode>::empty());
        }
        while i < nodes.len()
            invariant
                i <= nodes@.len(),
                distinct_ids(nodes@),
                graph.wf(),
                forall|k: u64| #[trigger] graph.nodes().contains_key(k) <==> exists|m: int| 0 <= m < i && nodes@[m].id.value == k,
                forall|m: int| 0 <= m < i ==> #[trigger] graph.nodes()[nodes@[m].id.value] == nodes@[m],
                graph.root_ids() == children_of(nodes@.take(i as int), None),
                forall|p: u64| #[trigger] graph.kids(p) == children_of(nodes@.take(i as int), Some(ComponentId { value: p })),
            decreases nodes@.len() - i,
        {
            let node = nodes[i];
            let ghost before = graph;
            let ghost pre = nodes@.take(i as int);
            proof {
                assert(nodes@.take(i as int + 1).drop_last() =~= pre);
                assert(nodes@.take(i as int + 1).last() == node);
                assert(!graph.nodes().contains_key(node.id.value)) by {
                    if graph.nodes().contains_key(node.id.value) {
                        let m = choose|m: int| 0 <= m < i && nodes@[m].id.value == node.id.value;
                        assert(nodes@[m].id == nodes@[i as int].id);
                    }
                }
                MountGraph::lemma_fresh_unlisted(before, node.id);
            }
            graph.entries.insert(node.id.value, node);
            match node.parent {
                None => {
                    graph.roots.push(node.id);
                },
                Some(parent) => {
                    let list = match graph.children.remove(&parent.value) {
                        Some(list) => list,
                        None => Vec::new(),
                    };
                    let mut list = list;
                    list.push(node.id);
                    let ghost pushed = list@;
                    graph.children.insert(parent.value, list);
                    proof {
                        assert(graph.children@ =~= before.children@.insert(parent.value, graph.children@[parent.value]));
                        assert(graph.children@[parent.value]@ == pushed);
                        assert(pushed =~= before.kids(parent.value).push(node.id));
                    }
                },
            }
            proof {
                MountGraph::lemma_added(before, graph, node);
                assert forall|k: u64| #[trigger] graph.nodes().contains_key(k) <==> exists|m: int| 0 <= m < i + 1 && nodes@[m].id.value == k by {
                    if graph.nodes().contains_key(k) && k != node.id.value {
                        let m = choose|m: int| 0 <= m < i && nodes@[m].id.value == k;
                    }
                    if k == node.id.value {
                        assert(nodes@[i as int].id.value == k);
                    }
                }
                assert forall|m: int| 0 <= m < i + 1 implies #[trigger] graph.nodes()[nodes@[m].id.value] == nodes@[m] by {
                    if m < i {
                        assert(nodes@[m].id != nodes@[i as int].id);
                    }
                }
            }
            i += 1;
        }
        proof {
            assert(nodes@.take(nodes@.len() as int) =~= nodes@);
        }
        graph
    }

    /// A mounted identity that is not yet mounted is listed nowhere.
    proof fn lemma_fresh_unlisted(g: MountGraph, id: ComponentId)
        requires
            g.wf(),
            !g.nodes().contains_key(id.value),
        ensures
            forall|i: int| 0 <= i < g.root_ids().len() ==> #[trigger] g.root_ids()[i] != id,
            forall|p: u64, i: int| 0 <= i < g.kids(p).len() ==> #[trigger] g.kids(p)[i] != id,
    {
        assert forall|i: int| 0 <= i < g.root_ids().len() implies #[trigger] g.root_ids()[i] != id by {
            assert(g.entries@.contains_key(g.roots@[i].value));
        }
        assert forall|p: u64, i: int| 0 <= i < g.kids(p).len() implies #[trigger] g.kids(p)[i] != id by {
            assert(g.entries@.contains_key(g.kids(p)[i].value));
        }
    }

    /// Adding a fresh node to its parent's list (or the roots) keeps the
    /// graph well-formed.
    proof fn lemma_added(before: MountGraph, after: MountGraph, node: MountNode)
        requires
            before.wf(),
            !before.nodes().contains_key(node.id.value),
            forall|i: int| 0 <= i < before.root_ids().len() ==> #[trigger] before.root_ids()[i] != node.id,
            forall|p: u64, i: int| 0 <= i < before.kids(p).len() ==> #[trigger] before.kids(p)[i] != node.id,
            after.nodes() == before.nodes().insert(node.id.value, node),
            node.parent is None ==> after.root_ids() == before.root_ids().push(node.id) && after.children@ == before.children@,
            node.parent matches Some(p) ==> after.root_ids() == before.root_ids() && after.children@ == before.children@.insert(
                p.value,
                after.children@[p.value],
            ) && after.children@[p.value]@ == before.kids(p.value).push(node.id),
        ensures
            after.wf(),
            node.parent is None ==> after.root_ids() == before.root_ids().push(node.id) && forall|q: u64| #[trigger] after.kids(q)
                == before.kids(q),
            node.parent matches Some(p) ==> after.root_ids() == before.root_ids() && forall|q: u64| #[trigger] after.kids(q)
                == if q == p.value { before.kids(q).push(node.id) } else { before.kids(q) },
    {
        match node.parent {
            None => {
                assert forall|q: u64| #[trigger] after.kids(q) == before.kids(q) by {}
            },
            Some(p) => {
                assert forall|q: u64| #[trigger] after.kids(q) == if q == p.value { before.kids(q).push(node.id) } else { before.kids(q) } by {}
            },
        }
        assert forall|p: u64, i: int, j: int|
            0 <= i < j < after.kids(p).len() implies #[trigger] after.kids(p)[i] != #[trigger] after.kids(p)[j] by {
            if j == before.kids(p).len() {
                assert(after.kids(p)[i] == before.kids(p)[i]);
            }
            if j < before.kids(p).len() {
                assert(after.kids(p)[i] == before.kids(p)[i]);
                assert(after.kids(p)[j] == before.kids(p)[j]);
            }
        }
        assert forall|p: u64, i: int, j: int|
            0 <= i < after.roots@.len() && 0 <= j < after.kids(p).len() implies #[trigger] after.roots@[i] != #[trigger] after.kids(p)[j] by {
            if i < before.roots@.len() && j < before.kids(p).len() {
                assert(after.roots@[i] == before.roots@[i]);
                assert(after.kids(p)[j] == before.kids(p)[j]);
            } else if i < before.roots@.len() {
                assert(after.roots@[i] == before.roots@[i]);
            } else {
                assert(after.kids(p)[j] == before.kids(p)[j]);
            }
        }
        assert forall|p: u64, q: u64, i: int, j: int|
            p != q && 0 <= i < after.kids(p).len() && 0 <= j < after.kids(q).len() implies #[trigger] after.kids(p)[i]
                != #[trigger] after.kids(q)[j] by {
            if i < before.kids(p).len() && j < before.kids(q).len() {
                assert(after.kids(p)[i] == before.kids(p)[i]);
                assert(after.kids(q)[j] == before.kids(q)[j]);
            } else if i < before.kids(p).len() {
                assert(after.kids(p)[i] == before.kids(p)[i]);
            } else {
                assert(after.kids(q)[j] == before.kids(q)[j]);
            }
        }
        assert forall|i: int, j: int| 0 <= i < j < after.roots@.len() implies after.roots@[i] != after.roots@[j] by {
            if j < before.roots@.len() {
                assert(after.roots@[i] == before.roots@[i]);
                assert(after.roots@[j] == before.roots@[j]);
            } else {
                assert(after.roots@[i] == before.roots@[i]);
            }
        }
        assert forall|i: int| 0 <= i < after.roots@.len() implies after.entries@.contains_key(#[trigger] after.roots@[i].value) by {
            if i < before.roots@.len() {
                assert(after.roots@[i] == before.roots@[i]);
            }
        }
        assert forall|p: u64, i: int| 0 <= i < after.kids(p).len() implies after.entries@.contains_key(#[trigger] after.kids(p)[i].value) by {
            if i < before.kids(p).len() {
                assert(after.kids(p)[i] == before.kids(p)[i]);
            }
        }
    }
}


/// Depth-first order from a stack of pending identities (top at the end):
/// each visited identity is followed by its child list, left to right.
pub closed spec fn dfs(g: MountGraph, stack: Seq<ComponentId>, fuel: nat) -> Seq<ComponentId>
    decreases fuel,
{
    if fuel == 0 || stack.len() == 0 {
        Seq::empty()
    } else {
        let x = stack.last();
        seq![x] + dfs(g, stack.drop_last() + g.kids(x.value).reverse(), (fuel - 1) as nat)
    }
}

/// The traversal state: visited and pending identities are distinct and
/// mounted, and each was either a start identity or sits in the child
/// list of a visited one.
pub closed spec fn dfs_inv(g: MountGraph, start: Seq<ComponentId>, out: Seq<ComponentId>, pending: Seq<ComponentId>) -> bool {
    &&& out.no_duplicates()
    &&& pending.no_duplicates()
    &&& forall|i: int, j: int| 0 <= i < out.len() && 0 <= j < pending.len() ==> out[i] != pending[j]
    &&& forall|i: int| 0 <= i < out.len() ==> g.entries@.contains_key(#[trigger] out[i].value)
    &&& forall|j: int| 0 <= j < pending.len() ==> g.entries@.contains_key(#[trigger] pending[j].value)
    &&& forall|j: int| 0 <= j < pending.len() ==> start.contains(#[trigger] pending[j]) || exists|m: int|
        0 <= m < out.len() && g.kids(out[m].value).contains(pending[j])
    &&& forall|i: int| 0 <= i < out.len() ==> start.contains(#[trigger] out[i]) || exists|m: int|
        0 <= m < out.len() && g.kids(out[m].value).contains(out[i])
}

/// Distinct mounted identities are no more than the mounted nodes.
proof fn lemma_distinct_bound(s: Seq<ComponentId>, dom: Set<u64>)
    requires
        s.no_duplicates(),
        dom.finite(),
        forall|i: int| 0 <= i < s.len() ==> dom.contains(#[trigger] s[i].value),
    ensures
        s.len() <= dom.len(),
{
    let v = s.map_values(|c: ComponentId| c.value);
    assert(v.no_duplicates()) by {
        assert forall|i: int, j: int| 0 <= i < v.len() && 0 <= j < v.len() && i != j implies v[i] != v[j] by {
            assert(s[i] != s[j]);
        }
    }
    v.unique_seq_to_set();
    assert(v.to_set().subset_of(dom)) by {
        assert forall|x: u64| v.to_set().contains(x) implies dom.contains(x) by {
            let i = choose|i: int| 0 <= i < v.len() && v[i] == x;
            assert(dom.contains(s[i].value));
        }
    }
    vstd::set_lib::lemma_len_subset(v.to_set(), dom);
}

impl MountGraph {
    /// One traversal step keeps the traversal state.
    proof fn lemma_dfs_step(g: MountGraph, start: Seq<ComponentId>, out: Seq<ComponentId>, pending: Seq<ComponentId>)
        requires
            g.wf(),
            dfs_inv(g, start, out, pending),
            pending.len() > 0,
            forall|c: ComponentId| #[trigger] g.kids(pending.last().value).contains(c) ==> !start.contains(c),
        ensures
            dfs_inv(g, start, out.push(pending.last()), pending.drop_last() + g.kids(pending.last().value).reverse()),
    {
        let x = pending.last();
        let ks = g.kids(x.value);
        let kr = ks.reverse();
        let rest = pending.drop_last();
        let out2 = out.push(x);
        let p2 = rest + kr;
        assert forall|c: ComponentId| #[trigger] ks.contains(c) implies !out.contains(c) && !pending.contains(c) by {
            let ci = choose|ci: int| 0 <= ci < ks.len() && ks[ci] == c;
            if out.contains(c) {
                let i = choose|i: int| 0 <= i < out.len() && out[i] == c;
                if !start.contains(out[i]) {
                    let m = choose|m: int| 0 <= m < out.len() && g.kids(out[m].value).contains(out[i]);
                    let mi = choose|mi: int| 0 <= mi < g.kids(out[m].value).len() && g.kids(out[m].value)[mi] == c;
                    if out[m].value != x.value {
                        assert(g.kids(out[m].value)[mi] != g.kids(x.value)[ci]);
                    }
                    assert(out[m] == x);
                    assert(out[m] != pending[pending.len() - 1]);
                }
            }
            if pending.contains(c) {
                let j = choose|j: int| 0 <= j < pending.len() && pending[j] == c;
                if !start.contains(pending[j]) {
                    let m = choose|m: int| 0 <= m < out.len() && g.kids(out[m].value).contains(pending[j]);
                    let mi = choose|mi: int| 0 <= mi < g.kids(out[m].value).len() && g.kids(out[m].value)[mi] == c;
                    if out[m].value != x.value {
                        assert(g.kids(out[m].value)[mi] != g.kids(x.value)[ci]);
                    }
                    assert(out[m] == x);
                    assert(out[m] != pending[pending.len() - 1]);
                }
            }
        }
        assert forall|i: int| 0 <= i < kr.len() implies #[trigger] ks.contains(kr[i]) by {
            assert(kr[i] == ks[ks.len() - 1 - i]);
        }
        assert(kr.no_duplicates()) by {
            assert forall|i: int, j: int| 0 <= i < kr.len() && 0 <= j < kr.len() && i != j implies kr[i] != kr[j] by {
                let a = ks.len() - 1 - i;
                let b = ks.len() - 1 - j;
                if a < b {
                    assert(ks[a] != ks[b]);
                } else {
                    assert(ks[b] != ks[a]);
                }
            }
        }
        assert(out2.no_duplicates()) by {
            assert forall|i: int, j: int| 0 <= i < out2.len() && 0 <= j < out2.len() && i != j implies out2[i] != out2[j] by {
                if i < out.len() && j < out.len() {
                } else if i < out.len() {
                    assert(out[i] != pending[pending.len() - 1]);
                } else {
                    assert(out[j] != pending[pending.len() - 1]);
                }
            }
        }
        assert(p2.no_duplicates()) by {
            assert forall|i: int, j: int| 0 <= i < p2.len() && 0 <= j < p2.len() && i != j implies p2[i] != p2[j] by {
                if i < rest.len() && j < rest.len() {
                    assert(p2[i] == pending[i]);
                    assert(p2[j] == pending[j]);
                } else if i < rest.len() {
                    assert(p2[i] == pending[i]);
                    assert(ks.contains(kr[j - rest.len()]));
                    assert(pending.contains(pending[i]));
                } else if j < rest.len() {
                    assert(p2[j] == pending[j]);
                    assert(ks.contains(kr[i - rest.len()]));
                    assert(pending.contains(pending[j]));
                } else {
                    assert(kr[i - rest.len()] != kr[j - rest.len()]);
                }
            }
        }
        assert forall|i: int, j: int| 0 <= i < out2.len() && 0 <= j < p2.len() implies out2[i] != p2[j] by {
            if j < rest.len() {
                assert(p2[j] == pending[j]);
                if i < out.len() {
                } else {
                    assert(pending[j] != pending[pending.len() - 1]);
                }
            } else {
                assert(ks.contains(kr[j - rest.len()]));
                if i < out.len() {
                    assert(out.contains(out[i]));
                } else {
                    assert(pending.contains(pending[pending.len() - 1]));
                }
            }
        }
        assert forall|j: int| 0 <= j < p2.len() implies g.entries@.contains_key(#[trigger] p2[j].value) by {
            if j < rest.len() {
                assert(p2[j] == pending[j]);
            } else {
                assert(kr[j - rest.len()] == ks[ks.len() - 1 - (j - rest.len())]);
            }
        }
        assert forall|i: int| 0 <= i < out2.len() implies g.entries@.contains_key(#[trigger] out2[i].value) by {
            if i < out.len() {
            } else {
                assert(out2[i] == pending[pending.len() - 1]);
            }
        }
        assert forall|j: int| 0 <= j < p2.len() implies start.contains(#[trigger] p2[j]) || exists|m: int|
            0 <= m < out2.len() && g.kids(out2[m].value).contains(p2[j]) by {
            if j < rest.len() {
                assert(p2[j] == pending[j]);
                if !start.contains(pending[j]) {
                    let m = choose|m: int| 0 <= m < out.len() && g.kids(out[m].value).contains(pending[j]);
                    assert(out2[m] == out[m]);
                }
            } else {
                assert(ks.contains(kr[j - rest.len()]));
                assert(out2[out.len() as int] == x);
            }
        }
        assert forall|i: int| 0 <= i < out2.len() implies start.contains(#[trigger] out2[i]) || exists|m: int|
            0 <= m < out2.len() && g.kids(out2[m].value).contains(out2[i]) by {
            if i < out.len() {
                if !start.contains(out[i]) {
                    let m = choose|m: int| 0 <= m < out.len() && g.kids(out[m].value).contains(out[i]);
                    assert(out2[m] == out[m]);
                }
            } else {
                assert(out2[i] == pending[pending.len() - 1]);
                let j = pending.len() - 1;
                if !start.contains(pending[j]) {
                    let m = choose|m: int| 0 <= m < out.len() && g.kids(out[m].value).contains(pending[j]);
                    assert(out2[m] == out[m]);
                }
            }
        }
    }

    /// Runs the traversal from `pending`, appending the visit order.
    fn walk(&self, pending: Vec<ComponentId>, Ghost(start): Ghost<Seq<ComponentId>>) -> (order: Vec<ComponentId>)
        requires
            self.wf(),
            start == pending@,
            dfs_inv(*self, start, Seq::empty(), pending@),
            forall|p: u64, c: ComponentId| #[trigger] self.kids(p).contains(c) ==> !start.contains(c),
        ensures
            order@ == dfs(*self, start, self.entries@.dom().len()),
            order@.no_duplicates(),
            forall|i: int| 0 <= i < order@.len() ==> self.entries@.contains_key(#[trigger] order@[i].value),
    {
        let ghost n = self.entries@.dom().len();
        let mut pending = pending;
        let mut out: Vec<ComponentId> = Vec::new();
        proof {
            assert(out@ + dfs(*self, pending@, n) =~= dfs(*self, start, n));
        }
        while pending.len() > 0
            invariant
                self.wf(),
                n == self.entries@.dom().len(),
                dfs_inv(*self, start, out@, pending@),
                forall|p: u64, c: ComponentId| #[trigger] self.kids(p).contains(c) ==> !start.contains(c),
                dfs(*self, start, n) == out@ + dfs(*self, pending@, (n - out@.len()) as nat),
                out@.len() <= n,
            decreases n - out@.len(),
        {
            let ghost old_out = out@;
            let ghost old_pending = pending@;
            let x = pending.pop().unwrap();
            proof {
                assert(old_pending.last() == x);
                MountGraph::lemma_dfs_step(*self, start, old_out, old_pending);
                lemma_distinct_bound(old_out.push(x), self.entries@.dom());
                assert(old_out.push(x).no_duplicates());
            }
            out.push(x);
            match self.children.get(&x.value) {
                Some(list) => {
                    let mut j: usize = list.len();
                    let ghost base = pending@;
                    while j > 0
                        invariant
                            j <= list@.len(),
                            pending@ == base + list@.reverse().take((list@.len() - j) as int),
                        decreases j,
                    {
                        pending.push(list[j - 1]);
                        j -= 1;
                        proof {
                            assert(list@.reverse()[(list@.len() - j - 1) as int] == list@[j as int]);
                            assert(pending@ =~= base + list@.reverse().take((list@.len() - j) as int));
                        }
                    }
                    proof {
                        assert(list@.reverse().take(list@.len() as int) =~= list@.reverse());
                        assert(self.kids(x.value) == list@);
                    }
                },
                None => {
                    proof {
                        assert(self.kids(x.value) =~= Seq::<ComponentId>::empty());
                        assert(pending@ =~= old_pending.drop_last() + self.kids(x.value).reverse());
                    }
                },
            }
            proof {
                assert(pending@ =~= old_pending.drop_last() + self.kids(x.value).reverse());
                let f = (n - old_out.len()) as nat;
                assert(dfs(*self, old_pending, f) == seq![x] + dfs(*self, pending@, (f - 1) as nat));
                assert(out@ + dfs(*self, pending@, (n - out@.len()) as nat) =~= old_out + (seq![x] + dfs(*self, pending@, (f - 1) as nat)));
            }
        }
        proof {
            assert(out@ + dfs(*self, pending@, (n - out@.len()) as nat) =~= out@);
        }
        out
    }
}


impl MountGraph {
    /// Mounted identities in depth-first semantic order.
    pub closed spec fn order(&self) -> Seq<ComponentId> {
        dfs(*self, self.roots@.reverse(), self.entries@.dom().len())
    }

    /// The mounted node of a raw identity.
    pub open spec fn node_of(&self, k: u64) -> MountNode {
        self.nodes()[k]
    }

    /// Every identity of the order is mounted, and none repeats.
    pub proof fn lemma_order(&self)
        requires
            self.wf(),
        ensures
            self.order().no_duplicates(),
            forall|i: int| 0 <= i < self.order().len() ==> self.nodes().contains_key(#[trigger] self.order()[i].value),
    {
        let start = self.roots@.reverse();
        MountGraph::lemma_roots_start(*self);
        MountGraph::lemma_dfs_facts(*self, start);
    }

    /// The root list, reversed, starts a traversal.
    proof fn lemma_roots_start(g: MountGraph)
        requires
            g.wf(),
        ensures
            dfs_inv(g, g.roots@.reverse(), Seq::empty(), g.roots@.reverse()),
            forall|p: u64, c: ComponentId| #[trigger] g.kids(p).contains(c) ==> !g.roots@.reverse().contains(c),
    {
        let r = g.roots@;
        let rr = r.reverse();
        assert forall|i: int| 0 <= i < rr.len() implies #[trigger] rr[i] == r[r.len() - 1 - i] by {}
        assert(rr.no_duplicates()) by {
            assert forall|i: int, j: int| 0 <= i < rr.len() && 0 <= j < rr.len() && i != j implies rr[i] != rr[j] by {
                let a = r.len() - 1 - i;
                let b = r.len() - 1 - j;
                assert(rr[i] == r[a]);
                assert(rr[j] == r[b]);
                if a < b {
                    assert(r[a] != r[b]);
                } else {
                    assert(r[b] != r[a]);
                }
            }
        }
        assert forall|j: int| 0 <= j < rr.len() implies g.entries@.contains_key(#[trigger] rr[j].value) by {
            assert(rr[j] == r[r.len() - 1 - j]);
        }
        assert forall|j: int| 0 <= j < rr.len() implies rr.contains(#[trigger] rr[j]) by {}
        assert forall|p: u64, c: ComponentId| #[trigger] g.kids(p).contains(c) implies !rr.contains(c) by {
            if rr.contains(c) {
                let j = choose|j: int| 0 <= j < rr.len() && rr[j] == c;
                let i = choose|i: int| 0 <= i < g.kids(p).len() && g.kids(p)[i] == c;
                assert(rr[j] == r[r.len() - 1 - j]);
                assert(r[r.len() - 1 - j] != g.kids(p)[i]);
            }
        }
    }

    /// Traversal facts for a valid start (proved by running the ghost
    /// traversal's invariant).
    proof fn lemma_dfs_facts(g: MountGraph, start: Seq<ComponentId>)
        requires
            g.wf(),
            dfs_inv(g, start, Seq::empty(), start),
            forall|p: u64, c: ComponentId| #[trigger] g.kids(p).contains(c) ==> !start.contains(c),
        ensures
            dfs(g, start, g.entries@.dom().len()).no_duplicates(),
            forall|i: int| 0 <= i < dfs(g, start, g.entries@.dom().len()).len() ==> g.entries@.contains_key(
                #[trigger] dfs(g, start, g.entries@.dom().len())[i].value,
            ),
    {
        MountGraph::lemma_dfs_run(g, start, Seq::empty(), start, g.entries@.dom().len());
        assert(Seq::<ComponentId>::empty() + dfs(g, start, g.entries@.dom().len()) =~= dfs(g, start, g.entries@.dom().len()));
    }

    /// The rest of a traversal from a valid state visits distinct mounted
    /// identities not visited yet.
    proof fn lemma_dfs_run(g: MountGraph, start: Seq<ComponentId>, out: Seq<ComponentId>, pending: Seq<ComponentId>, n: nat)
        requires
            g.wf(),
            dfs_inv(g, start, out, pending),
            forall|p: u64, c: ComponentId| #[trigger] g.kids(p).contains(c) ==> !start.contains(c),
            out.len() + n <= g.entries@.dom().len() || n >= g.entries@.dom().len() - out.len(),
        ensures
            (out + dfs(g, pending, n)).no_duplicates(),
            forall|i: int| 0 <= i < (out + dfs(g, pending, n)).len() ==> g.entries@.contains_key(#[trigger] (out + dfs(g, pending, n))[i].value),
        decreases n,
    {
        if n == 0 || pending.len() == 0 {
            assert(out + dfs(g, pending, n) =~= out);
        } else {
            let x = pending.last();
            let p2 = pending.drop_last() + g.kids(x.value).reverse();
            MountGraph::lemma_dfs_step(g, start, out, pending);
            MountGraph::lemma_dfs_run(g, start, out.push(x), p2, (n - 1) as nat);
            assert(out + dfs(g, pending, n) =~= out.push(x) + dfs(g, p2, (n - 1) as nat));
        }
    }

    /// Each identity a traversal emits either started on the stack or sits
    /// in the child list of an identity emitted before it.
    proof fn lemma_dfs_provenance(g: MountGraph, stack: Seq<ComponentId>, fuel: nat)
        ensures
            forall|j: int| 0 <= j < dfs(g, stack, fuel).len() ==> stack.contains(#[trigger] dfs(g, stack, fuel)[j])
                || exists|i: int| 0 <= i < j && g.kids(dfs(g, stack, fuel)[i].value).contains(dfs(g, stack, fuel)[j]),
        decreases fuel,
    {
        if fuel > 0 && stack.len() > 0 {
            let x = stack.last();
            let rest = stack.drop_last() + g.kids(x.value).reverse();
            MountGraph::lemma_dfs_provenance(g, rest, (fuel - 1) as nat);
            let r = dfs(g, stack, fuel);
            let r2 = dfs(g, rest, (fuel - 1) as nat);
            assert(r == seq![x] + r2);
            assert forall|j: int| 0 <= j < r.len() implies stack.contains(#[trigger] r[j])
                || exists|i: int| 0 <= i < j && g.kids(r[i].value).contains(r[j]) by {
                if j == 0 {
                    assert(stack[stack.len() - 1] == x);
                } else {
                    assert(r[j] == r2[j - 1]);
                    if rest.contains(r2[j - 1]) {
                        let k = choose|k: int| 0 <= k < rest.len() && rest[k] == r2[j - 1];
                        if k < stack.len() - 1 {
                            assert(stack[k] == r[j]);
                        } else {
                            let kr = g.kids(x.value).reverse();
                            assert(kr[k - (stack.len() - 1)] == r[j]);
                            let m = g.kids(x.value).len() - 1 - (k - (stack.len() - 1));
                            assert(g.kids(x.value)[m] == r[j]);
                            assert(r[0] == x);
                            assert(g.kids(r[0].value).contains(r[j]));
                        }
                    } else {
                        let i2 = choose|i: int| 0 <= i < j - 1 && g.kids(r2[i].value).contains(r2[j - 1]);
                        assert(r[i2 + 1] == r2[i2]);
                        assert(g.kids(r[i2 + 1].value).contains(r[j]));
                    }
                }
            }
        }
    }

    /// In depth-first mount order every component comes after the component
    /// whose child list holds it: parents mount before their children, and
    /// the reverse order unmounts children first.
    pub proof fn mount_order_puts_parents_first(&self)
        requires
            self.wf(),
        ensures
            forall|i: int, j: int| 0 <= i < self.order().len() && 0 <= j < self.order().len()
                && #[trigger] self.kids(self.order()[i].value).contains(#[trigger] self.order()[j]) ==> i < j,
    {
        let g = *self;
        let start = self.roots@.reverse();
        MountGraph::lemma_roots_start(g);
        self.lemma_order();
        MountGraph::lemma_dfs_provenance(g, start, self.entries@.dom().len());
        let o = self.order();
        assert forall|i: int, j: int| 0 <= i < o.len() && 0 <= j < o.len()
            && #[trigger] self.kids(o[i].value).contains(#[trigger] o[j]) implies i < j by {
            assert(!start.contains(o[j]));
            let i2 = choose|i2: int| 0 <= i2 < j && g.kids(o[i2].value).contains(o[j]);
            let a = choose|a: int| 0 <= a < self.kids(o[i].value).len() && self.kids(o[i].value)[a] == o[j];
            let b = choose|b: int| 0 <= b < self.kids(o[i2].value).len() && self.kids(o[i2].value)[b] == o[j];
            if o[i].value != o[i2].value {
                assert(self.kids(o[i].value)[a] != self.kids(o[i2].value)[b]);
            }
            assert(o[i] == o[i2]);
        }
    }

    /// A traversal reads the graph only through its child lists.
    proof fn lemma_dfs_same_kids(g1: MountGraph, g2: MountGraph, stack: Seq<ComponentId>, fuel: nat)
        requires
            forall|p: u64| #[trigger] g1.kids(p) == g2.kids(p),
        ensures
            dfs(g1, stack, fuel) == dfs(g2, stack, fuel),
        decreases fuel,
    {
        if fuel > 0 && stack.len() > 0 {
            let x = stack.last();
            assert(g1.kids(x.value) == g2.kids(x.value));
            MountGraph::lemma_dfs_same_kids(g1, g2, stack.drop_last() + g1.kids(x.value).reverse(), (fuel - 1) as nat);
        }
    }

    /// A revision update is no topology change: the depth-first order and
    /// every parent stay as they were.
    pub proof fn revision_updates_keep_the_topology(before: MountGraph, after: MountGraph, id: ComponentId, revision: ComponentRevision)
        requires
            before.nodes().contains_key(id.value),
            after.root_ids() == before.root_ids(),
            forall|p: u64| #[trigger] after.kids(p) == before.kids(p),
            after.nodes() == before.nodes().insert(id.value, MountNode { revision, ..before.nodes()[id.value] }),
        ensures
            after.order() == before.order(),
            forall|k: u64| #[trigger] after.nodes().contains_key(k) <==> before.nodes().contains_key(k),
            forall|k: u64| #[trigger] after.nodes().contains_key(k) ==> after.node_of(k).parent == before.node_of(k).parent
                && after.node_of(k).id == before.node_of(k).id,
    {
        assert(after.entries@.dom() =~= before.entries@.dom());
        MountGraph::lemma_dfs_same_kids(after, before, after.roots@.reverse(), after.entries@.dom().len());
    }

    /// Identities in depth-first semantic order.
    pub fn ids(&self) -> (ids: Vec<ComponentId>)
        requires
            self.wf(),
        ensures
            ids@ == self.order(),
    {
        let mut pending: Vec<ComponentId> = Vec::new();
        let mut i: usize = self.roots.len();
        while i > 0
            invariant
                i <= self.roots@.len(),
                pending@ == self.roots@.reverse().take((self.roots@.len() - i) as int),
            decreases i,
        {
            pending.push(self.roots[i - 1]);
            i -= 1;
            proof {
                assert(self.roots@.reverse()[(self.roots@.len() - i - 1) as int] == self.roots@[i as int]);
                assert(pending@ =~= self.roots@.reverse().take((self.roots@.len() - i) as int));
            }
        }
        proof {
            assert(self.roots@.reverse().take(self.roots@.len() as int) =~= self.roots@.reverse());
            MountGraph::lemma_roots_start(*self);
        }
        self.walk(pending, Ghost(self.roots@.reverse()))
    }

    /// Mounted nodes in depth-first semantic order.
    pub fn to_nodes(&self) -> (nodes: Vec<MountNode>)
        requires
            self.wf(),
        ensures
            nodes@.len() == self.order().len(),
            forall|i: int| 0 <= i < nodes@.len() ==> #[trigger] nodes@[i] == self.node_of(self.order()[i].value),
    {
        let ids = self.ids();
        proof {
            self.lemma_order();
        }
        let mut nodes: Vec<MountNode> = Vec::new();
        let mut i: usize = 0;
        while i < ids.len()
            invariant
                self.wf(),
                ids@ == self.order(),
                forall|k: int| 0 <= k < ids@.len() ==> self.nodes().contains_key(#[trigger] ids@[k].value),
                i <= ids@.len(),
                nodes@.len() == i,
                forall|k: int| 0 <= k < i ==> #[trigger] nodes@[k] == self.node_of(ids@[k].value),
            decreases ids@.len() - i,
        {
            assert(self.nodes().contains_key(ids@[i as int].value));
            match self.entries.get(&ids[i].value) {
                Some(node) => nodes.push(*node),
                None => {
                    return nodes;
                },
            }
            i += 1;
        }
        nodes
    }

    pub fn len(&self) -> (count: usize)
        ensures
            count == self.nodes().len(),
    {
        self.entries.len()
    }

    pub fn is_empty(&self) -> (empty: bool)
        ensures
            empty == (self.nodes().len() == 0),
    {
        self.entries.len() == 0
    }

    pub fn contains(&self, id: ComponentId) -> (found: bool)
        ensures
            found == self.nodes().contains_key(id.value),
    {
        self.entries.contains_key(&id.value)
    }

    pub fn node(&self, id: ComponentId) -> (node: Option<&MountNode>)
        ensures
            node is Some <==> self.nodes().contains_key(id.value),
            node matches Some(n) ==> *n == self.nodes()[id.value],
    {
        self.entries.get(&id.value)
    }

    pub fn parent(&self, id: ComponentId) -> (parent: Option<ComponentId>)
        ensures
            parent == if self.nodes().contains_key(id.value) { self.nodes()[id.value].parent } else { None },
    {
        match self.entries.get(&id.value) {
            Some(node) => node.parent,
            None => None,
        }
    }

    /// Compares only mount ownership and order, not revisions: a revision
    /// change is not a topology change.
    pub fn same_topology(&self, other: &Self) -> (same: bool)
        requires
            self.wf(),
            other.wf(),
        ensures
            same == (self.order().len() == other.order().len() && forall|i: int| 0 <= i < self.order().len() ==> (
            #[trigger] self.order()[i] == other.order()[i] && self.node_of(self.order()[i].value).parent == other.node_of(
                other.order()[i].value,
            ).parent)),
    {
        let mine = self.to_nodes();
        let theirs = other.to_nodes();
        proof {
            self.lemma_order();
            other.lemma_order();
            assert forall|i: int| 0 <= i < mine@.len() implies #[trigger] mine@[i].id == self.order()[i] by {
                assert(self.nodes().contains_key(self.order()[i].value));
                assert(self.order()[i] == ComponentId { value: self.order()[i].value });
            }
            assert forall|i: int| 0 <= i < theirs@.len() implies #[trigger] theirs@[i].id == other.order()[i] by {
                assert(other.nodes().contains_key(other.order()[i].value));
                assert(other.order()[i] == ComponentId { value: other.order()[i].value });
            }
        }
        if mine.len() != theirs.len() {
            return false;
        }
        let mut i: usize = 0;
        while i < mine.len()
            invariant
                mine@.len() == theirs@.len(),
                mine@.len() == self.order().len(),
                theirs@.len() == other.order().len(),
                forall|k: int| 0 <= k < mine@.len() ==> #[trigger] mine@[k] == self.node_of(self.order()[k].value),
                forall|k: int| 0 <= k < theirs@.len() ==> #[trigger] theirs@[k] == other.node_of(other.order()[k].value),
                forall|k: int| 0 <= k < mine@.len() ==> #[trigger] mine@[k].id == self.order()[k],
                forall|k: int| 0 <= k < theirs@.len() ==> #[trigger] theirs@[k].id == other.order()[k],
                i <= mine@.len(),
                forall|k: int| 0 <= k < i ==> #[trigger] self.order()[k] == other.order()[k] && self.node_of(self.order()[k].value).parent
                    == other.node_of(other.order()[k].value).parent,
            decreases mine@.len() - i,
        {
            if mine[i].id != theirs[i].id || mine[i].parent != theirs[i].parent {
                assert(mine@[i as int] == self.node_of(self.order()[i as int].value));
                return false;
            }
            i += 1;
        }
        true
    }

    /// Reparents the roots of a standalone component subtree under `parent`.
    pub fn reparent_roots(&mut self, parent: ComponentId)
        requires
            old(self).wf(),
        ensures
            final(self).wf(),
            final(self).root_ids() == old(self).root_ids(),
            forall|p: u64| #[trigger] final(self).kids(p) == old(self).kids(p),
            final(self).nodes().dom() == old(self).nodes().dom(),
            forall|k: u64| #[trigger] final(self).nodes().contains_key(k) ==> final(self).nodes()[k] == if old(self).root_ids().contains(
                ComponentId { value: k },
            ) {
                MountNode { parent: Some(parent), ..old(self).nodes()[k] }
            } else {
                old(self).nodes()[k]
            },
    {
        let mut i: usize = 0;
        let ghost before = *self;
        while i < self.roots.len()
            invariant
                before.wf(),
                self.roots@ == before.roots@,
                self.children@ == before.children@,
                self.entries@.dom() == before.entries@.dom(),
                i <= self.roots@.len(),
                forall|k: u64| #[trigger] self.entries@.contains_key(k) ==> self.entries@[k] == if self.roots@.take(i as int).contains(
                    ComponentId { value: k },
                ) {
                    MountNode { parent: Some(parent), ..before.entries@[k] }
                } else {
                    before.entries@[k]
                },
            decreases self.roots@.len() - i,
        {
            let id = self.roots[i];
            let ghost prev = self.entries@;
            match self.entries.get(&id.value) {
                Some(node) => {
                    let updated = MountNode { parent: Some(parent), ..*node };
                    self.entries.insert(id.value, updated);
                },
                None => {},
            }
            proof {
                assert forall|k: u64| #[trigger] self.entries@.contains_key(k) implies self.entries@[k] == if self.roots@.take(i + 1).contains(
                    ComponentId { value: k },
                ) {
                    MountNode { parent: Some(parent), ..before.entries@[k] }
                } else {
                    before.entries@[k]
                } by {
                    assert(self.roots@.take(i + 1) =~= self.roots@.take(i as int).push(id));
                    assert(before.entries@[id.value].id.value == id.value);
                    if k == id.value {
                        assert(id == ComponentId { value: k });
                        assert(self.roots@.take(i + 1)[i as int] == id);
                        assert(self.roots@.take(i + 1).contains(ComponentId { value: k }));
                        if self.roots@.take(i as int).contains(ComponentId { value: k }) {
                            let m = choose|m: int| 0 <= m < i && self.roots@.take(i as int)[m] == ComponentId { value: k };
                            assert(self.roots@[m] != self.roots@[i as int]);
                        }
                    } else {
                        assert(self.roots@.take(i + 1).contains(ComponentId { value: k }) == self.roots@.take(i as int).contains(
                            ComponentId { value: k },
                        ));
                    }
                }
            }
            i += 1;
        }
        proof {
            assert(self.roots@.take(self.roots@.len() as int) =~= self.roots@);
            assert forall|p: u64| #[trigger] self.kids(p) == before.kids(p) by {}
        }
    }

    /// Updates a mounted component's revision without rediscovering the
    /// graph; `false` when the component is not mounted.
    pub fn update_revision(&mut self, id: ComponentId, revision: ComponentRevision) -> (updated: bool)
        requires
            old(self).wf(),
        ensures
            final(self).wf(),
            updated == old(self).nodes().contains_key(id.value),
            final(self).root_ids() == old(self).root_ids(),
            forall|p: u64| #[trigger] final(self).kids(p) == old(self).kids(p),
            final(self).nodes() == if updated {
                old(self).nodes().insert(id.value, MountNode { revision, ..old(self).nodes()[id.value] })
            } else {
                old(self).nodes()
            },
    {
        let ghost before = *self;
        match self.entries.get(&id.value) {
            Some(node) => {
                let updated = MountNode { revision, ..*node };
                self.entries.insert(id.value, updated);
                proof {
                    assert forall|p: u64| #[trigger] self.kids(p) == before.kids(p) by {}
                }
                true
            },
            None => false,
        }
    }
}


/// The raw identities keyed in a map, each once, in walk order.
pub fn map_keys<V>(m: &HashMap<u64, V>) -> (keys: Vec<u64>)
    ensures
        keys@.no_duplicates(),
        forall|k: u64| #[trigger] keys@.contains(k) <==> m@.contains_key(k),
{
    let mut keys: Vec<u64> = Vec::new();
    let ghost all = vstd::std_specs::hash::spec_keys_iter(m).remaining();
    proof {
        vstd::std_specs::hash::axiom_spec_keys_iter(m);
    }
    for k in it: m.keys()
        invariant
            it.seq() == all,
            all.unref().to_set() == m@.dom(),
            all.no_duplicates(),
            keys@ == it.seq().take(it.index() as int).map_values(|r: &u64| *r),
    {
        keys.push(*k);
    }
    proof {
        assert(keys@ =~= all.map_values(|r: &u64| *r));
        assert forall|k: u64| #[trigger] keys@.contains(k) <==> m@.contains_key(k) by {
            if keys@.contains(k) {
                let i = choose|i: int| 0 <= i < keys@.len() && keys@[i] == k;
                assert(all.unref()[i] == k);
                assert(all.unref().contains(k));
                assert(all.unref().to_set().contains(k));
            }
            if m@.contains_key(k) {
                assert(all.unref().to_set().contains(k));
                let i = choose|i: int| 0 <= i < all.unref().len() && all.unref()[i] == k;
                assert(keys@[i] == k);
            }
        }
        assert(keys@.no_duplicates()) by {
            assert forall|i: int, j: int| 0 <= i < keys@.len() && 0 <= j < keys@.len() && i != j implies keys@[i] != keys@[j] by {
                assert(all[i] != all[j]);
            }
        }
    }
    keys
}


impl MountGraph {
    /// `r` strictly increases from each identity to the members of its
    /// child list.
    pub closed spec fn ranked(&self, r: spec_fn(u64) -> nat) -> bool {
        forall|p: u64, i: int| 0 <= i < self.kids(p).len() ==> r(#[trigger] self.kids(p)[i].value) > r(p)
    }

    /// No child list leads back to an identity above it.
    pub closed spec fn acyclic(&self) -> bool {
        exists|r: spec_fn(u64) -> nat| self.ranked(r)
    }

    /// The identities owned by `id`: itself, then its descendants depth
    /// first.
    pub closed spec fn subtree(&self, id: ComponentId) -> Seq<ComponentId> {
        dfs(*self, seq![id], self.entries@.dom().len())
    }

    /// Runs the traversal below one mounted identity.
    fn walk_below(&self, id: ComponentId, Ghost(r): Ghost<spec_fn(u64) -> nat>) -> (order: Vec<ComponentId>)
        requires
            self.wf(),
            self.ranked(r),
            self.nodes().contains_key(id.value),
        ensures
            order@ == self.subtree(id),
            order@.no_duplicates(),
            order@.len() >= 1 && order@[0] == id,
            forall|i: int| 0 <= i < order@.len() ==> self.nodes().contains_key(#[trigger] order@[i].value),
            forall|m: int, c: ComponentId| 0 <= m < order@.len() && #[trigger] self.kids(order@[m].value).contains(c) ==> order@.contains(c),
            forall|i: int| 0 <= i < order@.len() ==> #[trigger] order@[i] == id || exists|m: int|
                0 <= m < order@.len() && self.kids(order@[m].value).contains(order@[i]),
    {
        let ghost n = self.entries@.dom().len();
        let ghost start = seq![id];
        let mut pending: Vec<ComponentId> = Vec::new();
        pending.push(id);
        let mut out: Vec<ComponentId> = Vec::new();
        proof {
            assert(pending@ =~= start);
            assert(out@ + dfs(*self, pending@, n) =~= dfs(*self, start, n));
            assert(start.contains(pending@[0]));
        }
        while pending.len() > 0
            invariant
                self.wf(),
                self.ranked(r),
                n == self.entries@.dom().len(),
                start == seq![id],
                dfs_inv(*self, start, out@, pending@),
                forall|j: int| 0 <= j < pending@.len() ==> r(#[trigger] pending@[j].value) >= r(id.value),
                forall|i: int| 0 <= i < out@.len() ==> r(#[trigger] out@[i].value) >= r(id.value),
                forall|m: int, c: ComponentId| 0 <= m < out@.len() && #[trigger] self.kids(out@[m].value).contains(c)
                    ==> out@.contains(c) || pending@.contains(c),
                out@.len() == 0 ==> pending@ == start,
                out@.len() > 0 ==> out@[0] == id,
                dfs(*self, start, n) == out@ + dfs(*self, pending@, (n - out@.len()) as nat),
                out@.len() <= n,
            decreases n - out@.len(),
        {
            let ghost old_out = out@;
            let ghost old_pending = pending@;
            let x = pending.pop().unwrap();
            proof {
                assert(old_pending.last() == x);
                assert forall|c: ComponentId| #[trigger] self.kids(x.value).contains(c) implies !start.contains(c) by {
                    let i = choose|i: int| 0 <= i < self.kids(x.value).len() && self.kids(x.value)[i] == c;
                    assert(r(self.kids(x.value)[i].value) > r(x.value));
                    assert(r(x.value) >= r(id.value)) by {
                        assert(old_pending[old_pending.len() - 1] == x);
                    }
                    if start.contains(c) {
                        assert(start[0] == c);
                    }
                }
                MountGraph::lemma_dfs_step(*self, start, old_out, old_pending);
                lemma_distinct_bound(old_out.push(x), self.entries@.dom());
            }
            out.push(x);
            match self.children.get(&x.value) {
                Some(list) => {
                    let mut j: usize = list.len();
                    let ghost base = pending@;
                    while j > 0
                        invariant
                            j <= list@.len(),
                            pending@ == base + list@.reverse().take((list@.len() - j) as int),
                        decreases j,
                    {
                        pending.push(list[j - 1]);
                        j -= 1;
                        proof {
                            assert(list@.reverse()[(list@.len() - j - 1) as int] == list@[j as int]);
                            assert(pending@ =~= base + list@.reverse().take((list@.len() - j) as int));
                        }
                    }
                    proof {
                        assert(list@.reverse().take(list@.len() as int) =~= list@.reverse());
                        assert(self.kids(x.value) == list@);
                    }
                },
                None => {
                    proof {
                        assert(self.kids(x.value) =~= Seq::<ComponentId>::empty());
                    }
                },
            }
            proof {
                let ks = self.kids(x.value);
                assert(pending@ =~= old_pending.drop_last() + ks.reverse());
                let f = (n - old_out.len()) as nat;
                assert(dfs(*self, old_pending, f) == seq![x] + dfs(*self, pending@, (f - 1) as nat));
                assert(out@ + dfs(*self, pending@, (n - out@.len()) as nat) =~= old_out + (seq![x] + dfs(*self, pending@, (f - 1) as nat)));
                assert forall|j: int| 0 <= j < pending@.len() implies r(#[trigger] pending@[j].value) >= r(id.value) by {
                    if j < old_pending.len() - 1 {
                        assert(pending@[j] == old_pending[j]);
                    } else {
                        let k = j - (old_pending.len() - 1);
                        assert(pending@[j] == ks.reverse()[k]);
                        assert(ks.reverse()[k] == ks[ks.len() - 1 - k]);
                        assert(r(ks[ks.len() - 1 - k].value) > r(x.value));
                        assert(r(x.value) >= r(id.value)) by {
                            assert(old_pending[old_pending.len() - 1] == x);
                        }
                    }
                }
                assert forall|i: int| 0 <= i < out@.len() implies r(#[trigger] out@[i].value) >= r(id.value) by {
                    if i < old_out.len() {
                        assert(out@[i] == old_out[i]);
                    } else {
                        assert(old_pending[old_pending.len() - 1] == x);
                    }
                }
                assert forall|m: int, c: ComponentId| 0 <= m < out@.len() && #[trigger] self.kids(out@[m].value).contains(c)
                    implies out@.contains(c) || pending@.contains(c) by {
                    if m < old_out.len() {
                        assert(out@[m] == old_out[m]);
                        if old_out.contains(c) {
                            let k = choose|k: int| 0 <= k < old_out.len() && old_out[k] == c;
                            assert(out@[k] == c);
                        } else {
                            assert(old_pending.contains(c));
                            let k = choose|k: int| 0 <= k < old_pending.len() && old_pending[k] == c;
                            if k == old_pending.len() - 1 {
                                assert(out@[old_out.len() as int] == c);
                            } else {
                                assert(pending@[k] == c);
                            }
                        }
                    } else {
                        assert(out@[m] == x);
                        let k = choose|k: int| 0 <= k < ks.len() && ks[k] == c;
                        let q = ks.len() - 1 - k;
                        assert(ks.reverse()[q] == c);
                        assert(pending@[old_pending.len() - 1 + q] == c);
                    }
                }
            }
        }
        proof {
            assert(out@ + dfs(*self, pending@, (n - out@.len()) as nat) =~= out@);
            assert forall|i: int| 0 <= i < out@.len() implies #[trigger] out@[i] == id || exists|m: int|
                0 <= m < out@.len() && self.kids(out@[m].value).contains(out@[i]) by {
                if !start.contains(out@[i]) {
                } else {
                    assert(start[0] == out@[i]);
                }
            }
        }
        out
    }

    /// The contiguous semantic subtree owned by one mounted component,
    /// depth first and starting with the component itself.
    pub fn subtree_ids(&self, id: ComponentId) -> (ids: Vec<ComponentId>)
        requires
            self.wf(),
            self.acyclic(),
        ensures
            ids@ == if self.nodes().contains_key(id.value) { self.subtree(id) } else { Seq::<ComponentId>::empty() },
            self.nodes().contains_key(id.value) ==> ids@.len() >= 1 && ids@[0] == id,
            ids@.no_duplicates(),
    {
        if !self.contains(id) {
            return Vec::new();
        }
        let ghost r = choose|r: spec_fn(u64) -> nat| self.ranked(r);
        self.walk_below(id, Ghost(r))
    }
}


impl MountGraph {
    /// `a` is reached from `x` by following at most `n` parent links.
    pub closed spec fn reaches_up(&self, x: ComponentId, a: ComponentId, n: nat) -> bool
        decreases n,
    {
        x == a || (n > 0 && self.entries@.contains_key(x.value) && match self.entries@[x.value].parent {
            Some(p) => self.reaches_up(p, a, (n - 1) as nat),
            None => false,
        })
    }

    /// `a` is `x` or one of its mounted ancestors.
    pub closed spec fn is_up(&self, x: ComponentId, a: ComponentId) -> bool {
        exists|n: nat| #[trigger] self.reaches_up(x, a, n)
    }

    /// Parent links never lead back to a node: some rank strictly
    /// decreases along every link between mounted nodes.
    pub closed spec fn parents_acyclic(&self) -> bool {
        exists|r: spec_fn(u64) -> nat| #[trigger] self.parent_ranked(r)
    }

    /// `r` strictly decreases from each mounted node to its mounted parent.
    pub closed spec fn parent_ranked(&self, r: spec_fn(u64) -> nat) -> bool {
        forall|k: u64| #[trigger] self.entries@.contains_key(k) ==> match self.entries@[k].parent {
            Some(p) => self.entries@.contains_key(p.value) ==> r(p.value) < r(k),
            None => true,
        }
    }

    /// Whether `ancestor` is `id` or one of its mounted ancestors.
    pub fn is_descendant_or_self(&self, id: ComponentId, ancestor: ComponentId) -> (found: bool)
        requires
            self.parents_acyclic(),
        ensures
            found == self.is_up(id, ancestor),
    {
        let ghost r = choose|r: spec_fn(u64) -> nat| #[trigger] self.parent_ranked(r);
        let mut current: Option<ComponentId> = Some(id);
        while current.is_some()
            invariant
                forall|k: u64| #[trigger] self.entries@.contains_key(k) ==> match self.entries@[k].parent {
                    Some(p) => self.entries@.contains_key(p.value) ==> r(p.value) < r(k),
                    None => true,
                },
                self.is_up(id, ancestor) <==> match current {
                    Some(c) => self.is_up(c, ancestor),
                    None => false,
                },
            decreases match current {
                Some(c) => if self.entries@.contains_key(c.value) { r(c.value) + 2 } else { 1 },
                None => 0,
            },
        {
            let candidate = current.unwrap();
            if candidate == ancestor {
                proof {
                    assert(self.reaches_up(candidate, ancestor, 0));
                }
                return true;
            }
            let next = self.parent(candidate);
            proof {
                assert(self.is_up(candidate, ancestor) <==> match next {
                    Some(c) => self.is_up(c, ancestor),
                    None => false,
                }) by {
                    if exists|n: nat| #[trigger] self.reaches_up(candidate, ancestor, n) {
                        let n = choose|n: nat| #[trigger] self.reaches_up(candidate, ancestor, n);
                        assert(n > 0);
                        let p = self.entries@[candidate.value].parent->0;
                        assert(self.reaches_up(p, ancestor, (n - 1) as nat));
                    }
                    if next is Some {
                        let p = next->0;
                        if exists|n: nat| #[trigger] self.reaches_up(p, ancestor, n) {
                            let n = choose|n: nat| #[trigger] self.reaches_up(p, ancestor, n);
                            assert(self.reaches_up(candidate, ancestor, n + 1));
                        }
                    }
                }
            }
            current = next;
        }
        false
    }
}


impl MountGraph {
    /// A child list is kept under raw identity `p`.
    pub closed spec fn has_list(&self, p: u64) -> bool {
        self.children@.contains_key(p)
    }

    /// Raw identity `k` is a descendant of `id` (not `id` itself).
    pub closed spec fn removed(&self, id: ComponentId, k: u64) -> bool {
        k != id.value && self.subtree(id).contains(ComponentId { value: k })
    }

    /// The graph after a subtree replacement is well-formed.
    proof fn lemma_replaced_wf(
        old_g: MountGraph,
        rep: MountGraph,
        new_g: MountGraph,
        id: ComponentId,
        sub: Seq<ComponentId>,
    )
        requires
            old_g.wf(),
            rep.wf(),
            sub.no_duplicates(),
            sub.len() >= 1 && sub[0] == id,
            old_g.entries@.contains_key(id.value),
            !rep.entries@.contains_key(id.value),
            forall|i: int| 0 <= i < sub.len() ==> old_g.entries@.contains_key(#[trigger] sub[i].value),
            forall|m: int, c: ComponentId| 0 <= m < sub.len() && #[trigger] old_g.kids(sub[m].value).contains(c) ==> sub.contains(c),
            forall|i: int| 0 <= i < sub.len() ==> #[trigger] sub[i] == id || exists|m: int|
                0 <= m < sub.len() && old_g.kids(sub[m].value).contains(sub[i]),
            forall|k: u64| #[trigger] rep.entries@.contains_key(k) ==> !old_g.entries@.contains_key(k) || (k != id.value
                && sub.contains(ComponentId { value: k })),
            forall|p: u64| #[trigger] rep.children@.contains_key(p) ==> p == id.value || rep.entries@.contains_key(p),
            new_g.roots@ == old_g.roots@,
            forall|k: u64| #[trigger] new_g.entries@.contains_key(k) <==> (old_g.entries@.contains_key(k) && !(k != id.value
                && sub.contains(ComponentId { value: k }))) || rep.entries@.contains_key(k),
            forall|k: u64| #[trigger] new_g.entries@.contains_key(k) ==> new_g.entries@[k] == if rep.entries@.contains_key(k) {
                rep.entries@[k]
            } else {
                old_g.entries@[k]
            },
            forall|p: u64| #[trigger] new_g.kids(p) == if rep.children@.contains_key(p) {
                rep.kids(p)
            } else if p == id.value {
                rep.roots@
            } else if p != id.value && sub.contains(ComponentId { value: p }) {
                Seq::<ComponentId>::empty()
            } else {
                old_g.kids(p)
            },
        ensures
            new_g.wf(),
    {
        let removed = |k: u64| k != id.value && sub.contains(ComponentId { value: k });
        // Members of surviving old lists survive and are not replacement ids.
        assert forall|p: u64, i: int|
            0 <= i < old_g.kids(p).len() && !rep.children@.contains_key(p) && p != id.value && !(p != id.value
                && sub.contains(ComponentId { value: p })) implies !(old_g.kids(p)[i].value != id.value && sub.contains(
            ComponentId { value: old_g.kids(p)[i].value },
        )) && !rep.entries@.contains_key(#[trigger] old_g.kids(p)[i].value) by {
            let y = old_g.kids(p)[i];
            assert(y == ComponentId { value: y.value });
            if y.value != id.value && sub.contains(y) {
                let j = choose|j: int| 0 <= j < sub.len() && sub[j] == y;
                if sub[j] != id {
                    let m = choose|m: int| 0 <= m < sub.len() && old_g.kids(sub[m].value).contains(sub[j]);
                    let mi = choose|mi: int| 0 <= mi < old_g.kids(sub[m].value).len() && old_g.kids(sub[m].value)[mi] == y;
                    if sub[m].value != p {
                        assert(old_g.kids(sub[m].value)[mi] != old_g.kids(p)[i]);
                    }
                    assert(sub[m] == ComponentId { value: p });
                    assert(sub.contains(ComponentId { value: p }));
                }
            }
            assert(old_g.entries@.contains_key(y.value));
        }
        // Old roots survive and are not replacement ids.
        assert forall|i: int| 0 <= i < old_g.roots@.len() implies !(old_g.roots@[i].value != id.value && sub.contains(
            ComponentId { value: old_g.roots@[i].value },
        )) && !rep.entries@.contains_key(#[trigger] old_g.roots@[i].value) by {
            let y = old_g.roots@[i];
            assert(y == ComponentId { value: y.value });
            if y.value != id.value && sub.contains(y) {
                let j = choose|j: int| 0 <= j < sub.len() && sub[j] == y;
                assert(sub[j] != id);
                let m = choose|m: int| 0 <= m < sub.len() && old_g.kids(sub[m].value).contains(sub[j]);
                let mi = choose|mi: int| 0 <= mi < old_g.kids(sub[m].value).len() && old_g.kids(sub[m].value)[mi] == y;
                assert(old_g.roots@[i] != old_g.kids(sub[m].value)[mi]);
            }
            assert(old_g.entries@.contains_key(y.value));
        }
        // Members of replacement lists (including its roots) are replacement ids.
        assert forall|p: u64, i: int| 0 <= i < new_g.kids(p).len() && (rep.children@.contains_key(p) || p == id.value)
            implies rep.entries@.contains_key(#[trigger] new_g.kids(p)[i].value) by {
            if rep.children@.contains_key(p) {
                assert(new_g.kids(p)[i] == rep.kids(p)[i]);
            } else {
                assert(new_g.kids(p)[i] == rep.roots@[i]);
            }
        }
        assert forall|k: u64| #[trigger] new_g.entries@.contains_key(k) implies new_g.entries@[k].id.value == k by {
            if rep.entries@.contains_key(k) {
            } else {
            }
        }
        assert forall|i: int| 0 <= i < new_g.roots@.len() implies new_g.entries@.contains_key(#[trigger] new_g.roots@[i].value) by {
            assert(new_g.roots@[i] == old_g.roots@[i]);
        }
        assert forall|p: u64, i: int| 0 <= i < new_g.kids(p).len() implies new_g.entries@.contains_key(#[trigger] new_g.kids(p)[i].value) by {
            if rep.children@.contains_key(p) || p == id.value {
            } else if p != id.value && sub.contains(ComponentId { value: p }) {
            } else {
                assert(new_g.kids(p)[i] == old_g.kids(p)[i]);
            }
        }
        assert forall|p: u64, i: int, j: int|
            0 <= i < j < new_g.kids(p).len() implies #[trigger] new_g.kids(p)[i] != #[trigger] new_g.kids(p)[j] by {
            if rep.children@.contains_key(p) {
                assert(rep.kids(p)[i] != rep.kids(p)[j]);
            } else if p == id.value {
                assert(rep.roots@[i] != rep.roots@[j]);
            } else if p != id.value && sub.contains(ComponentId { value: p }) {
            } else {
                assert(old_g.kids(p)[i] != old_g.kids(p)[j]);
            }
        }
        assert forall|p: u64, i: int, j: int|
            0 <= i < new_g.roots@.len() && 0 <= j < new_g.kids(p).len() implies #[trigger] new_g.roots@[i] != #[trigger] new_g.kids(p)[j] by {
            assert(new_g.roots@[i] == old_g.roots@[i]);
            if rep.children@.contains_key(p) || p == id.value {
                assert(rep.entries@.contains_key(new_g.kids(p)[j].value));
                assert(!rep.entries@.contains_key(old_g.roots@[i].value));
            } else if p != id.value && sub.contains(ComponentId { value: p }) {
            } else {
                assert(new_g.kids(p)[j] == old_g.kids(p)[j]);
                assert(old_g.roots@[i] != old_g.kids(p)[j]);
            }
        }
        assert forall|p: u64, q: u64, i: int, j: int|
            p != q && 0 <= i < new_g.kids(p).len() && 0 <= j < new_g.kids(q).len() implies #[trigger] new_g.kids(p)[i]
                != #[trigger] new_g.kids(q)[j] by {
            let pr = rep.children@.contains_key(p) || p == id.value;
            let qr = rep.children@.contains_key(q) || q == id.value;
            let pe = !pr && p != id.value && sub.contains(ComponentId { value: p });
            let qe = !qr && q != id.value && sub.contains(ComponentId { value: q });
            if pe || qe {
            } else if pr && qr {
                if rep.children@.contains_key(p) && rep.children@.contains_key(q) {
                    assert(rep.kids(p)[i] != rep.kids(q)[j]);
                } else if rep.children@.contains_key(p) {
                    assert(q == id.value);
                    assert(new_g.kids(q)[j] == rep.roots@[j]);
                    assert(rep.roots@[j] != rep.kids(p)[i]);
                } else {
                    assert(p == id.value);
                    assert(new_g.kids(p)[i] == rep.roots@[i]);
                    assert(rep.roots@[i] != rep.kids(q)[j]);
                }
            } else if pr {
                assert(new_g.kids(q)[j] == old_g.kids(q)[j]);
                assert(!rep.entries@.contains_key(old_g.kids(q)[j].value));
                assert(rep.entries@.contains_key(new_g.kids(p)[i].value));
            } else if qr {
                assert(new_g.kids(p)[i] == old_g.kids(p)[i]);
                assert(!rep.entries@.contains_key(old_g.kids(p)[i].value));
                assert(rep.entries@.contains_key(new_g.kids(q)[j].value));
            } else {
                assert(new_g.kids(p)[i] == old_g.kids(p)[i]);
                assert(new_g.kids(q)[j] == old_g.kids(q)[j]);
                assert(old_g.kids(p)[i] != old_g.kids(q)[j]);
            }
        }
    }
}


/// Membership in a prefix grown by one element.
proof fn lemma_take_contains(s: Seq<u64>, k: int)
    requires
        0 <= k < s.len(),
    ensures
        forall|x: u64| #[trigger] s.take(k + 1).contains(x) <==> s.take(k).contains(x) || x == s[k],
{
    let t = s.take(k + 1);
    assert(t =~= s.take(k).push(s[k]));
    assert forall|x: u64| #[trigger] s.take(k + 1).contains(x) <==> s.take(k).contains(x) || x == s[k] by {
        if t.contains(x) {
            let j = choose|j: int| 0 <= j < t.len() && t[j] == x;
            if j < k {
                assert(s.take(k)[j] == x);
            }
        }
        if s.take(k).contains(x) {
            let j = choose|j: int| 0 <= j < k && s.take(k)[j] == x;
            assert(s.take(k + 1)[j] == x);
        }
        if x == s[k] {
            assert(s.take(k + 1)[k] == x);
        }
    }
}

/// Overwrites `target` with every entry of `source`.
fn overlay<V: Copy>(target: &mut HashMap<u64, V>, source: &HashMap<u64, V>)
    ensures
        final(target)@ == old(target)@.union_prefer_right(source@),
{
    let keys = map_keys(source);
    let ghost start = target@;
    let mut k: usize = 0;
    while k < keys.len()
        invariant
            forall|x: u64| #[trigger] keys@.contains(x) <==> source@.contains_key(x),
            k <= keys@.len(),
            forall|x: u64| #[trigger] target@.contains_key(x) <==> start.contains_key(x) || keys@.take(k as int).contains(x),
            forall|x: u64| #[trigger] target@.contains_key(x) ==> target@[x] == if keys@.take(k as int).contains(x) {
                source@[x]
            } else {
                start[x]
            },
        decreases keys@.len() - k,
    {
        let key = keys[k];
        proof {
            assert(keys@.contains(key));
            lemma_take_contains(keys@, k as int);
        }
        match source.get(&key) {
            Some(value) => {
                target.insert(key, *value);
            },
            None => {},
        }
        k += 1;
    }
    proof {
        assert(keys@.take(keys@.len() as int) =~= keys@);
        assert(target@ =~= start.union_prefer_right(source@));
    }
}

/// Moves every list of `source` into `target`, overwriting.
fn overlay_lists(target: &mut HashMap<u64, Vec<ComponentId>>, source: HashMap<u64, Vec<ComponentId>>)
    ensures
        final(target)@ == old(target)@.union_prefer_right(source@),
{
    let keys = map_keys(&source);
    let ghost start = target@;
    let ghost all = source@;
    let mut source = source;
    let mut k: usize = 0;
    while k < keys.len()
        invariant
            keys@.no_duplicates(),
            forall|x: u64| #[trigger] keys@.contains(x) <==> all.contains_key(x),
            k <= keys@.len(),
            forall|x: u64| #[trigger] source@.contains_key(x) <==> all.contains_key(x) && !keys@.take(k as int).contains(x),
            forall|x: u64| #[trigger] source@.contains_key(x) ==> source@[x] == all[x],
            forall|x: u64| #[trigger] target@.contains_key(x) <==> start.contains_key(x) || keys@.take(k as int).contains(x),
            forall|x: u64| #[trigger] target@.contains_key(x) ==> target@[x] == if keys@.take(k as int).contains(x) {
                all[x]
            } else {
                start[x]
            },
        decreases keys@.len() - k,
    {
        let key = keys[k];
        proof {
            assert(keys@.contains(key));
            lemma_take_contains(keys@, k as int);
            if keys@.take(k as int).contains(key) {
                let j = choose|j: int| 0 <= j < k && keys@.take(k as int)[j] == key;
                assert(keys@[j] != keys@[k as int]);
            }
        }
        match source.remove(&key) {
            Some(list) => {
                target.insert(key, list);
            },
            None => {},
        }
        k += 1;
    }
    proof {
        assert(keys@.take(keys@.len() as int) =~= keys@);
        assert(target@ =~= start.union_prefer_right(all));
    }
}

/// Removes the identities `ids[from..]` from a map.
fn remove_ids<V>(m: &mut HashMap<u64, V>, ids: &Vec<ComponentId>, from: usize)
    requires
        from <= ids@.len(),
    ensures
        forall|k: u64| #[trigger] final(m)@.contains_key(k) <==> old(m)@.contains_key(k) && !(exists|j: int|
            from <= j < ids@.len() && ids@[j].value == k),
        forall|k: u64| #[trigger] final(m)@.contains_key(k) ==> final(m)@[k] == old(m)@[k],
{
    let ghost start = m@;
    let mut i: usize = from;
    while i < ids.len()
        invariant
            from <= i <= ids@.len(),
            forall|k: u64| #[trigger] m@.contains_key(k) <==> start.contains_key(k) && !(exists|j: int| from <= j < i && ids@[j].value == k),
            forall|k: u64| #[trigger] m@.contains_key(k) ==> m@[k] == start[k],
        decreases ids@.len() - i,
    {
        let victim = ids[i].value;
        m.remove(&victim);
        proof {
            assert forall|k: u64| #[trigger] m@.contains_key(k) <==> start.contains_key(k) && !(exists|j: int|
                from <= j < i + 1 && ids@[j].value == k) by {
                if exists|j: int| from <= j < i + 1 && ids@[j].value == k {
                    let j = choose|j: int| from <= j < i + 1 && ids@[j].value == k;
                    if j < i {
                    }
                }
            }
        }
        i += 1;
    }
}

impl MountGraph {
    /// Replaces only one component's mounted descendants. The owner entry
    /// is kept, and the replacement holds descendants only: its members are
    /// new or reuse identities of the replaced descendants, and its child
    /// lists belong to its members or to the owner. Entries and child lists
    /// are keyed by stable identities, so no global index rebuild happens.
    pub fn replace_subtree(&mut self, id: ComponentId, replacement: MountGraph) -> (replaced: bool)
        requires
            old(self).wf(),
            old(self).acyclic(),
            replacement.wf(),
            forall|k: u64| #[trigger] replacement.nodes().contains_key(k) ==> !old(self).nodes().contains_key(k) || old(
                self,
            ).removed(id, k),
            forall|p: u64| #[trigger] replacement.has_list(p) ==> p == id.value || replacement.nodes().contains_key(p),
        ensures
            replaced == (old(self).nodes().contains_key(id.value) && !replacement.nodes().contains_key(id.value)),
            !replaced ==> *final(self) == *old(self),
            replaced ==> {
                &&& final(self).wf()
                &&& final(self).root_ids() == old(self).root_ids()
                &&& forall|k: u64| #[trigger] final(self).nodes().contains_key(k) <==> (old(self).nodes().contains_key(k)
                    && !old(self).removed(id, k)) || replacement.nodes().contains_key(k)
                &&& forall|k: u64| #[trigger] final(self).nodes().contains_key(k) ==> final(self).nodes()[k] == if replacement.nodes().contains_key(k) {
                    replacement.nodes()[k]
                } else {
                    old(self).nodes()[k]
                }
                &&& forall|p: u64| #[trigger] final(self).kids(p) == if replacement.has_list(p) {
                    replacement.kids(p)
                } else if p == id.value {
                    replacement.root_ids()
                } else if old(self).removed(id, p) {
                    Seq::<ComponentId>::empty()
                } else {
                    old(self).kids(p)
                }
            },
    {
        if !self.contains(id) || replacement.contains(id) {
            return false;
        }
        let ghost before = *self;
        let ghost rank = choose|r: spec_fn(u64) -> nat| self.ranked(r);
        let old_ids = self.walk_below(id, Ghost(rank));
        let ghost sub = old_ids@;
        remove_ids(&mut self.entries, &old_ids, 1);
        remove_ids(&mut self.children, &old_ids, 1);
        proof {
            assert forall|k: u64| (exists|j: int| 1 <= j < sub.len() && sub[j].value == k) <==> before.removed(id, k) by {
                if exists|j: int| 1 <= j < sub.len() && sub[j].value == k {
                    let j = choose|j: int| 1 <= j < sub.len() && sub[j].value == k;
                    assert(sub[j] == ComponentId { value: k });
                    assert(sub[0] != sub[j]);
                    assert(sub.contains(ComponentId { value: k }));
                }
                if before.removed(id, k) {
                    let j = choose|j: int| 0 <= j < sub.len() && sub[j] == ComponentId { value: k };
                    assert(j != 0);
                }
            }
        }
        let ghost rep = replacement;
        let MountGraph { entries: rep_entries, roots: rep_roots, children: rep_children } = replacement;
        self.children.remove(&id.value);
        if rep_roots.len() > 0 {
            self.children.insert(id.value, rep_roots);
        }
        let ghost after_owner = *self;
        overlay(&mut self.entries, &rep_entries);
        overlay_lists(&mut self.children, rep_children);
        proof {
            assert forall|x: u64| #[trigger] self.entries@.contains_key(x) <==> (before.entries@.contains_key(x) && !before.removed(id, x))
                || rep.entries@.contains_key(x) by {}
            assert forall|p: u64| #[trigger] self.kids(p) == if rep.children@.contains_key(p) {
                rep.kids(p)
            } else if p == id.value {
                rep.roots@
            } else if p != id.value && sub.contains(ComponentId { value: p }) {
                Seq::<ComponentId>::empty()
            } else {
                before.kids(p)
            } by {
                if !rep.children@.contains_key(p) && p != id.value && sub.contains(ComponentId { value: p }) {
                    assert(before.removed(id, p));
                }
                if !rep.children@.contains_key(p) && p != id.value && !sub.contains(ComponentId { value: p }) {
                    assert(!before.removed(id, p));
                }
                if !rep.children@.contains_key(p) && p == id.value && rep.roots@.len() == 0 {
                    assert(self.kids(p) =~= rep.roots@);
                }
            }
            assert forall|p: u64| #[trigger] rep.children@.contains_key(p) implies p == id.value || rep.entries@.contains_key(p) by {
                assert(rep.has_list(p));
            }
            assert forall|k: u64| #[trigger] rep.entries@.contains_key(k) implies !before.entries@.contains_key(k) || (k != id.value
                && sub.contains(ComponentId { value: k })) by {
                assert(rep.nodes().contains_key(k));
            }
            MountGraph::lemma_replaced_wf(before, rep, *self, id, sub);
        }
        true
    }
}

impl Default for MountGraph {
    fn default() -> (graph: Self)
        ensures
            graph.wf(),
            graph.nodes() == Map::<u64, MountNode>::empty(),
            graph.root_ids() == Seq::<ComponentId>::empty(),
            forall|p: u64| #[trigger] graph.kids(p) == Seq::<ComponentId>::empty(),
    {
        MountGraph::empty()
    }
}

} // verus!
