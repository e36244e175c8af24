//! Persistent annotation index: a treap keyed by `(start, seqno)`.
//!
//! Inserts, splits and merges copy only the affected path; every other
//! subtree is shared between the old and the new root. Each node caches the
//! largest end offset and the node count of its subtree, so overlap queries
//! prune whole subtrees that end too early.
use std::sync::Arc;
use vstd::prelude::*;

use crate::shared::{share, share_opt};

verus! {

/// Initial annotation kinds are deliberately closed and host-independent.
pub const CONTENT_ANNOTATION_KIND_TAG: u32 = 1;
pub const CONTENT_ANNOTATION_KIND_STYLE: u32 = 2;
pub const CONTENT_ANNOTATION_KIND_ATOMIC: u32 = 3;
pub const CONTENT_ANNOTATION_KIND_POINT: u32 = 4;

/// One retained annotation with its acceptance sequence number. The
/// `seqno` preserves the semantic application order across the indexed
/// storage. `tag` and `style` carry the interned identities of the semantic
/// tag and style reference attached to the record.
pub struct SourceAnnotation {
    pub kind: u32,
    pub flags: u32,
    pub start_byte: u64,
    pub end_byte: u64,
    pub payload: Arc<Vec<u8>>,
    pub aux0: u32,
    pub aux1: u32,
    pub tag: Option<u64>,
    pub style: Option<u64>,
    pub seqno: u64,
}

impl SourceAnnotation {
    /// A copy that shares the payload allocation.
    pub fn duplicate(&self) -> (copy: Self)
        ensures
            copy == *self,
    {
        SourceAnnotation {
            kind: self.kind,
            flags: self.flags,
            start_byte: self.start_byte,
            end_byte: self.end_byte,
            payload: share(&self.payload),
            aux0: self.aux0,
            aux1: self.aux1,
            tag: self.tag,
            style: self.style,
            seqno: self.seqno,
        }
    }
}

/// The index key of a record.
pub open spec fn key_of(a: SourceAnnotation) -> (u64, u64) {
    (a.start_byte, a.seqno)
}

/// Lexicographic order on index keys.
pub open spec fn key_lt(a: (u64, u64), b: (u64, u64)) -> bool {
    a.0 < b.0 || (a.0 == b.0 && a.1 < b.1)
}

/// Executable lexicographic comparison of index keys.
pub fn key_less(a: (u64, u64), b: (u64, u64)) -> (less: bool)
    ensures
        less == key_lt(a, b),
{
    a.0 < b.0 || (a.0 == b.0 && a.1 < b.1)
}

/// Records strictly increasing by index key.
pub open spec fn sorted_by_key(s: Seq<SourceAnnotation>) -> bool {
    forall|i: int, j: int| 0 <= i < j < s.len() ==> key_lt(key_of(s[i]), key_of(s[j]))
}

/// Records strictly increasing by acceptance sequence number.
pub open spec fn sorted_by_seqno(s: Seq<SourceAnnotation>) -> bool {
    forall|i: int, j: int| 0 <= i < j < s.len() ==> s[i].seqno < s[j].seqno
}

/// No two records share a sequence number.
pub open spec fn unique_seqnos(s: Seq<SourceAnnotation>) -> bool {
    forall|i: int, j: int| 0 <= i < s.len() && 0 <= j < s.len() && i != j ==> s[i].seqno != s[j].seqno
}

/// A record overlaps the half-open byte range `[start, end)`.
pub open spec fn overlaps(a: SourceAnnotation, start: u64, end: u64) -> bool {
    a.start_byte < end && a.end_byte > start
}

/// A count clamped to the `usize` range, as saturating arithmetic keeps it.
pub open spec fn sat_len(n: nat) -> int {
    if n > usize::MAX {
        usize::MAX as int
    } else {
        n as int
    }
}

/// The record that survives a head truncation at `offset`, if any: records
/// starting at or after the offset are kept, tag and style records that still
/// cover the offset restart at it, everything else is dropped.
pub open spec fn truncated_record(a: SourceAnnotation, offset: u64) -> Option<SourceAnnotation> {
    if a.start_byte >= offset {
        Some(a)
    } else if (a.kind == CONTENT_ANNOTATION_KIND_TAG || a.kind == CONTENT_ANNOTATION_KIND_STYLE)
        && a.end_byte > offset {
        Some(SourceAnnotation { start_byte: offset, ..a })
    } else {
        None
    }
}

/// The treap priority of an index key: the key mixed by a splitmix-style
/// finalizer.
pub open spec fn key_priority(start: u64, seqno: u64) -> u64 {
    let k0 = vstd::wrapping::u64_specs::wrapping_add(
        vstd::wrapping::u64_specs::wrapping_mul(start, 0x9E37_79B9_7F4A_7C15u64),
        seqno,
    );
    let k1 = k0 ^ (k0 >> 30u64);
    let k2 = vstd::wrapping::u64_specs::wrapping_mul(k1, 0xBF58_476D_1CE4_E5B9u64);
    let k3 = k2 ^ (k2 >> 27u64);
    let k4 = vstd::wrapping::u64_specs::wrapping_mul(k3, 0x94D0_49BB_1331_11EBu64);
    k4 ^ (k4 >> 31u64)
}

/// Deterministic treap priority from the index key (no RNG needed).
pub fn annotation_priority(start: u64, seqno: u64) -> (priority: u64)
    ensures
        priority == key_priority(start, seqno),
{
    let mut key = start.wrapping_mul(0x9E37_79B9_7F4A_7C15).wrapping_add(seqno);
    key = key ^ (key >> 30u64);
    key = key.wrapping_mul(0xBF58_476D_1CE4_E5B9);
    key = key ^ (key >> 27u64);
    key = key.wrapping_mul(0x94D0_49BB_1331_11EB);
    key ^ (key >> 31u64)
}

pub struct AnnotationNode {
    key: (u64, u64),
    value: SourceAnnotation,
    priority: u64,
    max_end: u64,
    size: usize,
    left: Option<Arc<AnnotationNode>>,
    right: Option<Arc<AnnotationNode>>,
}

/// In-order records of a subtree.
pub closed spec fn link_view(t: &Option<Arc<AnnotationNode>>) -> Seq<SourceAnnotation>
    decreases t,
{
    match t {
        None => Seq::empty(),
        Some(n) => link_view(&n.left) + seq![n.value] + link_view(&n.right),
    }
}

spec fn value_of(t: &Option<Arc<AnnotationNode>>) -> SourceAnnotation
    recommends
        t is Some,
{
    t.unwrap().value
}

spec fn link_max_end(t: &Option<Arc<AnnotationNode>>) -> u64 {
    match t {
        None => 0,
        Some(n) => n.max_end,
    }
}

spec fn link_size(t: &Option<Arc<AnnotationNode>>) -> int {
    match t {
        None => 0,
        Some(n) => n.size as int,
    }
}

/// The root of `t`, if any, has a priority of at least `p`.
spec fn prio_ok(p: u64, t: &Option<Arc<AnnotationNode>>) -> bool {
    match t {
        None => true,
        Some(n) => n.priority >= p,
    }
}

spec fn max3(a: u64, b: u64, c: u64) -> u64 {
    if a >= b && a >= c {
        a
    } else if b >= c {
        b
    } else {
        c
    }
}

spec fn all_below(s: Seq<SourceAnnotation>, k: (u64, u64)) -> bool {
    forall|i: int| 0 <= i < s.len() ==> key_lt(#[trigger] key_of(s[i]), k)
}

spec fn all_above(s: Seq<SourceAnnotation>, k: (u64, u64)) -> bool {
    forall|i: int| 0 <= i < s.len() ==> key_lt(k, #[trigger] key_of(s[i]))
}

spec fn all_at_least(s: Seq<SourceAnnotation>, k: (u64, u64)) -> bool {
    forall|i: int| 0 <= i < s.len() ==> !key_lt(#[trigger] key_of(s[i]), k)
}

spec fn keys_separated(a: Seq<SourceAnnotation>, b: Seq<SourceAnnotation>) -> bool {
    forall|i: int, j: int|
        0 <= i < a.len() && 0 <= j < b.len() ==> key_lt(#[trigger] key_of(a[i]), #[trigger] key_of(b[j]))
}

/// Search-tree order, heap order on priorities, and exact cached aggregates.
pub closed spec fn link_wf(t: &Option<Arc<AnnotationNode>>) -> bool
    decreases t,
{
    match t {
        None => true,
        Some(n) => {
            &&& link_wf(&n.left)
            &&& link_wf(&n.right)
            &&& n.key == key_of(n.value)
            &&& all_below(link_view(&n.left), n.key)
            &&& all_above(link_view(&n.right), n.key)
            &&& n.max_end == max3(n.value.end_byte, link_max_end(&n.left), link_max_end(&n.right))
            &&& n.size == sat_len(link_view(&n.left).len() + 1 + link_view(&n.right).len())
            &&& prio_ok(n.priority, &n.left)
            &&& prio_ok(n.priority, &n.right)
        },
    }
}

proof fn lemma_key_lt_trans(a: (u64, u64), b: (u64, u64), c: (u64, u64))
    requires
        key_lt(a, b),
        key_lt(b, c),
    ensures
        key_lt(a, c),
{
}

proof fn lemma_wf_facts(t: &Option<Arc<AnnotationNode>>)
    requires
        link_wf(&t),
    ensures
        sorted_by_key(link_view(&t)),
        link_size(&t) == sat_len(link_view(&t).len()),
        forall|i: int| 0 <= i < link_view(&t).len() ==> #[trigger] link_view(&t)[i].end_byte <= link_max_end(&t),
    decreases t,
{
    if let Some(n) = t {
        lemma_wf_facts(&n.left);
        lemma_wf_facts(&n.right);
        let l = link_view(&n.left);
        let r = link_view(&n.right);
        let v = link_view(&t);
        assert(v == l + seq![n.value] + r);
        assert forall|i: int, j: int| 0 <= i < j < v.len() implies key_lt(key_of(v[i]), key_of(v[j])) by {
            if j < l.len() {
                assert(v[i] == l[i] && v[j] == l[j]);
            } else if j == l.len() {
                assert(v[i] == l[i]);
            } else if i > l.len() {
                assert(v[i] == r[i - l.len() - 1] && v[j] == r[j - l.len() - 1]);
            } else if i == l.len() {
                assert(v[j] == r[j - l.len() - 1]);
            } else {
                assert(v[i] == l[i] && v[j] == r[j - l.len() - 1]);
                lemma_key_lt_trans(key_of(v[i]), n.key, key_of(v[j]));
            }
        }
        assert forall|i: int| 0 <= i < v.len() implies #[trigger] v[i].end_byte <= link_max_end(&t) by {
            if i < l.len() {
                assert(v[i] == l[i]);
            } else if i > l.len() {
                assert(v[i] == r[i - l.len() - 1]);
            }
        }
    }
}

/// Membership in a key-sorted sequence: an element with a key below every
/// key is absent.
proof fn lemma_view_concat3(l: Seq<SourceAnnotation>, x: SourceAnnotation, r: Seq<SourceAnnotation>)
    ensures
        forall|a: SourceAnnotation| #[trigger] (l + seq![x] + r).contains(a) <==> (l.contains(a) || a == x || r.contains(a)),
{
    let v = l + seq![x] + r;
    assert forall|a: SourceAnnotation| v.contains(a) <==> (l.contains(a) || a == x || r.contains(a)) by {
        if v.contains(a) {
            let i = choose|i: int| 0 <= i < v.len() && v[i] == a;
            if i < l.len() {
                assert(l[i] == a);
            } else if i > l.len() {
                assert(r[i - l.len() - 1] == a);
            }
        }
        if l.contains(a) {
            let i = choose|i: int| 0 <= i < l.len() && l[i] == a;
            assert(v[i] == a);
        }
        if a == x {
            assert(v[l.len() as int] == a);
        }
        if r.contains(a) {
            let i = choose|i: int| 0 <= i < r.len() && r[i] == a;
            assert(v[l.len() + 1 + i] == a);
        }
    }
}

impl AnnotationNode {
    /// A single-record subtree.
    fn new(start: u64, seqno: u64, value: SourceAnnotation) -> (node: Arc<AnnotationNode>)
        requires
            start == value.start_byte,
            seqno == value.seqno,
        ensures
            link_wf(&Some(node)),
            link_view(&Some(node)) == seq![value],
    {
        let max_end = value.end_byte;
        let node = Arc::new(AnnotationNode {
            key: (start, seqno),
            value,
            priority: annotation_priority(start, seqno),
            max_end,
            size: 1,
            left: None,
            right: None,
        });
        proof {
            assert(link_view(&node.left) =~= Seq::empty());
            assert(link_view(&node.right) =~= Seq::empty());
            assert(link_view(&Some(node)) =~= seq![value]);
            assert(link_wf(&node.left));
            assert(link_wf(&node.right));
            assert(max3(value.end_byte, 0, 0) == value.end_byte);
        }
        node
    }

    /// Builds a node over two existing subtrees, recomputing the cached
    /// maximum end offset and node count.
    fn rebuilt(
        key: (u64, u64),
        value: SourceAnnotation,
        priority: u64,
        left: Option<Arc<AnnotationNode>>,
        right: Option<Arc<AnnotationNode>>,
    ) -> (node: Arc<AnnotationNode>)
        requires
            link_wf(&left),
            link_wf(&right),
            key == key_of(value),
            all_below(link_view(&left), key),
            all_above(link_view(&right), key),
            prio_ok(priority, &left),
            prio_ok(priority, &right),
        ensures
            link_wf(&Some(node)),
            link_view(&Some(node)) == link_view(&left) + seq![value] + link_view(&right),
            node.priority == priority,
    {
        proof {
            lemma_wf_facts(&left);
            lemma_wf_facts(&right);
        }
        let mut max_end = value.end_byte;
        let mut size: usize = 1;
        match &left {
            Some(l) => {
                if l.max_end > max_end {
                    max_end = l.max_end;
                }
                size = size.saturating_add(l.size);
            },
            None => {},
        }
        match &right {
            Some(r) => {
                if r.max_end > max_end {
                    max_end = r.max_end;
                }
                size = size.saturating_add(r.size);
            },
            None => {},
        }
        let node = Arc::new(AnnotationNode { key, value, priority, max_end, size, left, right });
        node
    }
}

/// Splits a subtree into the records keyed below `key` and the rest.
fn split_key(root: &Option<Arc<AnnotationNode>>, key: (u64, u64)) -> (parts: (
    Option<Arc<AnnotationNode>>,
    Option<Arc<AnnotationNode>>,
))
    requires
        link_wf(root),
    ensures
        link_wf(&parts.0),
        link_wf(&parts.1),
        link_view(&parts.0) + link_view(&parts.1) == link_view(root),
        all_below(link_view(&parts.0), key),
        all_at_least(link_view(&parts.1), key),
        forall|p: u64| prio_ok(p, root) ==> prio_ok(p, &parts.0) && prio_ok(p, &parts.1),
    decreases *root,
{
    match root {
        None => (None, None),
        Some(node) => {
            let ghost l = link_view(&node.left);
            let ghost r = link_view(&node.right);
            if key_less(node.key, key) {
                let (middle, right) = split_key(&node.right, key);
                proof {
                    let m = link_view(&middle);
                    assert forall|i: int| 0 <= i < m.len() implies key_lt(node.key, #[trigger] key_of(m[i])) by {
                        assert(r[i] == m[i]);
                    }
                }
                let left = AnnotationNode::rebuilt(
                    node.key,
                    node.value.duplicate(),
                    node.priority,
                    share_opt(&node.left),
                    middle,
                );
                proof {
                    let v0 = link_view(&Some(left));
                    let m = link_view(&middle);
                    assert(v0 == l + seq![node.value] + m);
                    assert forall|i: int| 0 <= i < v0.len() implies key_lt(#[trigger] key_of(v0[i]), key) by {
                        if i < l.len() {
                            assert(v0[i] == l[i]);
                            lemma_key_lt_trans(key_of(l[i]), node.key, key);
                        } else if i > l.len() {
                            assert(v0[i] == m[i - l.len() - 1]);
                        }
                    }
                    assert(l + seq![node.value] + m + link_view(&right) =~= l + seq![node.value] + r);
                }
                (Some(left), right)
            } else {
                let (left, middle) = split_key(&node.left, key);
                proof {
                    let m = link_view(&middle);
                    let lv = link_view(&left);
                    assert forall|i: int| 0 <= i < m.len() implies key_lt(#[trigger] key_of(m[i]), node.key) by {
                        assert(l[lv.len() + i] == m[i]);
                    }
                }
                let right = AnnotationNode::rebuilt(
                    node.key,
                    node.value.duplicate(),
                    node.priority,
                    middle,
                    share_opt(&node.right),
                );
                proof {
                    let v1 = link_view(&Some(right));
                    let m = link_view(&middle);
                    assert(v1 == m + seq![node.value] + r);
                    assert forall|i: int| 0 <= i < v1.len() implies !key_lt(#[trigger] key_of(v1[i]), key) by {
                        if i < m.len() {
                            assert(v1[i] == m[i]);
                        } else if i > m.len() {
                            assert(v1[i] == r[i - m.len() - 1]);
                        }
                    }
                    assert(link_view(&left) + (m + seq![node.value] + r) =~= l + seq![node.value] + r);
                }
                (left, Some(right))
            }
        },
    }
}

/// Joins two subtrees whose keys are already separated.
#[verifier::rlimit(40)]
#[verifier::spinoff_prover]
fn merge(left: Option<Arc<AnnotationNode>>, right: Option<Arc<AnnotationNode>>) -> (joined: Option<
    Arc<AnnotationNode>,
>)
    requires
        link_wf(&left),
        link_wf(&right),
        keys_separated(link_view(&left), link_view(&right)),
    ensures
        link_wf(&joined),
        link_view(&joined) == link_view(&left) + link_view(&right),
        forall|p: u64| prio_ok(p, &left) && prio_ok(p, &right) ==> prio_ok(p, &joined),
    decreases left, right,
{
    match left {
        None => {
            assert(link_view(&left) + link_view(&right) =~= link_view(&right));
            right
        },
        Some(l) => {
            match right {
                None => {
                    assert(link_view(&left) + link_view(&right) =~= link_view(&left));
                    Some(l)
                },
                Some(r) => {
                    let ghost lv = link_view(&Some(l));
                    let ghost rv = link_view(&Some(r));
                    let ghost ll = link_view(&l.left);
                    let ghost lr = link_view(&l.right);
                    let ghost rl = link_view(&r.left);
                    let ghost rr = link_view(&r.right);
                    proof {
                        assert(lv[ll.len() as int] == l.value);
                        assert(rv[rl.len() as int] == r.value);
                    }
                    if l.priority < r.priority {
                        proof {
                            assert forall|i: int, j: int|
                                0 <= i < lr.len() && 0 <= j < rv.len() implies key_lt(
                                #[trigger] key_of(lr[i]),
                                #[trigger] key_of(rv[j]),
                            ) by {
                                assert(lv[ll.len() + 1 + i] == lr[i]);
                            }
                        }
                        let merged = merge(share_opt(&l.right), Some(share(&r)));
                        proof {
                            let mv = link_view(&merged);
                            assert(mv == lr + rv);
                            assert forall|i: int| 0 <= i < mv.len() implies key_lt(l.key, #[trigger] key_of(mv[i])) by {
                                if i < lr.len() {
                                    assert(mv[i] == lr[i]);
                                } else {
                                    assert(mv[i] == rv[i - lr.len()]);
                                }
                            }
                        }
                        let node = AnnotationNode::rebuilt(
                            l.key,
                            l.value.duplicate(),
                            l.priority,
                            share_opt(&l.left),
                            merged,
                        );
                        proof {
                            assert(ll + seq![l.value] + (lr + rv) =~= (ll + seq![l.value] + lr) + rv);
                        }
                        Some(node)
                    } else {
                        proof {
                            assert forall|i: int, j: int|
                                0 <= i < lv.len() && 0 <= j < rl.len() implies key_lt(
                                #[trigger] key_of(lv[i]),
                                #[trigger] key_of(rl[j]),
                            ) by {
                                assert(rv[j] == rl[j]);
                            }
                        }
                        let merged = merge(Some(share(&l)), share_opt(&r.left));
                        proof {
                            let mv = link_view(&merged);
                            assert(mv == lv + rl);
                            assert forall|i: int| 0 <= i < mv.len() implies key_lt(#[trigger] key_of(mv[i]), r.key) by {
                                if i < lv.len() {
                                    assert(mv[i] == lv[i]);
                                } else {
                                    assert(mv[i] == rl[i - lv.len()]);
                                }
                            }
                        }
                        let node = AnnotationNode::rebuilt(
                            r.key,
                            r.value.duplicate(),
                            r.priority,
                            merged,
                            share_opt(&r.right),
                        );
                        proof {
                            assert((lv + rl) + seq![r.value] + rr =~= lv + (rl + seq![r.value] + rr));
                        }
                        Some(node)
                    }
                },
            }
        },
    }
}

/// Inserts one record whose key is not yet present.
fn insert_link(root: &Option<Arc<AnnotationNode>>, value: SourceAnnotation) -> (tree: Option<
    Arc<AnnotationNode>,
>)
    requires
        link_wf(root),
        forall|i: int| 0 <= i < link_view(root).len() ==> key_of(#[trigger] link_view(root)[i]) != key_of(value),
    ensures
        link_wf(&tree),
        link_view(&tree).len() == link_view(root).len() + 1,
        forall|a: SourceAnnotation| #[trigger] link_view(&tree).contains(a) <==> (link_view(root).contains(a) || a == value),
{
    let key = (value.start_byte, value.seqno);
    let (left, right) = split_key(root, key);
    let ghost lv = link_view(&left);
    let ghost rv = link_view(&right);
    proof {
        assert forall|i: int| 0 <= i < rv.len() implies key_lt(key, #[trigger] key_of(rv[i])) by {
            assert(link_view(root)[lv.len() + i] == rv[i]);
        }
    }
    let node = AnnotationNode::new(value.start_byte, value.seqno, value);
    let ghost nv = seq![value];
    proof {
        assert forall|i: int, j: int| 0 <= i < lv.len() && 0 <= j < nv.len() implies key_lt(
            #[trigger] key_of(lv[i]),
            #[trigger] key_of(nv[j]),
        ) by {}
    }
    let with_node = merge(left, Some(node));
    proof {
        let wv = link_view(&with_node);
        assert(wv == lv + nv);
        assert forall|i: int, j: int| 0 <= i < wv.len() && 0 <= j < rv.len() implies key_lt(
            #[trigger] key_of(wv[i]),
            #[trigger] key_of(rv[j]),
        ) by {
            if i < lv.len() {
                assert(wv[i] == lv[i]);
                assert(key_lt(key, key_of(rv[j])));
                lemma_key_lt_trans(key_of(lv[i]), key, key_of(rv[j]));
            } else {
                assert(wv[i] == value);
            }
        }
    }
    let tree = merge(with_node, right);
    proof {
        lemma_view_concat3(lv, value, rv);
        assert(link_view(&tree) =~= lv + seq![value] + rv);
        assert(link_view(root) == lv + rv);
        assert forall|a: SourceAnnotation| link_view(root).contains(a) <==> (lv.contains(a) || rv.contains(a)) by {
            if link_view(root).contains(a) {
                let i = choose|i: int| 0 <= i < link_view(root).len() && link_view(root)[i] == a;
                if i < lv.len() {
                    assert(lv[i] == a);
                } else {
                    assert(rv[i - lv.len()] == a);
                }
            }
            if lv.contains(a) {
                let i = choose|i: int| 0 <= i < lv.len() && lv[i] == a;
                assert(link_view(root)[i] == a);
            }
            if rv.contains(a) {
                let i = choose|i: int| 0 <= i < rv.len() && rv[i] == a;
                assert(link_view(root)[lv.len() + i] == a);
            }
        }
        assert forall|a: SourceAnnotation| #[trigger] link_view(&tree).contains(a) <==> (link_view(
            root,
        ).contains(a) || a == value) by {
            assert((lv + seq![value] + rv).contains(a) <==> (lv.contains(a) || a == value || rv.contains(a)));
        }
    }
    tree
}

/// Appends the records of a subtree in key order.
fn collect_all(root: &Option<Arc<AnnotationNode>>, out: &mut Vec<SourceAnnotation>)
    ensures
        final(out)@ == old(out)@ + link_view(root),
    decreases root,
{
    match root {
        None => {
            assert(old(out)@ + link_view(root) =~= old(out)@);
        },
        Some(node) => {
            collect_all(&node.left, out);
            out.push(node.value.duplicate());
            collect_all(&node.right, out);
            assert(old(out)@ + link_view(root) =~= old(out)@ + link_view(&node.left) + seq![node.value]
                + link_view(&node.right));
        },
    }
}

/// Records of a subtree that overlap `[start, end)`, in key order.
spec fn link_overlapping(t: &Option<Arc<AnnotationNode>>, start: u64, end: u64) -> Seq<SourceAnnotation>
    decreases t,
{
    match t {
        None => Seq::empty(),
        Some(n) => link_overlapping(&n.left, start, end) + (if overlaps(n.value, start, end) {
            seq![n.value]
        } else {
            Seq::empty()
        }) + link_overlapping(&n.right, start, end),
    }
}

/// Tag and style records of a subtree that still reach past `offset`,
/// restarted at it, in key order.
spec fn link_clipped(t: &Option<Arc<AnnotationNode>>, offset: u64) -> Seq<SourceAnnotation>
    decreases t,
{
    match t {
        None => Seq::empty(),
        Some(n) => link_clipped(&n.left, offset) + (if (n.value.kind == CONTENT_ANNOTATION_KIND_TAG
            || n.value.kind == CONTENT_ANNOTATION_KIND_STYLE) && n.value.end_byte > offset {
            seq![SourceAnnotation { start_byte: offset, ..n.value }]
        } else {
            Seq::empty()
        }) + link_clipped(&n.right, offset),
    }
}

proof fn lemma_overlapping_members(t: &Option<Arc<AnnotationNode>>, start: u64, end: u64)
    requires
        link_wf(t),
    ensures
        forall|a: SourceAnnotation| #[trigger] link_overlapping(t, start, end).contains(a) <==> (
        link_view(t).contains(a) && overlaps(a, start, end)),
        sorted_by_key(link_overlapping(t, start, end)),
    decreases t,
{
    if let Some(n) = t {
        lemma_overlapping_members(&n.left, start, end);
        lemma_overlapping_members(&n.right, start, end);
        let lo = link_overlapping(&n.left, start, end);
        let ro = link_overlapping(&n.right, start, end);
        let v = value_of(t);
        let mid = if overlaps(v, start, end) { seq![v] } else { Seq::empty() };
        let o = link_overlapping(t, start, end);
        assert(o == lo + mid + ro);
        lemma_view_concat3(link_view(&n.left), v, link_view(&n.right));
        assert forall|a: SourceAnnotation| o.contains(a) <==> (lo.contains(a) || mid.contains(a) || ro.contains(a)) by {
            lemma_concat3_members(lo, mid, ro, a);
        }
        assert(link_view(t) == link_view(&n.left) + seq![v] + link_view(&n.right));
        assert forall|a: SourceAnnotation| #[trigger] o.contains(a) <==> (link_view(t).contains(a) && overlaps(a, start, end)) by {
            assert(mid.contains(a) <==> (a == v && overlaps(v, start, end))) by {
                if mid.contains(a) {
                    assert(mid[0] == a);
                }
                if a == v && overlaps(v, start, end) {
                    assert(mid[0] == a);
                }
            }
            assert(lo.contains(a) <==> (link_view(&n.left).contains(a) && overlaps(a, start, end)));
            assert(ro.contains(a) <==> (link_view(&n.right).contains(a) && overlaps(a, start, end)));
        }
        lemma_concat3_sorted(lo, mid, ro, n.key, link_view(&n.left), link_view(&n.right));
    } else {
        assert(link_overlapping(t, start, end) =~= Seq::<SourceAnnotation>::empty());
        assert(link_view(t) =~= Seq::<SourceAnnotation>::empty());
    }
}

proof fn lemma_concat3_members(a: Seq<SourceAnnotation>, b: Seq<SourceAnnotation>, c: Seq<SourceAnnotation>, x: SourceAnnotation)
    ensures
        (a + b + c).contains(x) <==> (a.contains(x) || b.contains(x) || c.contains(x)),
{
    let v = a + b + c;
    if v.contains(x) {
        let i = choose|i: int| 0 <= i < v.len() && v[i] == x;
        if i < a.len() {
            assert(a[i] == x);
        } else if i < a.len() + b.len() {
            assert(b[i - a.len()] == x);
        } else {
            assert(c[i - a.len() - b.len()] == x);
        }
    }
    if a.contains(x) {
        let i = choose|i: int| 0 <= i < a.len() && a[i] == x;
        assert(v[i] == x);
    }
    if b.contains(x) {
        let i = choose|i: int| 0 <= i < b.len() && b[i] == x;
        assert(v[a.len() + i] == x);
    }
    if c.contains(x) {
        let i = choose|i: int| 0 <= i < c.len() && c[i] == x;
        assert(v[a.len() + b.len() + i] == x);
    }
}

/// Three key-sorted runs whose members sit below, at, and above a key
/// concatenate into a key-sorted sequence.
proof fn lemma_concat3_sorted(
    a: Seq<SourceAnnotation>,
    b: Seq<SourceAnnotation>,
    c: Seq<SourceAnnotation>,
    k: (u64, u64),
    below: Seq<SourceAnnotation>,
    above: Seq<SourceAnnotation>,
)
    requires
        sorted_by_key(a),
        sorted_by_key(c),
        b.len() <= 1,
        forall|i: int| 0 <= i < b.len() ==> key_of(#[trigger] b[i]) == k,
        forall|x: SourceAnnotation| #[trigger] a.contains(x) ==> below.contains(x),
        forall|x: SourceAnnotation| #[trigger] c.contains(x) ==> above.contains(x),
        all_below(below, k),
        all_above(above, k),
    ensures
        sorted_by_key(a + b + c),
{
    let v = a + b + c;
    assert forall|i: int, j: int| 0 <= i < j < v.len() implies key_lt(key_of(v[i]), key_of(v[j])) by {
        let ka = a.len() as int;
        let kb = a.len() + b.len();
        if i < ka {
            assert(v[i] == a[i]);
            assert(a.contains(a[i]));
            assert(below.contains(a[i]));
            let p = choose|p: int| 0 <= p < below.len() && below[p] == a[i];
            assert(key_lt(key_of(below[p]), k));
        }
        if j >= kb {
            assert(v[j] == c[j - kb]);
            assert(c.contains(c[j - kb]));
            assert(above.contains(c[j - kb]));
            let p = choose|p: int| 0 <= p < above.len() && above[p] == c[j - kb];
            assert(key_lt(k, key_of(above[p])));
        }
        if i < ka && j < ka {
            assert(v[j] == a[j]);
        } else if i < ka && j < kb {
            assert(v[j] == b[j - ka]);
        } else if i < ka {
            lemma_key_lt_trans(key_of(v[i]), k, key_of(v[j]));
        } else if i < kb && j >= kb {
            assert(v[i] == b[i - ka]);
        } else if i >= kb {
            assert(v[i] == c[i - kb]);
        }
    }
}

/// Appends the records of a subtree that overlap `[start, end)`. Subtrees
/// whose largest end offset is at or before `start` are skipped, and once a
/// key starts at or past `end` only its left subtree can still overlap.
fn overlap_node(root: &Option<Arc<AnnotationNode>>, start: u64, end: u64, out: &mut Vec<SourceAnnotation>)
    requires
        link_wf(root),
    ensures
        final(out)@ == old(out)@ + link_overlapping(root, start, end),
    decreases root,
{
    match root {
        None => {
            assert(old(out)@ + link_overlapping(root, start, end) =~= old(out)@);
        },
        Some(node) => {
            proof {
                lemma_wf_facts(root);
            }
            if node.max_end <= start {
                proof {
                    lemma_none_overlap(root, start, end);
                    assert(old(out)@ + link_overlapping(root, start, end) =~= old(out)@);
                }
                return;
            }
            if node.key.0 < end {
                overlap_node(&node.left, start, end, out);
                if node.value.start_byte < end && node.value.end_byte > start {
                    out.push(node.value.duplicate());
                }
                overlap_node(&node.right, start, end, out);
                assert(old(out)@ + link_overlapping(root, start, end) =~= old(out)@ + link_overlapping(
                    &node.left,
                    start,
                    end,
                ) + (if overlaps(node.value, start, end) {
                    seq![node.value]
                } else {
                    Seq::empty()
                }) + link_overlapping(&node.right, start, end));
            } else {
                overlap_node(&node.left, start, end, out);
                proof {
                    lemma_late_keys_no_overlap(&node.right, node.key, start, end);
                    assert(old(out)@ + link_overlapping(root, start, end) =~= old(out)@ + link_overlapping(
                        &node.left,
                        start,
                        end,
                    ));
                }
            }
        },
    }
}

/// A subtree whose records all end at or before `start` overlaps nothing.
proof fn lemma_none_overlap(t: &Option<Arc<AnnotationNode>>, start: u64, end: u64)
    requires
        link_wf(t),
        link_max_end(t) <= start,
    ensures
        link_overlapping(t, start, end) == Seq::<SourceAnnotation>::empty(),
    decreases t,
{
    if let Some(n) = t {
        lemma_wf_facts(&n.left);
        lemma_wf_facts(&n.right);
        lemma_none_overlap(&n.left, start, end);
        lemma_none_overlap(&n.right, start, end);
        assert(link_overlapping(t, start, end) =~= Seq::<SourceAnnotation>::empty());
    }
}

/// Records keyed above a key that starts at or past `end` overlap nothing.
proof fn lemma_late_keys_no_overlap(t: &Option<Arc<AnnotationNode>>, k: (u64, u64), start: u64, end: u64)
    requires
        link_wf(t),
        all_above(link_view(t), k),
        k.0 >= end,
    ensures
        link_overlapping(t, start, end) == Seq::<SourceAnnotation>::empty(),
    decreases t,
{
    if let Some(n) = t {
        let l = link_view(&n.left);
        let r = link_view(&n.right);
        assert(link_view(t) == l + seq![n.value] + r);
        assert(all_above(l, k)) by {
            assert forall|i: int| 0 <= i < l.len() implies key_lt(k, #[trigger] key_of(l[i])) by {
                assert(link_view(t)[i] == l[i]);
            }
        }
        assert(all_above(r, k)) by {
            assert forall|i: int| 0 <= i < r.len() implies key_lt(k, #[trigger] key_of(r[i])) by {
                assert(link_view(t)[l.len() + 1 + i] == r[i]);
            }
        }
        assert(link_view(t)[l.len() as int] == n.value);
        lemma_late_keys_no_overlap(&n.left, k, start, end);
        lemma_late_keys_no_overlap(&n.right, k, start, end);
        assert(link_overlapping(t, start, end) =~= Seq::<SourceAnnotation>::empty());
    }
}

/// The clipped form of a record that starts before a truncation offset:
/// tag and style records that still reach past the offset restart at it.
pub open spec fn clip_record(a: SourceAnnotation, offset: u64) -> Option<SourceAnnotation> {
    if (a.kind == CONTENT_ANNOTATION_KIND_TAG || a.kind == CONTENT_ANNOTATION_KIND_STYLE) && a.end_byte
        > offset {
        Some(SourceAnnotation { start_byte: offset, ..a })
    } else {
        None
    }
}

proof fn lemma_clipped_members(t: &Option<Arc<AnnotationNode>>, offset: u64)
    requires
        link_wf(t),
    ensures
        forall|x: SourceAnnotation| #[trigger] link_clipped(t, offset).contains(x) <==> exists|b: SourceAnnotation|
            #[trigger] link_view(t).contains(b) && clip_record(b, offset) == Some(x),
    decreases t,
{
    if let Some(n) = t {
        lemma_clipped_members(&n.left, offset);
        lemma_clipped_members(&n.right, offset);
        let v = value_of(t);
        let lc = link_clipped(&n.left, offset);
        let rc = link_clipped(&n.right, offset);
        let mid = if clip_record(v, offset) is Some { seq![clip_record(v, offset).unwrap()] } else { Seq::empty() };
        assert(link_clipped(t, offset) == lc + mid + rc);
        lemma_view_concat3(link_view(&n.left), v, link_view(&n.right));
        assert(link_view(t) == link_view(&n.left) + seq![v] + link_view(&n.right));
        assert forall|x: SourceAnnotation| #[trigger] link_clipped(t, offset).contains(x) <==> exists|b: SourceAnnotation|
            #[trigger] link_view(t).contains(b) && clip_record(b, offset) == Some(x) by {
            lemma_concat3_members(lc, mid, rc, x);
            if mid.contains(x) {
                assert(mid[0] == x);
                assert(clip_record(v, offset) == Some(x));
                assert(link_view(t)[link_view(&n.left).len() as int] == v);
                assert(link_view(t).contains(v));
            }
            if lc.contains(x) {
                let b = choose|b: SourceAnnotation| #[trigger] link_view(&n.left).contains(b) && clip_record(b, offset) == Some(x);
                assert(link_view(t).contains(b));
            }
            if rc.contains(x) {
                let b = choose|b: SourceAnnotation| #[trigger] link_view(&n.right).contains(b) && clip_record(b, offset) == Some(x);
                assert(link_view(t).contains(b));
            }
            if exists|b: SourceAnnotation| #[trigger] link_view(t).contains(b) && clip_record(b, offset) == Some(x) {
                let b = choose|b: SourceAnnotation| #[trigger] link_view(t).contains(b) && clip_record(b, offset) == Some(x);
                if b == v {
                    assert(mid[0] == x);
                    assert(mid.contains(x));
                } else if link_view(&n.left).contains(b) {
                    assert(lc.contains(x));
                } else {
                    assert(rc.contains(x));
                }
            }
        }
    } else {
        assert(link_clipped(t, offset) =~= Seq::<SourceAnnotation>::empty());
        assert(link_view(t) =~= Seq::<SourceAnnotation>::empty());
    }
}

/// A subtree whose records all end at or before `offset` clips to nothing.
proof fn lemma_none_clipped(t: &Option<Arc<AnnotationNode>>, offset: u64)
    requires
        link_wf(t),
        link_max_end(t) <= offset,
    ensures
        link_clipped(t, offset) == Seq::<SourceAnnotation>::empty(),
    decreases t,
{
    if let Some(n) = t {
        lemma_wf_facts(&n.left);
        lemma_wf_facts(&n.right);
        lemma_none_clipped(&n.left, offset);
        lemma_none_clipped(&n.right, offset);
        assert(link_clipped(t, offset) =~= Seq::<SourceAnnotation>::empty());
    }
}

/// Appends the left-side tag and style records that still cover `offset`,
/// restarted at it. Prunes subtrees that cannot reach past the offset.
fn collect_clipped(root: &Option<Arc<AnnotationNode>>, offset: u64, out: &mut Vec<SourceAnnotation>)
    requires
        link_wf(root),
    ensures
        final(out)@ == old(out)@ + link_clipped(root, offset),
    decreases root,
{
    match root {
        None => {
            assert(old(out)@ + link_clipped(root, offset) =~= old(out)@);
        },
        Some(node) => {
            if node.max_end <= offset {
                proof {
                    lemma_none_clipped(root, offset);
                    assert(old(out)@ + link_clipped(root, offset) =~= old(out)@);
                }
                return;
            }
            collect_clipped(&node.left, offset, out);
            if (node.value.kind == CONTENT_ANNOTATION_KIND_TAG || node.value.kind
                == CONTENT_ANNOTATION_KIND_STYLE) && node.value.end_byte > offset {
                let mut clipped = node.value.duplicate();
                clipped.start_byte = offset;
                out.push(clipped);
            }
            collect_clipped(&node.right, offset, out);
            assert(old(out)@ + link_clipped(root, offset) =~= old(out)@ + link_clipped(&node.left, offset)
                + (if (node.value.kind == CONTENT_ANNOTATION_KIND_TAG || node.value.kind
                == CONTENT_ANNOTATION_KIND_STYLE) && node.value.end_byte > offset {
                seq![SourceAnnotation { start_byte: offset, ..node.value }]
            } else {
                Seq::empty()
            }) + link_clipped(&node.right, offset));
        },
    }
}

/// No two records share an index key.
pub open spec fn unique_keys(s: Seq<SourceAnnotation>) -> bool {
    forall|i: int, j: int| 0 <= i < s.len() && 0 <= j < s.len() && i != j ==> key_of(s[i]) != key_of(s[j])
}

proof fn lemma_insert_members(s: Seq<SourceAnnotation>, pos: int, x: SourceAnnotation)
    requires
        0 <= pos <= s.len(),
    ensures
        forall|a: SourceAnnotation| #[trigger] s.insert(pos, x).contains(a) <==> (s.contains(a) || a == x),
{
    let t = s.insert(pos, x);
    assert forall|a: SourceAnnotation| #[trigger] t.contains(a) <==> (s.contains(a) || a == x) by {
        if t.contains(a) {
            let i = choose|i: int| 0 <= i < t.len() && t[i] == a;
            if i < pos {
                assert(s[i] == a);
            } else if i > pos {
                assert(s[i - 1] == a);
            }
        }
        if s.contains(a) {
            let i = choose|i: int| 0 <= i < s.len() && s[i] == a;
            if i < pos {
                assert(t[i] == a);
            } else {
                assert(t[i + 1] == a);
            }
        }
        if a == x {
            assert(t[pos] == a);
        }
    }
}

proof fn lemma_prefix_push_members(s: Seq<SourceAnnotation>, i: int)
    requires
        0 <= i < s.len(),
    ensures
        forall|a: SourceAnnotation| #[trigger] s.subrange(0, i + 1).contains(a) <==> (s.subrange(0, i).contains(a)
            || a == s[i]),
{
    assert(s.subrange(0, i + 1) =~= s.subrange(0, i).push(s[i]));
    assert forall|a: SourceAnnotation| #[trigger] s.subrange(0, i + 1).contains(a) <==> (s.subrange(0, i).contains(a)
        || a == s[i]) by {
        let p = s.subrange(0, i);
        let q = s.subrange(0, i + 1);
        if q.contains(a) {
            let k = choose|k: int| 0 <= k < q.len() && q[k] == a;
            if k < i {
                assert(p[k] == a);
            }
        }
        if p.contains(a) {
            let k = choose|k: int| 0 <= k < i && p[k] == a;
            assert(s.subrange(0, i + 1)[k] == a);
        }
        if a == s[i] {
            assert(s.subrange(0, i + 1)[i] == a);
        }
    }
}

/// Insertion sort by acceptance sequence number.
pub fn sort_by_seqno(values: Vec<SourceAnnotation>) -> (sorted: Vec<SourceAnnotation>)
    requires
        unique_seqnos(values@),
    ensures
        sorted_by_seqno(sorted@),
        sorted@.len() == values@.len(),
        forall|a: SourceAnnotation| #[trigger] sorted@.contains(a) <==> values@.contains(a),
{
    let mut sorted: Vec<SourceAnnotation> = Vec::new();
    let mut i: usize = 0;
    while i < values.len()
        invariant
            i <= values.len(),
            unique_seqnos(values@),
            sorted_by_seqno(sorted@),
            sorted@.len() == i,
            forall|a: SourceAnnotation| #[trigger] sorted@.contains(a) <==> values@.subrange(0, i as int).contains(a),
        decreases values.len() - i,
    {
        let item = values[i].duplicate();
        let mut pos: usize = 0;
        while pos < sorted.len() && sorted[pos].seqno < item.seqno
            invariant
                pos <= sorted.len(),
                forall|j: int| 0 <= j < pos ==> #[trigger] sorted@[j].seqno < item.seqno,
            decreases sorted.len() - pos,
        {
            pos += 1;
        }
        proof {
            assert forall|j: int| 0 <= j < sorted@.len() implies #[trigger] sorted@[j].seqno != item.seqno by {
                assert(sorted@.contains(sorted@[j]));
                let k = choose|k: int| 0 <= k < i && values@.subrange(0, i as int)[k] == sorted@[j];
                assert(values@[k] == sorted@[j]);
            }
            lemma_insert_members(sorted@, pos as int, item);
            lemma_prefix_push_members(values@, i as int);
        }
        let ghost old_sorted = sorted@;
        sorted.insert(pos, item);
        proof {
            assert forall|a: int, b: int| 0 <= a < b < sorted@.len() implies sorted@[a].seqno < sorted@[b].seqno by {
                if b < pos {
                    assert(sorted@[a] == old_sorted[a] && sorted@[b] == old_sorted[b]);
                } else if b == pos {
                    assert(sorted@[a] == old_sorted[a]);
                } else if a > pos {
                    assert(sorted@[a] == old_sorted[a - 1] && sorted@[b] == old_sorted[b - 1]);
                } else if a == pos {
                    assert(sorted@[b] == old_sorted[b - 1]);
                    assert(old_sorted[pos as int].seqno >= item.seqno);
                    if b - 1 > pos {
                        assert(old_sorted[pos as int].seqno < old_sorted[b - 1].seqno);
                    }
                } else {
                    assert(sorted@[a] == old_sorted[a] && sorted@[b] == old_sorted[b - 1]);
                }
            }
        }
        i += 1;
    }
    assert(values@.subrange(0, values@.len() as int) =~= values@);
    sorted
}

/// Insertion sort by index key.
pub fn sort_by_key(values: Vec<SourceAnnotation>) -> (sorted: Vec<SourceAnnotation>)
    requires
        unique_keys(values@),
    ensures
        sorted_by_key(sorted@),
        sorted@.len() == values@.len(),
        forall|a: SourceAnnotation| #[trigger] sorted@.contains(a) <==> values@.contains(a),
{
    let mut sorted: Vec<SourceAnnotation> = Vec::new();
    let mut i: usize = 0;
    while i < values.len()
        invariant
            i <= values.len(),
            unique_keys(values@),
            sorted_by_key(sorted@),
            sorted@.len() == i,
            forall|a: SourceAnnotation| #[trigger] sorted@.contains(a) <==> values@.subrange(0, i as int).contains(a),
        decreases values.len() - i,
    {
        let item = values[i].duplicate();
        let item_key = (item.start_byte, item.seqno);
        let mut pos: usize = 0;
        while pos < sorted.len() && key_less((sorted[pos].start_byte, sorted[pos].seqno), item_key)
            invariant
                pos <= sorted.len(),
                item_key == key_of(item),
                forall|j: int| 0 <= j < pos ==> key_lt(#[trigger] key_of(sorted@[j]), key_of(item)),
            decreases sorted.len() - pos,
        {
            pos += 1;
        }
        proof {
            assert forall|j: int| 0 <= j < sorted@.len() implies #[trigger] key_of(sorted@[j]) != key_of(item) by {
                assert(sorted@.contains(sorted@[j]));
                let k = choose|k: int| 0 <= k < i && values@.subrange(0, i as int)[k] == sorted@[j];
                assert(values@[k] == sorted@[j]);
            }
            lemma_insert_members(sorted@, pos as int, item);
            lemma_prefix_push_members(values@, i as int);
        }
        let ghost old_sorted = sorted@;
        sorted.insert(pos, item);
        proof {
            assert forall|a: int, b: int| 0 <= a < b < sorted@.len() implies key_lt(key_of(sorted@[a]), key_of(sorted@[b])) by {
                if b < pos {
                    assert(sorted@[a] == old_sorted[a] && sorted@[b] == old_sorted[b]);
                } else if b == pos {
                    assert(sorted@[a] == old_sorted[a]);
                } else if a > pos {
                    assert(sorted@[a] == old_sorted[a - 1] && sorted@[b] == old_sorted[b - 1]);
                } else if a == pos {
                    assert(sorted@[b] == old_sorted[b - 1]);
                    assert(!key_lt(key_of(old_sorted[pos as int]), key_of(item)));
                    if b - 1 > pos {
                        assert(key_lt(key_of(old_sorted[pos as int]), key_of(old_sorted[b - 1])));
                    }
                } else {
                    assert(sorted@[a] == old_sorted[a] && sorted@[b] == old_sorted[b - 1]);
                    assert(!key_lt(key_of(old_sorted[pos as int]), key_of(item)));
                    assert(key_of(old_sorted[pos as int]) != key_of(item));
                    assert(key_lt(key_of(item), key_of(old_sorted[pos as int])));
                    if b - 1 > pos {
                        assert(key_lt(key_of(old_sorted[pos as int]), key_of(old_sorted[b - 1])));
                        lemma_key_lt_trans(key_of(item), key_of(old_sorted[pos as int]), key_of(old_sorted[b - 1]));
                    }
                    lemma_key_lt_trans(key_of(old_sorted[a]), key_of(item), key_of(old_sorted[b - 1]));
                }
            }
        }
        i += 1;
    }
    assert(values@.subrange(0, values@.len() as int) =~= values@);
    sorted
}

proof fn lemma_concat_members(a: Seq<SourceAnnotation>, b: Seq<SourceAnnotation>)
    ensures
        forall|x: SourceAnnotation| #[trigger] (a + b).contains(x) <==> (a.contains(x) || b.contains(x)),
{
    assert forall|x: SourceAnnotation| #[trigger] (a + b).contains(x) <==> (a.contains(x) || b.contains(x)) by {
        lemma_concat3_members(a, Seq::empty(), b, x);
        assert(a + Seq::empty() + b =~= a + b);
    }
}

/// In a sequence with unique sequence numbers, a sequence number identifies
/// its record.
proof fn lemma_seqno_identifies(s: Seq<SourceAnnotation>, a: SourceAnnotation, b: SourceAnnotation)
    requires
        unique_seqnos(s),
        s.contains(a),
        s.contains(b),
        a.seqno == b.seqno,
    ensures
        a == b,
{
    let i = choose|i: int| 0 <= i < s.len() && s[i] == a;
    let j = choose|j: int| 0 <= j < s.len() && s[j] == b;
    if i != j {
        assert(s[i].seqno != s[j].seqno);
    }
}

/// A key-sorted sequence whose records map back, seqno for seqno, to
/// distinct records of a sequence with unique sequence numbers has unique
/// sequence numbers itself.
proof fn lemma_unique_seqnos_from_source(out: Seq<SourceAnnotation>, src: Seq<SourceAnnotation>, offset: u64)
    requires
        sorted_by_key(out),
        unique_seqnos(src),
        forall|x: SourceAnnotation| #[trigger] out.contains(x) ==> exists|b: SourceAnnotation|
            #[trigger] src.contains(b) && truncated_record(b, offset) == Some(x),
    ensures
        unique_seqnos(out),
{
    assert forall|i: int, j: int| 0 <= i < out.len() && 0 <= j < out.len() && i != j implies out[i].seqno
        != out[j].seqno by {
        assert(out.contains(out[i]));
        assert(out.contains(out[j]));
        let bi = choose|b: SourceAnnotation| #[trigger] src.contains(b) && truncated_record(b, offset) == Some(out[i]);
        let bj = choose|b: SourceAnnotation| #[trigger] src.contains(b) && truncated_record(b, offset) == Some(out[j]);
        if out[i].seqno == out[j].seqno {
            lemma_seqno_identifies(src, bi, bj);
            if i < j {
                assert(key_lt(key_of(out[i]), key_of(out[j])));
            } else {
                assert(key_lt(key_of(out[j]), key_of(out[i])));
            }
        }
    }
}

/// Two sequences strictly increasing by sequence number with the same
/// members are equal.
pub proof fn lemma_seqno_sorted_unique(x: Seq<SourceAnnotation>, y: Seq<SourceAnnotation>)
    requires
        sorted_by_seqno(x),
        sorted_by_seqno(y),
        forall|a: SourceAnnotation| #![trigger x.contains(a)] #![trigger y.contains(a)] x.contains(a) <==> y.contains(a),
    ensures
        x == y,
    decreases x.len() + y.len(),
{
    if x.len() == 0 {
        if y.len() > 0 {
            assert(y.contains(y[0]));
        }
        assert(x =~= y);
    } else if y.len() == 0 {
        assert(x.contains(x[0]));
    } else {
        assert(x.contains(x[0]));
        assert(y.contains(y[0]));
        let i = choose|i: int| 0 <= i < x.len() && x[i] == y[0];
        let j = choose|j: int| 0 <= j < y.len() && y[j] == x[0];
        if i > 0 {
            assert(x[0].seqno < x[i].seqno);
            if j > 0 {
                assert(y[0].seqno < y[j].seqno);
            }
        }
        if j > 0 {
            assert(y[0].seqno < y[j].seqno);
        }
        assert(x[0] == y[0]);
        let xs = x.drop_first();
        let ys = y.drop_first();
        assert forall|a: SourceAnnotation| #![trigger xs.contains(a)] #![trigger ys.contains(a)] xs.contains(a) <==> ys.contains(a) by {
            if xs.contains(a) {
                let k = choose|k: int| 0 <= k < xs.len() && xs[k] == a;
                assert(x[k + 1] == a);
                assert(x.contains(a));
                let m = choose|m: int| 0 <= m < y.len() && y[m] == a;
                assert(x[0].seqno < x[k + 1].seqno);
                if m == 0 {
                    assert(false);
                }
                assert(ys[m - 1] == a);
            }
            if ys.contains(a) {
                let k = choose|k: int| 0 <= k < ys.len() && ys[k] == a;
                assert(y[k + 1] == a);
                assert(y.contains(a));
                let m = choose|m: int| 0 <= m < x.len() && x[m] == a;
                assert(y[0].seqno < y[k + 1].seqno);
                if m == 0 {
                    assert(false);
                }
                assert(xs[m - 1] == a);
            }
        }
        lemma_seqno_sorted_unique(xs, ys);
        assert(x =~= seq![x[0]] + xs);
        assert(y =~= seq![y[0]] + ys);
    }
}

/// Persistent annotation index keyed by `(start, seqno)`.
pub struct AnnotationTree {
    root: Option<Arc<AnnotationNode>>,
    count: usize,
}

impl AnnotationTree {
    /// The records in index-key order.
    pub closed spec fn records(&self) -> Seq<SourceAnnotation> {
        link_view(&self.root)
    }

    /// Treap order, cached aggregates, and an exact (saturating) count.
    pub closed spec fn wf(&self) -> bool {
        link_wf(&self.root) && self.count == sat_len(link_view(&self.root).len())
    }

    /// Records of the index that overlap `[start, end)`, in key order.
    pub closed spec fn overlap_run(&self, start: u64, end: u64) -> Seq<SourceAnnotation> {
        link_overlapping(&self.root, start, end)
    }

    pub proof fn lemma_sorted(&self)
        requires
            self.wf(),
        ensures
            sorted_by_key(self.records()),
    {
        lemma_wf_facts(&self.root);
    }

    /// An empty index.
    pub fn empty() -> (tree: Self)
        ensures
            tree.wf(),
            tree.records() == Seq::<SourceAnnotation>::empty(),
    {
        AnnotationTree { root: None, count: 0 }
    }

    /// A shared copy of the index (the root pointer is shared).
    pub fn share(&self) -> (copy: Self)
        ensures
            copy == *self,
    {
        AnnotationTree { root: share_opt(&self.root), count: self.count }
    }

    pub fn is_empty(&self) -> (empty: bool)
        requires
            self.wf(),
        ensures
            empty == (self.records().len() == 0),
    {
        self.count == 0
    }

    pub fn len(&self) -> (count: usize)
        requires
            self.wf(),
        ensures
            count == sat_len(self.records().len()),
    {
        self.count
    }

    /// Adds one record whose key is not yet present.
    pub fn insert(&self, value: SourceAnnotation) -> (tree: Self)
        requires
            self.wf(),
            forall|i: int| 0 <= i < self.records().len() ==> key_of(#[trigger] self.records()[i]) != key_of(value),
        ensures
            tree.wf(),
            tree.records().len() == self.records().len() + 1,
            forall|a: SourceAnnotation| #[trigger] tree.records().contains(a) <==> (self.records().contains(a) || a == value),
    {
        proof {
            assert forall|i: int| 0 <= i < link_view(&self.root).len() implies key_of(
                #[trigger] link_view(&self.root)[i],
            ) != key_of(value) by {
                assert(self.records()[i] == link_view(&self.root)[i]);
            }
        }
        let root = insert_link(&self.root, value);
        AnnotationTree { root, count: self.count.saturating_add(1) }
    }

    /// Builds an index from records with distinct keys: sorts them by key
    /// and folds them through `insert`.
    pub fn from_sorted_batch(values: Vec<SourceAnnotation>) -> (tree: Self)
        requires
            unique_keys(values@),
        ensures
            tree.wf(),
            tree.records().len() == values@.len(),
            forall|a: SourceAnnotation| #[trigger] tree.records().contains(a) <==> values@.contains(a),
    {
        let sorted = sort_by_key(values);
        let mut tree = AnnotationTree::empty();
        let mut i: usize = 0;
        proof {
            assert forall|a: int, b: int| 0 <= a < sorted@.len() && 0 <= b < sorted@.len() && a != b implies key_of(sorted@[a]) != key_of(sorted@[b]) by {
                if a < b {
                    assert(key_lt(key_of(sorted@[a]), key_of(sorted@[b])));
                } else {
                    assert(key_lt(key_of(sorted@[b]), key_of(sorted@[a])));
                }
            }
        }
        while i < sorted.len()
            invariant
                i <= sorted.len(),
                unique_keys(sorted@),
                tree.wf(),
                tree.records().len() == i,
                forall|a: SourceAnnotation| #[trigger] tree.records().contains(a) <==> sorted@.subrange(0, i as int).contains(a),
            decreases sorted.len() - i,
        {
            let value = sorted[i].duplicate();
            proof {
                assert forall|k: int| 0 <= k < tree.records().len() implies key_of(#[trigger] tree.records()[k]) != key_of(value) by {
                    assert(tree.records().contains(tree.records()[k]));
                    let m = choose|m: int| 0 <= m < i && sorted@.subrange(0, i as int)[m] == tree.records()[k];
                    assert(sorted@[m] == tree.records()[k]);
                }
                lemma_prefix_push_members(sorted@, i as int);
            }
            tree = tree.insert(value);
            i += 1;
        }
        assert(sorted@.subrange(0, sorted@.len() as int) =~= sorted@);
        tree
    }

    /// Joins two indexes where every key of `self` is below every key of
    /// `batch`.
    pub fn merge_append(&self, batch: &Self) -> (tree: Self)
        requires
            self.wf(),
            batch.wf(),
            forall|i: int, j: int|
                0 <= i < self.records().len() && 0 <= j < batch.records().len() ==> key_lt(
                    #[trigger] key_of(self.records()[i]),
                    #[trigger] key_of(batch.records()[j]),
                ),
        ensures
            tree.wf(),
            tree.records() == self.records() + batch.records(),
    {
        let root = merge(share_opt(&self.root), share_opt(&batch.root));
        AnnotationTree { root, count: self.count.saturating_add(batch.count) }
    }

    /// Head truncation at `offset` with the stored-record policy: records
    /// starting at or after the offset are kept; tag and style records that
    /// still cover it restart at it and keep their sequence numbers; all
    /// other records before the offset are dropped.
    pub fn truncate_head(&self, offset: u64) -> (tree: Self)
        requires
            self.wf(),
            unique_seqnos(self.records()),
        ensures
            tree.wf(),
            unique_seqnos(tree.records()),
            forall|x: SourceAnnotation| #[trigger] tree.records().contains(x) <==> exists|b: SourceAnnotation|
                #[trigger] self.records().contains(b) && truncated_record(b, offset) == Some(x),
    {
        let (left, right) = split_key(&self.root, (offset, 0));
        let ghost lv = link_view(&left);
        let ghost rv = link_view(&right);
        let ghost all = self.records();
        proof {
            lemma_concat_members(lv, rv);
            lemma_wf_facts(&right);
            lemma_clipped_members(&left, offset);
            assert forall|a: SourceAnnotation| #[trigger] lv.contains(a) implies a.start_byte < offset by {
                let k = choose|k: int| 0 <= k < lv.len() && lv[k] == a;
                assert(key_lt(key_of(lv[k]), (offset, 0)));
            }
            assert forall|a: SourceAnnotation| #[trigger] rv.contains(a) implies a.start_byte >= offset by {
                let k = choose|k: int| 0 <= k < rv.len() && rv[k] == a;
                assert(!key_lt(key_of(rv[k]), (offset, 0)));
            }
        }
        let mut clipped: Vec<SourceAnnotation> = Vec::new();
        collect_clipped(&left, offset, &mut clipped);
        proof {
            assert(clipped@ =~= link_clipped(&left, offset));
            assert forall|i: int, j: int| 0 <= i < clipped@.len() && 0 <= j < clipped@.len() && i != j implies
                clipped@[i].seqno != clipped@[j].seqno by {
                lemma_clipped_unique(&left, offset, all);
            }
        }
        let survivors = sort_by_seqno(clipped);
        let mut count = match &right {
            Some(node) => node.size,
            None => 0,
        };
        let mut kept = right;
        let mut i: usize = 0;
        while i < survivors.len()
            invariant
                i <= survivors.len(),
                link_wf(&kept),
                sorted_by_seqno(survivors@),
                count == sat_len(link_view(&kept).len()),
                forall|a: SourceAnnotation| #[trigger] link_view(&kept).contains(a) <==> (rv.contains(a)
                    || survivors@.subrange(0, i as int).contains(a)),
                forall|a: SourceAnnotation| #[trigger] survivors@.contains(a) <==> link_clipped(&left, offset).contains(a),
                forall|a: SourceAnnotation| #[trigger] lv.contains(a) ==> a.start_byte < offset,
                forall|a: SourceAnnotation| #[trigger] rv.contains(a) ==> a.start_byte >= offset,
                forall|a: SourceAnnotation| #[trigger] all.contains(a) <==> (lv.contains(a) || rv.contains(a)),
                unique_seqnos(all),
                forall|x: SourceAnnotation| #[trigger] link_clipped(&left, offset).contains(x) <==> exists|b: SourceAnnotation|
                    #[trigger] lv.contains(b) && clip_record(b, offset) == Some(x),
            decreases survivors.len() - i,
        {
            let survivor = survivors[i].duplicate();
            proof {
                assert(survivors@.contains(survivor));
                let b = choose|b: SourceAnnotation| #[trigger] lv.contains(b) && clip_record(b, offset) == Some(survivor);
                lemma_wf_facts(&kept);
                assert forall|k: int| 0 <= k < link_view(&kept).len() implies key_of(#[trigger] link_view(&kept)[k])
                    != key_of(survivor) by {
                    let r = link_view(&kept)[k];
                    assert(link_view(&kept).contains(r));
                    if key_of(r) == key_of(survivor) {
                        if rv.contains(r) {
                            assert(all.contains(r) && all.contains(b));
                            lemma_seqno_identifies(all, r, b);
                        } else {
                            let m = choose|m: int| 0 <= m < i && survivors@.subrange(0, i as int)[m] == r;
                            assert(survivors@[m] == r);
                            assert(survivors@[m].seqno < survivors@[i as int].seqno);
                        }
                    }
                }
                lemma_prefix_push_members(survivors@, i as int);
                lemma_wf_facts(&kept);
            }
            kept = insert_link(&kept, survivor);
            count = count.saturating_add(1);
            i += 1;
        }
        let tree = AnnotationTree { root: kept, count };
        proof {
            assert(survivors@.subrange(0, survivors@.len() as int) =~= survivors@);
            assert forall|x: SourceAnnotation| #[trigger] tree.records().contains(x) <==> exists|b: SourceAnnotation|
                #[trigger] all.contains(b) && truncated_record(b, offset) == Some(x) by {
                if tree.records().contains(x) {
                    if rv.contains(x) {
                        assert(all.contains(x) && truncated_record(x, offset) == Some(x));
                    } else {
                        assert(link_clipped(&left, offset).contains(x));
                        let b = choose|b: SourceAnnotation| #[trigger] lv.contains(b) && clip_record(b, offset) == Some(x);
                        assert(all.contains(b) && truncated_record(b, offset) == Some(x));
                    }
                }
                if exists|b: SourceAnnotation| #[trigger] all.contains(b) && truncated_record(b, offset) == Some(x) {
                    let b = choose|b: SourceAnnotation| #[trigger] all.contains(b) && truncated_record(b, offset) == Some(x);
                    if rv.contains(b) {
                        assert(x == b);
                    } else {
                        assert(lv.contains(b));
                        assert(clip_record(b, offset) == Some(x));
                        assert(link_clipped(&left, offset).contains(x));
                    }
                }
            }
            lemma_wf_facts(&tree.root);
            lemma_unique_seqnos_from_source(tree.records(), all, offset);
        }
        tree
    }

    /// Appends the records that overlap `[start, end)` in index order,
    /// pruning subtrees that end before `start` and stopping past `end`.
    pub fn overlapping(&self, start: u64, end: u64, out: &mut Vec<SourceAnnotation>)
        requires
            self.wf(),
        ensures
            final(out)@ == old(out)@ + self.overlap_run(start, end),
            sorted_by_key(self.overlap_run(start, end)),
            forall|a: SourceAnnotation| #[trigger] self.overlap_run(start, end).contains(a) <==> (
            self.records().contains(a) && overlaps(a, start, end)),
    {
        proof {
            lemma_overlapping_members(&self.root, start, end);
        }
        overlap_node(&self.root, start, end, out);
    }

    /// All records in acceptance order.
    pub fn in_application_order(&self) -> (ordered: Vec<SourceAnnotation>)
        requires
            self.wf(),
            unique_seqnos(self.records()),
        ensures
            sorted_by_seqno(ordered@),
            ordered@.len() == self.records().len(),
            forall|a: SourceAnnotation| #[trigger] ordered@.contains(a) <==> self.records().contains(a),
    {
        let mut all: Vec<SourceAnnotation> = Vec::new();
        collect_all(&self.root, &mut all);
        assert(all@ =~= self.records());
        sort_by_seqno(all)
    }
}

/// Clipped survivors of a subtree keep unique sequence numbers.
proof fn lemma_clipped_unique(t: &Option<Arc<AnnotationNode>>, offset: u64, all: Seq<SourceAnnotation>)
    requires
        link_wf(t),
        unique_seqnos(all),
        forall|a: SourceAnnotation| #[trigger] link_view(t).contains(a) ==> all.contains(a),
    ensures
        unique_seqnos(link_clipped(t, offset)),
    decreases t,
{
    if let Some(n) = t {
        let v = value_of(t);
        let l = link_view(&n.left);
        let r = link_view(&n.right);
        lemma_view_concat3(l, v, r);
        assert(link_view(t) == l + seq![v] + r);
        assert forall|a: SourceAnnotation| #[trigger] l.contains(a) implies all.contains(a) by {
            assert((l + seq![v] + r).contains(a));
            assert(link_view(t).contains(a));
        }
        assert forall|a: SourceAnnotation| #[trigger] r.contains(a) implies all.contains(a) by {
            assert((l + seq![v] + r).contains(a));
            assert(link_view(t).contains(a));
        }
        lemma_clipped_unique(&n.left, offset, all);
        lemma_clipped_unique(&n.right, offset, all);
        lemma_clipped_members(&n.left, offset);
        lemma_clipped_members(&n.right, offset);
        let lc = link_clipped(&n.left, offset);
        let rc = link_clipped(&n.right, offset);
        let mid = if clip_record(v, offset) is Some { seq![clip_record(v, offset).unwrap()] } else { Seq::empty() };
        let c = link_clipped(t, offset);
        assert(c == lc + mid + rc);
        assert forall|i: int, j: int| 0 <= i < c.len() && 0 <= j < c.len() && i != j implies c[i].seqno != c[j].seqno by {
            let ka = lc.len() as int;
            let kb = lc.len() + mid.len();
            // The source record of each clipped position, and where it sits.
            let (si, pi) = clip_source(lc, mid, rc, l, r, v, offset, i);
            let (sj, pj) = clip_source(lc, mid, rc, l, r, v, offset, j);
            if pi == pj {
                if pi == 0 {
                    assert(c[i] == lc[i] && c[j] == lc[j]);
                } else if pi == 2 {
                    assert(c[i] == rc[i - kb] && c[j] == rc[j - kb]);
                }
            } else {
                assert((l + seq![v] + r).contains(si));
                assert((l + seq![v] + r).contains(sj));
                assert(link_view(t).contains(si));
                assert(link_view(t).contains(sj));
                assert(all.contains(si) && all.contains(sj));
                if si.seqno == sj.seqno {
                    lemma_seqno_identifies(all, si, sj);
                    lemma_sides_distinct(l, v, r, n.key, si, sj, pi, pj);
                }
            }
        }
    } else {
        assert(link_clipped(t, offset) =~= Seq::<SourceAnnotation>::empty());
    }
}

/// The source of a clipped position: which part (left, middle, right) it
/// comes from and the unclipped record, which shares its sequence number.
proof fn clip_source(
    lc: Seq<SourceAnnotation>,
    mid: Seq<SourceAnnotation>,
    rc: Seq<SourceAnnotation>,
    l: Seq<SourceAnnotation>,
    r: Seq<SourceAnnotation>,
    v: SourceAnnotation,
    offset: u64,
    i: int,
) -> (source: (SourceAnnotation, int))
    requires
        0 <= i < lc.len() + mid.len() + rc.len(),
        mid == (if clip_record(v, offset) is Some { seq![clip_record(v, offset).unwrap()] } else { Seq::<SourceAnnotation>::empty() }),
        forall|x: SourceAnnotation| #[trigger] lc.contains(x) <==> exists|b: SourceAnnotation|
            #[trigger] l.contains(b) && clip_record(b, offset) == Some(x),
        forall|x: SourceAnnotation| #[trigger] rc.contains(x) <==> exists|b: SourceAnnotation|
            #[trigger] r.contains(b) && clip_record(b, offset) == Some(x),
    ensures
        (lc + mid + rc)[i].seqno == source.0.seqno,
        source.1 == 0 ==> l.contains(source.0) && i < lc.len(),
        source.1 == 1 ==> source.0 == v && lc.len() <= i < lc.len() + mid.len(),
        source.1 == 2 ==> r.contains(source.0) && i >= lc.len() + mid.len(),
        0 <= source.1 <= 2,
{
    let c = lc + mid + rc;
    if i < lc.len() {
        assert(c[i] == lc[i]);
        assert(lc.contains(lc[i]));
        let b = choose|b: SourceAnnotation| #[trigger] l.contains(b) && clip_record(b, offset) == Some(lc[i]);
        (b, 0)
    } else if i < lc.len() + mid.len() {
        assert(c[i] == mid[i - lc.len()]);
        (v, 1)
    } else {
        let k = i - lc.len() - mid.len();
        assert(c[i] == rc[k]);
        assert(rc.contains(rc[k]));
        let b = choose|b: SourceAnnotation| #[trigger] r.contains(b) && clip_record(b, offset) == Some(rc[k]);
        (b, 2)
    }
}

/// Records from different parts around a node are different records.
proof fn lemma_sides_distinct(
    l: Seq<SourceAnnotation>,
    v: SourceAnnotation,
    r: Seq<SourceAnnotation>,
    k: (u64, u64),
    a: SourceAnnotation,
    b: SourceAnnotation,
    pa: int,
    pb: int,
)
    requires
        all_below(l, k),
        all_above(r, k),
        key_of(v) == k,
        pa != pb,
        pa == 0 ==> l.contains(a),
        pa == 1 ==> a == v,
        pa == 2 ==> r.contains(a),
        pb == 0 ==> l.contains(b),
        pb == 1 ==> b == v,
        pb == 2 ==> r.contains(b),
        0 <= pa <= 2,
        0 <= pb <= 2,
    ensures
        a != b,
{
    let ka = if pa == 1 { k } else if pa == 0 {
        let i = choose|i: int| 0 <= i < l.len() && l[i] == a;
        key_of(l[i])
    } else {
        let i = choose|i: int| 0 <= i < r.len() && r[i] == a;
        key_of(r[i])
    };
    let kb = if pb == 1 { k } else if pb == 0 {
        let i = choose|i: int| 0 <= i < l.len() && l[i] == b;
        key_of(l[i])
    } else {
        let i = choose|i: int| 0 <= i < r.len() && r[i] == b;
        key_of(r[i])
    };
    assert(ka == key_of(a) && kb == key_of(b));
    if pa == 0 && pb == 2 || pa == 2 && pb == 0 {
        if pa == 0 {
            lemma_key_lt_trans(ka, k, kb);
        } else {
            lemma_key_lt_trans(kb, k, ka);
        }
    }
}

} // verus!
