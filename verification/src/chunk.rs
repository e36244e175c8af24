//! Persistent chunk sequence for retained Source bytes.
//!
//! Immutable pages are viewed through range descriptors: a split shares the
//! page and copies zero bytes. Leaves hold descriptors, branches hold child
//! subtrees, and every node caches the byte and newline totals of its
//! subtree, so appends copy only the right edge, splits divide by absolute
//! offset, and line queries walk the sums without a global line vector.
use std::sync::Arc;
use vstd::prelude::*;
use vstd::string::StringSliceAdditionalSpecFns;

use crate::shared::{share, share_opt};

verus! {

/// Largest page a single descriptor is cut from when text is appended.
pub const SOURCE_CHUNK_BYTES: usize = 16 * 1024;

const LEAF_DESCS: usize = 16;

const BRANCH_CHILDREN: usize = 16;

/// Positions just past each newline byte (`b'\n'`), relative to the start
/// of `b`, in increasing order.
pub open spec fn nl_ends(b: Seq<u8>) -> Seq<int>
    decreases b.len(),
{
    if b.len() == 0 {
        Seq::empty()
    } else if b.last() == 10u8 {
        nl_ends(b.drop_last()).push(b.len() as int)
    } else {
        nl_ends(b.drop_last())
    }
}

/// Every element of `s` moved by `d`.
pub open spec fn shift(s: Seq<int>, d: int) -> Seq<int> {
    Seq::new(s.len(), |i: int| s[i] + d)
}

pub proof fn lemma_nl_ends_concat(a: Seq<u8>, b: Seq<u8>)
    ensures
        nl_ends(a + b) == nl_ends(a) + shift(nl_ends(b), a.len() as int),
    decreases b.len(),
{
    if b.len() == 0 {
        assert(a + b =~= a);
        assert(nl_ends(a) + shift(nl_ends(b), a.len() as int) =~= nl_ends(a));
    } else {
        lemma_nl_ends_concat(a, b.drop_last());
        assert((a + b).drop_last() =~= a + b.drop_last());
        assert((a + b).last() == b.last());
        if b.last() == 10u8 {
            assert(nl_ends(a) + shift(nl_ends(b), a.len() as int) =~= (nl_ends(a) + shift(
                nl_ends(b.drop_last()),
                a.len() as int,
            )).push((a + b).len() as int));
        } else {
            assert(nl_ends(a) + shift(nl_ends(b), a.len() as int) =~= nl_ends(a) + shift(
                nl_ends(b.drop_last()),
                a.len() as int,
            ));
        }
    }
}

pub proof fn lemma_nl_ends_props(b: Seq<u8>)
    ensures
        nl_ends(b).len() <= b.len(),
        forall|i: int| 0 <= i < nl_ends(b).len() ==> 1 <= #[trigger] nl_ends(b)[i] <= b.len(),
        forall|i: int| 0 <= i < nl_ends(b).len() ==> b[#[trigger] nl_ends(b)[i] - 1] == 10u8,
        forall|i: int, j: int| 0 <= i < j < nl_ends(b).len() ==> nl_ends(b)[i] < nl_ends(b)[j],
        forall|k: int| 0 <= k < b.len() && b[k] == 10u8 ==> #[trigger] nl_ends(b).contains(k + 1),
        b.len() > 0 && b.last() == 10u8 ==> nl_ends(b).len() > 0 && nl_ends(b).last() == b.len(),
    decreases b.len(),
{
    if b.len() > 0 {
        let p = b.drop_last();
        lemma_nl_ends_props(p);
        assert forall|k: int| 0 <= k < b.len() && b[k] == 10u8 implies #[trigger] nl_ends(b).contains(k + 1) by {
            if k < p.len() {
                assert(p[k] == b[k]);
                assert(nl_ends(p).contains(k + 1));
                let j = choose|j: int| 0 <= j < nl_ends(p).len() && nl_ends(p)[j] == k + 1;
                assert(nl_ends(b)[j] == k + 1);
            } else {
                assert(nl_ends(b).last() == b.len());
            }
        }
        assert forall|i: int| 0 <= i < nl_ends(b).len() implies b[#[trigger] nl_ends(b)[i] - 1] == 10u8 by {
            if i < nl_ends(p).len() {
                assert(nl_ends(b)[i] == nl_ends(p)[i]);
                assert(b[nl_ends(p)[i] - 1] == p[nl_ends(p)[i] - 1]);
            }
        }
    }
}

/// The number of newline bytes in `b`.
pub open spec fn nl_count(b: Seq<u8>) -> int {
    nl_ends(b).len() as int
}

/// One range view over an immutable page. Splits share the page and copy
/// zero bytes; `line_offsets` holds the relative `newline + 1` positions
/// inside the view (never the view start itself).
pub struct ChunkDesc {
    page: Arc<Vec<u8>>,
    page_start: u32,
    len: u32,
    abs_start: u64,
    line_offsets: Arc<Vec<u32>>,
}

impl ChunkDesc {
    /// The bytes this view covers.
    pub closed spec fn view_bytes(&self) -> Seq<u8> {
        self.page@.subrange(self.page_start as int, self.page_start + self.len)
    }

    /// Absolute offset of the first byte.
    pub closed spec fn start(&self) -> int {
        self.abs_start as int
    }

    /// Number of bytes covered.
    pub closed spec fn size(&self) -> int {
        self.len as int
    }

    /// The page the view reads from.
    pub closed spec fn page_bytes(&self) -> Seq<u8> {
        self.page@
    }

    /// Where the view begins inside its page.
    pub closed spec fn page_offset(&self) -> int {
        self.page_start as int
    }

    /// The view lies inside its page, is non-empty, stays inside the
    /// absolute coordinate space, and its cached offsets are exact.
    pub closed spec fn wf(&self) -> bool {
        &&& self.page_start + self.len <= self.page@.len()
        &&& self.page@.len() <= u32::MAX
        &&& self.len > 0
        &&& self.abs_start + self.len <= u64::MAX
        &&& self.line_offsets@.len() == nl_ends(self.view_bytes()).len()
        &&& forall|i: int|
            0 <= i < self.line_offsets@.len() ==> #[trigger] self.line_offsets@[i] as int == nl_ends(
                self.view_bytes(),
            )[i]
    }

    pub proof fn lemma_wf(&self)
        requires
            self.wf(),
        ensures
            self.view_bytes().len() == self.size(),
            self.size() > 0,
            self.size() <= u32::MAX,
            self.start() + self.size() <= u64::MAX,
    {
    }

    /// A view sharing this descriptor's page and offsets.
    pub fn duplicate(&self) -> (copy: Self)
        ensures
            copy == *self,
    {
        ChunkDesc {
            page: share(&self.page),
            page_start: self.page_start,
            len: self.len,
            abs_start: self.abs_start,
            line_offsets: share(&self.line_offsets),
        }
    }

    /// A fresh descriptor over a whole page.
    pub fn from_page(bytes: Vec<u8>, abs_start: u64) -> (desc: Self)
        requires
            0 < bytes@.len() <= u32::MAX,
            abs_start + bytes@.len() <= u64::MAX,
        ensures
            desc.wf(),
            desc.view_bytes() == bytes@,
            desc.start() == abs_start,
    {
        let mut line_offsets: Vec<u32> = Vec::new();
        let mut idx: usize = 0;
        while idx < bytes.len()
            invariant
                idx <= bytes@.len(),
                bytes@.len() <= u32::MAX,
                line_offsets@.len() == nl_ends(bytes@.subrange(0, idx as int)).len(),
                forall|i: int|
                    0 <= i < line_offsets@.len() ==> #[trigger] line_offsets@[i] as int == nl_ends(
                        bytes@.subrange(0, idx as int),
                    )[i],
            decreases bytes@.len() - idx,
        {
            let ghost prev = bytes@.subrange(0, idx as int);
            let ghost next = bytes@.subrange(0, idx + 1);
            proof {
                assert(next.drop_last() =~= prev);
                assert(next.last() == bytes@[idx as int]);
                lemma_nl_ends_props(prev);
            }
            if bytes[idx] == 10u8 {
                line_offsets.push((idx + 1) as u32);
            }
            idx += 1;
        }
        assert(bytes@.subrange(0, bytes@.len() as int) =~= bytes@);
        let len = bytes.len() as u32;
        let desc = ChunkDesc {
            page: Arc::new(bytes),
            page_start: 0,
            len,
            abs_start,
            line_offsets: Arc::new(line_offsets),
        };
        assert(desc.view_bytes() =~= bytes@);
        desc
    }

    pub fn len_u64(&self) -> (len: u64)
        ensures
            len == self.size(),
    {
        self.len as u64
    }

    /// Absolute offset just past the last byte.
    pub fn end(&self) -> (end: u64)
        requires
            self.wf(),
        ensures
            end == self.start() + self.size(),
    {
        self.abs_start.saturating_add(self.len as u64)
    }

    /// The covered bytes.
    pub fn bytes(&self) -> (bytes: &[u8])
        requires
            self.wf(),
        ensures
            bytes@ == self.view_bytes(),
    {
        let page = self.page.as_slice();
        let start = self.page_start as usize;
        let end = start + self.len as usize;
        &page[start..end]
    }

    /// Newlines inside the view.
    pub fn newlines(&self) -> (count: u64)
        requires
            self.wf(),
        ensures
            count == nl_count(self.view_bytes()),
    {
        proof {
            lemma_nl_ends_props(self.view_bytes());
        }
        self.line_offsets.len() as u64
    }

    /// Splits at an absolute offset strictly inside the view. Both halves
    /// share the page; only the small offset arrays are rebuilt.
    pub fn split_at(&self, offset: u64) -> (halves: Option<(Self, Self)>)
        requires
            self.wf(),
        ensures
            halves is Some <==> self.start() < offset < self.start() + self.size(),
            halves matches Some((left, right)) ==> {
                &&& left.wf()
                &&& right.wf()
                &&& left.start() == self.start()
                &&& right.start() == offset
                &&& left.view_bytes() == self.view_bytes().subrange(0, offset - self.start())
                &&& right.view_bytes() == self.view_bytes().subrange(offset - self.start(), self.size())
                &&& left.page_bytes() == self.page_bytes()
                &&& right.page_bytes() == self.page_bytes()
                &&& left.page_offset() == self.page_offset()
                &&& right.page_offset() == self.page_offset() + (offset - self.start())
            },
    {
        if offset <= self.abs_start || offset >= self.end() {
            return None;
        }
        let local = (offset - self.abs_start) as u32;
        let ghost b = self.view_bytes();
        let ghost a = b.subrange(0, local as int);
        let ghost c = b.subrange(local as int, b.len() as int);
        proof {
            assert(a + c =~= b);
            lemma_nl_ends_concat(a, c);
            lemma_nl_ends_props(a);
            lemma_nl_ends_props(c);
        }
        let mut boundary: usize = 0;
        while boundary < self.line_offsets.len() && self.line_offsets[boundary] <= local
            invariant
                self.wf(),
                b == self.view_bytes(),
                a == b.subrange(0, local as int),
                c == b.subrange(local as int, b.len() as int),
                0 < local < self.size(),
                boundary <= self.line_offsets@.len(),
                boundary <= nl_ends(a).len(),
                nl_ends(b) == nl_ends(a) + shift(nl_ends(c), local as int),
                forall|i: int| 0 <= i < nl_ends(a).len() ==> #[trigger] nl_ends(a)[i] <= local,
                forall|i: int| 0 <= i < nl_ends(c).len() ==> #[trigger] nl_ends(c)[i] >= 1,
            decreases self.line_offsets@.len() - boundary,
        {
            proof {
                if boundary == nl_ends(a).len() {
                    assert(nl_ends(b)[boundary as int] == nl_ends(c)[0] + local);
                    assert(self.line_offsets@[boundary as int] as int == nl_ends(b)[boundary as int]);
                }
            }
            boundary += 1;
        }
        proof {
            if boundary < nl_ends(a).len() {
                assert(nl_ends(b)[boundary as int] == nl_ends(a)[boundary as int]);
                assert(self.line_offsets@[boundary as int] as int == nl_ends(b)[boundary as int]);
            }
            assert(boundary == nl_ends(a).len());
        }
        let mut left_offsets: Vec<u32> = Vec::new();
        let mut i: usize = 0;
        while i < boundary
            invariant
                self.wf(),
                b == self.view_bytes(),
                a == b.subrange(0, local as int),
                c == b.subrange(local as int, b.len() as int),
                0 < local < self.size(),
                i <= boundary,
                boundary == nl_ends(a).len(),
                boundary <= self.line_offsets@.len(),
                nl_ends(b) == nl_ends(a) + shift(nl_ends(c), local as int),
                left_offsets@.len() == i,
                forall|k: int| 0 <= k < i ==> #[trigger] left_offsets@[k] as int == nl_ends(a)[k],
            decreases boundary - i,
        {
            proof {
                assert(self.line_offsets@[i as int] as int == nl_ends(b)[i as int]);
            }
            left_offsets.push(self.line_offsets[i]);
            i += 1;
        }
        let mut right_offsets: Vec<u32> = Vec::new();
        let mut j: usize = boundary;
        while j < self.line_offsets.len()
            invariant
                self.wf(),
                b == self.view_bytes(),
                a == b.subrange(0, local as int),
                c == b.subrange(local as int, b.len() as int),
                0 < local < self.size(),
                boundary <= j <= self.line_offsets@.len(),
                boundary == nl_ends(a).len(),
                nl_ends(b) == nl_ends(a) + shift(nl_ends(c), local as int),
                forall|k: int| 0 <= k < nl_ends(c).len() ==> #[trigger] nl_ends(c)[k] >= 1,
                right_offsets@.len() == j - boundary,
                forall|k: int| 0 <= k < j - boundary ==> #[trigger] right_offsets@[k] as int == nl_ends(c)[k],
            decreases self.line_offsets@.len() - j,
        {
            proof {
                assert(self.line_offsets@[j as int] as int == nl_ends(b)[j as int]);
                assert(nl_ends(b)[j as int] == nl_ends(c)[j - boundary] + local);
            }
            right_offsets.push(self.line_offsets[j] - local);
            j += 1;
        }
        let left = ChunkDesc {
            page: share(&self.page),
            page_start: self.page_start,
            len: local,
            abs_start: self.abs_start,
            line_offsets: Arc::new(left_offsets),
        };
        let right = ChunkDesc {
            page: share(&self.page),
            page_start: self.page_start + local,
            len: self.len - local,
            abs_start: offset,
            line_offsets: Arc::new(right_offsets),
        };
        proof {
            assert(left.view_bytes() =~= a);
            assert(right.view_bytes() =~= c);
        }
        Some((left, right))
    }
}

/// The bytes of consecutive descriptors.
pub open spec fn descs_text(ds: Seq<ChunkDesc>) -> Seq<u8>
    decreases ds.len(),
{
    if ds.len() == 0 {
        Seq::empty()
    } else {
        descs_text(ds.drop_last()) + ds.last().view_bytes()
    }
}

/// Well-formed descriptors laid out back to back from `base`.
pub open spec fn descs_ok(ds: Seq<ChunkDesc>, base: int) -> bool {
    &&& forall|i: int| 0 <= i < ds.len() ==> #[trigger] ds[i].wf()
    &&& forall|i: int| 0 <= i < ds.len() ==> #[trigger] ds[i].start() == base + descs_text(ds.take(i)).len()
    &&& base >= 0
    &&& base + descs_text(ds).len() <= u64::MAX
}

pub proof fn lemma_descs_text_concat(a: Seq<ChunkDesc>, b: Seq<ChunkDesc>)
    ensures
        descs_text(a + b) == descs_text(a) + descs_text(b),
    decreases b.len(),
{
    if b.len() == 0 {
        assert(a + b =~= a);
        assert(descs_text(a) + descs_text(b) =~= descs_text(a));
    } else {
        lemma_descs_text_concat(a, b.drop_last());
        assert((a + b).drop_last() =~= a + b.drop_last());
        assert(descs_text(a) + descs_text(b) =~= descs_text(a) + descs_text(b.drop_last()) + b.last().view_bytes());
    }
}

pub proof fn lemma_descs_text_single(d: ChunkDesc)
    ensures
        descs_text(seq![d]) == d.view_bytes(),
{
    let s = seq![d];
    assert(s.len() == 1);
    assert(s.last() == d);
    assert(s.drop_last() =~= Seq::<ChunkDesc>::empty());
    assert(descs_text(s.drop_last()) =~= Seq::<u8>::empty());
    assert(descs_text(s) == descs_text(s.drop_last()) + s.last().view_bytes());
    assert(Seq::<u8>::empty() + d.view_bytes() =~= d.view_bytes());
}

/// Each descriptor's bytes sit at its prefix offset in the joined text.
pub proof fn lemma_descs_text_at(ds: Seq<ChunkDesc>, i: int)
    requires
        0 <= i < ds.len(),
    ensures
        descs_text(ds) == descs_text(ds.take(i)) + ds[i].view_bytes() + descs_text(ds.skip(i + 1)),
        descs_text(ds.take(i + 1)) == descs_text(ds.take(i)) + ds[i].view_bytes(),
{
    assert(ds =~= ds.take(i) + seq![ds[i]] + ds.skip(i + 1));
    lemma_descs_text_concat(ds.take(i) + seq![ds[i]], ds.skip(i + 1));
    lemma_descs_text_concat(ds.take(i), seq![ds[i]]);
    lemma_descs_text_single(ds[i]);
    assert(ds.take(i + 1) =~= ds.take(i) + seq![ds[i]]);
}

/// Splitting a laid-out descriptor run keeps both halves laid out.
pub proof fn lemma_descs_ok_split(ds: Seq<ChunkDesc>, base: int, k: int)
    requires
        descs_ok(ds, base),
        0 <= k <= ds.len(),
    ensures
        descs_ok(ds.take(k), base),
        descs_ok(ds.skip(k), base + descs_text(ds.take(k)).len()),
        descs_text(ds) == descs_text(ds.take(k)) + descs_text(ds.skip(k)),
{
    assert(ds =~= ds.take(k) + ds.skip(k));
    lemma_descs_text_concat(ds.take(k), ds.skip(k));
    let a = ds.take(k);
    let b = ds.skip(k);
    assert forall|i: int| 0 <= i < a.len() implies #[trigger] a[i].start() == base + descs_text(a.take(i)).len() by {
        assert(a.take(i) =~= ds.take(i));
        assert(a[i] == ds[i]);
    }
    assert forall|i: int| 0 <= i < b.len() implies #[trigger] b[i].start() == base + descs_text(a).len()
        + descs_text(b.take(i)).len() by {
        assert(ds.take(k + i) =~= a + b.take(i));
        lemma_descs_text_concat(a, b.take(i));
        assert(b[i] == ds[k + i]);
    }
    assert forall|i: int| 0 <= i < a.len() implies #[trigger] a[i].wf() by {
        assert(a[i] == ds[i]);
    }
    assert forall|i: int| 0 <= i < b.len() implies #[trigger] b[i].wf() by {
        assert(b[i] == ds[k + i]);
    }
}

/// Joining two laid-out runs, the second starting where the first ends.
pub proof fn lemma_descs_ok_concat(a: Seq<ChunkDesc>, b: Seq<ChunkDesc>, base: int)
    requires
        descs_ok(a, base),
        descs_ok(b, base + descs_text(a).len()),
    ensures
        descs_ok(a + b, base),
        descs_text(a + b) == descs_text(a) + descs_text(b),
{
    let ab = a + b;
    lemma_descs_text_concat(a, b);
    assert forall|i: int| 0 <= i < ab.len() implies #[trigger] ab[i].start() == base + descs_text(ab.take(i)).len() by {
        if i < a.len() {
            assert(ab.take(i) =~= a.take(i));
            assert(ab[i] == a[i]);
        } else {
            assert(ab.take(i) =~= a + b.take(i - a.len()));
            lemma_descs_text_concat(a, b.take(i - a.len()));
            assert(ab[i] == b[i - a.len()]);
        }
    }
    assert forall|i: int| 0 <= i < ab.len() implies #[trigger] ab[i].wf() by {
        if i < a.len() {
            assert(ab[i] == a[i]);
        } else {
            assert(ab[i] == b[i - a.len()]);
        }
    }
}

/// Extending a laid-out run by the descriptor that starts where it ends.
pub proof fn lemma_descs_ok_push(ds: Seq<ChunkDesc>, d: ChunkDesc, base: int)
    requires
        descs_ok(ds, base),
        d.wf(),
        d.start() == base + descs_text(ds).len(),
    ensures
        descs_ok(ds.push(d), base),
        descs_text(ds.push(d)) == descs_text(ds) + d.view_bytes(),
{
    d.lemma_wf();
    lemma_descs_text_single(d);
    assert(seq![d].take(0) =~= Seq::<ChunkDesc>::empty());
    assert(descs_text(Seq::<ChunkDesc>::empty()) =~= Seq::<u8>::empty());
    assert(descs_ok(seq![d], base + descs_text(ds).len()));
    lemma_descs_ok_concat(ds, seq![d], base);
    assert(ds.push(d) =~= ds + seq![d]);
}

pub enum ChunkNode {
    Leaf { descs: Vec<ChunkDesc>, bytes: u64, newlines: u64 },
    Branch { children: Vec<Arc<ChunkNode>>, bytes: u64, newlines: u64, leaves: usize },
}

/// Descriptors of a subtree, left to right.
pub closed spec fn node_descs(n: &ChunkNode) -> Seq<ChunkDesc>
    decreases n, 0nat,
{
    match n {
        ChunkNode::Leaf { descs, .. } => descs@,
        ChunkNode::Branch { children, .. } => children_descs(children@),
    }
}

/// Descriptors of a run of subtrees, left to right.
pub closed spec fn children_descs(cs: Seq<Arc<ChunkNode>>) -> Seq<ChunkDesc>
    decreases cs, cs.len(),
{
    if cs.len() == 0 {
        Seq::empty()
    } else {
        children_descs(cs.drop_last()) + node_descs(&*cs.last())
    }
}

/// Leaves of a subtree.
pub closed spec fn node_leaves(n: &ChunkNode) -> nat
    decreases n, 0nat,
{
    match n {
        ChunkNode::Leaf { .. } => 1,
        ChunkNode::Branch { children, .. } => children_leaves(children@),
    }
}

pub closed spec fn children_leaves(cs: Seq<Arc<ChunkNode>>) -> nat
    decreases cs, cs.len(),
{
    if cs.len() == 0 {
        0
    } else {
        children_leaves(cs.drop_last()) + node_leaves(&*cs.last())
    }
}

/// Non-empty nodes with exact cached totals.
pub closed spec fn node_wf(n: &ChunkNode) -> bool
    decreases n, 0nat,
{
    match n {
        ChunkNode::Leaf { descs, bytes, newlines } => {
            &&& descs@.len() >= 1
            &&& bytes == descs_text(descs@).len()
            &&& newlines == nl_count(descs_text(descs@))
        },
        ChunkNode::Branch { children, bytes, newlines, leaves } => {
            &&& children@.len() >= 1
            &&& children_wf(children@)
            &&& bytes == descs_text(children_descs(children@)).len()
            &&& newlines == nl_count(descs_text(children_descs(children@)))
            &&& leaves == crate::annotation::sat_len(children_leaves(children@))
        },
    }
}

pub closed spec fn children_wf(cs: Seq<Arc<ChunkNode>>) -> bool
    decreases cs, cs.len(),
{
    cs.len() == 0 || (children_wf(cs.drop_last()) && node_wf(&*cs.last()))
}

pub proof fn lemma_children_concat(a: Seq<Arc<ChunkNode>>, b: Seq<Arc<ChunkNode>>)
    ensures
        children_descs(a + b) == children_descs(a) + children_descs(b),
        children_leaves(a + b) == children_leaves(a) + children_leaves(b),
        children_wf(a + b) == (children_wf(a) && children_wf(b)),
    decreases b.len(),
{
    if b.len() == 0 {
        assert(a + b =~= a);
        assert(children_descs(a) + children_descs(b) =~= children_descs(a));
    } else {
        lemma_children_concat(a, b.drop_last());
        assert((a + b).drop_last() =~= a + b.drop_last());
        assert(children_descs(a) + children_descs(b) =~= children_descs(a) + children_descs(b.drop_last())
            + node_descs(&*b.last()));
    }
}

pub proof fn lemma_children_single(c: Arc<ChunkNode>)
    ensures
        children_descs(seq![c]) == node_descs(&*c),
        children_leaves(seq![c]) == node_leaves(&*c),
        children_wf(seq![c]) == node_wf(&*c),
{
    let s = seq![c];
    assert(s.len() == 1);
    assert(s.last() == c);
    assert(s.drop_last() =~= Seq::<Arc<ChunkNode>>::empty());
    assert(children_descs(s.drop_last()) =~= Seq::<ChunkDesc>::empty());
    assert(children_leaves(s.drop_last()) == 0);
    assert(children_wf(s.drop_last()));
    assert(children_descs(s) == children_descs(s.drop_last()) + node_descs(&*s.last()));
    assert(children_leaves(s) == children_leaves(s.drop_last()) + node_leaves(&*s.last()));
    assert(Seq::<ChunkDesc>::empty() + node_descs(&*c) =~= node_descs(&*c));
}

/// A run of subtrees split around its `i`-th member.
pub proof fn lemma_children_at(cs: Seq<Arc<ChunkNode>>, i: int)
    requires
        0 <= i < cs.len(),
    ensures
        children_descs(cs) == children_descs(cs.take(i)) + node_descs(&*cs[i]) + children_descs(cs.skip(i + 1)),
        children_descs(cs.take(i + 1)) == children_descs(cs.take(i)) + node_descs(&*cs[i]),
        children_wf(cs) ==> node_wf(&*cs[i]) && children_wf(cs.take(i)) && children_wf(cs.skip(i + 1)),
{
    assert(cs =~= cs.take(i) + seq![cs[i]] + cs.skip(i + 1));
    lemma_children_concat(cs.take(i) + seq![cs[i]], cs.skip(i + 1));
    lemma_children_concat(cs.take(i), seq![cs[i]]);
    lemma_children_single(cs[i]);
    assert(cs.take(i + 1) =~= cs.take(i) + seq![cs[i]]);
}

impl ChunkNode {
    pub closed spec fn descs(&self) -> Seq<ChunkDesc> {
        node_descs(self)
    }

    pub closed spec fn wf(&self) -> bool {
        node_wf(self)
    }

    pub closed spec fn leaf_total(&self) -> nat {
        node_leaves(self)
    }

    pub fn bytes(&self) -> (bytes: u64)
        requires
            node_wf(self),
        ensures
            bytes == descs_text(node_descs(self)).len(),
    {
        match self {
            ChunkNode::Leaf { bytes, .. } => *bytes,
            ChunkNode::Branch { bytes, .. } => *bytes,
        }
    }

    pub fn newlines(&self) -> (newlines: u64)
        requires
            node_wf(self),
        ensures
            newlines == nl_count(descs_text(node_descs(self))),
    {
        match self {
            ChunkNode::Leaf { newlines, .. } => *newlines,
            ChunkNode::Branch { newlines, .. } => *newlines,
        }
    }

    pub fn leaves(&self) -> (leaves: usize)
        requires
            node_wf(self),
        ensures
            leaves == crate::annotation::sat_len(node_leaves(self)),
    {
        match self {
            ChunkNode::Leaf { .. } => 1,
            ChunkNode::Branch { leaves, .. } => *leaves,
        }
    }

    /// A leaf over a non-empty run of laid-out descriptors.
    pub fn leaf_node(descs: Vec<ChunkDesc>, Ghost(base): Ghost<int>) -> (node: Arc<ChunkNode>)
        requires
            descs@.len() >= 1,
            descs_ok(descs@, base),
        ensures
            node_wf(&*node),
            node_descs(&*node) == descs@,
            node_leaves(&*node) == 1,
            (*node) is Leaf,
    {
        let mut bytes: u64 = 0;
        let mut newlines: u64 = 0;
        let mut i: usize = 0;
        while i < descs.len()
            invariant
                i <= descs@.len(),
                descs_ok(descs@, base),
                bytes == descs_text(descs@.take(i as int)).len(),
                newlines == nl_count(descs_text(descs@.take(i as int))),
            decreases descs@.len() - i,
        {
            proof {
                lemma_descs_text_at(descs@, i as int);
                lemma_descs_ok_split(descs@, base, i as int + 1);
                lemma_nl_ends_concat(descs_text(descs@.take(i as int)), descs@[i as int].view_bytes());
                lemma_nl_ends_props(descs_text(descs@.take(i as int + 1)));
                assert(descs@[i as int].wf());
            }
            bytes = bytes.saturating_add(descs[i].len_u64());
            newlines = newlines.saturating_add(descs[i].newlines());
            i += 1;
        }
        assert(descs@.take(descs@.len() as int) =~= descs@);
        Arc::new(ChunkNode::Leaf { descs, bytes, newlines })
    }

    /// A branch over a non-empty run of well-formed subtrees whose
    /// descriptors are laid out from `base`.
    pub fn branch_node(children: Vec<Arc<ChunkNode>>, Ghost(base): Ghost<int>) -> (node: Arc<ChunkNode>)
        requires
            children@.len() >= 1,
            children_wf(children@),
            descs_ok(children_descs(children@), base),
        ensures
            node_wf(&*node),
            node_descs(&*node) == children_descs(children@),
            node_leaves(&*node) == children_leaves(children@),
    {
        let mut bytes: u64 = 0;
        let mut newlines: u64 = 0;
        let mut leaves: usize = 0;
        let mut i: usize = 0;
        while i < children.len()
            invariant
                i <= children@.len(),
                children_wf(children@),
                descs_ok(children_descs(children@), base),
                bytes == descs_text(children_descs(children@.take(i as int))).len(),
                newlines == nl_count(descs_text(children_descs(children@.take(i as int)))),
                leaves == crate::annotation::sat_len(children_leaves(children@.take(i as int))),
            decreases children@.len() - i,
        {
            proof {
                let cs = children@;
                lemma_children_at(cs, i as int);
                lemma_children_concat(cs.take(i as int), seq![cs[i as int]]);
                lemma_children_single(cs[i as int]);
                assert(cs.take(i + 1) =~= cs.take(i as int) + seq![cs[i as int]]);
                let pre = children_descs(cs.take(i as int));
                let mid = node_descs(&*cs[i as int]);
                assert(children_descs(cs) == pre + mid + children_descs(cs.skip(i + 1)));
                lemma_descs_text_concat(pre + mid, children_descs(cs.skip(i + 1)));
                lemma_descs_text_concat(pre, mid);
                lemma_nl_ends_concat(descs_text(pre), descs_text(mid));
                lemma_nl_ends_props(descs_text(pre + mid));
            }
            bytes = bytes.saturating_add(children[i].bytes());
            newlines = newlines.saturating_add(children[i].newlines());
            leaves = leaves.saturating_add(children[i].leaves());
            i += 1;
        }
        assert(children@.take(children@.len() as int) =~= children@);
        Arc::new(ChunkNode::Branch { children, bytes, newlines, leaves })
    }
}


/// Every well-formed subtree holds at least one descriptor.
pub proof fn lemma_node_nonempty(n: &ChunkNode)
    requires
        node_wf(n),
    ensures
        node_descs(n).len() >= 1,
    decreases n,
{
    match n {
        ChunkNode::Leaf { .. } => {},
        ChunkNode::Branch { children, .. } => {
            let cs = children@;
            lemma_children_at(cs, cs.len() - 1);
            assert(cs.take(cs.len() - 1 + 1) =~= cs);
            assert(decreases_to!(n => children));
            assert(decreases_to!(children => cs[cs.len() - 1]));
            lemma_node_nonempty(&*cs[cs.len() - 1]);
        },
    }
}

/// Copies a descriptor vector, sharing each page.
fn copy_descs(descs: &Vec<ChunkDesc>) -> (copy: Vec<ChunkDesc>)
    ensures
        copy@ == descs@,
{
    let mut copy: Vec<ChunkDesc> = Vec::new();
    let mut index: usize = 0;
    while index < descs.len()
        invariant
            index <= descs@.len(),
            copy@ == descs@.take(index as int),
        decreases descs@.len() - index,
    {
        copy.push(descs[index].duplicate());
        index += 1;
        assert(copy@ =~= descs@.take(index as int));
    }
    assert(descs@.take(descs@.len() as int) =~= descs@);
    copy
}

/// Copies a child vector, sharing each subtree.
fn copy_children(children: &Vec<Arc<ChunkNode>>) -> (copy: Vec<Arc<ChunkNode>>)
    ensures
        copy@ == children@,
{
    let mut copy: Vec<Arc<ChunkNode>> = Vec::new();
    let mut index: usize = 0;
    while index < children.len()
        invariant
            index <= children@.len(),
            copy@ == children@.take(index as int),
        decreases children@.len() - index,
    {
        copy.push(share(&children[index]));
        index += 1;
        assert(copy@ =~= children@.take(index as int));
    }
    assert(children@.take(children@.len() as int) =~= children@);
    copy
}

/// Descriptors of an optional subtree.
pub open spec fn opt_descs(n: Option<Arc<ChunkNode>>) -> Seq<ChunkDesc> {
    match n {
        Some(node) => node_descs(&*node),
        None => Seq::empty(),
    }
}

/// An optional subtree that is well-formed when present.
pub open spec fn opt_wf(n: Option<Arc<ChunkNode>>) -> bool {
    match n {
        Some(node) => node_wf(&*node),
        None => true,
    }
}

/// Persistent indexed chunk sequence. Leaves hold up to sixteen range
/// views; branches hold byte and newline sums, so appends copy only the
/// right-edge path, splits divide by absolute offset, and line queries walk
/// the sums without a global line vector.
pub struct ChunkTree {
    root: Option<Arc<ChunkNode>>,
}

impl ChunkTree {
    /// The descriptors in order.
    pub closed spec fn descs(&self) -> Seq<ChunkDesc> {
        opt_descs(self.root)
    }

    /// The retained bytes, in order.
    pub closed spec fn text(&self) -> Seq<u8> {
        descs_text(self.descs())
    }

    /// Well-formed nodes whose descriptors are laid out back to back from
    /// `base`.
    pub closed spec fn wf_at(&self, base: int) -> bool {
        &&& opt_wf(self.root)
        &&& descs_ok(self.descs(), base)
    }

    /// Absolute start of the first byte; zero for the empty tree.
    pub closed spec fn first_start(&self) -> int {
        if self.descs().len() > 0 {
            self.descs()[0].start()
        } else {
            0
        }
    }

    /// Well-formed, laid out from its own first byte.
    pub closed spec fn wf(&self) -> bool {
        self.wf_at(self.first_start())
    }

    /// The tree's text is the text of its descriptors, laid out from its
    /// base.
    pub proof fn lemma_layout(&self, base: int)
        requires
            self.wf_at(base),
        ensures
            self.text() == descs_text(self.descs()),
            descs_ok(self.descs(), base),
    {
    }

    /// A tree laid out from some base is well-formed, and a non-empty one
    /// starts at that base.
    pub proof fn lemma_wf_at(&self, base: int)
        requires
            self.wf_at(base),
        ensures
            self.wf(),
            self.descs().len() > 0 ==> self.first_start() == base,
    {
        if self.descs().len() > 0 {
            assert(self.descs().take(0) =~= Seq::<ChunkDesc>::empty());
            assert(descs_text(Seq::<ChunkDesc>::empty()) =~= Seq::<u8>::empty());
            let ds = self.descs();
            assert(descs_ok(ds, base));
            assert(0 <= 0 < ds.len());
            assert(ds[0].start() == base + descs_text(ds.take(0)).len());
        } else {
            assert(self.descs() =~= Seq::<ChunkDesc>::empty());
            assert(descs_text(Seq::<ChunkDesc>::empty()) =~= Seq::<u8>::empty());
        }
    }

    /// Number of leaves (saturating).
    pub closed spec fn leaf_total(&self) -> int {
        match self.root {
            Some(node) => crate::annotation::sat_len(node_leaves(&*node)),
            None => 0,
        }
    }

    pub proof fn lemma_bounds(&self, base: int)
        requires
            self.wf_at(base),
        ensures
            0 <= base,
            base + self.text().len() <= u64::MAX,
            self.text().len() == 0 <==> self.descs().len() == 0,
    {
        self.lemma_wf_bounds(base);
    }

    proof fn lemma_wf_bounds(&self, base: int)
        requires
            self.wf_at(base),
        ensures
            0 <= base,
            base + self.text().len() <= u64::MAX,
            self.text().len() == 0 <==> self.root is None,
            self.descs().len() == 0 <==> self.root is None,
    {
        if let Some(node) = self.root {
            lemma_node_nonempty(&*node);
            let ds = node_descs(&*node);
            lemma_descs_text_at(ds, 0);
            assert(ds[0].wf());
            ds[0].lemma_wf();
        }
    }

    /// The tree with no bytes.
    pub fn empty() -> (tree: Self)
        ensures
            tree.text().len() == 0,
            tree.descs().len() == 0,
            forall|base: int| 0 <= base <= u64::MAX ==> tree.wf_at(base),
    {
        ChunkTree { root: None }
    }

    /// Another handle on the same persistent nodes.
    pub fn share(&self) -> (copy: Self)
        ensures
            copy == *self,
    {
        ChunkTree { root: share_opt(&self.root) }
    }

    pub fn is_empty(&self) -> (empty: bool)
        requires
            self.wf(),
        ensures
            empty == (self.text().len() == 0),
    {
        proof {
            self.lemma_wf_bounds(self.first_start());
        }
        self.root.is_none()
    }

    /// Number of retained bytes.
    pub fn total_bytes(&self) -> (total: u64)
        requires
            self.wf(),
        ensures
            total == self.text().len(),
    {
        match &self.root {
            Some(node) => node.bytes(),
            None => 0,
        }
    }

    /// Number of retained bytes.
    pub fn bytes(&self) -> (total: u64)
        requires
            self.wf(),
        ensures
            total == self.text().len(),
    {
        self.total_bytes()
    }

    /// Number of retained newline bytes.
    pub fn total_newlines(&self) -> (total: u64)
        requires
            self.wf(),
        ensures
            total == nl_count(self.text()),
    {
        match &self.root {
            Some(node) => node.newlines(),
            None => 0,
        }
    }

    /// Number of leaves.
    pub fn leaf_count(&self) -> (total: usize)
        requires
            self.wf(),
        ensures
            total == self.leaf_total(),
    {
        match &self.root {
            Some(node) => node.leaves(),
            None => 0,
        }
    }

    /// Line entries in the range: entry `0` is the base and entry `i > 0`
    /// follows the `(i-1)`-th newline.
    pub fn line_entries(&self) -> (total: u64)
        requires
            self.wf(),
        ensures
            total == nl_count(self.text()) + 1 || (total == u64::MAX && nl_count(self.text()) + 1 > u64::MAX),
    {
        self.total_newlines().saturating_add(1)
    }

    /// A leaf over `descs`, split in two halves when it overflows.
    fn leaf_or_split(descs: Vec<ChunkDesc>, Ghost(base): Ghost<int>) -> (parts: (
        Arc<ChunkNode>,
        Option<Arc<ChunkNode>>,
    ))
        requires
            descs@.len() >= 1,
            descs_ok(descs@, base),
        ensures
            node_wf(&*parts.0),
            opt_wf(parts.1),
            node_descs(&*parts.0) + opt_descs(parts.1) == descs@,
    {
        let ghost all = descs@;
        if descs.len() <= LEAF_DESCS {
            let node = ChunkNode::leaf_node(descs, Ghost(base));
            assert(node_descs(&*node) + opt_descs(None) =~= all);
            (node, None)
        } else {
            let mut descs = descs;
            let half = descs.len() / 2;
            let right = descs.split_off(half);
            proof {
                assert(descs@ =~= all.take(half as int));
                assert(right@ =~= all.skip(half as int));
                lemma_descs_ok_split(all, base, half as int);
                assert(all.take(half as int) + all.skip(half as int) =~= all);
            }
            let ghost right_base = base + descs_text(descs@).len();
            (ChunkNode::leaf_node(descs, Ghost(base)), Some(ChunkNode::leaf_node(right, Ghost(right_base))))
        }
    }

    /// A branch over `children`, split in two halves when it overflows.
    fn branch_or_split(children: Vec<Arc<ChunkNode>>, Ghost(base): Ghost<int>) -> (parts: (
        Arc<ChunkNode>,
        Option<Arc<ChunkNode>>,
    ))
        requires
            children@.len() >= 1,
            children_wf(children@),
            descs_ok(children_descs(children@), base),
        ensures
            node_wf(&*parts.0),
            opt_wf(parts.1),
            node_descs(&*parts.0) + opt_descs(parts.1) == children_descs(children@),
    {
        let ghost next = children@;
        if children.len() <= BRANCH_CHILDREN {
            let node = ChunkNode::branch_node(children, Ghost(base));
            assert(node_descs(&*node) + opt_descs(None) =~= children_descs(next));
            (node, None)
        } else {
            let mut children = children;
            let half = children.len() / 2;
            let right = children.split_off(half);
            proof {
                assert(children@ =~= next.take(half as int));
                assert(right@ =~= next.skip(half as int));
                assert(next =~= next.take(half as int) + next.skip(half as int));
                lemma_children_concat(next.take(half as int), next.skip(half as int));
                lemma_descs_ok_split(children_descs(next), base, children_descs(children@).len() as int);
                assert(children_descs(next).take(children_descs(children@).len() as int) =~= children_descs(children@));
                assert(children_descs(next).skip(children_descs(children@).len() as int) =~= children_descs(right@));
            }
            let ghost right_base = base + descs_text(children_descs(children@)).len();
            (ChunkNode::branch_node(children, Ghost(base)), Some(ChunkNode::branch_node(right, Ghost(right_base))))
        }
    }

    /// The rightmost child of a branch, and where its descriptors start.
    proof fn lemma_last_child(cs: Seq<Arc<ChunkNode>>, desc: ChunkDesc, base: int)
        requires
            cs.len() >= 1,
            children_wf(cs),
            descs_ok(children_descs(cs).push(desc), base),
        ensures
            children_wf(cs.drop_last()),
            node_wf(&*cs.last()),
            children_descs(cs) == children_descs(cs.drop_last()) + node_descs(&*cs.last()),
            descs_ok(node_descs(&*cs.last()).push(desc), base + descs_text(children_descs(cs.drop_last())).len()),
            descs_ok(children_descs(cs.drop_last()), base),
    {
        let rest = cs.drop_last();
        let last = cs.last();
        assert(rest =~= cs.take(cs.len() - 1));
        lemma_children_at(cs, cs.len() - 1);
        assert(cs.skip(cs.len() - 1 + 1) =~= Seq::<Arc<ChunkNode>>::empty());
        assert(children_descs(Seq::<Arc<ChunkNode>>::empty()) =~= Seq::<ChunkDesc>::empty());
        let pre = children_descs(rest);
        let all = children_descs(cs).push(desc);
        assert(children_descs(cs) =~= pre + node_descs(&*last));
        assert(all =~= pre + node_descs(&*last).push(desc));
        lemma_descs_ok_split(all, base, pre.len() as int);
        assert(all.take(pre.len() as int) =~= pre);
        assert(all.skip(pre.len() as int) =~= node_descs(&*last).push(desc));
    }

    /// The children after the right edge was rebuilt.
    proof fn lemma_rebuilt_children(
        rest: Seq<Arc<ChunkNode>>,
        rebuilt: Arc<ChunkNode>,
        carry: Option<Arc<ChunkNode>>,
        next: Seq<Arc<ChunkNode>>,
    )
        requires
            carry is Some ==> next == rest.push(rebuilt).push(carry->0),
            carry is None ==> next == rest.push(rebuilt),
            children_wf(rest),
            node_wf(&*rebuilt),
            opt_wf(carry),
        ensures
            children_wf(next),
            children_descs(next) == children_descs(rest) + (node_descs(&*rebuilt) + opt_descs(carry)),
    {
        let pre = children_descs(rest);
        lemma_children_concat(rest, seq![rebuilt]);
        lemma_children_single(rebuilt);
        assert(rest.push(rebuilt) =~= rest + seq![rebuilt]);
        match carry {
            Some(sibling) => {
                lemma_children_concat(rest.push(rebuilt), seq![sibling]);
                lemma_children_single(sibling);
                assert(next =~= rest.push(rebuilt) + seq![sibling]);
                assert(children_descs(next) =~= pre + (node_descs(&*rebuilt) + opt_descs(carry)));
            },
            None => {
                assert(children_descs(next) =~= pre + (node_descs(&*rebuilt) + opt_descs(carry)));
            },
        }
    }

    /// Inserts on the right edge; returns the rebuilt node plus an optional
    /// split sibling to link above.
    fn insert_right(node: Arc<ChunkNode>, desc: ChunkDesc, Ghost(base): Ghost<int>) -> (parts: (
        Arc<ChunkNode>,
        Option<Arc<ChunkNode>>,
    ))
        requires
            node_wf(&*node),
            descs_ok(node_descs(&*node).push(desc), base),
        ensures
            node_wf(&*parts.0),
            opt_wf(parts.1),
            node_descs(&*parts.0) + opt_descs(parts.1) == node_descs(&*node).push(desc),
        decreases node,
    {
        match &*node {
            ChunkNode::Leaf { descs, .. } => {
                let mut descs = copy_descs(descs);
                descs.push(desc);
                ChunkTree::leaf_or_split(descs, Ghost(base))
            },
            ChunkNode::Branch { children, .. } => {
                let ghost old_children = children@;
                let mut children = copy_children(children);
                let last = children.pop().unwrap();
                let ghost rest = children@;
                proof {
                    ChunkTree::lemma_last_child(old_children, desc, base);
                    assert(rest =~= old_children.drop_last());
                    assert(decreases_to!(node => last));
                }
                let ghost rest_text_len = descs_text(children_descs(rest)).len();
                let (rebuilt, carry) = ChunkTree::insert_right(last, desc, Ghost(base + rest_text_len));
                let ghost rebuilt_g = rebuilt;
                let ghost carry_g = carry;
                children.push(rebuilt);
                match carry {
                    Some(sibling) => { children.push(sibling); },
                    None => {},
                }
                proof {
                    ChunkTree::lemma_rebuilt_children(rest, rebuilt_g, carry_g, children@);
                    assert(children_descs(children@) =~= children_descs(old_children).push(desc));
                }
                ChunkTree::branch_or_split(children, Ghost(base))
            },
        }
    }

    /// Appends one descriptor on the right edge with B-tree splits, so
    /// repeated tiny appends keep logarithmic depth instead of chaining.
    pub fn append_desc(&self, desc: ChunkDesc, Ghost(base): Ghost<int>) -> (tree: Self)
        requires
            self.wf_at(base),
            desc.wf(),
            desc.start() == base + self.text().len(),
            desc.start() + desc.size() <= u64::MAX,
        ensures
            tree.wf_at(base),
            tree.descs() == self.descs().push(desc),
            tree.text() == self.text() + desc.view_bytes(),
    {
        let ghost all = self.descs().push(desc);
        proof {
            self.lemma_wf_bounds(base);
            lemma_descs_text_concat(self.descs(), seq![desc]);
            lemma_descs_text_single(desc);
            assert(all =~= self.descs() + seq![desc]);
            desc.lemma_wf();
            assert(descs_ok(seq![desc], base + descs_text(self.descs()).len())) by {
                assert(seq![desc].take(0) =~= Seq::<ChunkDesc>::empty());
                assert(descs_text(Seq::<ChunkDesc>::empty()) =~= Seq::<u8>::empty());
            }
            lemma_descs_ok_concat(self.descs(), seq![desc], base);
        }
        match &self.root {
            None => {
                let mut descs: Vec<ChunkDesc> = Vec::new();
                descs.push(desc);
                proof {
                    assert(descs@ =~= all);
                }
                ChunkTree { root: Some(ChunkNode::leaf_node(descs, Ghost(base))) }
            },
            Some(root) => {
                let (node, carry) = ChunkTree::insert_right(share(root), desc, Ghost(base));
                match carry {
                    None => {
                        proof {
                            assert(node_descs(&*node) =~= all);
                        }
                        ChunkTree { root: Some(node) }
                    },
                    Some(sibling) => {
                        let mut children: Vec<Arc<ChunkNode>> = Vec::new();
                        children.push(node);
                        children.push(sibling);
                        proof {
                            assert(children@ =~= seq![node] + seq![sibling]);
                            lemma_children_concat(seq![node], seq![sibling]);
                            lemma_children_single(node);
                            lemma_children_single(sibling);
                        }
                        ChunkTree { root: Some(ChunkNode::branch_node(children, Ghost(base))) }
                    },
                }
            },
        }
    }
}


/// The cut position inside a run of `len` bytes starting at `start`.
pub open spec fn cut_at(start: int, offset: int, len: int) -> int {
    if offset - start < len {
        offset - start
    } else {
        len
    }
}

/// `left` and `right` are the two halves of `d` cut at `offset`, which lies
/// strictly inside it: windows of its page on either side of the offset.
pub open spec fn halves_of(d: ChunkDesc, offset: int, left: ChunkDesc, right: ChunkDesc) -> bool {
    &&& d.start() < offset < d.start() + d.size()
    &&& left.start() == d.start()
    &&& right.start() == offset
    &&& left.view_bytes() == d.view_bytes().subrange(0, offset - d.start())
    &&& right.view_bytes() == d.view_bytes().subrange(offset - d.start(), d.size())
    &&& left.page_bytes() == d.page_bytes()
    &&& right.page_bytes() == d.page_bytes()
    &&& left.page_offset() == d.page_offset()
    &&& right.page_offset() == d.page_offset() + (offset - d.start())
}

/// `left` then `right` hold the descriptors of `ds` in order, each kept
/// whole, except at most one, the last of `left` and the first of `right`,
/// which are the halves of one descriptor cut at `offset`.
pub open spec fn cut_descs(ds: Seq<ChunkDesc>, offset: int, left: Seq<ChunkDesc>, right: Seq<ChunkDesc>) -> bool {
    ||| left + right == ds
    ||| {
        let k = left.len() - 1;
        &&& left.len() >= 1
        &&& right.len() >= 1
        &&& ds.len() == left.len() + right.len() - 1
        &&& left.take(k) == ds.take(k)
        &&& right.skip(1) == ds.skip(k + 1)
        &&& halves_of(ds[k], offset, left[k], right[0])
    }
}

/// Whole descriptors appended on both sides keep a cut a cut.
proof fn lemma_cut_descs_extend(
    pre: Seq<ChunkDesc>,
    ds: Seq<ChunkDesc>,
    post: Seq<ChunkDesc>,
    offset: int,
    left: Seq<ChunkDesc>,
    right: Seq<ChunkDesc>,
)
    requires
        cut_descs(ds, offset, left, right),
    ensures
        cut_descs(pre + ds + post, offset, pre + left, right + post),
{
    if left + right == ds {
        assert((pre + left) + (right + post) =~= pre + ds + post);
    } else {
        let k = left.len() - 1;
        let all = pre + ds + post;
        let l2 = pre + left;
        let r2 = right + post;
        let k2 = l2.len() - 1;
        assert(k2 == pre.len() + k);
        assert(l2.take(k2) =~= all.take(k2)) by {
            assert(l2.take(k2) =~= pre + left.take(k));
            assert(all.take(k2) =~= pre + ds.take(k));
        }
        assert(r2.skip(1) =~= all.skip(k2 + 1)) by {
            assert(r2.skip(1) =~= right.skip(1) + post);
            assert(all.skip(k2 + 1) =~= ds.skip(k + 1) + post);
        }
        assert(all[k2] == ds[k]);
        assert(l2[k2] == left[k]);
        assert(r2[0] == right[0]);
    }
}

impl ChunkTree {
    /// Splits the descriptors of one leaf at an absolute offset.
    fn split_leaf(descs: &Vec<ChunkDesc>, Ghost(abs_start): Ghost<int>, offset: u64) -> (parts: (
        Vec<ChunkDesc>,
        Vec<ChunkDesc>,
    ))
        requires
            descs_ok(descs@, abs_start),
            abs_start < offset,
        ensures
            descs_ok(parts.0@, abs_start),
            descs_ok(parts.1@, abs_start + cut_at(abs_start, offset as int, descs_text(descs@).len() as int)),
            descs_text(parts.0@) == descs_text(descs@).take(cut_at(abs_start, offset as int, descs_text(descs@).len() as int)),
            descs_text(parts.1@) == descs_text(descs@).skip(cut_at(abs_start, offset as int, descs_text(descs@).len() as int)),
            cut_descs(descs@, offset as int, parts.0@, parts.1@),
    {
        let ghost ds = descs@;
        let ghost k = offset - abs_start;
        let mut left: Vec<ChunkDesc> = Vec::new();
        let mut right: Vec<ChunkDesc> = Vec::new();
        let mut divided = false;
        let mut i: usize = 0;
        proof {
            assert(ds.take(0) =~= Seq::<ChunkDesc>::empty());
            assert(descs_text(Seq::<ChunkDesc>::empty()) =~= Seq::<u8>::empty());
        }
        while i < descs.len()
            invariant
                ds == descs@,
                descs_ok(ds, abs_start),
                k == offset - abs_start,
                k > 0,
                i <= ds.len(),
                descs_ok(left@, abs_start),
                !divided ==> right@.len() == 0 && left@ == ds.take(i as int) && descs_text(ds.take(i as int)).len() <= k,
                divided ==> cut_descs(ds.take(i as int), offset as int, left@, right@),
                divided ==> {
                    &&& k <= descs_text(ds.take(i as int)).len()
                    &&& descs_text(left@) == descs_text(ds.take(i as int)).take(k)
                    &&& descs_text(right@) == descs_text(ds.take(i as int)).skip(k)
                    &&& descs_ok(right@, offset as int)
                },
            decreases ds.len() - i,
        {
            let ghost ti = descs_text(ds.take(i as int));
            let d = &descs[i];
            proof {
                lemma_descs_text_at(ds, i as int);
                assert(d.wf());
                d.lemma_wf();
                lemma_descs_ok_split(ds, abs_start, i as int + 1);
                lemma_descs_ok_split(ds, abs_start, i as int);
            }
            let ghost ti1 = descs_text(ds.take(i as int + 1));
            if divided {
                proof {
                    lemma_descs_ok_push(right@, *d, offset as int);
                    assert(ti1.skip(k) =~= ti.skip(k) + d.view_bytes());
                    assert(ti1.take(k) =~= ti.take(k));
                }
                let ghost r0 = right@;
                right.push(d.duplicate());
                proof {
                    lemma_cut_descs_extend(Seq::empty(), ds.take(i as int), seq![*d], offset as int, left@, r0);
                    assert(Seq::<ChunkDesc>::empty() + ds.take(i as int) + seq![*d] =~= ds.take(i as int + 1));
                    assert(Seq::<ChunkDesc>::empty() + left@ =~= left@);
                    assert(r0 + seq![*d] =~= right@);
                }
                assert(descs_text(right@) == ti1.skip(k));
                assert(descs_text(left@) == ti1.take(k));
                assert(descs_ok(right@, offset as int));
            } else if offset <= d.abs_start {
                proof {
                    assert(Seq::<ChunkDesc>::empty().push(*d) =~= seq![*d]);
                    lemma_descs_ok_push(Seq::<ChunkDesc>::empty(), *d, offset as int);
                    assert(ti1.take(k) =~= ti);
                    assert(ti1.skip(k) =~= d.view_bytes());
                    assert(descs_text(seq![*d]) =~= d.view_bytes()) by { lemma_descs_text_single(*d); }
                }
                divided = true;
                right.push(d.duplicate());
                assert(right@ =~= seq![*d]);
                assert(left@ + right@ =~= ds.take(i as int + 1));
                assert(descs_text(right@) == ti1.skip(k));
                assert(descs_text(left@) == ti1.take(k));
                assert(descs_ok(right@, offset as int));
            } else if offset >= d.end() {
                proof {
                    lemma_descs_ok_push(left@, *d, abs_start);
                    assert(ds.take(i as int + 1) =~= ds.take(i as int).push(*d));
                }
                left.push(d.duplicate());
            } else {
                let halves = d.split_at(offset);
                match halves {
                    Some((before, after)) => {
                        proof {
                            lemma_descs_ok_push(left@, before, abs_start);
                            assert(Seq::<ChunkDesc>::empty().push(after) =~= seq![after]);
                            lemma_descs_ok_push(Seq::<ChunkDesc>::empty(), after, offset as int);
                            let j = offset - d.start();
                            assert(ti1.take(k) =~= ti + d.view_bytes().subrange(0, j));
                            assert(ti1.skip(k) =~= d.view_bytes().subrange(j, d.size()));
                        }
                        divided = true;
                        left.push(before);
                        right.push(after);
                        assert(right@ =~= seq![after]);
                        proof {
                            let t1 = ds.take(i as int + 1);
                            assert(left@.take(i as int) =~= t1.take(i as int));
                            assert(right@.skip(1) =~= t1.skip(i as int + 1));
                            assert(t1[i as int] == *d);
                            assert(halves_of(t1[i as int], offset as int, left@[i as int], right@[0]));
                        }
                        assert(descs_text(right@) == ti1.skip(k));
                        assert(descs_text(left@) == ti1.take(k));
                        assert(descs_ok(right@, offset as int));
                    },
                    None => {},
                }
            }
            i += 1;
        }
        proof {
            assert(ds.take(ds.len() as int) =~= ds);
            let t = descs_text(ds);
            if !divided {
                assert(t.take(t.len() as int) =~= t);
                assert(t.skip(t.len() as int) =~= Seq::<u8>::empty());
                assert(descs_text(right@) =~= Seq::<u8>::empty());
                assert(left@ + right@ =~= ds);
            }
        }
        (left, right)
    }
}


/// The `i`-th child of a laid-out run is itself laid out where the
/// children before it end.
pub proof fn lemma_child_laid(cs: Seq<Arc<ChunkNode>>, i: int, base: int)
    requires
        0 <= i < cs.len(),
        children_wf(cs),
        descs_ok(children_descs(cs), base),
    ensures
        node_wf(&*cs[i]),
        children_descs(cs.take(i + 1)) == children_descs(cs.take(i)) + node_descs(&*cs[i]),
        descs_text(children_descs(cs.take(i + 1))) == descs_text(children_descs(cs.take(i))) + descs_text(node_descs(&*cs[i])),
        descs_ok(node_descs(&*cs[i]), base + descs_text(children_descs(cs.take(i))).len()),
        descs_ok(children_descs(cs.take(i)), base),
        descs_ok(children_descs(cs.take(i + 1)), base),
{
    lemma_children_at(cs, i);
    let pre = children_descs(cs.take(i));
    let mid = node_descs(&*cs[i]);
    let all = children_descs(cs);
    lemma_descs_text_concat(pre, mid);
    assert(all =~= (pre + mid) + children_descs(cs.skip(i + 1)));
    lemma_descs_ok_split(all, base, (pre + mid).len() as int);
    assert(all.take((pre + mid).len() as int) =~= pre + mid);
    lemma_descs_ok_split(pre + mid, base, pre.len() as int);
    assert((pre + mid).take(pre.len() as int) =~= pre);
    assert((pre + mid).skip(pre.len() as int) =~= mid);
}

/// Appending one subtree to a run of subtrees.
pub proof fn lemma_children_push(cs: Seq<Arc<ChunkNode>>, c: Arc<ChunkNode>)
    ensures
        children_descs(cs.push(c)) == children_descs(cs) + node_descs(&*c),
        children_wf(cs.push(c)) == (children_wf(cs) && node_wf(&*c)),
{
    lemma_children_concat(cs, seq![c]);
    lemma_children_single(c);
    assert(cs.push(c) =~= cs + seq![c]);
}

impl ChunkTree {
    /// Splits a subtree at an absolute offset past its start: the left part
    /// holds the bytes before the offset, the right part the rest.
    fn split_node(node: &Arc<ChunkNode>, abs_start: u64, offset: u64) -> (parts: (
        Option<Arc<ChunkNode>>,
        Option<Arc<ChunkNode>>,
    ))
        requires
            node_wf(&**node),
            descs_ok(node_descs(&**node), abs_start as int),
            abs_start < offset,
        ensures
            opt_wf(parts.0),
            opt_wf(parts.1),
            descs_ok(opt_descs(parts.0), abs_start as int),
            descs_ok(
                opt_descs(parts.1),
                abs_start + cut_at(abs_start as int, offset as int, descs_text(node_descs(&**node)).len() as int),
            ),
            descs_text(opt_descs(parts.0)) == descs_text(node_descs(&**node)).take(
                cut_at(abs_start as int, offset as int, descs_text(node_descs(&**node)).len() as int),
            ),
            descs_text(opt_descs(parts.1)) == descs_text(node_descs(&**node)).skip(
                cut_at(abs_start as int, offset as int, descs_text(node_descs(&**node)).len() as int),
            ),
            cut_descs(node_descs(&**node), offset as int, opt_descs(parts.0), opt_descs(parts.1)),
            (**node) is Leaf ==> (parts.0 matches Some(l) ==> (*l) is Leaf && node_leaves(&*l) == 1),
            (**node) is Leaf ==> (parts.1 matches Some(r) ==> (*r) is Leaf && node_leaves(&*r) == 1),
        decreases node,
    {
        match &**node {
            ChunkNode::Leaf { descs, .. } => {
                let (left, right) = ChunkTree::split_leaf(descs, Ghost(abs_start as int), offset);
                let ghost c = cut_at(abs_start as int, offset as int, descs_text(descs@).len() as int);
                proof {
                    assert(descs_text(Seq::<ChunkDesc>::empty()) =~= Seq::<u8>::empty());
                }
                let l = if left.len() > 0 {
                    Some(ChunkNode::leaf_node(left, Ghost(abs_start as int)))
                } else {
                    proof {
                        assert(left@ =~= Seq::<ChunkDesc>::empty());
                    }
                    None
                };
                let r = if right.len() > 0 {
                    Some(ChunkNode::leaf_node(right, Ghost(abs_start + c)))
                } else {
                    proof {
                        assert(right@ =~= Seq::<ChunkDesc>::empty());
                    }
                    None
                };
                (l, r)
            },
            ChunkNode::Branch { children, .. } => {
                let ghost cs = children@;
                let ghost k = offset - abs_start;
                let mut left: Vec<Arc<ChunkNode>> = Vec::new();
                let mut right: Vec<Arc<ChunkNode>> = Vec::new();
                let mut cursor: u64 = abs_start;
                let mut divided = false;
                let mut i: usize = 0;
                proof {
                    assert(cs.take(0) =~= Seq::<Arc<ChunkNode>>::empty());
                    assert(children_descs(Seq::<Arc<ChunkNode>>::empty()) =~= Seq::<ChunkDesc>::empty());
                    assert(descs_text(Seq::<ChunkDesc>::empty()) =~= Seq::<u8>::empty());
                    assert(left@ =~= Seq::<Arc<ChunkNode>>::empty());
                }
                while i < children.len()
                    invariant
                        cs == children@,
                        node_wf(&**node),
                        (**node) is Branch && (**node)->Branch_children == *children,
                        children_wf(cs),
                        descs_ok(children_descs(cs), abs_start as int),
                        k == offset - abs_start,
                        k > 0,
                        i <= cs.len(),
                        cursor == abs_start + descs_text(children_descs(cs.take(i as int))).len(),
                        children_wf(left@),
                        children_wf(right@),
                        descs_ok(children_descs(left@), abs_start as int),
                        !divided ==> right@.len() == 0 && children_descs(left@) == children_descs(cs.take(i as int))
                            && descs_text(children_descs(cs.take(i as int))).len() <= k,
                        divided ==> cut_descs(children_descs(cs.take(i as int)), offset as int, children_descs(left@),
                            children_descs(right@)),
                        divided ==> {
                            &&& k <= descs_text(children_descs(cs.take(i as int))).len()
                            &&& descs_text(children_descs(left@)) == descs_text(children_descs(cs.take(i as int))).take(k)
                            &&& descs_text(children_descs(right@)) == descs_text(children_descs(cs.take(i as int))).skip(k)
                            &&& descs_ok(children_descs(right@), offset as int)
                        },
                    decreases cs.len() - i,
                {
                    let child = &children[i];
                    let ghost ti = descs_text(children_descs(cs.take(i as int)));
                    let ghost ci = descs_text(node_descs(&**child));
                    proof {
                        lemma_child_laid(cs, i as int, abs_start as int);
                    }
                    let ghost ti1 = descs_text(children_descs(cs.take(i as int + 1)));
                    let child_end = cursor + child.bytes();
                    if divided {
                        proof {
                            lemma_children_push(right@, *child);
                            lemma_descs_text_concat(children_descs(right@), node_descs(&**child));
                            lemma_descs_ok_concat(children_descs(right@), node_descs(&**child), offset as int);
                            assert(ti1.skip(k) =~= ti.skip(k) + ci);
                            assert(ti1.take(k) =~= ti.take(k));
                            let pre = children_descs(cs.take(i as int));
                            lemma_cut_descs_extend(Seq::empty(), pre, node_descs(&**child), offset as int,
                                children_descs(left@), children_descs(right@));
                            assert(cs.take(i as int + 1) =~= cs.take(i as int).push(*child));
                            lemma_children_push(cs.take(i as int), *child);
                            assert(Seq::<ChunkDesc>::empty() + pre + node_descs(&**child) =~= pre + node_descs(&**child));
                            assert(Seq::<ChunkDesc>::empty() + children_descs(left@) =~= children_descs(left@));
                        }
                        right.push(share(child));
                    } else if offset <= cursor {
                        proof {
                            assert(right@ =~= Seq::<Arc<ChunkNode>>::empty());
                            lemma_children_push(Seq::<Arc<ChunkNode>>::empty(), *child);
                            assert(children_descs(Seq::<Arc<ChunkNode>>::empty()) =~= Seq::<ChunkDesc>::empty());
                            assert(Seq::<ChunkDesc>::empty() + node_descs(&**child) =~= node_descs(&**child));
                            assert(ti1.take(k) =~= ti);
                            assert(ti1.skip(k) =~= ci);
                            assert(Seq::<Arc<ChunkNode>>::empty().push(*child) =~= seq![*child]);
                        }
                        divided = true;
                        right.push(share(child));
                        proof {
                            assert(right@ =~= Seq::<Arc<ChunkNode>>::empty().push(*child));
                            assert(cs.take(i as int + 1) =~= cs.take(i as int).push(*child));
                            lemma_children_push(cs.take(i as int), *child);
                            assert(children_descs(left@) + children_descs(right@) =~= children_descs(cs.take(i as int + 1)));
                        }
                    } else if offset >= child_end {
                        proof {
                            lemma_children_push(left@, *child);
                            lemma_descs_ok_concat(children_descs(left@), node_descs(&**child), abs_start as int);
                            assert(cs.take(i as int + 1) =~= cs.take(i as int).push(*child));
                        }
                        left.push(share(child));
                    } else {
                        proof {
                            assert(decreases_to!(node => *child)) by {
                                assert(decreases_to!(**node => *children));
                                assert(decreases_to!(*children => cs[i as int]));
                            }
                        }
                        let (l, r) = ChunkTree::split_node(child, cursor, offset);
                        let ghost c = offset - cursor;
                        let ghost pre = children_descs(cs.take(i as int));
                        proof {
                            lemma_cut_descs_extend(pre, node_descs(&**child), Seq::empty(), offset as int,
                                opt_descs(l), opt_descs(r));
                            assert(cs.take(i as int + 1) =~= cs.take(i as int).push(*child));
                            lemma_children_push(cs.take(i as int), *child);
                            assert(pre + node_descs(&**child) + Seq::<ChunkDesc>::empty() =~= children_descs(cs.take(i as int + 1)));
                            assert(opt_descs(r) + Seq::<ChunkDesc>::empty() =~= opt_descs(r));
                            assert(right@ =~= Seq::<Arc<ChunkNode>>::empty());
                            assert(cut_at(cursor as int, offset as int, ci.len() as int) == c);
                            assert(ti1.take(k) =~= ti + ci.take(c));
                            assert(ti1.skip(k) =~= ci.skip(c));
                            lemma_descs_text_concat(children_descs(left@), opt_descs(l));
                            lemma_descs_ok_concat(children_descs(left@), opt_descs(l), abs_start as int);
                        }
                        match l {
                            Some(part) => {
                                proof {
                                    lemma_children_push(left@, part);
                                }
                                left.push(part);
                            },
                            None => {
                                proof {
                                    assert(children_descs(left@) + opt_descs(None) =~= children_descs(left@));
                                }
                            },
                        }
                        match r {
                            Some(part) => {
                                proof {
                                    lemma_children_push(Seq::<Arc<ChunkNode>>::empty(), part);
                                    assert(children_descs(Seq::<Arc<ChunkNode>>::empty()) =~= Seq::<ChunkDesc>::empty());
                                    assert(Seq::<ChunkDesc>::empty() + node_descs(&*part) =~= node_descs(&*part));
                                }
                                right.push(part);
                            },
                            None => {
                                proof {
                                    assert(children_descs(right@) =~= Seq::<ChunkDesc>::empty());
                                }
                            },
                        }
                        proof {
                            assert(children_descs(left@) == pre + opt_descs(l));
                            assert(children_descs(right@) == opt_descs(r));
                        }
                        divided = true;
                    }
                    cursor = child_end;
                    i += 1;
                }
                proof {
                    assert(cs.take(cs.len() as int) =~= cs);
                    let t = descs_text(children_descs(cs));
                    if !divided {
                        assert(t.take(t.len() as int) =~= t);
                        assert(t.skip(t.len() as int) =~= Seq::<u8>::empty());
                        assert(children_descs(right@) =~= Seq::<ChunkDesc>::empty());
                        assert(descs_text(Seq::<ChunkDesc>::empty()) =~= Seq::<u8>::empty());
                        assert(children_descs(left@) + children_descs(right@) =~= children_descs(cs));
                    }
                }
                let ghost c = cut_at(abs_start as int, offset as int, descs_text(children_descs(cs)).len() as int);
                let l = if left.len() > 0 {
                    Some(ChunkNode::branch_node(left, Ghost(abs_start as int)))
                } else {
                    proof {
                        assert(left@ =~= Seq::<Arc<ChunkNode>>::empty());
                        assert(children_descs(Seq::<Arc<ChunkNode>>::empty()) =~= Seq::<ChunkDesc>::empty());
                    }
                    None
                };
                let r = if right.len() > 0 {
                    Some(ChunkNode::branch_node(right, Ghost(abs_start + c)))
                } else {
                    proof {
                        assert(right@ =~= Seq::<Arc<ChunkNode>>::empty());
                        assert(children_descs(Seq::<Arc<ChunkNode>>::empty()) =~= Seq::<ChunkDesc>::empty());
                    }
                    None
                };
                (l, r)
            },
        }
    }
}


impl ChunkTree {
    /// Splits into the bytes before an absolute offset and the rest.
    /// Pages are shared; only the boundary view is re-described.
    pub fn split_at(&self, base: u64, offset: u64) -> (halves: (Self, Self))
        requires
            self.wf_at(base as int),
        ensures
            ({
                let c = if offset <= base { 0 } else { cut_at(base as int, offset as int, self.text().len() as int) };
                &&& halves.0.wf_at(base as int)
                &&& halves.1.wf_at(base + c)
                &&& halves.0.text() == self.text().take(c)
                &&& halves.1.text() == self.text().skip(c)
            }),
            cut_descs(self.descs(), offset as int, halves.0.descs(), halves.1.descs()),
    {
        proof {
            self.lemma_wf_bounds(base as int);
            assert(descs_text(Seq::<ChunkDesc>::empty()) =~= Seq::<u8>::empty());
        }
        match &self.root {
            None => {
                proof {
                    assert(self.text().take(0) =~= Seq::<u8>::empty());
                    assert(self.text().skip(0) =~= Seq::<u8>::empty());
                }
                let halves = (ChunkTree::empty(), ChunkTree::empty());
                proof {
                    assert(halves.0.descs() + halves.1.descs() =~= self.descs());
                }
                halves
            },
            Some(root) => {
                if offset <= base {
                    proof {
                        assert(self.text().take(0) =~= Seq::<u8>::empty());
                        assert(self.text().skip(0) =~= self.text());
                    }
                    let halves = (ChunkTree::empty(), self.share());
                    proof {
                        assert(halves.0.descs() + halves.1.descs() =~= self.descs());
                    }
                    halves
                } else {
                    let (left, right) = ChunkTree::split_node(root, base, offset);
                    (ChunkTree { root: left }, ChunkTree { root: right })
                }
            },
        }
    }

    /// Drops the bytes before an absolute offset; reports how many
    /// coordinates the head moved.
    pub fn truncated_head(&self, base: u64, offset: u64) -> (result: (Self, u64))
        requires
            self.wf_at(base as int),
        ensures
            ({
                let c = if offset <= base { 0 } else { cut_at(base as int, offset as int, self.text().len() as int) };
                &&& result.0.wf_at(base + c)
                &&& result.0.text() == self.text().skip(c)
                &&& result.1 == if offset <= base { 0 } else { offset - base }
            }),
    {
        if offset <= base {
            proof {
                assert(self.text().skip(0) =~= self.text());
            }
            return (self.share(), 0);
        }
        let dropped = offset - base;
        let (_left, right) = self.split_at(base, offset);
        (right, dropped)
    }

    /// Appends the descriptors of a subtree to `out`, left to right.
    fn collect_leaves(node: &Arc<ChunkNode>, out: &mut Vec<ChunkDesc>)
        requires
            node_wf(&**node),
        ensures
            final(out)@ == old(out)@ + node_descs(&**node),
        decreases node,
    {
        match &**node {
            ChunkNode::Leaf { descs, .. } => {
                let ghost start = out@;
                let mut i: usize = 0;
                while i < descs.len()
                    invariant
                        i <= descs@.len(),
                        out@ == start + descs@.take(i as int),
                    decreases descs@.len() - i,
                {
                    out.push(descs[i].duplicate());
                    i += 1;
                    assert(out@ =~= start + descs@.take(i as int));
                }
                assert(descs@.take(descs@.len() as int) =~= descs@);
            },
            ChunkNode::Branch { children, .. } => {
                let ghost cs = children@;
                let ghost start = out@;
                let mut i: usize = 0;
                proof {
                    assert(cs.take(0) =~= Seq::<Arc<ChunkNode>>::empty());
                    assert(children_descs(Seq::<Arc<ChunkNode>>::empty()) =~= Seq::<ChunkDesc>::empty());
                    assert(start + Seq::<ChunkDesc>::empty() =~= start);
                }
                while i < children.len()
                    invariant
                        cs == children@,
                        (**node) is Branch && (**node)->Branch_children == *children,
                        children_wf(cs),
                        i <= cs.len(),
                        out@ == start + children_descs(cs.take(i as int)),
                    decreases cs.len() - i,
                {
                    proof {
                        lemma_children_at(cs, i as int);
                        assert(decreases_to!(node => cs[i as int])) by {
                            assert(decreases_to!(**node => *children));
                            assert(decreases_to!(*children => cs[i as int]));
                        }
                    }
                    ChunkTree::collect_leaves(&children[i], out);
                    i += 1;
                    assert(out@ =~= start + children_descs(cs.take(i as int)));
                }
                assert(cs.take(cs.len() as int) =~= cs);
            },
        }
    }

    /// Ordered descriptor views, for text materialization and projection.
    pub fn iter_descs(&self) -> (descs: Vec<ChunkDesc>)
        requires
            self.wf(),
        ensures
            descs@ == self.descs(),
    {
        let mut out: Vec<ChunkDesc> = Vec::new();
        match &self.root {
            Some(root) => {
                ChunkTree::collect_leaves(root, &mut out);
                assert(out@ =~= self.descs());
            },
            None => {
                assert(out@ =~= self.descs());
            },
        }
        out
    }

    /// The descriptor holding an absolute offset inside a subtree laid out
    /// from `abs_start`.
    fn locate_node<'a>(node: &'a Arc<ChunkNode>, abs_start: u64, offset: u64) -> (found: Option<&'a ChunkDesc>)
        requires
            node_wf(&**node),
            descs_ok(node_descs(&**node), abs_start as int),
        ensures
            found is Some <==> abs_start <= offset < abs_start + descs_text(node_descs(&**node)).len(),
            found matches Some(d) ==> {
                &&& d.wf()
                &&& d.start() <= offset < d.start() + d.size()
                &&& d.view_bytes()[offset - d.start()] == descs_text(node_descs(&**node))[offset - abs_start]
                &&& node_descs(&**node).contains(*d)
            },
        decreases node,
    {
        match &**node {
            ChunkNode::Leaf { descs, .. } => {
                let ghost ds = descs@;
                let mut i: usize = 0;
                proof {
                    assert(ds.take(0) =~= Seq::<ChunkDesc>::empty());
                    assert(descs_text(Seq::<ChunkDesc>::empty()) =~= Seq::<u8>::empty());
                }
                while i < descs.len()
                    invariant
                        ds == descs@,
                        (**node) is Leaf && (**node)->Leaf_descs == *descs,
                        descs_ok(ds, abs_start as int),
                        i <= ds.len(),
                        offset < abs_start || offset >= abs_start + descs_text(ds.take(i as int)).len(),
                    decreases ds.len() - i,
                {
                    let d = &descs[i];
                    proof {
                        lemma_descs_text_at(ds, i as int);
                        assert(d.wf());
                        d.lemma_wf();
                        lemma_descs_ok_split(ds, abs_start as int, i as int + 1);
                    }
                    if offset >= d.abs_start && offset < d.end() {
                        proof {
                            let t = descs_text(ds);
                            let pre = descs_text(ds.take(i as int));
                            let rel = offset - abs_start;
                            assert(t[rel] == d.view_bytes()[rel - pre.len()]);
                            assert(ds[i as int] == *d);
                        }
                        return Some(d);
                    }
                    i += 1;
                }
                assert(ds.take(ds.len() as int) =~= ds);
                None
            },
            ChunkNode::Branch { children, .. } => {
                let ghost cs = children@;
                let mut cursor: u64 = abs_start;
                let mut i: usize = 0;
                proof {
                    assert(cs.take(0) =~= Seq::<Arc<ChunkNode>>::empty());
                    assert(children_descs(Seq::<Arc<ChunkNode>>::empty()) =~= Seq::<ChunkDesc>::empty());
                    assert(descs_text(Seq::<ChunkDesc>::empty()) =~= Seq::<u8>::empty());
                }
                while i < children.len()
                    invariant
                        cs == children@,
                        (**node) is Branch && (**node)->Branch_children == *children,
                        children_wf(cs),
                        descs_ok(children_descs(cs), abs_start as int),
                        i <= cs.len(),
                        cursor == abs_start + descs_text(children_descs(cs.take(i as int))).len(),
                        offset < abs_start || offset >= cursor,
                    decreases cs.len() - i,
                {
                    let child = &children[i];
                    proof {
                        lemma_child_laid(cs, i as int, abs_start as int);
                    }
                    let end = cursor + child.bytes();
                    if offset >= cursor && offset < end {
                        proof {
                            assert(decreases_to!(node => *child)) by {
                                assert(decreases_to!(**node => *children));
                                assert(decreases_to!(*children => cs[i as int]));
                            }
                            let t = descs_text(children_descs(cs));
                            let cd = children_descs(cs);
                            let pre = children_descs(cs.take(i as int));
                            let mid = node_descs(&**child);
                            lemma_children_at(cs, i as int);
                            assert(cd =~= (pre + mid) + children_descs(cs.skip(i as int + 1)));
                            lemma_descs_text_concat(pre + mid, children_descs(cs.skip(i as int + 1)));
                            lemma_descs_text_concat(pre, mid);
                            let rel = offset - abs_start;
                            assert(t[rel] == descs_text(mid)[rel - descs_text(pre).len()]);
                        }
                        let found = ChunkTree::locate_node(child, cursor, offset);
                        proof {
                            if let Some(d) = found {
                                let pre = children_descs(cs.take(i as int));
                                let mid = node_descs(&**child);
                                let k = choose|k: int| 0 <= k < mid.len() && mid[k] == *d;
                                assert(children_descs(cs)[pre.len() + k] == *d);
                            }
                        }
                        return found;
                    }
                    cursor = end;
                    i += 1;
                }
                assert(cs.take(cs.len() as int) =~= cs);
                None
            },
        }
    }

    /// The descriptor bytes holding an absolute offset, and the offset's
    /// index in them. `None` outside the retained range.
    pub fn locate(&self, base: u64, offset: u64) -> (found: Option<(&[u8], usize)>)
        requires
            self.wf_at(base as int),
        ensures
            found is Some <==> base <= offset < base + self.text().len(),
            found matches Some((bytes, local)) ==> local < bytes@.len() && bytes@[local as int] == self.text()[offset - base],
    {
        match &self.root {
            None => {
                proof {
                    assert(descs_text(Seq::<ChunkDesc>::empty()) =~= Seq::<u8>::empty());
                }
                None
            },
            Some(root) => {
                if offset < base || offset >= base + root.bytes() {
                    return None;
                }
                match ChunkTree::locate_node(root, base, offset) {
                    Some(desc) => {
                        let local = (offset - desc.abs_start) as usize;
                        proof {
                            desc.lemma_wf();
                        }
                        Some((desc.bytes(), local))
                    },
                    None => None,
                }
            },
        }
    }

    /// The byte at an absolute offset.
    pub fn byte_at(&self, base: u64, offset: u64) -> (byte: Option<u8>)
        requires
            self.wf_at(base as int),
        ensures
            byte == if base <= offset < base + self.text().len() {
                Some(self.text()[offset - base])
            } else {
                None
            },
    {
        match self.locate(base, offset) {
            Some((bytes, local)) => Some(bytes[local]),
            None => None,
        }
    }
}


/// Line starts of a range laid out from `base`: the base itself, then the
/// position just past each newline, in increasing order.
pub open spec fn line_starts(base: int, t: Seq<u8>) -> Seq<int> {
    seq![base] + shift(nl_ends(t), base)
}

/// Newline positions of three joined pieces, located piece by piece.
pub proof fn lemma_nl_mid(a: Seq<u8>, b: Seq<u8>, c: Seq<u8>)
    ensures
        nl_count(a + b + c) == nl_count(a) + nl_count(b) + nl_count(c),
        nl_count(a + b) == nl_count(a) + nl_count(b),
        forall|q: int| 0 <= q < nl_count(b) ==> #[trigger] nl_ends(a + b + c)[nl_count(a) + q] == a.len() + nl_ends(b)[q],
        forall|j: int| 0 <= j < nl_count(a) ==> #[trigger] nl_ends(a + b + c)[j] == nl_ends(a)[j],
{
    lemma_nl_ends_concat(a, b);
    lemma_nl_ends_concat(a + b, c);
    assert forall|q: int| 0 <= q < nl_count(b) implies #[trigger] nl_ends(a + b + c)[nl_count(a) + q] == a.len() + nl_ends(b)[q] by {
        assert(nl_ends(a + b + c)[nl_count(a) + q] == nl_ends(a + b)[nl_count(a) + q]);
    }
    assert forall|j: int| 0 <= j < nl_count(a) implies #[trigger] nl_ends(a + b + c)[j] == nl_ends(a)[j] by {
        assert(nl_ends(a + b + c)[j] == nl_ends(a + b)[j]);
    }
}

impl ChunkTree {
    /// Absolute offset just past the `n`-th newline (0-based) of a subtree
    /// laid out from `abs_start`.
    fn nth_newline_end(node: &Arc<ChunkNode>, n: u64, Ghost(abs_start): Ghost<int>) -> (end: u64)
        requires
            node_wf(&**node),
            descs_ok(node_descs(&**node), abs_start),
            n < nl_count(descs_text(node_descs(&**node))),
        ensures
            end == abs_start + nl_ends(descs_text(node_descs(&**node)))[n as int],
        decreases node,
    {
        let ghost t = descs_text(node_descs(&**node));
        proof {
            lemma_nl_ends_props(t);
        }
        match &**node {
            ChunkNode::Leaf { descs, .. } => {
                let ghost ds = descs@;
                let mut m: u64 = n;
                let mut i: usize = 0;
                proof {
                    assert(ds.take(0) =~= Seq::<ChunkDesc>::empty());
                    assert(descs_text(Seq::<ChunkDesc>::empty()) =~= Seq::<u8>::empty());
                    assert(nl_ends(Seq::<u8>::empty()) =~= Seq::<int>::empty());
                }
                while i < descs.len()
                    invariant
                        ds == descs@,
                        (**node) is Leaf && (**node)->Leaf_descs == *descs,
                        t == descs_text(ds),
                        descs_ok(ds, abs_start),
                        i <= ds.len(),
                        m + nl_count(descs_text(ds.take(i as int))) == n,
                        n < nl_count(t),
                    decreases ds.len() - i,
                {
                    let d = &descs[i];
                    let ghost pre = descs_text(ds.take(i as int));
                    proof {
                        lemma_descs_text_at(ds, i as int);
                        lemma_nl_mid(pre, d.view_bytes(), descs_text(ds.skip(i as int + 1)));
                        assert(d.wf());
                        lemma_descs_ok_split(ds, abs_start, i as int);
                    }
                    let count = d.newlines();
                    if m < count {
                        proof {
                            assert(nl_ends(t)[nl_count(pre) + m] == pre.len() + nl_ends(d.view_bytes())[m as int]);
                            assert(d.line_offsets@[m as int] as int == nl_ends(d.view_bytes())[m as int]);
                            lemma_nl_ends_props(d.view_bytes());
                            d.lemma_wf();
                        }
                        return d.abs_start + d.line_offsets[m as usize] as u64;
                    }
                    m = m - count;
                    i += 1;
                }
                proof {
                    assert(ds.take(ds.len() as int) =~= ds);
                }
                0
            },
            ChunkNode::Branch { children, .. } => {
                let ghost cs = children@;
                let mut m: u64 = n;
                let ghost mut cursor: int = abs_start;
                let mut i: usize = 0;
                proof {
                    assert(cs.take(0) =~= Seq::<Arc<ChunkNode>>::empty());
                    assert(children_descs(Seq::<Arc<ChunkNode>>::empty()) =~= Seq::<ChunkDesc>::empty());
                    assert(descs_text(Seq::<ChunkDesc>::empty()) =~= Seq::<u8>::empty());
                    assert(nl_ends(Seq::<u8>::empty()) =~= Seq::<int>::empty());
                    ChunkTree::lemma_node_bounds(&**node, abs_start);
                }
                while i < children.len()
                    invariant
                        cs == children@,
                        (**node) is Branch && (**node)->Branch_children == *children,
                        t == descs_text(children_descs(cs)),
                        children_wf(cs),
                        descs_ok(children_descs(cs), abs_start),
                        i <= cs.len(),
                        cursor == abs_start + descs_text(children_descs(cs.take(i as int))).len(),
                        m + nl_count(descs_text(children_descs(cs.take(i as int)))) == n,
                        n < nl_count(t),
                    decreases cs.len() - i,
                {
                    let child = &children[i];
                    let ghost pre = descs_text(children_descs(cs.take(i as int)));
                    let ghost mid = descs_text(node_descs(&**child));
                    proof {
                        lemma_child_laid(cs, i as int, abs_start);
                        lemma_children_at(cs, i as int);
                        let cd = children_descs(cs);
                        assert(cd =~= (children_descs(cs.take(i as int)) + node_descs(&**child)) + children_descs(cs.skip(i as int + 1)));
                        lemma_descs_text_concat(children_descs(cs.take(i as int)) + node_descs(&**child), children_descs(cs.skip(i as int + 1)));
                        lemma_descs_text_concat(children_descs(cs.take(i as int)), node_descs(&**child));
                        lemma_nl_mid(pre, mid, descs_text(children_descs(cs.skip(i as int + 1))));
                    }
                    let count = child.newlines();
                    if m < count {
                        proof {
                            assert(decreases_to!(node => *child)) by {
                                assert(decreases_to!(**node => *children));
                                assert(decreases_to!(*children => cs[i as int]));
                            }
                            assert(nl_ends(t)[nl_count(pre) + m] == pre.len() + nl_ends(mid)[m as int]);
                        }
                        return ChunkTree::nth_newline_end(child, m, Ghost(cursor));
                    }
                    m = m - count;
                    proof {
                        cursor = cursor + mid.len();
                    }
                    i += 1;
                }
                proof {
                    assert(cs.take(cs.len() as int) =~= cs);
                }
                0
            },
        }
    }

    /// Bounds of a laid-out subtree.
    proof fn lemma_node_bounds(n: &ChunkNode, abs_start: int)
        requires
            node_wf(n),
            descs_ok(node_descs(n), abs_start),
        ensures
            0 <= abs_start,
            abs_start + descs_text(node_descs(n)).len() <= u64::MAX,
    {
    }

    /// Entry `0` is the range base; entry `i > 0` follows the `(i-1)`-th
    /// newline. `None` past the last entry.
    pub fn line_entry(&self, base: u64, index: u64) -> (entry: Option<u64>)
        requires
            self.wf_at(base as int),
        ensures
            entry == if index < line_starts(base as int, self.text()).len() {
                Some(line_starts(base as int, self.text())[index as int] as u64)
            } else {
                None::<u64>
            },
    {
        let ghost t = self.text();
        proof {
            lemma_nl_ends_props(t);
            self.lemma_wf_bounds(base as int);
        }
        if index == 0 {
            return Some(base);
        }
        match &self.root {
            None => {
                proof {
                    assert(nl_ends(Seq::<u8>::empty()) =~= Seq::<int>::empty());
                    assert(descs_text(Seq::<ChunkDesc>::empty()) =~= Seq::<u8>::empty());
                }
                None
            },
            Some(root) => {
                if index > root.newlines() {
                    return None;
                }
                let end = ChunkTree::nth_newline_end(root, index - 1, Ghost(base as int));
                Some(end)
            },
        }
    }
}


/// `idx` is the first newline end of `t`, shifted by `s`, that lies at
/// or after `target`.
pub open spec fn first_nl_at(t: Seq<u8>, s: int, target: int, idx: int) -> bool {
    &&& 0 <= idx < nl_count(t)
    &&& s + nl_ends(t)[idx] >= target
    &&& forall|j: int| 0 <= j < idx ==> s + #[trigger] nl_ends(t)[j] < target
}

/// The text of a run of subtrees around its `i`-th member.
pub proof fn lemma_child_text(cs: Seq<Arc<ChunkNode>>, i: int, base: int)
    requires
        0 <= i < cs.len(),
        children_wf(cs),
        descs_ok(children_descs(cs), base),
    ensures
        ({
            let pre = descs_text(children_descs(cs.take(i)));
            let mid = descs_text(node_descs(&*cs[i]));
            let post = descs_text(children_descs(cs.skip(i + 1)));
            let t = descs_text(children_descs(cs));
            &&& t == pre + mid + post
            &&& descs_text(children_descs(cs.take(i + 1))) == pre + mid
            &&& nl_count(t) == nl_count(pre) + nl_count(mid) + nl_count(post)
            &&& nl_count(pre + mid) == nl_count(pre) + nl_count(mid)
            &&& forall|q: int| 0 <= q < nl_count(mid) ==> #[trigger] nl_ends(t)[nl_count(pre) + q] == pre.len() + nl_ends(mid)[q]
            &&& forall|j: int| 0 <= j < nl_count(pre) ==> #[trigger] nl_ends(t)[j] == nl_ends(pre)[j]
        }),
        node_wf(&*cs[i]),
        descs_ok(node_descs(&*cs[i]), base + descs_text(children_descs(cs.take(i))).len()),
        base + descs_text(children_descs(cs.take(i + 1))).len() <= u64::MAX,
{
    lemma_child_laid(cs, i, base);
    lemma_children_at(cs, i);
    let cd = children_descs(cs);
    assert(cd =~= (children_descs(cs.take(i)) + node_descs(&*cs[i])) + children_descs(cs.skip(i + 1)));
    lemma_descs_text_concat(children_descs(cs.take(i)) + node_descs(&*cs[i]), children_descs(cs.skip(i + 1)));
    lemma_descs_text_concat(children_descs(cs.take(i)), node_descs(&*cs[i]));
    lemma_nl_mid(descs_text(children_descs(cs.take(i))), descs_text(node_descs(&*cs[i])), descs_text(children_descs(cs.skip(i + 1))));
}

impl ChunkTree {
    /// Absolute position just past the last newline of a subtree laid out
    /// from `abs_start`, if it has one.
    fn last_line_node(node: &Arc<ChunkNode>, Ghost(abs_start): Ghost<int>) -> (found: Option<u64>)
        requires
            node_wf(&**node),
            descs_ok(node_descs(&**node), abs_start),
        ensures
            found is Some <==> nl_count(descs_text(node_descs(&**node))) > 0,
            found matches Some(e) ==> e == abs_start + nl_ends(descs_text(node_descs(&**node))).last(),
        decreases node,
    {
        let ghost t = descs_text(node_descs(&**node));
        proof {
            lemma_nl_ends_props(t);
            assert(nl_ends(Seq::<u8>::empty()) =~= Seq::<int>::empty());
            assert(descs_text(Seq::<ChunkDesc>::empty()) =~= Seq::<u8>::empty());
        }
        match &**node {
            ChunkNode::Leaf { descs, .. } => {
                let ghost ds = descs@;
                let mut i: usize = descs.len();
                proof {
                    assert(ds.take(ds.len() as int) =~= ds);
                }
                while i > 0
                    invariant
                        ds == descs@,
                        (**node) is Leaf && (**node)->Leaf_descs == *descs,
                        t == descs_text(ds),
                        descs_ok(ds, abs_start),
                        i <= ds.len(),
                        nl_count(t) == nl_count(descs_text(ds.take(i as int))),
                    decreases i,
                {
                    let d = &descs[i - 1];
                    let ghost pre = descs_text(ds.take(i - 1));
                    proof {
                        lemma_descs_text_at(ds, i - 1);
                        assert(i - 1 + 1 == i);
                        lemma_nl_mid(pre, d.view_bytes(), descs_text(ds.skip(i as int)));
                        assert(d.wf());
                        lemma_descs_ok_split(ds, abs_start, i - 1);
                    }
                    if d.line_offsets.len() > 0 {
                        let last = d.line_offsets.len() - 1;
                        proof {
                            lemma_nl_mid(pre, d.view_bytes(), descs_text(ds.skip(i as int)));
                            assert(d.line_offsets@[last as int] as int == nl_ends(d.view_bytes())[last as int]);
                            assert(nl_ends(t)[nl_count(pre) + last] == pre.len() + nl_ends(d.view_bytes())[last as int]);
                            lemma_nl_ends_props(d.view_bytes());
                            d.lemma_wf();
                        }
                        return Some(d.abs_start + d.line_offsets[last] as u64);
                    }
                    i -= 1;
                }
                proof {
                    assert(ds.take(0) =~= Seq::<ChunkDesc>::empty());
                }
                None
            },
            ChunkNode::Branch { children, .. } => {
                let ghost cs = children@;
                let mut i: usize = children.len();
                proof {
                    assert(cs.take(cs.len() as int) =~= cs);
                }
                while i > 0
                    invariant
                        cs == children@,
                        (**node) is Branch && (**node)->Branch_children == *children,
                        t == descs_text(children_descs(cs)),
                        children_wf(cs),
                        descs_ok(children_descs(cs), abs_start),
                        i <= cs.len(),
                        nl_count(t) == nl_count(descs_text(children_descs(cs.take(i as int)))),
                    decreases i,
                {
                    let child = &children[i - 1];
                    let ghost pre = descs_text(children_descs(cs.take(i - 1)));
                    let ghost mid = descs_text(node_descs(&**child));
                    proof {
                        lemma_child_laid(cs, i - 1, abs_start);
                        lemma_children_at(cs, i - 1);
                        assert(i - 1 + 1 == i);
                        let cd = children_descs(cs);
                        assert(cd =~= (children_descs(cs.take(i - 1)) + node_descs(&**child)) + children_descs(cs.skip(i as int)));
                        lemma_descs_text_concat(children_descs(cs.take(i - 1)) + node_descs(&**child), children_descs(cs.skip(i as int)));
                        lemma_descs_text_concat(children_descs(cs.take(i - 1)), node_descs(&**child));
                        lemma_nl_mid(pre, mid, descs_text(children_descs(cs.skip(i as int))));
                        lemma_nl_ends_props(mid);
                        assert(decreases_to!(node => *child)) by {
                            assert(decreases_to!(**node => *children));
                            assert(decreases_to!(*children => cs[i - 1]));
                        }
                    }
                    match ChunkTree::last_line_node(child, Ghost(abs_start + pre.len())) {
                        Some(found) => {
                            proof {
                                let last = nl_count(mid) - 1;
                                assert(nl_ends(t)[nl_count(pre) + last] == pre.len() + nl_ends(mid)[last]);
                            }
                            return Some(found);
                        },
                        None => {},
                    }
                    i -= 1;
                }
                proof {
                    assert(cs.take(0) =~= Seq::<Arc<ChunkNode>>::empty());
                    assert(children_descs(Seq::<Arc<ChunkNode>>::empty()) =~= Seq::<ChunkDesc>::empty());
                }
                None
            },
        }
    }

    /// Absolute offset of the last line start in the range: the position
    /// after the final newline, or `base` when there is none.
    pub fn last_line_start(&self, base: u64) -> (start: u64)
        requires
            self.wf_at(base as int),
        ensures
            start == line_starts(base as int, self.text()).last(),
    {
        let ghost t = self.text();
        proof {
            lemma_nl_ends_props(t);
            assert(nl_ends(Seq::<u8>::empty()) =~= Seq::<int>::empty());
            assert(descs_text(Seq::<ChunkDesc>::empty()) =~= Seq::<u8>::empty());
        }
        match &self.root {
            None => base,
            Some(root) => match ChunkTree::last_line_node(root, Ghost(base as int)) {
                Some(found) => found,
                None => base,
            },
        }
    }

    /// First position past a newline of a subtree laid out from
    /// `abs_start` that is at or after `target`.
    fn first_line_from(node: &Arc<ChunkNode>, abs_start: u64, target: u64) -> (found: Option<u64>)
        requires
            node_wf(&**node),
            descs_ok(node_descs(&**node), abs_start as int),
        ensures
            found matches Some(e) ==> exists|idx: int|
                #[trigger] first_nl_at(descs_text(node_descs(&**node)), abs_start as int, target as int, idx)
                    && e == abs_start + nl_ends(descs_text(node_descs(&**node)))[idx],
            found is None ==> forall|j: int|
                0 <= j < nl_count(descs_text(node_descs(&**node))) ==> abs_start + #[trigger] nl_ends(
                    descs_text(node_descs(&**node)),
                )[j] < target,
        decreases node,
    {
        let ghost t = descs_text(node_descs(&**node));
        proof {
            lemma_nl_ends_props(t);
            assert(nl_ends(Seq::<u8>::empty()) =~= Seq::<int>::empty());
            assert(descs_text(Seq::<ChunkDesc>::empty()) =~= Seq::<u8>::empty());
        }
        match &**node {
            ChunkNode::Leaf { descs, .. } => {
                let ghost ds = descs@;
                let mut i: usize = 0;
                proof {
                    assert(ds.take(0) =~= Seq::<ChunkDesc>::empty());
                }
                while i < descs.len()
                    invariant
                        ds == descs@,
                        (**node) is Leaf && (**node)->Leaf_descs == *descs,
                        t == descs_text(ds),
                        descs_ok(ds, abs_start as int),
                        i <= ds.len(),
                        nl_count(descs_text(ds.take(i as int))) <= nl_count(t),
                        forall|j: int| 0 <= j < nl_count(descs_text(ds.take(i as int))) ==> abs_start + #[trigger] nl_ends(t)[j] < target,
                    decreases ds.len() - i,
                {
                    let d = &descs[i];
                    let ghost pre = descs_text(ds.take(i as int));
                    let ghost db = d.view_bytes();
                    proof {
                        lemma_descs_text_at(ds, i as int);
                        lemma_nl_mid(pre, db, descs_text(ds.skip(i as int + 1)));
                        assert(d.wf());
                        d.lemma_wf();
                        lemma_descs_ok_split(ds, abs_start as int, i as int + 1);
                        lemma_nl_ends_props(db);
                    }
                    if target <= d.end() {
                        let mut lo: usize = 0;
                        let mut hi: usize = d.line_offsets.len();
                        while lo < hi
                            invariant
                                d.wf(),
                                db == d.view_bytes(),
                                d.start() + d.size() <= u64::MAX,
                                lo <= hi <= nl_count(db),
                                forall|q: int| 0 <= q < lo ==> d.start() + #[trigger] nl_ends(db)[q] < target,
                                forall|q: int| hi <= q < nl_count(db) ==> d.start() + #[trigger] nl_ends(db)[q] >= target,
                                forall|i: int| 0 <= i < nl_ends(db).len() ==> 1 <= #[trigger] nl_ends(db)[i] <= db.len(),
                                forall|i: int, j: int| 0 <= i < j < nl_ends(db).len() ==> nl_ends(db)[i] < nl_ends(db)[j],
                            decreases hi - lo,
                        {
                            let mid = lo + (hi - lo) / 2;
                            proof {
                                assert(d.line_offsets@[mid as int] as int == nl_ends(db)[mid as int]);
                            }
                            if d.abs_start + (d.line_offsets[mid] as u64) < target {
                                lo = mid + 1;
                            } else {
                                hi = mid;
                            }
                        }
                        if lo < d.line_offsets.len() {
                            proof {
                                assert(d.line_offsets@[lo as int] as int == nl_ends(db)[lo as int]);
                                let idx = nl_count(pre) + lo;
                                assert(nl_ends(t)[idx] == pre.len() + nl_ends(db)[lo as int]);
                                assert forall|j: int| 0 <= j < idx implies abs_start + #[trigger] nl_ends(t)[j] < target by {
                                    if j >= nl_count(pre) {
                                        assert(nl_ends(t)[nl_count(pre) + (j - nl_count(pre))] == pre.len() + nl_ends(db)[j - nl_count(pre)]);
                                    }
                                }
                                assert(first_nl_at(t, abs_start as int, target as int, idx));
                                assert(d.start() == abs_start + pre.len());
                                assert(t == descs_text(node_descs(&**node)));
                                assert(d.abs_start + d.line_offsets@[lo as int] == abs_start + nl_ends(t)[idx]);
                            }
                            return Some(d.abs_start + d.line_offsets[lo] as u64);
                        }
                        proof {
                            assert forall|j: int| 0 <= j < nl_count(descs_text(ds.take(i as int + 1))) implies abs_start + #[trigger] nl_ends(t)[j] < target by {
                                if j >= nl_count(pre) {
                                    assert(nl_ends(t)[nl_count(pre) + (j - nl_count(pre))] == pre.len() + nl_ends(db)[j - nl_count(pre)]);
                                }
                            }
                        }
                    } else {
                        proof {
                            assert forall|j: int| 0 <= j < nl_count(descs_text(ds.take(i as int + 1))) implies abs_start + #[trigger] nl_ends(t)[j] < target by {
                                if j >= nl_count(pre) {
                                    assert(nl_ends(t)[nl_count(pre) + (j - nl_count(pre))] == pre.len() + nl_ends(db)[j - nl_count(pre)]);
                                }
                            }
                        }
                    }
                    i += 1;
                }
                proof {
                    assert(ds.take(ds.len() as int) =~= ds);
                }
                None
            },
            ChunkNode::Branch { children, .. } => {
                let ghost cs = children@;
                let mut cursor: u64 = abs_start;
                let mut i: usize = 0;
                proof {
                    assert(cs.take(0) =~= Seq::<Arc<ChunkNode>>::empty());
                    assert(children_descs(Seq::<Arc<ChunkNode>>::empty()) =~= Seq::<ChunkDesc>::empty());
                }
                while i < children.len()
                    invariant
                        cs == children@,
                        (**node) is Branch && (**node)->Branch_children == *children,
                        t == descs_text(children_descs(cs)),
                        children_wf(cs),
                        descs_ok(children_descs(cs), abs_start as int),
                        i <= cs.len(),
                        cursor == abs_start + descs_text(children_descs(cs.take(i as int))).len(),
                        nl_count(descs_text(children_descs(cs.take(i as int)))) <= nl_count(t),
                        forall|j: int| 0 <= j < nl_count(descs_text(children_descs(cs.take(i as int)))) ==> abs_start + #[trigger] nl_ends(t)[j] < target,
                    decreases cs.len() - i,
                {
                    let child = &children[i];
                    let ghost pre = descs_text(children_descs(cs.take(i as int)));
                    let ghost mid = descs_text(node_descs(&**child));
                    proof {
                        lemma_child_text(cs, i as int, abs_start as int);
                        lemma_nl_ends_props(mid);
                        assert(decreases_to!(node => *child)) by {
                            assert(decreases_to!(**node => *children));
                            assert(decreases_to!(*children => cs[i as int]));
                        }
                    }
                    let end = cursor + child.bytes();
                    if target <= end {
                        match ChunkTree::first_line_from(child, cursor, target) {
                            Some(found) => {
                                proof {
                                    let lidx = choose|idx: int|
                                        #[trigger] first_nl_at(mid, cursor as int, target as int, idx) && found == cursor + nl_ends(mid)[idx];
                                    let idx = nl_count(pre) + lidx;
                                    assert(nl_ends(t)[idx] == pre.len() + nl_ends(mid)[lidx]);
                                    assert forall|j: int| 0 <= j < idx implies abs_start + #[trigger] nl_ends(t)[j] < target by {
                                        if j >= nl_count(pre) {
                                            assert(nl_ends(t)[nl_count(pre) + (j - nl_count(pre))] == pre.len() + nl_ends(mid)[j - nl_count(pre)]);
                                        }
                                    }
                                    assert(first_nl_at(t, abs_start as int, target as int, idx));
                                    assert(t == descs_text(node_descs(&**node)));
                                    assert(found == abs_start + nl_ends(t)[idx]);
                                }
                                return Some(found);
                            },
                            None => {},
                        }
                    } else {
                        proof {
                            assert forall|q: int| 0 <= q < nl_count(mid) implies cursor + #[trigger] nl_ends(mid)[q] < target by {
                            }
                        }
                    }
                    proof {
                        assert forall|j: int| 0 <= j < nl_count(descs_text(children_descs(cs.take(i as int + 1)))) implies abs_start + #[trigger] nl_ends(t)[j] < target by {
                            if j >= nl_count(pre) {
                                assert(nl_ends(t)[nl_count(pre) + (j - nl_count(pre))] == pre.len() + nl_ends(mid)[j - nl_count(pre)]);
                            }
                        }
                    }
                    cursor = end;
                    i += 1;
                }
                proof {
                    assert(cs.take(cs.len() as int) =~= cs);
                }
                None
            },
        }
    }

    /// Smallest line start at or after `target`, or `None` when the target
    /// is past the last line start.
    pub fn first_line_at_or_after(&self, base: u64, target: u64) -> (found: Option<u64>)
        requires
            self.wf_at(base as int),
        ensures
            found matches Some(e) ==> {
                &&& line_starts(base as int, self.text()).contains(e as int)
                &&& e >= target
                &&& forall|k: int| 0 <= k < line_starts(base as int, self.text()).len()
                    && #[trigger] line_starts(base as int, self.text())[k] >= target ==> e <= line_starts(base as int, self.text())[k]
            },
            found is None ==> forall|k: int| 0 <= k < line_starts(base as int, self.text()).len()
                ==> #[trigger] line_starts(base as int, self.text())[k] < target,
    {
        let ghost t = self.text();
        let ghost ls = line_starts(base as int, t);
        proof {
            lemma_nl_ends_props(t);
            self.lemma_wf_bounds(base as int);
            assert(nl_ends(Seq::<u8>::empty()) =~= Seq::<int>::empty());
            assert(descs_text(Seq::<ChunkDesc>::empty()) =~= Seq::<u8>::empty());
            assert(ls[0] == base);
            assert forall|k: int| 1 <= k < ls.len() implies #[trigger] ls[k] == base + nl_ends(t)[k - 1] by {}
        }
        if target <= base {
            proof {
                assert(ls[0] == base);
            }
            return Some(base);
        }
        match &self.root {
            None => None,
            Some(root) => {
                let found = ChunkTree::first_line_from(root, base, target);
                proof {
                    match found {
                        Some(e) => {
                            let idx = choose|idx: int|
                                #[trigger] first_nl_at(t, base as int, target as int, idx) && e == base + nl_ends(t)[idx];
                            assert(ls[idx + 1] == e);
                            assert forall|k: int| 0 <= k < ls.len() && #[trigger] ls[k] >= target implies e <= ls[k] by {
                                if k >= 1 && k - 1 > idx {
                                    assert(nl_ends(t)[idx] < nl_ends(t)[k - 1]);
                                }
                            }
                        },
                        None => {},
                    }
                }
                found
            },
        }
    }
}


/// Copies `descs[from..to]`, sharing each page.
fn copy_desc_range(descs: &Vec<ChunkDesc>, from: usize, to: usize) -> (copy: Vec<ChunkDesc>)
    requires
        from <= to <= descs@.len(),
    ensures
        copy@ == descs@.subrange(from as int, to as int),
{
    let mut copy: Vec<ChunkDesc> = Vec::new();
    let mut index: usize = from;
    while index < to
        invariant
            from <= index <= to <= descs@.len(),
            copy@ == descs@.subrange(from as int, index as int),
        decreases to - index,
    {
        copy.push(descs[index].duplicate());
        index += 1;
        assert(copy@ =~= descs@.subrange(from as int, index as int));
    }
    copy
}

/// Copies `children[from..to]`, sharing each subtree.
fn copy_child_range(children: &Vec<Arc<ChunkNode>>, from: usize, to: usize) -> (copy: Vec<Arc<ChunkNode>>)
    requires
        from <= to <= children@.len(),
    ensures
        copy@ == children@.subrange(from as int, to as int),
{
    let mut copy: Vec<Arc<ChunkNode>> = Vec::new();
    let mut index: usize = from;
    while index < to
        invariant
            from <= index <= to <= children@.len(),
            copy@ == children@.subrange(from as int, index as int),
        decreases to - index,
    {
        copy.push(share(&children[index]));
        index += 1;
        assert(copy@ =~= children@.subrange(from as int, index as int));
    }
    copy
}

/// Copies `bytes[from..to]` into a fresh page.
fn copy_slice_range(bytes: &[u8], from: usize, to: usize) -> (copy: Vec<u8>)
    requires
        from <= to <= bytes@.len(),
    ensures
        copy@ == bytes@.subrange(from as int, to as int),
{
    let mut copy: Vec<u8> = Vec::new();
    let mut index: usize = from;
    while index < to
        invariant
            from <= index <= to <= bytes@.len(),
            copy@ == bytes@.subrange(from as int, index as int),
        decreases to - index,
    {
        copy.push(bytes[index]);
        index += 1;
        assert(copy@ =~= bytes@.subrange(from as int, index as int));
    }
    copy
}

/// A laid-out run cut at `i` and `j` keeps its middle laid out.
pub proof fn lemma_descs_ok_range(ds: Seq<ChunkDesc>, base: int, i: int, j: int)
    requires
        descs_ok(ds, base),
        0 <= i <= j <= ds.len(),
    ensures
        descs_ok(ds.subrange(i, j), base + descs_text(ds.take(i)).len()),
        descs_text(ds.take(j)) == descs_text(ds.take(i)) + descs_text(ds.subrange(i, j)),
{
    lemma_descs_ok_split(ds, base, i);
    let rest = ds.skip(i);
    lemma_descs_ok_split(rest, base + descs_text(ds.take(i)).len(), j - i);
    assert(rest.take(j - i) =~= ds.subrange(i, j));
    assert(ds.take(j) =~= ds.take(i) + ds.subrange(i, j));
    lemma_descs_text_concat(ds.take(i), ds.subrange(i, j));
}

/// A run of subtrees cut at `i` and `j`.
pub proof fn lemma_children_range(cs: Seq<Arc<ChunkNode>>, i: int, j: int)
    requires
        0 <= i <= j <= cs.len(),
    ensures
        children_descs(cs.take(j)) == children_descs(cs.take(i)) + children_descs(cs.subrange(i, j)),
        children_wf(cs) ==> children_wf(cs.subrange(i, j)),
        children_descs(cs) == children_descs(cs.take(j)) + children_descs(cs.skip(j)),
        children_wf(cs) ==> children_wf(cs.take(j)),
{
    assert(cs.take(j) =~= cs.take(i) + cs.subrange(i, j));
    lemma_children_concat(cs.take(i), cs.subrange(i, j));
    assert(cs =~= cs.take(j) + cs.skip(j));
    lemma_children_concat(cs.take(j), cs.skip(j));
}

impl ChunkTree {
    /// Leaves of at most sixteen descriptors over a laid-out run.
    fn leaves_of(descs: &Vec<ChunkDesc>, Ghost(base): Ghost<int>) -> (level: Vec<Arc<ChunkNode>>)
        requires
            descs@.len() >= 1,
            descs_ok(descs@, base),
        ensures
            level@.len() >= 1,
            children_wf(level@),
            children_descs(level@) == descs@,
    {
        let ghost ds = descs@;
        let mut level: Vec<Arc<ChunkNode>> = Vec::new();
        let mut i: usize = 0;
        proof {
            assert(ds.take(0) =~= Seq::<ChunkDesc>::empty());
            assert(children_descs(level@) =~= Seq::<ChunkDesc>::empty());
        }
        while i < descs.len()
            invariant
                ds == descs@,
                descs_ok(ds, base),
                i <= ds.len(),
                i > 0 ==> level@.len() >= 1,
                children_wf(level@),
                children_descs(level@) == ds.take(i as int),
            decreases ds.len() - i,
        {
            let j = if descs.len() - i > LEAF_DESCS { i + LEAF_DESCS } else { descs.len() };
            let chunk = copy_desc_range(descs, i, j);
            proof {
                lemma_descs_ok_range(ds, base, i as int, j as int);
            }
            let node = ChunkNode::leaf_node(chunk, Ghost(base + descs_text(ds.take(i as int)).len()));
            proof {
                lemma_children_push(level@, node);
                assert(ds.take(j as int) =~= ds.take(i as int) + ds.subrange(i as int, j as int));
            }
            level.push(node);
            i = j;
        }
        assert(ds.take(ds.len() as int) =~= ds);
        level
    }

    /// Groups a level of subtrees under branches of at most sixteen.
    #[verifier::spinoff_prover]
    #[verifier::rlimit(40)]
    fn group_level(level: &Vec<Arc<ChunkNode>>, Ghost(base): Ghost<int>) -> (upper: Vec<Arc<ChunkNode>>)
        requires
            level@.len() >= 1,
            children_wf(level@),
            descs_ok(children_descs(level@), base),
        ensures
            upper@.len() >= 1,
            upper@.len() == (level@.len() + 15) / 16,
            children_wf(upper@),
            children_descs(upper@) == children_descs(level@),
    {
        let ghost cs = level@;
        let mut upper: Vec<Arc<ChunkNode>> = Vec::new();
        let mut i: usize = 0;
        proof {
            assert(cs.take(0) =~= Seq::<Arc<ChunkNode>>::empty());
            assert(children_descs(Seq::<Arc<ChunkNode>>::empty()) =~= Seq::<ChunkDesc>::empty());
            assert(children_descs(upper@) =~= Seq::<ChunkDesc>::empty());
        }
        while i < level.len()
            invariant
                cs == level@,
                children_wf(cs),
                descs_ok(children_descs(cs), base),
                i <= cs.len(),
                i < cs.len() ==> i % 16 == 0,
                upper@.len() == (i + 15) / 16,
                children_wf(upper@),
                children_descs(upper@) == children_descs(cs.take(i as int)),
            decreases cs.len() - i,
        {
            let j = if level.len() - i > BRANCH_CHILDREN { i + BRANCH_CHILDREN } else { level.len() };
            let chunk = copy_child_range(level, i, j);
            let ghost pre = children_descs(cs.take(i as int));
            proof {
                lemma_children_range(cs, i as int, j as int);
                lemma_children_range(cs, i as int, cs.len() as int);
                assert(cs.take(cs.len() as int) =~= cs);
                let cd = children_descs(cs);
                lemma_descs_ok_split(cd, base, pre.len() as int);
                assert(cd.take(pre.len() as int) =~= pre);
                let mid = children_descs(cs.subrange(i as int, j as int));
                assert(cd =~= pre + (mid + children_descs(cs.skip(j as int)))) by {
                    lemma_children_range(cs, j as int, j as int);
                }
                lemma_descs_ok_split(cd.skip(pre.len() as int), base + descs_text(pre).len(), mid.len() as int);
                assert(cd.skip(pre.len() as int).take(mid.len() as int) =~= mid);
                assert(chunk@.len() >= 1);
            }
            let node = ChunkNode::branch_node(chunk, Ghost(base + descs_text(pre).len()));
            proof {
                lemma_children_push(upper@, node);
            }
            upper.push(node);
            i = j;
        }
        assert(cs.take(cs.len() as int) =~= cs);
        upper
    }

    /// Builds a balanced tree over a laid-out run of descriptors.
    pub fn from_descs(descs: Vec<ChunkDesc>, Ghost(base): Ghost<int>) -> (tree: Self)
        requires
            descs_ok(descs@, base),
        ensures
            tree.wf_at(base),
            tree.descs() == descs@,
    {
        if descs.len() == 0 {
            assert(descs@ =~= Seq::<ChunkDesc>::empty());
            return ChunkTree { root: None };
        }
        let mut level = ChunkTree::leaves_of(&descs, Ghost(base));
        while level.len() > BRANCH_CHILDREN
            invariant
                level@.len() >= 1,
                children_wf(level@),
                children_descs(level@) == descs@,
                descs_ok(descs@, base),
            decreases level@.len(),
        {
            level = ChunkTree::group_level(&level, Ghost(base));
        }
        if level.len() == 1 {
            let ghost lv = level@;
            let root = level.pop().unwrap();
            proof {
                assert(lv =~= seq![root]);
                lemma_children_single(root);
            }
            ChunkTree { root: Some(root) }
        } else {
            ChunkTree { root: Some(ChunkNode::branch_node(level, Ghost(base))) }
        }
    }

    /// The tree with `text` appended, cut into new pages of at most
    /// `SOURCE_CHUNK_BYTES` that end before a UTF-8 continuation byte where
    /// the page has room to; `base` is the absolute end of the current bytes.
    pub fn appended(&self, text: &str, base: u64) -> (tree: Self)
        requires
            self.wf_at(base - self.text().len()),
            base + text.spec_bytes().len() <= u64::MAX,
        ensures
            tree.wf_at(base - self.text().len()),
            tree.text() == self.text() + text.spec_bytes(),
            tree.descs().len() >= self.descs().len(),
            tree.descs().take(self.descs().len() as int) == self.descs(),
            forall|i: int| self.descs().len() <= i < tree.descs().len() ==> (#[trigger] tree.descs()[i]).size() <= SOURCE_CHUNK_BYTES,
            forall|i: int| self.descs().len() <= i < tree.descs().len() ==> vstd::utf8::is_char_boundary(
                text.spec_bytes(), (#[trigger] tree.descs()[i]).start() - base),
            0 < text.spec_bytes().len() <= SOURCE_CHUNK_BYTES ==> tree.descs().len() == self.descs().len() + 1,
            text.spec_bytes().len() == 0 ==> tree == *self,
            forall|i: int| self.descs().len() <= i < tree.descs().len() ==> page_cut_as_far_as_room(
                text.spec_bytes(), (#[trigger] tree.descs()[i]).start() - base, tree.descs()[i].size()),
    {
        let ghost start = base - self.text().len();
        let bytes = text.as_bytes();
        if bytes.len() == 0 {
            assert(self.text() + text.spec_bytes() =~= self.text());
            assert(self.descs().take(self.descs().len() as int) =~= self.descs());
            return self.share();
        }
        let mut tree = self.share();
        let mut cursor: usize = 0;
        let mut absolute: u64 = base;
        proof {
            assert(bytes@.take(0) =~= Seq::<u8>::empty());
            assert(self.text() + Seq::<u8>::empty() =~= self.text());
            assert(self.descs().take(self.descs().len() as int) =~= self.descs());
        }
        proof {
            vstd::utf8::encode_utf8_valid_utf8(text@);
            lemma_cont_bits(bytes@[0]);
        }
        while cursor < bytes.len()
            invariant
                bytes@ == text.spec_bytes(),
                vstd::utf8::valid_utf8(bytes@),
                cursor == bytes@.len() || !is_cont(bytes@[cursor as int]),
                bytes@.len() <= SOURCE_CHUNK_BYTES ==> (cursor == 0 && tree.descs().len() == self.descs().len())
                    || (cursor == bytes@.len() && tree.descs().len() == self.descs().len() + 1),
                forall|i: int| self.descs().len() <= i < tree.descs().len() ==> page_cut_as_far_as_room(
                    bytes@, (#[trigger] tree.descs()[i]).start() - base, tree.descs()[i].size()),
                forall|i: int| self.descs().len() <= i < tree.descs().len() ==> {
                    &&& base <= (#[trigger] tree.descs()[i]).start() < base + cursor
                    &&& !is_cont(bytes@[tree.descs()[i].start() - base])
                },
                cursor <= bytes@.len(),
                base + bytes@.len() <= u64::MAX,
                start == base - self.text().len(),
                tree.wf_at(start),
                tree.text() == self.text() + bytes@.take(cursor as int),
                absolute == base + cursor,
                tree.descs().len() >= self.descs().len(),
                tree.descs().take(self.descs().len() as int) == self.descs(),
                forall|i: int| self.descs().len() <= i < tree.descs().len() ==> (#[trigger] tree.descs()[i]).size() <= SOURCE_CHUNK_BYTES,
            decreases bytes@.len() - cursor,
        {
            let mut end = if bytes.len() - cursor > SOURCE_CHUNK_BYTES { cursor + SOURCE_CHUNK_BYTES } else { bytes.len() };
            let ghost first_end = end;
            while end < bytes.len() && end > cursor && (bytes[end] & 0xc0u8) == 0x80u8
                invariant
                    cursor <= end <= first_end <= bytes@.len(),
                    end <= cursor + SOURCE_CHUNK_BYTES,
                    first_end == bytes@.len() ==> end == first_end,
                    forall|k: int| end < k <= first_end ==> is_cont(#[trigger] bytes@[k]),
                decreases end,
            {
                proof {
                    lemma_cont_bits(bytes@[end as int]);
                }
                end -= 1;
            }
            proof {
                if end < bytes.len() && end > cursor {
                    lemma_cont_bits(bytes@[end as int]);
                }
                if end == cursor {
                    lemma_char_start_within_four(bytes@, cursor + 1);
                }
            }
            if end == cursor {
                end = if bytes.len() - cursor > SOURCE_CHUNK_BYTES { cursor + SOURCE_CHUNK_BYTES } else { bytes.len() };
            }
            let page = copy_slice_range(bytes, cursor, end);
            let desc = ChunkDesc::from_page(page, absolute);
            proof {
                tree.lemma_bounds(start);
            }
            let ghost prior = tree.descs();
            proof {
                desc.lemma_wf();
                assert(page_cut_as_far_as_room(bytes@, desc.start() - base, desc.size()));
            }
            tree = tree.append_desc(desc, Ghost(start));
            proof {
                assert(bytes@.take(end as int) =~= bytes@.take(cursor as int) + bytes@.subrange(cursor as int, end as int));
                assert(tree.descs().take(self.descs().len() as int) =~= prior.take(self.descs().len() as int));
            }
            absolute = absolute + (end - cursor) as u64;
            cursor = end;
        }
        proof {
            assert(bytes@.take(bytes@.len() as int) =~= bytes@);
            assert forall|i: int| self.descs().len() <= i < tree.descs().len() implies vstd::utf8::is_char_boundary(
                text.spec_bytes(), (#[trigger] tree.descs()[i]).start() - base) by {
                let o = tree.descs()[i].start() - base;
                vstd::utf8::is_char_boundary_iff_not_is_continuation_byte(bytes@, o);
                lemma_cont_bits(bytes@[o]);
            }
        }
        tree
    }
}

impl ChunkDesc {
    /// Absolute offset of the first byte.
    pub fn abs_start(&self) -> (start: u64)
        ensures
            start == self.start(),
    {
        self.abs_start
    }

    /// Number of bytes covered.
    pub fn len(&self) -> (len: u32)
        ensures
            len == self.size(),
    {
        self.len
    }
}


/// A UTF-8 continuation byte (`0b10xx_xxxx`).
pub open spec fn is_cont(b: u8) -> bool {
    (b >> 6u8) == 2u8
}

/// A new page of `text` that starts at offset `start` and holds `size`
/// bytes reaches as far as a page may: to the end of the text when the rest
/// fits one page, and otherwise to the page limit, backed off only over
/// continuation bytes so that the next page starts a character.
pub open spec fn page_cut_as_far_as_room(text: Seq<u8>, start: int, size: int) -> bool {
    ||| start + size == text.len() && text.len() - start <= SOURCE_CHUNK_BYTES
    ||| {
        &&& start + SOURCE_CHUNK_BYTES < text.len()
        &&& start + size < text.len()
        &&& !is_cont(text[start + size])
        &&& forall|k: int| start + size < k <= start + SOURCE_CHUNK_BYTES ==> is_cont(#[trigger] text[k])
    }
}

/// A byte is a continuation byte exactly when its top two bits are `10`.
proof fn lemma_cont_bits(b: u8)
    ensures
        is_cont(b) <==> vstd::utf8::is_continuation_byte(b),
        ((b & 0xc0u8) == 0x80u8) <==> is_cont(b),
{
    assert(((b >> 6u8) == 2u8) <==> (0x80u8 <= b && b <= 0xbfu8)) by (bit_vector);
    assert(((b & 0xc0u8) == 0x80u8) <==> ((b >> 6u8) == 2u8)) by (bit_vector);
}

/// Any four consecutive bytes of valid UTF-8 hold one that starts a
/// character.
proof fn lemma_char_start_within_four(bytes: Seq<u8>, i: int)
    requires
        vstd::utf8::valid_utf8(bytes),
        0 <= i,
        i + 4 <= bytes.len(),
    ensures
        exists|j: int| i <= j < i + 4 && !is_cont(#[trigger] bytes[j]),
    decreases bytes.len(),
{
    let l = vstd::utf8::length_of_first_scalar(bytes);
    let rest = vstd::utf8::pop_first_scalar(bytes);
    lemma_cont_bits(bytes[0]);
    assert(1 <= l <= 4);
    if i == 0 {
        assert(!is_cont(bytes[0]));
    } else if i < l {
        assert(rest.len() > 0);
        assert(vstd::utf8::valid_utf8(rest));
        assert(vstd::utf8::valid_first_scalar(rest));
        assert(rest[0] == bytes[l]);
        lemma_cont_bits(bytes[l]);
        assert(!is_cont(bytes[l]));
    } else {
        lemma_char_start_within_four(rest, i - l);
        let j = choose|j: int| i - l <= j < i - l + 4 && !is_cont(#[trigger] rest[j]);
        assert(rest[j] == bytes[j + l]);
    }
}

/// The first index at or after `from` holding a byte that starts a
/// character.
pub open spec fn next_start_in(bytes: Seq<u8>, from: int) -> Option<int>
    decreases bytes.len() - from,
{
    if from < 0 || from >= bytes.len() {
        None
    } else if !is_cont(bytes[from]) {
        Some(from)
    } else {
        next_start_in(bytes, from + 1)
    }
}

/// Descriptors of a laid-out run start strictly after the ones before them
/// end.
pub proof fn lemma_desc_order(ds: Seq<ChunkDesc>, base: int, k1: int, k2: int)
    requires
        descs_ok(ds, base),
        0 <= k1 < k2 < ds.len(),
    ensures
        ds[k1].start() + ds[k1].size() <= ds[k2].start(),
{
    lemma_descs_ok_range(ds, base, k1 + 1, k2);
    lemma_descs_text_at(ds, k1);
    assert(ds[k1].wf());
    ds[k1].lemma_wf();
    assert(ds[k2].start() == base + descs_text(ds.take(k2)).len());
    assert(ds[k1].start() == base + descs_text(ds.take(k1)).len());
}

/// One chunk view: absolute span plus its slice of a shared page.
pub struct ChunkView {
    pub page: Arc<Vec<u8>>,
    pub page_start: u32,
    pub len: u32,
    pub abs_start: u64,
}

impl ChunkView {
    /// Absolute offset just past the view (saturating).
    pub fn abs_end(&self) -> (end: u64)
        ensures
            end == if self.abs_start + self.len > u64::MAX { u64::MAX as int } else { self.abs_start + self.len },
    {
        self.abs_start.saturating_add(self.len as u64)
    }

    /// The viewed bytes; empty when the view does not fit its page.
    pub fn bytes(&self) -> (bytes: &[u8])
        ensures
            bytes@ == if self.page_start + self.len <= self.page@.len() {
                self.page@.subrange(self.page_start as int, self.page_start + self.len)
            } else {
                Seq::<u8>::empty()
            },
    {
        let page = self.page.as_slice();
        let start = self.page_start as usize;
        if start <= page.len() && (self.len as usize) <= page.len() - start {
            let end = start + self.len as usize;
            &page[start..end]
        } else {
            let empty = &page[0..0];
            assert(empty@ =~= Seq::<u8>::empty());
            empty
        }
    }
}

impl ChunkDesc {
    /// Position just past the `i`-th newline of the view, relative to its
    /// start.
    pub fn line_offset(&self, i: usize) -> (off: u32)
        requires
            self.wf(),
            i < nl_count(self.view_bytes()),
        ensures
            off == nl_ends(self.view_bytes())[i as int],
    {
        self.line_offsets[i]
    }

    /// The public view of this descriptor, sharing its page.
    pub fn to_view(&self) -> (view: ChunkView)
        requires
            self.wf(),
        ensures
            view.abs_start == self.start(),
            view.len == self.size(),
            view.page_start + view.len <= view.page@.len(),
            view.page@.subrange(view.page_start as int, view.page_start + view.len) == self.view_bytes(),
    {
        ChunkView { page: share(&self.page), page_start: self.page_start, len: self.len, abs_start: self.abs_start }
    }
}

impl ChunkTree {
    /// Some descriptor of the tree starts at `offset`.
    pub closed spec fn starts_desc(&self, offset: int) -> bool {
        exists|k: int| 0 <= k < self.descs().len() && #[trigger] self.descs()[k].start() == offset
    }

    /// The descriptor holding `offset` (meaningful inside the range).
    pub closed spec fn desc_holding(&self, offset: int) -> ChunkDesc {
        self.descs()[choose|k: int| 0 <= k < self.descs().len() && self.descs()[k].start() <= offset < self.descs()[k].start()
            + #[trigger] self.descs()[k].size()]
    }

    /// Whether a character can start at `offset`: a descriptor starts
    /// there, or its byte is not a continuation byte.
    pub fn char_start(&self, base: u64, offset: u64) -> (starts: bool)
        requires
            self.wf_at(base as int),
        ensures
            starts == (base <= offset < base + self.text().len() && (self.starts_desc(offset as int) || !is_cont(
                self.text()[offset - base],
            ))),
    {
        match &self.root {
            None => {
                proof {
                    assert(descs_text(Seq::<ChunkDesc>::empty()) =~= Seq::<u8>::empty());
                }
                false
            },
            Some(root) => {
                match ChunkTree::locate_node(root, base, offset) {
                    None => false,
                    Some(desc) => {
                        let local = offset - desc.abs_start;
                        let ghost ds = self.descs();
                        proof {
                            desc.lemma_wf();
                            let k = choose|k: int| 0 <= k < ds.len() && ds[k] == *desc;
                            assert(ds[k].start() == desc.start());
                            if local != 0 && self.starts_desc(offset as int) {
                                let k2 = choose|k2: int| 0 <= k2 < ds.len() && #[trigger] ds[k2].start() == offset;
                                if k2 < k {
                                    lemma_desc_order(ds, base as int, k2, k);
                                    assert(ds[k2].wf());
                                    ds[k2].lemma_wf();
                                } else if k2 > k {
                                    lemma_desc_order(ds, base as int, k, k2);
                                }
                            }
                        }
                        let bytes = desc.bytes();
                        local == 0 || (bytes[local as usize] >> 6u8) != 2u8
                    },
                }
            },
        }
    }

    /// The next position inside the descriptor holding `offset` where a
    /// character starts, if any.
    pub fn next_char_in_desc(&self, base: u64, offset: u64) -> (next: Option<u64>)
        requires
            self.wf_at(base as int),
            base <= offset < base + self.text().len(),
        ensures
            next == (match next_start_in(self.desc_holding(offset as int).view_bytes(), offset - self.desc_holding(offset as int).start() + 1) {
                Some(j) => Some((self.desc_holding(offset as int).start() + j) as u64),
                None => None::<u64>,
            }),
    {
        match &self.root {
            None => {
                proof {
                    assert(descs_text(Seq::<ChunkDesc>::empty()) =~= Seq::<u8>::empty());
                }
                None
            },
            Some(root) => {
                match ChunkTree::locate_node(root, base, offset) {
                    None => None,
                    Some(desc) => {
                        let ghost ds = self.descs();
                        proof {
                            desc.lemma_wf();
                            let k = choose|k: int| 0 <= k < ds.len() && ds[k] == *desc;
                            assert(ds[k].start() <= offset < ds[k].start() + ds[k].size());
                            let c = choose|c: int| 0 <= c < ds.len() && ds[c].start() <= offset < ds[c].start() + #[trigger] ds[c].size();
                            assert(ds[c].wf());
                            ds[c].lemma_wf();
                            if c < k {
                                lemma_desc_order(ds, base as int, c, k);
                            } else if c > k {
                                lemma_desc_order(ds, base as int, k, c);
                            }
                            assert(self.desc_holding(offset as int) == *desc);
                        }
                        let bytes = desc.bytes();
                        let mut j: usize = (offset - desc.abs_start) as usize + 1;
                        while j < bytes.len()
                            invariant
                                bytes@ == desc.view_bytes(),
                                offset - desc.start() + 1 <= j <= bytes@.len(),
                                next_start_in(bytes@, offset - desc.start() + 1) == next_start_in(bytes@, j as int),
                                desc.start() + desc.size() <= u64::MAX,
                                bytes@.len() == desc.size(),
                                self.desc_holding(offset as int) == *desc,
                            decreases bytes@.len() - j,
                        {
                            if (bytes[j] >> 6u8) != 2u8 {
                                proof {
                                    assert(!is_cont(bytes@[j as int]));
                                    assert(next_start_in(bytes@, j as int) == Some(j as int));
                                }
                                return Some(desc.abs_start + j as u64);
                            }
                            j += 1;
                        }
                        None
                    },
                }
            },
        }
    }
}

} // verus!
