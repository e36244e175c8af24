//! Persistent Source storage: a chunk tree for the retained bytes and an
//! annotation index, with the accepted revision, end offset, seal state and
//! the next annotation sequence number.
//!
//! Every mutating entry point takes `&self` and returns the next storage
//! value, so a failed validation never leaves partial bytes behind: callers
//! only swap the stored value on success.
use std::sync::Arc;
use vstd::prelude::*;
use vstd::string::StringSliceAdditionalSpecFns;
use vstd::utf8::{decode_utf8, valid_utf8};

use crate::annotation::{
    lemma_seqno_sorted_unique, sat_len, sorted_by_seqno, truncated_record, unique_keys, unique_seqnos,
    key_lt, key_of, overlaps, AnnotationTree, SourceAnnotation, CONTENT_ANNOTATION_KIND_POINT,
};
use crate::chunk::{
    descs_text, is_cont, lemma_descs_ok_split, lemma_descs_text_at, lemma_nl_ends_props, lemma_nl_mid, line_starts,
    next_start_in, nl_count, nl_ends, ChunkDesc, ChunkTree, ChunkView,
};
use crate::shared::{copy_bytes, share};

verus! {

/// One validated annotation ready for storage. Range policy, payload caps
/// and generation checks happen before this value exists, so every
/// `apply_*` entry point is total over its inputs except for the errors it
/// documents. `tag` and `style` carry interned identities.
pub struct ValidatedAnnotation {
    pub kind: u32,
    pub flags: u32,
    pub start_byte: u64,
    pub end_byte: u64,
    pub payload: Vec<u8>,
    pub aux0: u32,
    pub aux1: u32,
    pub tag: Option<u64>,
    pub style: Option<u64>,
}

/// Why a storage transition was refused.
#[derive(Debug, PartialEq, Eq, Structural)]
pub enum ContentError {
    Sealed,
    AlreadySealed,
    InvalidByteRange { start: u64, end: u64, len: u64 },
    LengthOverflow,
    RetentionOverflow,
}

impl ContentError {
    /// The stable error text reported to clients.
    pub fn message(&self) -> (text: &'static str)
        ensures
            *self == ContentError::Sealed ==> text@ == "SOURCE_SEALED: Source is sealed"@,
            *self == ContentError::AlreadySealed ==> text@ == "SOURCE_ALREADY_SEALED: Source is already sealed"@,
            *self is InvalidByteRange ==> text@ == "INVALID_RANGE: Source head is outside the retained range"@,
            *self == ContentError::LengthOverflow ==> text@ == "INVALID_RANGE: Source coordinate exhausted"@,
            *self == ContentError::RetentionOverflow ==> text@ == "SOURCE_RETENTION_OVERFLOW: Source retention limit would be exceeded"@,
    {
        match self {
            ContentError::Sealed => "SOURCE_SEALED: Source is sealed",
            ContentError::AlreadySealed => "SOURCE_ALREADY_SEALED: Source is already sealed",
            ContentError::InvalidByteRange { .. } => "INVALID_RANGE: Source head is outside the retained range",
            ContentError::LengthOverflow => "INVALID_RANGE: Source coordinate exhausted",
            ContentError::RetentionOverflow => "SOURCE_RETENTION_OVERFLOW: Source retention limit would be exceeded",
        }
    }
}

/// `r` is the stored form of `a` accepted with sequence number `seqno`.
pub open spec fn is_record_of(r: SourceAnnotation, a: ValidatedAnnotation, seqno: u64) -> bool {
    &&& r.kind == a.kind
    &&& r.flags == a.flags
    &&& r.start_byte == a.start_byte
    &&& r.end_byte == a.end_byte
    &&& r.payload@ == a.payload@
    &&& r.aux0 == a.aux0
    &&& r.aux1 == a.aux1
    &&& r.tag == a.tag
    &&& r.style == a.style
    &&& r.seqno == seqno
}

/// `a` is the stored form of one member of a batch accepted with
/// consecutive sequence numbers from `first`.
pub open spec fn from_batch(a: SourceAnnotation, annos: Seq<ValidatedAnnotation>, first: u64) -> bool {
    exists|i: int| 0 <= i < annos.len() && is_record_of(a, #[trigger] annos[i], (first + i) as u64)
}

/// `w` lists, member by member, stored forms of a batch found in `records`.
pub open spec fn batch_witness(
    records: Seq<SourceAnnotation>,
    annos: Seq<ValidatedAnnotation>,
    first: u64,
    w: Seq<SourceAnnotation>,
) -> bool {
    &&& w.len() == annos.len()
    &&& forall|i: int| 0 <= i < w.len() ==> records.contains(#[trigger] w[i]) && is_record_of(w[i], annos[i], (first + i) as u64)
}

/// Every member of a batch has its stored form among `records`.
pub open spec fn holds_batch(records: Seq<SourceAnnotation>, annos: Seq<ValidatedAnnotation>, first: u64) -> bool {
    exists|w: Seq<SourceAnnotation>| #[trigger] batch_witness(records, annos, first, w)
}

/// The stored form of a validated annotation.
pub fn record_of(anno: &ValidatedAnnotation, seqno: u64) -> (record: SourceAnnotation)
    ensures
        is_record_of(record, *anno, seqno),
{
    SourceAnnotation {
        kind: anno.kind,
        flags: anno.flags,
        start_byte: anno.start_byte,
        end_byte: anno.end_byte,
        payload: Arc::new(copy_bytes(&anno.payload)),
        aux0: anno.aux0,
        aux1: anno.aux1,
        tag: anno.tag,
        style: anno.style,
        seqno,
    }
}

/// `end - base`, or zero when the base lies past the end.
pub open spec fn span_len(end: u64, base: u64) -> u64 {
    if end >= base {
        (end - base) as u64
    } else {
        0
    }
}

/// A record survives retention when it overlaps the retained byte window
/// starting at `floor`, or is zero-length at or after the floor.
pub open spec fn in_window(r: SourceAnnotation, floor: u64) -> bool {
    r.end_byte > floor || (r.start_byte == r.end_byte && r.start_byte >= floor)
}

/// The records of `s` that survive the window, in order.
pub open spec fn window_survivors(s: Seq<SourceAnnotation>, floor: u64) -> Seq<SourceAnnotation>
    decreases s.len(),
{
    if s.len() == 0 {
        s
    } else if in_window(s.last(), floor) {
        window_survivors(s.drop_last(), floor).push(s.last())
    } else {
        window_survivors(s.drop_last(), floor)
    }
}

/// The byte window keeps exactly the records that overlap it: a record
/// that ends past the floor survives whatever its start; a non-empty record
/// that ends at or before the floor is dropped; an empty record survives
/// exactly when it lies at or past the floor.
pub proof fn window_keeps_records_overlapping_it(s: Seq<SourceAnnotation>, floor: u64)
    ensures
        forall|a: SourceAnnotation| s.contains(a) && a.end_byte > floor ==> #[trigger] window_survivors(s, floor).contains(a),
        forall|a: SourceAnnotation| s.contains(a) && a.start_byte < a.end_byte && a.end_byte <= floor
            ==> !#[trigger] window_survivors(s, floor).contains(a),
        forall|a: SourceAnnotation| s.contains(a) && a.start_byte == a.end_byte
            ==> (#[trigger] window_survivors(s, floor).contains(a) <==> a.start_byte >= floor),
        forall|a: SourceAnnotation| #[trigger] window_survivors(s, floor).contains(a) ==> s.contains(a),
    decreases s.len(),
{
    if s.len() > 0 {
        let init = s.drop_last();
        window_keeps_records_overlapping_it(init, floor);
        let w = window_survivors(s, floor);
        let wi = window_survivors(init, floor);
        assert forall|a: SourceAnnotation| #[trigger] w.contains(a) <==> (wi.contains(a) || (a == s.last() && (
            a.end_byte > floor || (a.start_byte == a.end_byte && a.start_byte >= floor)))) by {
            if w.contains(a) && !wi.contains(a) {
                let j = choose|j: int| 0 <= j < w.len() && w[j] == a;
                assert(j == w.len() - 1);
            }
            if wi.contains(a) {
                let j = choose|j: int| 0 <= j < wi.len() && wi[j] == a;
                assert(w[j] == a);
            }
            if a == s.last() && (a.end_byte > floor || (a.start_byte == a.end_byte && a.start_byte >= floor)) {
                assert(w[w.len() - 1] == a);
            }
        }
        assert forall|a: SourceAnnotation| s.contains(a) implies (init.contains(a) || a == s.last()) by {
            let j = choose|j: int| 0 <= j < s.len() && s[j] == a;
            if j < s.len() - 1 {
                assert(init[j] == a);
            }
        }
        assert forall|a: SourceAnnotation| init.contains(a) implies s.contains(a) by {
            let j = choose|j: int| 0 <= j < init.len() && init[j] == a;
            assert(s[j] == a);
        }
        assert(s.contains(s.last())) by {
            assert(s[s.len() - 1] == s.last());
        }
    }
}

/// Over the count cap, when the records overlapping the retained byte
/// window fit the cap, every record that ends past the window's floor is
/// retained, whatever its start.
pub proof fn retention_keeps_records_overlapping_the_window(
    s: Seq<SourceAnnotation>,
    end: u64,
    max_annotations: usize,
    max_retained_bytes: u64,
)
    requires
        s.len() > max_annotations,
        window_survivors(s, span_len(end, max_retained_bytes)).len() <= max_annotations,
    ensures
        forall|a: SourceAnnotation| s.contains(a) && a.end_byte > span_len(end, max_retained_bytes)
            ==> #[trigger] retained(s, end, max_annotations, max_retained_bytes).contains(a),
{
    window_keeps_records_overlapping_it(s, span_len(end, max_retained_bytes));
}

/// Within the count cap nothing is dropped; over it, when the window's
/// survivors still exceed the cap, exactly the cap's number of the newest
/// survivors stay, in order.
pub proof fn retention_keeps_the_newest_survivors(
    s: Seq<SourceAnnotation>,
    end: u64,
    max_annotations: usize,
    max_retained_bytes: u64,
)
    ensures
        s.len() <= max_annotations ==> retained(s, end, max_annotations, max_retained_bytes) == s,
        s.len() > max_annotations && window_survivors(s, span_len(end, max_retained_bytes)).len() > max_annotations ==> {
            let w = window_survivors(s, span_len(end, max_retained_bytes));
            let r = retained(s, end, max_annotations, max_retained_bytes);
            &&& r.len() == max_annotations
            &&& forall|k: int| 0 <= k < max_annotations ==> #[trigger] r[k] == w[w.len() - max_annotations + k]
        },
{
}

/// Retention over acceptance-ordered records: nothing changes within the
/// count cap; over it, survivors of the byte window stay and, if still too
/// many, the oldest drain first.
pub open spec fn retained(s: Seq<SourceAnnotation>, end: u64, max_annotations: usize, max_retained_bytes: u64) -> Seq<
    SourceAnnotation,
> {
    if s.len() <= max_annotations {
        s
    } else {
        let kept = window_survivors(s, span_len(end, max_retained_bytes));
        if kept.len() > max_annotations {
            kept.skip(kept.len() - max_annotations)
        } else {
            kept
        }
    }
}

/// Survivors keep order and membership is exactly the surviving records.
pub proof fn lemma_window_survivors(s: Seq<SourceAnnotation>, floor: u64)
    ensures
        forall|a: SourceAnnotation| #[trigger] window_survivors(s, floor).contains(a) <==> (s.contains(a) && in_window(a, floor)),
        window_survivors(s, floor).len() <= s.len(),
        sorted_by_seqno(s) ==> sorted_by_seqno(window_survivors(s, floor)),
    decreases s.len(),
{
    if s.len() > 0 {
        let p = s.drop_last();
        lemma_window_survivors(p, floor);
        let w = window_survivors(p, floor);
        assert forall|a: SourceAnnotation| #[trigger] s.contains(a) <==> (p.contains(a) || a == s.last()) by {
            if s.contains(a) {
                let k = choose|k: int| 0 <= k < s.len() && s[k] == a;
                if k < p.len() {
                    assert(p[k] == a);
                }
            }
            if p.contains(a) {
                let k = choose|k: int| 0 <= k < p.len() && p[k] == a;
                assert(s[k] == a);
            }
        }
        if in_window(s.last(), floor) {
            assert forall|a: SourceAnnotation| #[trigger] w.push(s.last()).contains(a) <==> (w.contains(a) || a == s.last()) by {
                if w.push(s.last()).contains(a) {
                    let k = choose|k: int| 0 <= k < w.len() + 1 && w.push(s.last())[k] == a;
                    if k < w.len() {
                        assert(w[k] == a);
                    }
                }
                if w.contains(a) {
                    let k = choose|k: int| 0 <= k < w.len() && w[k] == a;
                    assert(w.push(s.last())[k] == a);
                }
                if a == s.last() {
                    assert(w.push(s.last())[w.len() as int] == a);
                }
            }
            if sorted_by_seqno(s) {
                assert(sorted_by_seqno(p));
                assert forall|i: int| 0 <= i < w.len() implies #[trigger] w[i].seqno < s.last().seqno by {
                    assert(w.contains(w[i]));
                    let k = choose|k: int| 0 <= k < p.len() && p[k] == w[i];
                    assert(s[k] == p[k]);
                }
            }
        }
    }
}

/// A suffix of a seqno-sorted run stays sorted and its members are members.
pub proof fn lemma_sorted_skip(s: Seq<SourceAnnotation>, k: int)
    requires
        0 <= k <= s.len(),
    ensures
        sorted_by_seqno(s) ==> sorted_by_seqno(s.skip(k)),
        forall|a: SourceAnnotation| #[trigger] s.skip(k).contains(a) ==> s.contains(a),
{
    assert forall|a: SourceAnnotation| #[trigger] s.skip(k).contains(a) implies s.contains(a) by {
        let j = choose|j: int| 0 <= j < s.skip(k).len() && s.skip(k)[j] == a;
        assert(s[k + j] == a);
    }
}

/// Seqno order rules out repeated sequence numbers, hence repeated keys.
pub proof fn lemma_sorted_unique(s: Seq<SourceAnnotation>)
    requires
        sorted_by_seqno(s),
    ensures
        unique_seqnos(s),
        unique_keys(s),
{
    assert forall|i: int, j: int| 0 <= i < s.len() && 0 <= j < s.len() && i != j implies s[i].seqno != s[j].seqno by {
        if i < j {
        } else {
        }
    }
}

/// Persistent source storage.
pub struct StoredSource {
    pub chunks: ChunkTree,
    pub annotations: AnnotationTree,
    pub ordered_annotations: Arc<Vec<SourceAnnotation>>,
    pub base: u64,
    pub end: u64,
    pub head_partial: bool,
    pub revision: u64,
    pub next_seqno: u64,
    pub sealed: bool,
    pub sealed_at: Option<u64>,
}

impl StoredSource {
    /// The retained bytes, from `base` to `end`.
    pub open spec fn content(&self) -> Seq<u8> {
        self.chunks.text()
    }

    /// The retained records in index order.
    pub open spec fn records(&self) -> Seq<SourceAnnotation> {
        self.annotations.records()
    }

    /// The retained records in acceptance order.
    pub open spec fn ordered(&self) -> Seq<SourceAnnotation> {
        self.ordered_annotations@
    }

    /// The storage invariant: bytes laid out from `base` to `end`, a sound
    /// index whose records start inside the stored range and carry distinct
    /// sequence numbers below `next_seqno`, and the acceptance-ordered copy
    /// of exactly those records.
    pub open spec fn wf(&self) -> bool {
        &&& self.chunks.wf_at(self.base as int)
        &&& self.base + self.content().len() == self.end
        &&& self.annotations.wf()
        &&& unique_seqnos(self.records())
        &&& forall|a: SourceAnnotation| #[trigger] self.records().contains(a) ==> a.seqno < self.next_seqno && a.start_byte <= self.end
        &&& sorted_by_seqno(self.ordered())
        &&& self.ordered().len() == self.records().len()
        &&& forall|a: SourceAnnotation| #[trigger] self.ordered().contains(a) <==> self.records().contains(a)
    }

    /// Storage with no bytes and no records.
    pub fn empty() -> (store: Self)
        ensures
            store.wf(),
            store.content().len() == 0,
            store.records().len() == 0,
            store.base == 0 && store.end == 0 && store.revision == 0 && store.next_seqno == 0,
            !store.sealed && store.sealed_at is None && !store.head_partial,
    {
        let store = StoredSource {
            chunks: ChunkTree::empty(),
            annotations: AnnotationTree::empty(),
            ordered_annotations: Arc::new(Vec::new()),
            base: 0,
            end: 0,
            head_partial: false,
            revision: 0,
            next_seqno: 0,
            sealed: false,
            sealed_at: None,
        };
        proof {
            assert(store.ordered() =~= Seq::<SourceAnnotation>::empty());
        }
        store
    }

    /// Another handle on the same persistent state.
    pub fn duplicate(&self) -> (copy: Self)
        ensures
            copy == *self,
    {
        StoredSource {
            chunks: self.chunks.share(),
            annotations: self.annotations.share(),
            ordered_annotations: share(&self.ordered_annotations),
            base: self.base,
            end: self.end,
            head_partial: self.head_partial,
            revision: self.revision,
            next_seqno: self.next_seqno,
            sealed: self.sealed,
            sealed_at: self.sealed_at,
        }
    }

    pub fn is_empty(&self) -> (empty: bool)
        requires
            self.wf(),
        ensures
            empty == (self.base == 0 && self.end == 0 && self.revision == 0 && self.records().len() == 0),
    {
        self.base == 0 && self.end == 0 && self.revision == 0 && self.annotations.is_empty()
    }

    pub fn base(&self) -> (base: u64)
        ensures
            base == self.base,
    {
        self.base
    }

    pub fn end(&self) -> (end: u64)
        ensures
            end == self.end,
    {
        self.end
    }

    pub fn head_partial(&self) -> (partial: bool)
        ensures
            partial == self.head_partial,
    {
        self.head_partial
    }

    pub fn revision(&self) -> (revision: u64)
        ensures
            revision == self.revision,
    {
        self.revision
    }

    /// Bytes from `base` to the end (zero if `base` lies past it).
    pub fn byte_len(&self, base: u64) -> (len: u64)
        ensures
            len == span_len(self.end, base),
    {
        self.end.saturating_sub(base)
    }

    pub fn retained_bytes(&self) -> (len: u64)
        ensures
            len == span_len(self.end, self.base),
    {
        self.end.saturating_sub(self.base)
    }

    pub fn sealed(&self) -> (sealed: bool)
        ensures
            sealed == self.sealed,
    {
        self.sealed
    }

    pub fn sealed_at(&self) -> (at: Option<u64>)
        ensures
            at == self.sealed_at,
    {
        self.sealed_at
    }

    pub fn annotation_count(&self) -> (count: usize)
        requires
            self.wf(),
        ensures
            count == sat_len(self.records().len()),
    {
        self.annotations.len()
    }

    pub fn chunk_count(&self) -> (count: usize)
        requires
            self.wf(),
        ensures
            count == self.chunks.leaf_total(),
    {
        proof {
            self.chunks.lemma_wf_at(self.base as int);
        }
        self.chunks.leaf_count()
    }

    /// Number of line entries (saturating at `usize::MAX`).
    pub fn line_count(&self) -> (count: usize)
        requires
            self.wf(),
        ensures
            count == if nl_count(self.content()) + 1 > usize::MAX { usize::MAX as int } else { nl_count(self.content()) + 1 },
    {
        proof {
            self.chunks.lemma_wf_at(self.base as int);
        }
        let entries = self.chunks.line_entries();
        if entries > usize::MAX as u64 {
            usize::MAX
        } else {
            entries as usize
        }
    }
}


/// Stored forms of a batch, with consecutive sequence numbers from `first`.
fn records_from(annos: &Vec<ValidatedAnnotation>, first: u64) -> (records: Vec<SourceAnnotation>)
    requires
        first + annos@.len() <= u64::MAX,
    ensures
        records@.len() == annos@.len(),
        forall|i: int| 0 <= i < annos@.len() ==> is_record_of(#[trigger] records@[i], annos@[i], (first + i) as u64),
{
    let mut records: Vec<SourceAnnotation> = Vec::new();
    let mut i: usize = 0;
    while i < annos.len()
        invariant
            i <= annos@.len(),
            first + annos@.len() <= u64::MAX,
            records@.len() == i,
            forall|k: int| 0 <= k < i ==> is_record_of(#[trigger] records@[k], annos@[k], (first + k) as u64),
        decreases annos@.len() - i,
    {
        records.push(record_of(&annos[i], first + i as u64));
        i += 1;
    }
    records
}


/// The index with a batch of new records appended: the batch's keys all
/// lie above every stored key.
fn append_records(tree: &AnnotationTree, annos: &Vec<ValidatedAnnotation>, first: u64, Ghost(end): Ghost<u64>) -> (result: (AnnotationTree, Ghost<Seq<SourceAnnotation>>))
    requires
        tree.wf(),
        unique_seqnos(tree.records()),
        first + annos@.len() <= u64::MAX,
        forall|a: SourceAnnotation| #[trigger] tree.records().contains(a) ==> a.seqno < first && a.start_byte <= end,
        forall|i: int| 0 <= i < annos@.len() ==> end <= #[trigger] annos@[i].start_byte,
    ensures
        result.0.wf(),
        unique_seqnos(result.0.records()),
        result.0.records().len() == tree.records().len() + annos@.len(),
        forall|a: SourceAnnotation| #[trigger] result.0.records().contains(a) ==> (tree.records().contains(a)
            || exists|i: int| 0 <= i < annos@.len() && is_record_of(a, #[trigger] annos@[i], (first + i) as u64)),
        forall|a: SourceAnnotation| #[trigger] tree.records().contains(a) ==> result.0.records().contains(a),
        result.1@.len() == annos@.len(),
        forall|i: int| 0 <= i < annos@.len() ==> #[trigger] result.0.records().contains(result.1@[i])
            && is_record_of(result.1@[i], annos@[i], (first + i) as u64),
{
let ghost old_records = tree.records();
if annos.len() > 0 {
        let records = records_from(&annos, first);
        proof {
            assert forall|i: int, j: int| 0 <= i < records@.len() && 0 <= j < records@.len() && i != j
                implies key_of(records@[i]) != key_of(records@[j]) by {
                assert(is_record_of(records@[i], annos@[i], (first + i) as u64));
                assert(is_record_of(records@[j], annos@[j], (first + j) as u64));
            }
        }
        let ghost batch_values = records@;
        let batch = AnnotationTree::from_sorted_batch(records);
        proof {
            assert forall|i: int, j: int|
                0 <= i < tree.records().len() && 0 <= j < batch.records().len() implies key_lt(
                    #[trigger] key_of(tree.records()[i]),
                    #[trigger] key_of(batch.records()[j]),
                ) by {
                assert(tree.records().contains(tree.records()[i]));
                assert(batch.records().contains(batch.records()[j]));
                let k = choose|k: int| 0 <= k < batch_values.len() && batch_values[k] == batch.records()[j];
                assert(is_record_of(batch_values[k], annos@[k], (first + k) as u64));
            }
        }
        let merged = tree.merge_append(&batch);
        proof {
            let all = merged.records();
            assert forall|i: int| 0 <= i < annos@.len() implies #[trigger] merged.records().contains(batch_values[i])
                && is_record_of(batch_values[i], annos@[i], (first + i) as u64) by {
                let a = batch_values[i];
                assert(is_record_of(a, annos@[i], (first + i) as u64));
                assert(batch_values.contains(a));
                assert(batch.records().contains(a));
                let m = choose|m: int| 0 <= m < batch.records().len() && batch.records()[m] == a;
                assert(all[old_records.len() + m] == a);
                assert(all.contains(a));
            }
            assert forall|a: SourceAnnotation| #[trigger] old_records.contains(a) implies all.contains(a) by {
                let k = choose|k: int| 0 <= k < old_records.len() && old_records[k] == a;
                assert(all[k] == a);
            }
            assert forall|a: SourceAnnotation| #[trigger] all.contains(a) implies (old_records.contains(a)
                || exists|i: int| 0 <= i < annos@.len() && is_record_of(a, #[trigger] annos@[i], (first + i) as u64)) by {
                if all.contains(a) {
                    let k = choose|k: int| 0 <= k < all.len() && all[k] == a;
                    if k >= old_records.len() {
                        assert(batch.records()[k - old_records.len()] == a);
                        assert(batch.records().contains(a));
                        let m = choose|m: int| 0 <= m < batch_values.len() && batch_values[m] == a;
                        assert(is_record_of(batch_values[m], annos@[m], (first + m) as u64));
                    } else {
                        assert(old_records[k] == a);
                    }
                }
                if old_records.contains(a) {
                    let k = choose|k: int| 0 <= k < old_records.len() && old_records[k] == a;
                    assert(all[k] == a);
                }
            }
            assert forall|i: int, j: int| 0 <= i < all.len() && 0 <= j < all.len() && i != j implies all[i].seqno != all[j].seqno by {
                assert(all.contains(all[i]));
                assert(all.contains(all[j]));
                if i < old_records.len() && j < old_records.len() {
                    assert(all[i] == old_records[i]);
                    assert(all[j] == old_records[j]);
                } else if i >= old_records.len() && j >= old_records.len() {
                    let bi = batch.records()[i - old_records.len()];
                    let bj = batch.records()[j - old_records.len()];
                    assert(all[i] == bi);
                    assert(all[j] == bj);
                    assert(batch.records().contains(bi));
                    assert(batch.records().contains(bj));
                    let mi = choose|m: int| 0 <= m < batch_values.len() && batch_values[m] == bi;
                    let mj = choose|m: int| 0 <= m < batch_values.len() && batch_values[m] == bj;
                    assert(is_record_of(batch_values[mi], annos@[mi], (first + mi) as u64));
                    assert(is_record_of(batch_values[mj], annos@[mj], (first + mj) as u64));
                    batch.lemma_sorted();
                    if mi == mj {
                        assert(bi == bj);
                        assert(key_lt(key_of(batch.records()[i - old_records.len()]), key_of(batch.records()[j - old_records.len()]))
                            || key_lt(key_of(batch.records()[j - old_records.len()]), key_of(batch.records()[i - old_records.len()])));
                    }
                } else {
                    let (o, b) = if i < old_records.len() { (i, j) } else { (j, i) };
                    assert(all[o] == old_records[o]);
                    assert(old_records.contains(old_records[o]));
                    let bb = batch.records()[b - old_records.len()];
                    assert(all[b] == bb);
                    assert(batch.records().contains(bb));
                    let m = choose|m: int| 0 <= m < batch_values.len() && batch_values[m] == bb;
                    assert(is_record_of(batch_values[m], annos@[m], (first + m) as u64));
                }
            }
        }
        (merged, Ghost(batch_values))
    } else {
        (tree.share(), Ghost(Seq::empty()))
    }
}

impl StoredSource {
    /// Appends validated text plus its validated annotations, whose ranges
    /// start inside the appended bytes. Refused on a sealed source, and when
    /// the end coordinate would leave the `u64` range.
    pub fn apply_append(&self, text: &str, revision: u64, annos: Vec<ValidatedAnnotation>) -> (result: Result<Self, ContentError>)
        requires
            self.wf(),
            self.next_seqno + annos@.len() <= u64::MAX,
            forall|i: int| 0 <= i < annos@.len() ==> self.end <= #[trigger] annos@[i].start_byte <= self.end + text.spec_bytes().len(),
        ensures
            result == Err::<Self, ContentError>(ContentError::Sealed) <==> self.sealed,
            result == Err::<Self, ContentError>(ContentError::LengthOverflow) <==> !self.sealed && self.end + text.spec_bytes().len() > u64::MAX,
            result is Ok <==> !self.sealed && self.end + text.spec_bytes().len() <= u64::MAX,
            result matches Ok(next) ==> {
                &&& next.wf()
                &&& next.content() == self.content() + text.spec_bytes()
                &&& next.base == self.base
                &&& next.end == self.end + text.spec_bytes().len()
                &&& next.revision == revision
                &&& next.next_seqno == self.next_seqno + annos@.len()
                &&& next.head_partial == self.head_partial
                &&& next.sealed == self.sealed
                &&& next.sealed_at == self.sealed_at
                &&& next.records().len() == self.records().len() + annos@.len()
                &&& forall|a: SourceAnnotation| #[trigger] next.records().contains(a) ==> (self.records().contains(a)
                    || from_batch(a, annos@, self.next_seqno))
                &&& forall|a: SourceAnnotation| #[trigger] self.records().contains(a) ==> next.records().contains(a)
                &&& holds_batch(next.records(), annos@, self.next_seqno)
            },
    {
        if self.sealed {
            return Err(ContentError::Sealed);
        }
        let len = text.as_bytes().len();
        if len > 0 && self.end > u64::MAX - len as u64 {
            return Err(ContentError::LengthOverflow);
        }
        proof {
            self.chunks.lemma_bounds(self.base as int);
        }
        let chunks = if len > 0 {
            self.chunks.appended(text, self.end)
        } else {
            proof {
                assert(text.spec_bytes() =~= Seq::<u8>::empty());
                assert(self.content() + text.spec_bytes() =~= self.content());
            }
            self.chunks.share()
        };
        let (annotations, Ghost(accepted)) = append_records(&self.annotations, &annos, self.next_seqno, Ghost(self.end));
        let ordered = annotations.in_application_order();
        let next = StoredSource {
            chunks,
            annotations,
            ordered_annotations: Arc::new(ordered),
            base: self.base,
            end: self.end + len as u64,
            head_partial: self.head_partial,
            revision,
            next_seqno: self.next_seqno + annos.len() as u64,
            sealed: self.sealed,
            sealed_at: self.sealed_at,
        };
        proof {
            assert forall|a: SourceAnnotation| #[trigger] next.records().contains(a) implies a.seqno < next.next_seqno && a.start_byte <= next.end by {
                if self.records().contains(a) {
                } else {
                    let i = choose|i: int| 0 <= i < annos@.len() && is_record_of(a, #[trigger] annos@[i], (self.next_seqno + i) as u64);
                }
            }
            assert(next.chunks.wf_at(next.base as int));
            assert(next.base + next.content().len() == next.end);
            assert(next.annotations.wf());
            assert(unique_seqnos(next.records()));
            assert(sorted_by_seqno(next.ordered()));
            assert(next.ordered().len() == next.records().len());
            assert(next.content() == self.content() + text.spec_bytes());
            assert(next.records().len() == self.records().len() + annos@.len());
            assert(forall|a: SourceAnnotation| #[trigger] self.records().contains(a) ==> next.records().contains(a));
            assert forall|a: SourceAnnotation| #[trigger] next.records().contains(a) implies (self.records().contains(a)
                    || from_batch(a, annos@, self.next_seqno)) by {
            }
            assert(batch_witness(next.records(), annos@, self.next_seqno, accepted));
            assert(holds_batch(next.records(), annos@, self.next_seqno));
            assert(next.wf());
        }
        Ok(next)
    }
}


/// Copies a record vector, sharing each payload.
fn copy_records(records: &Vec<SourceAnnotation>) -> (copy: Vec<SourceAnnotation>)
    ensures
        copy@ == records@,
{
    let mut copy: Vec<SourceAnnotation> = Vec::new();
    let mut i: usize = 0;
    while i < records.len()
        invariant
            i <= records@.len(),
            copy@ == records@.take(i as int),
        decreases records@.len() - i,
    {
        copy.push(records[i].duplicate());
        i += 1;
        assert(copy@ =~= records@.take(i as int));
    }
    assert(records@.take(records@.len() as int) =~= records@);
    copy
}

/// Appending a record with a sequence number above every member keeps a
/// seqno-sorted run sorted and adds exactly that record.
pub proof fn lemma_push_newest(s: Seq<SourceAnnotation>, r: SourceAnnotation)
    requires
        sorted_by_seqno(s),
        forall|a: SourceAnnotation| #[trigger] s.contains(a) ==> a.seqno < r.seqno,
    ensures
        sorted_by_seqno(s.push(r)),
        forall|a: SourceAnnotation| #[trigger] s.push(r).contains(a) <==> (s.contains(a) || a == r),
{
    assert forall|i: int, j: int| 0 <= i < j < s.push(r).len() implies s.push(r)[i].seqno < s.push(r)[j].seqno by {
        if j == s.len() {
            assert(s.contains(s[i]));
        }
    }
    assert forall|a: SourceAnnotation| #[trigger] s.push(r).contains(a) <==> (s.contains(a) || a == r) by {
        if s.push(r).contains(a) {
            let k = choose|k: int| 0 <= k < s.push(r).len() && s.push(r)[k] == a;
            if k < s.len() {
                assert(s[k] == a);
            }
        }
        if s.contains(a) {
            let k = choose|k: int| 0 <= k < s.len() && s[k] == a;
            assert(s.push(r)[k] == a);
        }
        if a == r {
            assert(s.push(r)[s.len() as int] == a);
        }
    }
}

impl StoredSource {
    /// The index and its acceptance-ordered copy with one new record whose
    /// sequence number is `next_seqno`.
    fn with_record(&self, anno: &ValidatedAnnotation) -> (parts: (AnnotationTree, Vec<SourceAnnotation>))
        requires
            self.wf(),
            self.next_seqno < u64::MAX,
        ensures
            parts.0.wf(),
            unique_seqnos(parts.0.records()),
            sorted_by_seqno(parts1_view(parts)),
            parts1_view(parts).len() == parts.0.records().len(),
            forall|a: SourceAnnotation| #[trigger] parts1_view(parts).contains(a) <==> parts.0.records().contains(a),
            parts1_view(parts).len() == self.ordered().len() + 1,
            parts1_view(parts).drop_last() == self.ordered(),
            is_record_of(parts1_view(parts).last(), *anno, self.next_seqno),
    {
        let record = record_of(anno, self.next_seqno);
        let ghost r = record;
        proof {
            assert forall|i: int| 0 <= i < self.records().len() implies key_of(#[trigger] self.records()[i]) != key_of(record) by {
                assert(self.records().contains(self.records()[i]));
            }
        }
        let inserted = self.annotations.insert(record.duplicate());
        let mut ordered = copy_records(&self.ordered_annotations);
        ordered.push(record);
        proof {
            assert forall|a: SourceAnnotation| #[trigger] self.ordered().contains(a) implies a.seqno < r.seqno by {
                assert(self.records().contains(a));
            }
            lemma_push_newest(self.ordered(), r);
            assert(ordered@ == self.ordered().push(r));
            assert(ordered@.drop_last() =~= self.ordered());
            lemma_sorted_unique(ordered@);
            assert forall|i: int, j: int| 0 <= i < inserted.records().len() && 0 <= j < inserted.records().len() && i != j
                implies inserted.records()[i].seqno != inserted.records()[j].seqno by {
                let x = inserted.records()[i];
                let y = inserted.records()[j];
                assert(inserted.records().contains(x));
                assert(inserted.records().contains(y));
                inserted.lemma_sorted();
                if x.seqno == y.seqno {
                    assert(ordered@.contains(x));
                    assert(ordered@.contains(y));
                    let p = choose|p: int| 0 <= p < ordered@.len() && ordered@[p] == x;
                    let q = choose|q: int| 0 <= q < ordered@.len() && ordered@[q] == y;
                    assert(p == q);
                    assert(key_lt(key_of(x), key_of(y)) || key_lt(key_of(y), key_of(x)));
                }
            }
        }
        (inserted, ordered)
    }

    /// Retention over the stored records: within the count cap nothing
    /// changes; over it, a record survives when it overlaps the retained
    /// byte window or is zero-length at or after the window floor, and
    /// over-count survivors drop oldest first.
    pub fn enforce_retention(&self, max_annotations: usize, max_retained_bytes: u64) -> (next: Self)
        requires
            self.wf(),
        ensures
            next.wf(),
            next.ordered() == retained(self.ordered(), self.end, max_annotations, max_retained_bytes),
            next.chunks == self.chunks,
            next.base == self.base && next.end == self.end && next.head_partial == self.head_partial,
            next.revision == self.revision && next.next_seqno == self.next_seqno,
            next.sealed == self.sealed && next.sealed_at == self.sealed_at,
            self.ordered().len() > max_annotations && window_survivors(self.ordered(), span_len(self.end, max_retained_bytes)).len()
                <= max_annotations ==> forall|a: SourceAnnotation| self.ordered().contains(a) && a.end_byte > span_len(
                self.end,
                max_retained_bytes,
            ) ==> #[trigger] next.ordered().contains(a),
    {
        proof {
            if self.ordered().len() > max_annotations && window_survivors(self.ordered(), span_len(self.end, max_retained_bytes)).len()
                <= max_annotations {
                retention_keeps_records_overlapping_the_window(self.ordered(), self.end, max_annotations, max_retained_bytes);
            }
        }
        let count = self.ordered_annotations.len();
        if count <= max_annotations {
            return self.duplicate();
        }
        let floor = self.end.saturating_sub(max_retained_bytes);
        let ordered = self.annotations.in_application_order();
        proof {
            lemma_seqno_sorted_unique(ordered@, self.ordered());
        }
        let mut kept: Vec<SourceAnnotation> = Vec::new();
        let mut i: usize = 0;
        proof {
            assert(ordered@.take(0) =~= Seq::<SourceAnnotation>::empty());
        }
        while i < ordered.len()
            invariant
                i <= ordered@.len(),
                kept@ == window_survivors(ordered@.take(i as int), floor),
            decreases ordered@.len() - i,
        {
            proof {
                assert(ordered@.take(i as int + 1).drop_last() =~= ordered@.take(i as int));
                assert(ordered@.take(i as int + 1).last() == ordered@[i as int]);
            }
            let record = &ordered[i];
            if record.end_byte > floor || (record.start_byte == record.end_byte && record.start_byte >= floor) {
                kept.push(record.duplicate());
            }
            i += 1;
        }
        proof {
            assert(ordered@.take(ordered@.len() as int) =~= ordered@);
            lemma_window_survivors(ordered@, floor);
        }
        let survivors = if kept.len() > max_annotations {
            let drop = kept.len() - max_annotations;
            let mut tail: Vec<SourceAnnotation> = Vec::new();
            let mut k: usize = drop;
            while k < kept.len()
                invariant
                    drop <= k <= kept@.len(),
                    tail@ == kept@.subrange(drop as int, k as int),
                decreases kept@.len() - k,
            {
                tail.push(kept[k].duplicate());
                k += 1;
                assert(tail@ =~= kept@.subrange(drop as int, k as int));
            }
            assert(tail@ =~= kept@.skip(drop as int));
            tail
        } else {
            kept
        };
        let ghost sv = survivors@;
        proof {
            let w = window_survivors(self.ordered(), floor);
            assert(sv == retained(self.ordered(), self.end, max_annotations, max_retained_bytes));
            lemma_sorted_skip(w, if w.len() > max_annotations { w.len() - max_annotations } else { 0 });
            assert(w.skip(0) =~= w);
            lemma_sorted_unique(sv);
            assert forall|a: SourceAnnotation| #[trigger] sv.contains(a) implies self.records().contains(a) by {
                assert(w.contains(a));
                assert(self.ordered().contains(a));
            }
        }
        let ordered_copy = copy_records(&survivors);
        let annotations = AnnotationTree::from_sorted_batch(survivors);
        let next = StoredSource {
            chunks: self.chunks.share(),
            annotations,
            ordered_annotations: Arc::new(ordered_copy),
            base: self.base,
            end: self.end,
            head_partial: self.head_partial,
            revision: self.revision,
            next_seqno: self.next_seqno,
            sealed: self.sealed,
            sealed_at: self.sealed_at,
        };
        proof {
            assert forall|i: int, j: int| 0 <= i < next.records().len() && 0 <= j < next.records().len() && i != j
                implies next.records()[i].seqno != next.records()[j].seqno by {
                let x = next.records()[i];
                let y = next.records()[j];
                assert(next.records().contains(x));
                assert(next.records().contains(y));
                annotations.lemma_sorted();
                if x.seqno == y.seqno {
                    let p = choose|p: int| 0 <= p < sv.len() && sv[p] == x;
                    let q = choose|q: int| 0 <= q < sv.len() && sv[q] == y;
                    assert(p == q);
                    assert(key_lt(key_of(x), key_of(y)) || key_lt(key_of(y), key_of(x)));
                }
            }
            assert forall|a: SourceAnnotation| #[trigger] next.records().contains(a) implies a.seqno < next.next_seqno
                && a.start_byte <= next.end by {
                assert(sv.contains(a));
                assert(self.records().contains(a));
            }
        }
        next
    }
}

/// The acceptance-ordered part of a `with_record` result.
pub open spec fn parts1_view(parts: (AnnotationTree, Vec<SourceAnnotation>)) -> Seq<SourceAnnotation> {
    parts.1@
}


/// `next` holds the acceptance-ordered records of `before` with the stored
/// form of `anno` appended under sequence number `seqno`, then retained.
pub open spec fn annotated(
    before: Seq<SourceAnnotation>,
    next: Seq<SourceAnnotation>,
    anno: ValidatedAnnotation,
    seqno: u64,
    end: u64,
    max_annotations: usize,
    max_retained_bytes: u64,
) -> bool {
    exists|r: SourceAnnotation| #[trigger] is_record_of(r, anno, seqno) && next == retained(
        before.push(r),
        end,
        max_annotations,
        max_retained_bytes,
    )
}

/// `next` is `before` with the stored form of `anno` appended under
/// sequence number `seqno`.
pub open spec fn marked(before: Seq<SourceAnnotation>, next: Seq<SourceAnnotation>, anno: ValidatedAnnotation, seqno: u64) -> bool {
    exists|r: SourceAnnotation| #[trigger] is_record_of(r, anno, seqno) && next == before.push(r)
}

impl StoredSource {
    /// Records one validated annotation, then enforces the retention caps.
    pub fn apply_annotation(
        &self,
        anno: ValidatedAnnotation,
        revision: u64,
        max_annotations: usize,
        max_retained_bytes: u64,
    ) -> (result: Result<Self, ContentError>)
        requires
            self.wf(),
            self.next_seqno < u64::MAX,
            anno.start_byte <= self.end,
        ensures
            result is Err <==> self.sealed,
            result is Err ==> result == Err::<Self, ContentError>(ContentError::Sealed),
            result matches Ok(next) ==> {
                &&& next.wf()
                &&& next.chunks == self.chunks
                &&& next.base == self.base && next.end == self.end && next.head_partial == self.head_partial
                &&& next.sealed == self.sealed && next.sealed_at == self.sealed_at
                &&& next.revision == revision
                &&& next.next_seqno == self.next_seqno + 1
                &&& annotated(self.ordered(), next.ordered(), anno, self.next_seqno, self.end, max_annotations, max_retained_bytes)
            },
    {
        if self.sealed {
            return Err(ContentError::Sealed);
        }
        let (inserted, ordered) = self.with_record(&anno);
        let ghost r = ordered@.last();
        let mid = StoredSource {
            chunks: self.chunks.share(),
            annotations: inserted,
            ordered_annotations: Arc::new(ordered),
            base: self.base,
            end: self.end,
            head_partial: self.head_partial,
            revision,
            next_seqno: self.next_seqno + 1,
            sealed: self.sealed,
            sealed_at: self.sealed_at,
        };
        proof {
            assert(mid.ordered() =~= self.ordered().push(r));
            assert forall|a: SourceAnnotation| #[trigger] mid.records().contains(a) implies a.seqno < mid.next_seqno
                && a.start_byte <= mid.end by {
                assert(mid.ordered().contains(a));
                if a != r {
                    let k = choose|k: int| 0 <= k < mid.ordered().len() && mid.ordered()[k] == a;
                    assert(k < self.ordered().len());
                    assert(self.ordered()[k] == a);
                    assert(self.ordered().contains(a));
                }
            }
        }
        let next = mid.enforce_retention(max_annotations, max_retained_bytes);
        proof {
            assert(is_record_of(r, anno, self.next_seqno));
        }
        Ok(next)
    }

    /// Seals the source at `at`. Range errors precede the sealed check; the
    /// marker annotation, when present, is stored with the seal.
    pub fn apply_seal(&self, base: u64, at: u64, revision: u64, marker: Option<ValidatedAnnotation>) -> (result: Result<
        Self,
        ContentError,
    >)
        requires
            self.wf(),
            marker is Some ==> self.next_seqno < u64::MAX && marker->0.start_byte <= self.end,
        ensures
            result == Err::<Self, ContentError>(ContentError::InvalidByteRange { start: at, end: at, len: span_len(self.end, base) })
                <==> at < base || at > self.end,
            result == Err::<Self, ContentError>(ContentError::AlreadySealed) <==> base <= at <= self.end && self.sealed,
            result is Ok <==> base <= at <= self.end && !self.sealed,
            result matches Ok(next) ==> {
                &&& next.wf()
                &&& next.chunks == self.chunks
                &&& next.base == self.base && next.end == self.end && next.head_partial == self.head_partial
                &&& next.sealed && next.sealed_at == Some(at)
                &&& next.revision == revision
                &&& marker is None ==> next.next_seqno == self.next_seqno && next.ordered() == self.ordered()
                &&& marker matches Some(m) ==> next.next_seqno == self.next_seqno + 1 && marked(
                    self.ordered(),
                    next.ordered(),
                    m,
                    self.next_seqno,
                )
            },
    {
        if at < base || at > self.end {
            return Err(ContentError::InvalidByteRange { start: at, end: at, len: self.byte_len(base) });
        }
        if self.sealed {
            return Err(ContentError::AlreadySealed);
        }
        match marker {
            None => {
                let next = StoredSource {
                    chunks: self.chunks.share(),
                    annotations: self.annotations.share(),
                    ordered_annotations: share(&self.ordered_annotations),
                    base: self.base,
                    end: self.end,
                    head_partial: self.head_partial,
                    revision,
                    next_seqno: self.next_seqno,
                    sealed: true,
                    sealed_at: Some(at),
                };
                Ok(next)
            },
            Some(anno) => {
                let (inserted, ordered) = self.with_record(&anno);
                let ghost r = ordered@.last();
                let next = StoredSource {
                    chunks: self.chunks.share(),
                    annotations: inserted,
                    ordered_annotations: Arc::new(ordered),
                    base: self.base,
                    end: self.end,
                    head_partial: self.head_partial,
                    revision,
                    next_seqno: self.next_seqno + 1,
                    sealed: true,
                    sealed_at: Some(at),
                };
                proof {
                    assert(next.ordered() =~= self.ordered().push(r));
                    assert(is_record_of(r, anno, self.next_seqno));
                    assert forall|a: SourceAnnotation| #[trigger] next.records().contains(a) implies a.seqno < next.next_seqno
                        && a.start_byte <= next.end by {
                        assert(next.ordered().contains(a));
                        if a != r {
                            let k = choose|k: int| 0 <= k < next.ordered().len() && next.ordered()[k] == a;
                            assert(k < self.ordered().len());
                            assert(self.ordered()[k] == a);
                            assert(self.ordered().contains(a));
                        }
                    }
                }
                Ok(next)
            },
        }
    }

    /// Truncates the head at `offset`. Offsets past the end are rejected
    /// before anything moves; offsets at or before the base change nothing
    /// and report zero dropped bytes.
    pub fn apply_truncate(&self, base: u64, offset: u64, revision: u64) -> (result: Result<(Self, u64), ContentError>)
        requires
            self.wf(),
            base == self.base,
        ensures
            result == Err::<(Self, u64), ContentError>(ContentError::InvalidByteRange { start: offset, end: offset, len: span_len(self.end, base) })
                <==> offset > self.end,
            result is Ok <==> offset <= self.end,
            result matches Ok((next, dropped)) ==> {
                &&& offset <= base ==> next == *self && dropped == 0
                &&& offset > base ==> {
                    &&& next.wf()
                    &&& next.base == offset && next.end == self.end
                    &&& next.content() == self.content().skip(offset - base)
                    &&& dropped == offset - base
                    &&& next.revision == revision
                    &&& next.next_seqno == self.next_seqno
                    &&& next.sealed == self.sealed && next.sealed_at == self.sealed_at
                    &&& next.head_partial == (offset < self.end && self.content()[offset - 1 - base] != 10u8)
                    &&& forall|x: SourceAnnotation| #[trigger] next.records().contains(x) <==> exists|b: SourceAnnotation|
                        #[trigger] self.records().contains(b) && truncated_record(b, offset) == Some(x)
                }
            },
    {
        if offset > self.end {
            return Err(ContentError::InvalidByteRange { start: offset, end: offset, len: self.byte_len(base) });
        }
        if offset <= base {
            return Ok((self.duplicate(), 0));
        }
        let (chunks, dropped) = self.chunks.truncated_head(base, offset);
        let annotations = self.annotations.truncate_head(offset);
        let partial = offset < self.end && (offset != 0 && self.chunks.byte_at(base, offset - 1) != Some(10u8));
        let ordered = annotations.in_application_order();
        let next = StoredSource {
            chunks,
            annotations,
            ordered_annotations: Arc::new(ordered),
            base: offset,
            end: self.end,
            head_partial: partial,
            revision,
            next_seqno: self.next_seqno,
            sealed: self.sealed,
            sealed_at: self.sealed_at,
        };
        proof {
            assert forall|x: SourceAnnotation| #[trigger] next.records().contains(x) implies x.seqno < next.next_seqno
                && x.start_byte <= next.end by {
                let b = choose|b: SourceAnnotation| #[trigger] self.records().contains(b) && truncated_record(b, offset) == Some(x);
            }
        }
        Ok((next, dropped))
    }
}


impl StoredSource {
    /// The descriptor bytes holding an absolute offset, and the offset's
    /// index in them.
    pub fn locate(&self, base: u64, offset: u64) -> (found: Option<(&[u8], usize)>)
        requires
            self.wf(),
            base == self.base,
        ensures
            found is Some <==> base <= offset < self.end,
            found matches Some((bytes, local)) ==> local < bytes@.len() && bytes@[local as int] == self.content()[offset - base],
    {
        self.chunks.locate(base, offset)
    }

    /// The byte at an absolute offset.
    pub fn byte_at(&self, base: u64, offset: u64) -> (byte: Option<u8>)
        requires
            self.wf(),
            base == self.base,
        ensures
            byte == if base <= offset < self.end { Some(self.content()[offset - base]) } else { None },
    {
        self.chunks.byte_at(base, offset)
    }

    /// Entry `0` is the range base; entry `i > 0` follows the `(i-1)`-th
    /// newline.
    pub fn line_entry(&self, base: u64, index: u64) -> (entry: Option<u64>)
        requires
            self.wf(),
            base == self.base,
        ensures
            entry == if index < line_starts(base as int, self.content()).len() {
                Some(line_starts(base as int, self.content())[index as int] as u64)
            } else {
                None::<u64>
            },
    {
        self.chunks.line_entry(base, index)
    }

    /// Smallest line start at or after `target`, if any.
    pub fn first_line_at_or_after(&self, base: u64, target: u64) -> (found: Option<u64>)
        requires
            self.wf(),
            base == self.base,
        ensures
            found matches Some(e) ==> {
                &&& line_starts(base as int, self.content()).contains(e as int)
                &&& e >= target
                &&& forall|k: int| 0 <= k < line_starts(base as int, self.content()).len()
                    && #[trigger] line_starts(base as int, self.content())[k] >= target ==> e <= line_starts(base as int, self.content())[k]
            },
            found is None ==> forall|k: int| 0 <= k < line_starts(base as int, self.content()).len()
                ==> #[trigger] line_starts(base as int, self.content())[k] < target,
    {
        self.chunks.first_line_at_or_after(base, target)
    }

    /// The last line start of the range.
    pub fn last_line_start(&self, base: u64) -> (start: u64)
        requires
            self.wf(),
            base == self.base,
        ensures
            start == line_starts(base as int, self.content()).last(),
    {
        self.chunks.last_line_start(base)
    }

    /// Collects the absolute line starts in order, shifting each view's
    /// precomputed newline offsets by its absolute start.
    pub fn collect_line_entries(&self, base: u64, out: &mut Vec<u64>)
        requires
            self.wf(),
            base == self.base,
        ensures
            final(out)@.len() == line_starts(base as int, self.content()).len(),
            forall|k: int| 0 <= k < final(out)@.len() ==> #[trigger] final(out)@[k] == line_starts(base as int, self.content())[k],
    {
        out.clear();
        out.push(base);
        proof {
            self.chunks.lemma_wf_at(base as int);
        }
        let descs = self.chunks.iter_descs();
        let ghost ds = descs@;
        let ghost t = self.content();
        let ghost ls = line_starts(base as int, t);
        proof {
            self.chunks.lemma_layout(base as int);
            lemma_nl_ends_props(t);
            assert(ds.take(0) =~= Seq::<ChunkDesc>::empty());
            assert(descs_text(Seq::<ChunkDesc>::empty()) =~= Seq::<u8>::empty());
            assert(nl_ends(Seq::<u8>::empty()) =~= Seq::<int>::empty());
            assert(ls[0] == base);
        }
        let mut i: usize = 0;
        while i < descs.len()
            invariant
                ds == descs@,
                ds == self.chunks.descs(),
                t == descs_text(ds),
                ls == line_starts(base as int, t),
                self.chunks.wf_at(base as int),
                crate::chunk::descs_ok(ds, base as int),
                i <= ds.len(),
                out@.len() == 1 + nl_count(descs_text(ds.take(i as int))),
                nl_count(descs_text(ds.take(i as int))) <= nl_count(t),
                forall|k: int| 0 <= k < out@.len() ==> #[trigger] out@[k] == ls[k],
            decreases ds.len() - i,
        {
            let desc = &descs[i];
            let ghost pre = descs_text(ds.take(i as int));
            let ghost db = desc.view_bytes();
            proof {
                lemma_descs_text_at(ds, i as int);
                lemma_nl_mid(pre, db, descs_text(ds.skip(i as int + 1)));
                assert(desc.wf());
                desc.lemma_wf();
                lemma_nl_ends_props(db);
                assert(desc.view_bytes().len() <= u32::MAX);
                assert(desc.start() == base + pre.len());
                lemma_descs_ok_split(ds, base as int, i as int + 1);
                lemma_nl_ends_props(db);
            }
            let count = desc.newlines();
            let mut q: u64 = 0;
            while q < count
                invariant
                    desc.wf(),
                    db == desc.view_bytes(),
                    count == nl_count(db),
                    count <= u32::MAX,
                    db.len() == desc.size(),
                    q <= count,
                    ls == line_starts(base as int, t),
                    desc.start() == base + pre.len(),
                    desc.start() + desc.size() <= u64::MAX,
                    forall|m: int| 0 <= m < nl_count(db) ==> #[trigger] nl_ends(t)[nl_count(pre) + m] == pre.len() + nl_ends(db)[m],
                    forall|m: int| 0 <= m < nl_ends(db).len() ==> 1 <= #[trigger] nl_ends(db)[m] <= db.len(),
                    nl_count(pre) + nl_count(db) <= nl_count(t),
                    out@.len() == 1 + nl_count(pre) + q,
                    forall|k: int| 0 <= k < out@.len() ==> #[trigger] out@[k] == ls[k],
                decreases count - q,
            {
                let off = desc.line_offset(q as usize);
                match desc.abs_start().checked_add(off as u64) {
                    Some(entry) => {
                        proof {
                            assert(ls[1 + nl_count(pre) + q] == base + nl_ends(t)[nl_count(pre) + q]);
                        }
                        out.push(entry);
                    },
                    None => {},
                }
                q += 1;
            }
            i += 1;
        }
        proof {
            assert(ds.take(ds.len() as int) =~= ds);
        }
    }

    /// Materializes the retained bytes into `out`.
    pub fn collect_text(&self, out: &mut Vec<u8>)
        requires
            self.wf(),
        ensures
            final(out)@ == self.content(),
    {
        out.clear();
        proof {
            self.chunks.lemma_wf_at(self.base as int);
        }
        let descs = self.chunks.iter_descs();
        let ghost ds = descs@;
        let mut i: usize = 0;
        proof {
            self.chunks.lemma_layout(self.base as int);
            assert(ds.take(0) =~= Seq::<ChunkDesc>::empty());
            assert(descs_text(Seq::<ChunkDesc>::empty()) =~= Seq::<u8>::empty());
            assert(out@ =~= Seq::<u8>::empty());
        }
        while i < descs.len()
            invariant
                ds == descs@,
                ds == self.chunks.descs(),
                self.chunks.wf_at(self.base as int),
                crate::chunk::descs_ok(ds, self.base as int),
                self.content() == descs_text(ds),
                i <= ds.len(),
                out@ == descs_text(ds.take(i as int)),
            decreases ds.len() - i,
        {
            proof {
                lemma_descs_text_at(ds, i as int);
                assert(ds[i as int].wf());
            }
            let bytes = descs[i].bytes();
            let ghost before = out@;
            let mut k: usize = 0;
            while k < bytes.len()
                invariant
                    k <= bytes@.len(),
                    out@ == before + bytes@.take(k as int),
                decreases bytes@.len() - k,
            {
                out.push(bytes[k]);
                k += 1;
                assert(out@ =~= before + bytes@.take(k as int));
            }
            assert(bytes@.take(bytes@.len() as int) =~= bytes@);
            i += 1;
        }
        assert(ds.take(ds.len() as int) =~= ds);
    }

    /// Chunk bytes with their absolute start offsets, in order.
    pub fn iter_chunks(&self) -> (chunks: Vec<(Vec<u8>, u64)>)
        requires
            self.wf(),
        ensures
            chunks@.len() == self.chunks.descs().len(),
            forall|i: int| 0 <= i < chunks@.len() ==> (#[trigger] chunks@[i]).0@ == self.chunks.descs()[i].view_bytes()
                && chunks@[i].1 == self.chunks.descs()[i].start(),
    {
        proof {
            self.chunks.lemma_wf_at(self.base as int);
        }
        let descs = self.chunks.iter_descs();
        proof {
            self.chunks.lemma_layout(self.base as int);
        }
        let mut chunks: Vec<(Vec<u8>, u64)> = Vec::new();
        let mut i: usize = 0;
        while i < descs.len()
            invariant
                descs@ == self.chunks.descs(),
                self.chunks.wf_at(self.base as int),
                crate::chunk::descs_ok(descs@, self.base as int),
                i <= descs@.len(),
                chunks@.len() == i,
                forall|k: int| 0 <= k < i ==> (#[trigger] chunks@[k]).0@ == descs@[k].view_bytes() && chunks@[k].1 == descs@[k].start(),
            decreases descs@.len() - i,
        {
            assert(descs@[i as int].wf());
            let bytes = descs[i].bytes();
            let mut page: Vec<u8> = Vec::new();
            let mut k: usize = 0;
            while k < bytes.len()
                invariant
                    k <= bytes@.len(),
                    page@ == bytes@.take(k as int),
                decreases bytes@.len() - k,
            {
                page.push(bytes[k]);
                k += 1;
                assert(page@ =~= bytes@.take(k as int));
            }
            assert(bytes@.take(bytes@.len() as int) =~= bytes@);
            chunks.push((page, descs[i].abs_start()));
            i += 1;
        }
        chunks
    }

    /// Ordered chunk views with their backing pages, for zero-copy readers.
    pub fn chunk_views(&self) -> (views: Vec<ChunkView>)
        requires
            self.wf(),
        ensures
            views@.len() == self.chunks.descs().len(),
            forall|i: int| 0 <= i < views@.len() ==> {
                &&& (#[trigger] views@[i]).abs_start == self.chunks.descs()[i].start()
                &&& views@[i].len == self.chunks.descs()[i].size()
                &&& views@[i].page_start + views@[i].len <= views@[i].page@.len()
                &&& views@[i].page@.subrange(views@[i].page_start as int, views@[i].page_start + views@[i].len)
                    == self.chunks.descs()[i].view_bytes()
            },
    {
        proof {
            self.chunks.lemma_wf_at(self.base as int);
        }
        let descs = self.chunks.iter_descs();
        proof {
            self.chunks.lemma_layout(self.base as int);
        }
        let mut views: Vec<ChunkView> = Vec::new();
        let mut i: usize = 0;
        while i < descs.len()
            invariant
                descs@ == self.chunks.descs(),
                self.chunks.wf_at(self.base as int),
                crate::chunk::descs_ok(descs@, self.base as int),
                i <= descs@.len(),
                views@.len() == i,
                forall|k: int| 0 <= k < i ==> {
                    &&& (#[trigger] views@[k]).abs_start == descs@[k].start()
                    &&& views@[k].len == descs@[k].size()
                    &&& views@[k].page_start + views@[k].len <= views@[k].page@.len()
                    &&& views@[k].page@.subrange(views@[k].page_start as int, views@[k].page_start + views@[k].len)
                        == descs@[k].view_bytes()
                },
            decreases descs@.len() - i,
        {
            assert(descs@[i as int].wf());
            views.push(descs[i].to_view());
            i += 1;
        }
        views
    }

    /// All records in acceptance order.
    pub fn annotations_in_order(&self) -> (records: &[SourceAnnotation])
        ensures
            records@ == self.ordered(),
    {
        self.ordered_annotations.as_slice()
    }
}


/// Calls `String::from_utf8`: the result is `Ok` exactly when the bytes are
/// valid UTF-8, and then the string holds those bytes, decoded.
#[verifier::external_body]
fn string_from_utf8(bytes: Vec<u8>) -> (text: Option<String>)
    ensures
        text is Some <==> valid_utf8(bytes@),
        text matches Some(s) ==> s@ == decode_utf8(bytes@),
{
    String::from_utf8(bytes).ok()
}

/// Where the downward walk of `floor_char_boundary` stops: it steps back
/// over continuation bytes, at most `steps` times, never below `base` or
/// past `end`.
pub open spec fn floor_walk(t: Seq<u8>, base: u64, end: u64, at: u64, steps: nat) -> u64
    decreases steps,
{
    if steps == 0 {
        if at >= base { at } else { base }
    } else if at <= base {
        base
    } else if at >= end {
        end
    } else if !is_cont(t[at - base]) {
        at
    } else {
        floor_walk(t, base, end, (at - 1) as u64, (steps - 1) as nat)
    }
}

/// Where the upward walk of `ceil_char_boundary` stops.
pub open spec fn ceil_walk(t: Seq<u8>, base: u64, end: u64, at: u64, steps: nat) -> u64
    decreases steps,
{
    if steps == 0 {
        if at <= end { at } else { end }
    } else if at >= end {
        end
    } else if !is_cont(t[at - base]) {
        at
    } else {
        ceil_walk(t, base, end, (at + 1) as u64, (steps - 1) as nat)
    }
}

impl StoredSource {
    /// The retained bytes as a string; `None` when they are not valid
    /// UTF-8 (a head truncated inside a character).
    pub fn text(&self) -> (text: Option<String>)
        requires
            self.wf(),
        ensures
            text is Some <==> valid_utf8(self.content()),
            text matches Some(s) ==> s@ == decode_utf8(self.content()),
    {
        let mut bytes: Vec<u8> = Vec::new();
        self.collect_text(&mut bytes);
        string_from_utf8(bytes)
    }

    /// Copies the retained bytes of `[start, end)` into `out`, clamped to
    /// the retained range.
    pub fn text_in(&self, base: u64, start: u64, end: u64, out: &mut Vec<u8>)
        requires
            self.wf(),
            base == self.base,
        ensures
            ({
                let from = if start < base { base as int } else if start > self.end { self.end as int } else { start as int };
                let upto = if end < from { from } else if end > self.end { self.end as int } else { end as int };
                final(out)@ == self.content().subrange(from - base, upto - base)
            }),
    {
        out.clear();
        let from = if start < base { base } else if start > self.end { self.end } else { start };
        let upto = if end < from { from } else if end > self.end { self.end } else { end };
        if upto <= from {
            assert(out@ =~= self.content().subrange(from - base, upto - base));
            return;
        }
        let mut at = from;
        while at < upto
            invariant
                self.wf(),
                base == self.base,
                from <= at <= upto <= self.end,
                base <= from,
                out@ == self.content().subrange(from - base, at - base),
            decreases upto - at,
        {
            match self.byte_at(base, at) {
                Some(byte) => out.push(byte),
                None => {},
            }
            at += 1;
            assert(out@ =~= self.content().subrange(from - base, at - base));
        }
    }

    /// Previous UTF-8 character boundary at or before `offset`.
    pub fn floor_char_boundary(&self, base: u64, offset: u64) -> (at: u64)
        requires
            self.wf(),
            base == self.base,
        ensures
            at == floor_walk(self.content(), base, self.end, if offset < self.end { offset } else { self.end }, 4),
    {
        let ghost t = self.content();
        let mut at = if offset < self.end { offset } else { self.end };
        let ghost first = at;
        let mut steps: u64 = 0;
        while steps < 4
            invariant
                self.wf(),
                base == self.base,
                t == self.content(),
                steps <= 4,
                at <= self.end,
                first == (if offset < self.end { offset } else { self.end }),
                floor_walk(t, base, self.end, first, 4) == floor_walk(t, base, self.end, at, (4 - steps) as nat),
            decreases 4 - steps,
        {
            if at <= base {
                return base;
            }
            if at >= self.end {
                return self.end;
            }
            match self.byte_at(base, at) {
                Some(byte) => {
                    if (byte >> 6u8) != 2u8 {
                        return at;
                    }
                    at = at - 1;
                },
                None => {
                    at = at - 1;
                },
            }
            steps += 1;
        }
        if at < base { base } else { at }
    }

    /// Next UTF-8 character boundary at or after `offset`.
    pub fn ceil_char_boundary(&self, base: u64, offset: u64) -> (at: u64)
        requires
            self.wf(),
            base == self.base,
        ensures
            at == ceil_walk(
                self.content(),
                base,
                self.end,
                if offset < base { base } else if offset > self.end { self.end } else { offset },
                4,
            ),
    {
        let ghost t = self.content();
        let mut at = if offset < base { base } else if offset > self.end { self.end } else { offset };
        let ghost first = at;
        let mut steps: u64 = 0;
        while steps < 4
            invariant
                self.wf(),
                base == self.base,
                t == self.content(),
                steps <= 4,
                base <= at <= self.end,
                first == (if offset < base { base } else if offset > self.end { self.end } else { offset }),
                ceil_walk(t, base, self.end, first, 4) == ceil_walk(t, base, self.end, at, (4 - steps) as nat),
            decreases 4 - steps,
        {
            if at >= self.end {
                return self.end;
            }
            match self.byte_at(base, at) {
                Some(byte) => {
                    if (byte >> 6u8) != 2u8 {
                        return at;
                    }
                    at = at + 1;
                },
                None => {
                    at = at + 1;
                },
            }
            steps += 1;
        }
        if at > self.end { self.end } else { at }
    }

    /// Whether a character may start at `offset`: the range edges always
    /// count; inside, a descriptor start or a non-continuation byte does.
    pub open spec fn boundary_at(&self, offset: u64) -> bool {
        offset == self.base || offset == self.end || (self.base < offset < self.end && (self.chunks.starts_desc(
            offset as int,
        ) || !is_cont(self.content()[offset - self.base])))
    }

    pub fn is_boundary(&self, offset: u64) -> (boundary: bool)
        requires
            self.wf(),
        ensures
            boundary == self.boundary_at(offset),
    {
        if offset == self.base || offset == self.end {
            return true;
        }
        if offset < self.base || offset > self.end {
            return false;
        }
        self.chunks.char_start(self.base, offset)
    }

    /// The next character boundary reached from `offset`: the offset
    /// itself when it is one, else the next character start inside its
    /// descriptor, else the end.
    pub open spec fn next_boundary_at(&self, offset: u64) -> u64 {
        if offset <= self.base {
            self.base
        } else if offset >= self.end {
            self.end
        } else if self.boundary_at(offset) {
            offset
        } else {
            match next_start_in(
                self.chunks.desc_holding(offset as int).view_bytes(),
                offset - self.chunks.desc_holding(offset as int).start() + 1,
            ) {
                Some(j) => (self.chunks.desc_holding(offset as int).start() + j) as u64,
                None => self.end,
            }
        }
    }

    pub fn next_boundary(&self, offset: u64) -> (next: u64)
        requires
            self.wf(),
        ensures
            next == self.next_boundary_at(offset),
    {
        if offset <= self.base {
            return self.base;
        }
        if offset >= self.end {
            return self.end;
        }
        if self.is_boundary(offset) {
            return offset;
        }
        match self.chunks.next_char_in_desc(self.base, offset) {
            Some(next) => next,
            None => self.end,
        }
    }

    /// The cut that keeps at most `max_bytes` of the tail: the first line
    /// start at or after `end - max_bytes`, else the next character
    /// boundary there.
    pub fn offset_for_max_bytes(&self, max_bytes: u64) -> (cut: u64)
        requires
            self.wf(),
        ensures
            ({
                let target = span_len(self.end, max_bytes);
                let ls = line_starts(self.base as int, self.content());
                ||| (ls.contains(cut as int) && cut >= target && forall|k: int| 0 <= k < ls.len() && #[trigger] ls[k] >= target ==> cut <= ls[k])
                ||| ((forall|k: int| 0 <= k < ls.len() ==> #[trigger] ls[k] < target) && cut == self.next_boundary_at(target))
            }),
    {
        let target = self.end.saturating_sub(max_bytes);
        match self.first_line_at_or_after(self.base, target) {
            Some(found) => found,
            None => self.next_boundary(target),
        }
    }
}


/// The record a stable prefix ending at `cut` keeps of `r`: records
/// starting at or past the cut go; the others end at most at the cut and
/// stay if they are points or still span bytes.
pub open spec fn prefix_record(r: SourceAnnotation, cut: u64) -> Option<SourceAnnotation> {
    if r.start_byte >= cut {
        None
    } else {
        let c = SourceAnnotation { end_byte: if r.end_byte > cut { cut } else { r.end_byte }, ..r };
        if c.kind == CONTENT_ANNOTATION_KIND_POINT || c.start_byte < c.end_byte {
            Some(c)
        } else {
            None
        }
    }
}

/// The records a stable prefix ending at `cut` keeps, in order.
pub open spec fn prefix_records(s: Seq<SourceAnnotation>, cut: u64) -> Seq<SourceAnnotation>
    decreases s.len(),
{
    if s.len() == 0 {
        s
    } else {
        match prefix_record(s.last(), cut) {
            Some(c) => prefix_records(s.drop_last(), cut).push(c),
            None => prefix_records(s.drop_last(), cut),
        }
    }
}

/// The kept records come from members, in seqno order.
pub proof fn lemma_prefix_records(s: Seq<SourceAnnotation>, cut: u64)
    ensures
        forall|c: SourceAnnotation| #[trigger] prefix_records(s, cut).contains(c) ==> exists|r: SourceAnnotation|
            #[trigger] s.contains(r) && prefix_record(r, cut) == Some(c),
        sorted_by_seqno(s) ==> sorted_by_seqno(prefix_records(s, cut)),
    decreases s.len(),
{
    if s.len() > 0 {
        let p = s.drop_last();
        lemma_prefix_records(p, cut);
        let w = prefix_records(p, cut);
        assert forall|r: SourceAnnotation| #[trigger] p.contains(r) implies s.contains(r) by {
            let k = choose|k: int| 0 <= k < p.len() && p[k] == r;
            assert(s[k] == r);
        }
        assert(s.contains(s.last())) by {
            assert(s[s.len() - 1] == s.last());
        }
        match prefix_record(s.last(), cut) {
            Some(c0) => {
                assert forall|c: SourceAnnotation| #[trigger] w.push(c0).contains(c) implies exists|r: SourceAnnotation|
                    #[trigger] s.contains(r) && prefix_record(r, cut) == Some(c) by {
                    let k = choose|k: int| 0 <= k < w.len() + 1 && w.push(c0)[k] == c;
                    if k < w.len() {
                        assert(w[k] == c);
                        assert(w.contains(c));
                        let r = choose|r: SourceAnnotation| #[trigger] p.contains(r) && prefix_record(r, cut) == Some(c);
                        assert(s.contains(r));
                    } else {
                        assert(s.contains(s.last()));
                    }
                }
                if sorted_by_seqno(s) {
                    assert(sorted_by_seqno(p));
                    assert forall|i: int| 0 <= i < w.len() implies #[trigger] w[i].seqno < c0.seqno by {
                        assert(w.contains(w[i]));
                        let r = choose|r: SourceAnnotation| #[trigger] p.contains(r) && prefix_record(r, cut) == Some(w[i]);
                        let k = choose|k: int| 0 <= k < p.len() && p[k] == r;
                        assert(s[k] == p[k]);
                    }
                }
            },
            None => {},
        }
    }
}

/// One annotation intersecting a lookup range.
pub struct StoredOverlap {
    pub record: SourceAnnotation,
}

impl StoredOverlap {
    pub fn record(&self) -> (record: &SourceAnnotation)
        ensures
            *record == self.record,
    {
        &self.record
    }

    pub fn kind(&self) -> (kind: u32)
        ensures
            kind == self.record.kind,
    {
        self.record.kind
    }

    pub fn flags(&self) -> (flags: u32)
        ensures
            flags == self.record.flags,
    {
        self.record.flags
    }

    pub fn start(&self) -> (start: u64)
        ensures
            start == self.record.start_byte,
    {
        self.record.start_byte
    }

    pub fn end(&self) -> (end: u64)
        ensures
            end == self.record.end_byte,
    {
        self.record.end_byte
    }

    pub fn payload(&self) -> (payload: &[u8])
        ensures
            payload@ == self.record.payload@,
    {
        self.record.payload.as_slice()
    }

    pub fn aux0(&self) -> (aux0: u32)
        ensures
            aux0 == self.record.aux0,
    {
        self.record.aux0
    }

    pub fn aux1(&self) -> (aux1: u32)
        ensures
            aux1 == self.record.aux1,
    {
        self.record.aux1
    }

    pub fn tag(&self) -> (tag: Option<u64>)
        ensures
            tag == self.record.tag,
    {
        self.record.tag
    }

    pub fn style(&self) -> (style: Option<u64>)
        ensures
            style == self.record.style,
    {
        self.record.style
    }
}

/// The records of `s` that overlap `[start, end)`, in order.
pub open spec fn overlap_filter(s: Seq<SourceAnnotation>, start: u64, end: u64) -> Seq<SourceAnnotation>
    decreases s.len(),
{
    if s.len() == 0 {
        s
    } else if overlaps(s.last(), start, end) {
        overlap_filter(s.drop_last(), start, end).push(s.last())
    } else {
        overlap_filter(s.drop_last(), start, end)
    }
}

/// A query by range returns exactly the records that share a byte with it:
/// one that starts before the range ends and ends after it starts is
/// returned; one that ends at or before the range's start, or starts at or
/// after its end, is not.
pub proof fn range_queries_return_the_overlapping_records(s: Seq<SourceAnnotation>, start: u64, end: u64)
    ensures
        forall|a: SourceAnnotation| s.contains(a) && a.start_byte < end && a.end_byte > start
            ==> #[trigger] overlap_filter(s, start, end).contains(a),
        forall|a: SourceAnnotation| a.end_byte <= start ==> !#[trigger] overlap_filter(s, start, end).contains(a),
        forall|a: SourceAnnotation| a.start_byte >= end ==> !#[trigger] overlap_filter(s, start, end).contains(a),
        forall|a: SourceAnnotation| #[trigger] overlap_filter(s, start, end).contains(a) ==> s.contains(a),
{
    lemma_overlap_filter(s, start, end);
}

pub proof fn lemma_overlap_filter(s: Seq<SourceAnnotation>, start: u64, end: u64)
    ensures
        forall|a: SourceAnnotation| #[trigger] overlap_filter(s, start, end).contains(a) <==> (s.contains(a) && overlaps(a, start, end)),
        sorted_by_seqno(s) ==> sorted_by_seqno(overlap_filter(s, start, end)),
    decreases s.len(),
{
    if s.len() > 0 {
        let p = s.drop_last();
        lemma_overlap_filter(p, start, end);
        let w = overlap_filter(p, start, end);
        assert forall|a: SourceAnnotation| #[trigger] s.contains(a) <==> (p.contains(a) || a == s.last()) by {
            if s.contains(a) {
                let k = choose|k: int| 0 <= k < s.len() && s[k] == a;
                if k < p.len() {
                    assert(p[k] == a);
                }
            }
            if p.contains(a) {
                let k = choose|k: int| 0 <= k < p.len() && p[k] == a;
                assert(s[k] == a);
            }
        }
        if overlaps(s.last(), start, end) {
            assert forall|a: SourceAnnotation| #[trigger] w.push(s.last()).contains(a) <==> (w.contains(a) || a == s.last()) by {
                if w.push(s.last()).contains(a) {
                    let k = choose|k: int| 0 <= k < w.len() + 1 && w.push(s.last())[k] == a;
                    if k < w.len() {
                        assert(w[k] == a);
                    }
                }
                if w.contains(a) {
                    let k = choose|k: int| 0 <= k < w.len() && w[k] == a;
                    assert(w.push(s.last())[k] == a);
                }
                if a == s.last() {
                    assert(w.push(s.last())[w.len() as int] == a);
                }
            }
            if sorted_by_seqno(s) {
                assert forall|i: int| 0 <= i < w.len() implies #[trigger] w[i].seqno < s.last().seqno by {
                    assert(w.contains(w[i]));
                    let k = choose|k: int| 0 <= k < p.len() && p[k] == w[i];
                    assert(s[k] == p[k]);
                }
            }
        }
    }
}

impl StoredSource {
    /// Intersecting annotations in acceptance order, so overlaps apply in
    /// their semantic order no matter how the index lays them out.
    pub fn overlapping(&self, start: u64, end: u64) -> (hits: Vec<StoredOverlap>)
        requires
            self.wf(),
        ensures
            hits@.len() == overlap_filter(self.ordered(), start, end).len(),
            forall|i: int| 0 <= i < hits@.len() ==> (#[trigger] hits@[i]).record == overlap_filter(self.ordered(), start, end)[i],
    {
        let mut found: Vec<SourceAnnotation> = Vec::new();
        self.annotations.overlapping(start, end, &mut found);
        let ghost run = self.annotations.overlap_run(start, end);
        proof {
            assert(found@ =~= run);
            self.annotations.lemma_sorted();
            assert forall|i: int, j: int| 0 <= i < found@.len() && 0 <= j < found@.len() && i != j
                implies found@[i].seqno != found@[j].seqno by {
                let x = found@[i];
                let y = found@[j];
                assert(run.contains(x));
                assert(run.contains(y));
                if x.seqno == y.seqno {
                    let p = choose|p: int| 0 <= p < self.records().len() && self.records()[p] == x;
                    let q = choose|q: int| 0 <= q < self.records().len() && self.records()[q] == y;
                    assert(p == q);
                    assert(key_lt(key_of(run[i]), key_of(run[j])) || key_lt(key_of(run[j]), key_of(run[i])));
                }
            }
        }
        let sorted = crate::annotation::sort_by_seqno(found);
        let ghost want = overlap_filter(self.ordered(), start, end);
        proof {
            lemma_overlap_filter(self.ordered(), start, end);
            assert forall|a: SourceAnnotation| #![trigger sorted@.contains(a)] #![trigger want.contains(a)]
                sorted@.contains(a) <==> want.contains(a) by {}
            lemma_seqno_sorted_unique(sorted@, want);
        }
        let mut hits: Vec<StoredOverlap> = Vec::new();
        let mut i: usize = 0;
        while i < sorted.len()
            invariant
                i <= sorted@.len(),
                sorted@ == want,
                hits@.len() == i,
                forall|k: int| 0 <= k < i ==> (#[trigger] hits@[k]).record == want[k],
            decreases sorted@.len() - i,
        {
            hits.push(StoredOverlap { record: sorted[i].duplicate() });
            i += 1;
        }
        hits
    }

    /// The part of the source ending at its last line start, sealed there;
    /// `None` when that start is the base.
    pub fn stable_prefix(&self) -> (prefix: Option<Self>)
        requires
            self.wf(),
        ensures
            prefix is Some <==> line_starts(self.base as int, self.content()).last() > self.base,
            prefix matches Some(p) ==> {
                let cut = line_starts(self.base as int, self.content()).last();
                &&& p.wf()
                &&& p.base == self.base && p.end == cut
                &&& p.content() == self.content().take(cut - self.base)
                &&& p.ordered() == prefix_records(self.ordered(), cut as u64)
                &&& !p.head_partial && p.sealed && p.sealed_at == Some(cut as u64)
                &&& p.revision == self.revision && p.next_seqno == self.next_seqno
            },
    {
        let end = self.last_line_start(self.base);
        proof {
            lemma_nl_ends_props(self.content());
            self.chunks.lemma_bounds(self.base as int);
            let ls = line_starts(self.base as int, self.content());
            if nl_count(self.content()) > 0 {
                assert(ls.last() == self.base + nl_ends(self.content()).last());
                assert(nl_ends(self.content())[nl_count(self.content()) - 1] <= self.content().len());
            }
        }
        if end <= self.base || end > self.end {
            return None;
        }
        let (chunks, _rest) = self.chunks.split_at(self.base, end);
        let mut kept: Vec<SourceAnnotation> = Vec::new();
        let mut i: usize = 0;
        let ghost ord = self.ordered();
        proof {
            assert(ord.take(0) =~= Seq::<SourceAnnotation>::empty());
        }
        while i < self.ordered_annotations.len()
            invariant
                ord == self.ordered_annotations@,
                i <= ord.len(),
                kept@ == prefix_records(ord.take(i as int), end),
            decreases ord.len() - i,
        {
            proof {
                assert(ord.take(i as int + 1).drop_last() =~= ord.take(i as int));
                assert(ord.take(i as int + 1).last() == ord[i as int]);
            }
            let anno = &self.ordered_annotations[i];
            if anno.start_byte < end {
                let mut clipped = anno.duplicate();
                if clipped.end_byte > end {
                    clipped.end_byte = end;
                }
                if clipped.kind == CONTENT_ANNOTATION_KIND_POINT || clipped.start_byte < clipped.end_byte {
                    kept.push(clipped);
                }
            }
            i += 1;
        }
        proof {
            assert(ord.take(ord.len() as int) =~= ord);
            lemma_prefix_records(ord, end);
            lemma_sorted_unique(kept@);
        }
        let ordered_copy = copy_records(&kept);
        let ghost kv = kept@;
        let annotations = AnnotationTree::from_sorted_batch(kept);
        let prefix = StoredSource {
            chunks,
            annotations,
            ordered_annotations: Arc::new(ordered_copy),
            base: self.base,
            end,
            head_partial: false,
            revision: self.revision,
            next_seqno: self.next_seqno,
            sealed: true,
            sealed_at: Some(end),
        };
        proof {
            assert forall|i: int, j: int| 0 <= i < prefix.records().len() && 0 <= j < prefix.records().len() && i != j
                implies prefix.records()[i].seqno != prefix.records()[j].seqno by {
                let x = prefix.records()[i];
                let y = prefix.records()[j];
                assert(prefix.records().contains(x));
                assert(prefix.records().contains(y));
                annotations.lemma_sorted();
                if x.seqno == y.seqno {
                    let p = choose|p: int| 0 <= p < kv.len() && kv[p] == x;
                    let q = choose|q: int| 0 <= q < kv.len() && kv[q] == y;
                    assert(p == q);
                    assert(key_lt(key_of(x), key_of(y)) || key_lt(key_of(y), key_of(x)));
                }
            }
            assert forall|c: SourceAnnotation| #[trigger] prefix.records().contains(c) implies c.seqno < prefix.next_seqno
                && c.start_byte <= prefix.end by {
                assert(kv.contains(c));
                let r = choose|r: SourceAnnotation| #[trigger] ord.contains(r) && prefix_record(r, end) == Some(c);
                assert(self.records().contains(r));
            }
        }
        Some(prefix)
    }
}

} // verus!
