use std::sync::Arc;

use iyon_tui::annotation::{
    AnnotationTree, CONTENT_ANNOTATION_KIND_POINT, CONTENT_ANNOTATION_KIND_STYLE,
    CONTENT_ANNOTATION_KIND_TAG,
};
use iyon_tui::chunk::{ChunkTree, SOURCE_CHUNK_BYTES};
use iyon_tui::store::{ContentError, StoredSource, ValidatedAnnotation};

fn anno(start: u64, end: u64) -> ValidatedAnnotation {
    ValidatedAnnotation {
        kind: CONTENT_ANNOTATION_KIND_TAG,
        flags: 0,
        start_byte: start,
        end_byte: end,
        payload: Vec::new(),
        aux0: 0,
        aux1: 0,
        tag: None,
        style: None,
    }
}

fn point(start: u64) -> ValidatedAnnotation {
    ValidatedAnnotation {
        kind: CONTENT_ANNOTATION_KIND_POINT,
        start_byte: start,
        end_byte: start,
        ..anno(start, start)
    }
}

fn style_anno(start: u64, end: u64) -> ValidatedAnnotation {
    ValidatedAnnotation {
        kind: CONTENT_ANNOTATION_KIND_STYLE,
        ..anno(start, end)
    }
}

fn stored_text(store: &StoredSource) -> Vec<u8> {
    let mut out = Vec::new();
    store.collect_text(&mut out);
    out
}

fn stored_entries(store: &StoredSource, base: u64) -> Vec<u64> {
    let mut entries = Vec::new();
    store.collect_line_entries(base, &mut entries);
    entries
}

#[test]
fn empty_tree_reports_base_line() {
    let tree = ChunkTree::empty();
    assert_eq!(tree.bytes(), 0);
    assert_eq!(tree.line_entry(100, 0), Some(100));
    assert_eq!(tree.line_entry(100, 1), None);
    assert_eq!(tree.iter_descs().len(), 0);
    assert_eq!(tree.first_line_at_or_after(100, 500), None);
    assert_eq!(tree.last_line_start(100), 100);
}

#[test]
fn single_chunk_roundtrip() {
    let tree = ChunkTree::empty().appended("hello\nworld", 0);
    assert_eq!(tree.bytes(), 11);
    let mut out = Vec::new();
    for desc in tree.iter_descs() {
        out.extend_from_slice(desc.bytes());
    }
    assert_eq!(out, b"hello\nworld");
    assert_eq!(tree.line_entry(0, 0), Some(0));
    assert_eq!(tree.line_entry(0, 1), Some(6));
    assert_eq!(tree.line_entry(0, 2), None);
    assert_eq!(tree.locate(0, 6), Some(("hello\nworld".as_bytes(), 6)));
    assert_eq!(tree.byte_at(0, 5), Some(b'\n'));
    assert_eq!(tree.byte_at(0, 11), None);
}

#[test]
fn large_append_spans_pages_and_branches() {
    let mut text = String::new();
    for i in 0..5000 {
        text.push_str(&format!("line {i:05}\n"));
    }
    let tree = ChunkTree::empty().appended(&text, 1000);
    assert_eq!(tree.bytes(), text.len() as u64);
    let mut out = Vec::new();
    for desc in tree.iter_descs() {
        out.extend_from_slice(desc.bytes());
    }
    assert_eq!(out, text.as_bytes());
    // Spot-check absolute starts across page seams.
    let mut cursor = 1000u64;
    for desc in tree.iter_descs() {
        assert_eq!(desc.abs_start(), cursor);
        cursor += u64::from(desc.len());
    }
    assert_eq!(cursor, 1000 + text.len() as u64);
    // Every line entry resolves through the tree.
    let newlines = text.bytes().filter(|b| *b == b'\n').count() as u64;
    assert_eq!(tree.line_entry(1000, newlines), Some(1000 + text.len() as u64));
    assert_eq!(tree.line_entry(1000, newlines + 1), None);
    // Seams land inside lines without duplicating entries.
    let mut entries = Vec::new();
    let store = StoredSource {
        chunks: tree,
        annotations: AnnotationTree::empty(),
        ordered_annotations: Arc::new(Vec::new()),
        base: 1000,
        end: 1000 + text.len() as u64,
        head_partial: false,
        revision: 1,
        next_seqno: 0,
        sealed: false,
        sealed_at: None,
    };
    store.collect_line_entries(1000, &mut entries);
    assert_eq!(entries.len() as u64, newlines + 1);
    assert!(entries.windows(2).all(|pair| pair[0] < pair[1]));
}

#[test]
fn truncate_then_append_keeps_absolute_coordinates() {
    let base = 0u64;
    let store = StoredSource::empty()
        .apply_append("hello world", 1, Vec::new())
        .unwrap();
    let (next, dropped) = store.apply_truncate(base, 6, 2).unwrap();
    assert_eq!(dropped, 6);
    assert_eq!(stored_text(&next), b"world");
    assert_eq!(stored_entries(&next, 6), vec![6]);
    let next = next.apply_append("WORLD!", 3, Vec::new()).unwrap();
    assert_eq!(stored_text(&next), b"worldWORLD!");
    assert_eq!(next.end(), 17);
    // Absolute locate matches the concatenated bytes.
    for (index, byte) in b"worldWORLD!".iter().enumerate() {
        assert_eq!(next.byte_at(6, 6 + index as u64), Some(*byte));
    }
}

#[test]
fn stacked_truncates_and_appends_stay_contiguous() {
    let mut store = StoredSource::empty();
    let mut base = 0u64;
    let mut model = Vec::new();
    let pieces = ["alpha\n", "beta\nbeta2\n", "gamma", "\ndelta\nepsilon\n", "zeta"];
    let mut rev = 1u64;
    for piece in pieces {
        store = store.apply_append(piece, rev, Vec::new()).unwrap();
        rev += 1;
        model.extend_from_slice(piece.as_bytes());
    }
    for cut in [3u64, 9, 14, 20] {
        let (next, dropped) = store.apply_truncate(base, cut, rev).unwrap();
        rev += 1;
        assert_eq!(dropped, cut - base);
        model.drain(..(cut - base) as usize);
        base = cut;
        store = next;
        assert_eq!(stored_text(&store), model);
        assert_eq!(store.byte_len(base), model.len() as u64);
        // Line entries restart at the new base and stay ordered.
        let entries = stored_entries(&store, base);
        assert_eq!(entries.first(), Some(&base));
        assert!(entries.windows(2).all(|pair| pair[0] < pair[1]));
        assert_eq!(store.line_count(), entries.len());
    }
}

#[test]
fn newline_at_chunk_edge_starts_next_line() {
    // Fill the first page so it ends exactly on a newline, then append
    // the next line: the view start must count as a line entry.
    let filler = "x".repeat(SOURCE_CHUNK_BYTES - 1);
    let mut first = filler.clone();
    first.push('\n');
    assert_eq!(first.len(), SOURCE_CHUNK_BYTES);
    let store = StoredSource::empty()
        .apply_append(&first, 1, Vec::new())
        .unwrap();
    let store = store.apply_append("next", 2, Vec::new()).unwrap();
    let entries = stored_entries(&store, 0);
    assert_eq!(entries, vec![0, SOURCE_CHUNK_BYTES as u64]);
    assert_eq!(
        store.first_line_at_or_after(0, SOURCE_CHUNK_BYTES as u64),
        Some(SOURCE_CHUNK_BYTES as u64)
    );
    assert_eq!(store.last_line_start(0), SOURCE_CHUNK_BYTES as u64);
}

#[test]
fn multibyte_char_split_across_chunks() {
    // 'é' is two bytes; size the filler so it straddles a page seam.
    let filler = "a".repeat(SOURCE_CHUNK_BYTES - 1);
    let text = format!("{filler}é\ntail");
    let store = StoredSource::empty()
        .apply_append(&text, 1, Vec::new())
        .unwrap();
    assert_eq!(stored_text(&store), text.as_bytes());
    let e_start = SOURCE_CHUNK_BYTES as u64 - 1;
    assert_eq!(store.byte_at(0, e_start), Some(0xC3));
    assert_eq!(store.byte_at(0, e_start + 1), Some(0xA9));
    // Boundary helpers step over the split character from either side.
    assert_eq!(store.floor_char_boundary(0, e_start + 1), e_start);
    assert_eq!(store.ceil_char_boundary(0, e_start + 1), e_start + 2);
    assert_eq!(store.floor_char_boundary(0, e_start), e_start);
    assert_eq!(store.ceil_char_boundary(0, e_start), e_start);
    // Partial reads never split the character.
    let mut out = Vec::new();
    store.text_in(0, e_start + 1, e_start + 2, &mut out);
    assert_eq!(out, vec![0xA9]);
}

#[test]
fn annotation_overlap_applies_in_acceptance_order() {
    let store = StoredSource::empty()
        .apply_append("0123456789", 1, Vec::new())
        .unwrap();
    // Insert out of start order; overlaps must still apply by seqno.
    let store = store.apply_annotation(anno(6, 9), 2, 1024, u64::MAX).unwrap();
    let store = store.apply_annotation(anno(0, 4), 3, 1024, u64::MAX).unwrap();
    let store = store.apply_annotation(anno(2, 7), 4, 1024, u64::MAX).unwrap();
    let hits = store.overlapping(0, 10);
    let spans: Vec<(u64, u64)> = hits.iter().map(|hit| (hit.start(), hit.end())).collect();
    assert_eq!(spans, vec![(6, 9), (0, 4), (2, 7)]);
    let partial = store.overlapping(5, 6);
    assert_eq!(partial.len(), 1);
    assert_eq!((partial[0].start(), partial[0].end()), (2, 7));
    assert!(store.overlapping(9, 10).is_empty());
}

#[test]
fn truncate_applies_stored_record_policy() {
    let store = StoredSource::empty()
        .apply_append("0123456789abcdef", 1, Vec::new())
        .unwrap();
    let store = store.apply_annotation(anno(2, 12), 2, 1024, u64::MAX).unwrap();
    let store = store.apply_annotation(style_anno(3, 14), 3, 1024, u64::MAX).unwrap();
    let store = store.apply_annotation(point(4), 4, 1024, u64::MAX).unwrap();
    let store = store.apply_annotation(point(8), 5, 1024, u64::MAX).unwrap();
    let (next, _) = store.apply_truncate(0, 8, 6).unwrap();
    let ordered = next.annotations_in_order();
    // Clip straddler restarts at the offset with its seqno; Drop and
    // Points before the offset die; the Point at the offset survives.
    assert_eq!(ordered.len(), 3);
    assert_eq!(ordered[0].kind, CONTENT_ANNOTATION_KIND_TAG);
    assert_eq!((ordered[0].start_byte, ordered[0].end_byte), (8, 12));
    assert_eq!(ordered[0].seqno, 0);
    assert_eq!(ordered[1].kind, CONTENT_ANNOTATION_KIND_STYLE);
    assert_eq!((ordered[1].start_byte, ordered[1].end_byte), (8, 14));
    assert_eq!(ordered[1].seqno, 1);
    assert_eq!(ordered[2].kind, CONTENT_ANNOTATION_KIND_POINT);
    assert_eq!((ordered[2].start_byte, ordered[2].end_byte), (8, 8));
    assert_eq!(ordered[2].seqno, 3);
    // Both clipped spans still overlap lookups past the offset.
    let hits = next.overlapping(8, 12);
    assert_eq!(hits.len(), 2);
    assert_eq!(hits[0].start(), 8);
    assert_eq!(hits[1].start(), 8);
}

#[test]
fn retention_keeps_window_then_newest() {
    let mut store = StoredSource::empty()
        .apply_append("0123456789", 1, Vec::new())
        .unwrap();
    let mut rev = 2u64;
    for i in 0..6 {
        store = store.apply_annotation(anno(i, i + 1), rev, 4, 100).unwrap();
        rev += 1;
    }
    // Six records against a cap of four: the two oldest drain first.
    let ordered = store.annotations_in_order();
    assert_eq!(ordered.len(), 4);
    let starts: Vec<u64> = ordered.iter().map(|record| record.start_byte).collect();
    assert_eq!(starts, vec![2, 3, 4, 5]);
}

#[test]
fn retention_zero_length_at_floor_survives() {
    let mut store = StoredSource::empty()
        .apply_append("0123456789", 1, Vec::new())
        .unwrap();
    // Window floor sits at 10 - 4 = 6: the zero-length record exactly
    // at the floor survives while older spans drain.
    let mut rev = 2u64;
    for i in 0..2 {
        store = store.apply_annotation(anno(i, i + 1), rev, 3, 4).unwrap();
        rev += 1;
    }
    store = store.apply_annotation(anno(6, 7), rev, 3, 4).unwrap();
    rev += 1;
    store = store.apply_annotation(anno(7, 8), rev, 3, 4).unwrap();
    rev += 1;
    store = store.apply_annotation(point(6), rev, 3, 4).unwrap();
    let ordered = store.annotations_in_order();
    assert_eq!(ordered.len(), 3);
    assert!(ordered
        .iter()
        .any(|record| record.kind == CONTENT_ANNOTATION_KIND_POINT && record.start_byte == 6));
}

#[test]
fn seal_rejects_bad_range_before_sealed_state() {
    let store = StoredSource::empty()
        .apply_append("hello", 1, Vec::new())
        .unwrap();
    let sealed = store.apply_seal(0, 5, 2, None).unwrap();
    assert!(sealed.sealed());
    assert_eq!(sealed.sealed_at(), Some(5));
    // Out-of-range still reports InvalidByteRange on a sealed source.
    assert!(matches!(
        sealed.apply_seal(0, 6, 3, None),
        Err(ContentError::InvalidByteRange { .. })
    ));
    // In-range on a sealed source reports AlreadySealed.
    assert!(matches!(
        sealed.apply_seal(0, 5, 3, None),
        Err(ContentError::AlreadySealed)
    ));
    assert!(matches!(
        sealed.apply_append("!", 3, Vec::new()),
        Err(ContentError::Sealed)
    ));
}

#[test]
fn failed_append_leaves_storage_untouched() {
    let store = StoredSource {
        chunks: ChunkTree::empty(),
        annotations: AnnotationTree::empty(),
        ordered_annotations: Arc::new(Vec::new()),
        base: 0,
        revision: 7,
        end: u64::MAX - 1,
        head_partial: false,
        next_seqno: 0,
        sealed: false,
        sealed_at: None,
    };
    let before = store.duplicate();
    assert!(matches!(
        store.apply_append("ab", 8, Vec::new()),
        Err(ContentError::LengthOverflow)
    ));
    assert_eq!(before.revision(), 7);
    assert_eq!(before.end(), u64::MAX - 1);
}

/// The index holds exactly the accepted records, each once, in key order.
fn check_index(store: &StoredSource) {
    let ordered = store.annotations_in_order();
    assert_eq!(store.annotations.len(), ordered.len());
    assert_eq!(store.annotation_count(), ordered.len());
    let in_order = store.annotations.in_application_order();
    assert_eq!(in_order.len(), ordered.len());
    for (a, b) in in_order.iter().zip(ordered.iter()) {
        assert_eq!((a.kind, a.start_byte, a.end_byte, a.seqno), (b.kind, b.start_byte, b.end_byte, b.seqno));
    }
    assert!(ordered.windows(2).all(|pair| pair[0].seqno < pair[1].seqno));
}

#[test]
fn treap_holds_invariants_under_random_ops() {
    // Deterministic xorshift: same seed, same operation stream.
    let mut rng = 0x1234_5678_9ABC_DEF1u64;
    let mut next_rand = move || {
        rng ^= rng << 13;
        rng ^= rng >> 7;
        rng ^= rng << 17;
        rng
    };
    let mut store = StoredSource::empty();
    let mut base = 0u64;
    let mut rev = 1u64;
    let mut model_text: Vec<u8> = Vec::new();
    // Model records in acceptance order: (kind, start, end, seqno).
    let mut model_annos: Vec<(u32, u64, u64, u64)> = Vec::new();
    let mut seqno = 0u64;
    for _ in 0..1500 {
        match next_rand() % 4 {
            0 => {
                // Append 0-40 bytes with newlines sprinkled in.
                let len = (next_rand() % 41) as usize;
                let mut text = String::new();
                for _ in 0..len {
                    let pick = next_rand() % 8;
                    if pick == 0 {
                        text.push('\n');
                    } else {
                        text.push((b'a' + (next_rand() % 26) as u8) as char);
                    }
                }
                let end = store.end();
                store = store.apply_append(&text, rev, Vec::new()).unwrap();
                rev += 1;
                model_text.extend_from_slice(text.as_bytes());
                assert_eq!(stored_text(&store), model_text);
                assert_eq!(store.end(), end + text.len() as u64);
            }
            1 => {
                // Annotate a random span (tags, styles, points).
                if model_text.is_empty() {
                    continue;
                }
                let len = model_text.len() as u64;
                let kind = match next_rand() % 3 {
                    0 => CONTENT_ANNOTATION_KIND_TAG,
                    1 => CONTENT_ANNOTATION_KIND_STYLE,
                    _ => CONTENT_ANNOTATION_KIND_POINT,
                };
                let a = base + next_rand() % (len + 1);
                let b = if kind == CONTENT_ANNOTATION_KIND_POINT {
                    a
                } else {
                    a + next_rand() % (len + 1 - (a - base)).max(1)
                };
                let record = ValidatedAnnotation { kind, ..anno(a, b) };
                store = store.apply_annotation(record, rev, 4096, u64::MAX).unwrap();
                rev += 1;
                model_annos.push((kind, a, b, seqno));
                seqno += 1;
            }
            2 => {
                // Truncate to a random valid offset.
                if model_text.is_empty() {
                    continue;
                }
                let cut = base + next_rand() % (model_text.len() as u64 + 1);
                let (next, dropped) = store.apply_truncate(base, cut, rev).unwrap();
                rev += 1;
                assert_eq!(dropped, cut - base);
                model_text.drain(..(cut - base) as usize);
                // Stored-record truncation policy, mirrored.
                model_annos.retain(|(kind, a, b, _)| {
                    if *a >= cut {
                        return true;
                    }
                    (*kind == CONTENT_ANNOTATION_KIND_TAG || *kind == CONTENT_ANNOTATION_KIND_STYLE)
                        && *b > cut
                });
                for record in model_annos.iter_mut() {
                    if record.1 < cut {
                        record.1 = cut;
                    }
                }
                base = cut;
                store = next;
                assert_eq!(stored_text(&store), model_text);
                let entries = stored_entries(&store, base);
                assert_eq!(entries.first(), Some(&base));
                assert!(entries.windows(2).all(|pair| pair[0] < pair[1]));
            }
            _ => {
                // Overlap probe: indexed lookup must match the model.
                if model_text.is_empty() {
                    continue;
                }
                let len = model_text.len() as u64;
                let a = base + next_rand() % (len + 1);
                let b = a + next_rand() % (len + 1 - (a - base)).max(1);
                let mut expected: Vec<(u32, u64, u64, u64)> = model_annos
                    .iter()
                    .copied()
                    .filter(|(_, s, e, _)| *s < b && *e > a)
                    .collect();
                expected.sort_by_key(|(_, _, _, q)| *q);
                let hits = store.overlapping(a, b);
                assert_eq!(hits.len(), expected.len(), "overlap {a}..{b}");
                for (hit, (_, s, e, _)) in hits.iter().zip(expected.iter()) {
                    assert_eq!((hit.start(), hit.end()), (*s, *e));
                }
            }
        }
        check_index(&store);
    }
    // Final agreement: text, line entries, and full annotation order.
    assert_eq!(stored_text(&store), model_text);
    let mut ordered = model_annos.clone();
    ordered.sort_by_key(|(_, _, _, q)| *q);
    let stored = store.annotations_in_order();
    assert_eq!(stored.len(), ordered.len());
    for (record, (kind, s, e, q)) in stored.iter().zip(ordered.iter()) {
        assert_eq!(record.kind, *kind);
        assert_eq!((record.start_byte, record.end_byte), (*s, *e));
        assert_eq!(record.seqno, *q);
    }
}

#[test]
fn appended_pages_end_on_character_boundaries() {
    let mut text = String::from("a");
    for _ in 0..(SOURCE_CHUNK_BYTES / 2 + 8) {
        text.push('é');
    }
    let tree = ChunkTree::empty().appended(&text, 0);
    let descs = tree.iter_descs();
    assert!(descs.len() >= 2);
    // The page limit falls inside a two-byte character, so the first page
    // stops one byte short of it.
    assert_eq!(u64::from(descs[0].len()), SOURCE_CHUNK_BYTES as u64 - 1);
    for desc in &descs {
        assert!(std::str::from_utf8(desc.bytes()).is_ok());
        assert!(text.is_char_boundary(desc.abs_start() as usize));
    }
}

#[test]
fn short_append_is_one_view() {
    let tree = ChunkTree::empty().appended("ab\ncd", 10);
    let descs = tree.iter_descs();
    assert_eq!(descs.len(), 1);
    assert_eq!(descs[0].abs_start(), 10);
    assert_eq!(descs[0].len(), 5);
    assert_eq!(descs[0].newlines(), 1);
    let (left, right) = descs[0].split_at(13).unwrap();
    assert_eq!(left.bytes(), b"ab\n");
    assert_eq!(right.bytes(), b"cd");
    assert_eq!(right.abs_start(), 13);
    assert_eq!(right.newlines(), 0);
    assert!(descs[0].split_at(10).is_none());
    assert!(descs[0].split_at(15).is_none());
}

#[test]
fn tree_split_keeps_views_whole_at_seams() {
    let tree = ChunkTree::empty().appended("ab\n", 0).appended("cd", 3);
    let (left, right) = tree.split_at(0, 3);
    let l = left.iter_descs();
    let r = right.iter_descs();
    assert_eq!(l.len(), 1);
    assert_eq!(r.len(), 1);
    assert_eq!(l[0].bytes(), b"ab\n");
    assert_eq!(r[0].bytes(), b"cd");
    assert_eq!(r[0].abs_start(), 3);
    let (left, right) = tree.split_at(0, 4);
    let l = left.iter_descs();
    let r = right.iter_descs();
    assert_eq!(l.len(), 2);
    assert_eq!(r.len(), 1);
    assert_eq!(l[1].bytes(), b"c");
    assert_eq!(r[0].bytes(), b"d");
    assert_eq!(r[0].abs_start(), 4);
}

#[test]
fn appending_nothing_keeps_the_tree() {
    let tree = ChunkTree::empty().appended("ab\ncd", 10);
    let same = tree.appended("", 15);
    assert_eq!(same.iter_descs().len(), 1);
    assert_eq!(same.bytes(), 5);
    assert_eq!(same.total_newlines(), 1);
}
