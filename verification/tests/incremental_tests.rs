use varant::implicit::ImplicitMention;
use varant::incremental::{
    chunk_text, compute_delta, compute_hash, extract_dirty_text, longest_increasing_subsequence,
    shift_items, Change, Chunk, Delta, ShiftIndex,
};

#[test]
fn test_chunk_text_single_paragraph() {
    let text = "Hello world";
    let chunks = chunk_text(text);
    assert_eq!(chunks.len(), 1);
    assert_eq!(chunks[0].start, 0);
    assert_eq!(chunks[0].end, 11);
}

#[test]
fn test_chunk_text_multiple_paragraphs() {
    let text = "First paragraph.\n\nSecond paragraph.";
    let chunks = chunk_text(text);
    assert_eq!(chunks.len(), 2);
}

#[test]
fn test_compute_delta_no_change() {
    let text = "Hello world";
    let chunks = chunk_text(text);
    let delta = compute_delta(&chunks, text);

    assert!(delta.dirty_ranges.is_empty());
    assert_eq!(delta.dirty_chunks, 0);
}

#[test]
fn test_compute_delta_append() {
    let old_text = "P1.\n\nP2.\n\nP3.\n\nP4.";
    let old_chunks = chunk_text(old_text);

    let new_text = "P1.\n\nP2.\n\nP3.\n\nP4. More.";
    let delta = compute_delta(&old_chunks, new_text);

    assert_eq!(delta.dirty_chunks, 1);
    assert!(delta.should_use_incremental());
}

#[test]
fn test_compute_delta_insert_at_top() {
    // Inserting at the top must not make everything dirty
    let old_text = "AAA\n\nBBB\n\nCCC\n\nDDD";
    let old_chunks = chunk_text(old_text);
    assert_eq!(old_chunks.len(), 4);

    let new_text = "NEW\n\nAAA\n\nBBB\n\nCCC\n\nDDD";
    let delta = compute_delta(&old_chunks, new_text);

    assert_eq!(delta.dirty_chunks, 1, "Insert at top should only dirty 1 chunk, not cascade");
}

#[test]
fn test_shift_index_binary_search() {
    let changes = vec![Change { old_end: 10, shift: 5 }, Change { old_end: 20, shift: -3 }];
    let index = ShiftIndex::from_changes(&changes);

    assert_eq!(index.shift_at(5), 0);
    assert_eq!(index.shift_at(10), 5);
    assert_eq!(index.shift_at(15), 5);
    assert_eq!(index.shift_at(20), 2);
    assert_eq!(index.shift_at(25), 2);
}

#[test]
fn test_overlaps_dirty_binary_search() {
    let delta = Delta { dirty_ranges: vec![10..20, 30..40], ..Default::default() };

    assert!(!delta.overlaps_dirty(0, 5));
    assert!(delta.overlaps_dirty(15, 25));
    assert!(!delta.overlaps_dirty(22, 28));
    assert!(delta.overlaps_dirty(35, 45));
}

#[test]
fn test_lis_empty() {
    let matches: Vec<Option<usize>> = vec![];
    assert!(longest_increasing_subsequence(&matches).is_empty());
}

#[test]
fn test_lis_all_none() {
    let matches = vec![None, None, None];
    assert!(longest_increasing_subsequence(&matches).is_empty());
}

#[test]
fn test_lis_simple() {
    let matches = vec![Some(0), Some(1), Some(2)];
    let lis = longest_increasing_subsequence(&matches);
    assert_eq!(lis, vec![0, 1, 2]);
}

#[test]
fn test_lis_with_gaps() {
    // new_idx: 0    1    2    3    4
    // old_idx: 1    0    2    None 3
    let matches = vec![Some(1), Some(0), Some(2), None, Some(3)];
    let lis = longest_increasing_subsequence(&matches);
    assert!(lis.len() >= 3);
}

#[test]
fn lis_exact_path_with_gaps() {
    let matches = vec![Some(1), Some(0), Some(2), None, Some(3)];
    assert_eq!(longest_increasing_subsequence(&matches), vec![0, 2, 4]);
}

#[test]
fn chunk_offsets_are_bytes() {
    let text = "caf\u{e9}.\n\nend";
    let chunks = chunk_text(text);
    assert_eq!(chunks.len(), 2);
    assert_eq!(chunks[0].start, 0);
    assert_eq!(chunks[0].end, 6);
    assert_eq!(chunks[1].start, 8);
    assert_eq!(chunks[1].end, 11);
    assert_eq!(chunks[0].len(), 6);
    assert!(!chunks[0].is_empty());
}

#[test]
fn chunk_new_hashes_content() {
    let c = Chunk::new("abc", 7);
    assert_eq!(c.start, 7);
    assert_eq!(c.end, 10);
    assert_eq!(c.hash, compute_hash("abc"));
    assert_ne!(compute_hash("abc"), compute_hash("abd"));
}

#[test]
fn unchanged_text_has_no_dirty_ranges() {
    let text = "One.\n\nTwo.\n\nThree.";
    let chunks = chunk_text(text);
    let delta = compute_delta(&chunks, text);
    assert!(delta.dirty_ranges.is_empty());
    assert!(delta.changes.is_empty());
    assert_eq!(delta.total_chunks, 3);
}

#[test]
fn delta_shift_moves_clean_items() {
    let old_text = "AAA\n\nBBB\n\nCCC";
    let old_chunks = chunk_text(old_text);
    // The first paragraph grows by one byte
    let new_text = "AAAA\n\nBBB\n\nCCC";
    let delta = compute_delta(&old_chunks, new_text);
    assert_eq!(delta.dirty_chunks, 1);
    // BBB, kept, starts at 5 in the old text and at 6 in the new one
    assert_eq!(delta.changes.len(), 1);
    assert_eq!(delta.changes[0].old_end, 5);
    assert_eq!(delta.changes[0].shift, 1);
    assert_eq!(delta.dirty_ranges, vec![0..9]);
    let idx = delta.build_shift_index();
    assert_eq!(idx.shift_at(2), 0);
    assert_eq!(idx.shift_at(5), 1);
    let mention = |start: usize, end: usize| ImplicitMention {
        entity_id: "e".to_string(),
        entity_label: "X".to_string(),
        entity_kind: "ITEM".to_string(),
        matched_text: "X".to_string(),
        start,
        end,
        is_alias_match: false,
        confidence: 1000,
    };
    // The item in the dirty region is dropped, the one after it moves
    let mut items = vec![mention(5, 8), mention(10, 13)];
    shift_items(&mut items, &delta);
    assert_eq!(items.len(), 1);
    assert_eq!(items[0].start, 11);
    assert_eq!(items[0].end, 14);
}

#[test]
fn dirty_text_slices() {
    let old_text = "AAA\n\nBBB";
    let old_chunks = chunk_text(old_text);
    let new_text = "NEW\n\nAAA\n\nBBB";
    let delta = compute_delta(&old_chunks, new_text);
    let pieces = extract_dirty_text(new_text, &delta);
    assert!(!pieces.is_empty());
    assert!(pieces[0].1.contains("NEW"));
}

#[test]
fn should_use_incremental_threshold() {
    let mut d = Delta::default();
    d.total_chunks = 10;
    d.dirty_chunks = 2;
    assert!(d.should_use_incremental());
    d.dirty_chunks = 3;
    assert!(!d.should_use_incremental());
}

#[test]
fn insert_at_top_moves_later_items_with_their_text() {
    let old_text = "AAA\n\nBBB\n\nCCC\n\nDDD";
    let new_text = "NEW\n\nAAA\n\nBBB\n\nCCC\n\nDDD";
    let delta = compute_delta(&chunk_text(old_text), new_text);
    assert_eq!(delta.changes.len(), 1);
    assert_eq!(delta.changes[0].old_end, 0);
    assert_eq!(delta.changes[0].shift, 5);
    let mut items = vec![ImplicitMention {
        entity_id: "d".to_string(),
        entity_label: "DDD".to_string(),
        entity_kind: "ITEM".to_string(),
        matched_text: "DDD".to_string(),
        start: 15,
        end: 18,
        is_alias_match: false,
        confidence: 1000,
    }];
    shift_items(&mut items, &delta);
    assert_eq!(items.len(), 1);
    assert_eq!((items[0].start, items[0].end), (20, 23));
    assert_eq!(&new_text[20..23], "DDD");
}

#[test]
fn dirty_ranges_are_ordered_and_within_the_text() {
    let old_text = "AAA\n\nBBB\n\nCCC\n\nDDD\n\nEEE\n\nFFF";
    let new_text = "AAX\n\nBBB\n\nCCC\n\nDDD\n\nEEE\n\nFFX";
    let delta = compute_delta(&chunk_text(old_text), new_text);
    assert_eq!(delta.dirty_chunks, 2);
    assert_eq!(delta.dirty_ranges.len(), 2);
    for w in delta.dirty_ranges.windows(2) {
        assert!(w[0].end < w[1].start);
    }
    for r in &delta.dirty_ranges {
        assert!(r.start <= r.end && r.end <= new_text.len());
    }
    // no old chunks: everything is dirty, one range over the whole text
    let fresh = compute_delta(&[], new_text);
    assert_eq!(fresh.dirty_chunks, fresh.total_chunks);
    assert_eq!(fresh.dirty_ranges, vec![0..new_text.len()]);
}

#[test]
fn shift_index_ignores_the_order_of_changes() {
    let a = vec![Change { old_end: 20, shift: -3 }, Change { old_end: 10, shift: 5 }];
    let b = vec![Change { old_end: 10, shift: 5 }, Change { old_end: 20, shift: -3 }];
    let ia = ShiftIndex::from_changes(&a);
    let ib = ShiftIndex::from_changes(&b);
    for pos in [0usize, 5, 10, 15, 20, 25] {
        assert_eq!(ia.shift_at(pos), ib.shift_at(pos));
    }
    // the running sums in end order fit, though not every order's would
    let big = vec![Change { old_end: 5, shift: i64::MAX }, Change { old_end: 1, shift: -5 }];
    assert_eq!(ShiftIndex::from_changes(&big).shift_at(5), i64::MAX - 5);
}

#[test]
fn short_paragraphs_are_single_chunks_and_dirty_chunks_lie_in_ranges() {
    let text = "First one.\n\nSecond paragraph here.";
    let chunks = chunk_text(text);
    assert_eq!(chunks.len(), 2);
    assert_eq!((chunks[1].start, chunks[1].end), (12, 34));
    let new_text = "First one.\n\nSecond paragraph changed.";
    let delta = compute_delta(&chunks, new_text);
    let new_chunks = chunk_text(new_text);
    assert_eq!(delta.dirty_chunks, 1);
    let dirty = &new_chunks[1];
    assert!(delta
        .dirty_ranges
        .iter()
        .any(|r| r.start <= dirty.start && dirty.end <= r.end && r.start < r.end));
}
