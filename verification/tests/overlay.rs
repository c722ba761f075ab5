//! Tests of the two-layer overlay.

use cowfile::Overlay;

#[test]
fn test_overlay_empty() {
    let overlay = Overlay::new();
    assert!(!overlay.has_pending());
    assert!(!overlay.has_modifications());
    assert_eq!(overlay.pending_count(), 0);
    assert_eq!(overlay.committed_count(), 0);
}

#[test]
fn test_overlay_single_write() {
    let base = vec![0u8; 10];
    let mut overlay = Overlay::new();
    overlay.write(2, &[0xFF, 0xFE]);

    let result = overlay.read(0, 10, &base);
    assert_eq!(result, vec![0, 0, 0xFF, 0xFE, 0, 0, 0, 0, 0, 0]);
    assert!(overlay.has_pending());
    assert!(overlay.has_modifications());
    assert_eq!(overlay.pending_count(), 1);
}

#[test]
fn test_overlay_multiple_nonoverlapping_writes() {
    let base = vec![0u8; 20];
    let mut overlay = Overlay::new();
    overlay.write(0, &[0xAA]);
    overlay.write(5, &[0xBB, 0xCC]);
    overlay.write(10, &[0xDD]);

    let result = overlay.read(0, 20, &base);
    assert_eq!(result[0], 0xAA);
    assert_eq!(result[5], 0xBB);
    assert_eq!(result[6], 0xCC);
    assert_eq!(result[10], 0xDD);
    assert_eq!(result[1], 0x00);
    assert_eq!(overlay.pending_count(), 3);
}

#[test]
fn test_overlay_overlapping_writes_last_wins() {
    let base = vec![0u8; 10];
    let mut overlay = Overlay::new();
    overlay.write(2, &[0xAA, 0xBB, 0xCC]);
    overlay.write(3, &[0xFF]); // Overlaps byte at offset 3

    let result = overlay.read(0, 10, &base);
    assert_eq!(result[2], 0xAA);
    assert_eq!(result[3], 0xFF); // Last write wins
    assert_eq!(result[4], 0xCC);
}

#[test]
fn test_overlay_same_offset_write_replaces() {
    let base = vec![0u8; 10];
    let mut overlay = Overlay::new();
    overlay.write(0, &[0xAA, 0xBB]);
    overlay.write(0, &[0xCC, 0xDD]); // Replaces previous at same offset

    let result = overlay.read(0, 10, &base);
    assert_eq!(result[0], 0xCC);
    assert_eq!(result[1], 0xDD);
    assert_eq!(overlay.pending_count(), 1);
}

#[test]
fn test_overlay_commit_merges_pending() {
    let base = vec![0u8; 10];
    let mut overlay = Overlay::new();
    overlay.write(2, &[0xFF, 0xFE]);

    assert!(overlay.has_pending());
    overlay.commit();
    assert!(!overlay.has_pending());
    assert!(overlay.has_modifications());
    assert_eq!(overlay.committed_count(), 1);

    let result = overlay.read(0, 10, &base);
    assert_eq!(result[2], 0xFF);
    assert_eq!(result[3], 0xFE);
}

#[test]
fn test_overlay_commit_empty_is_noop() {
    let mut overlay = Overlay::new();
    overlay.commit();
    assert!(!overlay.has_modifications());
}

#[test]
fn test_overlay_commit_consolidates_adjacent() {
    let base = vec![0u8; 10];
    let mut overlay = Overlay::new();
    overlay.write(2, &[0xAA, 0xBB]);
    overlay.write(4, &[0xCC, 0xDD]); // Adjacent to previous
    overlay.commit();

    // Adjacent entries should be consolidated into one.
    assert_eq!(overlay.committed_count(), 1);

    let result = overlay.read(0, 10, &base);
    assert_eq!(result[2], 0xAA);
    assert_eq!(result[3], 0xBB);
    assert_eq!(result[4], 0xCC);
    assert_eq!(result[5], 0xDD);
}

#[test]
fn test_overlay_commit_consolidates_overlapping() {
    let base = vec![0u8; 10];
    let mut overlay = Overlay::new();
    overlay.write(2, &[0xAA, 0xBB, 0xCC]);
    overlay.write(3, &[0xDD, 0xEE, 0xFF]); // Overlaps at offset 3-4
    overlay.commit();

    assert_eq!(overlay.committed_count(), 1);

    let result = overlay.read(0, 10, &base);
    assert_eq!(result[2], 0xAA);
    assert_eq!(result[3], 0xDD); // Pending write at offset 3 wins
    assert_eq!(result[4], 0xEE);
    assert_eq!(result[5], 0xFF);
}

#[test]
fn test_overlay_multi_commit_cycle() {
    let base = vec![0u8; 20];
    let mut overlay = Overlay::new();

    // Pass 1
    overlay.write(0, &[0xAA]);
    overlay.write(10, &[0xBB]);
    overlay.commit();

    // Pass 2
    overlay.write(5, &[0xCC]);
    overlay.write(15, &[0xDD]);
    overlay.commit();

    let result = overlay.read(0, 20, &base);
    assert_eq!(result[0], 0xAA);
    assert_eq!(result[5], 0xCC);
    assert_eq!(result[10], 0xBB);
    assert_eq!(result[15], 0xDD);
}

#[test]
fn test_overlay_pending_overwrites_committed() {
    let base = vec![0u8; 10];
    let mut overlay = Overlay::new();

    overlay.write(2, &[0xAA]);
    overlay.commit();

    overlay.write(2, &[0xFF]); // Pending overwrites committed

    let result = overlay.read(2, 1, &base);
    assert_eq!(result[0], 0xFF);
}

#[test]
fn test_overlay_read_unmodified_returns_base() {
    let base = vec![1, 2, 3, 4, 5];
    let mut overlay = Overlay::new();
    overlay.write(0, &[0xFF]);

    let result = overlay.read(3, 2, &base);
    assert_eq!(result, vec![4, 5]);
}

#[test]
fn test_overlay_read_partially_modified() {
    let base = vec![1, 2, 3, 4, 5, 6, 7, 8];
    let mut overlay = Overlay::new();
    overlay.write(3, &[0xAA, 0xBB]);

    // Read range [2, 7) spans unmodified and modified data.
    let result = overlay.read(2, 5, &base);
    assert_eq!(result, vec![3, 0xAA, 0xBB, 6, 7]);
}

#[test]
fn test_overlay_write_at_offset_zero() {
    let base = vec![1, 2, 3];
    let mut overlay = Overlay::new();
    overlay.write(0, &[0xFF]);

    let result = overlay.read(0, 3, &base);
    assert_eq!(result, vec![0xFF, 2, 3]);
}

#[test]
fn test_overlay_write_at_end() {
    let base = vec![1, 2, 3, 4, 5];
    let mut overlay = Overlay::new();
    overlay.write(4, &[0xFF]);

    let result = overlay.read(0, 5, &base);
    assert_eq!(result, vec![1, 2, 3, 4, 0xFF]);
}

#[test]
fn test_overlay_write_entire_file() {
    let base = vec![0u8; 4];
    let mut overlay = Overlay::new();
    overlay.write(0, &[0xDE, 0xAD, 0xBE, 0xEF]);

    let result = overlay.read(0, 4, &base);
    assert_eq!(result, vec![0xDE, 0xAD, 0xBE, 0xEF]);
}

#[test]
fn test_overlay_empty_write_ignored() {
    let mut overlay = Overlay::new();
    overlay.write(5, &[]);
    assert!(!overlay.has_pending());
    assert_eq!(overlay.pending_count(), 0);
}

#[test]
fn test_overlay_materialize() {
    let base = vec![0u8; 10];
    let mut overlay = Overlay::new();

    overlay.write(0, &[0xAA]);
    overlay.commit();
    overlay.write(5, &[0xBB]);

    let output = overlay.materialize(&base);
    assert_eq!(output[0], 0xAA);
    assert_eq!(output[5], 0xBB);
    assert_eq!(output[1], 0x00);
}

#[test]
fn test_overlay_materialize_pending_over_committed() {
    let base = vec![0u8; 10];
    let mut overlay = Overlay::new();

    overlay.write(2, &[0xAA]);
    overlay.commit();
    overlay.write(2, &[0xFF]);

    let output = overlay.materialize(&base);
    assert_eq!(output[2], 0xFF);
}

#[test]
fn test_overlay_commit_with_gap_between_entries() {
    let base = vec![0u8; 20];
    let mut overlay = Overlay::new();

    overlay.write(0, &[0xAA]);
    overlay.write(10, &[0xBB]);
    overlay.commit();

    // Entries with a gap should remain separate.
    assert_eq!(overlay.committed_count(), 2);

    let result = overlay.read(0, 20, &base);
    assert_eq!(result[0], 0xAA);
    assert_eq!(result[10], 0xBB);
}

#[test]
fn test_overlay_second_commit_merges_with_existing() {
    let base = vec![0u8; 10];
    let mut overlay = Overlay::new();

    overlay.write(2, &[0xAA, 0xBB]);
    overlay.commit();

    // Write adjacent to the committed region.
    overlay.write(4, &[0xCC]);
    overlay.commit();

    // Should be consolidated into one region.
    assert_eq!(overlay.committed_count(), 1);

    let result = overlay.read(0, 10, &base);
    assert_eq!(result[2], 0xAA);
    assert_eq!(result[3], 0xBB);
    assert_eq!(result[4], 0xCC);
}

#[test]
fn test_pending_containment_small_inside_large() {
    // Write [0..20), then [5..10) — second is completely contained.
    let base = vec![0u8; 20];
    let mut overlay = Overlay::new();
    overlay.write(0, &[0xAA; 20]);
    overlay.write(5, &[0xBB; 5]);

    let result = overlay.read(0, 20, &base);
    assert!(result[..5].iter().all(|&b| b == 0xAA));
    assert!(result[5..10].iter().all(|&b| b == 0xBB));
    assert!(result[10..20].iter().all(|&b| b == 0xAA));
}

#[test]
fn test_pending_containment_large_over_small() {
    // Write [5..10), then [0..20) — second completely covers first.
    let base = vec![0u8; 20];
    let mut overlay = Overlay::new();
    overlay.write(5, &[0xAA; 5]);
    overlay.write(0, &[0xBB; 20]);

    let result = overlay.read(0, 20, &base);
    assert!(result.iter().all(|&b| b == 0xBB));
}

#[test]
fn test_pending_overlap_at_start_boundary() {
    // Write [5..15), then [0..8) — second overlaps at the start.
    let base = vec![0u8; 20];
    let mut overlay = Overlay::new();
    overlay.write(5, &[0xAA; 10]);
    overlay.write(0, &[0xBB; 8]);

    let result = overlay.read(0, 20, &base);
    assert!(result[..8].iter().all(|&b| b == 0xBB));
    assert!(result[8..15].iter().all(|&b| b == 0xAA));
    assert!(result[15..20].iter().all(|&b| b == 0x00));
}

#[test]
fn test_pending_overlap_at_end_boundary() {
    // Write [0..10), then [8..20) — second overlaps at the end.
    let base = vec![0u8; 20];
    let mut overlay = Overlay::new();
    overlay.write(0, &[0xAA; 10]);
    overlay.write(8, &[0xBB; 12]);

    let result = overlay.read(0, 20, &base);
    assert!(result[..8].iter().all(|&b| b == 0xAA));
    assert!(result[8..20].iter().all(|&b| b == 0xBB));
}

#[test]
fn test_three_pending_cascading_overlaps() {
    // Three overlapping writes: [0..10), [5..15), [12..20).
    let base = vec![0u8; 20];
    let mut overlay = Overlay::new();
    overlay.write(0, &[0xAA; 10]);
    overlay.write(5, &[0xBB; 10]);
    overlay.write(12, &[0xCC; 8]);

    let result = overlay.read(0, 20, &base);
    assert!(result[..5].iter().all(|&b| b == 0xAA));
    assert!(result[5..12].iter().all(|&b| b == 0xBB));
    assert!(result[12..20].iter().all(|&b| b == 0xCC));
}

#[test]
fn test_pending_before_committed_partial_overlap() {
    // Committed [5..15), then pending [0..10) — pending overlaps from left.
    let base = vec![0u8; 20];
    let mut overlay = Overlay::new();
    overlay.write(5, &[0xAA; 10]);
    overlay.commit();
    overlay.write(0, &[0xBB; 10]);

    let result = overlay.read(0, 20, &base);
    assert!(result[..10].iter().all(|&b| b == 0xBB));
    assert!(result[10..15].iter().all(|&b| b == 0xAA));
    assert!(result[15..20].iter().all(|&b| b == 0x00));
}

#[test]
fn test_pending_after_committed_partial_overlap() {
    // Committed [0..10), then pending [5..20) — pending overlaps from right.
    let base = vec![0u8; 20];
    let mut overlay = Overlay::new();
    overlay.write(0, &[0xAA; 10]);
    overlay.commit();
    overlay.write(5, &[0xBB; 15]);

    let result = overlay.read(0, 20, &base);
    assert!(result[..5].iter().all(|&b| b == 0xAA));
    assert!(result[5..20].iter().all(|&b| b == 0xBB));
}

#[test]
fn test_pending_completely_contains_committed() {
    // Committed [5..10), then pending [0..20) covers it entirely.
    let base = vec![0u8; 20];
    let mut overlay = Overlay::new();
    overlay.write(5, &[0xAA; 5]);
    overlay.commit();
    overlay.write(0, &[0xBB; 20]);

    let result = overlay.read(0, 20, &base);
    assert!(result.iter().all(|&b| b == 0xBB));

    // After commit, everything should still be 0xBB.
    overlay.commit();
    let output = overlay.materialize(&base);
    assert!(output.iter().all(|&b| b == 0xBB));
}

#[test]
fn test_committed_completely_contains_pending() {
    // Committed [0..20), then pending [5..10) is entirely inside.
    let base = vec![0u8; 20];
    let mut overlay = Overlay::new();
    overlay.write(0, &[0xAA; 20]);
    overlay.commit();
    overlay.write(5, &[0xBB; 5]);

    let result = overlay.read(0, 20, &base);
    assert!(result[..5].iter().all(|&b| b == 0xAA));
    assert!(result[5..10].iter().all(|&b| b == 0xBB));
    assert!(result[10..20].iter().all(|&b| b == 0xAA));
}

#[test]
fn test_read_spanning_multiple_pending_entries() {
    // Pending [0..5), [10..15); read [2..12) crosses both plus a gap.
    let base: Vec<u8> = (0..20).collect();
    let mut overlay = Overlay::new();
    overlay.write(0, &[0xAA; 5]);
    overlay.write(10, &[0xBB; 5]);

    let result = overlay.read(2, 10, &base);
    // [2..5) from pending 0xAA, [5..10) from base, [10..12) from pending 0xBB.
    assert!(result[..3].iter().all(|&b| b == 0xAA));
    assert_eq!(&result[3..8], &[5, 6, 7, 8, 9]);
    assert!(result[8..10].iter().all(|&b| b == 0xBB));
}

#[test]
fn test_read_spanning_committed_and_pending() {
    // Committed [0..5), pending [10..15); read [3..13) crosses both layers.
    let base: Vec<u8> = (0..20).collect();
    let mut overlay = Overlay::new();
    overlay.write(0, &[0xAA; 5]);
    overlay.commit();
    overlay.write(10, &[0xBB; 5]);

    let result = overlay.read(3, 10, &base);
    // [3..5) from committed 0xAA, [5..10) from base, [10..13) from pending 0xBB.
    assert!(result[..2].iter().all(|&b| b == 0xAA));
    assert_eq!(&result[2..7], &[5, 6, 7, 8, 9]);
    assert!(result[7..10].iter().all(|&b| b == 0xBB));
}

#[test]
fn test_read_spanning_overlapping_committed_and_pending() {
    // Committed [5..10), pending [7..12) (overlap at [7..10)); read [4..13).
    let base: Vec<u8> = (0..20).collect();
    let mut overlay = Overlay::new();
    overlay.write(5, &[0xAA; 5]);
    overlay.commit();
    overlay.write(7, &[0xBB; 5]);

    let result = overlay.read(4, 9, &base);
    // [4..5) from base=4, [5..7) from committed=0xAA, [7..12) from pending=0xBB, [12..13) from base=12.
    assert_eq!(result[0], 4);
    assert!(result[1..3].iter().all(|&b| b == 0xAA));
    assert!(result[3..8].iter().all(|&b| b == 0xBB));
    assert_eq!(result[8], 12);
}

#[test]
fn test_commit_three_overlapping_entries() {
    // Three overlapping pending entries consolidated into one committed.
    let base = vec![0u8; 30];
    let mut overlay = Overlay::new();
    overlay.write(0, &[0xAA; 10]);
    overlay.write(5, &[0xBB; 10]);
    overlay.write(12, &[0xCC; 8]);
    overlay.commit();

    // All three should consolidate: [0..20) is contiguous.
    assert_eq!(overlay.committed_count(), 1);

    let result = overlay.read(0, 30, &base);
    assert!(result[..5].iter().all(|&b| b == 0xAA));
    assert!(result[5..12].iter().all(|&b| b == 0xBB));
    assert!(result[12..20].iter().all(|&b| b == 0xCC));
    assert!(result[20..30].iter().all(|&b| b == 0x00));
}

#[test]
fn test_pending_spanning_multiple_committed_entries() {
    // Committed [0..5), [10..15), [20..25); pending [3..22) spans all three.
    let base = vec![0u8; 30];
    let mut overlay = Overlay::new();
    overlay.write(0, &[0xAA; 5]);
    overlay.write(10, &[0xAA; 5]);
    overlay.write(20, &[0xAA; 5]);
    overlay.commit();
    assert_eq!(overlay.committed_count(), 3);

    overlay.write(3, &[0xBB; 19]);

    let result = overlay.read(0, 30, &base);
    assert!(result[..3].iter().all(|&b| b == 0xAA));
    assert!(result[3..22].iter().all(|&b| b == 0xBB));
    assert!(result[22..25].iter().all(|&b| b == 0xAA));
    assert!(result[25..30].iter().all(|&b| b == 0x00));

    // After commit, verify consolidation.
    overlay.commit();
    let output = overlay.materialize(&base);
    assert!(output[..3].iter().all(|&b| b == 0xAA));
    assert!(output[3..22].iter().all(|&b| b == 0xBB));
    assert!(output[22..25].iter().all(|&b| b == 0xAA));
}

#[test]
fn test_pending_between_two_committed_with_gaps() {
    // Committed [0..5), [15..20); pending [8..12) sits between with gaps.
    let base = vec![0u8; 25];
    let mut overlay = Overlay::new();
    overlay.write(0, &[0xAA; 5]);
    overlay.write(15, &[0xAA; 5]);
    overlay.commit();

    overlay.write(8, &[0xBB; 4]);
    overlay.commit();

    // Three separate committed entries.
    assert_eq!(overlay.committed_count(), 3);

    let result = overlay.read(0, 25, &base);
    assert!(result[..5].iter().all(|&b| b == 0xAA));
    assert!(result[5..8].iter().all(|&b| b == 0x00));
    assert!(result[8..12].iter().all(|&b| b == 0xBB));
    assert!(result[12..15].iter().all(|&b| b == 0x00));
    assert!(result[15..20].iter().all(|&b| b == 0xAA));
}

#[test]
fn test_one_byte_gap_vs_adjacent() {
    let base = vec![0u8; 20];

    // Adjacent (zero-byte gap) → should consolidate.
    let mut overlay = Overlay::new();
    overlay.write(0, &[0xAA; 5]);
    overlay.write(5, &[0xBB; 5]);
    overlay.commit();
    assert_eq!(overlay.committed_count(), 1);

    // One-byte gap → should NOT consolidate.
    let mut overlay2 = Overlay::new();
    overlay2.write(0, &[0xAA; 5]);
    overlay2.write(6, &[0xBB; 5]);
    overlay2.commit();
    assert_eq!(overlay2.committed_count(), 2);

    let result = overlay2.read(0, 20, &base);
    assert!(result[..5].iter().all(|&b| b == 0xAA));
    assert_eq!(result[5], 0x00); // The gap byte stays as base.
    assert!(result[6..11].iter().all(|&b| b == 0xBB));
}

#[test]
fn test_single_byte_overlap_at_boundary() {
    // Two writes that overlap at exactly one byte.
    let base = vec![0u8; 10];
    let mut overlay = Overlay::new();
    overlay.write(0, &[0xAA; 5]); // [0..5)
    overlay.write(4, &[0xBB; 5]); // [4..9) — overlap at byte 4

    let result = overlay.read(0, 10, &base);
    assert!(result[..4].iter().all(|&b| b == 0xAA));
    assert!(result[4..9].iter().all(|&b| b == 0xBB)); // Later write wins.
    assert_eq!(result[9], 0x00);
}

#[test]
fn test_same_range_different_data() {
    // Same exact range [5..10), written twice with different data.
    let base = vec![0u8; 20];
    let mut overlay = Overlay::new();
    overlay.write(5, &[0xAA; 5]);
    overlay.commit();
    overlay.write(5, &[0xBB; 5]); // Exact same range, different data.

    let result = overlay.read(5, 5, &base);
    assert!(result.iter().all(|&b| b == 0xBB));
}

#[test]
fn test_commit_merges_pending_overlapping_multiple_committed() {
    // Committed: [0..5)=0xAA, [10..15)=0xBB.
    // Pending: [3..12)=0xCC — overlaps both.
    let base = vec![0u8; 20];
    let mut overlay = Overlay::new();
    overlay.write(0, &[0xAA; 5]);
    overlay.write(10, &[0xBB; 5]);
    overlay.commit();

    overlay.write(3, &[0xCC; 9]);
    overlay.commit();

    // After commit, all three should consolidate into one.
    assert_eq!(overlay.committed_count(), 1);

    let result = overlay.read(0, 20, &base);
    assert!(result[..3].iter().all(|&b| b == 0xAA));
    assert!(result[3..12].iter().all(|&b| b == 0xCC));
    assert!(result[12..15].iter().all(|&b| b == 0xBB));
    assert!(result[15..20].iter().all(|&b| b == 0x00));
}
