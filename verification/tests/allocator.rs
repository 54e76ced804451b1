use range_alloc::RangeAllocator;

#[test]
fn test_basic_allocation() {
    let mut alloc = RangeAllocator::new(0..10);
    // Test if an allocation works
    assert_eq!(alloc.allocate_range(4), Some(0..4));
    // Free the prior allocation
    assert!(alloc.free_range(0..4).is_ok());
    // Make sure the free actually worked
    assert_eq!(alloc.free_ranges(), vec![0..10]);
}

#[test]
fn test_out_of_space() {
    let mut alloc = RangeAllocator::new(0..10);
    // Test if the allocator runs out of space correctly
    assert_eq!(alloc.allocate_range(10), Some(0..10));
    assert!(alloc.allocate_range(4).is_none());
    assert!(alloc.free_range(0..10).is_ok());
}

#[test]
fn test_dont_use_block_that_is_too_small() {
    let mut alloc = RangeAllocator::new(0..10);
    // Allocate three blocks then free the middle one and check for correct state
    assert_eq!(alloc.allocate_range(3), Some(0..3));
    assert_eq!(alloc.allocate_range(3), Some(3..6));
    assert_eq!(alloc.allocate_range(3), Some(6..9));
    assert!(alloc.free_range(3..6).is_ok());
    assert_eq!(alloc.free_ranges(), vec![3..6, 9..10]);
    // Now request space that the middle block can fill, but the end one can't.
    assert_eq!(alloc.allocate_range(3), Some(3..6));
}

#[test]
fn test_free_blocks_in_middle() {
    let mut alloc = RangeAllocator::new(0..100);
    // Allocate many blocks then free every other block.
    assert_eq!(alloc.allocate_range(10), Some(0..10));
    assert_eq!(alloc.allocate_range(10), Some(10..20));
    assert_eq!(alloc.allocate_range(10), Some(20..30));
    assert_eq!(alloc.allocate_range(10), Some(30..40));
    assert_eq!(alloc.allocate_range(10), Some(40..50));
    assert_eq!(alloc.allocate_range(10), Some(50..60));
    assert_eq!(alloc.allocate_range(10), Some(60..70));
    assert_eq!(alloc.allocate_range(10), Some(70..80));
    assert_eq!(alloc.allocate_range(10), Some(80..90));
    assert_eq!(alloc.allocate_range(10), Some(90..100));
    assert_eq!(alloc.free_ranges(), vec![]);
    assert!(alloc.free_range(10..20).is_ok());
    assert!(alloc.free_range(30..40).is_ok());
    assert!(alloc.free_range(50..60).is_ok());
    assert!(alloc.free_range(70..80).is_ok());
    assert!(alloc.free_range(90..100).is_ok());
    // Check that the right blocks were freed.
    assert_eq!(alloc.free_ranges(), vec![10..20, 30..40, 50..60, 70..80, 90..100]);
    // Fragment the memory on purpose a bit.
    assert_eq!(alloc.allocate_range(6), Some(10..16));
    assert_eq!(alloc.allocate_range(6), Some(30..36));
    assert_eq!(alloc.allocate_range(6), Some(50..56));
    assert_eq!(alloc.allocate_range(6), Some(70..76));
    assert_eq!(alloc.allocate_range(6), Some(90..96));
    // Check for fragementation.
    assert_eq!(alloc.free_ranges(), vec![16..20, 36..40, 56..60, 76..80, 96..100]);
    // Fill up the fragmentation
    assert_eq!(alloc.allocate_range(4), Some(16..20));
    assert_eq!(alloc.allocate_range(4), Some(36..40));
    assert_eq!(alloc.allocate_range(4), Some(56..60));
    assert_eq!(alloc.allocate_range(4), Some(76..80));
    assert_eq!(alloc.allocate_range(4), Some(96..100));
    // Check that nothing is free.
    assert_eq!(alloc.free_ranges(), vec![]);
}

#[test]
fn test_ignore_block_if_another_fits_better() {
    let mut alloc = RangeAllocator::new(0..10);
    // Allocate blocks such that the only free spaces available are 3..6 and 9..10
    // in order to prepare for the next test.
    assert_eq!(alloc.allocate_range(3), Some(0..3));
    assert_eq!(alloc.allocate_range(3), Some(3..6));
    assert_eq!(alloc.allocate_range(3), Some(6..9));
    assert!(alloc.free_range(3..6).is_ok());
    assert_eq!(alloc.free_ranges(), vec![3..6, 9..10]);
    // Now request space that can be filled by 3..6 but should be filled by 9..10
    // because 9..10 is a perfect fit.
    assert_eq!(alloc.allocate_range(1), Some(9..10));
}

#[test]
fn test_initial_range_is_fixed() {
    let mut alloc = RangeAllocator::new(5..25);
    assert_eq!(alloc.initial_range(), 5..25);
    assert_eq!(alloc.allocate_range(7), Some(5..12));
    // The initial range never changes, whatever is allocated.
    assert_eq!(alloc.initial_range(), 5..25);
    alloc.reset();
    assert_eq!(alloc.initial_range(), 5..25);
}

#[test]
fn test_reset_restores_full_span() {
    let mut alloc = RangeAllocator::new(0..50);
    assert_eq!(alloc.allocate_range(20), Some(0..20));
    assert_eq!(alloc.allocate_range(10), Some(20..30));
    assert!(alloc.free_range(5..15).is_ok());
    alloc.reset();
    // Reset reclaims everything at once.
    assert_eq!(alloc.free_ranges(), vec![0..50]);
    assert_eq!(alloc.allocate_range(50), Some(0..50));
}

#[test]
fn test_free_overlapping_range_fails_unchanged() {
    let mut alloc = RangeAllocator::new(0..10);
    // The whole span is free, so freeing anything overlaps and fails.
    assert!(alloc.free_range(2..5).is_err());
    assert_eq!(alloc.free_ranges(), vec![0..10]);
    // Partial overlap at the edge of a free entry fails too.
    assert_eq!(alloc.allocate_range(4), Some(0..4));
    assert!(alloc.free_range(3..6).is_err());
    assert_eq!(alloc.free_ranges(), vec![4..10]);
}

#[test]
fn test_double_free_fails_unchanged() {
    let mut alloc = RangeAllocator::new(0..10);
    assert_eq!(alloc.allocate_range(4), Some(0..4));
    assert!(alloc.free_range(0..4).is_ok());
    // Freeing the same range again is a double free: it fails and the
    // free list stays as it was.
    assert!(alloc.free_range(0..4).is_err());
    assert_eq!(alloc.free_ranges(), vec![0..10]);
}

#[test]
fn test_free_merges_on_both_sides() {
    let mut alloc = RangeAllocator::new(0..10);
    assert_eq!(alloc.allocate_range(10), Some(0..10));
    assert!(alloc.free_range(0..3).is_ok());
    assert!(alloc.free_range(7..10).is_ok());
    assert_eq!(alloc.free_ranges(), vec![0..3, 7..10]);
    // The middle piece bridges both neighbours: one entry remains.
    assert!(alloc.free_range(3..7).is_ok());
    assert_eq!(alloc.free_ranges(), vec![0..10]);
}

#[test]
fn test_tie_break_prefers_lowest_start() {
    let mut alloc = RangeAllocator::new(0..9);
    assert_eq!(alloc.allocate_range(9), Some(0..9));
    assert!(alloc.free_range(0..3).is_ok());
    assert!(alloc.free_range(6..9).is_ok());
    assert_eq!(alloc.free_ranges(), vec![0..3, 6..9]);
    // Two candidates of the same size: the first one scanned wins.
    assert_eq!(alloc.allocate_range(2), Some(0..2));
}

#[test]
fn test_empty_allocator_never_allocates() {
    let mut alloc = RangeAllocator::new(7..7);
    assert_eq!(alloc.initial_range(), 7..7);
    assert!(alloc.allocate_range(1).is_none());
    assert_eq!(alloc.free_ranges(), vec![]);
}

#[test]
fn test_exhaustion_after_full_allocation() {
    let mut alloc = RangeAllocator::new(0..64);
    assert_eq!(alloc.allocate_range(64), Some(0..64));
    assert_eq!(alloc.free_ranges(), vec![]);
    // Nothing can be satisfied once the whole span is handed out.
    assert!(alloc.allocate_range(1).is_none());
    assert!(alloc.allocate_range(64).is_none());
}

#[test]
fn test_conservation_of_lengths() {
    let mut alloc = RangeAllocator::new(0..30);
    let mut outstanding: Vec<std::ops::Range<usize>> = Vec::new();
    for len in [4usize, 7, 3] {
        outstanding.push(alloc.allocate_range(len).unwrap());
    }
    assert!(alloc.free_range(outstanding.remove(1)).is_ok());
    // Free lengths plus outstanding lengths always add up to the span.
    let free: usize = alloc.free_ranges().iter().map(|r| r.end - r.start).sum();
    let held: usize = outstanding.iter().map(|r| r.end - r.start).sum();
    assert_eq!(free + held, 30);
}

#[test]
fn test_round_trip_restores_fragmented_list() {
    let mut alloc = RangeAllocator::new(0..20);
    assert_eq!(alloc.allocate_range(20), Some(0..20));
    assert!(alloc.free_range(2..5).is_ok());
    assert!(alloc.free_range(9..14).is_ok());
    let before = alloc.free_ranges();
    // Allocate and immediately free the same range: the list is restored.
    let got = alloc.allocate_range(3).unwrap();
    assert_eq!(got, 2..5);
    assert!(alloc.free_range(got).is_ok());
    assert_eq!(alloc.free_ranges(), before);
}
