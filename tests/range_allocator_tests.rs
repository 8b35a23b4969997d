use rand::seq::SliceRandom;
use rand::thread_rng;
use turbo_ecs::range_allocator::RangeAllocator;

#[test]
pub fn sequential_allocation() {
    let mut allocator = RangeAllocator::new();

    for i in 0..16 {
        let range = allocator.allocate(16);

        assert_eq!(
            range,
            i * 16..(i + 1) * 16,
            "Allocated range does not match expected range"
        );
        assert_eq!(
            (i + 1) * 16,
            allocator.capacity(),
            "Capacity does not match expected capacity"
        );
        assert_eq!(
            [0..(i + 1) * 16],
            allocator.used_ranges().as_slice(),
            "Used ranges do not match the expected ranges"
        );
    }
}

#[test]
pub fn sequential_deallocation() {
    let mut allocator = RangeAllocator::new();
    allocator.allocate(16 * 16);

    for i in 0..16 {
        let range = i * 16..(i + 1) * 16;
        allocator.free(range);

        let none: &[std::ops::Range<usize>] = [].as_slice();
        let expected_free = 0..(i + 1) * 16;
        let expected_used = (i + 1) * 16..allocator.capacity();

        assert_eq!(
            if expected_free.is_empty() {
                none
            } else {
                std::slice::from_ref(&expected_free)
            },
            allocator.free_ranges().as_slice(),
            "Free ranges do not match the expected ranges"
        );
        assert_eq!(
            if expected_used.is_empty() {
                none
            } else {
                std::slice::from_ref(&expected_used)
            },
            allocator.used_ranges().as_slice(),
            "Used ranges do not match the expected ranges"
        );
    }
}

#[test]
pub fn fragmented_deallocation() {
    let count = 1024;

    let mut allocator = RangeAllocator::new();
    allocator.allocate(16 * count);

    let mut ranges = (0..count).map(|i| i * 16..(i + 1) * 16).collect::<Vec<_>>();
    ranges.shuffle(&mut thread_rng());

    for (i, range) in ranges.iter().enumerate() {
        allocator.free(range.clone());
        assert_eq!(
            (i + 1) * 16,
            allocator.available(),
            "Available space does not match expected space"
        );
    }

    assert_eq!(
        allocator.free_ranges().as_slice(),
        [0..allocator.capacity()],
        "Available space does not match expected space"
    );
}

#[test]
fn blocks_freed_in_random_order_coalesce_into_one_range() {
    let mut allocator = RangeAllocator::new();
    let mut blocks = Vec::new();
    for i in 0..16 {
        let block = allocator.allocate(16);
        assert_eq!(block, i * 16..(i + 1) * 16);
        blocks.push(block);
    }
    blocks.shuffle(&mut thread_rng());
    for block in blocks {
        allocator.free(block);
    }
    assert_eq!(allocator.free_ranges(), vec![0..256]);
    assert!(allocator.used_ranges().is_empty());
    assert_eq!(allocator.available(), 256);
}

#[test]
fn freeing_a_middle_block_merges_with_both_neighbours() {
    let mut allocator = RangeAllocator::with_capacity(30);
    assert_eq!(allocator.allocate(30), 0..30);
    allocator.free(0..10);
    allocator.free(20..30);
    assert_eq!(allocator.free_ranges(), vec![0..10, 20..30]);
    assert_eq!(allocator.used_ranges(), vec![10..20]);
    allocator.free(10..20);
    assert_eq!(allocator.free_ranges(), vec![0..30]);
    assert_eq!(allocator.available(), 30);
}

#[test]
fn allocate_takes_first_fit_or_grows() {
    let mut allocator = RangeAllocator::with_capacity(10);
    assert_eq!(allocator.allocate(10), 0..10);
    allocator.free(2..4);
    allocator.free(6..9);
    assert_eq!(allocator.allocate(3), 6..9);
    assert_eq!(allocator.allocate(4), 10..14);
    assert_eq!(allocator.capacity(), 14);
    assert_eq!(allocator.allocate(2), 2..4);
}

#[test]
fn try_allocate_reports_shortfall_without_change() {
    let mut allocator = RangeAllocator::with_capacity(8);
    assert_eq!(allocator.allocate(8), 0..8);
    allocator.free(1..3);
    allocator.free(5..6);
    assert_eq!(allocator.try_allocate(5), Err(2));
    assert_eq!(allocator.try_allocate(3), Err(0));
    assert_eq!(allocator.free_ranges(), vec![1..3, 5..6]);
    assert_eq!(allocator.try_allocate(2), Ok(1..3));
}

#[test]
fn fragmented_allocation_uses_free_chunks_then_grows() {
    let mut allocator = RangeAllocator::with_capacity(10);
    assert_eq!(allocator.allocate(10), 0..10);
    allocator.free(1..3);
    allocator.free(5..7);
    allocator.free(8..10);
    let mut out = Vec::new();
    allocator.allocate_fragmented(5, &mut out);
    assert_eq!(out, vec![1..3, 5..7, 8..9]);
    assert_eq!(allocator.free_ranges(), vec![9..10]);

    let mut grown = Vec::new();
    allocator.allocate_fragmented(4, &mut grown);
    assert_eq!(grown, vec![9..13]);
    assert_eq!(allocator.capacity(), 13);
    assert!(allocator.free_ranges().is_empty());
}

#[test]
fn try_allocate_fragmented_fails_whole() {
    let mut allocator = RangeAllocator::with_capacity(4);
    let mut out = Vec::new();
    assert_eq!(allocator.try_allocate_fragmented(6, &mut out), Err(2));
    assert!(out.is_empty());
    assert_eq!(allocator.available(), 4);
    assert_eq!(allocator.try_allocate_fragmented(3, &mut out), Ok(()));
    assert_eq!(out, vec![0..3]);
}

#[test]
fn ensure_capacity_appends_and_merges_free_tail() {
    let mut allocator = RangeAllocator::with_capacity(4);
    allocator.ensure_capacity(10);
    assert_eq!(allocator.capacity(), 10);
    assert_eq!(allocator.free_ranges(), vec![0..10]);
    allocator.ensure_capacity(5);
    assert_eq!(allocator.capacity(), 10);
    allocator.reserve(2);
    assert_eq!(allocator.free_ranges(), vec![0..12]);
    assert!(allocator.is_allocated(0) == false);
    assert_eq!(allocator.allocate(1), 0..1);
    assert!(allocator.is_allocated(0));
}
