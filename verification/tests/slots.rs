use baseline_llm_os::kcmm::cpu_slots::CpuSlotAllocator;

#[test]
fn test_new_empty_buffer() {
    let alloc = CpuSlotAllocator::new(0);
    assert!(alloc.free_ranges.is_empty());
    assert_eq!(alloc.total_size, 0);
}

#[test]
fn test_new_creates_one_free_range() {
    let alloc = CpuSlotAllocator::new(1024);
    assert_eq!(alloc.free_ranges.len(), 1);
    assert_eq!(alloc.free_ranges[0], 0..1024);
}

#[test]
fn test_allocate_exact_fit_removes_range() {
    let mut alloc = CpuSlotAllocator::new(1024);
    let offset = alloc.allocate(1024);
    assert_eq!(offset, Some(0));
    assert!(alloc.free_ranges.is_empty());
}

#[test]
fn test_allocate_split_shrinks_range() {
    let mut alloc = CpuSlotAllocator::new(1024);
    let offset = alloc.allocate(256);
    assert_eq!(offset, Some(0));
    assert_eq!(alloc.free_ranges.len(), 1);
    assert_eq!(alloc.free_ranges[0], 256..1024);
}

#[test]
fn test_allocate_zero_size_returns_none() {
    let mut alloc = CpuSlotAllocator::new(1024);
    assert_eq!(alloc.allocate(0), None);

    assert_eq!(alloc.free_ranges.len(), 1);
    assert_eq!(alloc.free_ranges[0], 0..1024);
}

#[test]
fn test_allocate_no_space_returns_none() {
    let mut alloc = CpuSlotAllocator::new(64);
    alloc.allocate(64);
    assert_eq!(alloc.allocate(1), None);
}

#[test]
fn test_allocate_best_fit() {

    let mut alloc = CpuSlotAllocator {
        total_size: 640,
        free_ranges: vec![0..64, 128..256, 320..640],
    };
    let offset = alloc.allocate(48);
    assert_eq!(offset, Some(0));

    assert_eq!(alloc.free_ranges[0], 48..64);
}

#[test]
fn test_free_no_merge() {
    let mut alloc = CpuSlotAllocator::new(1024);
    let offset = alloc.allocate(256).unwrap();
    assert_eq!(offset, 0);

    alloc.free(offset, 256);
    assert_eq!(alloc.free_ranges.len(), 1);
    assert_eq!(alloc.free_ranges[0], 0..1024);
}

#[test]
fn test_free_merge_with_prev() {
    let mut alloc = CpuSlotAllocator::new(1024);
    let off1 = alloc.allocate(256).unwrap();
    let off2 = alloc.allocate(256).unwrap();
    assert_eq!(off1, 0);
    assert_eq!(off2, 256);
    assert_eq!(alloc.free_ranges, vec![512..1024]);

    alloc.free(off1, 256);
    assert_eq!(alloc.free_ranges, vec![0..256, 512..1024]);
    alloc.free(off2, 256);
    assert_eq!(alloc.free_ranges, vec![0..1024]);
}

#[test]
fn test_free_merge_with_next() {
    let mut alloc = CpuSlotAllocator::new(1024);
    let off2 = alloc.allocate(256).unwrap();
    alloc.allocate(256);
    let off1 = alloc.allocate(256).unwrap();
    assert_eq!(off2, 0);
    assert_eq!(off1, 512);

    alloc.free(off1, 256);
    assert_eq!(alloc.free_ranges, vec![512..1024]);
}

#[test]
fn test_free_merge_both_sides() {
    let mut alloc = CpuSlotAllocator::new(1024);
    let off1 = alloc.allocate(256).unwrap();
    let off2 = alloc.allocate(256).unwrap();
    let off3 = alloc.allocate(256).unwrap();
    assert_eq!(off1, 0);
    assert_eq!(off2, 256);
    assert_eq!(off3, 512);
    assert_eq!(alloc.free_ranges, vec![768..1024]);

    alloc.free(off1, 256);
    alloc.free(off3, 256);
    assert_eq!(alloc.free_ranges, vec![0..256, 512..1024]);

    alloc.free(off2, 256);
    assert_eq!(alloc.free_ranges, vec![0..1024]);
}

#[test]
fn test_free_zero_size_noop() {
    let mut alloc = CpuSlotAllocator::new(1024);
    let before = alloc.free_ranges.clone();
    alloc.free(100, 0);
    assert_eq!(alloc.free_ranges, before);
}

#[test]
fn test_allocate_multiple_sequential() {
    let mut alloc = CpuSlotAllocator::new(1024);
    let off1 = alloc.allocate(128).unwrap();
    let off2 = alloc.allocate(256).unwrap();
    let off3 = alloc.allocate(512).unwrap();
    assert_eq!(off1, 0);
    assert_eq!(off2, 128);
    assert_eq!(off3, 384);

    assert_eq!(alloc.free_ranges, vec![896..1024]);
}

#[test]
fn test_free_and_reallocate() {
    let mut alloc = CpuSlotAllocator::new(1024);
    let off1 = alloc.allocate(512).unwrap();
    let off2 = alloc.allocate(512).unwrap();
    assert_eq!(off1, 0);
    assert_eq!(off2, 512);
    assert!(alloc.free_ranges.is_empty());

    alloc.free(off1, 512);
    let off3 = alloc.allocate(256).unwrap();
    assert_eq!(off3, 0);
    assert_eq!(alloc.free_ranges, vec![256..512]);
}

#[test]
fn freed_bytes_are_merged_in_any_order() {
    let mut alloc = CpuSlotAllocator::new(300);
    let a = alloc.allocate(100).unwrap();
    let b = alloc.allocate(100).unwrap();
    let c = alloc.allocate(100).unwrap();
    alloc.free(c, 100);
    alloc.free(a, 100);
    alloc.free(b, 100);
    assert_eq!(alloc.free_ranges, vec![0..300]);
}

#[test]
fn the_smallest_range_that_fits_is_taken() {
    let mut alloc = CpuSlotAllocator {
        total_size: 1000,
        free_ranges: vec![0..300, 400..450, 500..700],
    };
    assert_eq!(alloc.allocate(60), Some(500));
    assert_eq!(alloc.allocate(50), Some(400));
    assert_eq!(alloc.free_ranges, vec![0..300, 560..700]);
}

#[test]
fn the_largest_buffer_serves_requests() {
    let mut alloc = CpuSlotAllocator::new(usize::MAX);
    assert_eq!(alloc.allocate(1), Some(0));
    assert_eq!(alloc.free_ranges, vec![1..usize::MAX]);
    alloc.free(0, 1);
    assert_eq!(alloc.allocate(usize::MAX), Some(0));
    assert!(alloc.free_ranges.is_empty());
}

#[test]
fn the_order_of_returns_does_not_matter() {
    let mut a = CpuSlotAllocator::new(300);
    let mut b = CpuSlotAllocator::new(300);
    for alloc in [&mut a, &mut b] {
        for k in 0..3 {
            assert_eq!(alloc.allocate(100), Some(100 * k));
        }
    }
    for o in [0, 100, 200] {
        a.free(o, 100);
    }
    for o in [200, 0, 100] {
        b.free(o, 100);
    }
    assert_eq!(a.free_ranges, vec![0..300]);
    assert_eq!(b.free_ranges, a.free_ranges);
}
