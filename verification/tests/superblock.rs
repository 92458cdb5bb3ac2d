use baseline_llm_os::kcmm::superblock::{
    align_up, BlockHandle, LayerKvPool, PhysicalBlockAllocator, HALF_BYTES, SUPERBLOCK_SIZE,
};

#[test]
fn superblock_test_allocator_sizing() {
    let elem_count = 4 * 16 * 128; // 8192
    let alloc = PhysicalBlockAllocator::new(elem_count);
    assert_eq!(alloc.block_bytes, 8192 * 2); // 16384
    assert_eq!(alloc.blocks_per_superblock, 128);
    assert_eq!(alloc.free_count(), 0);
    assert_eq!(alloc.total_blocks_allocated(), 0);
}

#[test]
fn superblock_test_allocator_sizing_tinyllama() {
    let elem_count = 4 * 16 * 64;
    let alloc = PhysicalBlockAllocator::new(elem_count);
    assert_eq!(alloc.block_bytes, 8192);
    assert_eq!(alloc.blocks_per_superblock, 256);
}

#[test]
fn superblock_test_allocator_free_reuse() {
    let mut alloc = PhysicalBlockAllocator::new(4 * 16 * 128);
    alloc.free(BlockHandle { superblock_idx: 0, block_index: 0 });
    alloc.free(BlockHandle { superblock_idx: 0, block_index: 1 });
    alloc.free(BlockHandle { superblock_idx: 1, block_index: 5 });
    assert_eq!(alloc.free_count(), 3);
}

#[test]
fn superblock_test_allocator_add_superblock() {
    let mut alloc = PhysicalBlockAllocator::new(4 * 16 * 128);
    assert_eq!(alloc.free_count(), 0);

    alloc.add_superblock();
    assert_eq!(alloc.superblock_count(), 1);
    assert_eq!(alloc.free_count(), alloc.blocks_per_superblock);
}

#[test]
fn superblock_test_allocator_try_allocate() {
    let mut alloc = PhysicalBlockAllocator::new(4 * 16 * 128);
    assert!(alloc.try_allocate().is_none());

    alloc.add_superblock();
    let h = alloc.try_allocate().unwrap();
    assert_eq!(h.superblock_idx, 0);
}

#[test]
fn test_new_with_block_bytes() {
    let alloc = PhysicalBlockAllocator::new_with_block_bytes(65536);
    assert_eq!(alloc.block_bytes, 65536);
    assert_eq!(alloc.blocks_per_superblock, 32); // 2MiB / 64KiB
    assert_eq!(alloc.free_count(), 0);
}

#[test]
fn superblock_test_align_up() {
    assert_eq!(align_up(0, SUPERBLOCK_SIZE), 0);
    assert_eq!(align_up(1, SUPERBLOCK_SIZE), SUPERBLOCK_SIZE);
    assert_eq!(align_up(SUPERBLOCK_SIZE, SUPERBLOCK_SIZE), SUPERBLOCK_SIZE);
    assert_eq!(align_up(SUPERBLOCK_SIZE + 1, SUPERBLOCK_SIZE), 4 * 1024 * 1024);
}

#[test]
fn superblock_test_superblock_block_carving() {
    let elem_count = 4 * 16 * 128;
    let block_bytes = elem_count * HALF_BYTES;
    assert_eq!(SUPERBLOCK_SIZE % block_bytes, 0, "block_bytes must divide superblock evenly");
}

#[test]
fn test_layer_pool_new_with_block_bytes() {
    let pool = LayerKvPool::new_with_block_bytes(65536);
    assert_eq!(pool.allocator.block_bytes, 65536);
    assert_eq!(pool.allocator.blocks_per_superblock, 32);
}

#[test]
fn test_multiple_superblocks_correct_indices() {
    let mut alloc = PhysicalBlockAllocator::new_with_block_bytes(65536);
    alloc.add_superblock();
    alloc.add_superblock();
    alloc.add_superblock();
    assert_eq!(alloc.superblock_count(), 3);

    let total_blocks = alloc.blocks_per_superblock * 3;
    let mut seen_indices: Vec<u32> = Vec::new();
    for _ in 0..total_blocks {
        let h = alloc.try_allocate().expect("should have blocks");
        seen_indices.push(h.superblock_idx);
    }

    seen_indices.sort();
    seen_indices.dedup();
    assert_eq!(seen_indices, vec![0, 1, 2], "should have blocks from superblocks 0, 1, and 2");

    assert_eq!(alloc.total_blocks_allocated(), total_blocks);
}

#[test]
fn test_multiple_superblocks_sequential_allocation() {
    let mut alloc = PhysicalBlockAllocator::new_with_block_bytes(65536);
    let bps = alloc.blocks_per_superblock;

    alloc.add_superblock();
    let first_batch: Vec<_> = (0..bps).map(|_| alloc.try_allocate().unwrap()).collect();
    assert!(alloc.try_allocate().is_none(), "should be exhausted");
    assert_eq!(alloc.superblock_count(), 1);
    assert!(first_batch.iter().all(|h| h.superblock_idx == 0));

    alloc.add_superblock();
    let second_batch: Vec<_> = (0..bps).map(|_| alloc.try_allocate().unwrap()).collect();
    assert!(second_batch.iter().all(|h| h.superblock_idx == 1));
    assert_eq!(alloc.superblock_count(), 2);

    for h in &first_batch[..10] {
        alloc.free(*h);
    }
    let reclaimed: Vec<_> = (0..10).map(|_| alloc.try_allocate().unwrap()).collect();
    assert!(
        reclaimed.iter().all(|h| h.superblock_idx == 0),
        "reclaimed blocks should be from superblock 0"
    );
}

#[test]
fn test_handle_reuse_lifo_order() {
    let mut alloc = PhysicalBlockAllocator::new_with_block_bytes(65536);
    alloc.add_superblock();

    let h1 = alloc.try_allocate().unwrap();
    let h2 = alloc.try_allocate().unwrap();

    alloc.free(h1);
    alloc.free(h2);

    let r1 = alloc.try_allocate().unwrap();
    let r2 = alloc.try_allocate().unwrap();
    assert_eq!(r1, h2, "LIFO: last freed (h2) should be returned first");
    assert_eq!(r2, h1, "LIFO: first freed (h1) should be returned second");
}

#[test]
fn keys_tell_blocks_apart() {
    let a = BlockHandle { superblock_idx: 1, block_index: 0 };
    let b = BlockHandle { superblock_idx: 0, block_index: 1 };
    assert_ne!(a.key(), b.key());
    assert_eq!(a.key(), a.key());
}
