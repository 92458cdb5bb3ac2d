use baseline_llm_os::config::KcmmConfig;
use baseline_llm_os::kcmm::pool::{
    BlockInfo, BlockLocation, KcmmPool, PoolError, SequenceState,
};
use baseline_llm_os::kcmm::pool_model::SequencePriority;
use baseline_llm_os::kcmm::superblock::{BlockHandle, SUPERBLOCK_SIZE};

fn regions(layers: usize, base: u64) -> Vec<u64> {
    (0..layers as u64).map(|l| base + l * 0x1_0000_0000).collect()
}

fn grants(layers: usize, n: usize) -> Vec<Vec<u64>> {
    (0..n).map(|i| (0..2 * layers).map(|j| (1000 * i + j) as u64).collect()).collect()
}

fn config(max_blocks: usize) -> KcmmConfig {
    let mut config = KcmmConfig::default();
    config.block_size = 16;
    config.max_blocks = max_blocks;
    config.cpu_cache_path = String::new();
    config.tiering = false;
    config
}

fn build(config: KcmmConfig, max_batch: usize, max_seq_len: usize) -> KcmmPool {
    KcmmPool::new(
        config,
        22,
        4,
        64,
        max_batch,
        max_seq_len,
        regions(22, 0x7000_0000_0000),
        regions(22, 0x7100_0000_0000),
        false,
    )
}

fn make_pool() -> KcmmPool {
    build(config(1024), 8, 128)
}

// Sequences

#[test]
fn test_sequence_state_new() {
    let table = vec![0, 1, 2];
    let state = SequenceState::new(table.clone());
    assert_eq!(state.block_table, table);
    assert_eq!(state.seq_len, 0);
    assert!(state.is_active);
    assert_eq!(state.shared_prefix_len, 0);
}

#[test]
fn test_sequence_state_cool_sets_inactive() {
    let mut state = SequenceState::new(vec![5]);
    assert!(state.is_active);
    state.is_active = false;
    assert!(!state.is_active);
}

#[test]
fn test_sequence_state_seq_len_update() {
    let mut state = SequenceState::new(vec![0, 1, 2, 3]);
    assert_eq!(state.seq_len, 0);
    state.seq_len = 42;
    assert_eq!(state.seq_len, 42);
}

#[test]
fn test_sequence_state_shared_prefix_len_default_zero() {
    let state = SequenceState::new(vec![1, 2, 3]);
    assert_eq!(state.shared_prefix_len, 0);
}

// Block locations

#[test]
fn test_block_location_gpu_resident() {
    let handle = BlockHandle { superblock_idx: 0, block_index: 5 };
    let loc = BlockLocation::GpuResident(handle, 0x1000);
    assert!(matches!(loc, BlockLocation::GpuResident(_, _)));
}

#[test]
fn test_block_location_all_variants_constructible() {
    let handle = BlockHandle { superblock_idx: 1, block_index: 3 };

    let gpu = BlockLocation::GpuResident(handle, 0x2000);
    let cpu = BlockLocation::CpuResident(4096);
    let nvme = BlockLocation::NvmeResident(8192);
    let evicting = BlockLocation::Evicting;
    let restoring = BlockLocation::Restoring;

    assert!(matches!(gpu, BlockLocation::GpuResident(_, _)));
    match gpu {
        BlockLocation::GpuResident(h, offset) => {
            assert_eq!(h.superblock_idx, 1);
            assert_eq!(h.block_index, 3);
            assert_eq!(offset, 0x2000);
        }
        _ => panic!("expected GpuResident"),
    }
    assert!(matches!(cpu, BlockLocation::CpuResident(4096)));
    assert!(matches!(nvme, BlockLocation::NvmeResident(8192)));
    assert!(matches!(evicting, BlockLocation::Evicting));
    assert!(matches!(restoring, BlockLocation::Restoring));
}

#[test]
fn test_block_location_clone() {
    let handle = BlockHandle { superblock_idx: 7, block_index: 42 };
    let loc = BlockLocation::GpuResident(handle, 0xABCD);
    let cloned = loc.clone();
    assert!(matches!(cloned, BlockLocation::GpuResident(_, _)));
    match cloned {
        BlockLocation::GpuResident(h, off) => {
            assert_eq!(h.superblock_idx, 7);
            assert_eq!(h.block_index, 42);
            assert_eq!(off, 0xABCD);
        }
        _ => panic!("clone mismatch"),
    }
}

#[test]
fn test_block_location_evicting_restoring_no_data() {
    let e = BlockLocation::Evicting;
    let r = BlockLocation::Restoring;
    assert!(matches!(e, BlockLocation::Evicting));
    assert!(matches!(r, BlockLocation::Restoring));
}

// The watermark is a ratio of the counts that the pool gives

fn below(free: usize, total: usize, threshold: f32) -> bool {
    if total == 0 {
        false
    } else {
        (free as f32 / total as f32) < threshold
    }
}

#[test]
fn test_watermark_ratio_when_empty() {
    let total: usize = 0;
    let free: usize = 0;
    let threshold: f32 = 0.2;
    assert!(!below(free, total, threshold), "empty pool should never be below watermark");
    let pool = make_pool();
    assert!(!below(pool.free_physical_blocks(), pool.total_physical_blocks(), threshold));
}

#[test]
fn test_watermark_ratio_below_threshold() {
    let total = 100;
    let free = 10; // 10% free
    let threshold = 0.2;
    assert!(below(free, total, threshold));
}

#[test]
fn test_watermark_ratio_above_threshold() {
    let total = 100;
    let free = 50; // 50% free
    let threshold = 0.2;
    assert!(!below(free, total, threshold));
}

#[test]
fn test_watermark_ratio_exactly_at_threshold() {
    let total = 100;
    let free = 20; // exactly 20%
    let threshold = 0.2;
    assert!(!below(free, total, threshold), "exactly at threshold should NOT be below");
}

#[test]
fn test_watermark_ratio_one_free_block() {
    let total = 1000;
    let free = 1; // 0.1%
    let threshold = 0.05;
    assert!(below(free, total, threshold));
}

#[test]
fn test_block_info_construction() {
    let bi = BlockInfo {
        va_offset: 0x10000,
        superblock_idx: 2,
        block_index_in_sb: 15,
        in_use: true,
        location: BlockLocation::GpuResident(
            BlockHandle { superblock_idx: 2, block_index: 15 },
            0x10000,
        ),
    };
    assert_eq!(bi.va_offset, 0x10000);
    assert_eq!(bi.superblock_idx, 2);
    assert_eq!(bi.block_index_in_sb, 15);
    assert!(bi.in_use);
    assert!(matches!(bi.location, BlockLocation::GpuResident(_, _)));
}

#[test]
fn test_block_info_not_in_use() {
    let bi = BlockInfo {
        va_offset: 0,
        superblock_idx: 0,
        block_index_in_sb: 0,
        in_use: false,
        location: BlockLocation::Evicting,
    };
    assert!(!bi.in_use);
    assert!(matches!(bi.location, BlockLocation::Evicting));
}

// The pool

#[test]
fn test_pool_construction() {
    let pool = make_pool();
    assert_eq!(pool.block_size, 16);
    assert_eq!(pool.max_batch, 8);
    assert_eq!(pool.max_seq_len, 128);
    assert_eq!(pool.num_layers, 22);
    assert_eq!(pool.max_blocks_per_seq, 8); // 128/16
    assert_eq!(pool.max_blocks_total, 64); // 8*8
    assert_eq!(pool.active_sequences(), 0);
    assert_eq!(pool.blocks_in_use(), 0);
    assert_eq!(pool.total_blocks(), 0);
    assert!(!pool.has_free_blocks());
    assert!(pool.tiering.is_none()); // tiering disabled
    assert!(pool.sharing.is_none());
}

#[test]
fn test_alloc_single_block() {
    let mut pool = make_pool();
    let block_idx = pool.alloc_block(&grants(22, 1), 0).expect("alloc block");
    assert_eq!(pool.blocks_in_use(), 1);
    assert_eq!(pool.total_blocks(), 1);

    let va = pool.get_block_va_offset(block_idx);
    assert!(va.is_some());
    assert!(va.unwrap() > 0);
}

#[test]
fn test_alloc_sequence() {
    let mut pool = make_pool();
    let table = pool.alloc_sequence(5, &grants(22, 1), 0).expect("alloc sequence");
    assert_eq!(table.len(), 5);
    assert_eq!(pool.blocks_in_use(), 5);

    for &idx in &table {
        assert!(pool.get_block_va_offset(idx).is_some());
    }
}

#[test]
fn test_register_and_unregister() {
    let mut pool = make_pool();
    let table = pool.alloc_sequence(3, &grants(22, 1), 0).expect("alloc");
    let seq_idx = pool.register_sequence(table.clone());
    assert_eq!(pool.active_sequences(), 1);
    assert_eq!(pool.get_seq_len(seq_idx), 0);

    pool.update_seq_len(seq_idx, 45);
    assert_eq!(pool.get_seq_len(seq_idx), 45);

    pool.unregister_sequence(seq_idx);
    assert_eq!(pool.blocks_in_use(), 0);
}

#[test]
fn test_append_block_to_sequence() {
    let mut pool = make_pool();
    let table = pool.alloc_sequence(2, &grants(22, 1), 0).expect("alloc");
    let seq_idx = pool.register_sequence(table);
    assert_eq!(pool.get_block_table(seq_idx).unwrap().len(), 2);

    let new_block = pool.alloc_block(&vec![], 0).expect("alloc extra");
    pool.append_block_to_sequence(seq_idx, new_block);
    assert_eq!(pool.get_block_table(seq_idx).unwrap().len(), 3);
}

#[test]
fn test_touch_and_cool() {
    let mut pool = make_pool();
    let table = pool.alloc_sequence(2, &grants(22, 1), 0).expect("alloc");
    let seq_idx = pool.register_sequence(table);

    assert!(pool.is_active(seq_idx));

    pool.cool(seq_idx);
    assert!(!pool.is_active(seq_idx));

    pool.touch(seq_idx);
    assert!(pool.is_active(seq_idx));
}

#[test]
fn touch_moves_the_last_access_on() {
    let mut pool = make_pool();
    let seq_idx = pool.register_sequence(vec![]);
    let before = pool.sequences[seq_idx].last_access;
    pool.touch(seq_idx);
    assert!(pool.sequences[seq_idx].last_access >= before);
}

#[test]
fn test_touch_and_cool_out_of_bounds() {
    let mut pool = make_pool();
    pool.touch(999);
    pool.cool(999);
}

#[test]
fn test_update_seq_len_out_of_bounds() {
    let mut pool = make_pool();
    pool.update_seq_len(999, 42);
    assert_eq!(pool.get_seq_len(999), 0);
}

#[test]
fn test_unregister_out_of_bounds() {
    let mut pool = make_pool();
    pool.unregister_sequence(999);
}

#[test]
fn test_get_block_va_offsets() {
    let mut pool = make_pool();
    let table = pool.alloc_sequence(4, &grants(22, 1), 0).expect("alloc");
    let seq_idx = pool.register_sequence(table);

    let offsets = pool.get_block_va_offsets(seq_idx);
    assert!(offsets.is_some());
    let offsets = offsets.unwrap();
    assert_eq!(offsets.len(), 4);
    for o in &offsets {
        assert!(*o > 0, "VA offset should be positive");
    }
    let mut sorted = offsets.clone();
    sorted.sort();
    sorted.dedup();
    assert_eq!(sorted.len(), 4);
}

#[test]
fn test_get_block_va_offsets_invalid_seq() {
    let pool = make_pool();
    assert_eq!(pool.get_block_va_offsets(999), None);
}

#[test]
fn test_get_block_location_gpu_resident() {
    let mut pool = make_pool();
    let block_idx = pool.alloc_block(&grants(22, 1), 0).expect("alloc");

    let loc = pool.get_block_location(block_idx);
    assert!(loc.is_some());
    assert!(matches!(loc.unwrap(), BlockLocation::GpuResident(_, _)));
}

#[test]
fn test_get_block_location_invalid_index() {
    let pool = make_pool();
    assert!(pool.get_block_location(999).is_none());
}

#[test]
fn test_va_k_and_va_v() {
    let pool = make_pool();
    for l in 0..22 {
        assert!(pool.va_k(l) > 0, "va_k layer {} zero", l);
        assert!(pool.va_v(l) > 0, "va_v layer {} zero", l);
    }
}

#[test]
fn test_blocks_in_use_and_total() {
    let mut pool = make_pool();
    assert_eq!(pool.blocks_in_use(), 0);
    assert_eq!(pool.total_blocks(), 0);

    let t1 = pool.alloc_sequence(3, &grants(22, 1), 0).expect("alloc");
    assert_eq!(pool.blocks_in_use(), 3);
    assert_eq!(pool.total_blocks(), 3);

    let t2 = pool.alloc_sequence(5, &vec![], 0).expect("alloc");
    assert_eq!(pool.blocks_in_use(), 8);
    assert_eq!(pool.total_blocks(), 8);

    pool.free_sequence(&t1);
    assert_eq!(pool.blocks_in_use(), 5);
    assert_eq!(pool.total_blocks(), 8);

    pool.free_sequence(&t2);
    assert_eq!(pool.blocks_in_use(), 0);
}

#[test]
fn test_collect_metrics() {
    let mut pool = make_pool();
    let table = pool.alloc_sequence(4, &grants(22, 1), 0).expect("alloc");
    let seq_idx = pool.register_sequence(table.clone());
    pool.update_seq_len(seq_idx, 50);

    let metrics = pool.collect_metrics();
    assert_eq!(metrics.active_sequences, 1);
    assert_eq!(metrics.blocks_in_use, 4);
    assert_eq!(metrics.total_tokens, 50);
    assert!(metrics.ideal_physical_bytes > 0);
    assert!(metrics.actual_physical_bytes > 0);
    assert!(metrics.wasted_slots as f32 / metrics.total_slots as f32 >= 0.0);
    assert!(metrics.blocks_in_use as f32 / metrics.total_blocks_allocated as f32 > 0.0);
    assert!(metrics.ideal_physical_bytes as f32 / metrics.actual_physical_bytes as f32 > 0.0);

    pool.free_sequence(&table);
}

#[test]
fn test_below_low_watermark() {
    let mut pool = make_pool();
    assert!(!below(pool.free_physical_blocks(), pool.total_physical_blocks(), 0.2));

    let table = pool.alloc_sequence(10, &grants(22, 1), 0).expect("alloc");
    let total = pool.total_physical_blocks();
    let free = pool.free_physical_blocks();
    assert_eq!(total, 256);
    assert_eq!(free, 246);
    let ratio = free as f32 / total as f32;

    let threshold = 0.01; // very low threshold
    assert_eq!(below(free, total, threshold), ratio < threshold);

    pool.free_sequence(&table);
}

#[test]
fn test_alloc_many_blocks_across_superblocks() {
    let mut pool = build(config(4096), 4, 16384);

    let sb_blocks = pool.pools.k_pools[0].allocator.blocks_per_superblock;
    let count = sb_blocks + 10;
    assert_eq!(pool.superblocks_needed(count), 2);
    let table = pool.alloc_sequence(count, &grants(22, 2), 0).expect("alloc many");
    assert_eq!(table.len(), count);
    assert!(pool.superblock_count() >= 2);
    assert_eq!(pool.blocks_in_use(), count);

    pool.free_sequence(&table);
    assert_eq!(pool.blocks_in_use(), 0);
}

#[test]
fn test_lockstep_invariant() {
    let mut pool = make_pool();
    let num_layers = pool.num_layers;

    let table = pool.alloc_sequence(10, &grants(22, 1), 0).expect("alloc");
    for l in 1..num_layers {
        assert_eq!(
            pool.pools.k_pools[0].allocator.free_count(),
            pool.pools.k_pools[l].allocator.free_count(),
            "K pool layer {} diverged",
            l
        );
        assert_eq!(
            pool.pools.v_pools[0].allocator.free_count(),
            pool.pools.v_pools[l].allocator.free_count(),
            "V pool layer {} diverged",
            l
        );
    }

    pool.free_sequence(&table);
    for l in 1..num_layers {
        assert_eq!(
            pool.pools.k_pools[0].allocator.free_count(),
            pool.pools.k_pools[l].allocator.free_count()
        );
    }
}

#[test]
fn allocation_fails_without_memory() {
    let mut pool = make_pool();
    assert_eq!(pool.alloc_block(&vec![], 0), Err(PoolError::OutOfMemory));
    assert_eq!(pool.alloc_sequence(1, &vec![], 0), Err(PoolError::OutOfMemory));
}

#[test]
fn freeing_twice_frees_once() {
    let mut pool = make_pool();
    let table = pool.alloc_sequence(2, &grants(22, 1), 0).unwrap();
    pool.free_sequence(&table);
    pool.free_sequence(&table);
    assert_eq!(pool.free_physical_blocks(), 256);
    assert_eq!(pool.blocks_in_use(), 0);
}

#[test]
fn owned_blocks_have_different_places() {
    let mut pool = make_pool();
    let a = pool.alloc_sequence(4, &grants(22, 1), 0).unwrap();
    let b = pool.alloc_sequence(4, &vec![], 0).unwrap();
    let mut offsets: Vec<usize> =
        a.iter().chain(b.iter()).map(|&i| pool.get_block_va_offset(i).unwrap()).collect();
    offsets.sort();
    for w in offsets.windows(2) {
        assert!(w[0] + pool.block_bytes() <= w[1]);
    }
    assert!(offsets[7] + pool.block_bytes() <= SUPERBLOCK_SIZE);
}

#[test]
fn indices_are_recycled() {
    let mut pool = make_pool();
    let a = pool.alloc_sequence(3, &grants(22, 1), 0).unwrap();
    pool.free_sequence(&a);
    let b = pool.alloc_sequence(3, &vec![], 0).unwrap();
    assert_eq!(pool.total_blocks(), 3);
    let mut sorted = b.clone();
    sorted.sort();
    assert_eq!(sorted, vec![0, 1, 2]);
}

#[test]
fn priorities_are_normal_until_set() {
    let mut pool = make_pool();
    let seq = pool.register_sequence(vec![]);
    assert_eq!(pool.sequence_priority(seq), SequencePriority::Normal);
    pool.set_sequence_priority(seq, SequencePriority::Low);
    assert_eq!(pool.sequence_priority(seq), SequencePriority::Low);
    assert_eq!(pool.sequence_priority(99), SequencePriority::Normal);
}

#[test]
fn bad_blocks_are_refused() {
    let mut pool = make_pool();
    let b = pool.alloc_block(&grants(22, 1), 0).unwrap();
    pool.free_sequence(&vec![b]);
    assert_eq!(
        pool.set_block_location(b, BlockLocation::Evicting),
        Err(PoolError::BlockNotInUse(b))
    );
    assert_eq!(
        pool.set_block_location(77, BlockLocation::Evicting),
        Err(PoolError::BlockOutOfBounds(77))
    );
    let h = BlockHandle { superblock_idx: 5, block_index: 0 };
    assert_eq!(pool.gpu_va_for_block(h, 0, false), Err(PoolError::SuperblockOutOfBounds(5)));
    let h = BlockHandle { superblock_idx: 0, block_index: 1 };
    assert_eq!(pool.gpu_va_for_block(h, 22, false), Err(PoolError::LayerOutOfBounds(22)));
    assert_eq!(
        pool.gpu_va_for_block(h, 1, true),
        Ok(0x7100_0000_0000 + 0x1_0000_0000 + 8192)
    );
}

#[test]
fn teardown_unmaps_keys_before_values() {
    let mut pool = make_pool();
    pool.alloc_sequence(1, &grants(22, 1), 0).unwrap();
    let ops = pool.teardown();
    assert_eq!(ops.len(), 44);
    assert_eq!(ops[0].va_base, pool.va_k(0));
    assert_eq!(ops[0].phys_handle, 0);
    assert_eq!(ops[1].va_base, pool.va_k(1));
    assert_eq!(ops[1].phys_handle, 2);
    assert_eq!(ops[22].va_base, pool.va_v(0));
    assert_eq!(ops[22].phys_handle, 1);
    assert_eq!(ops[43].phys_handle, 43);
}

#[test]
fn one_step_writes_each_sequence_to_its_block() {
    let mut pool = make_pool();
    let t = pool.alloc_sequence(2, &grants(22, 1), 0).unwrap();
    let offsets: Vec<usize> = t.iter().map(|&i| pool.get_block_va_offset(i).unwrap()).collect();
    let seq = pool.register_sequence(t);
    // position 20 is the fifth of the second block
    let plan = pool.append_kv_step(3, &vec![seq], &vec![20], 0x5000, 0x6000);
    assert!(plan.error.is_none());
    let c = plan.copies[0];
    assert_eq!(c.dst_k, pool.va_k(3) + offsets[1] as u64 + 4 * 256 * 2);
    assert_eq!(c.dst_v, pool.va_v(3) + offsets[1] as u64 + 4 * 256 * 2);
    assert_eq!(c.src_k, 0x5000);
    assert_eq!(c.src_v, 0x6000);
    assert_eq!(c.nbytes, 512);
}
