use baseline_llm_os::cache::cuda_vmm::CudaVmm;
use baseline_llm_os::cache::fragmentation_tracker::RuntimeFragmentationTracker;
use baseline_llm_os::cache::kv_cache::{KvCache, KvCacheError, SlotAllocator};
use baseline_llm_os::cache::paged_kv::{
    align_up, BlockHandle, PagedKvCache, PhysicalBlockAllocator, SeqMetadata, BLOCK_SIZE,
};
use baseline_llm_os::cache::swap::{
    advance_epoch, current_epoch, EvictedSeqData, SwapError, SwapManager,
};
use baseline_llm_os::cache::unified_frag::{round_up, FragCounts};
use baseline_llm_os::config::ModelConfig;
use baseline_llm_os::kcmm::pool::PoolError;
use baseline_llm_os::kcmm::superblock::{LayerKvPool, HALF_BYTES, SUPERBLOCK_SIZE};

fn regions(layers: usize, base: u64) -> Vec<u64> {
    (0..layers as u64).map(|l| base + l * 0x1_0000_0000).collect()
}

fn grants(layers: usize, n: usize) -> Vec<Vec<u64>> {
    (0..n).map(|i| (0..2 * layers).map(|j| (1000 * i + j) as u64).collect()).collect()
}

fn paged(max_batch: usize, max_seq_len: usize) -> PagedKvCache {
    let cfg = ModelConfig::tiny_llama();
    let layers = cfg.num_hidden_layers;
    PagedKvCache::new(
        cfg,
        max_batch,
        max_seq_len,
        16,
        regions(layers, 0x7000_0000_0000),
        regions(layers, 0x7100_0000_0000),
    )
}

// Slots

#[test]
fn test_slot_allocator_new_capacity() {
    let alloc = SlotAllocator::new(8);
    assert_eq!(alloc.capacity(), 8);
    assert_eq!(alloc.free_count(), 8);
}

#[test]
fn test_slot_allocator_new_zero_capacity() {
    let mut alloc = SlotAllocator::new(0);
    assert_eq!(alloc.capacity(), 0);
    assert_eq!(alloc.free_count(), 0);
    assert!(alloc.acquire().is_none());
}

#[test]
fn test_slot_allocator_acquire_lifo_order() {
    let mut alloc = SlotAllocator::new(4);
    assert_eq!(alloc.acquire(), Some(0));
    assert_eq!(alloc.acquire(), Some(1));
    assert_eq!(alloc.acquire(), Some(2));
    assert_eq!(alloc.acquire(), Some(3));
    assert_eq!(alloc.free_count(), 0);
}

#[test]
fn test_slot_allocator_acquire_exhaustion() {
    let mut alloc = SlotAllocator::new(2);
    assert_eq!(alloc.acquire(), Some(0));
    assert_eq!(alloc.acquire(), Some(1));
    assert_eq!(alloc.acquire(), None);
    assert_eq!(alloc.acquire(), None);
    assert_eq!(alloc.free_count(), 0);
}

#[test]
fn test_slot_allocator_release_and_reacquire() {
    let mut alloc = SlotAllocator::new(3);
    let s0 = alloc.acquire().unwrap();
    let s1 = alloc.acquire().unwrap();
    assert_eq!(alloc.free_count(), 1);

    alloc.release(s0);
    assert_eq!(alloc.free_count(), 2);
    assert_eq!(alloc.acquire(), Some(0));

    alloc.release(s1);
    assert_eq!(alloc.acquire(), Some(1));
    assert_eq!(alloc.acquire(), Some(2));
    assert_eq!(alloc.acquire(), None);
    assert_eq!(alloc.acquire(), None);
}

// Contiguous cache

fn contiguous(capacity: usize, max_seq_len: usize, num_layers: usize) -> KvCache {
    let mut cfg = ModelConfig::tiny_llama();
    cfg.num_hidden_layers = num_layers;
    KvCache::new(cfg, capacity, max_seq_len)
}

#[test]
fn test_fragmentation_ratio_empty() {
    let capacity = 4usize;
    let max_seq_len = 64usize;
    let num_layers = 22usize;
    let used: Vec<usize> = vec![64, 64, 64, 64];
    let cache = contiguous(capacity, max_seq_len, num_layers);
    let (used_total, alloc) = cache.fragmentation_counts(&used);
    assert_eq!(alloc, capacity * max_seq_len * num_layers);
    assert_eq!(used_total, alloc);
    let ratio = 1.0 - (used_total as f32 / alloc as f32);
    assert!((ratio - 0.0).abs() < 0.001);
}

#[test]
fn test_fragmentation_ratio_half_used() {
    let capacity = 4usize;
    let max_seq_len = 64usize;
    let num_layers = 1usize;
    let used: Vec<usize> = vec![32, 32, 32, 32];
    let cache = contiguous(capacity, max_seq_len, num_layers);
    let (used_total, alloc) = cache.fragmentation_counts(&used);
    let ratio = 1.0 - (used_total as f32 / alloc as f32);
    assert!((ratio - 0.5).abs() < 0.001);
}

#[test]
fn test_fragmentation_ratio_zero_alloc() {
    let capacity = 0usize;
    let max_seq_len = 0usize;
    let num_layers = 22usize;
    let used: Vec<usize> = vec![];
    let cache = contiguous(capacity, max_seq_len, num_layers);
    let (_, alloc) = cache.fragmentation_counts(&used);
    assert_eq!(alloc, 0);
    let ratio = if alloc == 0 { 0.0 } else { 1.0 };
    assert_eq!(ratio, 0.0);
}

#[test]
fn contiguous_rows_go_to_their_slot() {
    let mut cfg = ModelConfig::tiny_llama();
    cfg.hidden_size = 256;
    cfg.num_attention_heads = 4;
    cfg.num_key_value_heads = Some(4);
    let cache = KvCache::new(cfg, 4, 64);
    assert_eq!(cache.per_layer_elems(), 4 * 4 * 64 * 64);
    let plan = cache.append_step(0, &[2], &[5], 0x1000, 0x90_0000, 0x500).unwrap();
    assert!(plan.error.is_none());
    let copy = plan.copies[0];
    let dst = ((2 * 4 * 64 * 64 + 5 * 64) * 2) as u64;
    assert_eq!(copy.dst_k, 0x1000 + dst);
    assert_eq!(copy.dst_v, 0x90_0000 + dst);
    assert_eq!(copy.src_k, 0x500);

    assert!(matches!(
        cache.append_step(22, &[2], &[5], 0x1000, 0x90_0000, 0x500),
        Err(KvCacheError::BadLayer)
    ));
    let plan = cache.append_step(0, &[4], &[5], 0x1000, 0x90_0000, 0x500).unwrap();
    assert!(matches!(
        plan.error,
        Some(KvCacheError::SlotOutOfBounds { slot: 4, max_batch: 4 })
    ));
    let plan = cache.append_step(0, &[1], &[64], 0x1000, 0x90_0000, 0x500).unwrap();
    assert!(matches!(
        plan.error,
        Some(KvCacheError::PosOutOfBounds { pos: 64, max_seq_len: 64 })
    ));
}

// Paged cache

#[test]
fn paged_kv_test_allocator_sizing() {
    let elem_count = 4 * 16 * 128; // 8192
    let alloc = PhysicalBlockAllocator::new(elem_count);
    assert_eq!(alloc.block_bytes, 8192 * 2); // 16384
    assert_eq!(alloc.blocks_per_superblock, 128);
    assert_eq!(alloc.free_count(), 0);
    assert_eq!(alloc.total_blocks_allocated(), 0);
}

#[test]
fn paged_kv_test_allocator_sizing_tinyllama() {
    let elem_count = 4 * 16 * 64;
    let alloc = PhysicalBlockAllocator::new(elem_count);
    assert_eq!(alloc.block_bytes, 8192);
    assert_eq!(alloc.blocks_per_superblock, 256);
}

#[test]
fn paged_kv_test_allocator_free_reuse() {
    let mut alloc = PhysicalBlockAllocator::new(4 * 16 * 128);
    alloc.free(BlockHandle { superblock_idx: 0, block_index: 0 });
    alloc.free(BlockHandle { superblock_idx: 0, block_index: 1 });
    alloc.free(BlockHandle { superblock_idx: 1, block_index: 5 });
    assert_eq!(alloc.free_count(), 3);
}

#[test]
fn paged_kv_test_allocator_add_superblock() {
    let mut alloc = PhysicalBlockAllocator::new(4 * 16 * 128);
    assert_eq!(alloc.free_count(), 0);

    alloc.add_superblock();
    assert_eq!(alloc.superblock_count(), 1);
    assert_eq!(alloc.free_count(), alloc.blocks_per_superblock);
}

#[test]
fn paged_kv_test_allocator_try_allocate() {
    let mut alloc = PhysicalBlockAllocator::new(4 * 16 * 128);
    assert!(alloc.try_allocate().is_none());

    alloc.add_superblock();
    let h = alloc.try_allocate().unwrap();
    assert_eq!(h.superblock_idx, 0);
}

#[test]
fn test_block_address_formulas() {
    let block_size = 16;
    let kv_heads = 4;
    let head_dim = 128;
    let step = kv_heads * head_dim;
    let block_bytes = step * block_size * HALF_BYTES; // 16384

    assert_eq!(0usize * block_bytes, 0);
    assert_eq!(5usize * block_bytes, 5 * 16384);

    let pos = 47;
    let logical_block = pos / block_size;
    let offset_in_block = pos % block_size;
    assert_eq!(logical_block, 2);
    assert_eq!(offset_in_block, 15);

    let phys_block = 7usize;
    let dst_off = phys_block * block_size * step + offset_in_block * step;
    assert_eq!(dst_off, 7 * 16 * 512 + 15 * 512);
}

#[test]
fn test_logical_to_physical_translation() {
    let block_table = vec![3u32, 7, 1];
    let block_size = 16;
    let step = 512;

    let pos = 25;
    let logical_block = pos / block_size;
    let offset_in_block = pos % block_size;
    assert_eq!(logical_block, 1);
    assert_eq!(offset_in_block, 9);

    let phys_block = block_table[logical_block] as usize;
    assert_eq!(phys_block, 7);

    let dst_off = phys_block * block_size * step + offset_in_block * step;
    assert_eq!(dst_off, 7 * 16 * 512 + 9 * 512);
}

#[test]
fn test_seq_metadata_block_table() {
    let seq = SeqMetadata {
        block_table: vec![0, 1, 2, 3],
        seq_len: 64,
    };
    assert_eq!(seq.block_table.len(), 4);
    assert_eq!(63 / 16, 3);
    assert!(3 < seq.block_table.len());
}

#[test]
fn test_block_size_constant() {
    assert_eq!(BLOCK_SIZE, 16);
}

#[test]
fn test_max_blocks_calculation() {
    let max_seq_len = 2048;
    let block_size = 16;
    let max_blocks_per_seq = (max_seq_len + block_size - 1) / block_size;
    assert_eq!(max_blocks_per_seq, 128);

    let max_batch = 8;
    let max_blocks_total = max_batch * max_blocks_per_seq;
    assert_eq!(max_blocks_total, 1024);

    let cache = paged(max_batch, max_seq_len);
    assert_eq!(cache.pool.max_blocks_per_seq(), 128);
    assert_eq!(cache.pool.max_blocks_total, 1024);
}

#[test]
fn paged_kv_test_align_up() {
    assert_eq!(align_up(0, SUPERBLOCK_SIZE), 0);
    assert_eq!(align_up(1, SUPERBLOCK_SIZE), SUPERBLOCK_SIZE);
    assert_eq!(align_up(SUPERBLOCK_SIZE, SUPERBLOCK_SIZE), SUPERBLOCK_SIZE);
    assert_eq!(align_up(SUPERBLOCK_SIZE + 1, SUPERBLOCK_SIZE), 4 * 1024 * 1024);
}

#[test]
fn paged_kv_test_superblock_block_carving() {
    let elem_count = 4 * 16 * 128;
    let block_bytes = elem_count * HALF_BYTES;
    assert_eq!(SUPERBLOCK_SIZE % block_bytes, 0, "block_bytes must divide superblock evenly");
}

#[test]
fn paged_cache_lifecycle() {
    let mut cache = paged(8, 64);
    assert_eq!(cache.superblocks_needed(3), 1);
    assert_eq!(cache.alloc_sequence(3, &vec![]).unwrap_err(), PoolError::OutOfMemory);
    let table = cache.alloc_sequence(3, &grants(22, 1)).unwrap();
    assert_eq!(table, vec![0, 1, 2]);
    let seq = cache.register_sequence(table);
    cache.update_seq_len(seq, 40);
    assert_eq!(cache.seq_block_count(seq), 3);
    let extra = cache.alloc_block(&vec![]).unwrap();
    cache.append_block_to_sequence(seq, extra);
    assert_eq!(cache.seq_metadata(seq).unwrap().block_table, vec![0, 1, 2, 3]);
    let stats = cache.stats();
    assert_eq!(stats.blocks_in_use, 4);
    assert_eq!(stats.total_slots, 64);
    assert_eq!(stats.total_tokens_stored, 40);
    assert_eq!(stats.wasted_slots, 24);
    cache.unregister_sequence(seq);
    assert_eq!(cache.blocks_in_use(), 0);
    assert_eq!(cache.free_physical_blocks(), 256);
    assert!(cache.has_free_blocks());
}

// Swapping

fn host_copy(cache: &PagedKvCache, seq_idx: usize, swap: &mut SwapManager) -> EvictedSeqData {
    let plan = swap.plan_evict(cache, seq_idx).expect("evict");
    let layers = cache.cfg.num_hidden_layers;
    assert_eq!(plan.copies.len(), layers * plan.num_blocks);
    swap.evicted(cache, plan.num_blocks);
    EvictedSeqData {
        k_layers: (0..layers).map(|_| vec![0u8; plan.bytes_per_layer]).collect(),
        v_layers: (0..layers).map(|_| vec![0u8; plan.bytes_per_layer]).collect(),
        num_blocks: plan.num_blocks,
        seq_len: plan.seq_len,
    }
}

#[test]
fn swap_manager_evict_restore_cycle() {
    let mut cache = paged(8, 64);
    let mut swap = SwapManager::new();

    let blocks_needed = 3;
    let block_table = cache.alloc_sequence(blocks_needed, &grants(22, 1)).expect("alloc");
    let seq_idx = cache.register_sequence(block_table.clone());
    cache.update_seq_len(seq_idx, 48);

    let evicted = host_copy(&cache, seq_idx, &mut swap);
    assert_eq!(evicted.num_blocks, blocks_needed);
    assert_eq!(evicted.k_layers.len(), cache.cfg.num_hidden_layers);
    assert_eq!(evicted.v_layers.len(), cache.cfg.num_hidden_layers);

    cache.free_sequence(&block_table);

    let (new_table, plan) = swap
        .begin_restore(&mut cache, evicted.num_blocks, evicted.seq_len, &vec![])
        .expect("restore");
    assert_eq!(new_table.len(), blocks_needed);
    assert_eq!(plan.seq_len, 48);
    swap.restored(&cache, evicted.num_blocks);

    swap.drop_swapped(&evicted);
    cache.free_sequence(&new_table);
    assert_eq!(cache.blocks_in_use(), 0);
}

#[test]
fn swap_manager_empty_sequence() {
    let mut cache = paged(4, 64);
    let mut swap = SwapManager::new();

    let seq_idx = cache.register_sequence(Vec::new());
    let evicted = host_copy(&cache, seq_idx, &mut swap);
    assert_eq!(evicted.num_blocks, 0);

    let (new_table, _) = swap
        .begin_restore(&mut cache, evicted.num_blocks, evicted.seq_len, &vec![])
        .expect("restore empty");
    assert!(new_table.is_empty());

    swap.drop_swapped(&evicted);
}

#[test]
fn swap_manager_epoch_advances() {
    let mut epoch = 0u64;
    let e1 = advance_epoch(&mut epoch);
    let e2 = advance_epoch(&mut epoch);
    let e3 = advance_epoch(&mut epoch);
    assert!(e2 > e1);
    assert!(e3 > e2);
    assert!(current_epoch(&epoch) > e3);
}

#[test]
fn swap_manager_total_swapped_bytes() {
    let mut cache = paged(4, 64);
    let mut swap = SwapManager::new();
    assert_eq!(swap.total_swapped_bytes(), 0);

    let blocks_needed = 2;
    let block_table = cache.alloc_sequence(blocks_needed, &grants(22, 1)).expect("alloc");
    let seq_idx = cache.register_sequence(block_table.clone());
    cache.update_seq_len(seq_idx, 32);

    let evicted = host_copy(&cache, seq_idx, &mut swap);
    let expected_bytes =
        blocks_needed * cache.pool.block_bytes() * cache.cfg.num_hidden_layers * 2;
    assert_eq!(swap.total_swapped_bytes(), expected_bytes);

    let (new_table, _) = swap
        .begin_restore(&mut cache, evicted.num_blocks, evicted.seq_len, &vec![])
        .expect("restore");
    swap.restored(&cache, evicted.num_blocks);
    assert_eq!(swap.total_swapped_bytes(), 0);

    cache.free_sequence(&new_table);
    swap.drop_swapped(&evicted);
}

#[test]
fn swap_plan_of_unknown_sequence_fails() {
    let mut cache = paged(4, 64);
    let swap = SwapManager::new();
    assert!(matches!(swap.plan_evict(&cache, 9), Err(SwapError::SequenceInvalid(9))));
    assert!(matches!(
        swap.begin_restore(&mut cache, 1, 16, &vec![]),
        Err(SwapError::Alloc(PoolError::OutOfMemory))
    ));
}

#[test]
fn swap_plan_addresses_blocks_layer_by_layer() {
    let mut cache = paged(4, 64);
    let swap = SwapManager::new();
    let table = cache.alloc_sequence(2, &grants(22, 1)).unwrap();
    let seq = cache.register_sequence(table);
    let offsets = cache.get_block_va_offsets(seq).unwrap();
    let plan = swap.plan_evict(&cache, seq).unwrap();
    let c = plan.copies[3]; // second block of layer 1
    assert_eq!(c.layer, 1);
    assert_eq!(c.va_k, cache.va_k(1) + offsets[1] as u64);
    assert_eq!(c.va_v, cache.va_v(1) + offsets[1] as u64);
    assert_eq!(c.host_offset, 8192);
    assert_eq!(c.nbytes, 8192);
}

// Fragmentation

struct Ratios {
    ifr: f32,
    bu: f32,
    pme: f32,
    rfi: f32,
}

fn ratios(m: &FragCounts) -> Ratios {
    Ratios {
        ifr: m.wasted_slots as f32 / m.total_slots as f32,
        bu: m.blocks_in_use as f32 / m.total_blocks_allocated as f32,
        pme: m.ideal_physical_bytes as f32 / m.actual_physical_bytes as f32,
        rfi: 1.0 - m.ideal_active_bytes as f32 / m.actual_active_bytes as f32,
    }
}

#[test]
fn test_unified_from_raw_no_fragmentation() {
    let m = ratios(&FragCounts::from_raw(
        16,
        8,
        8,
        8,
        128,
        8192,
        22,
        4,
        64,
        8 * 8192 * 22 * 2,
        8 * 8192 * 22 * 2,
    ));
    assert!((m.ifr - 0.0).abs() < 0.001);
    assert!((m.bu - 1.0).abs() < 0.001);
    assert!((m.pme - 1.0).abs() < 0.001);
    assert!((m.rfi - 0.0).abs() < 0.001);
}

#[test]
fn test_unified_from_raw_with_fragmentation() {
    let m = ratios(&FragCounts::from_raw(
        16,
        10,
        16,
        10,
        100,
        8192,
        22,
        4,
        64,
        16 * 8192 * 22 * 2,
        16 * 8192 * 22 * 2,
    ));
    assert!((m.ifr - 0.375).abs() < 0.001);
    assert!((m.bu - 0.625).abs() < 0.001);
    assert!((m.pme - 0.625).abs() < 0.001);
    assert!(m.rfi > 0.0);
}

#[test]
fn round_up_is_exact() {
    assert_eq!(round_up(0, 256), 0);
    assert_eq!(round_up(1, 256), 256);
    assert_eq!(round_up(256, 256), 256);
    assert_eq!(round_up(257, 256), 512);
}

#[test]
fn tracker_records_once_something_is_mapped() {
    let mut cache = paged(4, 64);
    let mut tracker = RuntimeFragmentationTracker::new(4 * 64 * 2);
    tracker.record(&cache);
    assert_eq!(tracker.sample_count(), 0);
    let table = cache.alloc_sequence(2, &grants(22, 1)).unwrap();
    let seq = cache.register_sequence(table);
    cache.update_seq_len(seq, 20);
    tracker.record_unified(&cache);
    assert_eq!(tracker.sample_count(), 1);
    assert_eq!(tracker.unified_sample_count(), 1);
    let s = tracker.samples[0];
    assert_eq!(s.memory_allocated_not_free, SUPERBLOCK_SIZE);
    assert_eq!(s.memory_active_tokens, 20 * 512);
    assert_eq!(s.active_sequences, 1);
    assert_eq!(tracker.unified_samples[0].wasted_slots, 12);
}

#[test]
fn metrics_stay_between_zero_and_one() {
    let mut cache = paged(4, 64);
    let first = cache.alloc_sequence(3, &grants(22, 1)).unwrap();
    let a = cache.register_sequence(first);
    cache.update_seq_len(a, 48);
    let second = cache.alloc_sequence(2, &vec![]).unwrap();
    let b = cache.register_sequence(second);
    cache.update_seq_len(b, 17);
    let c = cache.frag_counts();
    assert_eq!((c.total_tokens, c.total_slots, c.wasted_slots), (65, 80, 15));
    assert_eq!((c.blocks_in_use, c.total_blocks_allocated), (5, 256));
    assert_eq!(c.ideal_physical_bytes, 5 * 8192 * 22 * 2);
    assert_eq!(c.actual_physical_bytes, 2 * 1024 * 1024 * 22 * 2);
    assert_eq!(c.ideal_active_bytes, 65 * 512 * 22 * 2);
    assert_eq!(c.actual_active_bytes, c.actual_physical_bytes);
    assert!(c.ideal_active_bytes <= c.ideal_physical_bytes);
    assert_eq!(cache.idle_bytes(), (251 * 8192 * 22 * 2, 256 * 8192 * 22 * 2));
}

#[test]
fn physical_blocks_add_up() {
    let mut cache = paged(4, 64);
    let table = cache.alloc_sequence(5, &grants(22, 1)).unwrap();
    let seq = cache.register_sequence(table);
    assert_eq!(
        cache.blocks_in_use() + cache.free_physical_blocks(),
        cache.total_physical_blocks()
    );
    cache.unregister_sequence(seq);
    assert_eq!(cache.blocks_in_use(), 0);
    assert_eq!(cache.free_physical_blocks(), cache.total_physical_blocks());
}

#[test]
fn sequences_share_no_block() {
    let mut cache = paged(4, 64);
    let first = cache.alloc_sequence(2, &grants(22, 1)).unwrap();
    let a = cache.register_sequence(first);
    let second = cache.alloc_sequence(2, &vec![]).unwrap();
    let b = cache.register_sequence(second);
    let extra = cache.alloc_block(&vec![]).unwrap();
    cache.append_block_to_sequence(a, extra);
    assert_eq!(cache.get_block_table(a).unwrap(), vec![0, 1, 4]);
    assert_eq!(cache.get_block_table(b).unwrap(), vec![2, 3]);
    cache.unregister_sequence(a);
    assert_eq!(cache.get_block_table(b).unwrap(), vec![2, 3]);
    assert_eq!(cache.blocks_in_use(), 2);
}

#[test]
fn positions_are_stored_apart() {
    let mut cache = paged(4, 64);
    let first = cache.alloc_sequence(2, &grants(22, 1)).unwrap();
    let a = cache.register_sequence(first);
    let second = cache.alloc_sequence(1, &vec![]).unwrap();
    let b = cache.register_sequence(second);
    let plan = cache.append_kv_step(0, &vec![a, a, b], &vec![15, 16, 0], 0x5000, 0x6000);
    let copies = plan.copies;
    assert_eq!(copies.len(), 3);
    for (i, x) in copies.iter().enumerate() {
        assert_eq!(x.nbytes, 512);
        for y in &copies[..i] {
            assert!(x.dst_k + 512 <= y.dst_k || y.dst_k + 512 <= x.dst_k);
        }
    }
}

#[test]
fn tokens_without_blocks_waste_no_slot() {
    let c = FragCounts::from_raw(16, 0, 8, 0, 5, 8192, 22, 4, 64, 100, 0);
    assert_eq!((c.total_slots, c.wasted_slots, c.total_tokens), (0, 0, 5));
    let mut cache = paged(4, 64);
    let seq = cache.register_sequence(vec![]);
    cache.update_seq_len(seq, 5);
    let stats = cache.stats();
    assert_eq!((stats.total_tokens_stored, stats.total_slots, stats.wasted_slots), (5, 0, 0));
    assert_eq!(stats.physical_memory_bytes, 0);
}

// Address space

#[test]
fn vmm_requests_whole_superblocks() {
    let vmm = CudaVmm { device: 0, map_granularity: 2 * 1024 * 1024 };
    assert_eq!(vmm.aligned_size(1), SUPERBLOCK_SIZE);
    assert_eq!(vmm.aligned_size(SUPERBLOCK_SIZE), SUPERBLOCK_SIZE);
}

#[test]
fn layer_pool_maps_superblocks_in_sequence() {
    let mut pool = LayerKvPool::new(4 * 16 * 64);
    assert_eq!(pool.map_superblock(77), 0);
    assert_eq!(pool.map_superblock(78), SUPERBLOCK_SIZE);
    assert_eq!(pool.superblocks[1].phys_handle, 78);
    assert_eq!(pool.allocator.free_count(), 512);
}

#[test]
fn held_and_free_slots_are_all_slots() {
    let mut alloc = SlotAllocator::new(4);
    let mut held: Vec<usize> = (0..3).map(|_| alloc.acquire().unwrap()).collect();
    assert_eq!(held, vec![0, 1, 2]);
    alloc.release(held.remove(1));
    alloc.release(held.remove(0));
    assert_eq!(alloc.free_count() + held.len(), alloc.capacity());
    while let Some(s) = alloc.acquire() {
        assert!(s < 4 && !held.contains(&s));
        held.push(s);
        assert_eq!(alloc.free_count() + held.len(), 4);
    }
    assert_eq!(held.len(), 4);
}

#[test]
fn a_swapped_sequence_comes_back_block_by_block() {
    let mut cache = paged(4, 64);
    let mut swap = SwapManager::new();
    let table = cache.alloc_sequence(2, &grants(22, 1)).unwrap();
    let seq = cache.register_sequence(table);
    cache.update_seq_len(seq, 20);
    let out = swap.plan_evict(&cache, seq).unwrap();
    swap.evicted(&cache, out.num_blocks);
    cache.unregister_sequence(seq);
    let (table, back) = swap.begin_restore(&mut cache, 2, 20, &vec![]).unwrap();
    swap.restored(&cache, 2);
    assert_eq!(swap.total_swapped_bytes(), 0);
    assert_eq!(table.len(), 2);
    assert_eq!(out.copies.len(), back.copies.len());
    for (a, b) in out.copies.iter().zip(&back.copies) {
        assert_eq!((a.layer, a.host_offset, a.nbytes), (b.layer, b.host_offset, b.nbytes));
    }
    for l in 0..22 {
        for i in 0..2 {
            let va = cache.get_block_va_offset(table[i]).unwrap() as u64;
            assert_eq!(back.copies[l * 2 + i].va_k, cache.va_k(l) + va);
            assert_eq!(back.copies[l * 2 + i].va_v, cache.va_v(l) + va);
        }
    }
    let blocks = cache.total_blocks();
    let (none, plan) = swap.begin_restore(&mut cache, 0, 0, &vec![]).unwrap();
    assert!(none.is_empty() && plan.copies.is_empty());
    assert_eq!(cache.total_blocks(), blocks);
}
