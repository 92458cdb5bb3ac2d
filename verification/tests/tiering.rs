use std::collections::HashMap;

use baseline_llm_os::config::KcmmConfig;
use baseline_llm_os::kcmm::evict::{BatchOutcome, EvictError, EvictPlan, EvictRun, EvictStep};
use baseline_llm_os::kcmm::policy::PolicyKind;
use baseline_llm_os::kcmm::pool::{BlockLocation, KcmmPool, PoolError};
use baseline_llm_os::kcmm::restore::RestoreStart;
use baseline_llm_os::kcmm::superblock::BlockHandle;
use baseline_llm_os::kcmm::tiering::TieringEngine;
use baseline_llm_os::kcmm::transfer::{HostCopy, LayerBatch, SlotCopy};

fn bh(sb: u32, blk: u32) -> BlockHandle {
    BlockHandle { superblock_idx: sb, block_index: blk }
}

fn test_config() -> KcmmConfig {
    let mut config = KcmmConfig::default();
    config.block_size = 16;
    config.max_blocks = 1024;
    config.cpu_cache_path = String::new();
    config.tiering = true;
    config.eviction_policy = "lru".to_string();
    config.prefetch_window = 4;
    config.max_batch_blocks = 64;
    config
}

fn make_pool(max_blocks: usize, has_device: bool) -> KcmmPool {
    let mut config = test_config();
    config.max_blocks = max_blocks;
    KcmmPool::new(
        config,
        2,
        4,
        64,
        4,
        64,
        vec![0x7000_0000_0000, 0x7001_0000_0000],
        vec![0x7100_0000_0000, 0x7101_0000_0000],
        has_device,
    )
}

fn make_pool_with_tiering() -> KcmmPool {
    make_pool(256, false)
}

fn grant() -> Vec<Vec<u64>> {
    vec![vec![11, 12, 13, 14]]
}

/// GPU memory, the swap buffer and the staging buffer, byte by byte.
struct Memory {
    gpu: HashMap<u64, u8>,
    swap: Vec<u8>,
    staging: Vec<u8>,
}

impl Memory {
    fn new(pool: &KcmmPool) -> Memory {
        let t = pool.tiering.as_ref().unwrap();
        Memory {
            gpu: HashMap::new(),
            swap: vec![0; t.cpu_buffer_size],
            staging: vec![0; t.cpu_staging_bytes],
        }
    }

    fn read_gpu(&self, va: u64, n: usize) -> Vec<u8> {
        (0..n as u64).map(|i| *self.gpu.get(&(va + i)).unwrap_or(&0)).collect()
    }

    fn write_gpu(&mut self, va: u64, data: &[u8]) {
        for (i, b) in data.iter().enumerate() {
            self.gpu.insert(va + i as u64, *b);
        }
    }

    fn to_slot(&mut self, copies: &[SlotCopy]) {
        for c in copies {
            let data = self.read_gpu(c.gpu_va, c.nbytes);
            self.swap[c.cpu_offset..c.cpu_offset + c.nbytes].copy_from_slice(&data);
        }
    }

    fn from_slot(&mut self, copies: &[SlotCopy]) {
        for c in copies {
            let data = self.swap[c.cpu_offset..c.cpu_offset + c.nbytes].to_vec();
            self.write_gpu(c.gpu_va, &data);
        }
    }

    fn gather(&mut self, b: &LayerBatch) {
        let part = b.nbytes / b.ptrs.len();
        for (i, va) in b.ptrs.iter().enumerate() {
            let data = self.read_gpu(*va, part);
            let at = b.staging_offset + i * part;
            self.staging[at..at + part].copy_from_slice(&data);
        }
    }

    fn scatter(&mut self, b: &LayerBatch) {
        let part = b.nbytes / b.ptrs.len();
        for (i, va) in b.ptrs.iter().enumerate() {
            let at = b.staging_offset + i * part;
            let data = self.staging[at..at + part].to_vec();
            self.write_gpu(*va, &data);
        }
    }

    fn staging_to_swap(&mut self, c: &HostCopy) {
        let data = self.staging[c.staging_offset..c.staging_offset + c.nbytes].to_vec();
        self.swap[c.slot_offset..c.slot_offset + c.nbytes].copy_from_slice(&data);
    }

    fn swap_to_staging(&mut self, c: &HostCopy) {
        let data = self.swap[c.slot_offset..c.slot_offset + c.nbytes].to_vec();
        self.staging[c.staging_offset..c.staging_offset + c.nbytes].copy_from_slice(&data);
    }
}

fn evict_blocks(
    pool: &mut KcmmPool,
    mem: &mut Memory,
    candidates: &[BlockHandle],
    count: usize,
) -> Result<Vec<BlockHandle>, EvictError> {
    match pool.plan_eviction(candidates, count) {
        EvictPlan::Nothing => Ok(vec![]),
        EvictPlan::OneByOne(victims) => {
            let mut run = EvictRun::new(victims);
            loop {
                match run.advance(pool) {
                    EvictStep::Copy(ctx) => {
                        let va = pool.block_va_offset(ctx.handle).unwrap();
                        mem.to_slot(&pool.slot_copies(va, ctx.cpu_offset));
                        run.submitted(pool, ctx, true);
                    }
                    EvictStep::Synchronize => return run.synchronized(pool, true),
                    EvictStep::Done => return Ok(vec![]),
                    EvictStep::Fail(e) => return Err(e),
                }
            }
        }
        EvictPlan::Batched(victims) => {
            let pending = pool.evict_begin_batched(&victims)?;
            let vas: Vec<usize> =
                pending.iter().map(|c| pool.block_va_offset(c.handle).unwrap()).collect();
            let slots: Vec<usize> = pending.iter().map(|c| c.cpu_offset).collect();
            for b in &pool.layer_batches(&vas) {
                mem.gather(b);
            }
            for c in &pool.scatter_copies(&slots) {
                mem.staging_to_swap(c);
            }
            pool.evict_end_batched(&pending, BatchOutcome::Completed)
        }
    }
}

fn restore_evicted_block(
    pool: &mut KcmmPool,
    mem: &mut Memory,
    block_idx: u32,
    now: u64,
) -> Result<u64, PoolError> {
    match pool.restore_begin(block_idx, &vec![])? {
        RestoreStart::Resident(va) => Ok(va),
        RestoreStart::Copy(ctx) => {
            mem.from_slot(&pool.slot_copies(ctx.va_offset, ctx.cpu_offset));
            pool.restore_end(ctx, true, now)
        }
    }
}

fn handles_of(pool: &KcmmPool, table: &[u32]) -> Vec<BlockHandle> {
    table.iter().map(|&idx| pool.get_block_handle(idx).expect("get handle")).collect()
}

// The engine

#[test]
fn test_tiering_engine_zero_buffer() {
    let mut config = test_config();
    config.max_blocks = 0;
    let engine = TieringEngine::new(&config, 1, 16, false);
    assert_eq!(engine.cpu_buffer_size, 0);
}

#[test]
fn test_tiering_engine_buffer_ptr_accessor() {
    let mut config = test_config();
    config.max_blocks = 4;
    let engine = TieringEngine::new(&config, 1, 16, false);
    let expected = config.max_blocks * config.block_size * 2;
    assert_eq!(engine.cpu_buffer_size(), expected);
}

#[test]
fn test_tiering_engine_drop_does_not_crash() {
    let mut config = test_config();
    config.max_blocks = 8;
    let engine = TieringEngine::new(&config, 1, 16, false);
    drop(engine);
}

#[test]
fn test_tiering_engine_send_sync() {
    fn assert_send_sync<T: Send + Sync>(_: &T) {}
    let mut config = test_config();
    config.max_blocks = 4;
    let engine = TieringEngine::new(&config, 1, 16, false);
    assert_send_sync(&engine);
}

#[test]
fn test_tiering_engine_default_policy_is_lru() {
    let mut config = test_config();
    config.max_blocks = 4;
    let mut engine = TieringEngine::new(&config, 1, 16, false);

    let h0 = bh(0, 0);
    let h1 = bh(0, 1);
    engine.eviction_policy.on_access(h0, 1);
    engine.eviction_policy.on_access(h1, 2);
    let victims = engine.eviction_policy.select_victims(&[h0, h1], 1);
    assert_eq!(victims.len(), 1);
    assert_eq!(victims[0], h0, "LRU should evict oldest access (h0)");
}

#[test]
fn test_tiering_engine_selects_lfu_policy() {
    let mut config = test_config();
    config.max_blocks = 4;
    config.eviction_policy = "lfu".to_string();
    let mut engine = TieringEngine::new(&config, 1, 16, false);

    let h0 = bh(0, 0);
    let h1 = bh(0, 1);
    engine.eviction_policy.on_access(h0, 1); // count=1
    engine.eviction_policy.on_access(h1, 2);
    engine.eviction_policy.on_access(h1, 3); // count=2

    let victims = engine.eviction_policy.select_victims(&[h0, h1], 1);
    assert_eq!(victims.len(), 1);
    assert_eq!(victims[0], h0, "LFU should evict least frequent (h0, count=1)");
}

#[test]
fn test_tiering_engine_selects_fifo_policy() {
    let mut config = test_config();
    config.max_blocks = 4;
    config.eviction_policy = "fifo".to_string();
    let mut engine = TieringEngine::new(&config, 1, 16, false);

    let h0 = bh(0, 0);
    let h1 = bh(0, 1);
    engine.eviction_policy.on_allocate(h0, 1); // first allocated
    engine.eviction_policy.on_allocate(h1, 2); // second allocated

    let victims = engine.eviction_policy.select_victims(&[h0, h1], 1);
    assert_eq!(victims.len(), 1);
    assert_eq!(victims[0], h0, "FIFO should evict earliest allocated (h0)");
}

#[test]
fn test_tiering_engine_unknown_policy_falls_back_to_lru() {
    let mut config = test_config();
    config.max_blocks = 4;
    config.eviction_policy = "nonexistent".to_string();
    let mut engine = TieringEngine::new(&config, 1, 16, false);

    let h = bh(0, 0);
    engine.eviction_policy.on_access(h, 1);
    let victims = engine.eviction_policy.select_victims(&[h], 1);
    assert_eq!(victims.len(), 1);
    assert_eq!(victims[0], h);
    assert_eq!(engine.eviction_policy.kind(), PolicyKind::Lru);
}

#[test]
fn staging_buffers_hold_a_full_batch() {
    let config = test_config();
    let engine = TieringEngine::new(&config, 2, 8192, true);
    assert_eq!(engine.gpu_staging_elems, Some(64 * 4096));
    assert_eq!(engine.cpu_staging_bytes, 64 * 2 * 2 * 8192);
    let without = TieringEngine::new(&config, 2, 8192, false);
    assert_eq!(without.gpu_staging_elems, None);
}

// Eviction

#[test]
fn test_evict_single_block_location_transition() {
    let mut pool = make_pool_with_tiering();
    let mut mem = Memory::new(&pool);

    let block_idx = pool.alloc_block(&grant(), 0).expect("alloc block");
    let handle = pool.get_block_handle(block_idx).expect("get handle");
    let initial_loc = pool.get_block_location(block_idx).expect("get location");
    assert!(
        matches!(initial_loc, BlockLocation::GpuResident(_, _)),
        "new block should be GpuResident"
    );

    let evicted = evict_blocks(&mut pool, &mut mem, &[handle], 1).expect("evict blocks");
    assert_eq!(evicted.len(), 1);
    assert_eq!(evicted[0], handle);

    let loc = pool.get_block_location(block_idx).expect("get location after evict");
    assert!(
        matches!(loc, BlockLocation::CpuResident(_)),
        "evicted block should be CpuResident, got {:?}",
        loc
    );
    if let BlockLocation::CpuResident(offset) = loc {
        assert!(offset < pool.tiering.as_ref().unwrap().cpu_buffer_size());
        assert_eq!(offset, 0);
    }
}

#[test]
fn test_evict_multiple_blocks_cpu_offsets_sequential() {
    let mut pool = make_pool_with_tiering();
    let mut mem = Memory::new(&pool);

    let table = pool.alloc_sequence(3, &grant(), 0).expect("alloc 3 blocks");
    let handles = handles_of(&pool, &table);
    assert_eq!(handles.len(), 3);

    for &h in &handles {
        let idx = pool.find_block_idx(h).expect("find block");
        assert!(matches!(
            pool.get_block_location(idx).expect("get location"),
            BlockLocation::GpuResident(_, _)
        ));
    }

    let evicted = evict_blocks(&mut pool, &mut mem, &handles, 3).expect("evict 3 blocks");
    assert_eq!(evicted.len(), 3);

    let total_per_block = pool.num_layers * 2 * pool.block_bytes;
    let mut offsets: Vec<usize> = Vec::new();
    for &h in &evicted {
        let idx = pool.find_block_idx(h).expect("find block");
        let loc = pool.get_block_location(idx).expect("get location");
        match loc {
            BlockLocation::CpuResident(off) => {
                assert!(off < pool.tiering.as_ref().unwrap().cpu_buffer_size());
                offsets.push(off);
            }
            other => panic!("expected CpuResident, got {:?}", other),
        }
    }
    offsets.sort();
    for (i, &off) in offsets.iter().enumerate() {
        assert_eq!(
            off,
            i * total_per_block,
            "block {} should be at offset {}",
            i,
            i * total_per_block
        );
    }
}

#[test]
fn test_evict_empty_candidates_returns_empty() {
    let mut pool = make_pool_with_tiering();
    let mut mem = Memory::new(&pool);
    let result = evict_blocks(&mut pool, &mut mem, &[], 5).expect("evict empty");
    assert!(result.is_empty());
}

#[test]
fn test_evict_zero_count_returns_empty() {
    let mut pool = make_pool_with_tiering();
    let mut mem = Memory::new(&pool);

    let table = pool.alloc_sequence(2, &grant(), 0).expect("alloc");
    let handles = handles_of(&pool, &table);

    let result = evict_blocks(&mut pool, &mut mem, &handles, 0).expect("evict 0");
    assert!(result.is_empty());

    for &h in &handles {
        let idx = pool.find_block_idx(h).expect("find block");
        assert!(matches!(
            pool.get_block_location(idx).expect("get location"),
            BlockLocation::GpuResident(_, _)
        ));
    }
}

#[test]
fn test_evict_count_exceeds_candidates() {
    let mut pool = make_pool_with_tiering();
    let mut mem = Memory::new(&pool);

    let table = pool.alloc_sequence(2, &grant(), 0).expect("alloc");
    let handles = handles_of(&pool, &table);

    let evicted = evict_blocks(&mut pool, &mut mem, &handles, 10).expect("evict");
    assert_eq!(evicted.len(), 2);
}

#[test]
fn test_evict_then_new_allocation_reuses_physical() {
    let mut pool = make_pool_with_tiering();
    let mut mem = Memory::new(&pool);

    let table = pool.alloc_sequence(2, &grant(), 0).expect("alloc 2");
    let handles = handles_of(&pool, &table);

    let physical_total_before = pool.total_physical_blocks();
    let free_before = pool.free_physical_blocks();
    evict_blocks(&mut pool, &mut mem, &handles, 2).expect("evict");

    let physical_total_after = pool.total_physical_blocks();
    assert_eq!(
        physical_total_before, physical_total_after,
        "physical total should be unchanged after eviction"
    );
    assert_eq!(pool.free_physical_blocks(), free_before + 2);
}

#[test]
fn test_alloc_cpu_slot_and_free_roundtrip() {
    let mut pool = make_pool_with_tiering();
    let tiering = pool.tiering.as_mut().expect("tiering enabled");

    let size = 1024;
    let off1 = tiering.alloc_cpu_slot(size).expect("alloc slot 1");
    assert_eq!(off1, 0);

    let off2 = tiering.alloc_cpu_slot(size).expect("alloc slot 2");
    assert_eq!(off2, 1024);

    tiering.free_cpu_slot(off1, size);

    let off3 = tiering.alloc_cpu_slot(size).expect("alloc slot 3");
    assert_eq!(off3, 0, "reclaimed slot should be at offset 0");

    tiering.free_cpu_slot(off2, size);
    tiering.free_cpu_slot(off3, size);
}

#[test]
fn test_evict_preserves_lru_policy_state() {
    let mut pool = make_pool_with_tiering();
    let mut mem = Memory::new(&pool);

    let table = pool.alloc_sequence(3, &grant(), 0).expect("alloc");
    let h0 = pool.get_block_handle(table[0]).expect("get handle");
    let h1 = pool.get_block_handle(table[1]).expect("get handle");
    let h2 = pool.get_block_handle(table[2]).expect("get handle");

    let tiering = pool.tiering.as_mut().expect("tiering enabled");
    tiering.eviction_policy.on_allocate(h0, 1);
    tiering.eviction_policy.on_allocate(h1, 2);
    tiering.eviction_policy.on_allocate(h2, 3);

    let evicted = evict_blocks(&mut pool, &mut mem, &[h0, h1, h2], 1).expect("evict");
    assert_eq!(evicted.len(), 1);
    assert_eq!(evicted[0], h0);

    let tiering = pool.tiering.as_ref().unwrap();
    let remaining = tiering.eviction_policy.select_victims(&[h0, h1, h2], 2);
    assert_eq!(remaining.len(), 2);
    assert!(!remaining.contains(&h0));
}

fn pattern_bytes(block_bytes: usize) -> Vec<u8> {
    let num_elements = block_bytes / 2;
    let pattern: Vec<u16> = (0..num_elements).map(|i| (i % 256) as u16).collect();
    pattern.iter().flat_map(|x| x.to_le_bytes()).collect()
}

#[test]
fn test_evict_single_block_data_integrity() {
    let mut pool = make_pool_with_tiering();
    let mut mem = Memory::new(&pool);

    let block_idx = pool.alloc_block(&grant(), 0).expect("alloc block");
    let handle = pool.get_block_handle(block_idx).expect("get handle");
    let block_bytes = pool.block_bytes;

    let pattern = pattern_bytes(block_bytes);
    let gpu_va_k0 = pool.gpu_va_for_block(handle, 0, false).expect("va k0");
    mem.write_gpu(gpu_va_k0, &pattern);

    let evicted = evict_blocks(&mut pool, &mut mem, &[handle], 1).expect("evict");
    assert_eq!(evicted.len(), 1);

    let loc = pool.get_block_location(block_idx).expect("get location");
    let cpu_offset = match loc {
        BlockLocation::CpuResident(off) => off,
        _ => panic!("expected CpuResident"),
    };
    assert_eq!(
        mem.swap[cpu_offset..cpu_offset + block_bytes].to_vec(),
        pattern,
        "CPU buffer should contain the exact pattern written to GPU K layer"
    );
}

// Restoring

#[test]
fn test_restore_single_block_location_transition() {
    let mut pool = make_pool_with_tiering();
    let mut mem = Memory::new(&pool);

    let block_idx = pool.alloc_block(&grant(), 0).expect("alloc block");
    let handle = pool.get_block_handle(block_idx).expect("get handle");

    let evicted = evict_blocks(&mut pool, &mut mem, &[handle], 1).expect("evict");
    assert_eq!(evicted.len(), 1);

    let loc = pool.get_block_location(block_idx).expect("get location");
    assert!(
        matches!(loc, BlockLocation::CpuResident(_)),
        "should be CpuResident after eviction"
    );

    let va_offset =
        restore_evicted_block(&mut pool, &mut mem, block_idx, 1).expect("restore evicted block");
    assert!(va_offset > 0, "restored VA offset should be positive");

    let loc = pool.get_block_location(block_idx).expect("get location after restore");
    assert!(
        matches!(loc, BlockLocation::GpuResident(_, _)),
        "should be GpuResident after restore, got {:?}",
        loc
    );
}

#[test]
fn test_restore_already_gpu_resident_is_noop() {
    let mut pool = make_pool_with_tiering();
    let mut mem = Memory::new(&pool);

    let block_idx = pool.alloc_block(&grant(), 0).expect("alloc block");
    let loc_before = pool.get_block_location(block_idx).expect("get location");
    let va_before = match loc_before {
        BlockLocation::GpuResident(_, va) => va,
        _ => panic!("expected GpuResident"),
    };

    let va_after = restore_evicted_block(&mut pool, &mut mem, block_idx, 1)
        .expect("restore on GpuResident should be noop");
    assert_eq!(
        va_before, va_after,
        "restore on GpuResident block should return same VA offset"
    );

    let loc = pool.get_block_location(block_idx).expect("get location");
    assert!(matches!(loc, BlockLocation::GpuResident(_, _)));
}

#[test]
fn test_evict_then_restore_multiple_blocks() {
    let mut pool = make_pool_with_tiering();
    let mut mem = Memory::new(&pool);

    let table = pool.alloc_sequence(3, &grant(), 0).expect("alloc 3");
    let handles = handles_of(&pool, &table);

    evict_blocks(&mut pool, &mut mem, &handles, 3).expect("evict all");

    for &h in &handles {
        let idx = pool.find_block_idx(h).expect("find block");
        assert!(matches!(
            pool.get_block_location(idx).expect("get location"),
            BlockLocation::CpuResident(_)
        ));
    }

    for &idx in &table {
        let va = restore_evicted_block(&mut pool, &mut mem, idx, 1).expect("restore block");
        assert!(va > 0);
        assert!(matches!(
            pool.get_block_location(idx).expect("get location"),
            BlockLocation::GpuResident(_, _)
        ));
    }
}

#[test]
fn test_restore_cpu_slot_freed() {
    let mut pool = make_pool_with_tiering();
    let mut mem = Memory::new(&pool);
    let total_per_block = pool.num_layers * 2 * pool.block_bytes;

    let block_idx = pool.alloc_block(&grant(), 0).expect("alloc block");
    let handle = pool.get_block_handle(block_idx).expect("get handle");

    evict_blocks(&mut pool, &mut mem, &[handle], 1).expect("evict");

    let cpu_offset = match pool.get_block_location(block_idx).expect("get location") {
        BlockLocation::CpuResident(off) => off,
        _ => panic!("expected CpuResident"),
    };
    assert_eq!(cpu_offset, 0, "first eviction should be at offset 0");

    restore_evicted_block(&mut pool, &mut mem, block_idx, 1).expect("restore");

    let tiering = pool.tiering.as_mut().unwrap();
    let new_offset = tiering.alloc_cpu_slot(total_per_block).expect("alloc cpu slot");
    assert_eq!(
        new_offset, 0,
        "CPU slot should be freed after restore and reallocatable at offset 0"
    );
}

#[test]
fn test_restore_then_evict_again() {
    let mut pool = make_pool_with_tiering();
    let mut mem = Memory::new(&pool);

    let block_idx = pool.alloc_block(&grant(), 0).expect("alloc block");
    let orig_handle = pool.get_block_handle(block_idx).expect("get handle");

    evict_blocks(&mut pool, &mut mem, &[orig_handle], 1).expect("evict 1");
    assert!(matches!(
        pool.get_block_location(block_idx).expect("get location"),
        BlockLocation::CpuResident(_)
    ));

    restore_evicted_block(&mut pool, &mut mem, block_idx, 1).expect("restore");
    assert!(matches!(
        pool.get_block_location(block_idx).expect("get location"),
        BlockLocation::GpuResident(_, _)
    ));

    let new_handle = pool.get_block_handle(block_idx).expect("get new handle");

    let evicted2 = evict_blocks(&mut pool, &mut mem, &[new_handle], 1).expect("evict 2");
    assert_eq!(evicted2.len(), 1);

    assert!(matches!(
        pool.get_block_location(block_idx).expect("get location after 2nd evict"),
        BlockLocation::CpuResident(_)
    ));
}

#[test]
fn test_restore_preserves_policy_state() {
    let mut pool = make_pool_with_tiering();
    let mut mem = Memory::new(&pool);

    let block_idx = pool.alloc_block(&grant(), 0).expect("alloc block");
    let handle = pool.get_block_handle(block_idx).expect("get handle");

    evict_blocks(&mut pool, &mut mem, &[handle], 1).expect("evict");

    let victims =
        pool.tiering.as_ref().unwrap().eviction_policy.select_victims(&[handle], 1);
    assert!(
        victims.is_empty(),
        "evicted block's old handle should not be tracked by policy"
    );

    restore_evicted_block(&mut pool, &mut mem, block_idx, 1).expect("restore");

    let new_handle = pool.get_block_handle(block_idx).expect("get new handle");
    let victims =
        pool.tiering.as_ref().unwrap().eviction_policy.select_victims(&[new_handle], 1);
    assert_eq!(
        victims.len(),
        1,
        "restored block's new handle should be tracked by policy"
    );
    assert_eq!(victims[0], new_handle);
}

#[test]
fn test_restore_data_integrity_roundtrip() {
    let mut pool = make_pool_with_tiering();
    let mut mem = Memory::new(&pool);

    let block_idx = pool.alloc_block(&grant(), 0).expect("alloc block");
    let handle = pool.get_block_handle(block_idx).expect("get handle");
    let block_bytes = pool.block_bytes;

    let pattern = pattern_bytes(block_bytes);
    let gpu_va_k0 = pool.gpu_va_for_block(handle, 0, false).expect("va k0");
    mem.write_gpu(gpu_va_k0, &pattern);

    evict_blocks(&mut pool, &mut mem, &[handle], 1).expect("evict");
    mem.gpu.clear();
    restore_evicted_block(&mut pool, &mut mem, block_idx, 1).expect("restore");

    let new_handle = pool.get_block_handle(block_idx).expect("get new handle");
    let new_gpu_va = pool.gpu_va_for_block(new_handle, 0, false).expect("va k0 new");

    assert_eq!(
        mem.read_gpu(new_gpu_va, block_bytes),
        pattern,
        "restored GPU data should match the original pattern (full roundtrip)"
    );
}

#[test]
fn test_restore_invalid_block_idx_errors() {
    let mut pool = make_pool_with_tiering();
    let mut mem = Memory::new(&pool);
    let result = restore_evicted_block(&mut pool, &mut mem, 999, 0);
    assert!(result.is_err(), "restore on invalid block index should error");
    assert_eq!(result, Err(PoolError::BlockOutOfBounds(999)));
}

#[test]
fn test_restore_evicting_block_errors() {
    let mut pool = make_pool_with_tiering();
    let mut mem = Memory::new(&pool);

    let block_idx = pool.alloc_block(&grant(), 0).expect("alloc block");
    pool.set_block_location(block_idx, BlockLocation::Evicting).expect("set Evicting");

    let result = restore_evicted_block(&mut pool, &mut mem, block_idx, 0);
    assert!(result.is_err(), "restore on Evicting block should error");
    assert_eq!(result, Err(PoolError::InTransit(block_idx)));
}

#[test]
fn test_restore_restoring_block_errors() {
    let mut pool = make_pool_with_tiering();
    let mut mem = Memory::new(&pool);

    let block_idx = pool.alloc_block(&grant(), 0).expect("alloc block");
    pool.set_block_location(block_idx, BlockLocation::Restoring).expect("set Restoring");

    let result = restore_evicted_block(&mut pool, &mut mem, block_idx, 0);
    assert!(result.is_err(), "restore on Restoring block should error");
}

#[test]
fn nvme_blocks_cannot_be_restored() {
    let mut pool = make_pool_with_tiering();
    let block_idx = pool.alloc_block(&grant(), 0).unwrap();
    pool.set_block_location(block_idx, BlockLocation::NvmeResident(0)).unwrap();
    assert!(matches!(
        pool.restore_begin(block_idx, &vec![]),
        Err(PoolError::NvmeResident(i)) if i == block_idx
    ));
    assert!(matches!(pool.restorable(&[block_idx]), Err(PoolError::NvmeResident(_))));
}

#[test]
fn a_pool_without_tiering_evicts_nothing() {
    let mut config = test_config();
    config.tiering = false;
    let mut pool =
        KcmmPool::new(config, 1, 4, 64, 4, 64, vec![0x10000000], vec![0x20000000], false);
    let idx = pool.alloc_block(&vec![vec![1, 2]], 0).unwrap();
    let h = pool.get_block_handle(idx).unwrap();
    assert!(matches!(pool.plan_eviction(&[h], 1), EvictPlan::Nothing));
    assert!(matches!(pool.evict_submit_async(idx, h), Err(EvictError::TieringDisabled)));
    assert!(matches!(pool.restore_begin(idx, &vec![]), Err(PoolError::TieringDisabled)));
}

// Batches

#[test]
fn a_batch_comes_back_as_it_went() {
    let mut pool = make_pool(256, true);
    let mut mem = Memory::new(&pool);
    let table = pool.alloc_sequence(5, &grant(), 0).unwrap();
    let handles = handles_of(&pool, &table);
    let bb = pool.block_bytes;
    for (i, h) in handles.iter().enumerate() {
        for l in 0..2 {
            for is_v in [false, true] {
                let va = pool.gpu_va_for_block(*h, l, is_v).unwrap();
                let fill = (i * 16 + l * 2 + is_v as usize) as u8;
                mem.write_gpu(va, &vec![fill; bb]);
            }
        }
    }
    assert!(matches!(pool.plan_eviction(&handles, 5), EvictPlan::Batched(_)));
    let evicted = evict_blocks(&mut pool, &mut mem, &handles, 5).unwrap();
    assert_eq!(evicted.len(), 5);
    assert_eq!(pool.free_physical_blocks(), 256);
    mem.gpu.clear();

    let blocks = pool.restorable(&table).unwrap();
    assert_eq!(blocks.len(), 5);
    assert!(pool.moves_in_batch(blocks.len()));
    let pending = pool.restore_begin_batched(&blocks, &vec![]);
    assert_eq!(pending.len(), 5);
    let slots: Vec<usize> = pending.iter().map(|c| c.cpu_offset).collect();
    let vas: Vec<usize> = pending.iter().map(|c| c.va_offset).collect();
    for (j, b) in pool.layer_batches(&vas).iter().enumerate() {
        for c in &pool.gather_copies(&slots, j) {
            mem.swap_to_staging(c);
        }
        mem.scatter(b);
    }
    assert_eq!(pool.restore_end_batched(&pending, BatchOutcome::Completed, 9), Ok(()));

    for (i, idx) in table.iter().enumerate() {
        let h = pool.get_block_handle(*idx).unwrap();
        for l in 0..2 {
            for is_v in [false, true] {
                let va = pool.gpu_va_for_block(h, l, is_v).unwrap();
                let fill = (i * 16 + l * 2 + is_v as usize) as u8;
                assert_eq!(mem.read_gpu(va, bb), vec![fill; bb]);
            }
        }
    }
}

#[test]
fn a_failed_batch_leaves_blocks_on_the_gpu() {
    let mut pool = make_pool(256, true);
    let table = pool.alloc_sequence(4, &grant(), 0).unwrap();
    let handles = handles_of(&pool, &table);
    let pending = pool.evict_begin_batched(&handles).unwrap();
    assert_eq!(pool.get_block_location(table[0]).unwrap(), BlockLocation::Evicting);
    assert_eq!(
        pool.evict_end_batched(&pending, BatchOutcome::SyncFailed).unwrap_err(),
        EvictError::SyncFailed
    );
    for idx in &table {
        assert!(matches!(
            pool.get_block_location(*idx).unwrap(),
            BlockLocation::GpuResident(_, _)
        ));
    }
    let pending = pool.evict_begin_batched(&handles).unwrap();
    assert_eq!(
        pool.evict_end_batched(&pending, BatchOutcome::SubmitFailed).unwrap_err(),
        EvictError::SubmitFailed
    );
    assert_eq!(pool.get_block_location(table[0]).unwrap(), BlockLocation::Evicting);
}

#[test]
fn a_failed_restore_leaves_the_block_in_the_swap_buffer() {
    let mut pool = make_pool_with_tiering();
    let mut mem = Memory::new(&pool);
    let idx = pool.alloc_block(&grant(), 0).unwrap();
    let h = pool.get_block_handle(idx).unwrap();
    evict_blocks(&mut pool, &mut mem, &[h], 1).unwrap();
    let free = pool.free_physical_blocks();
    match pool.restore_begin(idx, &vec![]).unwrap() {
        RestoreStart::Copy(ctx) => {
            assert_eq!(pool.get_block_location(idx), Some(BlockLocation::Restoring));
            assert_eq!(pool.restore_end(ctx, false, 1), Err(PoolError::CopyFailed));
        }
        RestoreStart::Resident(_) => panic!("expected a copy"),
    }
    assert_eq!(pool.get_block_location(idx), Some(BlockLocation::CpuResident(0)));
    assert_eq!(pool.free_physical_blocks(), free);
}

#[test]
fn a_failed_copy_undoes_the_eviction() {
    let mut pool = make_pool_with_tiering();
    let idx = pool.alloc_block(&grant(), 0).unwrap();
    let h = pool.get_block_handle(idx).unwrap();
    let before = pool.get_block_location(idx).unwrap();
    let mut run = EvictRun::new(vec![h]);
    match run.advance(&mut pool) {
        EvictStep::Copy(ctx) => run.submitted(&mut pool, ctx, false),
        other => panic!("expected Copy, got {:?}", other),
    }
    assert_eq!(run.advance(&mut pool), EvictStep::Done);
    assert_eq!(pool.get_block_location(idx), Some(before));
    // the slot is free again
    assert_eq!(pool.tiering.as_mut().unwrap().alloc_cpu_slot(32768), Some(0));
}

#[test]
fn a_full_swap_buffer_skips_victims() {
    let mut pool = make_pool(1, false);
    let mut mem = Memory::new(&pool);
    let table = pool.alloc_sequence(2, &grant(), 0).unwrap();
    let handles = handles_of(&pool, &table);
    let evicted = evict_blocks(&mut pool, &mut mem, &handles, 2).unwrap();
    assert_eq!(evicted, vec![handles[0]]);
    assert!(matches!(
        pool.evict_prepare(handles[1]),
        Err(EvictError::SwapBufferExhausted)
    ));
}

#[test]
fn an_unknown_victim_stops_the_eviction() {
    let mut pool = make_pool_with_tiering();
    let h = bh(3, 7);
    let mut run = EvictRun::new(vec![h]);
    assert_eq!(run.advance(&mut pool), EvictStep::Fail(EvictError::VictimNotFound(h)));
    assert_eq!(
        pool.evict_begin_batched(&vec![h]).unwrap_err(),
        EvictError::VictimNotFound(h)
    );
}

#[test]
fn test_free_sequence_after_eviction_releases_cpu_slot_without_double_free() {
    let mut pool = make_pool_with_tiering();
    let mut mem = Memory::new(&pool);
    let total_per_block = pool.num_layers * 2 * pool.block_bytes;

    let table = pool.alloc_sequence(2, &grant(), 0).expect("alloc sequence");
    let total_physical = pool.total_physical_blocks();
    let handles = handles_of(&pool, &table);

    evict_blocks(&mut pool, &mut mem, &[handles[0]], 1).expect("evict one block");
    assert!(matches!(
        pool.get_block_location(table[0]).expect("get evicted location"),
        BlockLocation::CpuResident(0)
    ));
    assert_eq!(
        pool.free_physical_blocks(),
        total_physical - 1,
        "one GPU-resident sequence block should still occupy physical memory"
    );

    pool.free_sequence(&table);

    assert_eq!(pool.blocks_in_use(), 0);
    assert_eq!(
        pool.free_physical_blocks(),
        total_physical,
        "freeing a CpuResident block must not return its old GPU handle twice"
    );

    let recycled_cpu_offset = pool
        .tiering
        .as_mut()
        .unwrap()
        .alloc_cpu_slot(total_per_block)
        .expect("alloc CPU slot after sequence free");
    assert_eq!(
        recycled_cpu_offset, 0,
        "freeing a CpuResident block should release its CPU swap slot"
    );
}

/// Bytes of the swap buffer that no block holds, in order.
fn free_bytes(pool: &KcmmPool) -> usize {
    let t = pool.tiering.as_ref().unwrap();
    t.slot_allocator.free_ranges.iter().map(|r| r.end - r.start).sum()
}

#[test]
fn a_block_keeps_its_bytes_while_others_move() {
    let mut pool = make_pool(8, false);
    let mut mem = Memory::new(&pool);
    let table = pool.alloc_sequence(3, &grant(), 0).unwrap();
    let handles = handles_of(&pool, &table);
    let bb = pool.block_bytes();
    for (i, &idx) in table.iter().enumerate() {
        let va = pool.get_block_va_offset(idx).unwrap() as u64;
        for l in 0..2 {
            mem.write_gpu(pool.va_k(l) + va, &vec![10 * i as u8 + 2 * l as u8 + 1; bb]);
            mem.write_gpu(pool.va_v(l) + va, &vec![10 * i as u8 + 2 * l as u8 + 2; bb]);
        }
    }
    // the first block leaves; then the others leave, return and leave again
    evict_blocks(&mut pool, &mut mem, &handles[..1], 1).unwrap();
    evict_blocks(&mut pool, &mut mem, &handles[1..2], 1).unwrap();
    restore_evicted_block(&mut pool, &mut mem, table[1], 5).unwrap();
    evict_blocks(&mut pool, &mut mem, &handles[2..], 1).unwrap();
    pool.free_sequence(&vec![table[2]]);
    restore_evicted_block(&mut pool, &mut mem, table[0], 9).unwrap();
    for (i, &idx) in table[..2].iter().enumerate() {
        let va = pool.get_block_va_offset(idx).unwrap() as u64;
        for l in 0..2 {
            let k = mem.read_gpu(pool.va_k(l) + va, bb);
            let v = mem.read_gpu(pool.va_v(l) + va, bb);
            assert!(k.iter().all(|b| *b == 10 * i as u8 + 2 * l as u8 + 1));
            assert!(v.iter().all(|b| *b == 10 * i as u8 + 2 * l as u8 + 2));
        }
    }
    assert_eq!(free_bytes(&pool), 8 * pool.slot_bytes());
}

#[test]
fn slots_of_different_blocks_lie_apart() {
    let mut pool = make_pool(8, false);
    let mut mem = Memory::new(&pool);
    let table = pool.alloc_sequence(3, &grant(), 0).unwrap();
    let handles = handles_of(&pool, &table);
    assert_eq!(evict_blocks(&mut pool, &mut mem, &handles, 3).unwrap().len(), 3);
    let size = pool.slot_bytes();
    let mut slots: Vec<usize> = table
        .iter()
        .map(|&i| match pool.get_block_location(i) {
            Some(BlockLocation::CpuResident(o)) => o,
            other => panic!("unexpected location {:?}", other),
        })
        .collect();
    slots.sort();
    for w in slots.windows(2) {
        assert!(w[0] + size <= w[1]);
    }
    for r in &pool.tiering.as_ref().unwrap().slot_allocator.free_ranges {
        assert!(slots.iter().all(|o| r.end <= *o || o + size <= r.start));
    }
    assert_eq!(free_bytes(&pool), 5 * size);
}

#[test]
fn a_batch_called_off_leaves_the_pool_as_it_was() {
    let mut pool = make_pool(8, true);
    let table = pool.alloc_sequence(4, &grant(), 0).unwrap();
    let handles = handles_of(&pool, &table);
    let places: Vec<_> = table.iter().map(|&i| pool.get_block_location(i)).collect();
    let ranges = pool.tiering.as_ref().unwrap().slot_allocator.free_ranges.clone();
    let pending = pool.evict_begin_batched(&handles).unwrap();
    assert_eq!(pending.len(), 4);
    assert_eq!(
        pool.evict_end_batched(&pending, BatchOutcome::SyncFailed),
        Err(EvictError::SyncFailed)
    );
    let after: Vec<_> = table.iter().map(|&i| pool.get_block_location(i)).collect();
    assert_eq!(after, places);
    assert_eq!(pool.tiering.as_ref().unwrap().slot_allocator.free_ranges, ranges);
}

#[test]
fn freeing_a_mixed_sequence_gives_everything_back_once() {
    let mut pool = make_pool(8, false);
    let mut mem = Memory::new(&pool);
    let table = pool.alloc_sequence(3, &grant(), 0).unwrap();
    let handles = handles_of(&pool, &table);
    evict_blocks(&mut pool, &mut mem, &handles[..1], 1).unwrap();
    let free = pool.free_physical_blocks();
    let listed = vec![table[0], table[1], table[1], table[2]];
    pool.free_sequence(&listed);
    assert_eq!(pool.free_physical_blocks(), free + 2);
    assert_eq!(pool.blocks_in_use(), 0);
    assert_eq!(pool.total_blocks(), 3);
    assert_eq!(free_bytes(&pool), 8 * pool.slot_bytes());
    pool.free_sequence(&listed);
    assert_eq!(pool.free_physical_blocks(), free + 2);
    assert_eq!(free_bytes(&pool), 8 * pool.slot_bytes());
}

fn fill_block(pool: &KcmmPool, mem: &mut Memory, block_idx: u32, fill: u8) {
    let va = pool.get_block_va_offset(block_idx).unwrap() as u64;
    for l in 0..2 {
        mem.write_gpu(pool.va_k(l) + va, &vec![fill + 2 * l as u8; pool.block_bytes()]);
        mem.write_gpu(pool.va_v(l) + va, &vec![fill + 2 * l as u8 + 1; pool.block_bytes()]);
    }
}

fn holds_fill(pool: &KcmmPool, mem: &Memory, block_idx: u32, fill: u8) -> bool {
    let bb = pool.block_bytes();
    let va = pool.get_block_va_offset(block_idx).unwrap() as u64;
    (0..2).all(|l| {
        mem.read_gpu(pool.va_k(l) + va, bb) == vec![fill + 2 * l as u8; bb]
            && mem.read_gpu(pool.va_v(l) + va, bb) == vec![fill + 2 * l as u8 + 1; bb]
    })
}

#[test]
fn a_reused_physical_block_stands_for_its_new_block() {
    let mut pool = make_pool(8, false);
    let mut mem = Memory::new(&pool);
    let first = pool.alloc_block(&grant(), 1).unwrap();
    let total = pool.total_physical_blocks();
    fill_block(&pool, &mut mem, first, 10);
    let h = pool.get_block_handle(first).unwrap();
    assert_eq!(evict_blocks(&mut pool, &mut mem, &[h], 1).unwrap(), vec![h]);
    // where no block resides any more, the evicted block is still found
    assert_eq!(pool.find_block_idx(h), Some(first));

    let second = pool.alloc_block(&vec![], 2).unwrap();
    assert_eq!(pool.get_block_handle(second), Some(h));
    assert_eq!(pool.find_block_idx(h), Some(second));
    fill_block(&pool, &mut mem, second, 50);

    let candidates = pool.evict_candidates();
    assert_eq!(candidates, vec![h]);
    let slot = pool.get_block_location(first);
    assert_eq!(evict_blocks(&mut pool, &mut mem, &candidates, 1).unwrap(), vec![h]);
    assert_eq!(pool.get_block_location(first), slot);
    match (pool.get_block_location(first), pool.get_block_location(second)) {
        (Some(BlockLocation::CpuResident(a)), Some(BlockLocation::CpuResident(b))) => {
            assert!(a + pool.slot_bytes() <= b || b + pool.slot_bytes() <= a);
        }
        other => panic!("unexpected locations {:?}", other),
    }
    assert_eq!(pool.free_physical_blocks(), total);
    assert_eq!(pool.total_physical_blocks(), total);
    assert_eq!(free_bytes(&pool), 6 * pool.slot_bytes());

    mem.gpu.clear();
    restore_evicted_block(&mut pool, &mut mem, first, 3).unwrap();
    restore_evicted_block(&mut pool, &mut mem, second, 4).unwrap();
    assert_ne!(pool.get_block_handle(first), pool.get_block_handle(second));
    assert!(holds_fill(&pool, &mem, first, 10));
    assert!(holds_fill(&pool, &mem, second, 50));
    assert_eq!(pool.free_physical_blocks(), total - 2);
    assert_eq!(free_bytes(&pool), 8 * pool.slot_bytes());
}

#[test]
fn reused_physical_blocks_move_in_batches_too() {
    let mut pool = make_pool(16, true);
    let mut mem = Memory::new(&pool);
    let old = pool.alloc_sequence(5, &grant(), 1).unwrap();
    for (i, &idx) in old.iter().enumerate() {
        fill_block(&pool, &mut mem, idx, 10 + 8 * i as u8);
    }
    let handles = handles_of(&pool, &old);
    assert_eq!(evict_blocks(&mut pool, &mut mem, &handles, 5).unwrap(), handles);
    let new = pool.alloc_sequence(5, &vec![], 2).unwrap();
    for (i, &idx) in new.iter().enumerate() {
        fill_block(&pool, &mut mem, idx, 100 + 8 * i as u8);
    }
    let candidates = pool.evict_candidates();
    assert!(candidates.iter().all(|h| handles.contains(h)));
    assert!(matches!(pool.plan_eviction(&candidates, 5), EvictPlan::Batched(_)));
    assert_eq!(evict_blocks(&mut pool, &mut mem, &candidates, 5).unwrap().len(), 5);
    mem.gpu.clear();
    for &idx in old.iter().chain(new.iter()) {
        restore_evicted_block(&mut pool, &mut mem, idx, 3).unwrap();
    }
    for (i, &idx) in old.iter().enumerate() {
        assert!(holds_fill(&pool, &mem, idx, 10 + 8 * i as u8));
    }
    for (i, &idx) in new.iter().enumerate() {
        assert!(holds_fill(&pool, &mem, idx, 100 + 8 * i as u8));
    }
    assert_eq!(free_bytes(&pool), 16 * pool.slot_bytes());
}

#[test]
fn a_block_outside_gpu_memory_is_not_evicted_again() {
    let mut pool = make_pool(8, false);
    let mut mem = Memory::new(&pool);
    let idx = pool.alloc_block(&grant(), 1).unwrap();
    let h = pool.get_block_handle(idx).unwrap();
    assert_eq!(pool.evict_submit_async(idx, bh(0, 99)), Err(EvictError::NotResident(idx)));
    assert_eq!(
        pool.evict_submit_async(77, h),
        Err(EvictError::Block(PoolError::BlockOutOfBounds(77)))
    );
    assert_eq!(free_bytes(&pool), 8 * pool.slot_bytes());
    evict_blocks(&mut pool, &mut mem, &[h], 1).unwrap();
    let place = pool.get_block_location(idx);
    let free = pool.free_physical_blocks();
    assert_eq!(pool.evict_prepare(h), Err(EvictError::NotResident(idx)));
    assert!(pool.evict_begin_batched(&vec![h]).unwrap().is_empty());
    assert_eq!(EvictRun::new(vec![h]).advance(&mut pool), EvictStep::Done);
    assert_eq!(pool.get_block_location(idx), place);
    assert_eq!(pool.free_physical_blocks(), free);
    assert_eq!(free_bytes(&pool), 7 * pool.slot_bytes());
}

#[test]
fn a_victim_named_twice_is_moved_once() {
    let mut pool = make_pool(8, true);
    let idx = pool.alloc_block(&grant(), 1).unwrap();
    let h = pool.get_block_handle(idx).unwrap();
    let free = pool.free_physical_blocks();
    let pending = pool.evict_begin_batched(&vec![h, h]).unwrap();
    assert_eq!(pending.len(), 1);
    let moved = pool.evict_end_batched(&pending, BatchOutcome::Completed).unwrap();
    assert_eq!(moved, vec![h]);
    assert_eq!(pool.free_physical_blocks(), free + 1);
    assert_eq!(free_bytes(&pool), 7 * pool.slot_bytes());
}

#[test]
fn blocks_move_one_by_one_as_in_a_batch() {
    let mut single = make_pool(8, true);
    let mut batch = make_pool(8, true);
    let table = single.alloc_sequence(4, &grant(), 1).unwrap();
    assert_eq!(batch.alloc_sequence(4, &grant(), 1).unwrap(), table);
    let victims = handles_of(&single, &table);

    let pending = batch.evict_begin_batched(&victims).unwrap();
    let moved = batch.evict_end_batched(&pending, BatchOutcome::Completed).unwrap();
    let mut run = EvictRun::new(victims.clone());
    while let EvictStep::Copy(ctx) = run.advance(&mut single) {
        run.submitted(&mut single, ctx, true);
    }
    assert_eq!(run.synchronized(&mut single, true).unwrap(), moved);
    assert_eq!(moved, victims);
    for &idx in &table {
        assert_eq!(single.get_block_location(idx), batch.get_block_location(idx));
    }
}

#[test]
fn only_copied_blocks_move() {
    let mut pool = make_pool(8, false);
    let table = pool.alloc_sequence(3, &grant(), 1).unwrap();
    let handles = handles_of(&pool, &table);
    let places: Vec<_> = table.iter().map(|&i| pool.get_block_location(i)).collect();
    let mut run = EvictRun::new(handles.clone());
    while let EvictStep::Copy(ctx) = run.advance(&mut pool) {
        let ok = ctx.block_idx != table[1];
        run.submitted(&mut pool, ctx, ok);
    }
    assert_eq!(run.synchronized(&mut pool, true).unwrap(), vec![handles[0], handles[2]]);
    assert_eq!(pool.get_block_location(table[1]), places[1]);
    for i in [0, 2] {
        assert!(matches!(
            pool.get_block_location(table[i]),
            Some(BlockLocation::CpuResident(_))
        ));
    }
    assert_eq!(pool.evict_candidates(), vec![handles[1]]);
    assert_eq!(free_bytes(&pool), 6 * pool.slot_bytes());
}

#[test]
fn a_block_named_twice_is_restored_once() {
    let mut pool = make_pool(8, true);
    let table = pool.alloc_sequence(2, &grant(), 1).unwrap();
    let handles = handles_of(&pool, &table);
    let pending = pool.evict_begin_batched(&handles).unwrap();
    pool.evict_end_batched(&pending, BatchOutcome::Completed).unwrap();
    let free = pool.free_physical_blocks();

    let listed = pool.restorable(&[table[0], table[1], table[0]]).unwrap();
    assert_eq!(listed.len(), 3);
    let back = pool.restore_begin_batched(&listed, &vec![]);
    assert_eq!(back.iter().map(|c| c.block_idx).collect::<Vec<_>>(), table);
    assert_eq!(pool.restore_end_batched(&back, BatchOutcome::Completed, 2), Ok(()));
    assert_eq!(pool.free_physical_blocks(), free - 2);
    assert_eq!(free_bytes(&pool), 8 * pool.slot_bytes());
    for (c, &idx) in back.iter().zip(&table) {
        assert_eq!(
            pool.get_block_location(idx),
            Some(BlockLocation::GpuResident(c.new_handle, c.va_offset as u64))
        );
    }
}

#[test]
fn a_block_is_restored_from_its_own_slot_only() {
    let mut pool = make_pool(8, false);
    let mut mem = Memory::new(&pool);
    let idx = pool.alloc_block(&grant(), 1).unwrap();
    let h = pool.get_block_handle(idx).unwrap();
    let (r, used) = pool.restore_submit_async(idx, 0, &vec![], 0);
    assert_eq!((r, used), (Err(PoolError::NotSwapped(idx)), 0));
    evict_blocks(&mut pool, &mut mem, &[h], 1).unwrap();
    let elsewhere = pool.slot_bytes();
    let (r, _) = pool.restore_submit_async(idx, elsewhere, &vec![], 0);
    assert_eq!(r, Err(PoolError::NotSwapped(idx)));
    assert_eq!(pool.get_block_location(idx), Some(BlockLocation::CpuResident(0)));
    assert!(pool.restore_submit_async(idx, 0, &vec![], 0).0.is_ok());
}

#[test]
fn a_batch_of_restores_called_off_leaves_blocks_in_their_slots() {
    let mut pool = make_pool(8, true);
    let table = pool.alloc_sequence(4, &grant(), 1).unwrap();
    let handles = handles_of(&pool, &table);
    let pending = pool.evict_begin_batched(&handles).unwrap();
    pool.evict_end_batched(&pending, BatchOutcome::Completed).unwrap();
    let places: Vec<_> = table.iter().map(|&i| pool.get_block_location(i)).collect();
    let free = pool.free_physical_blocks();
    let ranges = pool.tiering.as_ref().unwrap().slot_allocator.free_ranges.clone();

    let listed = pool.restorable(&table).unwrap();
    let back = pool.restore_begin_batched(&listed, &vec![]);
    assert_eq!(back.len(), 4);
    assert_eq!(
        pool.restore_end_batched(&back, BatchOutcome::SyncFailed, 2),
        Err(PoolError::CopyFailed)
    );
    let after: Vec<_> = table.iter().map(|&i| pool.get_block_location(i)).collect();
    assert_eq!(after, places);
    assert_eq!(pool.free_physical_blocks(), free);
    assert_eq!(pool.tiering.as_ref().unwrap().slot_allocator.free_ranges, ranges);
}
