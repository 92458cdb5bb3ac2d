use baseline_llm_os::config::KcmmConfig;
use baseline_llm_os::kcmm::ffi::{
    block_loc_to_c, c_str_bytes, c_str_len, default_u64_if_zero, default_usize_if_zero,
    kcmm_block_location_t, kcmm_hint_t, kcmm_protection_t, policy_from_i32, pool_config, ApiError,
    PoolSettings,
};
use baseline_llm_os::kcmm::policy::PolicyKind;
use baseline_llm_os::kcmm::pool::{BlockLocation, KcmmPool, PoolError, SequencePriority};
use baseline_llm_os::kcmm::sharing::SharingManager;
use baseline_llm_os::kcmm::superblock::BlockHandle;

fn make_pool(tiering: bool) -> KcmmPool {
    let mut config = KcmmConfig::default();
    config.max_blocks = 256;
    config.tiering = tiering;
    KcmmPool::new(
        config,
        2,
        4,
        64,
        4,
        64,
        vec![0x7000_0000_0000, 0x7001_0000_0000],
        vec![0x7100_0000_0000, 0x7101_0000_0000],
        false,
    )
}

fn grant() -> Vec<Vec<u64>> {
    vec![vec![11, 12, 13, 14]]
}

#[test]
fn numbers_name_policies() {
    assert_eq!(policy_from_i32(0), "lru");
    assert_eq!(policy_from_i32(1), "lfu");
    assert_eq!(policy_from_i32(2), "fifo");
    assert_eq!(policy_from_i32(-7), "lru");
}

#[test]
fn zero_stands_for_the_default() {
    assert_eq!(default_usize_if_zero(0, 16), 16);
    assert_eq!(default_usize_if_zero(3, 16), 3);
    assert_eq!(default_u64_if_zero(0, 100), 100);
    assert_eq!(default_u64_if_zero(5, 100), 5);
    let zero = PoolSettings {
        block_size: 0,
        max_blocks: 0,
        cpu_cache_path: String::new(),
        tiering: 1,
        eviction_policy: 2,
        prefetch_window: 0,
        max_batch_blocks: 0,
        background_evict_interval_ms: 0,
        attention_sink_blocks: 0,
        recent_window_blocks: 0,
    };
    let config = pool_config(zero);
    assert_eq!(config.block_size, 16);
    assert_eq!(config.max_blocks, 16384);
    assert_eq!(config.cpu_cache_path, "/dev/shm/kcmm_swap");
    assert!(config.tiering);
    assert_eq!(config.eviction_policy, "fifo");
    assert_eq!(config.prefetch_window, 4);
    assert_eq!(config.max_batch_blocks, 64);
    assert_eq!(config.background_evict_interval_ms, 100);
    assert_eq!(config.attention_sink_blocks, 1);
    assert_eq!(config.recent_window_blocks, 4);
}

#[test]
fn locations_have_names() {
    let h = BlockHandle { superblock_idx: 0, block_index: 0 };
    assert_eq!(
        block_loc_to_c(&BlockLocation::GpuResident(h, 0)),
        kcmm_block_location_t::KCMM_LOC_GPU_RESIDENT
    );
    assert_eq!(
        block_loc_to_c(&BlockLocation::CpuResident(0)),
        kcmm_block_location_t::KCMM_LOC_CPU_RESIDENT
    );
    assert_eq!(
        block_loc_to_c(&BlockLocation::NvmeResident(0)),
        kcmm_block_location_t::KCMM_LOC_NVME_RESIDENT
    );
    assert_eq!(
        block_loc_to_c(&BlockLocation::Evicting),
        kcmm_block_location_t::KCMM_LOC_EVICTING
    );
    assert_eq!(
        block_loc_to_c(&BlockLocation::Restoring),
        kcmm_block_location_t::KCMM_LOC_RESTORING
    );
}

#[test]
fn texts_end_with_a_zero_byte() {
    assert_eq!(c_str_len(b"abc\0def"), 3);
    assert_eq!(c_str_len(b"abc"), 3);
    assert_eq!(c_str_bytes(b"abc", 8), b"abc\0".to_vec());
    assert_eq!(c_str_bytes(b"abc", 4), b"abc\0".to_vec());
    assert!(c_str_bytes(b"abc", 3).is_empty());
    assert!(c_str_bytes(b"abcd", 4).is_empty());
    assert!(c_str_bytes(b"abc", 0).is_empty());
}

#[test]
fn hints_change_sequences() {
    let mut pool = make_pool(true);
    let table = pool.alloc_sequence(1, &grant(), 0).unwrap();
    let seq = pool.register_sequence(table);
    assert_eq!(pool.hint(seq as u32, kcmm_hint_t::KCMM_HINT_LOW_PRIORITY, 1), Ok(()));
    assert_eq!(pool.sequence_priority(seq), SequencePriority::Low);
    assert!(!pool.is_active(seq));
    assert_eq!(pool.hint(seq as u32, kcmm_hint_t::KCMM_HINT_HIGH_PRIORITY, 1), Ok(()));
    assert_eq!(pool.sequence_priority(seq), SequencePriority::High);
    assert!(pool.is_active(seq));
    assert_eq!(pool.hint(seq as u32, kcmm_hint_t::KCMM_HINT_EVICTABLE, 1), Ok(()));
    assert_eq!(pool.sequence_priority(seq), SequencePriority::Evictable);
    assert_eq!(
        pool.hint(9, kcmm_hint_t::KCMM_HINT_EVICTABLE, 1),
        Err(ApiError::SequenceOutOfBounds(9))
    );
}

#[test]
fn a_hint_counts_as_an_access() {
    let mut pool = make_pool(true);
    let table = pool.alloc_sequence(1, &grant(), 0).unwrap();
    let other = pool.alloc_block(&vec![], 5).unwrap();
    let first = pool.get_block_handle(table[0]).unwrap();
    let second = pool.get_block_handle(other).unwrap();
    let seq = pool.register_sequence(table);
    let policy = &pool.tiering.as_ref().unwrap().eviction_policy;
    assert_eq!(policy.select_victims(&[first, second], 1), vec![first]);
    pool.hint(seq as u32, kcmm_hint_t::KCMM_HINT_MULTI_TURN, 9).unwrap();
    let policy = &pool.tiering.as_ref().unwrap().eviction_policy;
    assert_eq!(policy.select_victims(&[first, second], 1), vec![second]);
}

#[test]
fn protected_blocks_count_as_accessed() {
    let mut pool = make_pool(true);
    let table = pool.alloc_sequence(2, &grant(), 0).unwrap();
    let handles: Vec<BlockHandle> =
        table.iter().map(|i| pool.get_block_handle(*i).unwrap()).collect();
    let level = kcmm_protection_t::KCMM_PROTECT_PREFERRED;
    assert_eq!(pool.protect(&vec![table[0]], level, 9), Ok(()));
    let policy = &pool.tiering.as_ref().unwrap().eviction_policy;
    assert_eq!(policy.select_victims(&handles, 1), vec![handles[1]]);
    assert_eq!(pool.protect(&vec![77], level, 9), Err(ApiError::BlockNotFound(77)));
    assert_eq!(make_pool(false).protect(&vec![77], level, 9), Ok(()));
}

#[test]
fn resident_blocks_are_candidates() {
    let mut pool = make_pool(true);
    let table = pool.alloc_sequence(3, &grant(), 0).unwrap();
    assert_eq!(pool.evict_candidates().len(), 3);
    pool.set_block_location(table[1], BlockLocation::CpuResident(0)).unwrap();
    let handles = pool.evict_candidates();
    assert_eq!(handles.len(), 2);
    assert!(!handles.contains(&pool.get_block_handle(table[1]).unwrap()));
    assert!(pool.is_gpu_resident(table[0]));
    assert!(!pool.is_gpu_resident(table[1]));
    assert!(!pool.is_gpu_resident(99));
}

#[test]
fn layers_have_bases() {
    let pool = make_pool(false);
    assert_eq!(pool.layer_base(1, false), 0x7001_0000_0000);
    assert_eq!(pool.layer_base(1, true), 0x7101_0000_0000);
    assert_eq!(pool.layer_base(2, true), 0);
}

#[test]
fn blocks_are_appended_to_known_sequences() {
    let mut pool = make_pool(false);
    let seq = pool.register_sequence(vec![]);
    assert_eq!(pool.append_block_checked(seq as u32, 3), Ok(()));
    assert_eq!(pool.get_block_table(seq), Some(vec![3]));
    assert_eq!(
        pool.append_block_checked(9, 3),
        Err(ApiError::SequenceOutOfBounds(9))
    );
}

#[test]
fn policies_are_replaced_by_name() {
    let mut pool = make_pool(true);
    assert_eq!(pool.current_policy_name(), Some("lru"));
    assert_eq!(pool.set_eviction_policy("LFU"), Ok(()));
    assert_eq!(pool.current_policy_name(), Some("lfu"));
    assert_eq!(
        pool.tiering.as_ref().unwrap().eviction_policy.kind(),
        PolicyKind::Lfu
    );
    assert_eq!(pool.set_eviction_policy("random"), Err(ApiError::UnknownPolicy));
    assert_eq!(pool.current_policy_name(), Some("lfu"));
    let mut plain = make_pool(false);
    assert_eq!(plain.set_eviction_policy("lru"), Err(ApiError::TieringDisabled));
    assert_eq!(plain.current_policy_name(), None);
}

#[test]
fn checked_appends_report_their_errors() {
    let mut pool = make_pool(false);
    let table = pool.alloc_sequence(1, &grant(), 0).unwrap();
    let seq = pool.register_sequence(table);
    assert_eq!(
        pool.append_kv_step_checked(7, &[seq as u32], &[0], 0, 0).unwrap_err(),
        PoolError::LayerOutOfBounds(7)
    );
    let plan = pool.append_kv_step_checked(0, &[42], &[0], 0, 0).unwrap();
    assert!(plan.copies.is_empty());
    assert!(plan.error.is_some());
    let plan = pool.append_kv_step_checked(0, &[seq as u32], &[0], 0, 0).unwrap();
    assert_eq!(plan.copies.len(), 1);
    assert!(plan.error.is_none());
    // a negative slot is padding
    let plan = pool.append_kv_slots(0, &[-1], 0, 0).unwrap();
    assert!(plan.copies.is_empty() && plan.error.is_none());
    let plan = pool.append_kv_slots(0, &[1 << 20], 0, 0).unwrap();
    assert!(plan.error.is_some());
}

#[test]
fn prefixes_are_not_shared_yet() {
    let mut sharing = SharingManager::new(64);
    let h = BlockHandle { superblock_idx: 0, block_index: 1 };
    sharing.register_prefix(7, vec![h]);
    assert!(sharing.try_share_prefix(7).is_none());
    sharing.incref(h);
    assert!(!sharing.decref(h));
    assert_eq!(sharing.max_prefix_len, 64);
    sharing.prefix_index.insert(7, vec![h]);
    assert_eq!(sharing.try_share_prefix(7).unwrap(), &[h]);
}
