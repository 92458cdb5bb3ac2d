use baseline_llm_os::kcmm::policy::{
    EvictionPolicy, FifoPolicy, LfuPolicy, LruPolicy, Policy, PolicyKind,
};
use baseline_llm_os::kcmm::superblock::BlockHandle;

fn bh(sb: u32, blk: u32) -> BlockHandle {
    BlockHandle { superblock_idx: sb, block_index: blk }
}

#[test]
fn tiering_test_new_is_empty() {
    assert!(LruPolicy::new().access_times.is_empty());
    assert!(LfuPolicy::new().access_counts.is_empty());
    assert!(FifoPolicy::new().alloc_times.is_empty());
}

#[test]
fn tiering_test_on_allocate_inserts_timestamp() {
    let h = bh(0, 0);
    let mut lru = LruPolicy::new();
    lru.on_allocate(h, 5);
    assert!(lru.access_times.contains_key(&h.key()));
    let mut fifo = FifoPolicy::new();
    fifo.on_allocate(h, 5);
    assert!(fifo.alloc_times.contains_key(&h.key()));
}

#[test]
fn test_on_access_inserts_timestamp() {
    let mut policy = LruPolicy::new();
    let h = bh(0, 0);
    policy.on_access(h, 1);
    assert!(policy.access_times.contains_key(&h.key()));
}

#[test]
fn test_on_access_updates_timestamp() {
    let mut policy = LruPolicy::new();
    let h = bh(0, 0);
    policy.on_access(h, 10);
    let t1 = *policy.access_times.get(&h.key()).unwrap();
    policy.on_access(h, 15);
    let t2 = *policy.access_times.get(&h.key()).unwrap();
    assert!(t2 > t1, "LRU on_access should update timestamp");
}

#[test]
fn tiering_test_on_evict_removes_entry() {
    let h = bh(0, 0);
    let mut lru = LruPolicy::new();
    lru.on_allocate(h, 1);
    assert!(lru.access_times.contains_key(&h.key()));
    lru.on_evict(h);
    assert!(!lru.access_times.contains_key(&h.key()));

    let mut lfu = LfuPolicy::new();
    lfu.on_allocate(h, 1);
    lfu.on_access(h, 2);
    lfu.on_access(h, 3);
    assert_eq!(*lfu.access_counts.get(&h.key()).unwrap(), 3);
    lfu.on_evict(h);
    assert!(!lfu.access_counts.contains_key(&h.key()));

    let mut fifo = FifoPolicy::new();
    fifo.on_allocate(h, 1);
    assert!(fifo.alloc_times.contains_key(&h.key()));
    fifo.on_evict(h);
    assert!(!fifo.alloc_times.contains_key(&h.key()));
}

#[test]
fn tiering_test_select_victims_empty_candidates() {
    assert!(LruPolicy::new().select_victims(&[], 5).is_empty());
    assert!(LfuPolicy::new().select_victims(&[], 5).is_empty());
    assert!(FifoPolicy::new().select_victims(&[], 5).is_empty());
}

#[test]
fn tiering_test_select_victims_zero_count() {
    let mut lru = LruPolicy::new();
    lru.on_allocate(bh(0, 0), 1);
    assert!(lru.select_victims(&[bh(0, 0)], 0).is_empty());
    let mut lfu = LfuPolicy::new();
    lfu.on_allocate(bh(0, 0), 1);
    assert!(lfu.select_victims(&[bh(0, 0)], 0).is_empty());
    let mut fifo = FifoPolicy::new();
    fifo.on_allocate(bh(0, 0), 1);
    assert!(fifo.select_victims(&[bh(0, 0)], 0).is_empty());
}

#[test]
fn test_select_victims_oldest_first() {
    let mut policy = LruPolicy::new();
    let h0 = bh(0, 0);
    let h1 = bh(0, 1);
    let h2 = bh(0, 2);

    policy.on_allocate(h0, 1); // oldest
    policy.on_allocate(h1, 3);
    policy.on_allocate(h2, 5); // newest

    let victims = policy.select_victims(&[h0, h1, h2], 2);
    assert_eq!(victims.len(), 2);
    assert_eq!(victims[0], h0, "oldest (h0) should be first victim");
    assert_eq!(victims[1], h1, "second oldest (h1) should be second victim");
}

#[test]
fn tiering_test_select_victims_respects_count() {
    let candidates: Vec<BlockHandle> = (0..10).map(|i| bh(0, i)).collect();

    let mut lru = LruPolicy::new();
    for i in 0..10 {
        lru.on_allocate(bh(0, i), i as u64);
    }
    let victims = lru.select_victims(&candidates, 3);
    assert_eq!(victims.len(), 3);
    assert_eq!(victims[0], bh(0, 0));
    assert_eq!(victims[1], bh(0, 1));
    assert_eq!(victims[2], bh(0, 2));

    let mut lfu = LfuPolicy::new();
    for i in 0..5 {
        for _ in 0..(i + 1) {
            lfu.on_access(bh(0, i), 0);
        }
    }
    let victims = lfu.select_victims(&candidates[..5], 2);
    assert_eq!(victims.len(), 2);
    assert_eq!(victims[0], bh(0, 0)); // count=1
    assert_eq!(victims[1], bh(0, 1)); // count=2

    let mut fifo = FifoPolicy::new();
    for i in 0..10 {
        fifo.on_allocate(bh(0, i), i as u64);
    }
    let victims = fifo.select_victims(&candidates, 4);
    assert_eq!(victims.len(), 4);
    assert_eq!(victims[0], bh(0, 0));
    assert_eq!(victims[1], bh(0, 1));
    assert_eq!(victims[2], bh(0, 2));
    assert_eq!(victims[3], bh(0, 3));
}

#[test]
fn tiering_test_select_victims_count_exceeds_candidates() {
    let both = [bh(0, 0), bh(0, 1)];
    let mut lru = LruPolicy::new();
    lru.on_allocate(bh(0, 0), 1);
    lru.on_allocate(bh(0, 1), 1);
    assert_eq!(lru.select_victims(&both, 10).len(), 2);
    let mut lfu = LfuPolicy::new();
    lfu.on_allocate(bh(0, 0), 1);
    lfu.on_allocate(bh(0, 1), 1);
    assert_eq!(lfu.select_victims(&both, 10).len(), 2);
    let mut fifo = FifoPolicy::new();
    fifo.on_allocate(bh(0, 0), 1);
    fifo.on_allocate(bh(0, 1), 1);
    assert_eq!(fifo.select_victims(&both, 10).len(), 2);
}

#[test]
fn tiering_test_select_victims_untracked_blocks_skipped() {
    // bh(0, 1) is not tracked
    let both = [bh(0, 0), bh(0, 1)];
    let mut lru = LruPolicy::new();
    lru.on_allocate(bh(0, 0), 1);
    assert_eq!(lru.select_victims(&both, 2), vec![bh(0, 0)]);
    let mut lfu = LfuPolicy::new();
    lfu.on_allocate(bh(0, 0), 1);
    assert_eq!(lfu.select_victims(&both, 2), vec![bh(0, 0)]);
    let mut fifo = FifoPolicy::new();
    fifo.on_allocate(bh(0, 0), 1);
    assert_eq!(fifo.select_victims(&both, 2), vec![bh(0, 0)]);
}

#[test]
fn test_on_allocate_sets_count_to_one() {
    let mut policy = LfuPolicy::new();
    let h = bh(0, 0);
    policy.on_allocate(h, 9);
    assert_eq!(*policy.access_counts.get(&h.key()).unwrap(), 1);
}

#[test]
fn test_on_access_increments_count() {
    let mut policy = LfuPolicy::new();
    let h = bh(0, 0);
    policy.on_access(h, 0);
    assert_eq!(*policy.access_counts.get(&h.key()).unwrap(), 1);
    policy.on_access(h, 0);
    assert_eq!(*policy.access_counts.get(&h.key()).unwrap(), 2);
    policy.on_access(h, 0);
    assert_eq!(*policy.access_counts.get(&h.key()).unwrap(), 3);
}

#[test]
fn test_select_victims_least_frequent_first() {
    let mut policy = LfuPolicy::new();
    let h0 = bh(0, 0); // accessed 1 time
    let h1 = bh(0, 1); // accessed 3 times
    let h2 = bh(0, 2); // accessed 2 times

    policy.on_access(h0, 0);
    for _ in 0..3 {
        policy.on_access(h1, 0);
    }
    for _ in 0..2 {
        policy.on_access(h2, 0);
    }

    let victims = policy.select_victims(&[h0, h1, h2], 3);
    assert_eq!(victims.len(), 3);
    assert_eq!(victims[0], h0, "least frequent (count=1) should be first");
    assert_eq!(victims[1], h2, "second least frequent (count=2) should be second");
    assert_eq!(victims[2], h1, "most frequent (count=3) should be last");
}

#[test]
fn test_on_access_is_noop() {
    let mut policy = FifoPolicy::new();
    let h = bh(0, 0);
    policy.on_access(h, 1);
    assert!(
        !policy.alloc_times.contains_key(&h.key()),
        "FIFO on_access must not insert untracked blocks"
    );
    policy.on_allocate(h, 2);
    let t1 = *policy.alloc_times.get(&h.key()).unwrap();
    policy.on_access(h, 7);
    let t2 = *policy.alloc_times.get(&h.key()).unwrap();
    assert_eq!(t1, t2, "FIFO on_access must NOT refresh timestamp");
}

#[test]
fn test_select_victims_earliest_allocated_first() {
    let mut policy = FifoPolicy::new();
    let h0 = bh(0, 0);
    let h1 = bh(0, 1);
    let h2 = bh(0, 2);

    policy.on_allocate(h0, 1); // first allocated
    policy.on_allocate(h1, 3); // second allocated
    policy.on_allocate(h2, 5); // third allocated

    let victims = policy.select_victims(&[h0, h1, h2], 2);
    assert_eq!(victims.len(), 2);
    assert_eq!(victims[0], h0, "earliest allocated should be first");
    assert_eq!(victims[1], h1, "second earliest should be second");
}

#[test]
fn equal_scores_keep_the_candidates_order() {
    let mut policy = Policy::of_kind(PolicyKind::Lru);
    for i in 0..4 {
        policy.on_allocate(bh(0, i), 7);
    }
    let candidates = [bh(0, 2), bh(0, 0), bh(0, 3), bh(0, 1)];
    assert_eq!(policy.select_victims(&candidates, 3), candidates[..3].to_vec());
}

#[test]
fn the_most_recent_access_is_spared() {
    let mut policy = Policy::of_kind(PolicyKind::Lru);
    for i in 0..4 {
        policy.on_allocate(bh(0, i), i as u64);
    }
    policy.on_access(bh(0, 0), 50);
    let all: Vec<BlockHandle> = (0..4).map(|i| bh(0, i)).collect();
    assert_eq!(policy.select_victims(&all, 3), vec![bh(0, 1), bh(0, 2), bh(0, 3)]);
}

#[test]
fn distinct_candidates_are_chosen_once_each() {
    let mut policy = Policy::of_kind(PolicyKind::Lfu);
    for i in 0..3 {
        policy.on_allocate(bh(0, i), 1);
    }
    policy.on_access(bh(0, 1), 2);
    let candidates = [bh(0, 1), bh(0, 9), bh(0, 2), bh(0, 0)];
    let chosen = policy.select_victims(&candidates, 8);
    // a candidate without a score is left out
    assert_eq!(chosen, vec![bh(0, 2), bh(0, 0), bh(0, 1)]);
    assert_eq!(policy.select_victims(&candidates, 2), chosen[..2].to_vec());
}
