use baseline_llm_os::batch::admission::{prompt_blocks, Admission, AdmitAction, AdmitPhase};
use baseline_llm_os::batch::continuous_scheduler::{
    CacheBackend, Completed, ContinuousScheduler, RequestState, RunningRequest, VictimRank,
    WaitingRequest,
};
use baseline_llm_os::batch::restoration::RestoreAction;
use baseline_llm_os::batch::static_batch::{
    acquire_slots, release_slots, InferenceRequest, StaticBatch,
};
use baseline_llm_os::batch::step::RoundDecision;
use baseline_llm_os::cache::kv_cache::SlotAllocator;
use baseline_llm_os::cache::paged_kv::PagedKvCache;
use baseline_llm_os::cache::swap::{advance_epoch, EvictedSeqData};
use baseline_llm_os::config::{KcmmConfig, ModelConfig};
use baseline_llm_os::kcmm::evict::{EvictPlan, EvictRun, EvictStep};
use baseline_llm_os::kcmm::pool::{KcmmPool, SequencePriority};
use baseline_llm_os::kcmm::restore::RestoreStart;
use baseline_llm_os::kcmm::superblock::BlockHandle;

fn small_config() -> ModelConfig {
    ModelConfig {
        hidden_size: 512,
        intermediate_size: 2048,
        num_hidden_layers: 4,
        num_attention_heads: 8,
        num_key_value_heads: Some(8),
        vocab_size: 1000,
        max_position_embeddings: 256,
        torch_dtype: "float16".to_string(),
    }
}

/// A configuration of which two blocks fill a superblock.
fn large_config() -> ModelConfig {
    ModelConfig {
        hidden_size: 64 * 512,
        intermediate_size: 2048,
        num_hidden_layers: 1,
        num_attention_heads: 64,
        num_key_value_heads: None,
        vocab_size: 1000,
        max_position_embeddings: 256,
        torch_dtype: "float16".to_string(),
    }
}

fn regions(layers: usize, base: u64) -> Vec<u64> {
    (0..layers as u64).map(|l| base + l * 0x1_0000_0000).collect()
}

fn baseline(cfg: &ModelConfig) -> CacheBackend {
    let layers = cfg.num_hidden_layers;
    CacheBackend::Baseline(PagedKvCache::new(
        cfg.clone(),
        4,
        64,
        16,
        regions(layers, 0x7000_0000_0000),
        regions(layers, 0x7100_0000_0000),
    ))
}

fn tiered(cfg: &ModelConfig) -> CacheBackend {
    let layers = cfg.num_hidden_layers;
    let mut config = KcmmConfig::default();
    config.max_blocks = 16;
    CacheBackend::Kcmm(KcmmPool::new(
        config,
        layers,
        cfg.kv_heads(),
        cfg.head_dim(),
        4,
        64,
        regions(layers, 0x7000_0000_0000),
        regions(layers, 0x7100_0000_0000),
        false,
    ))
}

fn request(id: u64, prompt: Vec<u32>, max_new: usize, eos: u32) -> InferenceRequest {
    InferenceRequest {
        id,
        prompt_tokens: prompt,
        max_new_tokens: max_new,
        eos_token_id: eos,
    }
}

/// A GPU with a number of superblocks left, and a model that always samples
/// token 0.
struct Machine {
    layers: usize,
    superblocks_left: usize,
    preemptions: usize,
}

impl Machine {
    fn grants(&mut self, wanted: usize) -> Vec<Vec<u64>> {
        let n = wanted.min(self.superblocks_left);
        self.superblocks_left -= n;
        (0..n).map(|i| (0..2 * self.layers).map(|j| (i * 100 + j) as u64).collect()).collect()
    }

    fn evict(&mut self, cache: &mut CacheBackend, candidates: &[BlockHandle], n: usize) -> usize {
        let pool = match cache {
            CacheBackend::Kcmm(pool) => pool,
            CacheBackend::Baseline(_) => panic!("no tiering"),
        };
        let victims = match pool.plan_eviction(candidates, n) {
            EvictPlan::OneByOne(v) => v,
            other => panic!("unexpected plan {:?}", other),
        };
        let mut run = EvictRun::new(victims);
        loop {
            match run.advance(pool) {
                EvictStep::Copy(ctx) => run.submitted(pool, ctx, true),
                EvictStep::Synchronize => return run.synchronized(pool, true).unwrap().len(),
                EvictStep::Done => return 0,
                EvictStep::Fail(e) => panic!("eviction failed: {:?}", e),
            }
        }
    }

    fn let_in(&mut self, s: &mut ContinuousScheduler, cache: &mut CacheBackend) {
        let mut adm = Admission {
            next: 0,
            needed: 0,
            evicted: 0,
            victims_seen: 0,
            max_victims: 0,
            phase: AdmitPhase::Idle,
        };
        let mut action = s.admit_waiting(cache, &mut adm);
        loop {
            action = match action {
                AdmitAction::Done => return,
                AdmitAction::Allocate { superblocks, .. } => {
                    let grants = self.grants(superblocks);
                    s.admit_granted(cache, &mut adm, &grants, s.epoch)
                }
                AdmitAction::EvictBlocks { candidates, count } => {
                    let n = self.evict(cache, &candidates, count);
                    self.preemptions += 1;
                    s.admit_evicted(cache, &mut adm, n)
                }
                AdmitAction::SwapOut { seq_idx } => {
                    let paged = cache.paged_kv().unwrap();
                    let manager = s.swap_manager.as_mut().unwrap();
                    let plan = manager.plan_evict(paged, seq_idx).unwrap();
                    let layer = vec![0u8; plan.bytes_per_layer];
                    let data = EvictedSeqData {
                        k_layers: vec![layer.clone(); self.layers],
                        v_layers: vec![layer; self.layers],
                        num_blocks: plan.num_blocks,
                        seq_len: plan.seq_len,
                    };
                    manager.evicted(paged, plan.num_blocks);
                    self.preemptions += 1;
                    s.admit_swapped(cache, &mut adm, data)
                }
            };
        }
    }

    fn restore(&mut self, s: &mut ContinuousScheduler, cache: &mut CacheBackend) {
        let mut action = s.try_restore_swapped(cache);
        loop {
            action = match action {
                RestoreAction::Done => return,
                RestoreAction::RestoreBlocks { block_table } => {
                    if let CacheBackend::Kcmm(pool) = cache {
                        for idx in &block_table {
                            match pool.restore_begin(*idx, &vec![]) {
                                Ok(RestoreStart::Resident(_)) => {}
                                Ok(RestoreStart::Copy(ctx)) => {
                                    pool.restore_end(ctx, true, s.epoch).unwrap();
                                }
                                Err(_) => return,
                            }
                        }
                    }
                    s.blocks_restored(cache)
                }
                RestoreAction::RestoreSequence => {
                    let (n, len) = (s.swapped[0].num_blocks, s.swapped[0].position);
                    let manager = s.swap_manager.as_mut().unwrap();
                    let table = match cache {
                        CacheBackend::Baseline(paged) => {
                            match manager.begin_restore(paged, n, len, &vec![]) {
                                Ok((table, _)) => {
                                    manager.restored(paged, n);
                                    table
                                }
                                Err(_) => return,
                            }
                        }
                        CacheBackend::Kcmm(_) => panic!("pool restores by block"),
                    };
                    s.sequence_restored(cache, table)
                }
            };
        }
    }

    /// Runs until nothing is left to do.
    fn run(&mut self, s: &mut ContinuousScheduler, cache: &mut CacheBackend) -> Vec<Completed> {
        let mut out = Vec::new();
        loop {
            advance_epoch(&mut s.epoch);
            self.let_in(s, cache);
            self.restore(s, cache);
            if s.decide(false) == RoundDecision::Restore {
                self.restore(s, cache);
            }
            if s.decide(true) == RoundDecision::Wait {
                return out;
            }
            let mut from = 0;
            while let Some(i) = s.next_growth(from) {
                let wanted = cache.superblocks_needed(1);
                let grants = self.grants(wanted);
                from = s.grow(cache, i, &grants, s.epoch);
            }
            s.mark_accessed(cache);
            let n = s.step_inputs().seq_indices.len();
            s.apply_step(cache, &vec![0; n]);
            s.record_fragmentation_snapshot(cache);
            out.extend(s.drain_completed_swapped(cache));
            let (done, freed) = s.remove_completed(cache);
            out.extend(done);
            if freed > 0 {
                self.restore(s, cache);
            }
        }
    }
}

fn run_baseline(requests: Vec<InferenceRequest>) -> Vec<Completed> {
    let cfg = small_config();
    let mut cache = baseline(&cfg);
    let mut machine = Machine { layers: 4, superblocks_left: 100, preemptions: 0 };
    let mut s = ContinuousScheduler::new(cfg, 4, 64, false, true);
    for (t, req) in requests.into_iter().enumerate() {
        s.waiting.push(WaitingRequest { req, ticket: t as u64 });
    }
    let out = machine.run(&mut s, &mut cache);
    assert_eq!(cache.paged_kv().unwrap().blocks_in_use(), 0);
    out
}

#[test]
fn e2e_continuous_single_request() {
    let out = run_baseline(vec![request(100, vec![1, 2, 3], 3, 2)]);
    assert_eq!(out.len(), 1);
    let resp = &out[0];
    assert_eq!(resp.id, 100);
    assert_eq!(resp.generated_tokens.len(), 3, "should generate max_new_tokens");
    assert!(
        resp.generated_tokens.iter().all(|&t| t == 0),
        "zero weights produce token 0, got {:?}",
        resp.generated_tokens,
    );
}

#[test]
fn e2e_continuous_eos_termination() {
    let out = run_baseline(vec![request(200, vec![5, 6], 100, 0)]);
    let resp = &out[0];
    assert_eq!(resp.id, 200);
    assert_eq!(resp.generated_tokens.len(), 1, "should stop at EOS token 0");
    assert_eq!(resp.generated_tokens[0], 0);
}

#[test]
fn e2e_multiple_requests() {
    let out =
        run_baseline((0..4).map(|i| request(300 + i, vec![1, 2, 3], 3, 2)).collect());
    assert_eq!(out.len(), 4);
    for resp in &out {
        assert_eq!(resp.generated_tokens.len(), 3);
        assert!(resp.generated_tokens.iter().all(|&t| t == 0));
    }
    let mut ids: Vec<u64> = out.iter().map(|c| c.id).collect();
    ids.sort();
    assert_eq!(ids, vec![300, 301, 302, 303]);
}

#[test]
fn long_answers_grow_their_sequence() {
    let out = run_baseline(vec![request(7, vec![1; 15], 40, 2)]);
    assert_eq!(out[0].generated_tokens.len(), 40);
    assert_eq!(out[0].ticket, 0);
}

#[test]
fn answers_end_at_the_longest_sequence() {
    let out = run_baseline(vec![request(7, vec![1; 60], 40, 2)]);
    assert_eq!(out[0].generated_tokens.len(), 4);
}

fn check_preempted(cache: &mut CacheBackend, s: &mut ContinuousScheduler) {
    let mut machine = Machine { layers: 1, superblocks_left: 1, preemptions: 0 };
    for t in 0..3 {
        s.waiting.push(WaitingRequest {
            req: request(10 + t, vec![1; 10], 3, 2),
            ticket: 70 + t,
        });
    }
    let mut out = machine.run(s, cache);
    assert!(machine.preemptions > 0);
    assert!(s.running.is_empty() && s.waiting.is_empty() && s.swapped.is_empty());
    out.sort_by_key(|c| c.id);
    assert_eq!(out.len(), 3);
    for (i, c) in out.iter().enumerate() {
        assert_eq!(c.id, 10 + i as u64);
        assert_eq!(c.ticket, 70 + i as u64);
        assert_eq!(c.generated_tokens, vec![0, 0, 0]);
    }
}

#[test]
fn preempted_requests_are_answered_by_the_tiered_pool() {
    let cfg = large_config();
    let mut cache = tiered(&cfg);
    let mut s = ContinuousScheduler::new(cfg, 4, 64, true, false);
    assert!(s.swap_manager.is_none());
    check_preempted(&mut cache, &mut s);
    assert_eq!(cache.kcmm_pool().unwrap().blocks_in_use(), 0);
    assert_eq!(cache.kcmm_pool().unwrap().free_physical_blocks(), 2);
}

#[test]
fn preempted_requests_are_answered_by_the_plain_cache() {
    let cfg = large_config();
    let mut cache = baseline(&cfg);
    let mut s = ContinuousScheduler::new(cfg, 4, 64, false, false);
    check_preempted(&mut cache, &mut s);
    assert_eq!(cache.paged_kv().unwrap().blocks_in_use(), 0);
}

#[test]
fn without_swap_a_request_is_deferred() {
    let cfg = large_config();
    let mut cache = baseline(&cfg);
    let mut s = ContinuousScheduler::new(cfg, 4, 64, false, true);
    let mut machine = Machine { layers: 1, superblocks_left: 1, preemptions: 0 };
    for t in 0..3 {
        s.waiting.push(WaitingRequest { req: request(t, vec![1; 10], 3, 2), ticket: t });
    }
    machine.let_in(&mut s, &mut cache);
    assert_eq!(s.running.len(), 2);
    assert_eq!(s.waiting.len(), 1);
    assert_eq!(s.waiting[0].ticket, 2);
    assert_eq!(machine.preemptions, 0);
}

#[test]
fn the_batch_is_never_overfull() {
    let cfg = small_config();
    let mut cache = baseline(&cfg);
    let mut s = ContinuousScheduler::new(cfg, 2, 64, false, true);
    let mut machine = Machine { layers: 4, superblocks_left: 9, preemptions: 0 };
    for t in 0..3 {
        s.waiting.push(WaitingRequest { req: request(t, vec![1], 3, 2), ticket: t });
    }
    machine.let_in(&mut s, &mut cache);
    assert_eq!(s.running.len(), 2);
    assert_eq!(s.decide(false), RoundDecision::Step);
    let inputs = s.step_inputs();
    assert_eq!(inputs.seq_indices, vec![0, 1]);
    assert_eq!(inputs.positions, vec![0, 0]);
    assert_eq!(inputs.token_ids, vec![1, 1]);
}

#[test]
fn an_idle_scheduler_waits() {
    let s = ContinuousScheduler::new(small_config(), 2, 64, false, true);
    assert_eq!(s.decide(false), RoundDecision::Wait);
}

#[test]
fn prompts_fill_whole_blocks() {
    assert_eq!(prompt_blocks(0), 0);
    assert_eq!(prompt_blocks(1), 1);
    assert_eq!(prompt_blocks(16), 1);
    assert_eq!(prompt_blocks(17), 2);
}

// Victims

fn running(id: u64, state: RequestState, seq_idx: usize, num_blocks: usize) -> RunningRequest {
    RunningRequest {
        req: request(id, vec![1], 10, 2),
        ticket: 0,
        state,
        position: 0,
        seq_idx,
        num_blocks,
        generated: vec![],
    }
}

#[test]
fn test_select_victim_logic() {
    let mut sched = ContinuousScheduler::new(small_config(), 4, 64, false, true);
    let running = vec![
        running(10, RequestState::Decode, 100, 3),
        running(20, RequestState::Decode, 200, 5),
        running(30, RequestState::Prefill { prompt_pos: 0 }, 300, 2),
    ];

    let victim = sched.select_victim(&running, None);
    assert!(victim.is_some());
    let idx = victim.unwrap();
    assert_eq!(idx, 1, "should pick seq 200 (more blocks, same epoch)");

    sched.seq_last_epoch.insert(100, 10);
    let victim2 = sched.select_victim(&running, None);
    assert_eq!(victim2, Some(1), "should pick seq 200 (older epoch 0)");

    sched.seq_last_epoch.insert(200, 5);
    let victim3 = sched.select_victim(&running, None);
    assert_eq!(victim3, Some(1), "should pick seq 200 (epoch 5 < epoch 10)");

    let victim4 = sched.select_victim(&running[2..3], None);
    assert_eq!(victim4, Some(0), "should fall back to prefill-only sequence");

    let victim5 = sched.select_victim(&[], None);
    assert!(victim5.is_none());
}

#[test]
fn test_select_victim_skips_prefill() {
    let sched = ContinuousScheduler::new(small_config(), 4, 64, false, true);
    let running = vec![
        // many blocks, but in prefill
        running(50, RequestState::Prefill { prompt_pos: 0 }, 50, 10),
        // few blocks, but in decode
        running(60, RequestState::Decode, 60, 1),
    ];

    let victim = sched.select_victim(&running, None);
    assert_eq!(victim, Some(1), "should pick decode-stage seq 60, not prefill seq 50");
}

#[test]
fn low_priority_goes_first() {
    let cfg = large_config();
    let mut cache = tiered(&cfg);
    let (a, b) = match &mut cache {
        CacheBackend::Kcmm(pool) => {
            let a = pool.register_sequence(vec![]);
            let b = pool.register_sequence(vec![]);
            pool.set_sequence_priority(b, SequencePriority::Low);
            (a, b)
        }
        CacheBackend::Baseline(_) => panic!("tiered"),
    };
    let mut sched = ContinuousScheduler::new(cfg, 4, 64, true, false);
    sched.seq_last_epoch.insert(b as u64, 9);
    let running =
        vec![running(1, RequestState::Decode, a, 8), running(2, RequestState::Decode, b, 1)];
    assert_eq!(sched.select_victim(&running, cache.kcmm_pool()), Some(1));
    assert_eq!(sched.select_victim(&running, None), Some(0));
}

#[test]
fn ranks_compare_tier_epoch_and_blocks() {
    let r = VictimRank { tier: 2, epoch: 5, blocks: 3 };
    assert!(VictimRank { tier: 1, epoch: 9, blocks: 0 }.goes_before(r));
    assert!(VictimRank { tier: 2, epoch: 4, blocks: 0 }.goes_before(r));
    assert!(VictimRank { tier: 2, epoch: 5, blocks: 4 }.goes_before(r));
    assert!(!r.goes_before(r));
}

// Static batches

fn run_static(requests: Vec<InferenceRequest>) -> Vec<Vec<u32>> {
    let n = requests.len();
    let mut slots = SlotAllocator::new(4);
    let ids = acquire_slots(&mut slots, n);
    assert_eq!(ids.len(), n);
    let mut batch = StaticBatch::new(requests, 64);
    while batch.wants_step() {
        batch.advance(&vec![0; n]);
    }
    release_slots(&mut slots, &ids);
    assert_eq!(slots.free_count(), 4);
    batch.outputs
}

#[test]
fn e2e_single_request_lifecycle() {
    let out = run_static(vec![request(42, vec![1, 2, 3, 4, 5], 5, 2)]);
    assert_eq!(out[0].len(), 5, "should generate max_new_tokens");
    assert!(
        out[0].iter().all(|&t| t == 0),
        "zero weights produce token 0, got {:?}",
        out[0]
    );
}

#[test]
fn e2e_batch_two_requests() {
    let out = run_static(vec![
        request(1, vec![10, 20], 3, 2),
        request(2, vec![30, 40, 50], 4, 2),
    ]);
    assert_eq!(out[0].len(), 3);
    assert!(out[0].iter().all(|&t| t == 0));
    assert_eq!(out[1].len(), 4);
    assert!(out[1].iter().all(|&t| t == 0));
}

#[test]
fn e2e_eos_termination() {
    let out = run_static(vec![request(99, vec![7, 8, 9], 100, 0)]);
    assert_eq!(out[0].len(), 1, "should stop at EOS token 0");
    assert_eq!(out[0][0], 0);
}

#[test]
fn a_static_batch_ends_at_the_longest_sequence() {
    let out = run_static(vec![request(1, vec![1; 62], 100, 2)]);
    assert_eq!(out[0].len(), 2);
    assert_eq!(StaticBatch::max_prompt(&vec![request(1, vec![1; 62], 1, 2)]), 62);
    assert_eq!(StaticBatch::max_prompt(&vec![]), 0);
}

#[test]
fn the_first_token_is_the_last_of_the_prompt() {
    let requests = vec![request(1, vec![4, 5, 6], 2, 9), request(2, vec![], 2, 9)];
    assert_eq!(StaticBatch::first_tokens(&requests), vec![6, 0]);
}

#[test]
fn answers_are_whole_when_no_step_is_left() {
    let requests = vec![
        request(1, vec![4], 3, 9),
        request(2, vec![4, 5], 1, 9),
        request(3, vec![4], 5, 9),
        request(4, vec![4], 0, 9),
    ];
    let mut batch = StaticBatch::new(requests, 64);
    let mut step: u32 = 0;
    while batch.wants_step() {
        let eos = if step == 1 { 9 } else { 7 };
        batch.advance(&vec![7, 7, eos, 7]);
        step += 1;
    }
    assert_eq!(batch.outputs[0], vec![7, 7, 7]);
    assert_eq!(batch.outputs[1], vec![7]);
    assert_eq!(batch.outputs[2], vec![7, 9]);
    assert_eq!(batch.outputs[3], vec![7]);
    let none = StaticBatch::new(vec![request(5, vec![4], 0, 9)], 64);
    assert!(!none.wants_step());
    assert!(none.outputs[0].is_empty());
}

#[test]
fn a_round_loses_and_doubles_no_request() {
    let cfg = large_config();
    for kcmm in [false, true] {
        let mut cache = if kcmm { tiered(&cfg) } else { baseline(&cfg) };
        let mut s = ContinuousScheduler::new(cfg.clone(), 4, 64, kcmm, false);
        let mut machine = Machine { layers: 1, superblocks_left: 1, preemptions: 0 };
        for t in 0..5 {
            s.waiting.push(WaitingRequest { req: request(t, vec![1; 10], 3, 2), ticket: t });
        }
        machine.let_in(&mut s, &mut cache);
        assert!(s.running.len() <= 4);
        let waiting: Vec<u64> = s.waiting.iter().map(|w| w.ticket).collect();
        assert!(waiting.windows(2).all(|w| w[0] < w[1]));
        let mut all = waiting;
        all.extend(s.running.iter().map(|r| r.ticket));
        all.extend(s.swapped.iter().map(|w| w.ticket));
        all.sort();
        assert_eq!(all, vec![0, 1, 2, 3, 4]);
    }
}
