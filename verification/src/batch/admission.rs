use vstd::prelude::*;

use crate::batch::backend;
use crate::batch::backend::CacheBackend;
use crate::batch::continuous_scheduler;
use crate::batch::continuous_scheduler::{
    ContinuousScheduler, RequestState, RunningRequest, RunningView, SchedView, SwappedRequest,
    SwappedView, WaitingRequest, MAX_SWAPPED_SEQS, MAX_VICTIMS,
};
use crate::cache::paged_kv::BLOCK_SIZE;
use crate::cache::swap::EvictedSeqData;
use crate::kcmm::pool_model;
use crate::kcmm::pool_model::PoolView;
use crate::kcmm::superblock::{BlockHandle, INDEX_COUNT, SUPERBLOCK_SIZE};

verus! {

/// What an admission round waits for.
#[derive(Debug, Clone, Copy, PartialEq, Eq, Structural)]
pub enum AdmitPhase {
    /// Nothing: the round is over, or has not begun.
    Idle,
    /// Memory for the next waiting request.
    Allocating,
    /// Some of a running request's blocks to leave the GPU.
    Evicting { victim: usize, candidates: usize },
    /// A running request's sequence to be copied to the host.
    Swapping { victim: usize },
}

/// A round in which waiting requests are admitted.
#[derive(Debug, Clone, Copy, PartialEq, Eq, Structural)]
pub struct Admission {
    /// The waiting request to look at next.
    pub next: usize,
    /// Blocks that the request lacks.
    pub needed: usize,
    /// Blocks evicted for it so far.
    pub evicted: usize,
    /// Victims looked at for it so far.
    pub victims_seen: usize,
    /// Victims to look at for it at most.
    pub max_victims: usize,
    pub phase: AdmitPhase,
}

/// What the caller has to do before the round can go on.
#[derive(Debug)]
pub enum AdmitAction {
    /// Map up to `superblocks` superblocks, so that `blocks` blocks can be
    /// allocated, and report those that were mapped.
    Allocate { blocks: usize, superblocks: usize },
    /// Evict `count` of the candidates and report how many were evicted.
    EvictBlocks { candidates: Vec<BlockHandle>, count: usize },
    /// Copy a sequence to the host and report its data.
    SwapOut { seq_idx: usize },
    /// The round is over.
    Done,
}

/// Blocks that hold `tokens` tokens.
pub open spec fn blocks_for(tokens: nat) -> nat {
    (tokens + BLOCK_SIZE - 1) as nat / BLOCK_SIZE as nat
}

/// Blocks that hold a prompt.
pub fn prompt_blocks(prompt_len: usize) -> (r: usize)
    ensures
        r == blocks_for(prompt_len as nat),
        r <= usize::MAX / 16 + 1,
{
    prompt_len / BLOCK_SIZE + if prompt_len % BLOCK_SIZE == 0 {
        0
    } else {
        1
    }
}

impl SchedView {
    /// After waiting request `i` was admitted with a sequence of `blocks`
    /// blocks.
    pub open spec fn admitted(self, i: int, seq_idx: usize, blocks: usize) -> Self {
        SchedView {
            running: self.running.push(
                RunningView {
                    req: self.waiting[i].req,
                    ticket: self.waiting[i].ticket,
                    state: RequestState::Prefill { prompt_pos: 0 },
                    position: 0,
                    seq_idx,
                    num_blocks: blocks,
                    generated: Seq::empty(),
                },
            ),
            waiting: self.waiting.remove(i),
            epochs: self.epochs.insert(seq_idx as u64, self.epoch),
            ..self
        }
    }

    /// After running request `v` left the GPU, its data in `kv_data`.
    pub open spec fn preempted(self, v: int, kv_data: EvictedSeqData, seq_idx: usize) -> Self {
        let r = self.running[v];
        SchedView {
            running: self.running.remove(v),
            swapped: self.swapped.push(
                SwappedView {
                    request: r.req,
                    ticket: r.ticket,
                    generated: r.generated,
                    state: r.state,
                    position: r.position,
                    num_blocks: r.num_blocks,
                    kv_data,
                    seq_idx,
                },
            ),
            epochs: self.epochs.remove(r.seq_idx as u64),
            ..self
        }
    }

    /// Blocks that waiting request `i` needs.
    pub open spec fn blocks_needed(self, i: int) -> nat {
        blocks_for(self.waiting[i].req.prompt_tokens.len())
    }

    /// How the round goes on at waiting request `next`: while there is one and
    /// the batch has room, memory is asked for; else the round is over.
    pub open spec fn proceeds(
        self,
        pool: PoolView,
        max_batch: usize,
        next: int,
        adm: Admission,
        action: AdmitAction,
    ) -> bool {
        &&& adm.next == next
        &&& if next < self.waiting.len() && self.running.len() < max_batch {
            &&& adm.phase == AdmitPhase::Allocating
            &&& action matches AdmitAction::Allocate { blocks, superblocks }
            &&& blocks == self.blocks_needed(next)
            &&& superblocks == pool.superblocks_needed(blocks as nat)
        } else {
            &&& adm.phase == AdmitPhase::Idle
            &&& action is Done
        }
    }

    /// How the round goes on after a request was admitted or given up: it ends
    /// once the swapped queue is full.
    pub open spec fn proceeds_unless_full(
        self,
        pool: PoolView,
        max_batch: usize,
        next: int,
        adm: Admission,
        action: AdmitAction,
    ) -> bool {
        if self.swapped.len() >= MAX_SWAPPED_SEQS {
            &&& adm.next == next
            &&& adm.phase == AdmitPhase::Idle
            &&& action is Done
        } else {
            self.proceeds(pool, max_batch, next, adm, action)
        }
    }

    /// How the round goes on while blocks are evicted. As long as blocks lack
    /// and victims may be looked at, blocks of the next victim are evicted, if
    /// it has any. Once enough blocks were evicted the request is tried
    /// again; otherwise it is passed over.
    pub open spec fn evicts(
        self,
        pool: PoolView,
        max_batch: usize,
        from: Admission,
        adm: Admission,
        action: AdmitAction,
    ) -> bool {
        let v = continuous_scheduler::victim(self.running, self.epochs, Some(pool));
        let handles = backend::gpu_handles(pool, self.running[v].seq_idx as int);
        let lacking = from.needed - from.evicted;
        if lacking > 0 && from.victims_seen < from.max_victims && self.running.len() > 0
            && handles.len() > 0 && pool.tiering is Some {
            &&& adm == Admission {
                victims_seen: (from.victims_seen + 1) as usize,
                phase: AdmitPhase::Evicting {
                    victim: v as usize,
                    candidates: handles.len() as usize,
                },
                ..from
            }
            &&& 0 <= v < self.running.len()
            &&& action matches AdmitAction::EvictBlocks { candidates, count }
            &&& candidates@ == handles
            &&& count == if lacking < handles.len() {
                lacking
            } else {
                handles.len() as int
            }
        } else if lacking <= 0 {
            self.proceeds(pool, max_batch, from.next as int, adm, action)
        } else {
            self.proceeds(pool, max_batch, from.next + 1, adm, action)
        }
    }
}

/// How a scheduler admits requests.
pub struct AdmitSetup {
    pub max_batch: usize,
    pub disable_swap: bool,
    /// The cache is a tiered pool.
    pub kcmm: bool,
}

impl SchedView {
    /// After memory for waiting request `adm.next` was granted or not: the
    /// request is admitted if its blocks can be allocated; `to`, `pool2`,
    /// `adm2` and `action` say how the round goes on.
    pub open spec fn granted(
        self,
        setup: AdmitSetup,
        pool: PoolView,
        grants: Seq<Seq<u64>>,
        clock: u64,
        adm: Admission,
        to: SchedView,
        pool2: PoolView,
        adm2: Admission,
        action: AdmitAction,
    ) -> bool {
        let i = adm.next as int;
        let blocks = self.blocks_needed(i);
        let (state, table, used) = pool.allocated_many(blocks, grants, clock);
        if table.len() == blocks {
            &&& to == self.admitted(i, pool.sequences.len() as usize, blocks as usize)
            &&& pool2 == state.with_registered(table)
            &&& to.proceeds_unless_full(pool2, setup.max_batch, i, adm2, action)
        } else {
            &&& to == self
            &&& pool2 == state
            &&& if state.pools.free.len() > 0 {
                self.proceeds(state, setup.max_batch, i + 1, adm2, action)
            } else if setup.kcmm {
                self.evicts(
                    state,
                    setup.max_batch,
                    (Admission {
                        needed: blocks as usize,
                        evicted: 0,
                        victims_seen: 0,
                        max_victims: if self.running.len() < MAX_VICTIMS {
                            self.running.len() as usize
                        } else {
                            MAX_VICTIMS
                        },
                        ..adm
                    }),
                    adm2,
                    action,
                )
            } else if setup.disable_swap {
                self.proceeds(state, setup.max_batch, i + 1, adm2, action)
            } else if self.running.len() == 0 {
                self.proceeds_unless_full(state, setup.max_batch, i + 1, adm2, action)
            } else {
                let v = continuous_scheduler::victim(self.running, self.epochs, None);
                &&& 0 <= v < self.running.len()
                &&& adm2 == Admission { phase: AdmitPhase::Swapping { victim: v as usize }, ..adm }
                &&& action == AdmitAction::SwapOut { seq_idx: self.running[v].seq_idx }
            }
        }
    }

    /// After `count` blocks of the victim were evicted: a victim all of whose
    /// candidates left the GPU is in the swapped queue.
    pub open spec fn evicted(
        self,
        setup: AdmitSetup,
        pool: PoolView,
        adm: Admission,
        count: usize,
        to: SchedView,
        adm2: Admission,
        action: AdmitAction,
    ) -> bool {
        let v = adm.phase->Evicting_victim as int;
        let kv_data = to.swapped.last().kv_data;
        &&& if count >= adm.phase->candidates {
            &&& kv_data.is_dummy()
            &&& to == self.preempted(v, kv_data, self.running[v].seq_idx)
        } else {
            to == self
        }
        &&& to.evicts(
            pool,
            setup.max_batch,
            (Admission { evicted: (adm.evicted + count) as usize, ..adm }),
            adm2,
            action,
        )
    }

    /// After the victim's sequence was copied to the host: it left the cache
    /// and is in the swapped queue.
    pub open spec fn swapped_out(
        self,
        setup: AdmitSetup,
        pool: PoolView,
        adm: Admission,
        kv_data: EvictedSeqData,
        to: SchedView,
        pool2: PoolView,
        adm2: Admission,
        action: AdmitAction,
    ) -> bool {
        let v = adm.phase->Swapping_victim as int;
        &&& to == self.preempted(v, kv_data, 0)
        &&& pool2 == pool.unregistered(self.running[v].seq_idx as int)
        &&& to.proceeds(pool2, setup.max_batch, adm.next as int, adm2, action)
    }
}

/// A superblock holds no more blocks than bytes.
proof fn lemma_blocks_per_superblock_bounded(cache: &CacheBackend)
    requires
        cache.wf(),
    ensures
        cache@.pools.blocks_per_superblock <= SUPERBLOCK_SIZE,
{
    let bps = cache@.pools.blocks_per_superblock as int;
    let bb = cache@.pools.block_bytes as int;
    assert(bps <= bps * bb) by (nonlinear_arith)
        requires
            bps >= 0,
            bb >= 1,
    ;
}

impl ContinuousScheduler {
    /// How requests are admitted to the cache.
    pub open spec fn setup(&self, cache: &CacheBackend) -> AdmitSetup {
        AdmitSetup {
            max_batch: self.max_batch,
            disable_swap: self.disable_swap,
            kcmm: *cache is Kcmm,
        }
    }

    /// Look at the next waiting request.
    fn proceed(&self, cache: &CacheBackend, adm: &mut Admission, next: usize) -> (r: AdmitAction)
        requires
            cache.wf(),
        ensures
            self@.proceeds(cache@, self.max_batch, next as int, *final(adm), r),
    {
        adm.next = next;
        if next < self.waiting.len() && self.running.len() < self.max_batch {
            adm.phase = AdmitPhase::Allocating;
            assert(self@.waiting[next as int] == self.waiting@[next as int]@);
            let blocks: usize = prompt_blocks(self.waiting[next].req.prompt_tokens.len());
            proof {
                lemma_blocks_per_superblock_bounded(cache);
            }
            let superblocks: usize = cache.superblocks_needed(blocks);
            AdmitAction::Allocate { blocks, superblocks }
        } else {
            adm.phase = AdmitPhase::Idle;
            AdmitAction::Done
        }
    }

    /// Look at the next waiting request, unless the swapped queue is full.
    fn proceed_unless_full(&self, cache: &CacheBackend, adm: &mut Admission, next: usize) -> (r:
        AdmitAction)
        requires
            cache.wf(),
        ensures
            self@.proceeds_unless_full(cache@, self.max_batch, next as int, *final(adm), r),
    {
        if self.swapped.len() >= MAX_SWAPPED_SEQS {
            adm.next = next;
            adm.phase = AdmitPhase::Idle;
            AdmitAction::Done
        } else {
            self.proceed(cache, adm, next)
        }
    }

    /// Look for the next victim of the request that lacks blocks.
    fn evict_next(&self, cache: &CacheBackend, adm: &mut Admission) -> (r: AdmitAction)
        requires
            cache.wf(),
            cache is Kcmm,
            old(adm).next < usize::MAX,
        ensures
            self@.evicts(cache@, self.max_batch, *old(adm), *final(adm), r),
    {
        if adm.evicted >= adm.needed {
            let next: usize = adm.next;
            return self.proceed(cache, adm, next);
        }
        if adm.victims_seen < adm.max_victims {
            let pool = cache.kcmm_pool();
            let selected: Option<usize> = self.select_victim(self.running.as_slice(), pool);
            if let (Some(v), Some(p)) = (selected, pool) {
                proof {
                    continuous_scheduler::law_victim_unique(
                        self@.running,
                        self@.epochs,
                        Some(cache@),
                        v as int,
                    );
                    assert(self@.running[v as int] == self.running@[v as int]@);
                }
                let candidates: Vec<BlockHandle> = cache.evictable_handles(self.running[v].seq_idx);
                if candidates.len() > 0 && p.tiering.is_some() {
                    let lacking: usize = adm.needed - adm.evicted;
                    let count: usize = if lacking < candidates.len() {
                        lacking
                    } else {
                        candidates.len()
                    };
                    adm.victims_seen = adm.victims_seen + 1;
                    adm.phase = AdmitPhase::Evicting { victim: v, candidates: candidates.len() };
                    return AdmitAction::EvictBlocks { candidates, count };
                }
            }
        }
        let next: usize = adm.next + 1;
        self.proceed(cache, adm, next)
    }

    /// Move a running request to the swapped queue.
    fn preempt(&mut self, victim: usize, kv_data: EvictedSeqData, seq_idx: usize)
        requires
            victim < old(self)@.running.len(),
        ensures
            final(self).same_setup(&*old(self)),
            final(self)@ == old(self)@.preempted(victim as int, kv_data, seq_idx),
    {
        broadcast use vstd::std_specs::hash::group_hash_axioms;

        let r: RunningRequest = self.running.remove(victim);
        self.seq_last_epoch.remove(&(r.seq_idx as u64));
        self.swapped.push(
            SwappedRequest {
                request: r.req,
                ticket: r.ticket,
                generated: r.generated,
                state: r.state,
                position: r.position,
                num_blocks: r.num_blocks,
                kv_data,
                seq_idx,
            },
        );
        proof {
            let want = old(self)@.preempted(victim as int, kv_data, seq_idx);
            assert(self@.running =~= want.running);
            assert(self@.waiting =~= want.waiting);
            assert(self@.swapped =~= want.swapped);
        }
    }

    /// Begin a round that admits waiting requests.
    pub fn admit_waiting(&self, cache: &CacheBackend, adm: &mut Admission) -> (r: AdmitAction)
        requires
            cache.wf(),
        ensures
            self@.proceeds(cache@, self.max_batch, 0, *final(adm), r),
    {
        self.proceed(cache, adm, 0)
    }

    /// Superblocks were mapped for the next waiting request. The request is
    /// admitted if its blocks can be allocated. Where they cannot, and no
    /// block is left, running requests give up theirs: block by block in a
    /// tiered pool; as a whole in a plain cache, unless that is disabled.
    pub fn admit_granted(
        &mut self,
        cache: &mut CacheBackend,
        adm: &mut Admission,
        grants: &Vec<Vec<u64>>,
        now: u64,
    ) -> (r: AdmitAction)
        requires
            old(cache).wf(),
            old(cache).grants_ok(grants@),
            old(adm).phase == AdmitPhase::Allocating,
            old(adm).next < old(self)@.waiting.len(),
            old(cache)@.blocks.len() + old(self)@.blocks_needed(old(adm).next as int) <= INDEX_COUNT,
        ensures
            final(self).same_setup(&*old(self)),
            final(cache).wf(),
            final(cache).same_kind(&*old(cache)),
            old(self)@.granted(
                old(self).setup(old(cache)),
                old(cache)@,
                pool_model::grants_view(grants@),
                old(cache).clock(now),
                *old(adm),
                final(self)@,
                final(cache)@,
                *final(adm),
                r,
            ),
    {
        broadcast use vstd::std_specs::hash::group_hash_axioms;

        let i: usize = adm.next;
        assert(i < self.waiting.len());
        assert(self@.waiting[i as int] == self.waiting@[i as int]@);
        let blocks: usize = prompt_blocks(self.waiting[i].req.prompt_tokens.len());
        proof {
            backend::lemma_allocated_many_tables(
                cache@,
                blocks as nat,
                pool_model::grants_view(grants@),
                cache.clock(now),
            );
        }
        match cache.alloc_sequence(blocks, grants, now) {
            Ok(table) => {
                let seq_idx: usize = cache.register_sequence(table);
                self.seq_last_epoch.insert(seq_idx as u64, self.epoch);
                let w: WaitingRequest = self.waiting.remove(i);
                self.running.push(
                    RunningRequest {
                        req: w.req,
                        ticket: w.ticket,
                        state: RequestState::Prefill { prompt_pos: 0 },
                        position: 0,
                        seq_idx,
                        num_blocks: blocks,
                        generated: Vec::new(),
                    },
                );
                proof {
                    let want = old(self)@.admitted(i as int, seq_idx, blocks);
                    assert(self@.running =~= want.running);
                    assert(self@.waiting =~= want.waiting);
                    assert(self@.swapped =~= want.swapped);
                }
                self.proceed_unless_full(cache, adm, i)
            },
            Err(_) => {
                if cache.has_free_blocks() {
                    return self.proceed(cache, adm, i + 1);
                }
                if cache.is_kcmm() {
                    adm.needed = blocks;
                    adm.evicted = 0;
                    adm.victims_seen = 0;
                    adm.max_victims = if self.running.len() < MAX_VICTIMS {
                        self.running.len()
                    } else {
                        MAX_VICTIMS
                    };
                    return self.evict_next(cache, adm);
                }
                if self.disable_swap {
                    return self.proceed(cache, adm, i + 1);
                }
                match self.select_victim(self.running.as_slice(), None) {
                    Some(v) => {
                        proof {
                            continuous_scheduler::law_victim_unique(
                                self@.running,
                                self@.epochs,
                                None,
                                v as int,
                            );
                            assert(self@.running[v as int] == self.running@[v as int]@);
                        }
                        adm.phase = AdmitPhase::Swapping { victim: v };
                        AdmitAction::SwapOut { seq_idx: self.running[v].seq_idx }
                    },
                    None => self.proceed_unless_full(cache, adm, i + 1),
                }
            },
        }
    }

    /// Blocks of the victim were evicted from the pool. A victim all of whose
    /// candidates left the GPU moves to the swapped queue; one that kept some
    /// goes on running.
    pub fn admit_evicted(&mut self, cache: &CacheBackend, adm: &mut Admission, count: usize) -> (r:
        AdmitAction)
        requires
            cache.wf(),
            cache is Kcmm,
            old(adm).next < usize::MAX,
            old(adm).evicted + count <= usize::MAX,
            old(adm).phase matches AdmitPhase::Evicting { victim, .. } && victim < old(self)@.running.len(),
        ensures
            final(self).same_setup(&*old(self)),
            old(self)@.evicted(
                old(self).setup(cache),
                cache@,
                *old(adm),
                count,
                final(self)@,
                *final(adm),
                r,
            ),
    {
        adm.evicted = adm.evicted + count;
        if let AdmitPhase::Evicting { victim, candidates } = adm.phase {
            if count >= candidates {
                assert(self@.running[victim as int] == self.running@[victim as int]@);
                let seq_idx: usize = self.running[victim].seq_idx;
                self.preempt(victim, EvictedSeqData::dummy(), seq_idx);
            }
        }
        self.evict_next(cache, adm)
    }

    /// Evicting the victim's blocks failed: another victim is looked for.
    pub fn admit_eviction_failed(&self, cache: &CacheBackend, adm: &mut Admission) -> (r:
        AdmitAction)
        requires
            cache.wf(),
            cache is Kcmm,
            old(adm).next < usize::MAX,
        ensures
            self@.evicts(cache@, self.max_batch, *old(adm), *final(adm), r),
    {
        self.evict_next(cache, adm)
    }

    /// The victim's sequence was copied to the host. It leaves the cache, and
    /// the waiting request is tried again.
    pub fn admit_swapped(
        &mut self,
        cache: &mut CacheBackend,
        adm: &mut Admission,
        kv_data: EvictedSeqData,
    ) -> (r: AdmitAction)
        requires
            old(cache).wf(),
            old(adm).phase matches AdmitPhase::Swapping { victim } && victim < old(self)@.running.len(),
        ensures
            final(self).same_setup(&*old(self)),
            final(cache).wf(),
            final(cache).same_kind(&*old(cache)),
            old(self)@.swapped_out(
                old(self).setup(old(cache)),
                old(cache)@,
                *old(adm),
                kv_data,
                final(self)@,
                final(cache)@,
                *final(adm),
                r,
            ),
    {
        if let AdmitPhase::Swapping { victim } = adm.phase {
            assert(self@.running[victim as int] == self.running@[victim as int]@);
            let seq_idx: usize = self.running[victim].seq_idx;
            self.preempt(victim, kv_data, 0);
            cache.unregister_sequence(seq_idx);
        }
        let next: usize = adm.next;
        self.proceed(cache, adm, next)
    }

    /// The victim's sequence could not be copied to the host: the waiting
    /// request is passed over.
    pub fn admit_swap_failed(&self, cache: &CacheBackend, adm: &mut Admission) -> (r: AdmitAction)
        requires
            cache.wf(),
            old(adm).next < usize::MAX,
        ensures
            self@.proceeds_unless_full(
                cache@,
                self.max_batch,
                old(adm).next + 1,
                *final(adm),
                r,
            ),
    {
        let next: usize = adm.next + 1;
        self.proceed_unless_full(cache, adm, next)
    }
}

} // verus!
