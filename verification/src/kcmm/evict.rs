use vstd::prelude::*;

use crate::kcmm::cpu_slots;
use crate::kcmm::policy;
use crate::kcmm::pool::{BlockLocation, KcmmPool, PoolError};
use crate::kcmm::pool_model;
use crate::kcmm::pool_model::PoolView;
use crate::kcmm::superblock::BlockHandle;
use crate::kcmm::tiering::MIN_BATCH_FOR_GATHER;

verus! {

/// A block on its way from the GPU, between submit and finalize.
#[derive(Debug, Clone, Copy, PartialEq, Eq, Structural)]
pub struct EvictContext {
    pub block_idx: u32,
    pub handle: BlockHandle,
    pub cpu_offset: usize,
    pub total_bytes: usize,
}

/// Why a block, or a batch of blocks, was not evicted.
#[derive(Debug, Clone, Copy, PartialEq, Eq, Structural)]
pub enum EvictError {
    /// This physical block stands for no block.
    VictimNotFound(BlockHandle),
    /// The block does not reside in the physical block that it was named by.
    NotResident(u32),
    /// The swap buffer has no room for another block.
    SwapBufferExhausted,
    /// The pool was made without tiering.
    TieringDisabled,
    /// The block index cannot be evicted.
    Block(PoolError),
    /// Waiting for the copies failed.
    SyncFailed,
    /// The copies could not be queued.
    SubmitFailed,
}

impl PoolView {
    /// The free ranges of the swap buffer.
    pub open spec fn slots(self) -> Seq<core::ops::Range<usize>> {
        self.tiering->0.slots
    }

    /// What an eviction in progress refers to exists.
    pub open spec fn evict_ok(self, ctx: EvictContext) -> bool {
        &&& self.pools.valid(ctx.handle)
        &&& ctx.total_bytes == self.slot_bytes()
        &&& ctx.cpu_offset + ctx.total_bytes <= usize::MAX
    }

    /// The pool, and the eviction in progress, after block `i` with handle `h`
    /// got a slot of the swap buffer and was marked. A block index that is not
    /// in use, a block that does not reside at `h`, or a full swap buffer
    /// leaves the pool as it was.
    pub open spec fn evict_submitted(self, i: u32, h: BlockHandle) -> (
        Self,
        Result<EvictContext, EvictError>,
    ) {
        let size = self.slot_bytes() as usize;
        if self.tiering is None {
            (self, Err(EvictError::TieringDisabled))
        } else if self.used(i) && !self.resides_at(h, i as int) {
            (self, Err(EvictError::NotResident(i)))
        } else {
            match cpu_slots::allocated(self.slots(), size) {
                (Some(offset), slots) => if self.used(i) {
                    (
                        self.with_slots(slots).located(i as int, BlockLocation::Evicting),
                        Ok(
                            EvictContext {
                                block_idx: i,
                                handle: h,
                                cpu_offset: offset,
                                total_bytes: size,
                            },
                        ),
                    )
                } else {
                    (
                        self.with_slots(cpu_slots::freed(slots, offset, size)),
                        Err(EvictError::Block(self.use_error(i)->Err_0)),
                    )
                },
                (None, _) => (self, Err(EvictError::SwapBufferExhausted)),
            }
        }
    }

    /// As `evict_submitted`, for the block that `h` stands for.
    pub open spec fn evict_prepared(self, h: BlockHandle) -> (
        Self,
        Result<EvictContext, EvictError>,
    ) {
        if self.has_handle(h) {
            self.evict_submitted(self.index_of(h) as u32, h)
        } else {
            (self, Err(EvictError::VictimNotFound(h)))
        }
    }

    /// The pool after an eviction in progress was called off: the slot is free
    /// again and the block resides in GPU memory as before.
    pub open spec fn evict_rolled_back(self, ctx: EvictContext) -> Self {
        let freed = self.with_slots(
            cpu_slots::freed(self.slots(), ctx.cpu_offset, ctx.total_bytes),
        );
        if self.used(ctx.block_idx) {
            freed.located(
                ctx.block_idx as int,
                BlockLocation::GpuResident(ctx.handle, self.pools.offset(ctx.handle) as u64),
            )
        } else {
            freed
        }
    }

    /// The pool after all listed evictions were called off.
    pub open spec fn evict_all_rolled_back(self, pending: Seq<EvictContext>) -> Self
        decreases pending.len(),
    {
        if pending.len() == 0 {
            self
        } else {
            self.evict_all_rolled_back(pending.drop_last()).evict_rolled_back(pending.last())
        }
    }

    /// The pool after the data of an evicted block arrived: its physical block
    /// is free, it resides in the swap buffer, and the policy forgets it.
    pub open spec fn evict_finalized(self, ctx: EvictContext) -> Self {
        if self.used(ctx.block_idx) {
            self.released(ctx.block_idx as int).located(
                ctx.block_idx as int,
                BlockLocation::CpuResident(ctx.cpu_offset),
            ).with_scores(self.tiering->0.scores.remove(ctx.handle.key()))
        } else {
            self
        }
    }

    /// The pool after all listed evictions were finalized.
    pub open spec fn evict_all_finalized(self, pending: Seq<EvictContext>) -> Self
        decreases pending.len(),
    {
        if pending.len() == 0 {
            self
        } else {
            self.evict_all_finalized(pending.drop_last()).evict_finalized(pending.last())
        }
    }

    /// The handles of the listed evictions whose block index is in use.
    pub open spec fn evicted_handles(self, pending: Seq<EvictContext>) -> Seq<BlockHandle>
        decreases pending.len(),
    {
        if pending.len() == 0 {
            Seq::empty()
        } else {
            let rest = self.evicted_handles(pending.drop_last());
            if self.used(pending.last().block_idx) {
                rest.push(pending.last().handle)
            } else {
                rest
            }
        }
    }

    /// The pool and the evictions in progress after all victims were prepared,
    /// up to the first that is not found. Victims that do not reside in GPU
    /// memory, or for which the swap buffer has no room, are passed over.
    pub open spec fn evict_begun(self, victims: Seq<BlockHandle>) -> (
        Self,
        Seq<EvictContext>,
        Option<EvictError>,
    )
        decreases victims.len(),
    {
        if victims.len() == 0 {
            (self, Seq::empty(), None)
        } else {
            let (state, pending, error) = self.evict_begun(victims.drop_last());
            if error is Some {
                (state, pending, error)
            } else {
                match state.evict_prepared(victims.last()) {
                    (next, Ok(ctx)) => (next, pending.push(ctx), None),
                    (next, Err(EvictError::VictimNotFound(h))) => (
                        next,
                        pending,
                        Some(EvictError::VictimNotFound(h)),
                    ),
                    (next, Err(_)) => (next, pending, None),
                }
            }
        }
    }
}

/// Marking a block as in transit keeps the pool well formed.
pub proof fn lemma_with_slots_wf(s: PoolView, slots: Seq<core::ops::Range<usize>>)
    requires
        s.wf(),
        cpu_slots::ranges_ordered(slots),
    ensures
        s.with_slots(slots).wf(),
        s.with_slots(slots).blocks == s.blocks,
        s.with_slots(slots).pools == s.pools,
{
    let t = s.with_slots(slots);
    assert forall|i: int| 0 <= i < t.blocks.len() implies t.block_ok(#[trigger] t.blocks[i]) by {
        assert(s.block_ok(s.blocks[i]));
    }
}

/// Changing the scores keeps the pool well formed.
pub proof fn lemma_with_scores_wf(s: PoolView, scores: Map<u64, u64>)
    requires
        s.wf(),
    ensures
        s.with_scores(scores).wf(),
{
    let t = s.with_scores(scores);
    assert forall|i: int| 0 <= i < t.blocks.len() implies t.block_ok(#[trigger] t.blocks[i]) by {
        assert(s.block_ok(s.blocks[i]));
    }
}

impl KcmmPool {
    /// Bytes that one block takes in the swap buffer.
    pub fn slot_bytes(&self) -> (r: usize)
        requires
            self.wf(),
        ensures
            r == self@.slot_bytes(),
    {
        proof {
            let s = self@;
            self.pools.lemma_block_bytes_positive();
            assert(s.shape.num_layers * 2 <= s.slot_bytes()) by (nonlinear_arith)
                requires
                    s.slot_bytes() == s.shape.num_layers * 2 * s.shape.block_bytes,
                    s.shape.block_bytes >= 1,
            ;
        }
        self.num_layers * 2 * self.block_bytes
    }

    /// First phase of evicting a block: take a slot of the swap buffer and
    /// mark the block. The caller then copies the data and reports back. Only
    /// a block that resides at `handle` is evicted.
    pub fn evict_submit_async(&mut self, block_idx: u32, handle: BlockHandle) -> (r: Result<
        EvictContext,
        EvictError,
    >)
        requires
            old(self).wf(),
        ensures
            final(self).wf(),
            (final(self)@, r) == old(self)@.evict_submitted(block_idx, handle),
            r matches Ok(ctx) ==> final(self)@.evict_ok(ctx) && old(self)@.resides_at(
                handle,
                block_idx as int,
            ),
            final(self)@.pools == old(self)@.pools,
            final(self)@.shape == old(self)@.shape,
            final(self)@.tiering is Some <==> old(self)@.tiering is Some,
            final(self)@.blocks.len() == old(self)@.blocks.len(),
    {
        let size: usize = self.slot_bytes();
        let ghost s0 = self@;
        if self.tiering.is_some() {
            if let Some(location) = self.get_block_location(block_idx) {
                assert(self@.block_ok(self@.blocks[block_idx as int]));
                let resident: bool = match location {
                    BlockLocation::GpuResident(h, _) => h == handle,
                    _ => false,
                };
                if !resident {
                    return Err(EvictError::NotResident(block_idx));
                }
            }
        }
        match &mut self.tiering {
            None => Err(EvictError::TieringDisabled),
            Some(t) => {
                let ghost slots0 = t@.slots;
                match t.alloc_cpu_slot(size) {
                    None => {
                        assert(self@ =~= s0);
                        Err(EvictError::SwapBufferExhausted)
                    },
                    Some(cpu_offset) => {
                        proof {
                            cpu_slots::lemma_best_fit_exists(slots0, size);
                            let slots1 = cpu_slots::allocated(slots0, size).1;
                            lemma_with_slots_wf(s0, slots1);
                            assert(self@ =~= s0.with_slots(slots1));
                        }
                        match self.set_block_location(block_idx, BlockLocation::Evicting) {
                            Ok(()) => Ok(
                                EvictContext { block_idx, handle, cpu_offset, total_bytes: size },
                            ),
                            Err(e) => {
                                if let Some(t) = &mut self.tiering {
                                    t.free_cpu_slot(cpu_offset, size);
                                }
                                proof {
                                    assert(self@ =~= s0.evict_submitted(block_idx, handle).0);
                                    lemma_with_slots_wf(s0, self@.tiering->0.slots);
                                }
                                Err(EvictError::Block(e))
                            },
                        }
                    },
                }
            },
        }
    }

    /// As `evict_submit_async`, for the block that `victim` stands for.
    pub fn evict_prepare(&mut self, victim: BlockHandle) -> (r: Result<EvictContext, EvictError>)
        requires
            old(self).wf(),
        ensures
            final(self).wf(),
            (final(self)@, r) == old(self)@.evict_prepared(victim),
            r matches Ok(ctx) ==> final(self)@.evict_ok(ctx) && ctx.handle == victim
                && old(self)@.resides_at(victim, ctx.block_idx as int),
            final(self)@.pools == old(self)@.pools,
            final(self)@.shape == old(self)@.shape,
            final(self)@.tiering is Some <==> old(self)@.tiering is Some,
            final(self)@.blocks.len() == old(self)@.blocks.len(),
    {
        match self.find_block_idx(victim) {
            None => Err(EvictError::VictimNotFound(victim)),
            Some(block_idx) => self.evict_submit_async(block_idx, victim),
        }
    }

    /// Call off an eviction in progress.
    pub fn evict_rollback(&mut self, ctx: EvictContext)
        requires
            old(self).wf(),
            old(self)@.tiering is Some,
            old(self)@.evict_ok(ctx),
        ensures
            final(self).wf(),
            final(self)@ == old(self)@.evict_rolled_back(ctx),
            final(self)@.pools == old(self)@.pools,
            final(self)@.shape == old(self)@.shape,
            final(self)@.tiering is Some,
    {
        let ghost s0 = self@;
        if let Some(t) = &mut self.tiering {
            t.free_cpu_slot(ctx.cpu_offset, ctx.total_bytes);
        }
        proof {
            lemma_with_slots_wf(s0, self@.tiering->0.slots);
            assert(self@ =~= s0.with_slots(self@.tiering->0.slots));
            self.pools.lemma_offset_fits(ctx.handle);
        }
        if let Ok(va_off) = self.block_va_offset(ctx.handle) {
            let _ = self.set_block_location(
                ctx.block_idx,
                BlockLocation::GpuResident(ctx.handle, va_off as u64),
            );
        }
        assert(self@ =~= s0.evict_rolled_back(ctx));
    }

    /// Call off all listed evictions.
    pub fn evict_abort(&mut self, pending: &Vec<EvictContext>)
        requires
            old(self).wf(),
            old(self)@.tiering is Some,
            forall|i: int| 0 <= i < pending@.len() ==> old(self)@.evict_ok(#[trigger] pending@[i]),
        ensures
            final(self).wf(),
            final(self)@ == old(self)@.evict_all_rolled_back(pending@),
    {
        let mut i: usize = 0;
        assert(pending@.take(0) =~= Seq::<EvictContext>::empty());
        while i < pending.len()
            invariant
                i <= pending@.len(),
                self.wf(),
                self@.tiering is Some,
                self@.pools == old(self)@.pools,
                self@.shape == old(self)@.shape,
                forall|k: int|
                    0 <= k < pending@.len() ==> old(self)@.evict_ok(#[trigger] pending@[k]),
                self@ == old(self)@.evict_all_rolled_back(pending@.take(i as int)),
            decreases pending@.len() - i,
        {
            proof {
                assert(pending@.take(i + 1).drop_last() =~= pending@.take(i as int));
                assert(old(self)@.evict_ok(pending@[i as int]));
            }
            self.evict_rollback(pending[i]);
            i = i + 1;
        }
        assert(pending@.take(pending@.len() as int) =~= pending@);
    }

    /// Last phase of evicting a block, once its data arrived in the swap
    /// buffer. Returns whether the block index was still in use.
    pub fn evict_finalize(&mut self, ctx: EvictContext) -> (r: bool)
        requires
            old(self).wf(),
            old(self)@.tiering is Some,
            old(self)@.evict_ok(ctx),
        ensures
            final(self).wf(),
            r == old(self)@.used(ctx.block_idx),
            final(self)@ == old(self)@.evict_finalized(ctx),
            final(self)@.tiering is Some,
            final(self)@.shape == old(self)@.shape,
            final(self)@.pools.backing == old(self)@.pools.backing,
            final(self)@.pools.blocks_per_superblock == old(self)@.pools.blocks_per_superblock,
            final(self)@.blocks.len() == old(self)@.blocks.len(),
            forall|i: u32| final(self)@.used(i) == old(self)@.used(i),
    {
        let ghost s0 = self@;
        if self.release_block_physical(ctx.block_idx).is_err() {
            return false;
        }
        assert(self@ == s0.released(ctx.block_idx as int));
        let _ = self.set_block_location(ctx.block_idx, BlockLocation::CpuResident(ctx.cpu_offset));
        let ghost s2 = self@;
        assert(s2.tiering->0.scores == s0.tiering->0.scores);
        if let Some(t) = &mut self.tiering {
            t.eviction_policy.on_evict(ctx.handle);
        }
        proof {
            lemma_with_scores_wf(s2, self@.tiering->0.scores);
            assert(self@ =~= s0.evict_finalized(ctx));
        }
        true
    }

    /// Finalize all listed evictions and return the handles of those whose
    /// block index was still in use.
    pub fn evict_finish(&mut self, pending: &Vec<EvictContext>) -> (evicted: Vec<BlockHandle>)
        requires
            old(self).wf(),
            old(self)@.tiering is Some,
            forall|i: int| 0 <= i < pending@.len() ==> old(self)@.evict_ok(#[trigger] pending@[i]),
        ensures
            final(self).wf(),
            final(self)@ == old(self)@.evict_all_finalized(pending@),
            evicted@ == old(self)@.evicted_handles(pending@),
    {
        let mut evicted: Vec<BlockHandle> = Vec::new();
        let mut i: usize = 0;
        assert(pending@.take(0) =~= Seq::<EvictContext>::empty());
        while i < pending.len()
            invariant
                i <= pending@.len(),
                self.wf(),
                self@.tiering is Some,
                self@.shape == old(self)@.shape,
                self@.pools.backing == old(self)@.pools.backing,
                self@.pools.blocks_per_superblock == old(self)@.pools.blocks_per_superblock,
                forall|k: u32| self@.used(k) == old(self)@.used(k),
                forall|k: int|
                    0 <= k < pending@.len() ==> old(self)@.evict_ok(#[trigger] pending@[k]),
                self@ == old(self)@.evict_all_finalized(pending@.take(i as int)),
                evicted@ == old(self)@.evicted_handles(pending@.take(i as int)),
            decreases pending@.len() - i,
        {
            proof {
                assert(pending@.take(i + 1).drop_last() =~= pending@.take(i as int));
                assert(old(self)@.evict_ok(pending@[i as int]));
            }
            if self.evict_finalize(pending[i]) {
                evicted.push(pending[i].handle);
            }
            i = i + 1;
        }
        assert(pending@.take(pending@.len() as int) =~= pending@);
        evicted
    }

    /// Prepare the eviction of a whole batch. Stops with an error at the first
    /// victim that is not found; the victims before it stay marked.
    pub fn evict_begin_batched(&mut self, victims: &Vec<BlockHandle>) -> (r: Result<
        Vec<EvictContext>,
        EvictError,
    >)
        requires
            old(self).wf(),
            old(self)@.tiering is Some,
        ensures
            final(self).wf(),
            ({
                let (state, pending, error) = old(self)@.evict_begun(victims@);
                &&& final(self)@ == state
                &&& error matches Some(e) ==> r == Err::<Vec<EvictContext>, EvictError>(e)
                &&& error is None ==> r is Ok && r->Ok_0@ == pending
            }),
            r matches Ok(pending) ==> forall|i: int|
                0 <= i < pending@.len() ==> final(self)@.evict_ok(#[trigger] pending@[i])
                    && old(self)@.resides_at(pending@[i].handle, pending@[i].block_idx as int),
            final(self)@.tiering is Some,
    {
        let mut pending: Vec<EvictContext> = Vec::new();
        let mut i: usize = 0;
        assert(victims@.take(0) =~= Seq::<BlockHandle>::empty());
        while i < victims.len()
            invariant
                i <= victims@.len(),
                self.wf(),
                self@.tiering is Some,
                (self@, pending@, None::<EvictError>) == old(self)@.evict_begun(
                    victims@.take(i as int),
                ),
                forall|h: BlockHandle, k: int| #[trigger]
                    self@.resides_at(h, k) ==> old(self)@.resides_at(h, k),
                forall|k: int|
                    0 <= k < pending@.len() ==> self@.evict_ok(#[trigger] pending@[k])
                        && old(self)@.resides_at(pending@[k].handle, pending@[k].block_idx as int),
            decreases victims@.len() - i,
        {
            proof {
                assert(victims@.take(i + 1).drop_last() =~= victims@.take(i as int));
            }
            let ghost before = self@;
            let prepared = self.evict_prepare(victims[i]);
            proof {
                assert forall|h: BlockHandle, k: int| #[trigger]
                    self@.resides_at(h, k) implies old(self)@.resides_at(h, k) by {
                    assert(before.resides_at(h, k));
                }
            }
            match prepared {
                Ok(ctx) => {
                    proof {
                        assert forall|k: int|
                            0 <= k < pending@.len() implies self@.evict_ok(
                            #[trigger] pending@[k],
                        ) by {
                            assert(before.evict_ok(pending@[k]));
                        }
                    }
                    pending.push(ctx);
                },
                Err(e) => {
                    if let EvictError::VictimNotFound(h) = e {
                        proof {
                            lemma_begun_stops(old(self)@, victims@, i + 1);
                        }
                        return Err(EvictError::VictimNotFound(h));
                    }
                    proof {
                        assert forall|k: int|
                            0 <= k < pending@.len() implies self@.evict_ok(
                            #[trigger] pending@[k],
                        ) by {
                            assert(before.evict_ok(pending@[k]));
                        }
                    }
                },
            }
            i = i + 1;
        }
        assert(victims@.take(victims@.len() as int) =~= victims@);
        Ok(pending)
    }
}

/// Victims behind one that is not found change nothing.
proof fn lemma_begun_stops(s: PoolView, victims: Seq<BlockHandle>, i: int)
    requires
        0 <= i <= victims.len(),
        s.evict_begun(victims.take(i)).2 is Some,
    ensures
        s.evict_begun(victims) == s.evict_begun(victims.take(i)),
    decreases victims.len(),
{
    if i == victims.len() {
        assert(victims.take(i) =~= victims);
    } else {
        assert(victims.drop_last().take(i) =~= victims.take(i));
        lemma_begun_stops(s, victims.drop_last(), i);
    }
}

/// How a set of victims is to be evicted.
#[derive(Debug)]
pub enum EvictPlan {
    /// There is nothing to evict.
    Nothing,
    /// Copy each block on its own; see `EvictRun`.
    OneByOne(Vec<BlockHandle>),
    /// Move all blocks in one batch; see `evict_begin_batched`.
    Batched(Vec<BlockHandle>),
}

impl PoolView {
    /// The blocks that the policy picks from the candidates.
    pub open spec fn chosen_victims(self, candidates: Seq<BlockHandle>, count: usize) -> Seq<
        BlockHandle,
    > {
        policy::victims(self.tiering->0.scores, candidates, count)
    }

    /// Whether `n` blocks are moved in one batch: batches must be possible,
    /// worth while, and fit the staging buffers.
    pub open spec fn moves_in_batch(self, n: nat) -> bool {
        let t = self.tiering->0;
        t.batching && MIN_BATCH_FOR_GATHER <= n <= t.max_batch_blocks
    }
}

/// How a batch ended.
#[derive(Debug, Clone, Copy, PartialEq, Eq, Structural)]
pub enum BatchOutcome {
    /// The data arrived.
    Completed,
    /// The copies could not be queued.
    SubmitFailed,
    /// Waiting for the copies failed.
    SyncFailed,
}

impl KcmmPool {
    /// Whether `n` blocks are moved in one batch.
    pub fn moves_in_batch(&self, n: usize) -> (r: bool)
        ensures
            r == (self@.tiering is Some && self@.moves_in_batch(n as nat)),
    {
        match &self.tiering {
            None => false,
            Some(t) => t.gpu_staging_elems.is_some() && MIN_BATCH_FOR_GATHER <= n && n
                <= t.max_batch_blocks,
        }
    }

    /// Pick up to `count` victims from the candidates and decide how to evict
    /// them.
    pub fn plan_eviction(&self, candidates: &[BlockHandle], count: usize) -> (r: EvictPlan)
        ensures
            r is Nothing <==> self@.tiering is None || self@.chosen_victims(
                candidates@,
                count,
            ).len() == 0,
            r matches EvictPlan::OneByOne(v) ==> v@ == self@.chosen_victims(candidates@, count)
                && !self@.moves_in_batch(v@.len()),
            r matches EvictPlan::Batched(v) ==> v@ == self@.chosen_victims(candidates@, count)
                && self@.moves_in_batch(v@.len()),
    {
        match &self.tiering {
            None => EvictPlan::Nothing,
            Some(t) => {
                let victims: Vec<BlockHandle> = t.eviction_policy.select_victims(candidates, count);
                if victims.len() == 0 {
                    EvictPlan::Nothing
                } else if self.moves_in_batch(victims.len()) {
                    EvictPlan::Batched(victims)
                } else {
                    EvictPlan::OneByOne(victims)
                }
            },
        }
    }

    /// End a batch of evictions. Where waiting failed all blocks are back in
    /// GPU memory; where the copies could not be queued they stay marked.
    pub fn evict_end_batched(&mut self, pending: &Vec<EvictContext>, outcome: BatchOutcome) -> (r: Result<
        Vec<BlockHandle>,
        EvictError,
    >)
        requires
            old(self).wf(),
            old(self)@.tiering is Some,
            forall|i: int| 0 <= i < pending@.len() ==> old(self)@.evict_ok(#[trigger] pending@[i]),
        ensures
            final(self).wf(),
            outcome == BatchOutcome::Completed ==> final(self)@ == old(self)@.evict_all_finalized(
                pending@,
            ) && r is Ok && r->Ok_0@ == old(self)@.evicted_handles(pending@),
            outcome == BatchOutcome::SyncFailed ==> final(self)@
                == old(self)@.evict_all_rolled_back(pending@) && r == Err::<
                Vec<BlockHandle>,
                EvictError,
            >(EvictError::SyncFailed),
            outcome == BatchOutcome::SubmitFailed ==> final(self)@ == old(self)@ && r == Err::<
                Vec<BlockHandle>,
                EvictError,
            >(EvictError::SubmitFailed),
    {
        match outcome {
            BatchOutcome::Completed => Ok(self.evict_finish(pending)),
            BatchOutcome::SyncFailed => {
                self.evict_abort(pending);
                Err(EvictError::SyncFailed)
            },
            BatchOutcome::SubmitFailed => Err(EvictError::SubmitFailed),
        }
    }
}

/// What to do next in a block-by-block eviction.
#[derive(Debug, Clone, Copy, PartialEq, Eq, Structural)]
pub enum EvictStep {
    /// Queue the copies of this block and report with `submitted`.
    Copy(EvictContext),
    /// Wait for all queued copies and report with `synchronized`.
    Synchronize,
    /// Nothing was queued: no block is evicted.
    Done,
    /// Give up.
    Fail(EvictError),
}

impl PoolView {
    /// Prepares victims from position `next` on until one is ready to be
    /// copied. Victims that do not reside in GPU memory, or for which the swap
    /// buffer has no room, are passed over.
    pub open spec fn evict_advanced(self, victims: Seq<BlockHandle>, next: int) -> (
        Self,
        int,
        Option<Result<EvictContext, EvictError>>,
    )
        decreases victims.len() - next,
    {
        if next < 0 || next >= victims.len() {
            (self, next, None)
        } else {
            match self.evict_prepared(victims[next]) {
                (state, Ok(ctx)) => (state, next + 1, Some(Ok(ctx))),
                (state, Err(EvictError::VictimNotFound(h))) => (
                    state,
                    next + 1,
                    Some(Err(EvictError::VictimNotFound(h))),
                ),
                (state, Err(_)) => state.evict_advanced(victims, next + 1),
            }
        }
    }

    /// The pool and the evictions in progress after all victims were prepared
    /// and copied one after the other, up to the first that is not found;
    /// `copied` says for which victims the copies could be queued.
    pub open spec fn evict_run(self, victims: Seq<BlockHandle>, copied: Seq<bool>) -> (
        Self,
        Seq<EvictContext>,
        Option<EvictError>,
    )
        decreases victims.len(),
    {
        if victims.len() == 0 {
            (self, Seq::empty(), None)
        } else {
            let (state, pending, error) = self.evict_run(victims.drop_last(), copied);
            if error is Some {
                (state, pending, error)
            } else {
                match state.evict_prepared(victims.last()) {
                    (next, Ok(ctx)) => if copied[victims.len() - 1] {
                        (next, pending.push(ctx), None)
                    } else {
                        (next.evict_rolled_back(ctx), pending, None)
                    },
                    (next, Err(EvictError::VictimNotFound(h))) => (
                        next,
                        pending,
                        Some(EvictError::VictimNotFound(h)),
                    ),
                    (next, Err(_)) => (next, pending, None),
                }
            }
        }
    }
}

/// A block-by-block eviction: the blocks are prepared and copied one after
/// the other, and waited for together.
#[derive(Debug)]
pub struct EvictRun {
    pub victims: Vec<BlockHandle>,
    /// The first victim that was not looked at yet.
    pub next: usize,
    /// Evictions whose copies are queued.
    pub pending: Vec<EvictContext>,
}

impl EvictRun {
    /// All queued evictions refer to what exists in the pool.
    pub open spec fn wf(&self, s: PoolView) -> bool {
        &&& self.next <= self.victims@.len()
        &&& s.tiering is Some
        &&& forall|i: int| 0 <= i < self.pending@.len() ==> s.evict_ok(#[trigger] self.pending@[i])
    }

    /// Nothing has been looked at.
    pub fn new(victims: Vec<BlockHandle>) -> (r: Self)
        ensures
            r.victims@ == victims@,
            r.next == 0,
            r.pending@ == Seq::<EvictContext>::empty(),
    {
        EvictRun { victims, next: 0, pending: Vec::new() }
    }

    /// Decide what to do next.
    pub fn advance(&mut self, pool: &mut KcmmPool) -> (step: EvictStep)
        requires
            old(pool).wf(),
            old(self).wf(old(pool)@),
        ensures
            final(pool).wf(),
            final(self).wf(final(pool)@),
            final(self).victims@ == old(self).victims@,
            final(self).pending@ == old(self).pending@,
            ({
                let (state, next, found) = old(pool)@.evict_advanced(
                    old(self).victims@,
                    old(self).next as int,
                );
                &&& final(pool)@ == state
                &&& final(self).next == next
                &&& step == match found {
                    Some(Ok(ctx)) => EvictStep::Copy(ctx),
                    Some(Err(e)) => EvictStep::Fail(e),
                    None => if old(self).pending@.len() == 0 {
                        EvictStep::Done
                    } else {
                        EvictStep::Synchronize
                    },
                }
            }),
            step matches EvictStep::Copy(ctx) ==> final(pool)@.evict_ok(ctx)
                && old(pool)@.resides_at(ctx.handle, ctx.block_idx as int),
    {
        while self.next < self.victims.len()
            invariant
                pool.wf(),
                self.wf(pool@),
                self.victims@ == old(self).victims@,
                self.pending@ == old(self).pending@,
                pool@.evict_advanced(self.victims@, self.next as int) == old(pool)@.evict_advanced(old(self).victims@, old(self).next as int),
                forall|h: BlockHandle, k: int| #[trigger]
                    pool@.resides_at(h, k) ==> old(pool)@.resides_at(h, k),
            decreases self.victims@.len() - self.next,
        {
            let victim: BlockHandle = self.victims[self.next];
            let ghost before = pool@;
            self.next = self.next + 1;
            let prepared = pool.evict_prepare(victim);
            proof {
                assert forall|i: int| 0 <= i < self.pending@.len() implies pool@.evict_ok(
                    #[trigger] self.pending@[i],
                ) by {
                    assert(before.evict_ok(self.pending@[i]));
                }
            }
            match prepared {
                Ok(ctx) => {
                    return EvictStep::Copy(ctx);
                },
                Err(e) => {
                    if let EvictError::VictimNotFound(_) = e {
                        return EvictStep::Fail(e);
                    }
                },
            }
        }
        if self.pending.len() == 0 {
            EvictStep::Done
        } else {
            EvictStep::Synchronize
        }
    }

    /// The copies of a block were queued, or could not be.
    pub fn submitted(&mut self, pool: &mut KcmmPool, ctx: EvictContext, ok: bool)
        requires
            old(pool).wf(),
            old(self).wf(old(pool)@),
            old(pool)@.evict_ok(ctx),
        ensures
            final(pool).wf(),
            final(self).wf(final(pool)@),
            final(self).victims@ == old(self).victims@,
            final(self).next == old(self).next,
            final(self).pending@ == if ok {
                old(self).pending@.push(ctx)
            } else {
                old(self).pending@
            },
            final(pool)@ == if ok {
                old(pool)@
            } else {
                old(pool)@.evict_rolled_back(ctx)
            },
    {
        if ok {
            self.pending.push(ctx);
        } else {
            pool.evict_rollback(ctx);
            proof {
                assert forall|i: int| 0 <= i < self.pending@.len() implies pool@.evict_ok(
                    #[trigger] self.pending@[i],
                ) by {
                    assert(old(pool)@.evict_ok(self.pending@[i]));
                }
            }
        }
    }

    /// The queued copies arrived, or waiting for them failed.
    pub fn synchronized(self, pool: &mut KcmmPool, ok: bool) -> (r: Result<
        Vec<BlockHandle>,
        EvictError,
    >)
        requires
            old(pool).wf(),
            self.wf(old(pool)@),
        ensures
            final(pool).wf(),
            ok ==> final(pool)@ == old(pool)@.evict_all_finalized(self.pending@) && r is Ok
                && r->Ok_0@ == old(pool)@.evicted_handles(self.pending@),
            !ok ==> final(pool)@ == old(pool)@.evict_all_rolled_back(self.pending@) && r == Err::<
                Vec<BlockHandle>,
                EvictError,
            >(EvictError::SyncFailed),
    {
        if ok {
            Ok(pool.evict_finish(&self.pending))
        } else {
            pool.evict_abort(&self.pending);
            Err(EvictError::SyncFailed)
        }
    }
}

} // verus!
