use vstd::prelude::*;

use crate::kcmm::cpu_slots;
use crate::kcmm::evict;
use crate::kcmm::evict::BatchOutcome;
use crate::kcmm::policy::PolicyKind;
use crate::kcmm::pool::{BlockLocation, KcmmPool, PoolError};
use crate::kcmm::pool_model;
use crate::kcmm::pool_model::PoolView;
use crate::kcmm::superblock;
use crate::kcmm::superblock::BlockHandle;

verus! {

/// A block on its way back to the GPU, between submit and finalize.
#[derive(Debug, Clone, Copy, PartialEq, Eq, Structural)]
pub struct RestoreContext {
    pub block_idx: u32,
    pub cpu_offset: usize,
    pub total_bytes: usize,
    pub new_handle: BlockHandle,
    pub va_offset: usize,
}

/// What restoring a block starts with.
#[derive(Debug, Clone, Copy, PartialEq, Eq, Structural)]
pub enum RestoreStart {
    /// The block resides in GPU memory at this offset already.
    Resident(u64),
    /// The block's data has to be copied.
    Copy(RestoreContext),
}

impl PoolView {
    /// What a restore in progress refers to exists.
    pub open spec fn restore_ok(self, ctx: RestoreContext) -> bool {
        &&& self.pools.valid(ctx.new_handle)
        &&& ctx.va_offset == self.pools.offset(ctx.new_handle)
        &&& ctx.total_bytes == self.slot_bytes()
        &&& ctx.cpu_offset + ctx.total_bytes <= usize::MAX
    }

    /// The pool, and the restore in progress, after block `i` got a physical
    /// block. Where none can be had the block stays in the swap buffer. A
    /// block that does not reside at `cpu_offset` there stays as it is.
    pub open spec fn restore_submitted(
        self,
        i: u32,
        cpu_offset: usize,
        grants: Seq<Seq<u64>>,
        used: nat,
    ) -> (Self, Result<RestoreContext, PoolError>) {
        if !self.used(i) {
            (self, Err(self.use_error(i)->Err_0))
        } else if self.blocks[i as int].location != BlockLocation::CpuResident(cpu_offset) {
            (self, Err(PoolError::NotSwapped(i)))
        } else {
            let marked = self.located(i as int, BlockLocation::Restoring);
            match marked.next_physical(grants, used) {
                None => (
                    marked.physical_taken(grants, used).located(
                        i as int,
                        BlockLocation::CpuResident(cpu_offset),
                    ),
                    Err(PoolError::OutOfMemory),
                ),
                Some(h) => {
                    let taken = marked.physical_taken(grants, used);
                    (
                        taken.backed(i as int, h),
                        Ok(
                            RestoreContext {
                                block_idx: i,
                                cpu_offset,
                                total_bytes: self.slot_bytes() as usize,
                                new_handle: h,
                                va_offset: taken.pools.offset(h) as usize,
                            },
                        ),
                    )
                },
            }
        }
    }

    /// How many grants have been used when a restore was submitted.
    pub open spec fn restore_used(
        self,
        i: u32,
        cpu_offset: usize,
        grants: Seq<Seq<u64>>,
        used: nat,
    ) -> nat {
        if self.used(i) && self.blocks[i as int].location == BlockLocation::CpuResident(
            cpu_offset,
        ) {
            self.used_after(grants, used)
        } else {
            used
        }
    }

    /// The pool after a restore in progress was called off: the physical block
    /// is free again and the block resides in the swap buffer as before.
    pub open spec fn restore_rolled_back(self, ctx: RestoreContext) -> Self {
        if self.used(ctx.block_idx) {
            self.released(ctx.block_idx as int).located(
                ctx.block_idx as int,
                BlockLocation::CpuResident(ctx.cpu_offset),
            )
        } else {
            self
        }
    }

    /// The pool after all listed restores were called off.
    pub open spec fn restore_all_rolled_back(self, pending: Seq<RestoreContext>) -> Self
        decreases pending.len(),
    {
        if pending.len() == 0 {
            self
        } else {
            self.restore_all_rolled_back(pending.drop_last()).restore_rolled_back(pending.last())
        }
    }

    /// The pool after the data of a restored block arrived: it resides in GPU
    /// memory, its slot is free, and the policy counts an access.
    pub open spec fn restore_finalized(self, ctx: RestoreContext, now: u64) -> Self {
        if self.used(ctx.block_idx) {
            let t = self.tiering->0;
            self.located(
                ctx.block_idx as int,
                BlockLocation::GpuResident(ctx.new_handle, ctx.va_offset as u64),
            ).with_slots(
                cpu_slots::freed(t.slots, ctx.cpu_offset, ctx.total_bytes),
            ).with_scores(t.kind.scores_on_access(t.scores, ctx.new_handle, now))
        } else {
            self
        }
    }

    /// The pool after all listed restores were finalized.
    pub open spec fn restore_all_finalized(self, pending: Seq<RestoreContext>, now: u64) -> Self
        decreases pending.len(),
    {
        if pending.len() == 0 {
            self
        } else {
            self.restore_all_finalized(pending.drop_last(), now).restore_finalized(
                pending.last(),
                now,
            )
        }
    }

    /// Every block that the policy knows can be counted `n` more times.
    pub open spec fn counts_have_room(self, n: int) -> bool {
        self.tiering matches Some(t) ==> t.kind != PolicyKind::Lfu || {
            &&& n <= u64::MAX
            &&& forall|k: u64| #[trigger] t.scores.contains_key(k) ==> t.scores[k] + n <= u64::MAX
        }
    }

    /// The pool, the restores in progress and the grants used after all listed
    /// blocks were submitted. Blocks that cannot be restored are passed over.
    pub open spec fn restore_begun(self, blocks: Seq<(u32, usize)>, grants: Seq<Seq<u64>>) -> (
        Self,
        Seq<RestoreContext>,
        nat,
    )
        decreases blocks.len(),
    {
        if blocks.len() == 0 {
            (self, Seq::empty(), 0)
        } else {
            let (state, pending, used) = self.restore_begun(blocks.drop_last(), grants);
            let (i, offset) = blocks.last();
            let used2 = state.restore_used(i, offset, grants, used);
            match state.restore_submitted(i, offset, grants, used) {
                (next, Ok(ctx)) => (next, pending.push(ctx), used2),
                (next, Err(_)) => (next, pending, used2),
            }
        }
    }

    /// Why block `i` cannot be restored; `None` if it can, or need not be.
    pub open spec fn restore_error(self, i: u32) -> Option<PoolError> {
        if !self.used(i) {
            Some(self.use_error(i)->Err_0)
        } else {
            match self.blocks[i as int].location {
                BlockLocation::Evicting => Some(PoolError::InTransit(i)),
                BlockLocation::Restoring => Some(PoolError::InTransit(i)),
                BlockLocation::NvmeResident(_) => Some(PoolError::NvmeResident(i)),
                _ => None,
            }
        }
    }

    /// Why the first of the listed blocks that cannot be restored cannot.
    pub open spec fn first_restore_error(self, list: Seq<u32>) -> Option<PoolError>
        decreases list.len(),
    {
        if list.len() == 0 {
            None
        } else {
            match self.first_restore_error(list.drop_last()) {
                Some(e) => Some(e),
                None => self.restore_error(list.last()),
            }
        }
    }

    /// The listed blocks that reside in the swap buffer, with their offsets.
    pub open spec fn swapped_blocks(self, list: Seq<u32>) -> Seq<(u32, usize)>
        decreases list.len(),
    {
        if list.len() == 0 {
            Seq::empty()
        } else {
            let rest = self.swapped_blocks(list.drop_last());
            match self.blocks[list.last() as int].location {
                BlockLocation::CpuResident(offset) => rest.push((list.last(), offset)),
                _ => rest,
            }
        }
    }
}

impl KcmmPool {
    /// First phase of restoring a block from the swap buffer: take a physical
    /// block and mark the block. The caller then copies the data and reports
    /// back. Only a block that resides at `cpu_offset` is restored. Returns
    /// also how many grants have been used.
    pub fn restore_submit_async(
        &mut self,
        block_idx: u32,
        cpu_offset: usize,
        grants: &Vec<Vec<u64>>,
        used: usize,
    ) -> (r: (Result<RestoreContext, PoolError>, usize))
        requires
            old(self).wf(),
            used <= grants@.len(),
            old(self).grants_ok(grants@.skip(used as int)),
        ensures
            final(self).wf(),
            (final(self)@, r.0) == old(self)@.restore_submitted(
                block_idx,
                cpu_offset,
                pool_model::grants_view(grants@),
                used as nat,
            ),
            r.1 == old(self)@.restore_used(
                block_idx,
                cpu_offset,
                pool_model::grants_view(grants@),
                used as nat,
            ),
            r.1 <= grants@.len(),
            final(self).grants_ok(grants@.skip(r.1 as int)),
            r.0 matches Ok(ctx) ==> final(self)@.restore_ok(ctx),
            final(self)@.shape == old(self)@.shape,
            final(self)@.tiering == old(self)@.tiering,
            final(self)@.blocks.len() == old(self)@.blocks.len(),
            final(self)@.pools.block_bytes == old(self)@.pools.block_bytes,
            final(self)@.pools.blocks_per_superblock == old(self)@.pools.blocks_per_superblock,
            final(self)@.pools.backing.len() >= old(self)@.pools.backing.len(),
    {
        let total_bytes: usize = self.slot_bytes();
        if let Some(location) = self.get_block_location(block_idx) {
            assert(self@.block_ok(self@.blocks[block_idx as int]));
            let swapped: bool = match location {
                BlockLocation::CpuResident(offset) => offset == cpu_offset,
                _ => false,
            };
            if !swapped {
                return (Err(PoolError::NotSwapped(block_idx)), used);
            }
        }
        match self.set_block_location(block_idx, BlockLocation::Restoring) {
            Err(e) => {
                return (Err(e), used);
            },
            Ok(()) => {},
        }
        let (taken, spent) = self.alloc_one_block_internal(grants, used);
        match taken {
            None => {
                let _ = self.set_block_location(block_idx, BlockLocation::CpuResident(cpu_offset));
                (Err(PoolError::OutOfMemory), spent)
            },
            Some((va_offset, new_handle)) => {
                let _ = self.update_block_physical(block_idx, va_offset, new_handle);
                (
                    Ok(RestoreContext { block_idx, cpu_offset, total_bytes, new_handle, va_offset }),
                    spent,
                )
            },
        }
    }

    /// Call off a restore in progress.
    pub fn restore_rollback(&mut self, ctx: RestoreContext)
        requires
            old(self).wf(),
            old(self)@.restore_ok(ctx),
        ensures
            final(self).wf(),
            final(self)@ == old(self)@.restore_rolled_back(ctx),
            final(self)@.shape == old(self)@.shape,
            final(self)@.tiering == old(self)@.tiering,
            final(self)@.pools.block_bytes == old(self)@.pools.block_bytes,
            final(self)@.pools.blocks_per_superblock == old(self)@.pools.blocks_per_superblock,
            final(self)@.pools.backing == old(self)@.pools.backing,
    {
        if self.release_block_physical(ctx.block_idx).is_ok() {
            let _ = self.set_block_location(
                ctx.block_idx,
                BlockLocation::CpuResident(ctx.cpu_offset),
            );
        }
    }

    /// Last phase of restoring a block, once its data arrived in GPU memory.
    pub fn restore_finalize(&mut self, ctx: RestoreContext, now: u64) -> (r: Result<(), PoolError>)
        requires
            old(self).wf(),
            old(self)@.tiering is Some,
            old(self)@.restore_ok(ctx),
            old(self)@.counts_have_room(1),
        ensures
            final(self).wf(),
            r == old(self)@.use_error(ctx.block_idx),
            final(self)@ == old(self)@.restore_finalized(ctx, now),
            final(self)@.shape == old(self)@.shape,
            final(self)@.tiering is Some,
            final(self)@.pools == old(self)@.pools,
            forall|n: int| 1 <= n && old(self)@.counts_have_room(n) ==> final(self)@.counts_have_room(n - 1),
    {
        let ghost s0 = self@;
        match self.set_block_location(
            ctx.block_idx,
            BlockLocation::GpuResident(ctx.new_handle, ctx.va_offset as u64),
        ) {
            Err(e) => Err(e),
            Ok(()) => {
                let ghost s1 = self@;
                assert(s1.tiering == s0.tiering);
                assert(s0.tiering->0.kind.can_count(s0.tiering->0.scores, ctx.new_handle));
                if let Some(t) = &mut self.tiering {
                    t.free_cpu_slot(ctx.cpu_offset, ctx.total_bytes);
                    t.eviction_policy.on_access(ctx.new_handle, now);
                }
                proof {
                    let t = self@.tiering->0;
                    evict::lemma_with_slots_wf(s1, t.slots);
                    evict::lemma_with_scores_wf(s1.with_slots(t.slots), t.scores);
                    assert(self@ =~= s1.with_slots(t.slots).with_scores(t.scores));
                    assert(self@ =~= s0.restore_finalized(ctx, now));
                    assert forall|n: int| 1 <= n && s0.counts_have_room(n) implies self@.counts_have_room(
                        n - 1,
                    ) by {
                        let t0 = s0.tiering->0;
                        if t0.kind == PolicyKind::Lfu {
                            assert forall|k: u64| #[trigger]
                                t.scores.contains_key(k) implies t.scores[k] + (n - 1)
                                <= u64::MAX by {
                                if t0.scores.contains_key(k) {
                                    assert(t0.scores[k] + n <= u64::MAX);
                                }
                            }
                        }
                    }
                }
                Ok(())
            },
        }
    }

    /// Start restoring a block from the swap buffer. A block that resides in
    /// GPU memory already is left alone.
    pub fn restore_begin(&mut self, block_idx: u32, grants: &Vec<Vec<u64>>) -> (r: Result<
        RestoreStart,
        PoolError,
    >)
        requires
            old(self).wf(),
            old(self).grants_ok(grants@),
        ensures
            final(self).wf(),
            old(self)@.tiering is None ==> final(self)@ == old(self)@ && r == Err::<
                RestoreStart,
                PoolError,
            >(PoolError::TieringDisabled),
            old(self)@.tiering is Some ==> match old(self)@.restore_error(block_idx) {
                Some(e) => final(self)@ == old(self)@ && r == Err::<RestoreStart, PoolError>(e),
                None => match old(self)@.blocks[block_idx as int].location {
                    BlockLocation::CpuResident(offset) => {
                        let (state, result) = old(self)@.restore_submitted(
                            block_idx,
                            offset,
                            pool_model::grants_view(grants@),
                            0,
                        );
                        final(self)@ == state && r == match result {
                            Ok(ctx) => Ok::<RestoreStart, PoolError>(RestoreStart::Copy(ctx)),
                            Err(e) => Err(e),
                        }
                    },
                    BlockLocation::GpuResident(_, va) => final(self)@ == old(self)@ && r == Ok::<
                        RestoreStart,
                        PoolError,
                    >(RestoreStart::Resident(va)),
                    _ => true,
                },
            },
            r matches Ok(RestoreStart::Copy(ctx)) ==> final(self)@.restore_ok(ctx),
    {
        if self.tiering.is_none() {
            return Err(PoolError::TieringDisabled);
        }
        if block_idx as usize >= self.block_info.len() {
            return Err(PoolError::BlockOutOfBounds(block_idx));
        }
        let info = self.block_info[block_idx as usize];
        if !info.in_use {
            return Err(PoolError::BlockNotInUse(block_idx));
        }
        match info.location {
            BlockLocation::CpuResident(offset) => {
                assert(grants@.skip(0) =~= grants@);
                match self.restore_submit_async(block_idx, offset, grants, 0).0 {
                    Ok(ctx) => Ok(RestoreStart::Copy(ctx)),
                    Err(e) => Err(e),
                }
            },
            BlockLocation::GpuResident(_, va) => Ok(RestoreStart::Resident(va)),
            BlockLocation::Evicting => Err(PoolError::InTransit(block_idx)),
            BlockLocation::Restoring => Err(PoolError::InTransit(block_idx)),
            BlockLocation::NvmeResident(_) => Err(PoolError::NvmeResident(block_idx)),
        }
    }

    /// End the restore of one block: its data arrived, or the copy failed.
    /// Returns the block's offset.
    pub fn restore_end(&mut self, ctx: RestoreContext, copied: bool, now: u64) -> (r: Result<
        u64,
        PoolError,
    >)
        requires
            old(self).wf(),
            old(self)@.tiering is Some,
            old(self)@.restore_ok(ctx),
            old(self)@.counts_have_room(1),
        ensures
            final(self).wf(),
            copied ==> final(self)@ == old(self)@.restore_finalized(ctx, now) && r == match old(self)@.use_error(ctx.block_idx) {
                Ok(()) => Ok::<u64, PoolError>(ctx.va_offset as u64),
                Err(e) => Err(e),
            },
            !copied ==> final(self)@ == old(self)@.restore_rolled_back(ctx) && r == Err::<
                u64,
                PoolError,
            >(PoolError::CopyFailed),
    {
        if copied {
            match self.restore_finalize(ctx, now) {
                Ok(()) => Ok(ctx.va_offset as u64),
                Err(e) => Err(e),
            }
        } else {
            self.restore_rollback(ctx);
            Err(PoolError::CopyFailed)
        }
    }

    /// Which of the listed blocks have to be restored, and where their data
    /// is. Fails at the first block that cannot be restored.
    pub fn restorable(&self, block_indices: &[u32]) -> (r: Result<Vec<(u32, usize)>, PoolError>)
        requires
            self.wf(),
        ensures
            self@.tiering is None ==> r == Err::<Vec<(u32, usize)>, PoolError>(
                PoolError::TieringDisabled,
            ),
            self@.tiering is Some ==> match self@.first_restore_error(block_indices@) {
                Some(e) => r == Err::<Vec<(u32, usize)>, PoolError>(e),
                None => r is Ok && r->Ok_0@ == self@.swapped_blocks(block_indices@),
            },
    {
        if self.tiering.is_none() {
            return Err(PoolError::TieringDisabled);
        }
        let mut out: Vec<(u32, usize)> = Vec::new();
        let mut i: usize = 0;
        assert(block_indices@.take(0) =~= Seq::<u32>::empty());
        while i < block_indices.len()
            invariant
                self.wf(),
                self@.tiering is Some,
                i <= block_indices@.len(),
                self@.first_restore_error(block_indices@.take(i as int)) is None,
                out@ == self@.swapped_blocks(block_indices@.take(i as int)),
            decreases block_indices@.len() - i,
        {
            let idx: u32 = block_indices[i];
            proof {
                let t = block_indices@.take(i + 1);
                assert(t.drop_last() =~= block_indices@.take(i as int));
                assert(t.last() == idx);
            }
            let mut error: Option<PoolError> = None;
            if idx as usize >= self.block_info.len() {
                error = Some(PoolError::BlockOutOfBounds(idx));
            } else if !self.block_info[idx as usize].in_use {
                error = Some(PoolError::BlockNotInUse(idx));
            } else {
                match self.block_info[idx as usize].location {
                    BlockLocation::CpuResident(offset) => {
                        out.push((idx, offset));
                    },
                    BlockLocation::GpuResident(_, _) => {},
                    BlockLocation::Evicting => {
                        error = Some(PoolError::InTransit(idx));
                    },
                    BlockLocation::Restoring => {
                        error = Some(PoolError::InTransit(idx));
                    },
                    BlockLocation::NvmeResident(_) => {
                        error = Some(PoolError::NvmeResident(idx));
                    },
                }
            }
            if let Some(e) = error {
                proof {
                    lemma_first_error_stays(self@, block_indices@, i + 1);
                }
                return Err(e);
            }
            i = i + 1;
        }
        assert(block_indices@.take(block_indices@.len() as int) =~= block_indices@);
        Ok(out)
    }

    /// Take physical blocks for a whole batch of blocks to restore, and mark
    /// them. Blocks for which none can be had are passed over.
    pub fn restore_begin_batched(&mut self, blocks: &Vec<(u32, usize)>, grants: &Vec<Vec<u64>>) -> (pending: Vec<
        RestoreContext,
    >)
        requires
            old(self).wf(),
            old(self).grants_ok(grants@),
        ensures
            final(self).wf(),
            (final(self)@, pending@) == ({
                let (state, list, used) = old(self)@.restore_begun(
                    blocks@,
                    pool_model::grants_view(grants@),
                );
                (state, list)
            }),
            forall|i: int|
                0 <= i < pending@.len() ==> final(self)@.restore_ok(#[trigger] pending@[i]),
            final(self)@.tiering == old(self)@.tiering,
    {
        let ghost gs = pool_model::grants_view(grants@);
        let mut pending: Vec<RestoreContext> = Vec::new();
        let mut used: usize = 0;
        let mut i: usize = 0;
        assert(grants@.skip(0) =~= grants@);
        assert(blocks@.take(0) =~= Seq::<(u32, usize)>::empty());
        while i < blocks.len()
            invariant
                gs == pool_model::grants_view(grants@),
                self.wf(),
                self@.shape == old(self)@.shape,
                self@.tiering == old(self)@.tiering,
                used <= grants@.len(),
                self.grants_ok(grants@.skip(used as int)),
                i <= blocks@.len(),
                (self@, pending@, used as nat) == old(self)@.restore_begun(
                    blocks@.take(i as int),
                    gs,
                ),
                forall|k: int| 0 <= k < pending@.len() ==> self@.restore_ok(#[trigger] pending@[k]),
            decreases blocks@.len() - i,
        {
            let (idx, offset) = blocks[i];
            let ghost before = self@;
            proof {
                let t = blocks@.take(i + 1);
                assert(t.drop_last() =~= blocks@.take(i as int));
                assert(t.last() == blocks@[i as int]);
            }
            let (result, spent) = self.restore_submit_async(idx, offset, grants, used);
            used = spent;
            proof {
                assert forall|k: int| 0 <= k < pending@.len() implies self@.restore_ok(
                    #[trigger] pending@[k],
                ) by {
                    assert(before.restore_ok(pending@[k]));
                }
            }
            if let Ok(ctx) = result {
                pending.push(ctx);
            }
            i = i + 1;
        }
        assert(blocks@.take(blocks@.len() as int) =~= blocks@);
        pending
    }

    /// End a batch of restores. Where waiting failed all blocks are back in
    /// the swap buffer; where the copies could not be queued they stay marked.
    pub fn restore_end_batched(
        &mut self,
        pending: &Vec<RestoreContext>,
        outcome: BatchOutcome,
        now: u64,
    ) -> (r: Result<(), PoolError>)
        requires
            old(self).wf(),
            old(self)@.tiering is Some,
            forall|i: int| 0 <= i < pending@.len() ==> old(self)@.restore_ok(#[trigger] pending@[i]),
            old(self)@.counts_have_room(pending@.len() as int),
        ensures
            final(self).wf(),
            outcome == BatchOutcome::Completed ==> final(self)@ == old(self)@.restore_all_finalized(
                pending@,
                now,
            ) && r == Ok::<(), PoolError>(()),
            outcome == BatchOutcome::SyncFailed ==> final(self)@
                == old(self)@.restore_all_rolled_back(pending@) && r == Err::<(), PoolError>(
                PoolError::CopyFailed,
            ),
            outcome == BatchOutcome::SubmitFailed ==> final(self)@ == old(self)@ && r == Err::<
                (),
                PoolError,
            >(PoolError::CopyFailed),
    {
        match outcome {
            BatchOutcome::SubmitFailed => Err(PoolError::CopyFailed),
            BatchOutcome::SyncFailed => {
                let mut i: usize = 0;
                assert(pending@.take(0) =~= Seq::<RestoreContext>::empty());
                while i < pending.len()
                    invariant
                        i <= pending@.len(),
                        self.wf(),
                        self@.shape == old(self)@.shape,
                        self@.pools.block_bytes == old(self)@.pools.block_bytes,
                        self@.pools.blocks_per_superblock == old(self)@.pools.blocks_per_superblock,
                        self@.pools.backing == old(self)@.pools.backing,
                        forall|k: int|
                            0 <= k < pending@.len() ==> old(self)@.restore_ok(
                                #[trigger] pending@[k],
                            ),
                        self@ == old(self)@.restore_all_rolled_back(pending@.take(i as int)),
                    decreases pending@.len() - i,
                {
                    proof {
                        assert(pending@.take(i + 1).drop_last() =~= pending@.take(i as int));
                        assert(old(self)@.restore_ok(pending@[i as int]));
                    }
                    self.restore_rollback(pending[i]);
                    i = i + 1;
                }
                assert(pending@.take(pending@.len() as int) =~= pending@);
                Err(PoolError::CopyFailed)
            },
            BatchOutcome::Completed => {
                let mut i: usize = 0;
                assert(pending@.take(0) =~= Seq::<RestoreContext>::empty());
                while i < pending.len()
                    invariant
                        i <= pending@.len(),
                        self.wf(),
                        self@.tiering is Some,
                        self@.shape == old(self)@.shape,
                        self@.pools == old(self)@.pools,
                        self@.counts_have_room(pending@.len() - i),
                        forall|k: int|
                            0 <= k < pending@.len() ==> old(self)@.restore_ok(
                                #[trigger] pending@[k],
                            ),
                        self@ == old(self)@.restore_all_finalized(pending@.take(i as int), now),
                    decreases pending@.len() - i,
                {
                    proof {
                        assert(pending@.take(i + 1).drop_last() =~= pending@.take(i as int));
                        assert(old(self)@.restore_ok(pending@[i as int]));
                    }
                    let _ = self.restore_finalize(pending[i], now);
                    i = i + 1;
                }
                assert(pending@.take(pending@.len() as int) =~= pending@);
                Ok(())
            },
        }
    }
}

/// Blocks behind one that cannot be restored change nothing.
proof fn lemma_first_error_stays(s: PoolView, list: Seq<u32>, i: int)
    requires
        0 <= i <= list.len(),
        s.first_restore_error(list.take(i)) is Some,
    ensures
        s.first_restore_error(list) == s.first_restore_error(list.take(i)),
    decreases list.len(),
{
    if i == list.len() {
        assert(list.take(i) =~= list);
    } else {
        assert(list.drop_last().take(i) =~= list.take(i));
        lemma_first_error_stays(s, list.drop_last(), i);
    }
}

} // verus!
