use vstd::prelude::*;

use crate::batch::backend::CacheBackend;
use crate::batch::continuous_scheduler::{
    ContinuousScheduler, RunningRequest, RunningView, SchedView, SwappedRequest,
};
use crate::cache::swap;
use crate::cache::swap::SwapManager;
use crate::kcmm::pool_model::PoolView;

verus! {

/// What the caller has to do to bring the first swapped request back.
#[derive(Debug)]
pub enum RestoreAction {
    /// Restore the evicted blocks of the table in the pool.
    RestoreBlocks { block_table: Vec<u32> },
    /// Copy the first swapped request's data back into newly allocated blocks.
    RestoreSequence,
    /// No request can be brought back.
    Done,
}

impl SchedView {
    /// After the first swapped request came back with sequence `seq_idx`.
    pub open spec fn resumed(self, seq_idx: usize) -> Self {
        let w = self.swapped[0];
        SchedView {
            running: self.running.push(
                RunningView {
                    req: w.request,
                    ticket: w.ticket,
                    state: w.state,
                    position: w.position,
                    seq_idx,
                    num_blocks: w.num_blocks,
                    generated: w.generated,
                },
            ),
            swapped: self.swapped.remove(0),
            epochs: self.epochs.insert(seq_idx as u64, self.epoch),
            ..self
        }
    }

    /// How restoration goes on: the first swapped request is brought back,
    /// while there is one and the batch has room. In a tiered pool a sequence
    /// without blocks ends it.
    pub open spec fn restores(
        self,
        pool: PoolView,
        kcmm: bool,
        max_batch: usize,
        action: RestoreAction,
    ) -> bool {
        let seq_idx = self.swapped[0].seq_idx as int;
        if self.swapped.len() == 0 || self.running.len() >= max_batch {
            action is Done
        } else if !kcmm {
            action is RestoreSequence
        } else if seq_idx < pool.sequences.len() && pool.sequences[seq_idx].block_table.len() > 0 {
            &&& action matches RestoreAction::RestoreBlocks { block_table }
            &&& block_table@ == pool.sequences[seq_idx].block_table
        } else {
            action is Done
        }
    }
}

impl ContinuousScheduler {
    /// Look for a swapped request to bring back.
    pub fn try_restore_swapped(&self, cache: &CacheBackend) -> (r: RestoreAction)
        requires
            cache.wf(),
        ensures
            self@.restores(cache@, cache is Kcmm, self.max_batch, r),
    {
        if self.swapped.len() == 0 || self.running.len() >= self.max_batch {
            return RestoreAction::Done;
        }
        assert(self@.swapped[0] == self.swapped@[0]@);
        match cache.kcmm_pool() {
            None => RestoreAction::RestoreSequence,
            Some(pool) => match pool.get_block_table(self.swapped[0].seq_idx) {
                Some(block_table) => if block_table.len() > 0 {
                    RestoreAction::RestoreBlocks { block_table }
                } else {
                    RestoreAction::Done
                },
                None => RestoreAction::Done,
            },
        }
    }

    /// Move the first swapped request to the running ones.
    fn resume(&mut self, seq_idx: usize)
        requires
            old(self)@.swapped.len() > 0,
        ensures
            final(self).same_setup(&*old(self)),
            final(self)@ == old(self)@.resumed(seq_idx),
    {
        broadcast use vstd::std_specs::hash::group_hash_axioms;

        let w: SwappedRequest = self.swapped.remove(0);
        self.seq_last_epoch.insert(seq_idx as u64, self.epoch);
        self.running.push(
            RunningRequest {
                req: w.request,
                ticket: w.ticket,
                state: w.state,
                position: w.position,
                seq_idx,
                num_blocks: w.num_blocks,
                generated: w.generated,
            },
        );
        proof {
            let want = old(self)@.resumed(seq_idx);
            assert(self@.running =~= want.running);
            assert(self@.waiting =~= want.waiting);
            assert(self@.swapped =~= want.swapped);
        }
    }

    /// The first swapped request's blocks are back in the pool: it runs again.
    pub fn blocks_restored(&mut self, cache: &mut CacheBackend) -> (r: RestoreAction)
        requires
            old(cache).wf(),
            *old(cache) is Kcmm,
            old(self)@.swapped.len() > 0,
        ensures
            final(self).same_setup(&*old(self)),
            final(cache).wf(),
            final(cache).same_kind(&*old(cache)),
            final(self)@ == old(self)@.resumed(old(self)@.swapped[0].seq_idx),
            final(cache)@ == old(cache)@.with_active(
                old(self)@.swapped[0].seq_idx as int,
                true,
            ),
            final(self)@.restores(final(cache)@, true, old(self).max_batch, r),
    {
        assert(self@.swapped[0] == self.swapped@[0]@);
        let seq_idx: usize = self.swapped[0].seq_idx;
        cache.touch(seq_idx);
        self.resume(seq_idx);
        self.try_restore_swapped(cache)
    }

    /// The first swapped request's data is back in newly allocated blocks: the
    /// host copy is given up, a sequence is registered, and the request runs
    /// again.
    pub fn sequence_restored(&mut self, cache: &mut CacheBackend, block_table: Vec<u32>) -> (r:
        RestoreAction)
        requires
            old(cache).wf(),
            *old(cache) is Baseline,
            old(cache)@.table_ok(block_table@),
            old(self)@.swapped.len() > 0,
            old(self)@.swapped[0].kv_data.host_bytes() <= usize::MAX,
            old(self)@.swap_manager is Some,
        ensures
            final(self).same_setup(&*old(self)),
            final(cache).wf(),
            final(cache).same_kind(&*old(cache)),
            ({
                let w = old(self)@.swapped[0];
                let seq_idx = old(cache)@.sequences.len();
                &&& final(self)@ == SchedView {
                    swap_manager: Some(
                        SwapManager {
                            total_swapped_bytes: swap::deducted(
                                old(self)@.swap_manager->0.total_swapped_bytes as int,
                                w.kv_data.host_bytes() as int,
                            ) as usize,
                        },
                    ),
                    ..old(self)@.resumed(seq_idx as usize)
                }
                &&& final(cache)@ == old(cache)@.with_registered(block_table@).with_seq_len(
                    seq_idx as int,
                    w.position,
                )
            }),
            final(self)@.restores(final(cache)@, false, old(self).max_batch, r),
    {
        assert(self@.swapped[0] == self.swapped@[0]@);
        if let Some(manager) = self.swap_manager.as_mut() {
            manager.drop_swapped(&self.swapped[0].kv_data);
        }
        let position: usize = self.swapped[0].position;
        let seq_idx: usize = cache.register_sequence(block_table);
        cache.update_seq_len(seq_idx, position);
        self.resume(seq_idx);
        self.try_restore_swapped(cache)
    }
}

} // verus!
