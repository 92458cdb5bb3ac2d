use vstd::prelude::*;

use crate::batch::backend::CacheBackend;
use crate::batch::continuous_scheduler::{
    ContinuousScheduler, RequestState, RunningRequest, RunningView, SchedView,
};
use crate::cache::paged_kv::BLOCK_SIZE;
use crate::kcmm::pool_model;
use crate::kcmm::pool_model::PoolView;
use crate::kcmm::superblock::INDEX_COUNT;

verus! {

/// What one forward step works on, by running request.
#[derive(Debug)]
pub struct StepInputs {
    pub seq_indices: Vec<usize>,
    pub positions: Vec<usize>,
    pub token_ids: Vec<u32>,
}

/// What the scheduler does after it admitted and restored what it could.
#[derive(Debug, Clone, Copy, PartialEq, Eq, Structural)]
pub enum RoundDecision {
    /// Wait for a request.
    Wait,
    /// Try once more to bring a swapped request back.
    Restore,
    /// Run a forward step.
    Step,
}

impl RunningView {
    /// A request in prefill has a prompt token left.
    pub open spec fn ok(self) -> bool {
        self.state matches RequestState::Prefill { prompt_pos } ==> prompt_pos
            < self.req.prompt_tokens.len()
    }

    /// The token that the next step consumes: a prompt token, or the one
    /// generated last, or token zero where none was generated.
    pub open spec fn input_token(self) -> u32 {
        match self.state {
            RequestState::Prefill { prompt_pos } => self.req.prompt_tokens[prompt_pos as int],
            RequestState::Decode => if self.generated.len() > 0 {
                self.generated.last()
            } else {
                0
            },
        }
    }

    /// Blocks that the next step needs.
    pub open spec fn blocks_needed(self) -> int {
        self.position / BLOCK_SIZE + 1
    }

    /// After a step that sampled `token`. In prefill the token is not used.
    pub open spec fn stepped(self, token: u32) -> Self {
        match self.state {
            RequestState::Prefill { prompt_pos } => if prompt_pos + 1
                >= self.req.prompt_tokens.len() {
                RunningView {
                    state: RequestState::Decode,
                    position: self.req.prompt_tokens.len() as usize,
                    ..self
                }
            } else {
                RunningView {
                    state: RequestState::Prefill { prompt_pos: (prompt_pos + 1) as usize },
                    position: (prompt_pos + 1) as usize,
                    ..self
                }
            },
            RequestState::Decode => RunningView {
                generated: self.generated.push(token),
                position: (self.position + 1) as usize,
                ..self
            },
        }
    }

    /// The sequence length that a step reports to the cache: the whole prompt
    /// during prefill.
    pub open spec fn reported_len(self) -> usize {
        match self.state {
            RequestState::Prefill { .. } => self.req.prompt_tokens.len() as usize,
            RequestState::Decode => (self.position + 1) as usize,
        }
    }
}

/// The epochs after the first `n` running requests were accessed.
pub open spec fn epochs_after(
    running: Seq<RunningView>,
    epochs: Map<u64, u64>,
    epoch: u64,
    n: nat,
) -> Map<u64, u64>
    decreases n,
{
    if n == 0 {
        epochs
    } else {
        epochs_after(running, epochs, epoch, (n - 1) as nat).insert(
            running[n - 1].seq_idx as u64,
            epoch,
        )
    }
}

/// The pool after the first `n` running requests were marked as accessed.
pub open spec fn touched(running: Seq<RunningView>, pool: PoolView, n: nat) -> PoolView
    decreases n,
{
    if n == 0 {
        pool
    } else {
        touched(running, pool, (n - 1) as nat).with_active(running[n - 1].seq_idx as int, true)
    }
}

/// The pool after the first `n` running requests reported their length.
pub open spec fn reported(running: Seq<RunningView>, pool: PoolView, n: nat) -> PoolView
    decreases n,
{
    if n == 0 {
        pool
    } else {
        reported(running, pool, (n - 1) as nat).with_seq_len(
            running[n - 1].seq_idx as int,
            running[n - 1].reported_len(),
        )
    }
}

impl ContinuousScheduler {
    /// What to do after admission and restoration. `tried` says whether
    /// restoration was tried again.
    pub fn decide(&self, tried: bool) -> (r: RoundDecision)
        ensures
            r == if self@.running.len() > 0 {
                RoundDecision::Step
            } else if self@.swapped.len() == 0 || tried {
                RoundDecision::Wait
            } else {
                RoundDecision::Restore
            },
    {
        if self.running.len() > 0 {
            RoundDecision::Step
        } else if self.swapped.len() == 0 || tried {
            RoundDecision::Wait
        } else {
            RoundDecision::Restore
        }
    }

    /// The first running request at or after `from` that lacks a block for its
    /// next token.
    pub fn next_growth(&self, from: usize) -> (r: Option<usize>)
        ensures
            match r {
                Some(i) => {
                    &&& from <= i < self@.running.len()
                    &&& self@.running[i as int].blocks_needed() > self@.running[i as int].num_blocks
                    &&& forall|j: int|
                        from <= j < i ==> (#[trigger] self@.running[j]).blocks_needed()
                            <= self@.running[j].num_blocks
                },
                None => forall|j: int|
                    from <= j < self@.running.len() ==> (#[trigger] self@.running[j]).blocks_needed()
                        <= self@.running[j].num_blocks,
            },
    {
        let mut i: usize = from;
        while i < self.running.len()
            invariant
                from <= i,
                forall|j: int|
                    from <= j < i && j < self@.running.len() ==> (
                    #[trigger] self@.running[j]).blocks_needed() <= self@.running[j].num_blocks,
            decreases self.running@.len() - i,
        {
            assert(self@.running[i as int] == self.running@[i as int]@);
            if self.running[i].position / BLOCK_SIZE + 1 > self.running[i].num_blocks {
                return Some(i);
            }
            i = i + 1;
        }
        None
    }

    /// Allocate a block for running request `i`. Returns the request to look
    /// at next: the same one, or the one after it where no block was to be had.
    pub fn grow(&mut self, cache: &mut CacheBackend, i: usize, grants: &Vec<Vec<u64>>, now: u64) -> (r:
        usize)
        requires
            old(cache).wf(),
            old(cache).grants_ok(grants@),
            old(cache)@.free_idx.len() > 0 || old(cache)@.blocks.len() < INDEX_COUNT,
            i < old(self)@.running.len(),
            old(self)@.running[i as int].num_blocks < usize::MAX,
        ensures
            final(self).same_setup(&*old(self)),
            final(cache).wf(),
            final(cache).same_kind(&*old(cache)),
            ({
                let q = old(self)@.running[i as int];
                let gs = pool_model::grants_view(grants@);
                let state = old(cache)@.allocated(gs, 0, old(cache).clock(now));
                if old(cache)@.next_physical(gs, 0) is Some {
                    &&& r == i
                    &&& final(cache)@ == state.with_appended(
                        q.seq_idx as int,
                        old(cache)@.next_index(),
                    )
                    &&& final(self)@ == SchedView {
                        running: old(self)@.running.update(
                            i as int,
                            RunningView { num_blocks: (q.num_blocks + 1) as usize, ..q },
                        ),
                        ..old(self)@
                    }
                } else {
                    &&& r == i + 1
                    &&& final(cache)@ == state
                    &&& final(self)@ == old(self)@
                }
            }),
    {
        assert(self@.running[i as int] == self.running@[i as int]@);
        assert(i < self.running.len());
        if cache.grow_sequence(self.running[i].seq_idx, grants, now) {
            self.running[i].num_blocks = self.running[i].num_blocks + 1;
            proof {
                let q = old(self)@.running[i as int];
                assert(self@.running =~= old(self)@.running.update(
                    i as int,
                    RunningView { num_blocks: (q.num_blocks + 1) as usize, ..q },
                ));
            }
            i
        } else {
            i + 1
        }
    }

    /// Mark all running sequences as accessed now.
    pub fn mark_accessed(&mut self, cache: &mut CacheBackend)
        requires
            old(cache).wf(),
        ensures
            final(self).same_setup(&*old(self)),
            final(cache).wf(),
            final(cache).same_kind(&*old(cache)),
            final(self)@ == (SchedView {
                epochs: epochs_after(
                    old(self)@.running,
                    old(self)@.epochs,
                    old(self)@.epoch,
                    old(self)@.running.len(),
                ),
                ..old(self)@
            }),
            final(cache)@ == if *old(cache) is Kcmm {
                touched(old(self)@.running, old(cache)@, old(self)@.running.len())
            } else {
                old(cache)@
            },
    {
        broadcast use vstd::std_specs::hash::group_hash_axioms;

        let mut i: usize = 0;
        while i < self.running.len()
            invariant
                i <= self.running@.len(),
                self.same_setup(&*old(self)),
                cache.wf(),
                cache.same_kind(&*old(cache)),
                self@ == (SchedView {
                    epochs: epochs_after(
                        old(self)@.running,
                        old(self)@.epochs,
                        old(self)@.epoch,
                        i as nat,
                    ),
                    ..old(self)@
                }),
                cache@ == if *old(cache) is Kcmm {
                    touched(old(self)@.running, old(cache)@, i as nat)
                } else {
                    old(cache)@
                },
            decreases self.running@.len() - i,
        {
            assert(self@.running[i as int] == self.running@[i as int]@);
            let seq_idx: usize = self.running[i].seq_idx;
            self.seq_last_epoch.insert(seq_idx as u64, self.epoch);
            cache.touch(seq_idx);
            i = i + 1;
        }
    }

    /// What the next forward step works on.
    pub fn step_inputs(&self) -> (r: StepInputs)
        requires
            forall|b: int| 0 <= b < self@.running.len() ==> (#[trigger] self@.running[b]).ok(),
        ensures
            r.seq_indices@ == self@.running.map_values(|q: RunningView| q.seq_idx),
            r.positions@ == self@.running.map_values(|q: RunningView| q.position),
            r.token_ids@ == self@.running.map_values(|q: RunningView| q.input_token()),
    {
        let mut seq_indices: Vec<usize> = Vec::new();
        let mut positions: Vec<usize> = Vec::new();
        let mut token_ids: Vec<u32> = Vec::new();
        let mut b: usize = 0;
        while b < self.running.len()
            invariant
                b <= self.running@.len(),
                forall|k: int| 0 <= k < self@.running.len() ==> (#[trigger] self@.running[k]).ok(),
                seq_indices@ == self@.running.map_values(|q: RunningView| q.seq_idx).take(b as int),
                positions@ == self@.running.map_values(|q: RunningView| q.position).take(b as int),
                token_ids@ == self@.running.map_values(|q: RunningView| q.input_token()).take(
                    b as int,
                ),
            decreases self.running@.len() - b,
        {
            assert(self@.running[b as int] == self.running@[b as int]@);
            let r: &RunningRequest = &self.running[b];
            seq_indices.push(r.seq_idx);
            positions.push(r.position);
            let token: u32 = match r.state {
                RequestState::Prefill { prompt_pos } => r.req.prompt_tokens[prompt_pos],
                RequestState::Decode => if r.generated.len() > 0 {
                    r.generated[r.generated.len() - 1]
                } else {
                    0
                },
            };
            token_ids.push(token);
            b = b + 1;
        }
        proof {
            assert(seq_indices@ =~= self@.running.map_values(|q: RunningView| q.seq_idx));
            assert(positions@ =~= self@.running.map_values(|q: RunningView| q.position));
            assert(token_ids@ =~= self@.running.map_values(|q: RunningView| q.input_token()));
        }
        StepInputs { seq_indices, positions, token_ids }
    }

    /// Take in the tokens that a forward step sampled.
    pub fn apply_step(&mut self, cache: &mut CacheBackend, next: &Vec<u32>)
        requires
            old(cache).wf(),
            next@.len() == old(self)@.running.len(),
            forall|b: int|
                0 <= b < old(self)@.running.len() ==> (#[trigger] old(self)@.running[b]).ok()
                    && old(self)@.running[b].position < usize::MAX,
        ensures
            final(self).same_setup(&*old(self)),
            final(cache).wf(),
            final(cache).same_kind(&*old(cache)),
            final(self)@ == (SchedView {
                running: old(self)@.running.map(|b: int, q: RunningView| q.stepped(next@[b])),
                ..old(self)@
            }),
            final(cache)@ == reported(
                old(self)@.running,
                old(cache)@,
                old(self)@.running.len(),
            ),
    {
        let ghost rs = old(self)@.running;
        let n: usize = self.running.len();
        let mut b: usize = 0;
        while b < n
            invariant
                b <= n,
                n == rs.len(),
                n == next@.len(),
                rs == old(self)@.running,
                forall|k: int|
                    0 <= k < rs.len() ==> (#[trigger] rs[k]).ok() && rs[k].position < usize::MAX,
                self.same_setup(&*old(self)),
                self@.running.len() == n,
                self@ == (SchedView { running: self@.running, ..old(self)@ }),
                forall|k: int| 0 <= k < b ==> #[trigger] self@.running[k] == rs[k].stepped(next@[k]),
                forall|k: int| b <= k < n ==> #[trigger] self@.running[k] == rs[k],
                cache.wf(),
                cache.same_kind(&*old(cache)),
                cache@ == reported(rs, old(cache)@, b as nat),
            decreases n - b,
        {
            let ghost before = self@.running;
            assert(before[b as int] == rs[b as int]);
            assert(before[b as int] == self.running@[b as int]@);
            assert(rs[b as int].ok());
            let seq_idx: usize = self.running[b].seq_idx;
            match self.running[b].state {
                RequestState::Prefill { prompt_pos } => {
                    let prompt_len: usize = self.running[b].req.prompt_tokens.len();
                    let new_pos: usize = prompt_pos + 1;
                    cache.update_seq_len(seq_idx, prompt_len);
                    if new_pos >= prompt_len {
                        self.running[b].state = RequestState::Decode;
                        self.running[b].position = prompt_len;
                    } else {
                        self.running[b].state = RequestState::Prefill { prompt_pos: new_pos };
                        self.running[b].position = new_pos;
                    }
                },
                RequestState::Decode => {
                    self.running[b].generated.push(next[b]);
                    self.running[b].position = self.running[b].position + 1;
                    cache.update_seq_len(seq_idx, self.running[b].position);
                },
            }
            proof {
                assert(self@.running =~= before.update(
                    b as int,
                    rs[b as int].stepped(next@[b as int]),
                ));
            }
            b = b + 1;
        }
        assert(self@.running =~= rs.map(|k: int, q: RunningView| q.stepped(next@[k])));
    }

    /// Record the fragmentation of the plain cache after a step. A tiered pool
    /// keeps its own counts.
    pub fn record_fragmentation_snapshot(&mut self, cache: &CacheBackend)
        requires
            cache.wf(),
            cache is Baseline ==> cache@.counts_fit() && cache@.sample_fits(
                old(self).tracker.bytes_per_token_elem,
            ),
        ensures
            final(self)@ == old(self)@,
            final(self).cfg == old(self).cfg,
            final(self).max_batch == old(self).max_batch,
            final(self).max_seq_len == old(self).max_seq_len,
            final(self).max_prefill_tokens == old(self).max_prefill_tokens,
            final(self).disable_swap == old(self).disable_swap,
            final(self).tracker.bytes_per_token_elem == old(self).tracker.bytes_per_token_elem,
            cache is Kcmm ==> final(self).tracker == old(self).tracker,
            cache is Baseline ==> {
                &&& final(self).tracker.samples@ == if cache@.pools.backing.len() == 0 {
                    old(self).tracker.samples@
                } else {
                    old(self).tracker.samples@.push(
                        cache@.fragmentation_sample(old(self).tracker.bytes_per_token_elem),
                    )
                }
                &&& final(self).tracker.unified_samples@ == old(self).tracker.unified_samples@.push(
                    cache@.frag_counts(cache@.owning_count(cache@.sequences.len()) as usize),
                )
            },
    {
        if let Some(paged) = cache.paged_kv() {
            self.tracker.record_unified(paged);
        }
    }
}

} // verus!
