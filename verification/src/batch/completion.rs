use vstd::prelude::*;

use crate::batch::backend::CacheBackend;
use crate::batch::continuous_scheduler::{
    Completed, CompletedView, ContinuousScheduler, RequestState, RunningRequest, RunningView,
    SchedView, SwappedRequest, SwappedView,
};
use crate::batch::static_batch::InferenceRequest;
use crate::cache::swap;
use crate::cache::swap::SwapManager;
use crate::kcmm::pool_model::PoolView;

verus! {

/// Whether a request has all its tokens: it is generating, and the last token
/// is the end token, it has as many as it asked for, or its sequence is as
/// long as it may be.
pub open spec fn is_complete(
    state: RequestState,
    generated: Seq<u32>,
    eos_token_id: u32,
    max_new_tokens: usize,
    position: usize,
    max_seq_len: usize,
) -> bool {
    &&& state is Decode
    &&& generated.len() > 0 && generated.last() == eos_token_id || generated.len() >= max_new_tokens
        || position >= max_seq_len
}

/// Whether a request has all its tokens.
fn complete(
    req: &InferenceRequest,
    state: RequestState,
    generated: &Vec<u32>,
    position: usize,
    max_seq_len: usize,
) -> (r: bool)
    ensures
        r == is_complete(
            state,
            generated@,
            req.eos_token_id,
            req.max_new_tokens,
            position,
            max_seq_len,
        ),
{
    match state {
        RequestState::Decode => (generated.len() > 0 && generated[generated.len() - 1]
            == req.eos_token_id) || generated.len() >= req.max_new_tokens || position
            >= max_seq_len,
        RequestState::Prefill { .. } => false,
    }
}

impl RunningView {
    /// Whether the request has all its tokens.
    pub open spec fn done(self, max_seq_len: usize) -> bool {
        is_complete(
            self.state,
            self.generated,
            self.req.eos_token_id,
            self.req.max_new_tokens,
            self.position,
            max_seq_len,
        )
    }

    /// The response to the request.
    pub open spec fn response(self) -> CompletedView {
        CompletedView {
            ticket: self.ticket,
            id: self.req.id,
            generated_tokens: self.generated,
        }
    }
}

impl SwappedView {
    /// Whether the request has all its tokens.
    pub open spec fn done(self, max_seq_len: usize) -> bool {
        is_complete(
            self.state,
            self.generated,
            self.request.eos_token_id,
            self.request.max_new_tokens,
            self.position,
            max_seq_len,
        )
    }

    /// The response to the request.
    pub open spec fn response(self) -> CompletedView {
        CompletedView {
            ticket: self.ticket,
            id: self.request.id,
            generated_tokens: self.generated,
        }
    }
}

/// What is left of the running requests, and what becomes of the cache, when
/// the complete ones among the first requests have left.
#[verifier::ext_equal]
pub struct Sweep {
    pub kept: Seq<RunningView>,
    pub responses: Seq<CompletedView>,
    pub epochs: Map<u64, u64>,
    pub pool: PoolView,
    /// Blocks given back.
    pub freed: nat,
}

/// The complete ones among the first `n` running requests leave, in order.
pub open spec fn swept(
    s: SchedView,
    pool: PoolView,
    kcmm: bool,
    max_seq_len: usize,
    n: nat,
) -> Sweep
    decreases n,
{
    if n == 0 {
        Sweep {
            kept: Seq::empty(),
            responses: Seq::empty(),
            epochs: s.epochs,
            pool,
            freed: 0,
        }
    } else {
        let before = swept(s, pool, kcmm, max_seq_len, (n - 1) as nat);
        let r = s.running[n - 1];
        if r.done(max_seq_len) {
            let q = r.seq_idx as int;
            let cooled = if kcmm {
                before.pool.with_active(q, false)
            } else {
                before.pool
            };
            Sweep {
                kept: before.kept,
                responses: before.responses.push(r.response()),
                epochs: before.epochs.remove(r.seq_idx as u64),
                pool: cooled.unregistered(q),
                freed: before.freed + r.num_blocks as nat,
            }
        } else {
            Sweep { kept: before.kept.push(r), ..before }
        }
    }
}

/// More requests give back no fewer blocks.
proof fn lemma_freed_monotone(
    s: SchedView,
    pool: PoolView,
    kcmm: bool,
    max_seq_len: usize,
    i: nat,
    n: nat,
)
    requires
        i <= n,
    ensures
        swept(s, pool, kcmm, max_seq_len, i).freed <= swept(s, pool, kcmm, max_seq_len, n).freed,
    decreases n,
{
    if i < n {
        lemma_freed_monotone(s, pool, kcmm, max_seq_len, i, (n - 1) as nat);
    }
}

/// No request that is kept is complete.
proof fn lemma_kept_incomplete(
    s: SchedView,
    pool: PoolView,
    kcmm: bool,
    max_seq_len: usize,
    n: nat,
)
    ensures
        forall|k: int|
            0 <= k < swept(s, pool, kcmm, max_seq_len, n).kept.len() ==> !(#[trigger] swept(
                s,
                pool,
                kcmm,
                max_seq_len,
                n,
            ).kept[k]).done(max_seq_len),
    decreases n,
{
    if n > 0 {
        lemma_kept_incomplete(s, pool, kcmm, max_seq_len, (n - 1) as nat);
    }
}

/// What is left of the swapped requests, and what becomes of the cache, when
/// the complete ones among the last requests have left.
#[verifier::ext_equal]
pub struct Drain {
    pub kept: Seq<SwappedView>,
    pub responses: Seq<CompletedView>,
    pub pool: PoolView,
    pub swap_manager: Option<SwapManager>,
}

/// The complete ones among the swapped requests from `i` on leave, the last
/// one first. In a tiered pool their sequences are unregistered; elsewhere
/// their host data is given up.
pub open spec fn drained(
    s: SchedView,
    pool: PoolView,
    kcmm: bool,
    max_seq_len: usize,
    i: int,
) -> Drain
    decreases s.swapped.len() - i,
{
    if i >= s.swapped.len() {
        Drain {
            kept: Seq::empty(),
            responses: Seq::empty(),
            pool,
            swap_manager: s.swap_manager,
        }
    } else {
        let before = drained(s, pool, kcmm, max_seq_len, i + 1);
        let w = s.swapped[i];
        if w.done(max_seq_len) {
            Drain {
                kept: before.kept,
                responses: before.responses.push(w.response()),
                pool: if kcmm {
                    before.pool.unregistered(w.seq_idx as int)
                } else {
                    before.pool
                },
                swap_manager: match before.swap_manager {
                    Some(m) => if kcmm {
                        Some(m)
                    } else {
                        Some(
                            SwapManager {
                                total_swapped_bytes: swap::deducted(
                                    m.total_swapped_bytes as int,
                                    w.kv_data.host_bytes() as int,
                                ) as usize,
                            },
                        )
                    },
                    None => None,
                },
            }
        } else {
            Drain { kept: seq![w] + before.kept, ..before }
        }
    }
}

/// No swapped request that is kept is complete.
proof fn lemma_drained_incomplete(
    s: SchedView,
    pool: PoolView,
    kcmm: bool,
    max_seq_len: usize,
    i: int,
)
    ensures
        forall|k: int|
            0 <= k < drained(s, pool, kcmm, max_seq_len, i).kept.len() ==> !(#[trigger] drained(
                s,
                pool,
                kcmm,
                max_seq_len,
                i,
            ).kept[k]).done(max_seq_len),
    decreases s.swapped.len() - i,
{
    if i < s.swapped.len() {
        lemma_drained_incomplete(s, pool, kcmm, max_seq_len, i + 1);
    }
}

impl ContinuousScheduler {
    /// Remove the running requests that have all their tokens and give their
    /// blocks back. Returns the responses and the number of blocks given back.
    pub fn remove_completed(&mut self, cache: &mut CacheBackend) -> (r: (Vec<Completed>, usize))
        requires
            old(cache).wf(),
            swept(
                old(self)@,
                old(cache)@,
                *old(cache) is Kcmm,
                old(self).max_seq_len,
                old(self)@.running.len(),
            ).freed <= usize::MAX,
        ensures
            final(self).same_setup(&*old(self)),
            final(cache).wf(),
            final(cache).same_kind(&*old(cache)),
            ({
                let w = swept(
                    old(self)@,
                    old(cache)@,
                    *old(cache) is Kcmm,
                    old(self).max_seq_len,
                    old(self)@.running.len(),
                );
                &&& final(self)@ == SchedView { running: w.kept, epochs: w.epochs, ..old(self)@ }
                &&& final(cache)@ == w.pool
                &&& r.0@.map_values(|c: Completed| c@) == w.responses
                &&& r.1 == w.freed
            }),
            forall|k: int|
                0 <= k < final(self)@.running.len() ==> !(#[trigger] final(self)@.running[k]).done(
                    old(self).max_seq_len,
                ),
    {
        broadcast use vstd::std_specs::hash::group_hash_axioms;

        let ghost s0 = self@;
        let ghost p0 = cache@;
        let ghost kcmm = *cache is Kcmm;
        let ghost m = self.max_seq_len;
        let mut responses: Vec<Completed> = Vec::new();
        let mut freed: usize = 0;
        let mut i: usize = 0;
        let ghost mut n: nat = 0;
        assert(s0.running.skip(0) =~= s0.running);
        while i < self.running.len()
            invariant
                s0 == old(self)@,
                p0 == old(cache)@,
                kcmm == (*old(cache) is Kcmm),
                m == old(self).max_seq_len,
                self.same_setup(&*old(self)),
                cache.wf(),
                cache.same_kind(&*old(cache)),
                n <= s0.running.len(),
                self.running@.len() - i == s0.running.len() - n,
                i == swept(s0, p0, kcmm, m, n).kept.len(),
                swept(s0, p0, kcmm, m, s0.running.len()).freed <= usize::MAX,
                self@ == (SchedView {
                    running: swept(s0, p0, kcmm, m, n).kept + s0.running.skip(n as int),
                    epochs: swept(s0, p0, kcmm, m, n).epochs,
                    ..s0
                }),
                cache@ == swept(s0, p0, kcmm, m, n).pool,
                responses@.map_values(|c: Completed| c@) == swept(s0, p0, kcmm, m, n).responses,
                freed == swept(s0, p0, kcmm, m, n).freed,
            decreases s0.running.len() - n,
        {
            let ghost after = swept(s0, p0, kcmm, m, n + 1);
            let ghost now = self@;
            proof {
                assert(self@.running[i as int] == s0.running[n as int]);
                assert(self@.running[i as int] == self.running@[i as int]@);
                lemma_freed_monotone(s0, p0, kcmm, m, n + 1, s0.running.len());
            }
            let done: bool = complete(
                &self.running[i].req,
                self.running[i].state,
                &self.running[i].generated,
                self.running[i].position,
                self.max_seq_len,
            );
            if done {
                let r: RunningRequest = self.running.remove(i);
                freed = freed + r.num_blocks;
                self.seq_last_epoch.remove(&(r.seq_idx as u64));
                cache.cool(r.seq_idx);
                cache.unregister_sequence(r.seq_idx);
                responses.push(
                    Completed {
                        ticket: r.ticket,
                        id: r.req.id,
                        generated_tokens: r.generated,
                    },
                );
                proof {
                    assert(responses@.map_values(|c: Completed| c@) =~= after.responses);
                    assert(self@.running =~= now.running.remove(i as int));
                    assert(self@.running =~= after.kept + s0.running.skip((n + 1) as int));
                    assert(self@.waiting =~= s0.waiting);
                    assert(self@.swapped =~= s0.swapped);
                }
            } else {
                i = i + 1;
                assert(self@.running =~= after.kept + s0.running.skip((n + 1) as int));
            }
            proof {
                n = n + 1;
            }
        }
        proof {
            assert(s0.running.skip(n as int) =~= Seq::empty());
            assert(self@.running =~= swept(s0, p0, kcmm, m, n).kept);
            lemma_kept_incomplete(s0, p0, kcmm, m, n);
        }
        (responses, freed)
    }

    /// Remove the swapped requests that have all their tokens. Returns their
    /// responses, the last request's first.
    pub fn drain_completed_swapped(&mut self, cache: &mut CacheBackend) -> (r: Vec<Completed>)
        requires
            old(cache).wf(),
            forall|k: int|
                0 <= k < old(self)@.swapped.len() ==> (
                #[trigger] old(self)@.swapped[k]).kv_data.host_bytes() <= usize::MAX,
        ensures
            final(self).same_setup(&*old(self)),
            final(cache).wf(),
            final(cache).same_kind(&*old(cache)),
            ({
                let d = drained(
                    old(self)@,
                    old(cache)@,
                    *old(cache) is Kcmm,
                    old(self).max_seq_len,
                    0,
                );
                &&& final(self)@ == SchedView {
                    swapped: d.kept,
                    swap_manager: d.swap_manager,
                    ..old(self)@
                }
                &&& final(cache)@ == d.pool
                &&& r@.map_values(|c: Completed| c@) == d.responses
            }),
            forall|k: int|
                0 <= k < final(self)@.swapped.len() ==> !(#[trigger] final(self)@.swapped[k]).done(
                    old(self).max_seq_len,
                ),
    {
        let ghost s0 = self@;
        let ghost p0 = cache@;
        let ghost kcmm = *cache is Kcmm;
        let ghost m = self.max_seq_len;
        let mut responses: Vec<Completed> = Vec::new();
        let mut i: usize = self.swapped.len();
        proof {
            assert(s0.swapped.take(i as int) + Seq::<SwappedView>::empty() =~= s0.swapped);
            assert(responses@.map_values(|c: Completed| c@) =~= Seq::<CompletedView>::empty());
        }
        while i > 0
            invariant
                s0 == old(self)@,
                p0 == old(cache)@,
                kcmm == (*old(cache) is Kcmm),
                m == old(self).max_seq_len,
                self.same_setup(&*old(self)),
                cache.wf(),
                cache.same_kind(&*old(cache)),
                i <= s0.swapped.len(),
                i <= self.swapped@.len(),
                forall|k: int|
                    0 <= k < s0.swapped.len() ==> (
                    #[trigger] s0.swapped[k]).kv_data.host_bytes() <= usize::MAX,
                self@ == (SchedView {
                    swapped: s0.swapped.take(i as int) + drained(s0, p0, kcmm, m, i as int).kept,
                    swap_manager: drained(s0, p0, kcmm, m, i as int).swap_manager,
                    ..s0
                }),
                cache@ == drained(s0, p0, kcmm, m, i as int).pool,
                responses@.map_values(|c: Completed| c@) == drained(
                    s0,
                    p0,
                    kcmm,
                    m,
                    i as int,
                ).responses,
            decreases i,
        {
            i = i - 1;
            let ghost after = drained(s0, p0, kcmm, m, i as int);
            let ghost now = self@;
            proof {
                assert(self@.swapped[i as int] == s0.swapped[i as int]);
                assert(self@.swapped[i as int] == self.swapped@[i as int]@);
            }
            let done: bool = complete(
                &self.swapped[i].request,
                self.swapped[i].state,
                &self.swapped[i].generated,
                self.swapped[i].position,
                self.max_seq_len,
            );
            if done {
                let w: SwappedRequest = self.swapped.remove(i);
                if cache.is_kcmm() {
                    cache.unregister_sequence(w.seq_idx);
                } else if let Some(manager) = self.swap_manager.as_mut() {
                    manager.drop_swapped(&w.kv_data);
                }
                responses.push(
                    Completed {
                        ticket: w.ticket,
                        id: w.request.id,
                        generated_tokens: w.generated,
                    },
                );
                proof {
                    assert(responses@.map_values(|c: Completed| c@) =~= after.responses);
                    assert(self@.swapped =~= now.swapped.remove(i as int));
                    assert(self@.swapped =~= s0.swapped.take(i as int) + after.kept);
                    assert(self@.waiting =~= s0.waiting);
                    assert(self@.running =~= s0.running);
                }
            } else {
                assert(self@.swapped =~= s0.swapped.take(i as int) + after.kept);
            }
        }
        proof {
            assert(self@.swapped =~= drained(s0, p0, kcmm, m, 0).kept);
            lemma_drained_incomplete(s0, p0, kcmm, m, 0);
        }
        responses
    }
}

} // verus!
