use vstd::prelude::*;

use crate::batch::admission;
use crate::batch::admission::{AdmitAction, AdmitSetup, Admission};
use crate::batch::backend;
use crate::batch::completion;
use crate::batch::continuous_scheduler;
use crate::batch::continuous_scheduler::{
    CompletedView, RequestState, RunningView, SchedView, SwappedView,
};
use crate::batch::restoration::RestoreAction;
use crate::batch::static_batch;
use crate::batch::static_batch::{InferenceRequest, RequestView, StaticBatch};
use crate::cache::paged_kv::BLOCK_SIZE;
use crate::cache::swap::EvictedSeqData;
use crate::kcmm::pool_model::{BlockLocation, PoolView, SequencePriority};
use crate::kcmm::superblock::BlockHandle;

verus! {

/// An answer is complete once it ends with the end token, has as many tokens
/// as were asked for, or fills the sequence; before that it is not, and not
/// while the prompt is being read.
pub proof fn law_answer_completes(
    generated: Seq<u32>,
    token: u32,
    eos: u32,
    max_new: usize,
    position: usize,
    max_len: usize,
    prompt_pos: usize,
)
    ensures
        completion::is_complete(
            RequestState::Decode,
            generated.push(eos),
            eos,
            max_new,
            position,
            max_len,
        ),
        generated.len() >= max_new ==> completion::is_complete(
            RequestState::Decode,
            generated,
            eos,
            max_new,
            position,
            max_len,
        ),
        position >= max_len ==> completion::is_complete(
            RequestState::Decode,
            generated,
            eos,
            max_new,
            position,
            max_len,
        ),
        token != eos && generated.len() + 1 < max_new && position < max_len
            ==> !completion::is_complete(
            RequestState::Decode,
            generated.push(token),
            eos,
            max_new,
            position,
            max_len,
        ),
        0 < max_new && position < max_len ==> !completion::is_complete(
            RequestState::Decode,
            Seq::<u32>::empty(),
            eos,
            max_new,
            position,
            max_len,
        ),
        !completion::is_complete(
            RequestState::Prefill { prompt_pos },
            generated,
            eos,
            max_new,
            position,
            max_len,
        ),
{
    assert(generated.push(eos).last() == eos);
    assert(generated.push(token).last() == token);
}

/// The rule of completion applies to a request's own limits, wherever the
/// request is.
pub proof fn law_completion_goes_by_own_limits(
    r: RunningView,
    w: SwappedView,
    max_len: usize,
)
    ensures
        r.done(max_len) == completion::is_complete(
            r.state,
            r.generated,
            r.req.eos_token_id,
            r.req.max_new_tokens,
            r.position,
            max_len,
        ),
        w.done(max_len) == completion::is_complete(
            w.state,
            w.generated,
            w.request.eos_token_id,
            w.request.max_new_tokens,
            w.position,
            max_len,
        ),
{
}

/// A response carries the id of the request, its ticket, and all tokens
/// generated for it.
pub proof fn law_response_carries_answer(r: RunningView, w: SwappedView)
    ensures
        r.response().ticket == r.ticket,
        r.response().id == r.req.id,
        r.response().generated_tokens == r.generated,
        w.response().ticket == w.ticket,
        w.response().id == w.request.id,
        w.response().generated_tokens == w.generated,
{
}

/// Sum of the blocks of requests.
pub open spec fn blocks_of(s: Seq<RunningView>) -> nat
    decreases s.len(),
{
    if s.len() == 0 {
        0
    } else {
        blocks_of(s.drop_last()) + s.last().num_blocks as nat
    }
}

/// Of the running requests the complete ones are answered, in order, and give
/// their blocks back; the others stay, in order.
pub proof fn law_complete_requests_leave(
    s: SchedView,
    pool: PoolView,
    kcmm: bool,
    max_len: usize,
    n: nat,
)
    requires
        n <= s.running.len(),
    ensures
        ({
            let w = completion::swept(s, pool, kcmm, max_len, n);
            let all = s.running.take(n as int);
            let gone = all.filter(|r: RunningView| r.done(max_len));
            &&& w.kept == all.filter(|r: RunningView| !r.done(max_len))
            &&& w.responses.len() == gone.len()
            &&& forall|k: int|
                0 <= k < gone.len() ==> {
                    let c: CompletedView = #[trigger] w.responses[k];
                    &&& c.ticket == gone[k].ticket
                    &&& c.id == gone[k].req.id
                    &&& c.generated_tokens == gone[k].generated
                }
            &&& w.freed == blocks_of(gone)
            &&& forall|q: u64| #[trigger]
                w.epochs.dom().contains(q) ==> s.epochs.dom().contains(q) && w.epochs[q]
                    == s.epochs[q]
            &&& forall|k: int|
                0 <= k < gone.len() ==> !w.epochs.dom().contains(
                    (#[trigger] gone[k]).seq_idx as u64,
                )
        }),
    decreases n,
{
    reveal(Seq::filter);
    let keep = |r: RunningView| !r.done(max_len);
    let leave = |r: RunningView| r.done(max_len);
    let all = s.running.take(n as int);
    if n > 0 {
        let m = (n - 1) as nat;
        law_complete_requests_leave(s, pool, kcmm, max_len, m);
        assert(all.drop_last() =~= s.running.take(m as int));
        assert(all.last() == s.running[n - 1]);
        let before = completion::swept(s, pool, kcmm, max_len, m);
        let w = completion::swept(s, pool, kcmm, max_len, n);
        let gone0 = s.running.take(m as int).filter(leave);
        let gone = all.filter(leave);
        let r = s.running[n - 1];
        if r.done(max_len) {
            assert(gone == gone0.push(r));
            assert(gone.drop_last() =~= gone0);
            assert forall|k: int| 0 <= k < gone.len() implies !w.epochs.dom().contains(
                (#[trigger] gone[k]).seq_idx as u64,
            ) by {
                if k < gone0.len() {
                    assert(gone[k] == gone0[k]);
                }
            }
            assert forall|k: int| 0 <= k < gone.len() implies {
                let c: CompletedView = #[trigger] w.responses[k];
                &&& c.ticket == gone[k].ticket
                &&& c.id == gone[k].req.id
                &&& c.generated_tokens == gone[k].generated
            } by {
                if k < gone0.len() {
                    assert(w.responses[k] == before.responses[k]);
                    assert(gone[k] == gone0[k]);
                }
            }
        }
    }
}

/// Of the swapped requests the complete ones are answered, the last first; the
/// others stay, in order.
pub proof fn law_complete_swapped_leave(
    s: SchedView,
    pool: PoolView,
    kcmm: bool,
    max_len: usize,
    i: int,
)
    requires
        0 <= i <= s.swapped.len(),
    ensures
        ({
            let d = completion::drained(s, pool, kcmm, max_len, i);
            let rest = s.swapped.skip(i);
            &&& forall|k: int|
                0 <= k < d.kept.len() ==> !(#[trigger] d.kept[k]).done(max_len) && rest.contains(
                    d.kept[k],
                )
            &&& forall|k: int|
                i <= k < s.swapped.len() && !(#[trigger] s.swapped[k]).done(max_len)
                    ==> d.kept.contains(s.swapped[k])
            &&& d.kept.len() + d.responses.len() == rest.len()
            &&& forall|k: int|
                0 <= k < d.responses.len() ==> answers_one_of(
                    rest,
                    #[trigger] d.responses[k],
                    max_len,
                )
        }),
    decreases s.swapped.len() - i,
{
    let d = completion::drained(s, pool, kcmm, max_len, i);
    let rest = s.swapped.skip(i);
    if i < s.swapped.len() {
        law_complete_swapped_leave(s, pool, kcmm, max_len, i + 1);
        let before = completion::drained(s, pool, kcmm, max_len, i + 1);
        let tail = s.swapped.skip(i + 1);
        let w = s.swapped[i];
        assert(rest[0] == w);
        assert forall|x: SwappedView| tail.contains(x) implies #[trigger] rest.contains(x) by {
            let k = choose|k: int| 0 <= k < tail.len() && tail[k] == x;
            assert(rest[k + 1] == x);
        }
        if w.done(max_len) {
            assert forall|k: int| 0 <= k < d.responses.len() implies answers_one_of(
                rest,
                #[trigger] d.responses[k],
                max_len,
            ) by {
                if k < before.responses.len() {
                    assert(d.responses[k] == before.responses[k]);
                    assert(answers_one_of(tail, before.responses[k], max_len));
                    let x = choose|x: SwappedView| #[trigger]
                        answered(x, before.responses[k], max_len) && tail.contains(x);
                    assert(answered(x, d.responses[k], max_len) && rest.contains(x));
                } else {
                    assert(answered(w, d.responses[k], max_len) && rest.contains(w));
                }
            }
        } else {
            assert(d.kept =~= seq![w] + before.kept);
            assert(d.kept[0] == w);
            assert forall|k: int| 0 <= k < d.kept.len() implies !(#[trigger] d.kept[k]).done(
                max_len,
            ) && rest.contains(d.kept[k]) by {
                if k > 0 {
                    assert(d.kept[k] == before.kept[k - 1]);
                }
            }
            assert forall|k: int|
                i <= k < s.swapped.len() && !(#[trigger] s.swapped[k]).done(
                    max_len,
                ) implies d.kept.contains(s.swapped[k]) by {
                if k > i {
                    let j = choose|j: int|
                        0 <= j < before.kept.len() && before.kept[j] == s.swapped[k];
                    assert(d.kept[j + 1] == s.swapped[k]);
                }
            }
            assert forall|k: int| 0 <= k < d.responses.len() implies answers_one_of(
                rest,
                #[trigger] d.responses[k],
                max_len,
            ) by {
                assert(answers_one_of(tail, before.responses[k], max_len));
                let x = choose|x: SwappedView| #[trigger]
                    answered(x, before.responses[k], max_len) && tail.contains(x);
                assert(answered(x, d.responses[k], max_len) && rest.contains(x));
            }
        }
    }
}

/// The response is that to a complete swapped request.
pub open spec fn answered(w: SwappedView, c: CompletedView, max_len: usize) -> bool {
    &&& w.done(max_len)
    &&& c.ticket == w.ticket
    &&& c.id == w.request.id
    &&& c.generated_tokens == w.generated
}

/// The response is that to a complete one of the swapped requests.
pub open spec fn answers_one_of(s: Seq<SwappedView>, c: CompletedView, max_len: usize) -> bool {
    exists|w: SwappedView| #[trigger] answered(w, c, max_len) && s.contains(w)
}

/// A request that is admitted joins the end of the batch and starts with the
/// first token of its prompt; nothing else in the batch changes, and the other
/// waiting requests keep their order.
pub proof fn law_admitted_request_starts_fresh(
    s: SchedView,
    i: int,
    seq_idx: usize,
    blocks: usize,
)
    requires
        0 <= i < s.waiting.len(),
        s.waiting[i].req.prompt_tokens.len() > 0,
    ensures
        ({
            let t = s.admitted(i, seq_idx, blocks);
            let r = t.running.last();
            &&& t.running.len() == s.running.len() + 1
            &&& t.running.drop_last() == s.running
            &&& r.req == s.waiting[i].req
            &&& r.ticket == s.waiting[i].ticket
            &&& r.seq_idx == seq_idx
            &&& r.num_blocks == blocks
            &&& r.position == 0
            &&& r.generated.len() == 0
            &&& r.input_token() == s.waiting[i].req.prompt_tokens[0]
            &&& r.ok()
            &&& t.waiting == s.waiting.take(i) + s.waiting.skip(i + 1)
            &&& t.swapped == s.swapped
            &&& t.epochs == s.epochs.insert(seq_idx as u64, s.epoch)
        }),
{
    let t = s.admitted(i, seq_idx, blocks);
    assert(t.running.drop_last() =~= s.running);
    assert(t.waiting =~= s.waiting.take(i) + s.waiting.skip(i + 1));
}

/// A request that leaves the GPU joins the end of the swapped queue with all
/// that is known of it; the others stay, in order.
pub proof fn law_preempted_request_is_kept(
    s: SchedView,
    v: int,
    kv_data: EvictedSeqData,
    seq_idx: usize,
)
    requires
        0 <= v < s.running.len(),
    ensures
        ({
            let t = s.preempted(v, kv_data, seq_idx);
            let r = s.running[v];
            let w = t.swapped.last();
            &&& t.running == s.running.take(v) + s.running.skip(v + 1)
            &&& t.swapped.len() == s.swapped.len() + 1
            &&& t.swapped.drop_last() == s.swapped
            &&& w.request == r.req
            &&& w.ticket == r.ticket
            &&& w.generated == r.generated
            &&& w.state == r.state
            &&& w.position == r.position
            &&& w.num_blocks == r.num_blocks
            &&& w.kv_data == kv_data
            &&& w.seq_idx == seq_idx
            &&& t.waiting == s.waiting
            &&& !t.epochs.dom().contains(r.seq_idx as u64)
            &&& forall|q: u64|
                q != r.seq_idx as u64 ==> (#[trigger] t.epochs.dom().contains(q)
                    <==> s.epochs.dom().contains(q)) && t.epochs[q] == s.epochs[q]
        }),
{
    let t = s.preempted(v, kv_data, seq_idx);
    assert(t.running =~= s.running.take(v) + s.running.skip(v + 1));
    assert(t.swapped.drop_last() =~= s.swapped);
}

/// The request that was swapped out first comes back first, as it was.
pub proof fn law_first_swapped_resumes_first(s: SchedView, seq_idx: usize)
    requires
        s.swapped.len() > 0,
    ensures
        ({
            let t = s.resumed(seq_idx);
            let w = s.swapped[0];
            let r = t.running.last();
            &&& t.running.len() == s.running.len() + 1
            &&& t.running.drop_last() == s.running
            &&& t.swapped == s.swapped.skip(1)
            &&& r.req == w.request
            &&& r.ticket == w.ticket
            &&& r.generated == w.generated
            &&& r.state == w.state
            &&& r.position == w.position
            &&& r.num_blocks == w.num_blocks
            &&& r.seq_idx == seq_idx
            &&& t.waiting == s.waiting
            &&& t.epochs == s.epochs.insert(seq_idx as u64, s.epoch)
        }),
{
    let t = s.resumed(seq_idx);
    assert(t.running.drop_last() =~= s.running);
    assert(t.swapped =~= s.swapped.skip(1));
}

/// As long as a request is swapped out and the batch has room, the first is
/// brought back: from the pool the blocks of its own sequence, if the pool
/// knows any.
pub proof fn law_restoration_serves_first(
    s: SchedView,
    pool: PoolView,
    kcmm: bool,
    max_batch: usize,
    action: RestoreAction,
)
    requires
        s.restores(pool, kcmm, max_batch, action),
    ensures
        s.running.len() >= max_batch ==> action is Done,
        s.swapped.len() == 0 ==> action is Done,
        s.swapped.len() > 0 && s.running.len() < max_batch && !kcmm ==> action is RestoreSequence,
        s.swapped.len() > 0 && s.running.len() < max_batch && kcmm && s.swapped[0].seq_idx
            < pool.sequences.len() && pool.sequences[s.swapped[0].seq_idx as int].block_table.len()
            > 0 ==> (action matches RestoreAction::RestoreBlocks { block_table } && block_table@
            == pool.sequences[s.swapped[0].seq_idx as int].block_table),
        kcmm && (s.swapped[0].seq_idx >= pool.sequences.len()
            || pool.sequences[s.swapped[0].seq_idx as int].block_table.len() == 0)
            ==> action is Done,
{
}

/// The blocks of a prompt, of 16 tokens each, hold all its tokens, and one
/// block less would not.
pub proof fn law_prompt_fits_its_blocks(tokens: nat)
    ensures
        tokens <= admission::blocks_for(tokens) * 16,
        tokens > 0 ==> (admission::blocks_for(tokens) - 1) * 16 < tokens,
        tokens == 0 ==> admission::blocks_for(tokens) == 0,
{
}

/// While a request waits and the batch has room, memory is asked for: enough
/// blocks for its prompt, and for those no more superblocks than are needed.
/// Otherwise the round is over.
pub proof fn law_admission_asks_for_memory(
    s: SchedView,
    pool: PoolView,
    max_batch: usize,
    next: int,
    adm: Admission,
    action: AdmitAction,
)
    requires
        s.proceeds(pool, max_batch, next, adm, action),
        0 <= next,
        pool.pools.blocks_per_superblock > 0,
    ensures
        adm.next == next,
        action is Done <==> adm.phase is Idle,
        action is Allocate <==> adm.phase is Allocating,
        s.running.len() >= max_batch || next >= s.waiting.len() ==> action is Done,
        s.running.len() < max_batch && next < s.waiting.len() ==> {
            &&& action matches AdmitAction::Allocate { blocks, superblocks }
            &&& s.waiting[next].req.prompt_tokens.len() <= blocks * BLOCK_SIZE
            &&& s.waiting[next].req.prompt_tokens.len() > 0 ==> (blocks - 1) * BLOCK_SIZE
                < s.waiting[next].req.prompt_tokens.len()
            &&& blocks <= pool.pools.free.len() + superblocks * pool.pools.blocks_per_superblock
            &&& superblocks > 0 ==> blocks > pool.pools.free.len() + (superblocks - 1)
                * pool.pools.blocks_per_superblock
        },
{
    if s.running.len() < max_batch && next < s.waiting.len() {
        let blocks = action->blocks as int;
        let sb = action->superblocks as int;
        let free = pool.pools.free.len() as int;
        let bps = pool.pools.blocks_per_superblock as int;
        law_prompt_fits_its_blocks(s.waiting[next].req.prompt_tokens.len());
        if blocks > free {
            let missing = blocks - free;
            vstd::arithmetic::div_mod::lemma_fundamental_div_mod(missing + bps - 1, bps);
            vstd::arithmetic::div_mod::lemma_mod_bound(missing + bps - 1, bps);
            assert(sb * bps == bps * sb) by (nonlinear_arith);
            assert((sb - 1) * bps == sb * bps - bps) by (nonlinear_arith);
        } else {
            assert(sb * bps == 0) by (nonlinear_arith)
                requires
                    sb == 0,
            ;
        }
    }
}

/// Among running requests there is one to evict.
proof fn lemma_best_of_first(
    running: Seq<RunningView>,
    epochs: Map<u64, u64>,
    pool: Option<PoolView>,
    n: int,
) -> (v: int)
    requires
        0 <= n <= running.len(),
        exists|k: int| 0 <= k < n && #[trigger] continuous_scheduler::evictable(running, k),
    ensures
        0 <= v < n,
        continuous_scheduler::evictable(running, v),
        forall|j: int|
            0 <= j < n && #[trigger] continuous_scheduler::evictable(running, j)
                ==> !continuous_scheduler::rank_of(running[j], epochs, pool).precedes(
                continuous_scheduler::rank_of(running[v], epochs, pool),
            ) && (j < v ==> continuous_scheduler::rank_of(running[v], epochs, pool).precedes(
                continuous_scheduler::rank_of(running[j], epochs, pool),
            )),
    decreases n,
{
    let last = n - 1;
    if exists|k: int| 0 <= k < last && #[trigger] continuous_scheduler::evictable(running, k) {
        let v = lemma_best_of_first(running, epochs, pool, last);
        if continuous_scheduler::evictable(running, last) && continuous_scheduler::rank_of(
            running[last],
            epochs,
            pool,
        ).precedes(continuous_scheduler::rank_of(running[v], epochs, pool)) {
            last
        } else {
            v
        }
    } else {
        last
    }
}

/// Where requests run, one of them is the one to evict.
pub proof fn law_some_request_is_victim(
    running: Seq<RunningView>,
    epochs: Map<u64, u64>,
    pool: Option<PoolView>,
)
    requires
        running.len() > 0,
    ensures
        continuous_scheduler::is_victim(
            running,
            epochs,
            pool,
            continuous_scheduler::victim(running, epochs, pool),
        ),
{
    assert(exists|k: int|
        0 <= k < running.len() && #[trigger] continuous_scheduler::evictable(running, k)) by {
        if continuous_scheduler::any_decoding(running) {
            let k = choose|k: int| 0 <= k < running.len() && (#[trigger] running[k]).state is Decode;
            assert(continuous_scheduler::evictable(running, k));
        } else {
            assert(continuous_scheduler::evictable(running, 0));
        }
    }
    let v = lemma_best_of_first(running, epochs, pool, running.len() as int);
    assert(continuous_scheduler::is_victim(running, epochs, pool, v));
}

/// Where blocks are evicted for a waiting request, they are those of the
/// request to evict, and as many as are lacking, or all it has.
pub proof fn law_eviction_takes_from_victim(
    s: SchedView,
    pool: PoolView,
    max_batch: usize,
    from: Admission,
    adm: Admission,
    action: AdmitAction,
)
    requires
        s.evicts(pool, max_batch, from, adm, action),
        action is EvictBlocks,
        s.running.len() <= usize::MAX,
        action->candidates@.len() <= usize::MAX,
    ensures
        ({
            let v = adm.phase->Evicting_victim as int;
            let lacking = from.needed - from.evicted;
            &&& adm.phase is Evicting
            &&& continuous_scheduler::is_victim(s.running, s.epochs, Some(pool), v)
            &&& action->candidates@ == backend::gpu_handles(pool, s.running[v].seq_idx as int)
            &&& adm.phase->candidates == action->candidates@.len()
            &&& 0 < action->count <= lacking
            &&& action->count <= action->candidates@.len()
            &&& action->count == lacking || action->count == action->candidates@.len()
            &&& adm.next == from.next
            &&& adm.victims_seen == from.victims_seen + 1
            &&& adm.victims_seen <= from.max_victims
        }),
{
    law_some_request_is_victim(s.running, s.epochs, Some(pool));
}

/// Where a sequence is copied to the host for a waiting request, it is that of
/// the request to evict.
pub proof fn law_swap_out_takes_victim(
    s: SchedView,
    setup: AdmitSetup,
    pool: PoolView,
    grants: Seq<Seq<u64>>,
    clock: u64,
    adm: Admission,
    to: SchedView,
    pool2: PoolView,
    adm2: Admission,
    action: AdmitAction,
)
    requires
        s.granted(setup, pool, grants, clock, adm, to, pool2, adm2, action),
        action is SwapOut,
        s.running.len() <= usize::MAX,
    ensures
        ({
            let v = adm2.phase->Swapping_victim as int;
            &&& adm2.phase is Swapping
            &&& to == s
            &&& !setup.kcmm
            &&& !setup.disable_swap
            &&& continuous_scheduler::is_victim(s.running, s.epochs, None, v)
            &&& action->seq_idx == s.running[v].seq_idx
        }),
{
    if s.running.len() > 0 {
        law_some_request_is_victim(s.running, s.epochs, None);
    }
}

/// A request that is admitted gets a sequence of its own, with blocks for its
/// whole prompt.
pub proof fn law_admitted_request_owns_blocks(
    s: SchedView,
    setup: AdmitSetup,
    pool: PoolView,
    grants: Seq<Seq<u64>>,
    clock: u64,
    adm: Admission,
    to: SchedView,
    pool2: PoolView,
    adm2: Admission,
    action: AdmitAction,
)
    requires
        s.granted(setup, pool, grants, clock, adm, to, pool2, adm2, action),
        to != s,
        0 <= adm.next < s.waiting.len(),
        s.waiting[adm.next as int].req.prompt_tokens.len() <= usize::MAX,
        pool.sequences.len() <= usize::MAX,
        pool.allocated_many(s.blocks_needed(adm.next as int), grants, clock).0.sequences
            == pool.sequences,
    ensures
        ({
            let r = to.running.last();
            let q = r.seq_idx as int;
            &&& r.req == s.waiting[adm.next as int].req
            &&& r.ticket == s.waiting[adm.next as int].ticket
            &&& q == pool.sequences.len()
            &&& pool2.sequences.len() == q + 1
            &&& pool2.sequences[q].block_table.len() == r.num_blocks
            &&& r.req.prompt_tokens.len() <= r.num_blocks * BLOCK_SIZE
            &&& pool2.sequences[q].priority == SequencePriority::Normal
            &&& pool2.sequences[q].seq_len == 0
            &&& pool2.sequences[q].is_active
            &&& forall|p: int| 0 <= p < q ==> #[trigger] pool2.sequences[p] == pool.sequences[p]
        }),
{
    law_prompt_fits_its_blocks(s.waiting[adm.next as int].req.prompt_tokens.len());
}

/// The blocks offered for eviction are those of the sequence that reside in
/// GPU memory, in the order of its table.
pub proof fn law_offered_blocks_are_resident(pool: PoolView, table: Seq<u32>)
    ensures
        ({
            let offered = pool.gpu_blocks(table);
            let here = |i: u32|
                i < pool.blocks.len() && pool.blocks[i as int].in_use
                    && pool.blocks[i as int].location is GpuResident;
            &&& offered.map_values(|p: (u32, BlockHandle)| p.0) == table.filter(here)
            &&& forall|k: int|
                0 <= k < offered.len() ==> {
                    let (i, h) = #[trigger] offered[k];
                    pool.blocks[i as int].location matches BlockLocation::GpuResident(g, _) && g
                        == h
                }
        }),
    decreases table.len(),
{
    reveal(Seq::filter);
    let here = |i: u32|
        i < pool.blocks.len() && pool.blocks[i as int].in_use
            && pool.blocks[i as int].location is GpuResident;
    let offered = pool.gpu_blocks(table);
    if table.len() == 0 {
        assert(offered.map_values(|p: (u32, BlockHandle)| p.0) =~= table.filter(here));
    } else {
        law_offered_blocks_are_resident(pool, table.drop_last());
        let rest = pool.gpu_blocks(table.drop_last());
        if here(table.last()) {
            assert(offered.map_values(|p: (u32, BlockHandle)| p.0) =~= rest.map_values(
                |p: (u32, BlockHandle)| p.0,
            ).push(table.last()));
        }
    }
}

/// For a sequence that the pool knows, the handles offered are those of its
/// resident blocks; for any other there are none.
pub proof fn law_offered_handles_by_sequence(pool: PoolView, q: int, k: int)
    ensures
        0 <= q < pool.sequences.len() ==> {
            let offered = pool.gpu_blocks(pool.sequences[q].block_table);
            &&& backend::gpu_handles(pool, q).len() == offered.len()
            &&& 0 <= k < offered.len() ==> backend::gpu_handles(pool, q)[k] == offered[k].1
        },
        q < 0 || q >= pool.sequences.len() ==> backend::gpu_handles(pool, q).len() == 0,
{
}

/// The largest of some numbers is one of them, and none is larger.
pub proof fn law_max_is_largest(s: Seq<nat>, n: nat)
    requires
        n <= s.len(),
    ensures
        forall|i: int| 0 <= i < n ==> (#[trigger] s[i]) <= static_batch::max_of(s, n),
        n > 0 ==> exists|i: int| 0 <= i < n && #[trigger] s[i] == static_batch::max_of(s, n),
        n == 0 ==> static_batch::max_of(s, n) == 0,
    decreases n,
{
    if n > 0 {
        let m = (n - 1) as nat;
        law_max_is_largest(s, m);
        assert(s[n - 1] <= static_batch::max_of(s, n));
        if m == 0 {
            assert(s[0] == static_batch::max_of(s, n));
        } else if s[n - 1] <= static_batch::max_of(s, m) {
            let i = choose|i: int| 0 <= i < m && #[trigger] s[i] == static_batch::max_of(s, m);
            assert(s[i] == static_batch::max_of(s, n));
        } else {
            assert(s[n - 1] == static_batch::max_of(s, n));
        }
    }
}

/// In a static batch, too, an answer ends with the end token, with as many
/// tokens as were asked for, or when it fills the sequence, and not before.
pub proof fn law_static_answer_ends(r: RequestView, out: Seq<u32>, token: u32, max_len: usize)
    ensures
        r.ends_with(out.push(r.eos_token_id), max_len),
        out.len() + 1 >= r.max_new_tokens ==> r.ends_with(out.push(token), max_len),
        r.prompt_tokens.len() + out.len() + 1 >= max_len ==> r.ends_with(out.push(token), max_len),
        token != r.eos_token_id && out.len() + 1 < r.max_new_tokens && r.prompt_tokens.len()
            + out.len() + 1 < max_len ==> !r.ends_with(out.push(token), max_len),
        !r.ends_with(Seq::<u32>::empty(), max_len),
{
    assert(out.push(r.eos_token_id).last() == r.eos_token_id);
    assert(out.push(token).last() == token);
}

/// A static batch is measured by its longest prompt and its largest limit:
/// each request's own prompt and limit are taken.
pub proof fn law_batch_measures_requests(requests: Seq<InferenceRequest>, b: int)
    requires
        0 <= b < requests.len(),
    ensures
        StaticBatch::prompt_lens(requests).len() == requests.len(),
        StaticBatch::prompt_lens(requests)[b] == requests[b].prompt_tokens@.len(),
        StaticBatch::token_limits(requests).len() == requests.len(),
        StaticBatch::token_limits(requests)[b] == requests[b].max_new_tokens,
{
}

} // verus!
