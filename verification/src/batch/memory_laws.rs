//! What becomes of memory when requests end, and when it is short.

use vstd::prelude::*;

use crate::batch::admission::{AdmitAction, AdmitPhase, AdmitSetup, Admission};
use crate::batch::completion;
use crate::batch::continuous_scheduler::{SchedView, SwappedView};
use crate::kcmm::edit_laws;
use crate::kcmm::pool_model::PoolView;

verus! {

/// One of the first `n` running requests is complete and has sequence `q`.
pub open spec fn ends_below(s: SchedView, max_len: usize, n: nat, q: int) -> bool {
    exists|i: int|
        0 <= i < n && (#[trigger] s.running[i]).done(max_len) && s.running[i].seq_idx == q
}

/// The sequences of complete requests give up their blocks, and a pool that
/// tiers memory cools them; the sequences of the others stay as they are.
pub proof fn law_complete_requests_free_memory(
    s: SchedView,
    pool: PoolView,
    kcmm: bool,
    max_len: usize,
    n: nat,
    q: int,
)
    requires
        n <= s.running.len(),
        0 <= q < pool.sequences.len(),
    ensures
        ({
            let after = completion::swept(s, pool, kcmm, max_len, n).pool;
            &&& after.sequences.len() == pool.sequences.len()
            &&& !ends_below(s, max_len, n, q) ==> after.sequences[q] == pool.sequences[q]
            &&& ends_below(s, max_len, n, q) ==> {
                &&& after.sequences[q].block_table.len() == 0
                &&& after.sequences[q].seq_len == 0
                &&& after.sequences[q].priority == pool.sequences[q].priority
                &&& after.sequences[q].is_active == (!kcmm && pool.sequences[q].is_active)
            }
        }),
    decreases n,
{
    if n > 0 {
        let m = (n - 1) as nat;
        law_complete_requests_free_memory(s, pool, kcmm, max_len, m, q);
        let before = completion::swept(s, pool, kcmm, max_len, m).pool;
        let r = s.running[m as int];
        let p = r.seq_idx as int;
        if ends_below(s, max_len, m, q) {
            let i = choose|i: int|
                0 <= i < m && (#[trigger] s.running[i]).done(max_len) && s.running[i].seq_idx == q;
            assert(s.running[i].done(max_len) && s.running[i].seq_idx == q);
            assert(ends_below(s, max_len, n, q));
        }
        if r.done(max_len) {
            let cooled = if kcmm {
                before.with_active(p, false)
            } else {
                before
            };
            edit_laws::law_unregister_empties(cooled, p);
            edit_laws::law_touch_activates(before, p, false);
            if p == q {
                assert(s.running[m as int].done(max_len));
                assert(ends_below(s, max_len, n, q));
            } else {
                assert(cooled.unregistered(p).sequences[q] == cooled.sequences[q]);
                assert(cooled.sequences[q] == before.sequences[q]);
            }
        }
    }
}

/// Swapped requests that are complete leave, the last one answered first; the
/// others stay in order. Where the pool keeps their sequences, these give up
/// their blocks, and those of the others stay; else the pool is not touched.
pub proof fn law_complete_swapped_in_order(
    s: SchedView,
    pool: PoolView,
    kcmm: bool,
    max_len: usize,
    i: int,
)
    requires
        0 <= i <= s.swapped.len(),
    ensures
        ({
            let d = completion::drained(s, pool, kcmm, max_len, i);
            let rest = s.swapped.skip(i);
            let gone = rest.filter(|w: SwappedView| w.done(max_len));
            &&& d.kept == rest.filter(|w: SwappedView| !w.done(max_len))
            &&& d.responses.len() == gone.len()
            &&& forall|k: int|
                0 <= k < gone.len() ==> {
                    let w = #[trigger] gone[k];
                    let c = d.responses[gone.len() - 1 - k];
                    c.ticket == w.ticket && c.id == w.request.id && c.generated_tokens
                        == w.generated
                }
            &&& !kcmm ==> d.pool == pool
            &&& kcmm ==> d.swap_manager == s.swap_manager
            &&& d.pool.sequences.len() == pool.sequences.len()
        }),
    decreases s.swapped.len() - i,
{
    let done = |w: SwappedView| w.done(max_len);
    let stays = |w: SwappedView| !w.done(max_len);
    let d = completion::drained(s, pool, kcmm, max_len, i);
    let rest = s.swapped.skip(i);
    if i < s.swapped.len() {
        let w = s.swapped[i];
        let tail = s.swapped.skip(i + 1);
        law_complete_swapped_in_order(s, pool, kcmm, max_len, i + 1);
        assert(rest =~= seq![w] + tail);
        Seq::filter_distributes_over_add(seq![w], tail, done);
        Seq::filter_distributes_over_add(seq![w], tail, stays);
        assert(seq![w].filter(done) =~= if done(w) {
            seq![w]
        } else {
            Seq::empty()
        }) by {
            reveal_with_fuel(Seq::filter, 2);
            assert(seq![w].drop_last() =~= Seq::<SwappedView>::empty());
        }
        assert(seq![w].filter(stays) =~= if stays(w) {
            seq![w]
        } else {
            Seq::empty()
        }) by {
            reveal_with_fuel(Seq::filter, 2);
            assert(seq![w].drop_last() =~= Seq::<SwappedView>::empty());
        }
        let before = completion::drained(s, pool, kcmm, max_len, i + 1);
        let gone = rest.filter(done);
        let gone_tail = tail.filter(done);
        if done(w) {
            edit_laws::law_unregister_empties(before.pool, w.seq_idx as int);
            assert(gone =~= seq![w] + gone_tail);
            assert(rest.filter(stays) =~= tail.filter(stays));
            assert forall|k: int| 0 <= k < gone.len() implies {
                let x = #[trigger] gone[k];
                let c = d.responses[gone.len() - 1 - k];
                c.ticket == x.ticket && c.id == x.request.id && c.generated_tokens == x.generated
            } by {
                if k > 0 {
                    assert(gone[k] == gone_tail[k - 1]);
                    assert(d.responses[gone.len() - 1 - k] == before.responses[gone_tail.len() - 1 - (k
                        - 1)]);
                } else {
                    assert(d.responses[gone.len() - 1] == w.response());
                }
            }
        } else {
            assert(gone =~= gone_tail);
            assert(rest.filter(stays) =~= seq![w] + tail.filter(stays));
        }
    } else {
        reveal(Seq::filter);
        assert(rest =~= Seq::<SwappedView>::empty());
    }
}

/// A complete swapped request takes the bytes of its copy off the count of
/// what the host holds, where the host holds it; a count never falls below
/// zero.
pub proof fn law_complete_swapped_give_bytes_back(
    s: SchedView,
    pool: PoolView,
    max_len: usize,
    i: int,
)
    requires
        0 <= i < s.swapped.len(),
        completion::drained(s, pool, false, max_len, i + 1).swap_manager is Some,
    ensures
        ({
            let w = s.swapped[i];
            let before = completion::drained(
                s,
                pool,
                false,
                max_len,
                i + 1,
            ).swap_manager->0.total_swapped_bytes;
            let d = completion::drained(s, pool, false, max_len, i);
            &&& d.swap_manager is Some
            &&& !w.done(max_len) ==> d.swap_manager->0.total_swapped_bytes == before
            &&& w.done(max_len) && w.kv_data.host_bytes() <= before
                ==> d.swap_manager->0.total_swapped_bytes + w.kv_data.host_bytes() == before
            &&& w.done(max_len) && w.kv_data.host_bytes() > before
                ==> d.swap_manager->0.total_swapped_bytes == 0
        }),
{
}

/// A request for which there are not blocks enough stays where it is, and
/// nothing else in the queues changes. If some blocks are left the next
/// request is tried. If none are, a pool that tiers memory is asked to evict
/// blocks, of four running requests at most; without such a pool a running
/// sequence is swapped out, unless swapping is off or nothing runs.
pub proof fn law_request_without_memory_waits(
    s: SchedView,
    setup: AdmitSetup,
    pool: PoolView,
    grants: Seq<Seq<u64>>,
    clock: u64,
    adm: Admission,
    to: SchedView,
    pool2: PoolView,
    adm2: Admission,
    action: AdmitAction,
)
    requires
        s.granted(setup, pool, grants, clock, adm, to, pool2, adm2, action),
        pool.allocated_many(s.blocks_needed(adm.next as int), grants, clock).1.len()
            != s.blocks_needed(adm.next as int),
        adm.next < usize::MAX,
    ensures
        to == s,
        pool2.pools.free.len() > 0 ==> adm2.next == adm.next + 1 && !(action is EvictBlocks) && !(
        action is SwapOut),
        !setup.kcmm ==> !(action is EvictBlocks),
        setup.kcmm || setup.disable_swap || s.running.len() == 0 ==> !(action is SwapOut),
        pool2.pools.free.len() == 0 && !setup.kcmm && !setup.disable_swap && s.running.len() > 0
            ==> action is SwapOut && adm2.next == adm.next,
        action is EvictBlocks ==> adm2.max_victims <= 4 && adm2.max_victims <= s.running.len()
            && adm2.victims_seen == 1 && adm2.next == adm.next,
{
}

/// No request is admitted behind one that was, once 256 sequences are
/// swapped out.
pub proof fn law_full_swap_space_stops_admission(
    s: SchedView,
    pool: PoolView,
    max_batch: usize,
    next: int,
    adm: Admission,
    action: AdmitAction,
)
    requires
        s.proceeds_unless_full(pool, max_batch, next, adm, action),
    ensures
        s.swapped.len() >= 256 ==> action is Done && adm.phase == AdmitPhase::Idle,
        s.swapped.len() < 256 && s.running.len() < max_batch && 0 <= next < s.waiting.len()
            ==> action is Allocate,
{
}

/// A victim whose blocks were all evicted leaves the batch; one that kept
/// some stays. What was evicted counts towards what is needed.
pub proof fn law_emptied_victim_leaves(
    s: SchedView,
    setup: AdmitSetup,
    pool: PoolView,
    adm: Admission,
    count: usize,
    to: SchedView,
    adm2: Admission,
    action: AdmitAction,
)
    requires
        s.evicted(setup, pool, adm, count, to, adm2, action),
        adm.phase is Evicting,
        adm.phase->Evicting_victim < s.running.len(),
        adm.evicted + count <= usize::MAX,
    ensures
        ({
            let v = adm.phase->Evicting_victim as int;
            &&& count < adm.phase->candidates ==> to == s
            &&& count >= adm.phase->candidates ==> {
                &&& to.running =~= s.running.take(v) + s.running.skip(v + 1)
                &&& to.swapped.len() == s.swapped.len() + 1
                &&& to.swapped.last().request == s.running[v].req
                &&& to.swapped.last().seq_idx == s.running[v].seq_idx
                &&& to.swapped.last().kv_data.num_blocks == 0
            }
            &&& to.waiting == s.waiting
            &&& action is EvictBlocks ==> adm2.evicted == adm.evicted + count && adm2.needed
                > adm2.evicted && adm2.needed == adm.needed
            &&& adm.evicted + count >= adm.needed ==> !(action is EvictBlocks) && adm2.next
                == adm.next
        }),
{
}

/// A sequence swapped out to the host leaves the batch with its copy, and its
/// blocks go back to the pool; the request that waits is tried again.
pub proof fn law_swapped_out_request_leaves(
    s: SchedView,
    setup: AdmitSetup,
    pool: PoolView,
    adm: Admission,
    kv_data: crate::cache::swap::EvictedSeqData,
    to: SchedView,
    pool2: PoolView,
    adm2: Admission,
    action: AdmitAction,
)
    requires
        s.swapped_out(setup, pool, adm, kv_data, to, pool2, adm2, action),
        adm.phase is Swapping,
        adm.phase->Swapping_victim < s.running.len(),
    ensures
        ({
            let v = adm.phase->Swapping_victim as int;
            let q = s.running[v].seq_idx as int;
            &&& to.running =~= s.running.take(v) + s.running.skip(v + 1)
            &&& to.swapped.last().request == s.running[v].req
            &&& to.swapped.last().kv_data == kv_data
            &&& to.waiting == s.waiting
            &&& 0 <= q < pool.sequences.len() ==> pool2.sequences[q].block_table.len() == 0
            &&& adm2.next == adm.next
        }),
{
    let v = adm.phase->Swapping_victim as int;
    edit_laws::law_unregister_empties(pool, s.running[v].seq_idx as int);
}

} // verus!
