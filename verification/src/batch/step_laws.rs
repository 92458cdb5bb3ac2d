use vstd::prelude::*;

use crate::batch::continuous_scheduler::{RequestState, RunningView};
use crate::batch::laws;
use crate::batch::step;
use crate::cache::paged_kv::BLOCK_SIZE;
use crate::kcmm::pool_model::PoolView;

verus! {

/// What a generating request sampled last is what it feeds to the model next,
/// one position further on, and it joins the end of its answer.
pub proof fn law_sampled_token_is_fed_back(q: RunningView, token: u32)
    requires
        q.state is Decode,
        q.position < usize::MAX,
    ensures
        q.stepped(token).input_token() == token,
        q.stepped(token).position == q.position + 1,
        q.stepped(token).generated == q.generated.push(token),
        q.stepped(token).state is Decode,
        q.stepped(token).ok(),
{
}

/// A step changes nothing of a request but where it stands.
pub proof fn law_step_keeps_identity(q: RunningView, token: u32)
    ensures
        q.stepped(token).req == q.req,
        q.stepped(token).ticket == q.ticket,
        q.stepped(token).seq_idx == q.seq_idx,
        q.stepped(token).num_blocks == q.num_blocks,
        q.generated.is_prefix_of(q.stepped(token).generated),
{
}

/// Over the steps of a fresh request the model is fed the tokens of its
/// prompt, in order and each once, from position zero on; then token zero;
/// then, at each step, the token sampled by the step before. The answer is
/// what was sampled after the prompt had been fed.
pub proof fn law_model_is_fed_prompt_and_answer(r: RunningView, sampled: Seq<u32>)
    requires
        r.state == (RequestState::Prefill { prompt_pos: 0 }),
        r.position == 0,
        r.generated.len() == 0,
        0 < r.req.prompt_tokens.len(),
        r.req.prompt_tokens.len() + sampled.len() < usize::MAX,
    ensures
        ({
            let q = laws::after_steps(r, sampled);
            let prompt = r.req.prompt_tokens;
            let n = sampled.len();
            &&& q.ok()
            &&& q.position == n
            &&& q.state is Decode <==> n >= prompt.len()
            &&& q.input_token() == if n < prompt.len() {
                prompt[n as int]
            } else if n == prompt.len() {
                0
            } else {
                sampled[n - 1]
            }
            &&& q.generated == if n <= prompt.len() {
                Seq::<u32>::empty()
            } else {
                sampled.skip(prompt.len() as int)
            }
            &&& q.req == r.req
        }),
    decreases sampled.len(),
{
    let prompt = r.req.prompt_tokens;
    let n = sampled.len();
    if n == 0 {
        assert(r.generated =~= Seq::<u32>::empty());
    } else if n <= prompt.len() {
        laws::law_prefill_takes_prompt_length(r, sampled);
        assert(r.generated =~= Seq::<u32>::empty());
    } else {
        law_model_is_fed_prompt_and_answer(r, sampled.drop_last());
        let q = laws::after_steps(r, sampled.drop_last());
        assert(q.state is Decode);
        assert(q.generated.push(sampled.last()) =~= sampled.skip(prompt.len() as int));
    }
}

/// The cache is told the length of a sequence as it is after the step: all
/// tokens that it holds, and during prefill the whole prompt.
pub proof fn law_reported_length(q: RunningView, token: u32)
    requires
        q.req.prompt_tokens.len() <= usize::MAX,
        q.position < usize::MAX,
    ensures
        q.state is Decode ==> q.reported_len() == q.stepped(token).position,
        q.state is Prefill ==> q.reported_len() == q.req.prompt_tokens.len(),
{
}

/// The blocks that a step needs reach over the position it writes, and one
/// block less would not.
pub proof fn law_blocks_reach_position(q: RunningView)
    ensures
        (q.blocks_needed() - 1) * BLOCK_SIZE <= q.position < q.blocks_needed() * BLOCK_SIZE,
{
}

/// After all running sequences were marked, each of them was accessed in the
/// current epoch, and no other sequence was.
pub proof fn law_running_are_most_recent(
    running: Seq<RunningView>,
    epochs: Map<u64, u64>,
    epoch: u64,
    n: nat,
)
    requires
        n <= running.len(),
    ensures
        ({
            let after = step::epochs_after(running, epochs, epoch, n);
            &&& forall|b: int|
                0 <= b < n ==> after.dom().contains((#[trigger] running[b]).seq_idx as u64)
                    && after[running[b].seq_idx as u64] == epoch
            &&& forall|q: u64|
                (forall|b: int| 0 <= b < n ==> (#[trigger] running[b]).seq_idx as u64 != q) ==> (
                #[trigger] after.dom().contains(q) <==> epochs.dom().contains(q)) && after[q]
                    == epochs[q]
        }),
    decreases n,
{
    if n > 0 {
        law_running_are_most_recent(running, epochs, epoch, (n - 1) as nat);
        let before = step::epochs_after(running, epochs, epoch, (n - 1) as nat);
        let after = step::epochs_after(running, epochs, epoch, n);
        assert forall|q: u64|
            (forall|b: int| 0 <= b < n ==> (#[trigger] running[b]).seq_idx as u64 != q) implies (
        #[trigger] after.dom().contains(q) <==> epochs.dom().contains(q)) && after[q]
            == epochs[q] by {
            assert(running[n - 1].seq_idx as u64 != q);
            assert(before.dom().contains(q) <==> epochs.dom().contains(q));
        }
    }
}

/// After all running sequences were marked in the pool, each that it knows is
/// active, and nothing else has changed.
pub proof fn law_running_are_active(running: Seq<RunningView>, pool: PoolView, n: nat)
    requires
        n <= running.len(),
    ensures
        ({
            let after = step::touched(running, pool, n);
            &&& after == (PoolView { sequences: after.sequences, ..pool })
            &&& after.sequences.len() == pool.sequences.len()
            &&& forall|b: int|
                0 <= b < n && (#[trigger] running[b]).seq_idx < pool.sequences.len()
                    ==> after.sequences[running[b].seq_idx as int].is_active
            &&& forall|q: int|
                0 <= q < pool.sequences.len() ==> (#[trigger] after.sequences[q]).block_table
                    == pool.sequences[q].block_table && after.sequences[q].seq_len
                    == pool.sequences[q].seq_len && after.sequences[q].priority
                    == pool.sequences[q].priority
            &&& forall|q: int|
                0 <= q < pool.sequences.len() && (forall|b: int|
                    0 <= b < n ==> (#[trigger] running[b]).seq_idx != q)
                    ==> #[trigger] after.sequences[q] == pool.sequences[q]
        }),
    decreases n,
{
    if n > 0 {
        law_running_are_active(running, pool, (n - 1) as nat);
        let before = step::touched(running, pool, (n - 1) as nat);
        let after = step::touched(running, pool, n);
        assert forall|q: int|
            0 <= q < pool.sequences.len() && (forall|b: int|
                0 <= b < n ==> (#[trigger] running[b]).seq_idx
                    != q) implies #[trigger] after.sequences[q] == pool.sequences[q] by {
            assert(running[n - 1].seq_idx != q);
            assert(before.sequences[q] == pool.sequences[q]);
        }
    }
}

/// After a step the pool knows each running sequence by its new length, where
/// no sequence runs twice; the others keep theirs.
pub proof fn law_lengths_are_reported(running: Seq<RunningView>, pool: PoolView, n: nat)
    requires
        n <= running.len(),
        forall|a: int, b: int|
            0 <= a < b < running.len() ==> (#[trigger] running[a]).seq_idx != (
            #[trigger] running[b]).seq_idx,
    ensures
        ({
            let after = step::reported(running, pool, n);
            &&& after == (PoolView { sequences: after.sequences, ..pool })
            &&& after.sequences.len() == pool.sequences.len()
            &&& forall|b: int|
                0 <= b < n && (#[trigger] running[b]).seq_idx < pool.sequences.len()
                    ==> after.sequences[running[b].seq_idx as int].seq_len
                    == running[b].reported_len()
            &&& forall|q: int|
                0 <= q < pool.sequences.len() ==> (#[trigger] after.sequences[q]).block_table
                    == pool.sequences[q].block_table && after.sequences[q].is_active
                    == pool.sequences[q].is_active && after.sequences[q].priority
                    == pool.sequences[q].priority
            &&& forall|q: int|
                0 <= q < pool.sequences.len() && (forall|b: int|
                    0 <= b < n ==> (#[trigger] running[b]).seq_idx != q)
                    ==> #[trigger] after.sequences[q] == pool.sequences[q]
        }),
    decreases n,
{
    if n > 0 {
        law_lengths_are_reported(running, pool, (n - 1) as nat);
        let before = step::reported(running, pool, (n - 1) as nat);
        let after = step::reported(running, pool, n);
        assert forall|q: int|
            0 <= q < pool.sequences.len() && (forall|b: int|
                0 <= b < n ==> (#[trigger] running[b]).seq_idx
                    != q) implies #[trigger] after.sequences[q] == pool.sequences[q] by {
            assert(running[n - 1].seq_idx != q);
            assert(before.sequences[q] == pool.sequences[q]);
        }
    }
}

} // verus!
