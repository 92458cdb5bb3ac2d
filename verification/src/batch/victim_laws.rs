use vstd::prelude::*;

use crate::batch::continuous_scheduler;
use crate::batch::continuous_scheduler::{RequestState, RunningView};
use crate::kcmm::pool_model::{PoolView, SequencePriority};

verus! {

/// The priority that counts for a sequence: its own in the tiered pool, normal
/// where there is no such pool or the pool does not know the sequence.
pub open spec fn priority_in(pool: Option<PoolView>, seq_idx: usize) -> SequencePriority {
    match pool {
        Some(p) if seq_idx < p.sequences.len() => p.sequences[seq_idx as int].priority,
        _ => SequencePriority::Normal,
    }
}

/// When a sequence was accessed last; before all epochs where it was not.
pub open spec fn last_access(epochs: Map<u64, u64>, seq_idx: usize) -> int {
    if epochs.dom().contains(seq_idx as u64) {
        epochs[seq_idx as u64] as int
    } else {
        0
    }
}

/// Evictable sequences are evicted first, then those of low and of normal
/// priority, and those of high priority as a last resort.
pub proof fn law_victim_has_least_priority(
    running: Seq<RunningView>,
    epochs: Map<u64, u64>,
    pool: Option<PoolView>,
    v: int,
    j: int,
)
    requires
        continuous_scheduler::is_victim(running, epochs, pool, v),
        0 <= j < running.len(),
        running[j].state is Decode || forall|k: int|
            0 <= k < running.len() ==> !((#[trigger] running[k]).state is Decode),
    ensures
        ({
            let victim = priority_in(pool, running[v].seq_idx);
            match priority_in(pool, running[j].seq_idx) {
                SequencePriority::Evictable => victim is Evictable,
                SequencePriority::Low => victim is Evictable || victim is Low,
                SequencePriority::Normal => !(victim is High),
                SequencePriority::High => true,
            }
        }),
{
    assert(continuous_scheduler::evictable(running, j));
}

/// Among sequences of the same priority the one that was not accessed for the
/// longest time is evicted; among those the one with the most blocks; among
/// those the first.
pub proof fn law_victim_is_least_recent(
    running: Seq<RunningView>,
    epochs: Map<u64, u64>,
    pool: Option<PoolView>,
    v: int,
    j: int,
)
    requires
        continuous_scheduler::is_victim(running, epochs, pool, v),
        0 <= j < running.len(),
        running[j].state is Decode || forall|k: int|
            0 <= k < running.len() ==> !((#[trigger] running[k]).state is Decode),
        priority_in(pool, running[j].seq_idx) == priority_in(pool, running[v].seq_idx),
    ensures
        last_access(epochs, running[v].seq_idx) <= last_access(epochs, running[j].seq_idx),
        last_access(epochs, running[v].seq_idx) == last_access(epochs, running[j].seq_idx)
            ==> running[v].num_blocks >= running[j].num_blocks,
        last_access(epochs, running[v].seq_idx) == last_access(epochs, running[j].seq_idx)
            && running[v].num_blocks == running[j].num_blocks ==> v <= j,
{
    assert(continuous_scheduler::evictable(running, j));
}

/// A request that is still in prefill is spared while another is generating.
pub proof fn law_victim_is_generating(
    running: Seq<RunningView>,
    epochs: Map<u64, u64>,
    pool: Option<PoolView>,
    v: int,
    j: int,
)
    requires
        continuous_scheduler::is_victim(running, epochs, pool, v),
        0 <= j < running.len(),
        running[j].state == RequestState::Decode,
    ensures
        0 <= v < running.len(),
        running[v].state == RequestState::Decode,
{
    assert(continuous_scheduler::any_decoding(running));
}

} // verus!
