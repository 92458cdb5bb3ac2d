use std::collections::HashMap;
use vstd::prelude::*;

use crate::batch::static_batch::{InferenceRequest, RequestView};
use crate::cache::fragmentation_tracker::RuntimeFragmentationTracker;
use crate::cache::swap::{EvictedSeqData, SwapManager};
use crate::config::ModelConfig;
use crate::kcmm::pool::KcmmPool;
use crate::kcmm::pool_model::{PoolView, SequencePriority};

pub use crate::batch::backend::CacheBackend;

verus! {

/// Maximum number of sequences in the swapped queue.
pub const MAX_SWAPPED_SEQS: usize = 256;

/// Sequences that may be evicted for one waiting request.
pub const MAX_VICTIMS: usize = 4;

/// Prompt tokens that may be prefilled together.
pub const MAX_PREFILL_TOKENS: usize = 512;

/// Where a request stands.
#[derive(Debug, Clone, Copy, PartialEq, Eq, Structural)]
pub enum RequestState {
    /// Still consuming prompt tokens.
    Prefill { prompt_pos: usize },
    /// Generating new tokens one at a time.
    Decode,
}

/// A request whose sequence is in the cache.
#[derive(Debug)]
pub struct RunningRequest {
    pub req: InferenceRequest,
    /// Names the party that awaits the response.
    pub ticket: u64,
    pub state: RequestState,
    /// Next token position to process.
    pub position: usize,
    /// Index of the sequence in the cache.
    pub seq_idx: usize,
    /// Number of KV blocks allocated for the sequence.
    pub num_blocks: usize,
    /// Generated tokens.
    pub generated: Vec<u32>,
}

/// A running request as a value.
#[verifier::ext_equal]
pub struct RunningView {
    pub req: RequestView,
    pub ticket: u64,
    pub state: RequestState,
    pub position: usize,
    pub seq_idx: usize,
    pub num_blocks: usize,
    pub generated: Seq<u32>,
}

impl View for RunningRequest {
    type V = RunningView;

    open spec fn view(&self) -> RunningView {
        RunningView {
            req: self.req@,
            ticket: self.ticket,
            state: self.state,
            position: self.position,
            seq_idx: self.seq_idx,
            num_blocks: self.num_blocks,
            generated: self.generated@,
        }
    }
}

/// A request whose sequence left the GPU and awaits restoration.
#[derive(Debug)]
pub struct SwappedRequest {
    pub request: InferenceRequest,
    pub ticket: u64,
    pub generated: Vec<u32>,
    pub state: RequestState,
    pub position: usize,
    pub num_blocks: usize,
    /// Host copy of the KV data; empty where the pool keeps it.
    pub kv_data: EvictedSeqData,
    /// Index of the sequence in the pool; zero where the pool forgot it.
    pub seq_idx: usize,
}

/// A swapped request as a value.
#[verifier::ext_equal]
pub struct SwappedView {
    pub request: RequestView,
    pub ticket: u64,
    pub generated: Seq<u32>,
    pub state: RequestState,
    pub position: usize,
    pub num_blocks: usize,
    pub kv_data: EvictedSeqData,
    pub seq_idx: usize,
}

impl View for SwappedRequest {
    type V = SwappedView;

    open spec fn view(&self) -> SwappedView {
        SwappedView {
            request: self.request@,
            ticket: self.ticket,
            generated: self.generated@,
            state: self.state,
            position: self.position,
            num_blocks: self.num_blocks,
            kv_data: self.kv_data,
            seq_idx: self.seq_idx,
        }
    }
}

/// A request that is not in the cache yet.
#[derive(Debug)]
pub struct WaitingRequest {
    pub req: InferenceRequest,
    pub ticket: u64,
}

/// A waiting request as a value.
#[verifier::ext_equal]
pub struct WaitingView {
    pub req: RequestView,
    pub ticket: u64,
}

impl View for WaitingRequest {
    type V = WaitingView;

    open spec fn view(&self) -> WaitingView {
        WaitingView { req: self.req@, ticket: self.ticket }
    }
}

/// A response to the party that a ticket names.
#[derive(Debug)]
pub struct Completed {
    pub ticket: u64,
    pub id: u64,
    pub generated_tokens: Vec<u32>,
}

/// A response as a value.
#[verifier::ext_equal]
pub struct CompletedView {
    pub ticket: u64,
    pub id: u64,
    pub generated_tokens: Seq<u32>,
}

impl View for Completed {
    type V = CompletedView;

    open spec fn view(&self) -> CompletedView {
        CompletedView {
            ticket: self.ticket,
            id: self.id,
            generated_tokens: self.generated_tokens@,
        }
    }
}

/// Decides which requests run, which wait and which leave the GPU.
///
/// The scheduler keeps the books. Mapping memory, moving blocks and running
/// the model is left to the caller, who reports what came of it.
#[derive(Debug)]
pub struct ContinuousScheduler {
    pub cfg: ModelConfig,
    pub max_batch: usize,
    pub max_seq_len: usize,
    pub max_prefill_tokens: usize,
    /// Present only where sequences are swapped to the host.
    pub swap_manager: Option<SwapManager>,
    /// A request that finds no memory in the plain cache is only deferred.
    pub disable_swap: bool,
    pub running: Vec<RunningRequest>,
    pub waiting: Vec<WaitingRequest>,
    /// Swapped-out sequences waiting for GPU memory.
    pub swapped: Vec<SwappedRequest>,
    /// Last access per sequence, for victim selection.
    pub seq_last_epoch: HashMap<u64, u64>,
    /// Fragmentation over time.
    pub tracker: RuntimeFragmentationTracker,
    /// Current epoch.
    pub epoch: u64,
}

/// The requests that a scheduler keeps.
#[verifier::ext_equal]
pub struct SchedView {
    pub running: Seq<RunningView>,
    pub waiting: Seq<WaitingView>,
    pub swapped: Seq<SwappedView>,
    pub epochs: Map<u64, u64>,
    pub epoch: u64,
    pub swap_manager: Option<SwapManager>,
}

impl View for ContinuousScheduler {
    type V = SchedView;

    open spec fn view(&self) -> SchedView {
        SchedView {
            running: self.running@.map_values(|r: RunningRequest| r@),
            waiting: self.waiting@.map_values(|w: WaitingRequest| w@),
            swapped: self.swapped@.map_values(|s: SwappedRequest| s@),
            epochs: self.seq_last_epoch@,
            epoch: self.epoch,
            swap_manager: self.swap_manager,
        }
    }
}

/// What decides whether a sequence is evicted before another.
#[derive(Debug, Clone, Copy, PartialEq, Eq, Structural)]
pub struct VictimRank {
    /// Priority: evictable before low before normal before high.
    pub tier: u32,
    /// Last access.
    pub epoch: u64,
    /// More blocks free more memory.
    pub blocks: usize,
}

impl VictimRank {
    /// Whether a sequence of this rank is evicted before one of rank `other`:
    /// lower priority first, then the longer unused, then the larger.
    pub open spec fn precedes(self, other: Self) -> bool {
        ||| self.tier < other.tier
        ||| self.tier == other.tier && self.epoch < other.epoch
        ||| self.tier == other.tier && self.epoch == other.epoch && self.blocks > other.blocks
    }

    /// Whether a sequence of this rank is evicted before one of rank `other`.
    pub fn goes_before(self, other: Self) -> (r: bool)
        ensures
            r == self.precedes(other),
    {
        self.tier < other.tier || (self.tier == other.tier && self.epoch < other.epoch) || (
        self.tier == other.tier && self.epoch == other.epoch && self.blocks > other.blocks)
    }
}

/// The order of eviction by priority.
pub open spec fn tier_of(priority: SequencePriority) -> u32 {
    match priority {
        SequencePriority::Evictable => 0,
        SequencePriority::Low => 1,
        SequencePriority::Normal => 2,
        SequencePriority::High => 3,
    }
}

/// The order of eviction of a sequence: by its priority in the tiered pool;
/// without one all sequences are normal.
pub open spec fn seq_tier(pool: Option<PoolView>, seq_idx: usize) -> u32 {
    match pool {
        Some(p) => if seq_idx < p.sequences.len() {
            tier_of(p.sequences[seq_idx as int].priority)
        } else {
            2
        },
        None => 2,
    }
}

/// The rank of a running request.
pub open spec fn rank_of(
    r: RunningView,
    epochs: Map<u64, u64>,
    pool: Option<PoolView>,
) -> VictimRank {
    VictimRank {
        tier: seq_tier(pool, r.seq_idx),
        epoch: if epochs.dom().contains(r.seq_idx as u64) {
            epochs[r.seq_idx as u64]
        } else {
            0
        },
        blocks: r.num_blocks,
    }
}

/// Some running request is generating.
pub open spec fn any_decoding(running: Seq<RunningView>) -> bool {
    exists|i: int| 0 <= i < running.len() && (#[trigger] running[i]).state is Decode
}

/// A request may be evicted: it is generating, or none is.
pub open spec fn evictable(running: Seq<RunningView>, i: int) -> bool {
    &&& 0 <= i < running.len()
    &&& any_decoding(running) ==> running[i].state is Decode
}

/// Request `v` is the one to evict: of those that may be evicted none goes
/// before it, and it is the first of its rank.
pub open spec fn is_victim(
    running: Seq<RunningView>,
    epochs: Map<u64, u64>,
    pool: Option<PoolView>,
    v: int,
) -> bool {
    &&& evictable(running, v)
    &&& forall|j: int|
        #[trigger] evictable(running, j) ==> !rank_of(running[j], epochs, pool).precedes(
            rank_of(running[v], epochs, pool),
        ) && (j < v ==> rank_of(running[v], epochs, pool).precedes(
            rank_of(running[j], epochs, pool),
        ))
}

/// The request to evict.
pub open spec fn victim(
    running: Seq<RunningView>,
    epochs: Map<u64, u64>,
    pool: Option<PoolView>,
) -> int {
    choose|v: int| is_victim(running, epochs, pool, v)
}

/// At most one request is the one to evict.
pub proof fn law_victim_unique(
    running: Seq<RunningView>,
    epochs: Map<u64, u64>,
    pool: Option<PoolView>,
    v: int,
)
    requires
        is_victim(running, epochs, pool, v),
    ensures
        victim(running, epochs, pool) == v,
{
    let w = victim(running, epochs, pool);
    assert(is_victim(running, epochs, pool, w));
    assert(evictable(running, v) && evictable(running, w));
}

/// A request of higher priority is spared while one of lower priority is
/// generating too.
pub proof fn law_victim_spares_priority(
    running: Seq<RunningView>,
    epochs: Map<u64, u64>,
    pool: Option<PoolView>,
    v: int,
    j: int,
)
    requires
        is_victim(running, epochs, pool, v),
        0 <= j < running.len(),
        running[j].state is Decode,
    ensures
        running[v].state is Decode,
        seq_tier(pool, running[v].seq_idx) <= seq_tier(pool, running[j].seq_idx),
{
    assert(any_decoding(running));
    assert(evictable(running, j));
}

/// The view of the tiered pool behind a reference, if there is one.
pub open spec fn pool_view(pool: Option<&KcmmPool>) -> Option<PoolView> {
    match pool {
        Some(p) => Some(p@),
        None => None,
    }
}

impl ContinuousScheduler {
    /// What no scheduling step changes.
    pub open spec fn same_setup(&self, other: &Self) -> bool {
        &&& self.cfg == other.cfg
        &&& self.max_batch == other.max_batch
        &&& self.max_seq_len == other.max_seq_len
        &&& self.max_prefill_tokens == other.max_prefill_tokens
        &&& self.disable_swap == other.disable_swap
        &&& self.tracker == other.tracker
    }

    /// A scheduler without requests. Sequences are swapped to the host only
    /// in the plain cache, and only where that is not disabled.
    pub fn new(
        cfg: ModelConfig,
        max_batch: usize,
        max_seq_len: usize,
        kcmm: bool,
        disable_swap: bool,
    ) -> (r: Self)
        requires
            cfg.num_attention_heads > 0,
            cfg.kv_heads() * cfg.head_dim() * 2 <= usize::MAX,
        ensures
            r.cfg == cfg,
            r.max_batch == max_batch,
            r.max_seq_len == max_seq_len,
            r.max_prefill_tokens == MAX_PREFILL_TOKENS,
            r.disable_swap == disable_swap,
            r.tracker.bytes_per_token_elem == cfg.kv_heads() * cfg.head_dim() * 2,
            r.tracker.samples@.len() == 0,
            r.tracker.unified_samples@.len() == 0,
            r@ == (SchedView {
                running: Seq::empty(),
                waiting: Seq::empty(),
                swapped: Seq::empty(),
                epochs: Map::empty(),
                epoch: 0,
                swap_manager: if kcmm || disable_swap {
                    None
                } else {
                    Some(SwapManager { total_swapped_bytes: 0 })
                },
            }),
    {
        let swap_manager: Option<SwapManager> = if kcmm || disable_swap {
            None
        } else {
            Some(SwapManager::new())
        };
        let bytes_per_token_elem: usize = cfg.kv_heads() * cfg.head_dim() * 2;
        let r = ContinuousScheduler {
            cfg,
            max_batch,
            max_seq_len,
            max_prefill_tokens: MAX_PREFILL_TOKENS,
            swap_manager,
            disable_swap,
            running: Vec::new(),
            waiting: Vec::new(),
            swapped: Vec::new(),
            seq_last_epoch: HashMap::new(),
            tracker: RuntimeFragmentationTracker::new(bytes_per_token_elem),
            epoch: 0,
        };
        proof {
            assert(r@.running =~= Seq::empty());
            assert(r@.waiting =~= Seq::empty());
            assert(r@.swapped =~= Seq::empty());
        }
        r
    }

    /// Rank of a running request.
    fn rank(&self, r: &RunningRequest, pool: Option<&KcmmPool>) -> (k: VictimRank)
        ensures
            k == rank_of(r@, self@.epochs, pool_view(pool)),
    {
        broadcast use vstd::std_specs::hash::group_hash_axioms;

        let epoch: u64 = match self.seq_last_epoch.get(&(r.seq_idx as u64)) {
            Some(e) => *e,
            None => 0,
        };
        let tier: u32 = match pool {
            Some(p) => match p.sequence_priority(r.seq_idx) {
                SequencePriority::Evictable => 0,
                SequencePriority::Low => 1,
                SequencePriority::Normal => 2,
                SequencePriority::High => 3,
            },
            None => 2,
        };
        VictimRank { tier, epoch, blocks: r.num_blocks }
    }

    /// Select the running request to evict, by its index: lower priority
    /// first, then the longer unused, then the one with more blocks. Requests
    /// that are still in prefill are spared while another is generating.
    pub fn select_victim(&self, running: &[RunningRequest], pool: Option<&KcmmPool>) -> (r: Option<
        usize,
    >)
        ensures
            r is Some <==> running@.len() > 0,
            r matches Some(v) ==> is_victim(
                running@.map_values(|q: RunningRequest| q@),
                self@.epochs,
                pool_view(pool),
                v as int,
            ),
    {
        let ghost views = running@.map_values(|q: RunningRequest| q@);
        let mut decoding: bool = false;
        let mut i: usize = 0;
        while i < running.len()
            invariant
                i <= running@.len(),
                views == running@.map_values(|q: RunningRequest| q@),
                decoding == exists|k: int| 0 <= k < i && (#[trigger] views[k]).state is Decode,
            decreases running@.len() - i,
        {
            assert(views[i as int] == running@[i as int]@);
            if let RequestState::Decode = running[i].state {
                decoding = true;
            }
            i = i + 1;
        }
        let mut best: Option<(usize, VictimRank)> = None;
        i = 0;
        while i < running.len()
            invariant
                i <= running@.len(),
                views == running@.map_values(|q: RunningRequest| q@),
                decoding == any_decoding(views),
                best is None <==> forall|k: int| 0 <= k < i ==> !#[trigger] evictable(views, k),
                best matches Some((v, rank)) ==> {
                    &&& v < i
                    &&& evictable(views, v as int)
                    &&& rank == rank_of(views[v as int], self@.epochs, pool_view(pool))
                    &&& forall|j: int|
                        0 <= j < i && #[trigger] evictable(views, j) ==> !rank_of(
                            views[j],
                            self@.epochs,
                            pool_view(pool),
                        ).precedes(rank) && (j < v ==> rank.precedes(
                            rank_of(views[j], self@.epochs, pool_view(pool)),
                        ))
                },
            decreases running@.len() - i,
        {
            assert(views[i as int] == running@[i as int]@);
            let in_decode: bool = match running[i].state {
                RequestState::Decode => true,
                RequestState::Prefill { .. } => false,
            };
            if in_decode || !decoding {
                assert(evictable(views, i as int));
                let rank: VictimRank = self.rank(&running[i], pool);
                best = match best {
                    None => Some((i, rank)),
                    Some((v, best_rank)) => if rank.goes_before(best_rank) {
                        Some((i, rank))
                    } else {
                        Some((v, best_rank))
                    },
                };
            } else {
                assert(!evictable(views, i as int));
            }
            i = i + 1;
        }
        proof {
            if running@.len() > 0 {
                if any_decoding(views) {
                    let k = choose|k: int|
                        0 <= k < views.len() && (#[trigger] views[k]).state is Decode;
                    assert(evictable(views, k));
                } else {
                    assert(evictable(views, 0));
                }
            }
        }
        match best {
            Some((v, _)) => Some(v),
            None => None,
        }
    }
}

} // verus!
