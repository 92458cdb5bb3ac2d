use vstd::prelude::*;
use vstd::string::*;

use crate::config::KcmmConfig;
use crate::kcmm::policy::{Policy, PolicyKind};
use crate::kcmm::pool::{BlockLocation, KcmmPool};
use crate::kcmm::pool_model::{PoolView, SequencePriority};
use crate::kcmm::superblock::BlockHandle;
use crate::kcmm::tiering::TieringView;
use crate::text;
use crate::text::{lower_text, same_text};

verus! {

/// What a caller knows of a sequence's future.
#[allow(non_camel_case_types)]
#[derive(Debug, Clone, Copy, PartialEq, Eq, Structural)]
pub enum kcmm_hint_t {
    KCMM_HINT_MULTI_TURN,
    KCMM_HINT_NEAR_END,
    KCMM_HINT_SYSTEM_PROMPT,
    KCMM_HINT_HIGH_PRIORITY,
    KCMM_HINT_LOW_PRIORITY,
    KCMM_HINT_ATTENTION_SINK,
    KCMM_HINT_HEAVY_HITTER,
    KCMM_HINT_EVICTABLE,
}

/// How blocks are protected from eviction.
#[allow(non_camel_case_types)]
#[derive(Debug, Clone, Copy, PartialEq, Eq, Structural)]
pub enum kcmm_protection_t {
    KCMM_PROTECT_NEVER_EVICT,
    KCMM_PROTECT_PREFERRED,
    KCMM_EVICT_PREFERRED,
}

/// Where a block's data resides.
#[allow(non_camel_case_types)]
#[derive(Debug, Clone, Copy, PartialEq, Eq, Structural)]
pub enum kcmm_block_location_t {
    KCMM_LOC_GPU_RESIDENT,
    KCMM_LOC_CPU_RESIDENT,
    KCMM_LOC_NVME_RESIDENT,
    KCMM_LOC_EVICTING,
    KCMM_LOC_RESTORING,
}

/// Why a call fails.
#[derive(Debug, Clone, Copy, PartialEq, Eq, Structural)]
pub enum ApiError {
    /// There is no such sequence.
    SequenceOutOfBounds(u32),
    /// There is no such block in use.
    BlockNotFound(u32),
    /// Blocks do not move between memory tiers.
    TieringDisabled,
    /// No eviction policy has this name.
    UnknownPolicy,
}

/// Name of the eviction policy that a number stands for.
pub fn policy_from_i32(val: i32) -> (r: &'static str)
    ensures
        r@ == if val == 1 {
            "lfu"@
        } else if val == 2 {
            "fifo"@
        } else {
            "lru"@
        },
{
    match val {
        1 => "lfu",
        2 => "fifo",
        _ => "lru",
    }
}

/// A value, or a default in place of zero.
pub fn default_usize_if_zero(value: usize, default: usize) -> (r: usize)
    ensures
        r == if value == 0 {
            default
        } else {
            value
        },
{
    if value == 0 {
        default
    } else {
        value
    }
}

/// A value, or a default in place of zero.
pub fn default_u64_if_zero(value: u64, default: u64) -> (r: u64)
    ensures
        r == if value == 0 {
            default
        } else {
            value
        },
{
    if value == 0 {
        default
    } else {
        value
    }
}

/// Where a block resides, as it is told to callers.
pub fn block_loc_to_c(loc: &BlockLocation) -> (r: kcmm_block_location_t)
    ensures
        match loc {
            BlockLocation::GpuResident(_, _) => r is KCMM_LOC_GPU_RESIDENT,
            BlockLocation::CpuResident(_) => r is KCMM_LOC_CPU_RESIDENT,
            BlockLocation::NvmeResident(_) => r is KCMM_LOC_NVME_RESIDENT,
            BlockLocation::Evicting => r is KCMM_LOC_EVICTING,
            BlockLocation::Restoring => r is KCMM_LOC_RESTORING,
        },
{
    match loc {
        BlockLocation::GpuResident(_, _) => kcmm_block_location_t::KCMM_LOC_GPU_RESIDENT,
        BlockLocation::CpuResident(_) => kcmm_block_location_t::KCMM_LOC_CPU_RESIDENT,
        BlockLocation::NvmeResident(_) => kcmm_block_location_t::KCMM_LOC_NVME_RESIDENT,
        BlockLocation::Evicting => kcmm_block_location_t::KCMM_LOC_EVICTING,
        BlockLocation::Restoring => kcmm_block_location_t::KCMM_LOC_RESTORING,
    }
}

/// Length of the text in a buffer: up to the first zero byte, or all of it.
pub fn c_str_len(buf: &[u8]) -> (r: usize)
    ensures
        r <= buf@.len(),
        forall|i: int| 0 <= i < r ==> #[trigger] buf@[i] != 0,
        r < buf@.len() ==> buf@[r as int] == 0,
{
    let mut i: usize = 0;
    while i < buf.len() && buf[i] != 0
        invariant
            i <= buf@.len(),
            forall|k: int| 0 <= k < i ==> #[trigger] buf@[k] != 0,
        decreases buf@.len() - i,
    {
        i = i + 1;
    }
    i
}

/// What is written to a buffer of `max_len` bytes: the text and a zero byte,
/// or nothing where the buffer is too small for both.
pub fn c_str_bytes(s: &[u8], max_len: usize) -> (r: Vec<u8>)
    ensures
        r@ == if s@.len() < max_len {
            s@.push(0)
        } else {
            Seq::<u8>::empty()
        },
{
    let mut out: Vec<u8> = Vec::new();
    if s.len() >= max_len {
        return out;
    }
    let mut i: usize = 0;
    while i < s.len()
        invariant
            i <= s@.len(),
            out@ == s@.take(i as int),
        decreases s@.len() - i,
    {
        out.push(s[i]);
        i = i + 1;
    }
    assert(s@.take(s@.len() as int) =~= s@);
    out.push(0);
    out
}

/// Configuration as callers give it; zero and the empty text stand for the
/// defaults.
#[derive(Debug)]
pub struct PoolSettings {
    pub block_size: usize,
    pub max_blocks: usize,
    pub cpu_cache_path: String,
    pub tiering: i32,
    pub eviction_policy: i32,
    pub prefetch_window: usize,
    pub max_batch_blocks: usize,
    pub background_evict_interval_ms: u64,
    pub attention_sink_blocks: usize,
    pub recent_window_blocks: usize,
}

/// A value, or a default in place of zero.
pub open spec fn or_default(value: int, default: int) -> int {
    if value == 0 {
        default
    } else {
        value
    }
}

/// The configuration of a pool from what a caller gave.
pub fn pool_config(s: PoolSettings) -> (r: KcmmConfig)
    ensures
        r.block_size == or_default(s.block_size as int, 16),
        r.max_blocks == or_default(s.max_blocks as int, 16384),
        r.cpu_cache_path@ == if s.cpu_cache_path@.len() == 0 {
            "/dev/shm/kcmm_swap"@
        } else {
            s.cpu_cache_path@
        },
        r.tiering == (s.tiering != 0),
        r.eviction_policy@ == if s.eviction_policy == 1 {
            "lfu"@
        } else if s.eviction_policy == 2 {
            "fifo"@
        } else {
            "lru"@
        },
        r.prefetch_window == or_default(s.prefetch_window as int, 4),
        r.max_batch_blocks == or_default(s.max_batch_blocks as int, 64),
        r.background_evict_interval_ms == or_default(s.background_evict_interval_ms as int, 100),
        r.attention_sink_blocks == or_default(s.attention_sink_blocks as int, 1),
        r.recent_window_blocks == or_default(s.recent_window_blocks as int, 4),
{
    let unnamed: bool = s.cpu_cache_path.as_str().unicode_len() == 0;
    KcmmConfig {
        block_size: default_usize_if_zero(s.block_size, 16),
        max_blocks: default_usize_if_zero(s.max_blocks, 16384),
        cpu_cache_path: if unnamed {
            "/dev/shm/kcmm_swap".to_owned()
        } else {
            s.cpu_cache_path
        },
        tiering: s.tiering != 0,
        eviction_policy: policy_from_i32(s.eviction_policy).to_owned(),
        prefetch_window: default_usize_if_zero(s.prefetch_window, 4),
        max_batch_blocks: default_usize_if_zero(s.max_batch_blocks, 64),
        background_evict_interval_ms: default_u64_if_zero(s.background_evict_interval_ms, 100),
        attention_sink_blocks: default_usize_if_zero(s.attention_sink_blocks, 1),
        recent_window_blocks: default_usize_if_zero(s.recent_window_blocks, 4),
    }
}

/// The name of a policy.
pub open spec fn policy_name(kind: PolicyKind) -> Seq<char> {
    match kind {
        PolicyKind::Lru => "lru"@,
        PolicyKind::Lfu => "lfu"@,
        PolicyKind::Fifo => "fifo"@,
    }
}

/// The policy that a name, in any case, stands for.
pub open spec fn policy_choice(name: Seq<char>) -> Option<PolicyKind> {
    if text::lower(name) == "lru"@ {
        Some(PolicyKind::Lru)
    } else if text::lower(name) == "lfu"@ {
        Some(PolicyKind::Lfu)
    } else if text::lower(name) == "fifo"@ {
        Some(PolicyKind::Fifo)
    } else {
        None
    }
}

/// The scores after the blocks were accessed one after the other.
pub open spec fn accessed(
    kind: PolicyKind,
    scores: Map<u64, u64>,
    blocks: Seq<BlockHandle>,
    now: u64,
) -> Map<u64, u64>
    decreases blocks.len(),
{
    if blocks.len() == 0 {
        scores
    } else {
        kind.scores_on_access(
            accessed(kind, scores, blocks.drop_last(), now),
            blocks.last(),
            now,
        )
    }
}

/// No count of accesses is so large that `n` more could not be counted.
pub open spec fn counts_fit(scores: Map<u64, u64>, n: nat) -> bool {
    forall|k: u64| #[trigger] scores.contains_key(k) ==> scores[k] + n <= u64::MAX
}

/// Counting accesses leaves room for as many fewer.
proof fn lemma_accessed_fits(
    kind: PolicyKind,
    scores: Map<u64, u64>,
    blocks: Seq<BlockHandle>,
    now: u64,
    n: nat,
)
    requires
        kind == PolicyKind::Lfu,
        counts_fit(scores, blocks.len() + n),
        blocks.len() + n <= u64::MAX,
    ensures
        counts_fit(accessed(kind, scores, blocks, now), n),
    decreases blocks.len(),
{
    if blocks.len() > 0 {
        lemma_accessed_fits(kind, scores, blocks.drop_last(), now, n + 1);
        let before = accessed(kind, scores, blocks.drop_last(), now);
        let after = accessed(kind, scores, blocks, now);
        assert forall|k: u64| #[trigger] after.contains_key(k) implies after[k] + n <= u64::MAX by {
            if k != blocks.last().key() {
                assert(before.contains_key(k));
            } else if before.contains_key(k) {
                assert(before[k] + (n + 1) <= u64::MAX);
            }
        }
    }
}

impl PoolView {
    /// The handles of the blocks of a table that are in use.
    pub open spec fn used_handles(self, table: Seq<u32>) -> Seq<BlockHandle>
        decreases table.len(),
    {
        if table.len() == 0 {
            Seq::empty()
        } else {
            let before = self.used_handles(table.drop_last());
            if self.used(table.last()) {
                before.push(self.blocks[table.last() as int].handle())
            } else {
                before
            }
        }
    }

    /// The handles of the first `n` blocks that are in GPU memory.
    pub open spec fn resident_handles(self, n: nat) -> Seq<BlockHandle>
        decreases n,
    {
        if n == 0 {
            Seq::empty()
        } else {
            let before = self.resident_handles((n - 1) as nat);
            let info = self.blocks[n - 1];
            match info.location {
                BlockLocation::GpuResident(h, _) => if info.in_use {
                    before.push(h)
                } else {
                    before
                },
                _ => before,
            }
        }
    }

    /// The pool after blocks were accessed.
    pub open spec fn with_accessed(self, blocks: Seq<BlockHandle>, now: u64) -> Self {
        match self.tiering {
            Some(t) => self.with_scores(accessed(t.kind, t.scores, blocks, now)),
            None => self,
        }
    }

    /// `n` more accesses can be counted.
    pub open spec fn can_count(self, n: nat) -> bool {
        self.tiering matches Some(t) ==> t.kind == PolicyKind::Lfu ==> n <= u64::MAX
            && counts_fit(t.scores, n)
    }

    /// The pool after a hint about sequence `s`: what is worth keeping counts
    /// as accessed, what is near its end becomes eligible for eviction, and
    /// priorities are recorded.
    pub open spec fn hinted(self, s: int, hint: kcmm_hint_t, now: u64) -> Self {
        match hint {
            kcmm_hint_t::KCMM_HINT_MULTI_TURN
            | kcmm_hint_t::KCMM_HINT_SYSTEM_PROMPT
            | kcmm_hint_t::KCMM_HINT_ATTENTION_SINK
            | kcmm_hint_t::KCMM_HINT_HEAVY_HITTER => self.with_active(s, true).with_accessed(
                self.used_handles(self.sequences[s].block_table),
                now,
            ),
            kcmm_hint_t::KCMM_HINT_HIGH_PRIORITY => self.with_active(s, true).with_priority(
                s,
                SequencePriority::High,
            ),
            kcmm_hint_t::KCMM_HINT_NEAR_END => self.with_active(s, false),
            kcmm_hint_t::KCMM_HINT_LOW_PRIORITY => self.with_active(s, false).with_priority(
                s,
                SequencePriority::Low,
            ),
            kcmm_hint_t::KCMM_HINT_EVICTABLE => self.with_active(s, false).with_priority(
                s,
                SequencePriority::Evictable,
            ),
        }
    }
}

impl KcmmPool {
    /// The handles of a table's blocks that are in use.
    fn table_handles(&self, table: &Vec<u32>) -> (r: Vec<BlockHandle>)
        ensures
            r@ == self@.used_handles(table@),
            r@.len() <= table@.len(),
    {
        let mut out: Vec<BlockHandle> = Vec::new();
        let mut i: usize = 0;
        while i < table.len()
            invariant
                i <= table@.len(),
                out@ == self@.used_handles(table@.take(i as int)),
                out@.len() <= i,
            decreases table@.len() - i,
        {
            proof {
                let t = table@.take(i + 1);
                assert(t.drop_last() =~= table@.take(i as int));
                assert(t.last() == table@[i as int]);
            }
            if let Some(h) = self.get_block_handle(table[i]) {
                out.push(h);
            }
            i = i + 1;
        }
        assert(table@.take(table@.len() as int) =~= table@);
        out
    }

    /// Count the blocks as accessed. Without tiering nothing is counted.
    fn access_blocks(&mut self, blocks: &Vec<BlockHandle>, now: u64)
        requires
            old(self).wf(),
            old(self)@.can_count(blocks@.len()),
        ensures
            final(self).wf(),
            final(self)@ == old(self)@.with_accessed(blocks@, now),
    {
        if let Some(t) = self.tiering.as_mut() {
            let ghost kind = t@.kind;
            let ghost scores = t@.scores;
            let ghost t0 = t@;
            let mut i: usize = 0;
            while i < blocks.len()
                invariant
                    i <= blocks@.len(),
                    t.wf(),
                    kind == PolicyKind::Lfu ==> blocks@.len() <= u64::MAX && counts_fit(
                        scores,
                        blocks@.len(),
                    ),
                    t@ == (TieringView {
                        scores: accessed(kind, scores, blocks@.take(i as int), now),
                        ..t0
                    }),
                    t0.kind == kind,
                decreases blocks@.len() - i,
            {
                proof {
                    let done = blocks@.take(i as int);
                    let next = blocks@.take(i + 1);
                    assert(next.drop_last() =~= done);
                    assert(next.last() == blocks@[i as int]);
                    if kind == PolicyKind::Lfu {
                        lemma_accessed_fits(kind, scores, done, now, (blocks@.len() - i) as nat);
                    }
                }
                t.eviction_policy.on_access(blocks[i], now);
                i = i + 1;
            }
            assert(blocks@.take(blocks@.len() as int) =~= blocks@);
        }
        proof {
            assert(self@ =~= old(self)@.with_accessed(blocks@, now));
        }
    }

    /// The handles of all blocks that are in GPU memory.
    pub fn evict_candidates(&self) -> (r: Vec<BlockHandle>)
        ensures
            r@ == self@.resident_handles(self@.blocks.len()),
    {
        let mut out: Vec<BlockHandle> = Vec::new();
        let mut i: usize = 0;
        while i < self.block_info.len()
            invariant
                i <= self.block_info@.len(),
                out@ == self@.resident_handles(i as nat),
            decreases self.block_info@.len() - i,
        {
            if self.block_info[i].in_use {
                if let BlockLocation::GpuResident(h, _) = self.block_info[i].location {
                    out.push(h);
                }
            }
            i = i + 1;
        }
        out
    }

    /// Apply a hint to a sequence.
    pub fn hint(&mut self, seq_idx: u32, hint: kcmm_hint_t, now: u64) -> (r: Result<(), ApiError>)
        requires
            old(self).wf(),
            seq_idx < old(self)@.sequences.len() ==> old(self)@.can_count(
                old(self)@.sequences[seq_idx as int].block_table.len(),
            ),
        ensures
            final(self).wf(),
            seq_idx >= old(self)@.sequences.len() ==> r == Err::<(), ApiError>(
                ApiError::SequenceOutOfBounds(seq_idx),
            ) && final(self)@ == old(self)@,
            seq_idx < old(self)@.sequences.len() ==> r == Ok::<(), ApiError>(()) && final(self)@
                == old(self)@.hinted(seq_idx as int, hint, now),
    {
        let s: usize = seq_idx as usize;
        if s >= self.sequences.len() {
            return Err(ApiError::SequenceOutOfBounds(seq_idx));
        }
        assert(self@.sequences[s as int] == self.sequences@[s as int]@);
        match hint {
            kcmm_hint_t::KCMM_HINT_MULTI_TURN
            | kcmm_hint_t::KCMM_HINT_SYSTEM_PROMPT
            | kcmm_hint_t::KCMM_HINT_ATTENTION_SINK
            | kcmm_hint_t::KCMM_HINT_HEAVY_HITTER => {
                let blocks: Vec<BlockHandle> = self.table_handles(&self.sequences[s].block_table);
                self.touch(s);
                self.access_blocks(&blocks, now);
            },
            kcmm_hint_t::KCMM_HINT_HIGH_PRIORITY => {
                self.touch(s);
                self.set_sequence_priority(s, SequencePriority::High);
            },
            kcmm_hint_t::KCMM_HINT_NEAR_END => {
                self.cool(s);
            },
            kcmm_hint_t::KCMM_HINT_LOW_PRIORITY => {
                self.cool(s);
                self.set_sequence_priority(s, SequencePriority::Low);
            },
            kcmm_hint_t::KCMM_HINT_EVICTABLE => {
                self.cool(s);
                self.set_sequence_priority(s, SequencePriority::Evictable);
            },
        }
        Ok(())
    }

    /// Set the protection of blocks. Protected blocks count as accessed. The
    /// first block that is not in use ends the call; without tiering nothing
    /// happens.
    pub fn protect(&mut self, blocks: &Vec<u32>, level: kcmm_protection_t, now: u64) -> (r: Result<
        (),
        ApiError,
    >)
        requires
            old(self).wf(),
            old(self)@.can_count(blocks@.len()),
        ensures
            final(self).wf(),
            old(self)@.tiering is None ==> r == Ok::<(), ApiError>(()),
            old(self)@.tiering is Some ==> match r {
                Ok(()) => forall|i: int|
                    0 <= i < blocks@.len() ==> old(self)@.used(#[trigger] blocks@[i]),
                Err(e) => exists|k: int|
                    #[trigger] old(self)@.first_unused(blocks@, k) && e == ApiError::BlockNotFound(
                        blocks@[k],
                    ),
            },
            final(self)@ == if level is KCMM_EVICT_PREFERRED {
                old(self)@
            } else {
                old(self)@.with_accessed(
                    old(self)@.used_handles(blocks@.take(old(self)@.used_prefix(blocks@) as int)),
                    now,
                )
            },
    {
        let ghost s0 = self@;
        if self.tiering.is_none() {
            return Ok(());
        }
        let mut front: Vec<u32> = Vec::new();
        let mut missing: Option<u32> = None;
        let mut i: usize = 0;
        while i < blocks.len() && missing.is_none()
            invariant
                s0 == self@,
                i <= blocks@.len(),
                missing is None ==> front@ == blocks@.take(i as int),
                missing matches Some(b) ==> i < blocks@.len() && b == blocks@[i as int]
                    && front@ == blocks@.take(i as int) && !s0.used(b),
                forall|k: int| 0 <= k < i ==> s0.used(#[trigger] blocks@[k]),
            decreases blocks@.len() - i + (if missing is None {
                1int
            } else {
                0
            }),
        {
            let b: u32 = blocks[i];
            if self.get_block_handle(b).is_some() {
                front.push(b);
                i = i + 1;
            } else {
                missing = Some(b);
            }
        }
        proof {
            s0.lemma_used_prefix(blocks@, i as int);
        }
        match level {
            kcmm_protection_t::KCMM_EVICT_PREFERRED => {},
            _ => {
                let handles: Vec<BlockHandle> = self.table_handles(&front);
                self.access_blocks(&handles, now);
            },
        }
        match missing {
            Some(b) => {
                assert(s0.first_unused(blocks@, i as int));
                Err(ApiError::BlockNotFound(b))
            },
            None => Ok(()),
        }
    }

    /// Append a block to a sequence's table.
    pub fn append_block_checked(&mut self, seq_idx: u32, block_idx: u32) -> (r: Result<
        (),
        ApiError,
    >)
        requires
            old(self).wf(),
        ensures
            final(self).wf(),
            seq_idx >= old(self)@.sequences.len() ==> r == Err::<(), ApiError>(
                ApiError::SequenceOutOfBounds(seq_idx),
            ) && final(self)@ == old(self)@,
            seq_idx < old(self)@.sequences.len() ==> r == Ok::<(), ApiError>(()) && final(self)@
                == old(self)@.with_appended(seq_idx as int, block_idx),
    {
        if seq_idx as usize >= self.sequences.len() {
            return Err(ApiError::SequenceOutOfBounds(seq_idx));
        }
        self.append_block_to_sequence(seq_idx as usize, block_idx);
        Ok(())
    }

    /// Base address of a layer's K or V cache; zero for an unknown layer.
    pub fn layer_base(&self, layer: u32, is_v: bool) -> (r: u64)
        requires
            self.wf(),
        ensures
            r == if layer >= self@.shape.num_layers {
                0
            } else if is_v {
                self@.va_v[layer as int]
            } else {
                self@.va_k[layer as int]
            },
    {
        if layer as usize >= self.num_layers {
            0
        } else if is_v {
            self.va_v(layer as usize)
        } else {
            self.va_k(layer as usize)
        }
    }

    /// Whether a block is in GPU memory.
    pub fn is_gpu_resident(&self, block_idx: u32) -> (r: bool)
        ensures
            r == (self@.location_of(block_idx) matches Some(BlockLocation::GpuResident(_, _))),
    {
        match self.get_block_location(block_idx) {
            Some(BlockLocation::GpuResident(_, _)) => true,
            _ => false,
        }
    }

    /// Replace the eviction policy by an empty one of the given name.
    pub fn set_eviction_policy(&mut self, name: &str) -> (r: Result<(), ApiError>)
        requires
            old(self).wf(),
        ensures
            final(self).wf(),
            ({
                let s = old(self)@;
                if s.tiering is None {
                    r == Err::<(), ApiError>(ApiError::TieringDisabled) && final(self)@ == s
                } else {
                    match policy_choice(name@) {
                        None => r == Err::<(), ApiError>(ApiError::UnknownPolicy) && final(self)@
                            == s,
                        Some(kind) => {
                            &&& r == Ok::<(), ApiError>(())
                            &&& final(self)@ == PoolView {
                                tiering: Some(
                                    TieringView { kind, scores: Map::empty(), ..s.tiering->0 },
                                ),
                                ..s
                            }
                        },
                    }
                }
            }),
    {
        let lower: String = lower_text(name);
        let kind: Option<PolicyKind> = if same_text(lower.as_str(), "lru") {
            Some(PolicyKind::Lru)
        } else if same_text(lower.as_str(), "lfu") {
            Some(PolicyKind::Lfu)
        } else if same_text(lower.as_str(), "fifo") {
            Some(PolicyKind::Fifo)
        } else {
            None
        };
        match self.tiering.as_mut() {
            None => Err(ApiError::TieringDisabled),
            Some(t) => match kind {
                None => Err(ApiError::UnknownPolicy),
                Some(k) => {
                    t.eviction_policy = Policy::of_kind(k);
                    Ok(())
                },
            },
        }
    }

    /// Name of the current eviction policy; `None` without tiering.
    pub fn current_policy_name(&self) -> (r: Option<&'static str>)
        ensures
            match self@.tiering {
                None => r is None,
                Some(t) => r matches Some(n) && n@ == policy_name(t.kind),
            },
    {
        match &self.tiering {
            None => None,
            Some(t) => match t.eviction_policy.kind() {
                PolicyKind::Lru => Some("lru"),
                PolicyKind::Lfu => Some("lfu"),
                PolicyKind::Fifo => Some("fifo"),
            },
        }
    }
}

/// The name of a policy chooses that policy.
pub proof fn law_policy_name_chooses(kind: PolicyKind)
    ensures
        policy_choice(policy_name(kind)) == Some(kind),
{
    reveal_strlit("lru");
    reveal_strlit("lfu");
    reveal_strlit("fifo");
    assert(text::lower("lru"@) =~= "lru"@);
    assert(text::lower("lfu"@) =~= "lfu"@);
    assert(text::lower("fifo"@) =~= "fifo"@);
    assert("lru"@[1] != "lfu"@[1]);
    assert("fifo"@.len() != "lru"@.len());
}

impl PoolView {
    /// Entry `k` is the first of the list that is not in use.
    pub open spec fn first_unused(self, blocks: Seq<u32>, k: int) -> bool {
        &&& 0 <= k < blocks.len()
        &&& !self.used(blocks[k])
        &&& forall|i: int| 0 <= i < k ==> self.used(#[trigger] blocks[i])
    }

    /// How many entries at the front of the list are in use.
    pub open spec fn used_prefix(self, blocks: Seq<u32>) -> nat
        decreases blocks.len(),
    {
        if blocks.len() == 0 {
            0
        } else {
            let before = self.used_prefix(blocks.drop_last());
            if before == blocks.len() - 1 && self.used(blocks.last()) {
                blocks.len()
            } else {
                before
            }
        }
    }

    /// The used front ends where the first unused entry stands, or with the
    /// list.
    proof fn lemma_used_prefix(self, blocks: Seq<u32>, n: int)
        requires
            0 <= n <= blocks.len(),
            forall|i: int| 0 <= i < n ==> self.used(#[trigger] blocks[i]),
            n < blocks.len() ==> !self.used(blocks[n]),
        ensures
            self.used_prefix(blocks) == n,
        decreases blocks.len(),
    {
        if blocks.len() > 0 {
            let head = blocks.drop_last();
            if n == blocks.len() {
                assert(blocks.last() == blocks[n - 1]);
                self.lemma_used_prefix(head, n - 1);
            } else {
                if n < head.len() {
                    assert(head[n] == blocks[n]);
                }
                self.lemma_used_prefix(head, n);
            }
        }
    }
}

} // verus!
