use core::ops::Range;
use vstd::prelude::*;
use vstd::string::*;

use crate::config::KcmmConfig;
use crate::kcmm::cpu_slots;
use crate::kcmm::cpu_slots::CpuSlotAllocator;
use crate::kcmm::policy::{Policy, PolicyKind};
use crate::kcmm::superblock::HALF_BYTES;
use crate::text::same_text;

verus! {

/// Batches smaller than this are moved block by block.
pub const MIN_BATCH_FOR_GATHER: usize = 4;

/// Bookkeeping of the migration of blocks between GPU and CPU memory: which
/// byte ranges of the CPU swap buffer are taken, and which blocks to evict
/// first.
#[derive(Debug)]
pub struct TieringEngine {
    /// Size of the CPU swap buffer in bytes.
    pub cpu_buffer_size: usize,
    /// Path to the file behind the swap buffer.
    pub cpu_buffer_path: String,
    /// Whether blocks may move on to NVMe.
    pub nvme_enabled: bool,
    /// Decides which blocks to evict first.
    pub eviction_policy: Policy,
    /// Byte ranges of the swap buffer that are free.
    pub slot_allocator: CpuSlotAllocator,
    /// Elements of the GPU staging buffer; `None` where blocks are never
    /// moved in batches.
    pub gpu_staging_elems: Option<usize>,
    /// Bytes of the CPU staging buffer: all layers of a full batch.
    pub cpu_staging_bytes: usize,
    /// Maximum number of blocks in one batch.
    pub max_batch_blocks: usize,
}

/// What the engine keeps track of.
#[verifier::ext_equal]
pub struct TieringView {
    pub kind: PolicyKind,
    pub scores: Map<u64, u64>,
    pub total_size: usize,
    pub slots: Seq<Range<usize>>,
    pub batching: bool,
    pub cpu_buffer_size: usize,
    pub cpu_buffer_path: Seq<char>,
    pub nvme_enabled: bool,
    pub gpu_staging_elems: Option<usize>,
    pub cpu_staging_bytes: usize,
    pub max_batch_blocks: usize,
}

impl View for TieringEngine {
    type V = TieringView;

    open spec fn view(&self) -> TieringView {
        TieringView {
            kind: self.eviction_policy.kind(),
            scores: self.eviction_policy.scores(),
            total_size: self.slot_allocator.total_size,
            slots: self.slot_allocator.free_ranges@,
            batching: self.gpu_staging_elems is Some,
            cpu_buffer_size: self.cpu_buffer_size,
            cpu_buffer_path: self.cpu_buffer_path@,
            nvme_enabled: self.nvme_enabled,
            gpu_staging_elems: self.gpu_staging_elems,
            cpu_staging_bytes: self.cpu_staging_bytes,
            max_batch_blocks: self.max_batch_blocks,
        }
    }
}

/// The policy that a configuration names; any other name means LRU.
pub open spec fn policy_named(name: Seq<char>) -> PolicyKind {
    if name == "lfu"@ {
        PolicyKind::Lfu
    } else if name == "fifo"@ {
        PolicyKind::Fifo
    } else {
        PolicyKind::Lru
    }
}

/// The policy that a configuration names; any other name means LRU.
pub fn policy_by_name(name: &str) -> (r: PolicyKind)
    ensures
        r == policy_named(name@),
{
    if same_text(name, "lfu") {
        PolicyKind::Lfu
    } else if same_text(name, "fifo") {
        PolicyKind::Fifo
    } else {
        PolicyKind::Lru
    }
}

/// Bytes that one block takes in the swap buffer: K and V of every layer.
pub open spec fn slot_bytes(num_layers: int, block_bytes: int) -> int {
    num_layers * 2 * block_bytes
}

impl TieringEngine {
    /// No free range ends before it starts.
    pub open spec fn wf(&self) -> bool {
        cpu_slots::ranges_ordered(self.slot_allocator.free_ranges@)
    }

    /// An engine whose swap buffer can hold every block of the pool.
    /// `has_device` says whether there is a GPU to stage batches on.
    pub fn new(
        config: &KcmmConfig,
        num_layers: usize,
        block_bytes: usize,
        has_device: bool,
    ) -> (r: Self)
        requires
            config.max_blocks * slot_bytes(num_layers as int, block_bytes as int) <= usize::MAX,
            config.max_batch_blocks * slot_bytes(num_layers as int, block_bytes as int)
                <= usize::MAX,
            config.max_batch_blocks * block_bytes <= usize::MAX,
            slot_bytes(num_layers as int, block_bytes as int) <= usize::MAX,
        ensures
            r.wf(),
            r.slot_allocator.wf(),
            r.cpu_buffer_size == config.max_blocks * slot_bytes(
                num_layers as int,
                block_bytes as int,
            ),
            r.cpu_buffer_path@ == config.cpu_cache_path@,
            !r.nvme_enabled,
            r.eviction_policy.kind() == policy_named(config.eviction_policy@),
            r.eviction_policy.scores() == Map::<u64, u64>::empty(),
            r.slot_allocator.total_size == r.cpu_buffer_size,
            forall|b: int|
                cpu_slots::covered(r.slot_allocator.free_ranges@, b) <==> 0 <= b
                    < r.cpu_buffer_size,
            r.gpu_staging_elems == if has_device && config.max_batch_blocks > 0 {
                Some((config.max_batch_blocks * (block_bytes / HALF_BYTES)) as usize)
            } else {
                None::<usize>
            },
            r.cpu_staging_bytes == config.max_batch_blocks * slot_bytes(
                num_layers as int,
                block_bytes as int,
            ),
            r.max_batch_blocks == config.max_batch_blocks,
    {
        proof {
            assert(num_layers * 2 * block_bytes >= num_layers * 2 || block_bytes == 0)
                by (nonlinear_arith);
        }
        let per_block_bytes: usize = if block_bytes == 0 {
            0
        } else {
            num_layers * 2 * block_bytes
        };
        proof {
            assert(block_bytes == 0 ==> num_layers * 2 * block_bytes == 0) by (nonlinear_arith);
            assert(num_layers == 0 ==> num_layers * 2 * block_bytes == 0) by (nonlinear_arith);
            assert(per_block_bytes == slot_bytes(num_layers as int, block_bytes as int));
            assert(per_block_bytes == 0 || config.max_batch_blocks == 0 ==> config.max_batch_blocks
                * per_block_bytes == 0) by (nonlinear_arith);
        }
        let cpu_buffer_size: usize = config.max_blocks * per_block_bytes;
        let kind: PolicyKind = policy_by_name(config.eviction_policy.as_str());
        let max_batch_blocks: usize = config.max_batch_blocks;
        let gpu_staging_elems: Option<usize> = if has_device && max_batch_blocks > 0 {
            let half_count: usize = block_bytes / HALF_BYTES;
            proof {
                assert(max_batch_blocks * half_count <= max_batch_blocks * block_bytes)
                    by (nonlinear_arith)
                    requires
                        half_count <= block_bytes,
                ;
            }
            Some(max_batch_blocks * half_count)
        } else {
            None
        };
        let cpu_staging_bytes: usize = if max_batch_blocks > 0 && num_layers > 0 {
            max_batch_blocks * per_block_bytes
        } else {
            0
        };
        TieringEngine {
            cpu_buffer_size,
            cpu_buffer_path: config.cpu_cache_path.clone(),
            nvme_enabled: false,
            eviction_policy: Policy::of_kind(kind),
            slot_allocator: CpuSlotAllocator::new(cpu_buffer_size),
            gpu_staging_elems,
            cpu_staging_bytes,
            max_batch_blocks,
        }
    }

    /// Size of the CPU swap buffer.
    pub fn cpu_buffer_size(&self) -> (r: usize)
        ensures
            r == self@.cpu_buffer_size,
    {
        self.cpu_buffer_size
    }

    /// Take `size` bytes of the swap buffer; `None` when it is exhausted.
    pub fn alloc_cpu_slot(&mut self, size: usize) -> (r: Option<usize>)
        requires
            old(self).wf(),
        ensures
            final(self).wf(),
            r == cpu_slots::allocated(old(self)@.slots, size).0,
            final(self)@ == (TieringView {
                slots: cpu_slots::allocated(old(self)@.slots, size).1,
                ..old(self)@
            }),
    {
        self.slot_allocator.allocate(size)
    }

    /// Give `size` bytes of the swap buffer back.
    pub fn free_cpu_slot(&mut self, offset: usize, size: usize)
        requires
            old(self).wf(),
            offset + size <= usize::MAX,
        ensures
            final(self).wf(),
            final(self)@ == (TieringView {
                slots: cpu_slots::freed(old(self)@.slots, offset, size),
                ..old(self)@
            }),
    {
        self.slot_allocator.free(offset, size)
    }
}

} // verus!
