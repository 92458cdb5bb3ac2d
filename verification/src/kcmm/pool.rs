use std::time::Instant;
use vstd::prelude::*;

use crate::config::KcmmConfig;
use crate::kcmm::cpu_slots;
use crate::kcmm::lockstep::LayerPools;
pub use crate::kcmm::pool_model::{BlockInfo, BlockLocation, SequencePriority};
use crate::kcmm::pool_model;
use crate::kcmm::pool_model::{PoolShape, PoolView, SequenceView};
use crate::kcmm::sharing::SharingManager;
use crate::kcmm::slot_laws;
use crate::kcmm::superblock;
use crate::kcmm::superblock::{
    align_up, BlockHandle, HALF_BYTES, INDEX_COUNT, SUPERBLOCK_SIZE,
};
use crate::kcmm::tiering;
use crate::kcmm::tiering::TieringEngine;

verus! {

/// A reading of the monotonic clock; nothing is known of its value.
#[verifier::external_type_specification]
#[verifier::external_body]
pub struct ExInstant(Instant);

/// `std::time::Instant::now`: reads the clock. Nothing is claimed of the
/// reading.
pub assume_specification[ Instant::now ]() -> Instant;

/// Per-sequence metadata.
#[derive(Debug)]
pub struct SequenceState {
    /// Logical block to block index.
    pub block_table: Vec<u32>,
    /// Current sequence length in tokens.
    pub seq_len: usize,
    /// Whether the sequence is being decoded.
    pub is_active: bool,
    /// Time of the most recent access.
    pub last_access: Instant,
    /// Number of prefix blocks shared with other sequences.
    pub shared_prefix_len: usize,
    /// How willingly the sequence gives up its blocks.
    pub priority: SequencePriority,
}

impl View for SequenceState {
    type V = SequenceView;

    open spec fn view(&self) -> SequenceView {
        SequenceView {
            block_table: self.block_table@,
            seq_len: self.seq_len,
            is_active: self.is_active,
            shared_prefix_len: self.shared_prefix_len,
            priority: self.priority,
        }
    }
}

impl SequenceState {
    /// An active sequence of no tokens over the given blocks.
    pub fn new(block_table: Vec<u32>) -> (r: Self)
        ensures
            r@ == (SequenceView {
                block_table: block_table@,
                seq_len: 0,
                is_active: true,
                shared_prefix_len: 0,
                priority: SequencePriority::Normal,
            }),
    {
        SequenceState {
            block_table,
            seq_len: 0,
            is_active: true,
            last_access: Instant::now(),
            shared_prefix_len: 0,
            priority: SequencePriority::Normal,
        }
    }
}

/// Why a pool operation was refused.
#[derive(Debug, Clone, Copy, PartialEq, Eq, Structural)]
pub enum PoolError {
    /// There is no such block index.
    BlockOutOfBounds(u32),
    /// The block index is not assigned to a sequence.
    BlockNotInUse(u32),
    /// No physical block is free and no superblock could be mapped.
    OutOfMemory,
    /// The pool was made without tiering.
    TieringDisabled,
    /// The block is on its way between GPU and CPU.
    InTransit(u32),
    /// The block is on NVMe, from where nothing is restored.
    NvmeResident(u32),
    /// The block does not reside in the slot that it was named with.
    NotSwapped(u32),
    /// There is no such superblock.
    SuperblockOutOfBounds(u32),
    /// There is no such layer.
    LayerOutOfBounds(usize),
    /// The position lies behind the blocks of the sequence.
    LogicalBlockMissing { logical_block: usize, allocated: usize, seq_idx: usize },
    /// There is no such sequence.
    SequenceOutOfBounds(usize),
    /// Copying the block's data failed.
    CopyFailed,
    /// The slot lies in a block index that is not in use.
    SlotNotInUse { block_idx: usize, slot: i64 },
}

/// Sizes derived from the model and the limits of the pool.
pub open spec fn pool_shape(
    block_size: usize,
    num_layers: usize,
    kv_heads: usize,
    head_dim: usize,
    max_batch: usize,
    max_seq_len: usize,
) -> PoolShape {
    let elem_per_block = kv_heads * block_size * head_dim;
    let max_blocks_per_seq = (max_seq_len + block_size - 1) / block_size as int;
    PoolShape {
        max_batch,
        max_seq_len,
        block_size,
        max_blocks_per_seq: max_blocks_per_seq as usize,
        num_layers,
        elem_per_block: elem_per_block as usize,
        block_bytes: (elem_per_block * HALF_BYTES) as usize,
        max_blocks_total: (max_batch * max_blocks_per_seq) as usize,
    }
}

/// The sizes of the pool can be computed and its blocks divide a superblock.
pub open spec fn pool_shape_ok(
    block_size: usize,
    num_layers: usize,
    kv_heads: usize,
    head_dim: usize,
    max_batch: usize,
    max_seq_len: usize,
) -> bool {
    let elem_per_block = kv_heads * block_size * head_dim;
    &&& block_size > 0
    &&& num_layers > 0
    &&& kv_heads * block_size <= usize::MAX
    &&& superblock::valid_block_bytes(elem_per_block * HALF_BYTES)
    &&& max_seq_len + block_size - 1 <= usize::MAX
    &&& max_batch * ((max_seq_len + block_size - 1) / block_size as int) <= usize::MAX
    &&& tiering::slot_bytes(num_layers as int, elem_per_block * HALF_BYTES) <= usize::MAX
}

/// Compute the sizes of a pool.
pub fn compute_shape(
    block_size: usize,
    num_layers: usize,
    kv_heads: usize,
    head_dim: usize,
    max_batch: usize,
    max_seq_len: usize,
) -> (r: PoolShape)
    requires
        pool_shape_ok(block_size, num_layers, kv_heads, head_dim, max_batch, max_seq_len),
    ensures
        r == pool_shape(block_size, num_layers, kv_heads, head_dim, max_batch, max_seq_len),
{
    let elem_per_block: usize = kv_heads * block_size * head_dim;
    let block_bytes: usize = elem_per_block * HALF_BYTES;
    let max_blocks_per_seq: usize = (max_seq_len + (block_size - 1)) / block_size;
    PoolShape {
        max_batch,
        max_seq_len,
        block_size,
        max_blocks_per_seq,
        num_layers,
        elem_per_block,
        block_bytes,
        max_blocks_total: max_batch * max_blocks_per_seq,
    }
}

impl PoolShape {
    /// Size of the address region to reserve for K and for V of each layer:
    /// the blocks of a full pool, rounded up to whole superblocks.
    pub fn va_region_size(&self) -> (r: usize)
        requires
            self.max_blocks_total * self.block_bytes + SUPERBLOCK_SIZE - 1 <= usize::MAX,
        ensures
            self.max_blocks_total * self.block_bytes <= r,
            r < self.max_blocks_total * self.block_bytes + SUPERBLOCK_SIZE,
            r as int % SUPERBLOCK_SIZE as int == 0,
    {
        proof {
            superblock::lemma_superblock_size_pow2();
        }
        align_up(self.max_blocks_total * self.block_bytes, SUPERBLOCK_SIZE)
    }
}

/// The KV cache memory pool: which block index is backed by which physical
/// block, or by which slot of the swap buffer, and which blocks each sequence
/// owns.
///
/// The pool only keeps the books. Mapping physical memory and copying data is
/// left to the caller, who reports what was mapped.
#[derive(Debug)]
pub struct KcmmPool {
    pub config: KcmmConfig,
    pub max_batch: usize,
    pub max_seq_len: usize,
    pub block_size: usize,
    pub max_blocks_per_seq: usize,
    /// K-cache address regions, one per layer.
    pub va_k: Vec<u64>,
    /// V-cache address regions, one per layer.
    pub va_v: Vec<u64>,
    /// Physical pools of all layers.
    pub pools: LayerPools,
    /// Block index to its description.
    pub block_info: Vec<BlockInfo>,
    /// Block indices to hand out again.
    pub free_block_indices: Vec<u32>,
    pub sequences: Vec<SequenceState>,
    /// `None` when tiering is disabled.
    pub tiering: Option<TieringEngine>,
    /// Prefix sharing; no pool shares prefixes yet.
    pub sharing: Option<SharingManager>,
    pub num_layers: usize,
    pub elem_per_block: usize,
    pub block_bytes: usize,
    pub max_blocks_total: usize,
}

impl View for KcmmPool {
    type V = PoolView;

    open spec fn view(&self) -> PoolView {
        PoolView {
            config: self.config,
            shape: PoolShape {
                max_batch: self.max_batch,
                max_seq_len: self.max_seq_len,
                block_size: self.block_size,
                max_blocks_per_seq: self.max_blocks_per_seq,
                num_layers: self.num_layers,
                elem_per_block: self.elem_per_block,
                block_bytes: self.block_bytes,
                max_blocks_total: self.max_blocks_total,
            },
            va_k: self.va_k@,
            va_v: self.va_v@,
            pools: self.pools@,
            blocks: self.block_info@,
            free_idx: self.free_block_indices@,
            sequences: self.sequences@.map_values(|s: SequenceState| s@),
            tiering: match self.tiering {
                Some(t) => Some(t@),
                None => None,
            },
        }
    }
}

impl KcmmPool {
    /// The pools of the layers agree, and the counts and tables fit together.
    pub open spec fn wf(&self) -> bool {
        self.pools.wf() && self.sharing is None && self@.wf()
    }

    /// Each grant backs one superblock of every pool, and the pool can number
    /// and address all of them.
    pub open spec fn grants_ok(&self, grants: Seq<Vec<u64>>) -> bool {
        &&& forall|i: int|
            0 <= i < grants.len() ==> (#[trigger] grants[i])@.len() == 2 * self@.pools.layers
        &&& superblock::superblocks_fit((self@.pools.backing.len() + grants.len()) as int)
    }

    /// A pool over the given address regions, with nothing in it.
    /// `has_device` says whether there is a GPU to stage batches on.
    pub fn new(
        config: KcmmConfig,
        model_num_layers: usize,
        model_kv_heads: usize,
        model_head_dim: usize,
        max_batch: usize,
        max_seq_len: usize,
        va_k: Vec<u64>,
        va_v: Vec<u64>,
        has_device: bool,
    ) -> (r: Self)
        requires
            pool_shape_ok(
                config.block_size,
                model_num_layers,
                model_kv_heads,
                model_head_dim,
                max_batch,
                max_seq_len,
            ),
            va_k@.len() == model_num_layers,
            va_v@.len() == model_num_layers,
            config.tiering ==> ({
                let slot = tiering::slot_bytes(
                    model_num_layers as int,
                    model_kv_heads * config.block_size * model_head_dim * HALF_BYTES,
                );
                &&& config.max_blocks * slot <= usize::MAX
                &&& config.max_batch_blocks * slot <= usize::MAX
            }),
        ensures
            r.wf(),
            r@.config == config,
            r@.shape == pool_shape(
                config.block_size,
                model_num_layers,
                model_kv_heads,
                model_head_dim,
                max_batch,
                max_seq_len,
            ),
            r@.va_k == va_k@,
            r@.va_v == va_v@,
            r@.pools.free == Seq::<BlockHandle>::empty(),
            r@.pools.backing == Seq::<Seq<u64>>::empty(),
            r@.blocks == Seq::<BlockInfo>::empty(),
            r@.free_idx == Seq::<u32>::empty(),
            r@.sequences == Seq::<SequenceView>::empty(),
            config.tiering <==> r@.tiering is Some,
            r@.tiering matches Some(t) ==> {
                &&& t.kind == tiering::policy_named(config.eviction_policy@)
                &&& t.scores == Map::<u64, u64>::empty()
                &&& t.cpu_buffer_size == config.max_blocks * r@.slot_bytes()
                &&& forall|b: int| cpu_slots::covered(t.slots, b) <==> 0 <= b < t.cpu_buffer_size
                &&& cpu_slots::ranges_separated(t.slots)
                &&& t.total_size == t.cpu_buffer_size
                &&& t.batching <==> has_device && config.max_batch_blocks > 0
            },
            config.tiering ==> r@.slots_settled(Map::empty()),
    {
        let shape: PoolShape = compute_shape(
            config.block_size,
            model_num_layers,
            model_kv_heads,
            model_head_dim,
            max_batch,
            max_seq_len,
        );
        let tiering: Option<TieringEngine> = if config.tiering {
            proof {
                assert(config.max_batch_blocks * shape.block_bytes <= config.max_batch_blocks
                    * tiering::slot_bytes(model_num_layers as int, shape.block_bytes as int))
                    by (nonlinear_arith)
                    requires
                        model_num_layers >= 1,
                        shape.block_bytes >= 0,
                        tiering::slot_bytes(model_num_layers as int, shape.block_bytes as int)
                            == model_num_layers * 2 * shape.block_bytes,
                ;
            }
            Some(TieringEngine::new(&config, model_num_layers, shape.block_bytes, has_device))
        } else {
            None
        };
        let pool: KcmmPool = KcmmPool {
            max_batch,
            max_seq_len,
            block_size: shape.block_size,
            max_blocks_per_seq: shape.max_blocks_per_seq,
            va_k,
            va_v,
            pools: LayerPools::new(model_num_layers, shape.block_bytes),
            block_info: Vec::new(),
            free_block_indices: Vec::new(),
            sequences: Vec::new(),
            tiering,
            sharing: None,
            num_layers: model_num_layers,
            elem_per_block: shape.elem_per_block,
            block_bytes: shape.block_bytes,
            max_blocks_total: shape.max_blocks_total,
            config,
        };
        proof {
            if config.tiering {
                slot_laws::law_new_pool_settled(pool@);
            }
        }
        pool
    }

    /// Take one physical block out of every layer's pools. Where no block is
    /// free and a grant is left, its superblock is added first. Returns the
    /// block with its byte offset, and how many grants have been used.
    pub fn alloc_one_block_internal(&mut self, grants: &Vec<Vec<u64>>, used: usize) -> (r: (
        Option<(usize, BlockHandle)>,
        usize,
    ))
        requires
            old(self).wf(),
            used <= grants@.len(),
            old(self).grants_ok(grants@.skip(used as int)),
        ensures
            final(self).wf(),
            final(self)@ == old(self)@.physical_taken(
                pool_model::grants_view(grants@),
                used as nat,
            ),
            r.0 is Some <==> old(self)@.next_physical(
                pool_model::grants_view(grants@),
                used as nat,
            ) is Some,
            r.0 matches Some((va_offset, h)) ==> {
                &&& old(self)@.next_physical(pool_model::grants_view(grants@), used as nat) == Some(
                    h,
                )
                &&& final(self)@.pools.valid(h)
                &&& va_offset == final(self)@.pools.offset(h)
            },
            r.1 == old(self)@.used_after(pool_model::grants_view(grants@), used as nat),
            used <= r.1 <= grants@.len(),
            final(self).grants_ok(grants@.skip(r.1 as int)),
            final(self)@.pools.backing.len() >= old(self)@.pools.backing.len(),
    {
        let ghost gs = pool_model::grants_view(grants@);
        let mut spent: usize = used;
        if self.pools.free_count() == 0 && used < grants.len() {
            proof {
                assert(grants@.skip(used as int)[0] == grants@[used as int]);
                assert(superblock::superblocks_fit(self@.pools.backing.len() as int + 1));
            }
            self.pools.add_superblock(&grants[used]);
            spent = used + 1;
            proof {
                pool_model::lemma_with_pools_wf(old(self)@, self.pools@);
                assert(gs[used as int] == grants@[used as int]@);
                assert(self@ =~= old(self)@.with_pools(old(self)@.refilled(gs, used as nat)));
                assert(grants@.skip(spent as int) =~= grants@.skip(used as int).skip(1));
            }
        }
        assert(self@ =~= old(self)@.with_pools(old(self)@.refilled(gs, used as nat)));
        let ghost mid = self@;
        let taken: Option<BlockHandle> = self.pools.take();
        proof {
            pool_model::lemma_with_pools_wf(mid, self.pools@);
            assert(self@ =~= old(self)@.physical_taken(gs, used as nat));
        }
        match taken {
            Some(h) => {
                proof {
                    assert(mid.pools.valid(mid.pools.free[mid.pools.free.len() - 1]));
                    self.pools.lemma_offset_fits(h);
                }
                let va_offset: usize = match self.pools.block_offset(h) {
                    Some(o) => o,
                    None => 0,
                };
                (Some((va_offset, h)), spent)
            },
            None => (None, spent),
        }
    }

    /// Give a physical block a block index: a recycled one where there is one.
    /// The eviction policy learns of the block.
    pub fn install_block(&mut self, va_offset: usize, handle: BlockHandle, now: u64) -> (idx: u32)
        requires
            old(self).wf(),
            old(self)@.pools.valid(handle),
            va_offset == old(self)@.pools.offset(handle),
            old(self)@.free_idx.len() > 0 || old(self)@.blocks.len() < INDEX_COUNT,
        ensures
            final(self).wf(),
            final(self)@ == old(self)@.installed(handle, now),
            idx == old(self)@.next_index(),
            idx < final(self)@.blocks.len(),
    {
        proof {
            pool_model::lemma_installed_wf(self@, handle, now);
        }
        let info: BlockInfo = BlockInfo {
            va_offset,
            superblock_idx: handle.superblock_idx,
            block_index_in_sb: handle.block_index,
            in_use: true,
            location: BlockLocation::GpuResident(handle, va_offset as u64),
        };
        let idx: u32 = match self.free_block_indices.pop() {
            Some(recycled) => {
                assert(old(self)@.free_idx[old(self)@.free_idx.len() - 1] == recycled);
                self.block_info.set(recycled as usize, info);
                recycled
            },
            None => {
                let new_idx: u32 = self.block_info.len() as u32;
                self.block_info.push(info);
                new_idx
            },
        };
        if let Some(t) = &mut self.tiering {
            t.eviction_policy.on_allocate(handle, now);
        }
        assert(self@ =~= old(self)@.installed(handle, now));
        idx
    }

    /// Allocate one block and return its index. `grants` holds the physical
    /// handles of superblocks that were mapped for this call, to be used when
    /// no block is free.
    pub fn alloc_block(&mut self, grants: &Vec<Vec<u64>>, now: u64) -> (r: Result<u32, PoolError>)
        requires
            old(self).wf(),
            old(self).grants_ok(grants@),
            old(self)@.free_idx.len() > 0 || old(self)@.blocks.len() < INDEX_COUNT,
        ensures
            final(self).wf(),
            final(self)@ == old(self)@.allocated(pool_model::grants_view(grants@), 0, now),
            r == match old(self)@.next_physical(pool_model::grants_view(grants@), 0) {
                Some(h) => Ok::<u32, PoolError>(old(self)@.next_index()),
                None => Err(PoolError::OutOfMemory),
            },
    {
        assert(grants@.skip(0) =~= grants@);
        match self.alloc_one_block_internal(grants, 0).0 {
            Some((va_offset, handle)) => Ok(self.install_block(va_offset, handle, now)),
            None => {
                proof {
                    let gs = pool_model::grants_view(grants@);
                    if gs.len() > 0 {
                        assert(old(self)@.pools.grown(gs[0]).free.len() > 0);
                    }
                    assert(self@ =~= old(self)@);
                }
                Err(PoolError::OutOfMemory)
            },
        }
    }

    /// Allocate `num_blocks` blocks for a new sequence and return their
    /// indices. Where they cannot all be had, the blocks allocated before the
    /// failure stay in use.
    pub fn alloc_sequence(
        &mut self,
        num_blocks: usize,
        grants: &Vec<Vec<u64>>,
        now: u64,
    ) -> (r: Result<Vec<u32>, PoolError>)
        requires
            old(self).wf(),
            old(self).grants_ok(grants@),
            old(self)@.blocks.len() + num_blocks <= INDEX_COUNT,
        ensures
            final(self).wf(),
            ({
                let (state, table, used) = old(self)@.allocated_many(
                    num_blocks as nat,
                    pool_model::grants_view(grants@),
                    now,
                );
                &&& final(self)@ == state
                &&& table.len() == num_blocks ==> r is Ok && r->Ok_0@ == table
                &&& table.len() != num_blocks ==> r == Err::<Vec<u32>, PoolError>(
                    PoolError::OutOfMemory,
                )
            }),
    {
        let ghost gs = pool_model::grants_view(grants@);
        let mut table: Vec<u32> = Vec::new();
        let mut used: usize = 0;
        assert(grants@.skip(0) =~= grants@);
        let mut i: usize = 0;
        while i < num_blocks
            invariant
                i <= num_blocks,
                gs == pool_model::grants_view(grants@),
                old(self)@.blocks.len() + num_blocks <= INDEX_COUNT,
                self.wf(),
                self@.blocks.len() <= old(self)@.blocks.len() + i,
                used <= grants@.len(),
                self.grants_ok(grants@.skip(used as int)),
                table@.len() == i,
                (self@, table@, used as nat) == old(self)@.allocated_many(i as nat, gs, now),
            decreases num_blocks - i,
        {
            let ghost before = self@;
            let ghost used0 = used as nat;
            let (taken, spent) = self.alloc_one_block_internal(grants, used);
            match taken {
                Some((va_offset, handle)) => {
                    let idx: u32 = self.install_block(va_offset, handle, now);
                    table.push(idx);
                    used = spent;
                },
                None => {
                    proof {
                        if used0 < gs.len() {
                            assert(before.pools.grown(gs[used0 as int]).free.len() > 0);
                        }
                        assert(self@ =~= before);
                        pool_model::lemma_allocated_many_stops(
                            old(self)@,
                            i as nat,
                            num_blocks as nat,
                            gs,
                            now,
                        );
                    }
                    return Err(PoolError::OutOfMemory);
                },
            }
            i = i + 1;
        }
        Ok(table)
    }

    /// Free one block. Blocks in GPU memory go back to the free list, slots of
    /// the swap buffer are released; blocks in transit stay in use.
    fn free_one(&mut self, block_idx: u32)
        requires
            old(self).wf(),
            block_idx < old(self)@.blocks.len(),
        ensures
            final(self).wf(),
            final(self)@ == old(self)@.freed_one(block_idx),
    {
        let info: BlockInfo = self.block_info[block_idx as usize];
        let ghost s0 = self@;
        assert(s0.block_ok(s0.blocks[block_idx as int]));
        if info.in_use {
            let dropped: BlockInfo = BlockInfo { in_use: false, ..info };
            match info.location {
                BlockLocation::GpuResident(handle, _) => {
                    self.block_info.set(block_idx as usize, dropped);
                    self.free_block_indices.push(block_idx);
                    self.pools.release(handle);
                },
                BlockLocation::CpuResident(offset) => {
                    self.block_info.set(block_idx as usize, dropped);
                    self.free_block_indices.push(block_idx);
                    proof {
                        assert(s0.shape.num_layers * 2 <= s0.slot_bytes()) by (nonlinear_arith)
                            requires
                                s0.slot_bytes() == s0.shape.num_layers * 2 * s0.shape.block_bytes,
                                s0.shape.block_bytes >= 1,
                        ;
                    }
                    let slot: usize = self.num_layers * 2 * self.block_bytes;
                    if let Some(t) = &mut self.tiering {
                        t.free_cpu_slot(offset, slot);
                    }
                },
                BlockLocation::NvmeResident(_) => {
                    self.block_info.set(block_idx as usize, dropped);
                    self.free_block_indices.push(block_idx);
                },
                BlockLocation::Evicting => {},
                BlockLocation::Restoring => {},
            }
        }
        proof {
            assert(self@ =~= s0.freed_one(block_idx));
            pool_model::lemma_freed_one_wf(s0, block_idx);
        }
    }

    /// Free all blocks of a table.
    pub fn free_sequence(&mut self, block_table: &Vec<u32>)
        requires
            old(self).wf(),
            old(self)@.table_ok(block_table@),
        ensures
            final(self).wf(),
            final(self)@ == old(self)@.freed_all(block_table@),
    {
        let mut i: usize = 0;
        while i < block_table.len()
            invariant
                i <= block_table@.len(),
                self.wf(),
                old(self)@.table_ok(block_table@),
                self@.blocks.len() == old(self)@.blocks.len(),
                self@ == old(self)@.freed_all(block_table@.take(i as int)),
            decreases block_table@.len() - i,
        {
            proof {
                let t = block_table@.take(i + 1);
                assert(t.drop_last() =~= block_table@.take(i as int));
                assert(t.last() == block_table@[i as int]);
            }
            self.free_one(block_table[i]);
            i = i + 1;
        }
        assert(block_table@.take(block_table@.len() as int) =~= block_table@);
    }

    /// Register a sequence over the given blocks and return its index.
    pub fn register_sequence(&mut self, block_table: Vec<u32>) -> (idx: usize)
        requires
            old(self).wf(),
        ensures
            final(self).wf(),
            idx == old(self)@.sequences.len(),
            final(self)@ == old(self)@.with_registered(block_table@),
    {
        let idx: usize = self.sequences.len();
        self.sequences.push(SequenceState::new(block_table));
        proof {
            assert(self@.sequences =~= old(self)@.sequences.push(
                self.sequences@[idx as int]@,
            ));
        }
        idx
    }

    /// Unregister a sequence and free its blocks. Its index stays taken.
    pub fn unregister_sequence(&mut self, seq_idx: usize)
        requires
            old(self).wf(),
            seq_idx < old(self)@.sequences.len() ==> old(self)@.table_ok(
                old(self)@.sequences[seq_idx as int].block_table,
            ),
        ensures
            final(self).wf(),
            final(self)@ == old(self)@.unregistered(seq_idx as int),
    {
        if seq_idx >= self.sequences.len() {
            return;
        }
        let mut table: Vec<u32> = Vec::new();
        let ghost s0 = self@;
        std::mem::swap(&mut self.sequences[seq_idx].block_table, &mut table);
        self.sequences[seq_idx].seq_len = 0;
        proof {
            assert(self@ =~= s0.with_sequence(
                seq_idx as int,
                SequenceView {
                    block_table: Seq::empty(),
                    seq_len: 0,
                    ..s0.sequences[seq_idx as int]
                },
            ));
        }
        if table.len() > 0 {
            self.free_sequence(&table);
        }
    }

    /// Superblocks that have to be mapped before `num_blocks` blocks can be
    /// allocated.
    pub fn superblocks_needed(&self, num_blocks: usize) -> (r: usize)
        requires
            self.wf(),
            num_blocks + self@.pools.blocks_per_superblock <= usize::MAX,
        ensures
            r == self@.superblocks_needed(num_blocks as nat),
    {
        let free: usize = self.pools.free_count();
        if num_blocks <= free {
            0
        } else {
            let bps: usize = self.pools.blocks_per_superblock();
            (num_blocks - free + (bps - 1)) / bps
        }
    }

    /// Mark a sequence as recently accessed; an unknown one is ignored.
    pub fn touch(&mut self, seq_idx: usize)
        requires
            old(self).wf(),
        ensures
            final(self).wf(),
            final(self)@ == old(self)@.with_active(seq_idx as int, true),
    {
        if seq_idx < self.sequences.len() {
            self.sequences[seq_idx].last_access = Instant::now();
            self.sequences[seq_idx].is_active = true;
            assert(self@.sequences =~= old(self)@.sequences.update(
                seq_idx as int,
                self.sequences@[seq_idx as int]@,
            ));
        }
    }

    /// Mark a sequence as eligible for eviction; an unknown one is ignored.
    pub fn cool(&mut self, seq_idx: usize)
        requires
            old(self).wf(),
        ensures
            final(self).wf(),
            final(self)@ == old(self)@.with_active(seq_idx as int, false),
    {
        if seq_idx < self.sequences.len() {
            self.sequences[seq_idx].is_active = false;
            assert(self@.sequences =~= old(self)@.sequences.update(
                seq_idx as int,
                self.sequences@[seq_idx as int]@,
            ));
        }
    }

    /// Set a sequence's priority; an unknown one is ignored.
    pub fn set_sequence_priority(&mut self, seq_idx: usize, priority: SequencePriority)
        requires
            old(self).wf(),
        ensures
            final(self).wf(),
            final(self)@ == old(self)@.with_priority(seq_idx as int, priority),
    {
        if seq_idx < self.sequences.len() {
            self.sequences[seq_idx].priority = priority;
            assert(self@.sequences =~= old(self)@.sequences.update(
                seq_idx as int,
                self.sequences@[seq_idx as int]@,
            ));
        }
    }

    /// A sequence's priority; normal for an unknown one.
    pub fn sequence_priority(&self, seq_idx: usize) -> (r: SequencePriority)
        ensures
            r == if seq_idx < self@.sequences.len() {
                self@.sequences[seq_idx as int].priority
            } else {
                SequencePriority::Normal
            },
    {
        if seq_idx < self.sequences.len() {
            self.sequences[seq_idx].priority
        } else {
            SequencePriority::Normal
        }
    }

    /// Set a sequence's length; an unknown one is ignored.
    pub fn update_seq_len(&mut self, seq_idx: usize, len: usize)
        requires
            old(self).wf(),
        ensures
            final(self).wf(),
            final(self)@ == old(self)@.with_seq_len(seq_idx as int, len),
    {
        if seq_idx < self.sequences.len() {
            self.sequences[seq_idx].seq_len = len;
            assert(self@.sequences =~= old(self)@.sequences.update(
                seq_idx as int,
                self.sequences@[seq_idx as int]@,
            ));
        }
    }

    /// Append a block to a sequence's table; an unknown sequence is ignored.
    pub fn append_block_to_sequence(&mut self, seq_idx: usize, block_idx: u32)
        requires
            old(self).wf(),
        ensures
            final(self).wf(),
            final(self)@ == old(self)@.with_appended(seq_idx as int, block_idx),
    {
        if seq_idx < self.sequences.len() {
            self.sequences[seq_idx].block_table.push(block_idx);
            assert(self@.sequences =~= old(self)@.sequences.update(
                seq_idx as int,
                self.sequences@[seq_idx as int]@,
            ));
        }
    }

    /// A sequence's block table.
    pub fn get_block_table(&self, seq_idx: usize) -> (r: Option<Vec<u32>>)
        ensures
            r is Some <==> seq_idx < self@.sequences.len(),
            r matches Some(t) ==> t@ == self@.sequences[seq_idx as int].block_table,
    {
        if seq_idx < self.sequences.len() {
            let table: &Vec<u32> = &self.sequences[seq_idx].block_table;
            let mut out: Vec<u32> = Vec::new();
            let mut i: usize = 0;
            while i < table.len()
                invariant
                    i <= table@.len(),
                    out@ == table@.take(i as int),
                decreases table@.len() - i,
            {
                out.push(table[i]);
                i = i + 1;
            }
            assert(out@ =~= table@);
            Some(out)
        } else {
            None
        }
    }

    /// A sequence's length; zero for an unknown one.
    pub fn get_seq_len(&self, seq_idx: usize) -> (r: usize)
        ensures
            r == if seq_idx < self@.sequences.len() {
                self@.sequences[seq_idx as int].seq_len
            } else {
                0
            },
    {
        if seq_idx < self.sequences.len() {
            self.sequences[seq_idx].seq_len
        } else {
            0
        }
    }

    /// Number of registered sequences.
    pub fn active_sequences(&self) -> (r: usize)
        ensures
            r == self@.sequences.len(),
    {
        self.sequences.len()
    }

    /// Whether a sequence is being decoded.
    pub fn is_active(&self, seq_idx: usize) -> (r: bool)
        ensures
            r == (seq_idx < self@.sequences.len() && self@.sequences[seq_idx as int].is_active),
    {
        seq_idx < self.sequences.len() && self.sequences[seq_idx].is_active
    }

    /// Byte offset of a block, if it is in use.
    pub fn get_block_va_offset(&self, block_idx: u32) -> (r: Option<usize>)
        ensures
            r == if self@.used(block_idx) {
                Some(self@.blocks[block_idx as int].va_offset)
            } else {
                None::<usize>
            },
    {
        let i: usize = block_idx as usize;
        if i < self.block_info.len() && self.block_info[i].in_use {
            Some(self.block_info[i].va_offset)
        } else {
            None
        }
    }

    /// Byte offsets of a sequence's blocks; `None` for an unknown sequence
    /// and when one of its blocks is not in use.
    pub fn get_block_va_offsets(&self, seq_idx: usize) -> (r: Option<Vec<usize>>)
        ensures
            r is Some <==> seq_idx < self@.sequences.len() && forall|k: int|
                0 <= k < self@.sequences[seq_idx as int].block_table.len() ==> self@.used(
                    #[trigger] self@.sequences[seq_idx as int].block_table[k],
                ),
            r matches Some(v) ==> {
                let table = self@.sequences[seq_idx as int].block_table;
                &&& v@.len() == table.len()
                &&& forall|k: int|
                    0 <= k < table.len() ==> #[trigger] v@[k]
                        == self@.blocks[table[k] as int].va_offset
            },
    {
        if seq_idx >= self.sequences.len() {
            return None;
        }
        let table: &Vec<u32> = &self.sequences[seq_idx].block_table;
        let ghost view = self@.sequences[seq_idx as int].block_table;
        assert(view == table@);
        let mut out: Vec<usize> = Vec::new();
        let mut i: usize = 0;
        while i < table.len()
            invariant
                i <= table@.len(),
                view == table@,
                seq_idx < self@.sequences.len(),
                view == self@.sequences[seq_idx as int].block_table,
                out@.len() == i,
                forall|k: int|
                    0 <= k < i ==> self@.used(#[trigger] view[k]) && out@[k]
                        == self@.blocks[view[k] as int].va_offset,
            decreases table@.len() - i,
        {
            match self.get_block_va_offset(table[i]) {
                Some(o) => {
                    out.push(o);
                },
                None => {
                    assert(!self@.used(view[i as int]));
                    return None;
                },
            }
            i = i + 1;
        }
        Some(out)
    }

    /// For each block index its offset in half-precision elements; zero for
    /// those not in use.
    pub fn get_all_block_offsets_f16(&self) -> (r: Vec<u64>)
        ensures
            r@.len() == self@.blocks.len(),
            forall|i: int|
                0 <= i < r@.len() ==> #[trigger] r@[i] == if self@.blocks[i].in_use {
                    self@.blocks[i].va_offset as int / HALF_BYTES as int
                } else {
                    0
                },
    {
        let mut out: Vec<u64> = Vec::new();
        let mut i: usize = 0;
        while i < self.block_info.len()
            invariant
                i <= self.block_info@.len(),
                out@.len() == i,
                forall|k: int|
                    0 <= k < i ==> #[trigger] out@[k] == if self.block_info@[k].in_use {
                        self.block_info@[k].va_offset as int / HALF_BYTES as int
                    } else {
                        0
                    },
            decreases self.block_info@.len() - i,
        {
            let off: u64 = if self.block_info[i].in_use {
                (self.block_info[i].va_offset / HALF_BYTES) as u64
            } else {
                0
            };
            out.push(off);
            i = i + 1;
        }
        out
    }

    /// Where a block resides, if it is in use.
    pub fn get_block_location(&self, block_idx: u32) -> (r: Option<BlockLocation>)
        ensures
            r == self@.location_of(block_idx),
    {
        let i: usize = block_idx as usize;
        if i < self.block_info.len() && self.block_info[i].in_use {
            Some(self.block_info[i].location)
        } else {
            None
        }
    }

    /// The physical block that a block index in use was last backed by.
    pub fn get_block_handle(&self, block_idx: u32) -> (r: Option<BlockHandle>)
        ensures
            r == if self@.used(block_idx) {
                Some(self@.blocks[block_idx as int].handle())
            } else {
                None::<BlockHandle>
            },
    {
        let i: usize = block_idx as usize;
        if i < self.block_info.len() && self.block_info[i].in_use {
            Some(self.block_info[i].handle())
        } else {
            None
        }
    }

    /// The block that a physical block stands for: the one that resides in it,
    /// or else the first in use that was last backed by it.
    pub fn find_block_idx(&self, handle: BlockHandle) -> (r: Option<u32>)
        requires
            self.wf(),
        ensures
            r is Some <==> self@.has_handle(handle),
            r matches Some(i) ==> i == self@.index_of(handle) && self@.is_index_of(
                handle,
                i as int,
            ),
    {
        let mut last: Option<u32> = None;
        let mut i: usize = 0;
        while i < self.block_info.len()
            invariant
                self.wf(),
                i <= self.block_info@.len(),
                forall|j: int| 0 <= j < i ==> !self@.resides_at(handle, j),
                match last {
                    Some(k) => k < i && self@.backed_by(handle, k as int) && forall|j: int|
                        0 <= j < k ==> !self@.backed_by(handle, j),
                    None => forall|j: int| 0 <= j < i ==> !self@.backed_by(handle, j),
                },
            decreases self.block_info@.len() - i,
        {
            let info: BlockInfo = self.block_info[i];
            if info.in_use {
                if let BlockLocation::GpuResident(h, _) = info.location {
                    if h == handle {
                        proof {
                            assert(self@.resides_at(handle, i as int));
                            assert(self@.is_index_of(handle, i as int));
                            pool_model::lemma_index_unique(self@, handle, i as int);
                        }
                        return Some(i as u32);
                    }
                }
                if last.is_none() && info.handle() == handle {
                    last = Some(i as u32);
                }
            }
            i = i + 1;
        }
        proof {
            if let Some(k) = last {
                assert(self@.is_index_of(handle, k as int));
                pool_model::lemma_index_unique(self@, handle, k as int);
            } else if self@.has_handle(handle) {
                let k = self@.index_of(handle);
                assert(self@.is_index_of(handle, k));
                assert(self@.resides_at(handle, k) || self@.backed_by(handle, k));
            }
        }
        last
    }

    /// Whether a block index can be changed, and the error if not.
    fn check_used(&self, block_idx: u32) -> (r: Result<(), PoolError>)
        ensures
            r == self@.use_error(block_idx),
    {
        let i: usize = block_idx as usize;
        if i >= self.block_info.len() {
            Err(PoolError::BlockOutOfBounds(block_idx))
        } else if !self.block_info[i].in_use {
            Err(PoolError::BlockNotInUse(block_idx))
        } else {
            Ok(())
        }
    }

    /// Record where a block resides.
    pub fn set_block_location(&mut self, block_idx: u32, location: BlockLocation) -> (r: Result<
        (),
        PoolError,
    >)
        requires
            old(self).wf(),
            old(self)@.location_ok(location),
        ensures
            final(self).wf(),
            r == old(self)@.use_error(block_idx),
            final(self)@ == if old(self)@.used(block_idx) {
                old(self)@.located(block_idx as int, location)
            } else {
                old(self)@
            },
    {
        match self.check_used(block_idx) {
            Err(e) => Err(e),
            Ok(()) => {
                let ghost s0 = self@;
                let info: BlockInfo = self.block_info[block_idx as usize];
                self.block_info.set(block_idx as usize, BlockInfo { location, ..info });
                proof {
                    assert(s0.block_ok(s0.blocks[block_idx as int]));
                    pool_model::lemma_with_block_wf(
                        s0,
                        block_idx as int,
                        BlockInfo { location, ..info },
                    );
                    assert(self@ =~= s0.located(block_idx as int, location));
                }
                Ok(())
            },
        }
    }

    /// Record which physical block backs a block index.
    pub fn update_block_physical(
        &mut self,
        block_idx: u32,
        va_offset: usize,
        handle: BlockHandle,
    ) -> (r: Result<(), PoolError>)
        requires
            old(self).wf(),
            old(self)@.pools.valid(handle),
            va_offset == old(self)@.pools.offset(handle),
        ensures
            final(self).wf(),
            r == old(self)@.use_error(block_idx),
            final(self)@ == if old(self)@.used(block_idx) {
                old(self)@.backed(block_idx as int, handle)
            } else {
                old(self)@
            },
    {
        match self.check_used(block_idx) {
            Err(e) => Err(e),
            Ok(()) => {
                let ghost s0 = self@;
                let info: BlockInfo = self.block_info[block_idx as usize];
                let backed: BlockInfo = BlockInfo {
                    va_offset,
                    superblock_idx: handle.superblock_idx,
                    block_index_in_sb: handle.block_index,
                    ..info
                };
                self.block_info.set(block_idx as usize, backed);
                proof {
                    assert(s0.block_ok(s0.blocks[block_idx as int]));
                    pool_model::lemma_with_block_wf(s0, block_idx as int, backed);
                    assert(self@ =~= s0.backed(block_idx as int, handle));
                }
                Ok(())
            },
        }
    }

    /// Byte offset of a physical block within each region.
    pub fn block_va_offset(&self, handle: BlockHandle) -> (r: Result<usize, PoolError>)
        requires
            self.wf(),
            handle.superblock_idx < self@.pools.backing.len() ==> self@.pools.offset(handle)
                <= usize::MAX,
        ensures
            r == if handle.superblock_idx < self@.pools.backing.len() {
                Ok::<usize, PoolError>(self@.pools.offset(handle) as usize)
            } else {
                Err(PoolError::SuperblockOutOfBounds(handle.superblock_idx))
            },
    {
        match self.pools.block_offset(handle) {
            Some(o) => Ok(o),
            None => Err(PoolError::SuperblockOutOfBounds(handle.superblock_idx)),
        }
    }

    /// GPU address of a physical block in a layer's K or V cache.
    pub fn gpu_va_for_block(&self, handle: BlockHandle, layer: usize, is_v: bool) -> (r: Result<
        u64,
        PoolError,
    >)
        requires
            self.wf(),
            handle.superblock_idx < self@.pools.backing.len() ==> self@.pools.offset(handle)
                <= usize::MAX,
            handle.superblock_idx < self@.pools.backing.len() && layer < self@.shape.num_layers
                ==> self@.region(layer as int, is_v) + self@.pools.offset(handle) <= u64::MAX,
        ensures
            r == if handle.superblock_idx >= self@.pools.backing.len() {
                Err::<u64, PoolError>(PoolError::SuperblockOutOfBounds(handle.superblock_idx))
            } else if layer >= self@.shape.num_layers {
                Err(PoolError::LayerOutOfBounds(layer))
            } else {
                Ok((self@.region(layer as int, is_v) + self@.pools.offset(handle)) as u64)
            },
    {
        match self.block_va_offset(handle) {
            Err(e) => Err(e),
            Ok(off) => {
                proof {
                    assert(0 <= handle.block_index * self@.pools.block_bytes) by (nonlinear_arith)
                        requires
                            self@.pools.block_bytes >= 0,
                            handle.block_index >= 0,
                    ;
                }
                if is_v {
                    if layer < self.va_v.len() {
                        Ok(self.va_v[layer] + off as u64)
                    } else {
                        Err(PoolError::LayerOutOfBounds(layer))
                    }
                } else {
                    if layer < self.va_k.len() {
                        Ok(self.va_k[layer] + off as u64)
                    } else {
                        Err(PoolError::LayerOutOfBounds(layer))
                    }
                }
            },
        }
    }

    /// Put the physical block behind a block index back into the free lists.
    /// The block index stays in use.
    pub fn release_block_physical(&mut self, block_idx: u32) -> (r: Result<(), PoolError>)
        requires
            old(self).wf(),
        ensures
            final(self).wf(),
            r == old(self)@.use_error(block_idx),
            final(self)@ == if old(self)@.used(block_idx) {
                old(self)@.released(block_idx as int)
            } else {
                old(self)@
            },
    {
        match self.check_used(block_idx) {
            Err(e) => Err(e),
            Ok(()) => {
                let ghost s0 = self@;
                let handle: BlockHandle = self.block_info[block_idx as usize].handle();
                proof {
                    assert(s0.block_ok(s0.blocks[block_idx as int]));
                }
                self.pools.release(handle);
                proof {
                    pool_model::lemma_with_pools_wf(s0, self.pools@);
                    assert(self@ =~= s0.released(block_idx as int));
                }
                Ok(())
            },
        }
    }

    /// Base address of a layer's K cache.
    pub fn va_k(&self, layer: usize) -> (r: u64)
        requires
            layer < self@.va_k.len(),
        ensures
            r == self@.va_k[layer as int],
    {
        self.va_k[layer]
    }

    /// Base address of a layer's V cache.
    pub fn va_v(&self, layer: usize) -> (r: u64)
        requires
            layer < self@.va_v.len(),
        ensures
            r == self@.va_v[layer as int],
    {
        self.va_v[layer]
    }

    /// The blocks of a sequence that reside in GPU memory; none for an
    /// unknown sequence.
    pub fn sequence_gpu_handles(&self, seq_idx: usize) -> (r: Vec<(u32, BlockHandle)>)
        ensures
            r@ == if seq_idx < self@.sequences.len() {
                self@.gpu_blocks(self@.sequences[seq_idx as int].block_table)
            } else {
                Seq::<(u32, BlockHandle)>::empty()
            },
    {
        let mut out: Vec<(u32, BlockHandle)> = Vec::new();
        if seq_idx < self.sequences.len() {
            let table: &Vec<u32> = &self.sequences[seq_idx].block_table;
            let mut i: usize = 0;
            while i < table.len()
                invariant
                    i <= table@.len(),
                    out@ == self@.gpu_blocks(table@.take(i as int)),
                decreases table@.len() - i,
            {
                let idx: u32 = table[i];
                proof {
                    let t = table@.take(i + 1);
                    assert(t.drop_last() =~= table@.take(i as int));
                    assert(t.last() == idx);
                }
                if let Some(BlockLocation::GpuResident(h, _)) = self.get_block_location(idx) {
                    out.push((idx, h));
                }
                i = i + 1;
            }
            assert(table@.take(table@.len() as int) =~= table@);
        }
        out
    }

    /// Number of blocks in use.
    pub fn blocks_in_use(&self) -> (r: usize)
        ensures
            r == self@.used_count(self@.blocks.len()),
    {
        let mut n: usize = 0;
        let mut i: usize = 0;
        while i < self.block_info.len()
            invariant
                i <= self.block_info@.len(),
                n <= i,
                n == self@.used_count(i as nat),
            decreases self.block_info@.len() - i,
        {
            if self.block_info[i].in_use {
                n = n + 1;
            }
            i = i + 1;
        }
        n
    }

    /// Number of block indices.
    pub fn total_blocks(&self) -> (r: usize)
        ensures
            r == self@.blocks.len(),
    {
        self.block_info.len()
    }

    /// Number of physical blocks, free or taken.
    pub fn total_physical_blocks(&self) -> (r: usize)
        requires
            self.wf(),
        ensures
            r == self@.pools.backing.len() * self@.pools.blocks_per_superblock,
    {
        self.pools.total_blocks()
    }

    /// Number of free physical blocks.
    pub fn free_physical_blocks(&self) -> (r: usize)
        requires
            self.wf(),
        ensures
            r == self@.pools.free.len(),
    {
        self.pools.free_count()
    }

    /// Blocks in one superblock.
    pub fn blocks_per_superblock(&self) -> (r: usize)
        requires
            self.wf(),
        ensures
            r == self@.pools.blocks_per_superblock,
    {
        self.pools.blocks_per_superblock()
    }

    /// Number of superblock positions.
    pub fn superblock_count(&self) -> (r: usize)
        requires
            self.wf(),
        ensures
            r == self@.pools.backing.len(),
    {
        self.pools.superblock_count()
    }

    /// Whether a physical block is free.
    pub fn has_free_blocks(&self) -> (r: bool)
        requires
            self.wf(),
        ensures
            r == (self@.pools.free.len() > 0),
    {
        self.pools.free_count() > 0
    }

    /// Tokens per block.
    pub fn block_size(&self) -> (r: usize)
        ensures
            r == self@.shape.block_size,
    {
        self.block_size
    }

    /// Maximum number of blocks of a sequence.
    pub fn max_blocks_per_seq(&self) -> (r: usize)
        ensures
            r == self@.shape.max_blocks_per_seq,
    {
        self.max_blocks_per_seq
    }

    /// Bytes per block.
    pub fn block_bytes(&self) -> (r: usize)
        ensures
            r == self@.shape.block_bytes,
    {
        self.block_bytes
    }

    /// Number of layers.
    pub fn num_layers(&self) -> (r: usize)
        ensures
            r == self@.shape.num_layers,
    {
        self.num_layers
    }
}

impl PoolView {
    /// Whether block index `i` can be changed, and the error if not.
    pub open spec fn use_error(self, i: u32) -> Result<(), PoolError> {
        if i >= self.blocks.len() {
            Err(PoolError::BlockOutOfBounds(i))
        } else if !self.blocks[i as int].in_use {
            Err(PoolError::BlockNotInUse(i))
        } else {
            Ok(())
        }
    }

    /// The pool with block `i` backed by `h`.
    pub open spec fn backed(self, i: int, h: BlockHandle) -> Self {
        self.with_block(
            i,
            BlockInfo {
                va_offset: self.pools.offset(h) as usize,
                superblock_idx: h.superblock_idx,
                block_index_in_sb: h.block_index,
                ..self.blocks[i]
            },
        )
    }

    /// The pool with the physical block behind index `i` free again.
    pub open spec fn released(self, i: int) -> Self {
        self.with_pools(self.pools.with_free(self.pools.free.push(self.blocks[i].handle())))
    }

    /// Base address of a layer's K or V region.
    pub open spec fn region(self, layer: int, is_v: bool) -> u64 {
        if is_v {
            self.va_v[layer]
        } else {
            self.va_k[layer]
        }
    }
}

} // verus!
