use vstd::prelude::*;

use crate::cache::unified_frag;
use crate::cache::unified_frag::FragCounts;
use crate::config::{KcmmConfig, ModelConfig};
use crate::kcmm::pool;
use crate::kcmm::pool::{BlockLocation, KcmmPool, PoolError};
use crate::kcmm::pool_model;
use crate::kcmm::pool_model::PoolView;
use crate::kcmm::superblock;
pub use crate::kcmm::superblock::{
    align_up, BlockHandle, LayerKvPool, PhysicalBlockAllocator, SuperblockInfo,
};
use crate::kcmm::superblock::{HALF_BYTES, INDEX_COUNT};
use crate::kv_write::KvPlan;

verus! {

/// Tokens per block.
pub const BLOCK_SIZE: usize = 16;

/// Bytes per block of a model with four K/V heads of 64 elements.
pub const BLOCK_BYTES: usize = 8192;

/// Per-request metadata for cache lookups.
#[derive(Debug)]
pub struct SeqMetadata {
    /// Logical block to block index.
    pub block_table: Vec<u32>,
    pub seq_len: usize,
}

/// Counts that describe a cache.
#[derive(Debug, Clone, Copy, PartialEq, Eq, Structural)]
pub struct CacheStats {
    pub active_sequences: usize,
    pub total_blocks_allocated: usize,
    pub blocks_in_use: usize,
    pub free_blocks_in_pool: usize,
    pub blocks_per_superblock: usize,
    pub superblocks_allocated: usize,
    pub block_bytes: usize,
    pub total_tokens_stored: usize,
    /// Tokens that the sequences' blocks can hold.
    pub total_slots: usize,
    /// Slots that hold no token.
    pub wasted_slots: usize,
    /// Bytes of all mapped superblocks.
    pub physical_memory_bytes: usize,
}

/// Every block in use resides in GPU memory, where its description says.
pub open spec fn all_resident(s: PoolView) -> bool {
    forall|i: int|
        0 <= i < s.blocks.len() && (#[trigger] s.blocks[i]).in_use ==> s.blocks[i].location
            == BlockLocation::GpuResident(
            s.blocks[i].handle(),
            s.pools.offset(s.blocks[i].handle()) as u64,
        )
}

/// Paged KV cache of a model: a pool whose blocks never leave GPU memory.
#[derive(Debug)]
pub struct PagedKvCache {
    pub cfg: ModelConfig,
    pub pool: KcmmPool,
}

impl View for PagedKvCache {
    type V = PoolView;

    open spec fn view(&self) -> PoolView {
        self.pool@
    }
}

/// Allocation puts blocks into GPU memory.
proof fn lemma_allocated_resident(s: PoolView, grants: Seq<Seq<u64>>, used: nat, now: u64)
    requires
        s.wf(),
        s.tiering is None,
        all_resident(s),
    ensures
        s.allocated(grants, used, now).tiering is None,
        all_resident(s.allocated(grants, used, now)),
{
    let t = s.allocated(grants, used, now);
    assert forall|i: int|
        0 <= i < t.blocks.len() && (#[trigger] t.blocks[i]).in_use implies t.blocks[i].location
        == BlockLocation::GpuResident(
        t.blocks[i].handle(),
        t.pools.offset(t.blocks[i].handle()) as u64,
    ) by {
        if i < s.blocks.len() && t.blocks[i] == s.blocks[i] {
            assert(s.blocks[i].in_use);
        }
    }
}

/// A run of allocations puts blocks into GPU memory.
proof fn lemma_allocated_many_resident(s: PoolView, n: nat, grants: Seq<Seq<u64>>, now: u64)
    requires
        s.wf(),
        s.tiering is None,
        all_resident(s),
        s.blocks.len() + n <= INDEX_COUNT,
        superblock::superblocks_fit((s.pools.backing.len() + grants.len()) as int),
        s.pools.free_valid(),
    ensures
        ({
            let (t, table, used) = s.allocated_many(n, grants, now);
            &&& t.wf()
            &&& t.tiering is None
            &&& t.shape == s.shape
            &&& all_resident(t)
            &&& t.blocks.len() <= s.blocks.len() + n
            &&& t.pools.backing.len() == s.pools.backing.len() + used
            &&& used <= grants.len()
            &&& t.pools.free_valid()
        }),
    decreases n,
{
    if n > 0 {
        lemma_allocated_many_resident(s, (n - 1) as nat, grants, now);
        let (t, table, used) = s.allocated_many((n - 1) as nat, grants, now);
        if table.len() == n - 1 && t.next_physical(grants, used) is Some {
            let h = t.next_physical(grants, used)->0;
            lemma_allocated_resident(t, grants, used, now);
            let grown = t.refilled(grants, used);
            assert forall|k: int| 0 <= k < grown.free.len() implies #[trigger] grown.valid(
                grown.free[k],
            ) by {
                if k < t.pools.free.len() {
                    assert(t.pools.valid(t.pools.free[k]));
                }
            }
            let taken = t.physical_taken(grants, used);
            pool_model::lemma_with_pools_wf(t, taken.pools);
            assert(t.with_pools(taken.pools) =~= taken);
            assert(grown.valid(grown.free[grown.free.len() - 1]));
            pool_model::lemma_installed_wf(taken, h, now);
            assert forall|k: int| 0 <= k < taken.pools.free.len() implies #[trigger] taken.pools.valid(
                taken.pools.free[k],
            ) by {
                assert(grown.valid(grown.free[k]));
            }
        }
    }
}

/// Freeing blocks leaves the others in GPU memory.
proof fn lemma_freed_all_resident(s: PoolView, table: Seq<u32>)
    requires
        s.tiering is None,
        all_resident(s),
        s.table_ok(table),
    ensures
        s.freed_all(table).tiering is None,
        s.freed_all(table).shape == s.shape,
        all_resident(s.freed_all(table)),
        s.freed_all(table).blocks.len() == s.blocks.len(),
    decreases table.len(),
{
    if table.len() > 0 {
        let rest = table.drop_last();
        assert(s.table_ok(rest));
        lemma_freed_all_resident(s, rest);
        let t = s.freed_all(rest);
        let i = table.last();
        assert(table[table.len() - 1] < s.blocks.len());
        let u = t.freed_one(i);
        assert forall|j: int|
            0 <= j < u.blocks.len() && (#[trigger] u.blocks[j]).in_use implies u.blocks[j].location
            == BlockLocation::GpuResident(
            u.blocks[j].handle(),
            u.pools.offset(u.blocks[j].handle()) as u64,
        ) by {
            assert(t.blocks[j].in_use);
        }
    }
}

impl PagedKvCache {
    pub open spec fn wf(&self) -> bool {
        &&& self.pool.wf()
        &&& self@.tiering is None
        &&& all_resident(self@)
        &&& self.cfg.num_attention_heads > 0
        &&& self@.shape.elem_per_block == self.cfg.kv_heads() * self@.shape.block_size
            * self.cfg.head_dim()
    }

    /// A cache over the given address regions, with nothing in it.
    pub fn new(
        cfg: ModelConfig,
        max_batch: usize,
        max_seq_len: usize,
        block_size: usize,
        va_k: Vec<u64>,
        va_v: Vec<u64>,
    ) -> (r: Self)
        requires
            cfg.num_attention_heads > 0,
            pool::pool_shape_ok(
                block_size,
                cfg.num_hidden_layers,
                cfg.kv_heads(),
                cfg.head_dim(),
                max_batch,
                max_seq_len,
            ),
            va_k@.len() == cfg.num_hidden_layers,
            va_v@.len() == cfg.num_hidden_layers,
        ensures
            r.wf(),
            r.cfg == cfg,
            r@.shape == pool::pool_shape(
                block_size,
                cfg.num_hidden_layers,
                cfg.kv_heads(),
                cfg.head_dim(),
                max_batch,
                max_seq_len,
            ),
            r@.va_k == va_k@,
            r@.va_v == va_v@,
            r@.pools.free.len() == 0,
            r@.pools.backing.len() == 0,
            r@.blocks.len() == 0,
            r@.free_idx.len() == 0,
            r@.sequences.len() == 0,
    {
        let mut config: KcmmConfig = KcmmConfig::default();
        config.block_size = block_size;
        config.tiering = false;
        let pool: KcmmPool = KcmmPool::new(
            config,
            cfg.num_hidden_layers,
            cfg.kv_heads(),
            cfg.head_dim(),
            max_batch,
            max_seq_len,
            va_k,
            va_v,
            false,
        );
        PagedKvCache { cfg, pool }
    }

    /// Superblocks that have to be mapped before `num_blocks` blocks can be
    /// allocated.
    pub fn superblocks_needed(&self, num_blocks: usize) -> (r: usize)
        requires
            self.wf(),
            num_blocks + self@.pools.blocks_per_superblock <= usize::MAX,
        ensures
            r == self@.superblocks_needed(num_blocks as nat),
    {
        self.pool.superblocks_needed(num_blocks)
    }

    /// Allocate one block and return its index.
    pub fn alloc_block(&mut self, grants: &Vec<Vec<u64>>) -> (r: Result<u32, PoolError>)
        requires
            old(self).wf(),
            old(self).pool.grants_ok(grants@),
            old(self)@.free_idx.len() > 0 || old(self)@.blocks.len() < INDEX_COUNT,
        ensures
            final(self).wf(),
            final(self).cfg == old(self).cfg,
            final(self)@ == old(self)@.allocated(pool_model::grants_view(grants@), 0, 0),
            r == match old(self)@.next_physical(pool_model::grants_view(grants@), 0) {
                Some(h) => Ok::<u32, PoolError>(old(self)@.next_index()),
                None => Err(PoolError::OutOfMemory),
            },
    {
        proof {
            lemma_allocated_resident(self@, pool_model::grants_view(grants@), 0, 0);
        }
        self.pool.alloc_block(grants, 0)
    }

    /// Allocate `num_blocks` blocks for a new sequence and return their
    /// indices. Where they cannot all be had, the blocks allocated before the
    /// failure stay in use.
    pub fn alloc_sequence(&mut self, num_blocks: usize, grants: &Vec<Vec<u64>>) -> (r: Result<
        Vec<u32>,
        PoolError,
    >)
        requires
            old(self).wf(),
            old(self).pool.grants_ok(grants@),
            old(self)@.blocks.len() + num_blocks <= INDEX_COUNT,
        ensures
            final(self).wf(),
            final(self).cfg == old(self).cfg,
            ({
                let (state, table, used) = old(self)@.allocated_many(
                    num_blocks as nat,
                    pool_model::grants_view(grants@),
                    0,
                );
                &&& final(self)@ == state
                &&& table.len() == num_blocks ==> r is Ok && r->Ok_0@ == table
                &&& table.len() != num_blocks ==> r == Err::<Vec<u32>, PoolError>(
                    PoolError::OutOfMemory,
                )
            }),
    {
        proof {
            lemma_allocated_many_resident(
                self@,
                num_blocks as nat,
                pool_model::grants_view(grants@),
                0,
            );
        }
        self.pool.alloc_sequence(num_blocks, grants, 0)
    }

    /// Free all blocks of a table.
    pub fn free_sequence(&mut self, block_table: &Vec<u32>)
        requires
            old(self).wf(),
            old(self)@.table_ok(block_table@),
        ensures
            final(self).wf(),
            final(self).cfg == old(self).cfg,
            final(self)@ == old(self)@.freed_all(block_table@),
    {
        proof {
            lemma_freed_all_resident(self@, block_table@);
        }
        self.pool.free_sequence(block_table)
    }

    /// Append a block to a sequence's table; an unknown sequence is ignored.
    pub fn append_block_to_sequence(&mut self, seq_idx: usize, block_idx: u32)
        requires
            old(self).wf(),
        ensures
            final(self).wf(),
            final(self).cfg == old(self).cfg,
            final(self)@ == old(self)@.with_appended(seq_idx as int, block_idx),
    {
        self.pool.append_block_to_sequence(seq_idx, block_idx)
    }

    /// Register a sequence over the given blocks and return its index.
    pub fn register_sequence(&mut self, block_table: Vec<u32>) -> (idx: usize)
        requires
            old(self).wf(),
        ensures
            final(self).wf(),
            final(self).cfg == old(self).cfg,
            idx == old(self)@.sequences.len(),
            final(self)@ == old(self)@.with_registered(block_table@),
    {
        self.pool.register_sequence(block_table)
    }

    /// Unregister a sequence and free its blocks. Its index stays taken.
    pub fn unregister_sequence(&mut self, seq_idx: usize)
        requires
            old(self).wf(),
            seq_idx < old(self)@.sequences.len() ==> old(self)@.table_ok(
                old(self)@.sequences[seq_idx as int].block_table,
            ),
        ensures
            final(self).wf(),
            final(self).cfg == old(self).cfg,
            final(self)@ == old(self)@.unregistered(seq_idx as int),
    {
        proof {
            if seq_idx < self@.sequences.len() {
                let seq = self@.sequences[seq_idx as int];
                let cleared = self@.with_sequence(
                    seq_idx as int,
                    pool_model::SequenceView { block_table: Seq::empty(), seq_len: 0, ..seq },
                );
                lemma_freed_all_resident(cleared, seq.block_table);
            }
        }
        self.pool.unregister_sequence(seq_idx)
    }

    /// Set a sequence's length; an unknown one is ignored.
    pub fn update_seq_len(&mut self, seq_idx: usize, len: usize)
        requires
            old(self).wf(),
        ensures
            final(self).wf(),
            final(self).cfg == old(self).cfg,
            final(self)@ == old(self)@.with_seq_len(seq_idx as int, len),
    {
        self.pool.update_seq_len(seq_idx, len)
    }

    /// Number of blocks of a sequence; zero for an unknown one.
    pub fn seq_block_count(&self, seq_idx: usize) -> (r: usize)
        ensures
            r == if seq_idx < self@.sequences.len() {
                self@.sequences[seq_idx as int].block_table.len()
            } else {
                0
            },
    {
        if seq_idx < self.pool.sequences.len() {
            assert(self@.sequences[seq_idx as int] == self.pool.sequences@[seq_idx as int]@);
            self.pool.sequences[seq_idx].block_table.len()
        } else {
            0
        }
    }

    /// A sequence's table and length.
    pub fn seq_metadata(&self, seq_idx: usize) -> (r: Option<SeqMetadata>)
        ensures
            r is Some <==> seq_idx < self@.sequences.len(),
            r matches Some(m) ==> m.block_table@ == self@.sequences[seq_idx as int].block_table
                && m.seq_len == self@.sequences[seq_idx as int].seq_len,
    {
        match self.pool.get_block_table(seq_idx) {
            Some(block_table) => Some(
                SeqMetadata { block_table, seq_len: self.pool.get_seq_len(seq_idx) },
            ),
            None => None,
        }
    }

    /// Byte offsets of a sequence's blocks; `None` for an unknown sequence
    /// and when one of its blocks is not in use.
    pub fn get_block_va_offsets(&self, seq_idx: usize) -> (r: Option<Vec<usize>>)
        ensures
            r is Some <==> seq_idx < self@.sequences.len() && forall|k: int|
                0 <= k < self@.sequences[seq_idx as int].block_table.len() ==> self@.used(
                    #[trigger] self@.sequences[seq_idx as int].block_table[k],
                ),
            r matches Some(v) ==> {
                let table = self@.sequences[seq_idx as int].block_table;
                &&& v@.len() == table.len()
                &&& forall|k: int|
                    0 <= k < table.len() ==> #[trigger] v@[k]
                        == self@.blocks[table[k] as int].va_offset
            },
    {
        self.pool.get_block_va_offsets(seq_idx)
    }

    /// Byte offset of a block, if it is in use.
    pub fn get_block_va_offset(&self, block_idx: u32) -> (r: Option<usize>)
        ensures
            r == if self@.used(block_idx) {
                Some(self@.blocks[block_idx as int].va_offset)
            } else {
                None::<usize>
            },
    {
        self.pool.get_block_va_offset(block_idx)
    }

    /// For each block index its offset in half-precision elements; zero for
    /// those not in use.
    pub fn get_all_block_offsets_f16(&self) -> (r: Vec<u64>)
        ensures
            r@.len() == self@.blocks.len(),
            forall|i: int|
                0 <= i < r@.len() ==> #[trigger] r@[i] == if self@.blocks[i].in_use {
                    self@.blocks[i].va_offset as int / HALF_BYTES as int
                } else {
                    0
                },
    {
        self.pool.get_all_block_offsets_f16()
    }

    /// A sequence's block table.
    pub fn get_block_table(&self, seq_idx: usize) -> (r: Option<Vec<u32>>)
        ensures
            r is Some <==> seq_idx < self@.sequences.len(),
            r matches Some(t) ==> t@ == self@.sequences[seq_idx as int].block_table,
    {
        self.pool.get_block_table(seq_idx)
    }

    /// Base address of a layer's K cache.
    pub fn va_k(&self, layer: usize) -> (r: u64)
        requires
            layer < self@.va_k.len(),
        ensures
            r == self@.va_k[layer as int],
    {
        self.pool.va_k(layer)
    }

    /// Base address of a layer's V cache.
    pub fn va_v(&self, layer: usize) -> (r: u64)
        requires
            layer < self@.va_v.len(),
        ensures
            r == self@.va_v[layer as int],
    {
        self.pool.va_v(layer)
    }

    /// A sequence's length; zero for an unknown one.
    pub fn get_seq_len(&self, seq_idx: usize) -> (r: usize)
        ensures
            r == if seq_idx < self@.sequences.len() {
                self@.sequences[seq_idx as int].seq_len
            } else {
                0
            },
    {
        self.pool.get_seq_len(seq_idx)
    }

    /// Number of registered sequences.
    pub fn active_sequences(&self) -> (r: usize)
        ensures
            r == self@.sequences.len(),
    {
        self.pool.active_sequences()
    }

    /// Plan the copies that write one position of each listed sequence into a
    /// layer, from rows of new K data at `k_src` and V data at `v_src`.
    pub fn append_kv_step(
        &self,
        layer_idx: usize,
        seq_indices: &Vec<usize>,
        positions: &Vec<usize>,
        k_src: u64,
        v_src: u64,
    ) -> (r: KvPlan<PoolError>)
        requires
            self.wf(),
            self@.regions_fit(),
            layer_idx < self@.shape.num_layers,
            positions@.len() >= seq_indices@.len(),
            self@.sources_fit(seq_indices@.len() as int, k_src, v_src),
            forall|b: int|
                0 <= b < seq_indices@.len() ==> (#[trigger] seq_indices@[b])
                    < self@.sequences.len() && self@.table_ok(
                    self@.sequences[seq_indices@[b] as int].block_table,
                ),
        ensures
            r.is_for(
                self@.step_rows(
                    self@.bases(layer_idx as int, k_src, v_src),
                    seq_indices@,
                    positions@,
                ),
            ),
            self@.step() == self.cfg.kv_heads() * self.cfg.head_dim(),
    {
        proof {
            let kv = self.cfg.kv_heads() as int;
            let bs = self@.shape.block_size as int;
            let hd = self.cfg.head_dim() as int;
            assert(kv * bs * hd == (kv * hd) * bs) by (nonlinear_arith);
            vstd::arithmetic::div_mod::lemma_div_by_multiple(kv * hd, bs);
        }
        self.pool.append_kv_step(layer_idx, seq_indices, positions, k_src, v_src)
    }

    /// Bytes of mapped memory that no block in use takes, and bytes of mapped
    /// memory in all; no bytes are idle where nothing is mapped.
    pub fn idle_bytes(&self) -> (r: (usize, usize))
        requires
            self.wf(),
            self@.physical_fits(),
        ensures
            r == self@.idle_bytes(),
    {
        self.pool.idle_bytes()
    }

    /// Number of blocks in use.
    pub fn blocks_in_use(&self) -> (r: usize)
        ensures
            r == self@.total_used(),
    {
        self.pool.blocks_in_use()
    }

    /// Number of block indices.
    pub fn total_blocks(&self) -> (r: usize)
        ensures
            r == self@.blocks.len(),
    {
        self.pool.total_blocks()
    }

    /// Number of physical blocks, free or taken.
    pub fn total_physical_blocks(&self) -> (r: usize)
        requires
            self.wf(),
        ensures
            r == self@.pools.backing.len() * self@.pools.blocks_per_superblock,
    {
        self.pool.total_physical_blocks()
    }

    /// Number of free physical blocks.
    pub fn free_physical_blocks(&self) -> (r: usize)
        requires
            self.wf(),
        ensures
            r == self@.pools.free.len(),
    {
        self.pool.free_physical_blocks()
    }

    /// Whether a physical block is free.
    pub fn has_free_blocks(&self) -> (r: bool)
        requires
            self.wf(),
        ensures
            r == (self@.pools.free.len() > 0),
    {
        self.pool.has_free_blocks()
    }

    /// Blocks in one superblock.
    pub fn blocks_per_superblock(&self) -> (r: usize)
        requires
            self.wf(),
        ensures
            r == self@.pools.blocks_per_superblock,
    {
        self.pool.blocks_per_superblock()
    }

    /// Number of superblock positions.
    pub fn superblock_count(&self) -> (r: usize)
        requires
            self.wf(),
        ensures
            r == self@.pools.backing.len(),
    {
        self.pool.superblock_count()
    }

    /// The counts behind the fragmentation metrics; sequences that own blocks
    /// count as active.
    pub fn frag_counts(&self) -> (r: FragCounts)
        requires
            self.wf(),
            self@.counts_fit(),
        ensures
            r == self@.frag_counts(self@.owning_count(self@.sequences.len()) as usize),
    {
        let (_tokens, owning) = self.pool.token_totals();
        self.pool.frag_counts(owning)
    }

    /// Counts that describe the cache.
    pub fn stats(&self) -> (r: CacheStats)
        requires
            self.wf(),
            self@.slots_fit(),
            self@.superblock_bytes(self@.pools.backing.len() as int) <= usize::MAX,
        ensures
            ({
                let s = self@;
                r == CacheStats {
                    active_sequences: s.sequences.len() as usize,
                    total_blocks_allocated: s.physical_blocks() as usize,
                    blocks_in_use: s.total_used() as usize,
                    free_blocks_in_pool: s.pools.free.len() as usize,
                    blocks_per_superblock: s.pools.blocks_per_superblock as usize,
                    superblocks_allocated: s.pools.backing.len() as usize,
                    block_bytes: s.shape.block_bytes,
                    total_tokens_stored: s.total_tokens() as usize,
                    total_slots: s.total_slots() as usize,
                    wasted_slots: unified_frag::slots_wasted(
                        s.total_slots(),
                        s.total_tokens() as int,
                    ) as usize,
                    physical_memory_bytes: s.superblock_bytes(
                        s.pools.backing.len() as int,
                    ) as usize,
                }
            }),
    {
        let (tokens, slots, wasted) = self.pool.slot_counts();
        CacheStats {
            active_sequences: self.pool.active_sequences(),
            total_blocks_allocated: self.pool.total_physical_blocks(),
            blocks_in_use: self.pool.blocks_in_use(),
            free_blocks_in_pool: self.pool.free_physical_blocks(),
            blocks_per_superblock: self.pool.blocks_per_superblock(),
            superblocks_allocated: self.pool.superblock_count(),
            block_bytes: self.pool.block_bytes(),
            total_tokens_stored: tokens,
            total_slots: slots,
            wasted_slots: wasted,
            physical_memory_bytes: self.pool.mapped_bytes(),
        }
    }
}

} // verus!
