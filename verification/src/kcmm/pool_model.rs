use core::ops::Range;
use vstd::prelude::*;

use crate::config::KcmmConfig;
use crate::kcmm::cpu_slots;
use crate::kcmm::lockstep::LayerPoolsView;
use crate::kcmm::superblock;
use crate::kcmm::superblock::{BlockHandle, INDEX_COUNT};
use crate::kcmm::tiering;
use crate::kcmm::tiering::TieringView;

verus! {

/// Where a block's data resides.
#[derive(Debug, Clone, Copy, PartialEq, Eq, Structural)]
pub enum BlockLocation {
    /// In GPU memory: the physical block and its byte offset in each region.
    GpuResident(BlockHandle, u64),
    /// In the CPU swap buffer at the given byte offset.
    CpuResident(usize),
    /// On NVMe at the given byte offset.
    NvmeResident(u64),
    /// On its way from the GPU.
    Evicting,
    /// On its way back to the GPU.
    Restoring,
}

/// What is known of one block index.
#[derive(Debug, Clone, Copy, PartialEq, Eq, Structural)]
pub struct BlockInfo {
    /// Byte offset of the block within each layer's K and V region.
    pub va_offset: usize,
    /// Superblock index, the same in all pools.
    pub superblock_idx: u32,
    /// Block index within the superblock.
    pub block_index_in_sb: u32,
    /// Whether the block is assigned to a sequence.
    pub in_use: bool,
    /// Where the block's data resides.
    pub location: BlockLocation,
}

impl BlockInfo {
    /// The physical block that the index was last backed by.
    pub open spec fn spec_handle(self) -> BlockHandle {
        BlockHandle { superblock_idx: self.superblock_idx, block_index: self.block_index_in_sb }
    }

    /// The physical block that the index was last backed by.
    #[verifier::when_used_as_spec(spec_handle)]
    pub fn handle(self) -> (r: BlockHandle)
        ensures
            r == self.spec_handle(),
    {
        BlockHandle { superblock_idx: self.superblock_idx, block_index: self.block_index_in_sb }
    }
}

/// How willingly a sequence gives up its blocks.
#[derive(Debug, Clone, Copy, PartialEq, Eq, Structural)]
pub enum SequencePriority {
    /// May be discarded.
    Evictable,
    Low,
    Normal,
    /// Evicted last.
    High,
}

/// What is known of one sequence.
#[verifier::ext_equal]
pub struct SequenceView {
    pub block_table: Seq<u32>,
    pub seq_len: usize,
    pub is_active: bool,
    pub shared_prefix_len: usize,
    pub priority: SequencePriority,
}

/// Sizes that a pool is made with.
pub struct PoolShape {
    pub max_batch: usize,
    pub max_seq_len: usize,
    pub block_size: usize,
    pub max_blocks_per_seq: usize,
    pub num_layers: usize,
    pub elem_per_block: usize,
    pub block_bytes: usize,
    pub max_blocks_total: usize,
}

/// What a pool holds.
#[verifier::ext_equal]
pub struct PoolView {
    pub config: KcmmConfig,
    pub shape: PoolShape,
    pub va_k: Seq<u64>,
    pub va_v: Seq<u64>,
    pub pools: LayerPoolsView,
    pub blocks: Seq<BlockInfo>,
    /// Block indices to hand out again, the last first.
    pub free_idx: Seq<u32>,
    pub sequences: Seq<SequenceView>,
    pub tiering: Option<TieringView>,
}

impl PoolView {
    /// Bytes that one block takes in the swap buffer.
    pub open spec fn slot_bytes(self) -> int {
        tiering::slot_bytes(self.shape.num_layers as int, self.shape.block_bytes as int)
    }

    /// A location names an existing physical block, or a slot of the swap
    /// buffer that can be addressed.
    pub open spec fn location_ok(self, location: BlockLocation) -> bool {
        match location {
            BlockLocation::GpuResident(h, _) => self.pools.valid(h),
            BlockLocation::CpuResident(offset) => offset + self.slot_bytes() <= usize::MAX,
            _ => true,
        }
    }

    /// A description names an existing physical block and its offset.
    pub open spec fn block_ok(self, info: BlockInfo) -> bool {
        &&& self.pools.valid(info.handle())
        &&& info.va_offset == self.pools.offset(info.handle())
        &&& self.location_ok(info.location)
    }

    /// Whether `i` is a block index that is assigned to a sequence.
    pub open spec fn used(self, i: u32) -> bool {
        i < self.blocks.len() && self.blocks[i as int].in_use
    }

    /// The unused block indices are those that wait to be handed out again.
    pub open spec fn recycling_ok(self) -> bool {
        &&& self.free_idx.no_duplicates()
        &&& forall|k: int|
            0 <= k < self.free_idx.len() ==> (#[trigger] self.free_idx[k]) < self.blocks.len()
                && !self.blocks[self.free_idx[k] as int].in_use
        &&& forall|i: int|
            0 <= i < self.blocks.len() && !(#[trigger] self.blocks[i]).in_use
                ==> self.free_idx.contains(i as u32)
    }

    /// Well-formedness of everything but the per-layer pools themselves.
    pub open spec fn wf(self) -> bool {
        &&& self.shape.block_size > 0
        &&& self.shape.num_layers == self.pools.layers == self.va_k.len() == self.va_v.len()
        &&& self.shape.block_bytes == self.pools.block_bytes
        &&& 0 < self.pools.blocks_per_superblock <= superblock::SUPERBLOCK_SIZE
        &&& self.pools.blocks_per_superblock * self.pools.block_bytes
            == superblock::SUPERBLOCK_SIZE
        &&& superblock::superblocks_fit(self.pools.backing.len() as int)
        &&& self.shape.block_bytes == self.shape.elem_per_block * superblock::HALF_BYTES
        &&& self.slot_bytes() <= usize::MAX
        &&& self.blocks.len() <= INDEX_COUNT
        &&& self.recycling_ok()
        &&& forall|i: int|
            0 <= i < self.blocks.len() ==> self.block_ok(#[trigger] self.blocks[i])
        &&& self.tiering matches Some(t) ==> cpu_slots::ranges_ordered(t.slots)
    }

    /// The pool with other per-layer pools.
    pub open spec fn with_pools(self, pools: LayerPoolsView) -> Self {
        PoolView { pools, ..self }
    }

    /// The pool with block `i` described by `info`.
    pub open spec fn with_block(self, i: int, info: BlockInfo) -> Self {
        PoolView { blocks: self.blocks.update(i, info), ..self }
    }

    /// The pool with block `i` at `location`.
    pub open spec fn located(self, i: int, location: BlockLocation) -> Self {
        self.with_block(i, BlockInfo { location, ..self.blocks[i] })
    }

    /// The pool with other scores.
    pub open spec fn with_scores(self, scores: Map<u64, u64>) -> Self {
        match self.tiering {
            Some(t) => PoolView { tiering: Some(TieringView { scores, ..t }), ..self },
            None => self,
        }
    }

    /// The pool with other free ranges of the swap buffer.
    pub open spec fn with_slots(self, slots: Seq<Range<usize>>) -> Self {
        match self.tiering {
            Some(t) => PoolView { tiering: Some(TieringView { slots, ..t }), ..self },
            None => self,
        }
    }

    /// The physical pools from which the next block is taken: where no block
    /// is free and a superblock has been mapped, that superblock is added.
    pub open spec fn refilled(self, grants: Seq<Seq<u64>>, used: nat) -> LayerPoolsView {
        if self.pools.free.len() == 0 && used < grants.len() {
            self.pools.grown(grants[used as int])
        } else {
            self.pools
        }
    }

    /// How many grants have been used up when the next block was taken.
    pub open spec fn used_after(self, grants: Seq<Seq<u64>>, used: nat) -> nat {
        if self.pools.free.len() == 0 && used < grants.len() {
            used + 1
        } else {
            used
        }
    }

    /// The next physical block, `None` when there is none.
    pub open spec fn next_physical(self, grants: Seq<Seq<u64>>, used: nat) -> Option<BlockHandle> {
        let pools = self.refilled(grants, used);
        if pools.free.len() > 0 {
            Some(pools.free.last())
        } else {
            None
        }
    }

    /// The pool after the next physical block was taken.
    pub open spec fn physical_taken(self, grants: Seq<Seq<u64>>, used: nat) -> Self {
        let pools = self.refilled(grants, used);
        self.with_pools(
            if pools.free.len() > 0 {
                pools.with_free(pools.free.drop_last())
            } else {
                pools
            },
        )
    }

    /// The description of a fresh block backed by `h`.
    pub open spec fn fresh_info(self, h: BlockHandle) -> BlockInfo {
        BlockInfo {
            va_offset: self.pools.offset(h) as usize,
            superblock_idx: h.superblock_idx,
            block_index_in_sb: h.block_index,
            in_use: true,
            location: BlockLocation::GpuResident(h, self.pools.offset(h) as u64),
        }
    }

    /// The block index that the next block gets.
    pub open spec fn next_index(self) -> u32 {
        if self.free_idx.len() > 0 {
            self.free_idx.last()
        } else {
            self.blocks.len() as u32
        }
    }

    /// The pool after physical block `h` got a block index at time `now`.
    pub open spec fn installed(self, h: BlockHandle, now: u64) -> Self {
        let info = self.fresh_info(h);
        let listed = if self.free_idx.len() > 0 {
            PoolView {
                blocks: self.blocks.update(self.free_idx.last() as int, info),
                free_idx: self.free_idx.drop_last(),
                ..self
            }
        } else {
            PoolView { blocks: self.blocks.push(info), ..self }
        };
        match self.tiering {
            Some(t) => listed.with_scores(
                t.scores.insert(h.key(), t.kind.score_on_allocate(now)),
            ),
            None => listed,
        }
    }

    /// The pool after one block was allocated; unchanged but for the pools
    /// where no block can be had.
    pub open spec fn allocated(self, grants: Seq<Seq<u64>>, used: nat, now: u64) -> Self {
        match self.next_physical(grants, used) {
            Some(h) => self.physical_taken(grants, used).installed(h, now),
            None => self,
        }
    }

    /// The pool and the block table after up to `n` blocks were allocated one
    /// after the other. Allocation stops at the first block that cannot be
    /// had; the table is then shorter than `n`.
    pub open spec fn allocated_many(
        self,
        n: nat,
        grants: Seq<Seq<u64>>,
        now: u64,
    ) -> (Self, Seq<u32>, nat)
        decreases n,
    {
        if n == 0 {
            (self, Seq::empty(), 0)
        } else {
            let (state, table, used) = self.allocated_many((n - 1) as nat, grants, now);
            if table.len() == n - 1 && state.next_physical(grants, used) is Some {
                (
                    state.allocated(grants, used, now),
                    table.push(state.physical_taken(grants, used).next_index()),
                    state.used_after(grants, used),
                )
            } else {
                (state, table, used)
            }
        }
    }

    /// The pool after block `i` was freed. A block that is on its way between
    /// GPU and CPU, or not in use, stays as it is.
    pub open spec fn freed_one(self, i: u32) -> Self {
        let info = self.blocks[i as int];
        let dropped = PoolView {
            blocks: self.blocks.update(i as int, BlockInfo { in_use: false, ..info }),
            free_idx: self.free_idx.push(i),
            ..self
        };
        if !info.in_use {
            self
        } else {
            match info.location {
                BlockLocation::GpuResident(h, _) => dropped.with_pools(
                    self.pools.with_free(self.pools.free.push(h)),
                ),
                BlockLocation::CpuResident(offset) => match self.tiering {
                    Some(t) => dropped.with_slots(
                        cpu_slots::freed(t.slots, offset, self.slot_bytes() as usize),
                    ),
                    None => dropped,
                },
                BlockLocation::NvmeResident(_) => dropped,
                BlockLocation::Evicting => self,
                BlockLocation::Restoring => self,
            }
        }
    }

    /// The pool after the blocks of a table were freed in order.
    pub open spec fn freed_all(self, table: Seq<u32>) -> Self
        decreases table.len(),
    {
        if table.len() == 0 {
            self
        } else {
            self.freed_all(table.drop_last()).freed_one(table.last())
        }
    }

    /// The pool with sequence `s` described by `seq`.
    pub open spec fn with_sequence(self, s: int, seq: SequenceView) -> Self {
        PoolView { sequences: self.sequences.update(s, seq), ..self }
    }

    /// The pool with a fresh sequence over the given blocks.
    pub open spec fn with_registered(self, block_table: Seq<u32>) -> Self {
        PoolView {
            sequences: self.sequences.push(
                SequenceView {
                    block_table,
                    seq_len: 0,
                    is_active: true,
                    shared_prefix_len: 0,
                    priority: SequencePriority::Normal,
                },
            ),
            ..self
        }
    }

    /// The pool with sequence `s` of length `len`; an unknown sequence changes
    /// nothing.
    pub open spec fn with_seq_len(self, s: int, len: usize) -> Self {
        if 0 <= s < self.sequences.len() {
            self.with_sequence(s, SequenceView { seq_len: len, ..self.sequences[s] })
        } else {
            self
        }
    }

    /// The pool with a block appended to sequence `s`; an unknown sequence
    /// changes nothing.
    pub open spec fn with_appended(self, s: int, block_idx: u32) -> Self {
        if 0 <= s < self.sequences.len() {
            self.with_sequence(
                s,
                SequenceView {
                    block_table: self.sequences[s].block_table.push(block_idx),
                    ..self.sequences[s]
                },
            )
        } else {
            self
        }
    }

    /// The pool with sequence `s` marked as active or not; an unknown sequence
    /// changes nothing.
    pub open spec fn with_active(self, s: int, is_active: bool) -> Self {
        if 0 <= s < self.sequences.len() {
            self.with_sequence(s, SequenceView { is_active, ..self.sequences[s] })
        } else {
            self
        }
    }

    /// The pool with sequence `s` of the given priority; an unknown sequence
    /// changes nothing.
    pub open spec fn with_priority(self, s: int, priority: SequencePriority) -> Self {
        if 0 <= s < self.sequences.len() {
            self.with_sequence(s, SequenceView { priority, ..self.sequences[s] })
        } else {
            self
        }
    }

    /// The pool after sequence `s` was unregistered; an unknown sequence
    /// changes nothing.
    pub open spec fn unregistered(self, s: int) -> Self {
        if 0 <= s < self.sequences.len() {
            let seq = self.sequences[s];
            self.with_sequence(
                s,
                SequenceView { block_table: Seq::empty(), seq_len: 0, ..seq },
            ).freed_all(seq.block_table)
        } else {
            self
        }
    }

    /// Block `i` is in use and resides in GPU memory, in the physical block `h`.
    pub open spec fn resides_at(self, h: BlockHandle, i: int) -> bool {
        &&& 0 <= i < self.blocks.len()
        &&& self.blocks[i].in_use
        &&& self.blocks[i].location matches BlockLocation::GpuResident(g, _) && g == h
    }

    /// Whether some block resides in the physical block `h`.
    pub open spec fn occupied(self, h: BlockHandle) -> bool {
        exists|i: int| self.resides_at(h, i)
    }

    /// Block `i` is in use and was last backed by the physical block `h`,
    /// which another block may have got since.
    pub open spec fn backed_by(self, h: BlockHandle, i: int) -> bool {
        &&& 0 <= i < self.blocks.len()
        &&& self.blocks[i].in_use
        &&& self.blocks[i].handle() == h
    }

    /// Block `i` is the one that the physical block `h` stands for: the first
    /// that resides in it; where none does, the first that was last backed by
    /// it.
    pub open spec fn is_index_of(self, h: BlockHandle, i: int) -> bool {
        if self.occupied(h) {
            self.resides_at(h, i) && forall|j: int| 0 <= j < i ==> !self.resides_at(h, j)
        } else {
            self.backed_by(h, i) && forall|j: int| 0 <= j < i ==> !self.backed_by(h, j)
        }
    }

    /// Whether the physical block `h` stands for some block.
    pub open spec fn has_handle(self, h: BlockHandle) -> bool {
        exists|i: int| self.is_index_of(h, i)
    }

    /// The block that the physical block `h` stands for.
    pub open spec fn index_of(self, h: BlockHandle) -> int {
        choose|i: int| self.is_index_of(h, i)
    }

    /// Where block `i` resides, if it is in use.
    pub open spec fn location_of(self, i: u32) -> Option<BlockLocation> {
        if self.used(i) {
            Some(self.blocks[i as int].location)
        } else {
            None
        }
    }

    /// The blocks of a table that reside in GPU memory, in table order.
    pub open spec fn gpu_blocks(self, table: Seq<u32>) -> Seq<(u32, BlockHandle)>
        decreases table.len(),
    {
        if table.len() == 0 {
            Seq::empty()
        } else {
            let rest = self.gpu_blocks(table.drop_last());
            match self.location_of(table.last()) {
                Some(BlockLocation::GpuResident(h, _)) => rest.push((table.last(), h)),
                _ => rest,
            }
        }
    }

    /// Number of blocks in use among the first `n`.
    pub open spec fn used_count(self, n: nat) -> nat
        decreases n,
    {
        if n == 0 {
            0
        } else {
            self.used_count((n - 1) as nat) + if self.blocks[n - 1].in_use {
                1nat
            } else {
                0nat
            }
        }
    }

    /// Tokens of the first `n` sequences.
    pub open spec fn token_count(self, n: nat) -> nat
        decreases n,
    {
        if n == 0 {
            0
        } else {
            self.token_count((n - 1) as nat) + self.sequences[n - 1].seq_len as nat
        }
    }

    /// Blocks in the tables of the first `n` sequences.
    pub open spec fn table_count(self, n: nat) -> nat
        decreases n,
    {
        if n == 0 {
            0
        } else {
            self.table_count((n - 1) as nat) + self.sequences[n - 1].block_table.len()
        }
    }

    /// Superblocks that have to be mapped so that `n` blocks can be allocated.
    pub open spec fn superblocks_needed(self, n: nat) -> nat {
        if n <= self.pools.free.len() {
            0
        } else {
            let missing = n - self.pools.free.len();
            let bps = self.pools.blocks_per_superblock as int;
            ((missing + bps - 1) / bps) as nat
        }
    }

    /// Every entry of the table names a block index.
    pub open spec fn table_ok(self, table: Seq<u32>) -> bool {
        forall|k: int| 0 <= k < table.len() ==> (#[trigger] table[k]) < self.blocks.len()
    }
}

/// A physical block stands for one block at most.
pub proof fn lemma_index_unique(s: PoolView, h: BlockHandle, i: int)
    requires
        s.is_index_of(h, i),
    ensures
        s.has_handle(h),
        s.index_of(h) == i,
{
    let k = s.index_of(h);
    assert(s.is_index_of(h, k));
}

/// Adding superblocks and changing the free list keeps the pool well formed.
pub proof fn lemma_with_pools_wf(s: PoolView, pools: LayerPoolsView)
    requires
        s.wf(),
        pools.layers == s.pools.layers,
        pools.block_bytes == s.pools.block_bytes,
        pools.blocks_per_superblock == s.pools.blocks_per_superblock,
        pools.backing.len() >= s.pools.backing.len(),
        superblock::superblocks_fit(pools.backing.len() as int),
    ensures
        s.with_pools(pools).wf(),
{
    let t = s.with_pools(pools);
    assert forall|i: int| 0 <= i < t.blocks.len() implies t.block_ok(#[trigger] t.blocks[i]) by {
        assert(s.block_ok(s.blocks[i]));
    }
}

/// Describing a block in use differently keeps the pool well formed.
pub proof fn lemma_with_block_wf(s: PoolView, i: int, info: BlockInfo)
    requires
        s.wf(),
        0 <= i < s.blocks.len(),
        info.in_use == s.blocks[i].in_use,
        s.block_ok(info),
    ensures
        s.with_block(i, info).wf(),
{
    let t = s.with_block(i, info);
    assert forall|j: int| 0 <= j < t.blocks.len() implies t.block_ok(#[trigger] t.blocks[j]) by {
        assert(s.block_ok(s.blocks[j]));
    }
    assert forall|j: int|
        0 <= j < t.blocks.len() && !(#[trigger] t.blocks[j]).in_use implies t.free_idx.contains(
        j as u32,
    ) by {
        assert(!s.blocks[j].in_use);
    }
}

/// An existing block lies within its superblock, in the mapped part of the
/// regions.
pub proof fn lemma_offset_mapped(s: PoolView, h: BlockHandle)
    requires
        s.wf(),
        s.pools.valid(h),
    ensures
        h.superblock_idx * superblock::SUPERBLOCK_SIZE <= s.pools.offset(h),
        s.pools.offset(h) + s.pools.block_bytes <= (h.superblock_idx + 1)
            * superblock::SUPERBLOCK_SIZE,
        (h.superblock_idx + 1) * superblock::SUPERBLOCK_SIZE <= s.pools.backing.len()
            * superblock::SUPERBLOCK_SIZE <= usize::MAX,
{
    let bb = s.pools.block_bytes as int;
    let bps = s.pools.blocks_per_superblock as int;
    assert(0 <= h.block_index * bb && h.block_index * bb + bb <= bps * bb) by (nonlinear_arith)
        requires
            0 <= h.block_index < bps,
            bb >= 0,
    ;
}

/// Giving a physical block a block index keeps the pool well formed.
pub proof fn lemma_installed_wf(s: PoolView, h: BlockHandle, now: u64)
    requires
        s.wf(),
        s.pools.valid(h),
        s.free_idx.len() > 0 || s.blocks.len() < INDEX_COUNT,
    ensures
        s.installed(h, now).wf(),
        s.next_index() < s.installed(h, now).blocks.len(),
        s.installed(h, now).blocks[s.next_index() as int] == s.fresh_info(h),
{
    let t = s.installed(h, now);
    let info = s.fresh_info(h);
    lemma_offset_mapped(s, h);
    assert forall|i: int| 0 <= i < t.blocks.len() implies t.block_ok(#[trigger] t.blocks[i]) by {
        if t.blocks[i] != info {
            assert(s.block_ok(s.blocks[i]));
        }
    }
    if s.free_idx.len() > 0 {
        let r = s.free_idx.last();
        assert(s.free_idx[s.free_idx.len() - 1] == r);
        assert forall|k: int| 0 <= k < t.free_idx.len() implies (#[trigger] t.free_idx[k])
            < t.blocks.len() && !t.blocks[t.free_idx[k] as int].in_use by {
            assert(t.free_idx[k] == s.free_idx[k]);
            assert(s.free_idx[k] != r);
        }
        assert forall|i: int|
            0 <= i < t.blocks.len() && !(#[trigger] t.blocks[i]).in_use implies t.free_idx.contains(
            i as u32,
        ) by {
            assert(i != r);
            assert(!s.blocks[i].in_use);
            let k = choose|k: int| 0 <= k < s.free_idx.len() && s.free_idx[k] == i as u32;
            assert(t.free_idx[k] == i as u32);
        }
    } else {
        assert forall|i: int|
            0 <= i < t.blocks.len() && !(#[trigger] t.blocks[i]).in_use implies t.free_idx.contains(
            i as u32,
        ) by {
            assert(!s.blocks[i].in_use);
        }
    }
}

/// Freeing a block keeps the pool well formed.
pub proof fn lemma_freed_one_wf(s: PoolView, i: u32)
    requires
        s.wf(),
        i < s.blocks.len(),
        s.tiering matches Some(t) ==> cpu_slots::ranges_ordered(s.freed_one(i).tiering->0.slots),
    ensures
        s.freed_one(i).wf(),
        s.freed_one(i).blocks.len() == s.blocks.len(),
{
    let t = s.freed_one(i);
    assert forall|j: int| 0 <= j < t.blocks.len() implies t.block_ok(#[trigger] t.blocks[j]) by {
        assert(s.block_ok(s.blocks[j]));
    }
    if t.free_idx.len() != s.free_idx.len() {
        assert forall|k: int| 0 <= k < t.free_idx.len() implies (#[trigger] t.free_idx[k])
            < t.blocks.len() && !t.blocks[t.free_idx[k] as int].in_use by {
            if k < s.free_idx.len() {
                assert(s.free_idx[k] == t.free_idx[k]);
            }
        }
        assert(t.free_idx.no_duplicates()) by {
            assert forall|a: int, b: int|
                0 <= a < t.free_idx.len() && 0 <= b < t.free_idx.len() && a
                    != b implies t.free_idx[a] != t.free_idx[b] by {
                if a < s.free_idx.len() && b < s.free_idx.len() {
                    assert(s.free_idx[a] != s.free_idx[b]);
                } else if a < s.free_idx.len() {
                    assert(!s.blocks[s.free_idx[a] as int].in_use);
                } else {
                    assert(!s.blocks[s.free_idx[b] as int].in_use);
                }
            }
        }
        assert forall|j: int|
            0 <= j < t.blocks.len() && !(#[trigger] t.blocks[j]).in_use implies t.free_idx.contains(
            j as u32,
        ) by {
            if j == i {
                assert(t.free_idx[s.free_idx.len() as int] == i);
            } else {
                assert(!s.blocks[j].in_use);
                let k = choose|k: int| 0 <= k < s.free_idx.len() && s.free_idx[k] == j as u32;
                assert(t.free_idx[k] == j as u32);
            }
        }
    }
}

/// A grant for each superblock, as the handles it holds.
pub open spec fn grants_view(grants: Seq<Vec<u64>>) -> Seq<Seq<u64>> {
    grants.map_values(|g: Vec<u64>| g@)
}

/// Once a block cannot be had, asking for more changes nothing.
pub proof fn lemma_allocated_many_stops(
    s: PoolView,
    i: nat,
    n: nat,
    grants: Seq<Seq<u64>>,
    now: u64,
)
    requires
        i < n,
        s.allocated_many(i, grants, now).1.len() == i,
        ({
            let (state, table, used) = s.allocated_many(i, grants, now);
            state.next_physical(grants, used) is None
        }),
    ensures
        s.allocated_many(n, grants, now) == s.allocated_many(i, grants, now),
    decreases n,
{
    if n > i + 1 {
        lemma_allocated_many_stops(s, i, (n - 1) as nat, grants, now);
    }
}

} // verus!
