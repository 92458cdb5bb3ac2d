use vstd::prelude::*;

use crate::kcmm::superblock;
use crate::kcmm::superblock::{BlockHandle, LayerKvPool, SUPERBLOCK_SIZE};

verus! {

/// The per-layer K and V pools of a cache, grown and drawn from together.
///
/// Every pool holds the same free list at all times, so that one handle names
/// a block at the same offset of every layer's K and V region.
#[derive(Debug)]
pub struct LayerPools {
    pub k_pools: Vec<LayerKvPool>,
    pub v_pools: Vec<LayerKvPool>,
}

/// What the pools hold, seen as one.
#[verifier::ext_equal]
pub struct LayerPoolsView {
    /// Number of layers; there is one K and one V pool for each.
    pub layers: nat,
    pub block_bytes: nat,
    pub blocks_per_superblock: nat,
    /// The free list that all pools share.
    pub free: Seq<BlockHandle>,
    /// For each superblock position the physical handles that back it, in the
    /// order K of layer 0, V of layer 0, K of layer 1, and so on.
    pub backing: Seq<Seq<u64>>,
}

impl LayerPoolsView {
    /// Whether `h` names a block of a superblock that has been added.
    pub open spec fn valid(self, h: BlockHandle) -> bool {
        h.superblock_idx < self.backing.len() && h.block_index < self.blocks_per_superblock
    }

    /// Byte offset of block `h` within each region.
    pub open spec fn offset(self, h: BlockHandle) -> int {
        h.superblock_idx * SUPERBLOCK_SIZE + h.block_index * self.block_bytes
    }

    /// Every handle in the free list names an existing block.
    pub open spec fn free_valid(self) -> bool {
        forall|i: int| 0 <= i < self.free.len() ==> #[trigger] self.valid(self.free[i])
    }

    /// The pools after a superblock backed by `phys` was added.
    pub open spec fn grown(self, phys: Seq<u64>) -> Self {
        LayerPoolsView {
            free: self.free + superblock::superblock_handles(
                self.backing.len(),
                self.blocks_per_superblock,
            ),
            backing: self.backing.push(phys),
            ..self
        }
    }

    /// The pools with the free list replaced.
    pub open spec fn with_free(self, free: Seq<BlockHandle>) -> Self {
        LayerPoolsView { free, ..self }
    }
}

impl View for LayerPools {
    type V = LayerPoolsView;

    open spec fn view(&self) -> LayerPoolsView {
        LayerPoolsView {
            layers: self.k_pools@.len(),
            block_bytes: self.k_pools@[0].allocator.block_bytes as nat,
            blocks_per_superblock: self.k_pools@[0].allocator.blocks_per_superblock as nat,
            free: self.k_pools@[0].allocator.free_blocks@,
            backing: Seq::new(
                self.k_pools@[0].superblocks@.len(),
                |i: int| self.backing_of(i),
            ),
        }
    }
}

impl LayerPools {
    /// The physical handles behind superblock position `i`.
    pub open spec fn backing_of(&self, i: int) -> Seq<u64> {
        Seq::new(
            2 * self.k_pools@.len(),
            |j: int|
                if j % 2 == 0 {
                    self.k_pools@[j / 2].superblocks@[i].phys_handle
                } else {
                    self.v_pools@[j / 2].superblocks@[i].phys_handle
                },
        )
    }

    /// `pool` is well formed and agrees with the first K pool on its block
    /// size, its superblock count and its free list.
    pub open spec fn in_step(&self, pool: LayerKvPool) -> bool {
        let first = self.k_pools@[0].allocator;
        &&& pool.wf()
        &&& pool.allocator.block_bytes == first.block_bytes
        &&& pool.allocator.superblocks_added == first.superblocks_added
        &&& pool.allocator.free_blocks@ == first.free_blocks@
    }

    /// There is at least one layer, and all pools are in step.
    pub open spec fn wf(&self) -> bool {
        &&& self.k_pools@.len() == self.v_pools@.len()
        &&& self.k_pools@.len() > 0
        &&& forall|l: int| 0 <= l < self.k_pools@.len() ==> self.in_step(#[trigger] self.k_pools@[l])
        &&& forall|l: int| 0 <= l < self.v_pools@.len() ==> self.in_step(#[trigger] self.v_pools@[l])
        &&& self@.free_valid()
    }

    /// Empty pools for `num_layers` layers and blocks of `block_bytes` bytes.
    pub fn new(num_layers: usize, block_bytes: usize) -> (r: Self)
        requires
            num_layers > 0,
            superblock::valid_block_bytes(block_bytes as int),
        ensures
            r.wf(),
            r@.layers == num_layers,
            r@.block_bytes == block_bytes,
            r@.blocks_per_superblock == SUPERBLOCK_SIZE as int / block_bytes as int,
            0 < r@.blocks_per_superblock <= SUPERBLOCK_SIZE,
            r@.blocks_per_superblock * r@.block_bytes == SUPERBLOCK_SIZE,
            r@.free == Seq::<BlockHandle>::empty(),
            r@.backing == Seq::<Seq<u64>>::empty(),
    {
        let mut k_pools: Vec<LayerKvPool> = Vec::new();
        let mut v_pools: Vec<LayerKvPool> = Vec::new();
        let mut l: usize = 0;
        while l < num_layers
            invariant
                l <= num_layers,
                superblock::valid_block_bytes(block_bytes as int),
                k_pools@.len() == l,
                v_pools@.len() == l,
                forall|i: int|
                    0 <= i < l ==> {
                        let p = #[trigger] k_pools@[i];
                        p.wf() && p.allocator.block_bytes == block_bytes
                            && p.allocator.superblocks_added == 0
                            && p.allocator.free_blocks@ == Seq::<BlockHandle>::empty()
                    },
                forall|i: int|
                    0 <= i < l ==> {
                        let p = #[trigger] v_pools@[i];
                        p.wf() && p.allocator.block_bytes == block_bytes
                            && p.allocator.superblocks_added == 0
                            && p.allocator.free_blocks@ == Seq::<BlockHandle>::empty()
                    },
            decreases num_layers - l,
        {
            k_pools.push(LayerKvPool::new_with_block_bytes(block_bytes));
            v_pools.push(LayerKvPool::new_with_block_bytes(block_bytes));
            l = l + 1;
        }
        proof {
            vstd::arithmetic::div_mod::lemma_div_is_ordered(
                block_bytes as int,
                SUPERBLOCK_SIZE as int,
                block_bytes as int,
            );
            vstd::arithmetic::div_mod::lemma_div_is_ordered_by_denominator(
                SUPERBLOCK_SIZE as int,
                1,
                block_bytes as int,
            );
            vstd::arithmetic::div_mod::lemma_fundamental_div_mod(
                SUPERBLOCK_SIZE as int,
                block_bytes as int,
            );
            assert((SUPERBLOCK_SIZE as int / block_bytes as int) * block_bytes == block_bytes * (
            SUPERBLOCK_SIZE as int / block_bytes as int)) by (nonlinear_arith);
        }
        LayerPools { k_pools, v_pools }
    }

    /// Number of layers.
    pub fn num_layers(&self) -> (r: usize)
        ensures
            r == self@.layers,
    {
        self.k_pools.len()
    }

    /// Add one superblock to every pool. `phys` holds the physical handles in
    /// the order K of layer 0, V of layer 0, K of layer 1, and so on; they are
    /// mapped at byte offset `superblock_count() * SUPERBLOCK_SIZE`.
    pub fn add_superblock(&mut self, phys: &Vec<u64>)
        requires
            old(self).wf(),
            phys@.len() == 2 * old(self)@.layers,
            superblock::superblocks_fit(old(self)@.backing.len() as int + 1),
        ensures
            final(self).wf(),
            final(self)@ == old(self)@.grown(phys@),
    {
        let n: usize = self.k_pools.len();
        let ghost k0 = self.k_pools@;
        let ghost v0 = self.v_pools@;
        let ghost count = k0[0].allocator.superblocks_added as int;
        let ghost bps = k0[0].allocator.blocks_per_superblock as nat;
        let ghost free0 = k0[0].allocator.free_blocks@;
        let mut l: usize = 0;
        while l < n
            invariant
                l <= n,
                n == k0.len() == v0.len(),
                self.k_pools@.len() == n,
                self.v_pools@.len() == n,
                phys@.len() == 2 * n,
                superblock::superblocks_fit(count + 1),
                forall|i: int| 0 <= i < n ==> {
                    let p = #[trigger] k0[i];
                    &&& p.wf()
                    &&& p.allocator.block_bytes == k0[0].allocator.block_bytes
                    &&& p.allocator.blocks_per_superblock == bps
                    &&& p.allocator.superblocks_added == count
                    &&& p.allocator.free_blocks@ == free0
                },
                forall|i: int| 0 <= i < n ==> {
                    let p = #[trigger] v0[i];
                    &&& p.wf()
                    &&& p.allocator.block_bytes == k0[0].allocator.block_bytes
                    &&& p.allocator.blocks_per_superblock == bps
                    &&& p.allocator.superblocks_added == count
                    &&& p.allocator.free_blocks@ == free0
                },
                forall|i: int| l <= i < n ==> #[trigger] self.k_pools@[i] == k0[i],
                forall|i: int| l <= i < n ==> #[trigger] self.v_pools@[i] == v0[i],
                forall|i: int| 0 <= i < l ==> Self::extended(k0[i], #[trigger] self.k_pools@[i], phys@[2 * i]),
                forall|i: int| 0 <= i < l ==> Self::extended(v0[i], #[trigger] self.v_pools@[i], phys@[2 * i + 1]),
            decreases n - l,
        {
            assert(2 * n == phys.len());
            let kh: u64 = phys[2 * l];
            let vh: u64 = phys[2 * l + 1];
            assert(self.k_pools@[l as int] == k0[l as int]);
            assert(self.v_pools@[l as int] == v0[l as int]);
            self.k_pools[l].map_superblock(kh);
            self.v_pools[l].map_superblock(vh);
            l = l + 1;
        }
        proof {
            let new = old(self)@.grown(phys@);
            assert(Self::extended(k0[0], self.k_pools@[0], phys@[0]));
            assert forall|i: int| 0 <= i < new.backing.len() implies #[trigger] self@.backing[i]
                =~= new.backing[i] by {
                assert forall|j: int| 0 <= j < 2 * n implies self.backing_of(i)[j]
                    == new.backing[i][j] by {
                    let h = j / 2;
                    assert(Self::extended(k0[h], self.k_pools@[h], phys@[2 * h]));
                    assert(Self::extended(v0[h], self.v_pools@[h], phys@[2 * h + 1]));
                }
            }
            assert(self@.backing =~= new.backing);
            assert(self@ == new);
            assert forall|i: int| 0 <= i < self@.free.len() implies #[trigger] self@.valid(self@.free[i]) by {
                if i < free0.len() {
                    assert(old(self)@.valid(old(self)@.free[i]));
                }
            }
        }
    }

    /// `after` is `before` with one more superblock, backed by `phys`.
    pub open spec fn extended(before: LayerKvPool, after: LayerKvPool, phys: u64) -> bool {
        let a = before.allocator;
        &&& after.wf()
        &&& after.allocator.block_bytes == a.block_bytes
        &&& after.allocator.superblocks_added == a.superblocks_added + 1
        &&& after.allocator.free_blocks@ == a.free_blocks@ + superblock::superblock_handles(
            a.superblocks_added as nat,
            a.blocks_per_superblock as nat,
        )
        &&& after.superblocks@.len() == before.superblocks@.len() + 1
        &&& forall|i: int|
            0 <= i < before.superblocks@.len() ==> #[trigger] after.superblocks@[i]
                == before.superblocks@[i]
        &&& after.superblocks@[before.superblocks@.len() as int].phys_handle == phys
    }

    /// Take the block at the end of the free list out of every pool, or
    /// `None` when no block is free.
    pub fn take(&mut self) -> (r: Option<BlockHandle>)
        requires
            old(self).wf(),
        ensures
            final(self).wf(),
            old(self)@.free.len() == 0 ==> r is None && final(self)@ == old(self)@,
            old(self)@.free.len() > 0 ==> r == Some(old(self)@.free.last()) && final(self)@
                == old(self)@.with_free(old(self)@.free.drop_last()),
    {
        if self.k_pools[0].allocator.free_count() == 0 {
            return None;
        }
        let n: usize = self.k_pools.len();
        let ghost k0 = self.k_pools@;
        let ghost v0 = self.v_pools@;
        let ghost free0 = k0[0].allocator.free_blocks@;
        let mut handle: BlockHandle = BlockHandle { superblock_idx: 0, block_index: 0 };
        let mut l: usize = 0;
        while l < n
            invariant
                l <= n,
                n == k0.len() == v0.len(),
                n > 0,
                self.k_pools@.len() == n,
                self.v_pools@.len() == n,
                old(self).wf(),
                k0 == old(self).k_pools@,
                v0 == old(self).v_pools@,
                free0 == k0[0].allocator.free_blocks@,
                free0.len() > 0,
                l > 0 ==> handle == free0.last(),
                forall|i: int| l <= i < n ==> #[trigger] self.k_pools@[i] == k0[i],
                forall|i: int| l <= i < n ==> #[trigger] self.v_pools@[i] == v0[i],
                forall|i: int|
                    0 <= i < l ==> Self::relisted(
                        k0[i],
                        #[trigger] self.k_pools@[i],
                        free0.drop_last(),
                    ),
                forall|i: int|
                    0 <= i < l ==> Self::relisted(
                        v0[i],
                        #[trigger] self.v_pools@[i],
                        free0.drop_last(),
                    ),
            decreases n - l,
        {
            assert(self.k_pools@[l as int] == k0[l as int]);
            assert(self.v_pools@[l as int] == v0[l as int]);
            assert(old(self).in_step(k0[l as int]));
            assert(old(self).in_step(v0[l as int]));
            let h_k: Option<BlockHandle> = self.k_pools[l].allocator.try_allocate();
            let h_v: Option<BlockHandle> = self.v_pools[l].allocator.try_allocate();
            assert(h_k == Some(free0.last()) && h_v == h_k);
            if let Some(h) = h_k {
                handle = h;
            }
            l = l + 1;
        }
        proof {
            let new = free0.drop_last();
            assert forall|i: int| 0 <= i < new.len() implies #[trigger] old(self)@.valid(new[i]) by {
                assert(old(self)@.valid(old(self)@.free[i]));
            }
            self.lemma_relisted(old(self), new);
        }
        Some(handle)
    }

    /// Put a block back at the end of every pool's free list.
    pub fn release(&mut self, handle: BlockHandle)
        requires
            old(self).wf(),
            old(self)@.valid(handle),
        ensures
            final(self).wf(),
            final(self)@ == old(self)@.with_free(old(self)@.free.push(handle)),
    {
        let n: usize = self.k_pools.len();
        let ghost k0 = self.k_pools@;
        let ghost v0 = self.v_pools@;
        let ghost free0 = k0[0].allocator.free_blocks@;
        let mut l: usize = 0;
        while l < n
            invariant
                l <= n,
                n == k0.len() == v0.len(),
                n > 0,
                self.k_pools@.len() == n,
                self.v_pools@.len() == n,
                old(self).wf(),
                k0 == old(self).k_pools@,
                v0 == old(self).v_pools@,
                free0 == k0[0].allocator.free_blocks@,
                forall|i: int| l <= i < n ==> #[trigger] self.k_pools@[i] == k0[i],
                forall|i: int| l <= i < n ==> #[trigger] self.v_pools@[i] == v0[i],
                forall|i: int|
                    0 <= i < l ==> Self::relisted(
                        k0[i],
                        #[trigger] self.k_pools@[i],
                        free0.push(handle),
                    ),
                forall|i: int|
                    0 <= i < l ==> Self::relisted(
                        v0[i],
                        #[trigger] self.v_pools@[i],
                        free0.push(handle),
                    ),
            decreases n - l,
        {
            assert(self.k_pools@[l as int] == k0[l as int]);
            assert(self.v_pools@[l as int] == v0[l as int]);
            assert(old(self).in_step(k0[l as int]));
            assert(old(self).in_step(v0[l as int]));
            self.k_pools[l].allocator.free(handle);
            self.v_pools[l].allocator.free(handle);
            l = l + 1;
        }
        proof {
            let new = free0.push(handle);
            assert forall|i: int| 0 <= i < new.len() implies #[trigger] old(self)@.valid(new[i]) by {
                if i < free0.len() {
                    assert(old(self)@.valid(old(self)@.free[i]));
                }
            }
            self.lemma_relisted(old(self), new);
        }
    }

    /// Number of free blocks.
    pub fn free_count(&self) -> (r: usize)
        requires
            self.wf(),
        ensures
            r == self@.free.len(),
    {
        self.k_pools[0].allocator.free_count()
    }

    /// Number of superblock positions, each backed once for every pool.
    pub fn superblock_count(&self) -> (r: usize)
        requires
            self.wf(),
        ensures
            r == self@.backing.len(),
    {
        assert(self.in_step(self.k_pools@[0]));
        self.k_pools[0].allocator.superblock_count()
    }

    /// Number of blocks, free or taken.
    pub fn total_blocks(&self) -> (r: usize)
        requires
            self.wf(),
        ensures
            r == self@.backing.len() * self@.blocks_per_superblock,
    {
        assert(self.in_step(self.k_pools@[0]));
        self.k_pools[0].allocator.total_blocks_allocated()
    }

    /// Blocks in one superblock.
    pub fn blocks_per_superblock(&self) -> (r: usize)
        requires
            self.wf(),
        ensures
            r == self@.blocks_per_superblock,
    {
        self.k_pools[0].allocator.blocks_per_superblock
    }

    /// Byte offset of a block within each region, or `None` when its
    /// superblock does not exist.
    pub fn block_offset(&self, handle: BlockHandle) -> (r: Option<usize>)
        requires
            self.wf(),
            handle.superblock_idx < self@.backing.len() ==> self@.offset(handle) <= usize::MAX,
        ensures
            r == if handle.superblock_idx < self@.backing.len() {
                Some(self@.offset(handle) as usize)
            } else {
                None::<usize>
            },
    {
        let i: usize = handle.superblock_idx as usize;
        assert(self.in_step(self.k_pools@[0]));
        if i < self.k_pools[0].superblocks.len() {
            let ghost base = self.k_pools@[0].superblocks@[i as int].va_base as int;
            assert(base == i * SUPERBLOCK_SIZE);
            assert(0 <= handle.block_index * self@.block_bytes <= self@.offset(handle)) by (nonlinear_arith)
                requires
                    self@.offset(handle) == base + handle.block_index * self@.block_bytes,
                    base >= 0,
                    handle.block_index >= 0,
                    self@.block_bytes >= 0,
            ;
            let delta: usize = handle.block_index as usize * self.k_pools[0].allocator.block_bytes;
            Some(self.k_pools[0].superblocks[i].va_base + delta)
        } else {
            None
        }
    }

    /// Blocks are not empty.
    pub proof fn lemma_block_bytes_positive(&self)
        requires
            self.wf(),
        ensures
            0 < self@.block_bytes <= SUPERBLOCK_SIZE,
            self@.blocks_per_superblock > 0,
    {
        assert(self.in_step(self.k_pools@[0]));
        vstd::arithmetic::div_mod::lemma_div_is_ordered(
            self@.block_bytes as int,
            SUPERBLOCK_SIZE as int,
            self@.block_bytes as int,
        );
    }

    /// An existing block lies within the mapped part of its region.
    pub proof fn lemma_offset_fits(&self, h: BlockHandle)
        requires
            self.wf(),
            self@.valid(h),
        ensures
            0 <= self@.offset(h),
            self@.offset(h) + self@.block_bytes <= (h.superblock_idx + 1) * SUPERBLOCK_SIZE,
            (h.superblock_idx + 1) * SUPERBLOCK_SIZE <= self@.backing.len() * SUPERBLOCK_SIZE
                <= usize::MAX,
    {
        assert(self.in_step(self.k_pools@[0]));
        let bb = self@.block_bytes as int;
        let bps = self@.blocks_per_superblock as int;
        vstd::arithmetic::div_mod::lemma_fundamental_div_mod(SUPERBLOCK_SIZE as int, bb);
        assert(h.block_index * bb + bb <= bps * bb) by (nonlinear_arith)
            requires
                h.block_index < bps,
                bb > 0,
        ;
        assert(bps * bb == bb * bps) by (nonlinear_arith);
        assert(h.block_index * bb >= 0) by (nonlinear_arith)
            requires
                bb > 0,
                h.block_index >= 0,
        ;
    }

    /// `after` is `before` with the free list `free`.
    pub open spec fn relisted(
        before: LayerKvPool,
        after: LayerKvPool,
        free: Seq<BlockHandle>,
    ) -> bool {
        &&& after.superblocks@ == before.superblocks@
        &&& after.allocator.block_bytes == before.allocator.block_bytes
        &&& after.allocator.blocks_per_superblock == before.allocator.blocks_per_superblock
        &&& after.allocator.superblocks_added == before.allocator.superblocks_added
        &&& after.allocator.free_blocks@ == free
    }

    /// Pools that all received the same free list of existing blocks are
    /// still in step.
    proof fn lemma_relisted(&self, before: &LayerPools, free: Seq<BlockHandle>)
        requires
            before.wf(),
            self.k_pools@.len() == before.k_pools@.len(),
            self.v_pools@.len() == before.v_pools@.len(),
            forall|i: int| 0 <= i < free.len() ==> #[trigger] before@.valid(free[i]),
            forall|i: int|
                0 <= i < before.k_pools@.len() ==> Self::relisted(
                    before.k_pools@[i],
                    #[trigger] self.k_pools@[i],
                    free,
                ),
            forall|i: int|
                0 <= i < before.v_pools@.len() ==> Self::relisted(
                    before.v_pools@[i],
                    #[trigger] self.v_pools@[i],
                    free,
                ),
        ensures
            self.wf(),
            self@ == before@.with_free(free),
    {
        let n = before.k_pools@.len() as int;
        assert(Self::relisted(before.k_pools@[0], self.k_pools@[0], free));
        assert forall|l: int| 0 <= l < n implies self.in_step(#[trigger] self.k_pools@[l]) by {
            assert(before.in_step(before.k_pools@[l]));
            assert(before.in_step(before.k_pools@[0]));
        }
        assert forall|l: int| 0 <= l < n implies self.in_step(#[trigger] self.v_pools@[l]) by {
            assert(before.in_step(before.v_pools@[l]));
            assert(before.in_step(before.k_pools@[0]));
        }
        assert forall|i: int| 0 <= i < before@.backing.len() implies #[trigger] self@.backing[i]
            =~= before@.backing[i] by {
            assert forall|j: int| 0 <= j < 2 * n implies self.backing_of(i)[j]
                == before.backing_of(i)[j] by {
                let h = j / 2;
                assert(Self::relisted(before.k_pools@[h], self.k_pools@[h], free));
                assert(Self::relisted(before.v_pools@[h], self.v_pools@[h], free));
            }
        }
        assert(self@.backing =~= before@.backing);
        assert(self@ == before@.with_free(free));
        assert forall|i: int| 0 <= i < self@.free.len() implies #[trigger] self@.valid(
            self@.free[i],
        ) by {
            assert(before@.valid(free[i]));
        }
    }
}

} // verus!
