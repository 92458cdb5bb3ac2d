use vstd::prelude::*;

verus! {

/// Granularity of physical GPU allocations: 2 MiB.
pub const SUPERBLOCK_SIZE: usize = 2_097_152;

/// Bytes of one half-precision element.
pub const HALF_BYTES: usize = 2;

/// One 2 MiB physical allocation and its place in a layer's K or V region.
#[derive(Debug, Clone, Copy, PartialEq, Eq)]
pub struct SuperblockInfo {
    /// Physical memory handle handed out by the driver.
    pub phys_handle: u64,
    /// Byte offset within the owning region where this superblock starts.
    pub va_base: usize,
}

/// Handle to a block carved from a superblock.
#[derive(Debug, Clone, Copy, PartialEq, Eq, Structural, Hash)]
pub struct BlockHandle {
    /// Index of the superblock in the pool's superblock list.
    pub superblock_idx: u32,
    /// Index of the block within the superblock.
    pub block_index: u32,
}

impl BlockHandle {
    /// The handle as one number.
    pub open spec fn spec_key(self) -> u64 {
        (self.superblock_idx * 0x1_0000_0000 + self.block_index) as u64
    }

    /// The handle as one number; distinct handles have distinct keys.
    #[verifier::when_used_as_spec(spec_key)]
    pub fn key(self) -> (r: u64)
        ensures
            r == self.spec_key(),
    {
        self.superblock_idx as u64 * 0x1_0000_0000 + self.block_index as u64
    }

    /// Distinct handles have distinct keys.
    pub proof fn law_key_injective(a: BlockHandle, b: BlockHandle)
        ensures
            a.key() == b.key() <==> a == b,
    {
    }
}

/// A block size that divides a superblock evenly.
pub open spec fn valid_block_bytes(block_bytes: int) -> bool {
    0 < block_bytes <= SUPERBLOCK_SIZE && SUPERBLOCK_SIZE as int % block_bytes == 0
}

/// How many things an index of 32 bits can tell apart.
pub const INDEX_COUNT: u64 = 0x1_0000_0000;

/// Whether `count` superblocks can be numbered and addressed.
pub open spec fn superblocks_fit(count: int) -> bool {
    count <= INDEX_COUNT && count * SUPERBLOCK_SIZE <= usize::MAX
}

/// The blocks of superblock `sb`, in index order.
pub open spec fn superblock_handles(sb: nat, blocks_per_superblock: nat) -> Seq<BlockHandle> {
    Seq::new(
        blocks_per_superblock,
        |i: int| BlockHandle { superblock_idx: sb as u32, block_index: i as u32 },
    )
}

/// Fixed-size block allocator backed by 2 MiB superblocks.
///
/// Keeps a free list of blocks, used last-in first-out. When the list runs
/// out the caller adds a superblock, which appends all of its blocks.
#[derive(Debug)]
pub struct PhysicalBlockAllocator {
    /// Size of each block in bytes.
    pub block_bytes: usize,
    /// Number of blocks that fit in one superblock.
    pub blocks_per_superblock: usize,
    /// Free block handles available for allocation.
    pub free_blocks: Vec<BlockHandle>,
    /// Number of superblocks added so far.
    pub superblocks_added: usize,
}

impl PhysicalBlockAllocator {
    /// The block size divides a superblock and the block count follows from it.
    pub open spec fn wf(&self) -> bool {
        &&& valid_block_bytes(self.block_bytes as int)
        &&& self.blocks_per_superblock == SUPERBLOCK_SIZE as int / self.block_bytes as int
        &&& superblocks_fit(self.superblocks_added as int)
    }

    /// An allocator for blocks of `elem_count` half-precision elements.
    pub fn new(elem_count: usize) -> (r: Self)
        requires
            valid_block_bytes(elem_count * HALF_BYTES),
        ensures
            r.wf(),
            r.block_bytes == elem_count * HALF_BYTES,
            r.free_blocks@ == Seq::<BlockHandle>::empty(),
            r.superblocks_added == 0,
    {
        Self::new_with_block_bytes(elem_count * HALF_BYTES)
    }

    /// An allocator for blocks of `block_bytes` bytes.
    pub fn new_with_block_bytes(block_bytes: usize) -> (r: Self)
        requires
            valid_block_bytes(block_bytes as int),
        ensures
            r.wf(),
            r.block_bytes == block_bytes,
            r.free_blocks@ == Seq::<BlockHandle>::empty(),
            r.superblocks_added == 0,
    {
        PhysicalBlockAllocator {
            block_bytes,
            blocks_per_superblock: SUPERBLOCK_SIZE / block_bytes,
            free_blocks: Vec::new(),
            superblocks_added: 0,
        }
    }

    /// Take the most recently freed block, or `None` when the list is empty.
    pub fn try_allocate(&mut self) -> (r: Option<BlockHandle>)
        ensures
            final(self).block_bytes == old(self).block_bytes,
            final(self).blocks_per_superblock == old(self).blocks_per_superblock,
            final(self).superblocks_added == old(self).superblocks_added,
            old(self).free_blocks@.len() == 0 ==> r is None && final(self).free_blocks@ == old(self).free_blocks@,
            old(self).free_blocks@.len() > 0 ==> r == Some(old(self).free_blocks@.last())
                && final(self).free_blocks@ == old(self).free_blocks@.drop_last(),
    {
        self.free_blocks.pop()
    }

    /// Append every block of a new superblock to the free list.
    pub fn add_superblock(&mut self)
        requires
            old(self).wf(),
            superblocks_fit(old(self).superblocks_added + 1),
        ensures
            final(self).wf(),
            final(self).block_bytes == old(self).block_bytes,
            final(self).blocks_per_superblock == old(self).blocks_per_superblock,
            final(self).superblocks_added == old(self).superblocks_added + 1,
            final(self).free_blocks@ == old(self).free_blocks@ + superblock_handles(
                old(self).superblocks_added as nat,
                old(self).blocks_per_superblock as nat,
            ),
    {
        let sb_idx: usize = self.superblocks_added;
        self.superblocks_added = sb_idx + 1;
        let bps: usize = self.blocks_per_superblock;
        proof {
            vstd::arithmetic::div_mod::lemma_div_is_ordered_by_denominator(
                SUPERBLOCK_SIZE as int,
                1,
                self.block_bytes as int,
            );
        }
        let mut i: usize = 0;
        while i < bps
            invariant
                i <= bps <= SUPERBLOCK_SIZE,
                sb_idx < INDEX_COUNT,
                self.block_bytes == old(self).block_bytes,
                self.blocks_per_superblock == old(self).blocks_per_superblock == bps,
                self.superblocks_added == sb_idx + 1,
                old(self).superblocks_added == sb_idx,
                self.free_blocks@ == old(self).free_blocks@ + superblock_handles(
                    sb_idx as nat,
                    bps as nat,
                ).take(i as int),
            decreases bps - i,
        {
            self.free_blocks.push(BlockHandle { superblock_idx: sb_idx as u32, block_index: i as u32 });
            i = i + 1;
        }
        proof {
            let all = superblock_handles(sb_idx as nat, bps as nat);
            assert(all.take(bps as int) =~= all);
        }
    }

    /// Return a block to the free list.
    pub fn free(&mut self, handle: BlockHandle)
        ensures
            final(self).block_bytes == old(self).block_bytes,
            final(self).blocks_per_superblock == old(self).blocks_per_superblock,
            final(self).superblocks_added == old(self).superblocks_added,
            final(self).free_blocks@ == old(self).free_blocks@.push(handle),
    {
        self.free_blocks.push(handle);
    }

    /// Number of blocks in the free list.
    pub fn free_count(&self) -> (r: usize)
        ensures
            r == self.free_blocks@.len(),
    {
        self.free_blocks.len()
    }

    /// Total number of blocks over all superblocks, taken or free.
    pub fn total_blocks_allocated(&self) -> (r: usize)
        requires
            self.wf(),
        ensures
            r == self.superblocks_added * self.blocks_per_superblock,
    {
        proof {
            vstd::arithmetic::div_mod::lemma_div_is_ordered_by_denominator(
                SUPERBLOCK_SIZE as int,
                1,
                self.block_bytes as int,
            );
            assert(self.superblocks_added * self.blocks_per_superblock <= self.superblocks_added
                * SUPERBLOCK_SIZE) by (nonlinear_arith)
                requires
                    self.blocks_per_superblock <= SUPERBLOCK_SIZE,
            ;
        }
        self.superblocks_added * self.blocks_per_superblock
    }

    /// Number of superblocks added.
    pub fn superblock_count(&self) -> (r: usize)
        ensures
            r == self.superblocks_added,
    {
        self.superblocks_added
    }
}

/// Physical memory pool for one layer's K or V cache.
#[derive(Debug)]
pub struct LayerKvPool {
    pub allocator: PhysicalBlockAllocator,
    pub superblocks: Vec<SuperblockInfo>,
}

impl LayerKvPool {
    /// Superblock `i` is mapped `i` superblocks into the layer's region.
    pub open spec fn wf(&self) -> bool {
        &&& self.allocator.wf()
        &&& self.superblocks@.len() == self.allocator.superblocks_added
        &&& forall|i: int|
            0 <= i < self.superblocks@.len() ==> #[trigger] self.superblocks@[i].va_base == i
                * SUPERBLOCK_SIZE
    }

    /// A pool for blocks of `elem_count` half-precision elements.
    pub fn new(elem_count: usize) -> (r: Self)
        requires
            valid_block_bytes(elem_count * HALF_BYTES),
        ensures
            r.wf(),
            r.allocator.block_bytes == elem_count * HALF_BYTES,
            r.allocator.free_blocks@ == Seq::<BlockHandle>::empty(),
            r.allocator.superblocks_added == 0,
    {
        LayerKvPool { allocator: PhysicalBlockAllocator::new(elem_count), superblocks: Vec::new() }
    }

    /// A pool for blocks of `block_bytes` bytes.
    pub fn new_with_block_bytes(block_bytes: usize) -> (r: Self)
        requires
            valid_block_bytes(block_bytes as int),
        ensures
            r.wf(),
            r.allocator.block_bytes == block_bytes,
            r.allocator.free_blocks@ == Seq::<BlockHandle>::empty(),
            r.allocator.superblocks_added == 0,
    {
        LayerKvPool {
            allocator: PhysicalBlockAllocator::new_with_block_bytes(block_bytes),
            superblocks: Vec::new(),
        }
    }

    /// Record a superblock that was mapped right behind the last one, and add
    /// its blocks to the free list. Returns its byte offset in the region.
    pub fn map_superblock(&mut self, phys_handle: u64) -> (va_base: usize)
        requires
            old(self).wf(),
            superblocks_fit(old(self).allocator.superblocks_added + 1),
        ensures
            final(self).wf(),
            va_base == old(self).allocator.superblocks_added * SUPERBLOCK_SIZE,
            final(self).superblocks@ == old(self).superblocks@.push(
                SuperblockInfo { phys_handle, va_base },
            ),
            final(self).allocator.block_bytes == old(self).allocator.block_bytes,
            final(self).allocator.blocks_per_superblock
                == old(self).allocator.blocks_per_superblock,
            final(self).allocator.superblocks_added == old(self).allocator.superblocks_added + 1,
            final(self).allocator.free_blocks@ == old(self).allocator.free_blocks@
                + superblock_handles(
                old(self).allocator.superblocks_added as nat,
                old(self).allocator.blocks_per_superblock as nat,
            ),
    {
        self.allocator.add_superblock();
        let sb_idx: usize = self.allocator.superblock_count() - 1;
        let va_base: usize = sb_idx * SUPERBLOCK_SIZE;
        self.superblocks.push(SuperblockInfo { phys_handle, va_base });
        va_base
    }
}

/// Whether `align` is a power of two.
pub open spec fn is_pow2(align: usize) -> bool {
    exists|n: nat| n < usize::BITS && align == #[trigger] vstd::arithmetic::power2::pow2(n)
}

/// A superblock's size is a power of two.
pub proof fn lemma_superblock_size_pow2()
    ensures
        is_pow2(SUPERBLOCK_SIZE),
{
    vstd::arithmetic::power2::lemma2_to64();
    assert(SUPERBLOCK_SIZE == vstd::arithmetic::power2::pow2(21));
}

/// Align `x` up to the next multiple of `align`, a power of two.
#[inline]
pub fn align_up(x: usize, align: usize) -> (r: usize)
    requires
        is_pow2(align),
        x + align - 1 <= usize::MAX,
    ensures
        r >= x,
        r - x < align,
        r as int % align as int == 0,
{
    proof {
        let n = choose|n: nat| n < usize::BITS && align == #[trigger] vstd::arithmetic::power2::pow2(n);
        vstd::arithmetic::power2::lemma_pow2_pos(n);
    }
    let t: usize = x + (align - 1);
    let m: usize = align - 1;
    let r: usize = t & !m;
    proof {
        let n = choose|n: nat| n < usize::BITS && align == #[trigger] vstd::arithmetic::power2::pow2(n);
        vstd::bits::lemma_usize_low_bits_mask_is_mod(t, n);
        assert(t & m == t % align);
        assert(r == t - (t & m)) by (bit_vector)
            requires
                r == t & !m,
        ;
        vstd::arithmetic::div_mod::lemma_fundamental_div_mod(t as int, align as int);
        vstd::arithmetic::div_mod::lemma_mod_multiples_basic(t as int / align as int, align as int);
        assert(r == align * (t as int / align as int));
        assert(r == (t as int / align as int) * align) by (nonlinear_arith)
            requires
                r == align * (t as int / align as int),
        ;
    }
    r
}

} // verus!
