use vstd::prelude::*;

use crate::cache::paged_kv::PagedKvCache;
use crate::kcmm::pool::PoolError;
use crate::kcmm::pool_model;
use crate::kcmm::pool_model::PoolView;
use crate::kcmm::superblock::{INDEX_COUNT, SUPERBLOCK_SIZE};

verus! {

/// KV data of one evicted sequence, held on the host.
#[derive(Debug)]
pub struct EvictedSeqData {
    /// K data per layer, the blocks one after the other.
    pub k_layers: Vec<Vec<u8>>,
    /// V data per layer.
    pub v_layers: Vec<Vec<u8>>,
    /// Number of KV blocks of the sequence.
    pub num_blocks: usize,
    /// Sequence length at the time of eviction.
    pub seq_len: usize,
}

impl EvictedSeqData {
    /// Holds nothing.
    pub open spec fn is_dummy(&self) -> bool {
        &&& self.k_layers@.len() == 0
        &&& self.v_layers@.len() == 0
        &&& self.num_blocks == 0
        &&& self.seq_len == 0
    }

    /// An empty placeholder, for sequences whose data the pool keeps itself.
    pub fn dummy() -> (r: Self)
        ensures
            r.is_dummy(),
    {
        EvictedSeqData { k_layers: Vec::new(), v_layers: Vec::new(), num_blocks: 0, seq_len: 0 }
    }

    /// Bytes held in the first `n` buffers.
    pub open spec fn buffer_bytes(buffers: Seq<Vec<u8>>, n: nat) -> nat
        decreases n,
    {
        if n == 0 {
            0
        } else {
            Self::buffer_bytes(buffers, (n - 1) as nat) + buffers[n - 1]@.len()
        }
    }

    /// Bytes held for all layers.
    pub open spec fn host_bytes(&self) -> nat {
        Self::buffer_bytes(self.k_layers@, self.k_layers@.len()) + Self::buffer_bytes(
            self.v_layers@,
            self.v_layers@.len(),
        )
    }

    /// Counting more buffers counts no fewer bytes.
    proof fn lemma_buffer_bytes_monotone(buffers: Seq<Vec<u8>>, i: nat, n: nat)
        requires
            i <= n,
        ensures
            Self::buffer_bytes(buffers, i) <= Self::buffer_bytes(buffers, n),
        decreases n,
    {
        if i < n {
            Self::lemma_buffer_bytes_monotone(buffers, i, (n - 1) as nat);
        }
    }

    fn count_bytes(buffers: &Vec<Vec<u8>>) -> (r: usize)
        requires
            Self::buffer_bytes(buffers@, buffers@.len()) <= usize::MAX,
        ensures
            r == Self::buffer_bytes(buffers@, buffers@.len()),
    {
        let mut total: usize = 0;
        let mut i: usize = 0;
        while i < buffers.len()
            invariant
                i <= buffers@.len(),
                Self::buffer_bytes(buffers@, buffers@.len()) <= usize::MAX,
                total == Self::buffer_bytes(buffers@, i as nat),
            decreases buffers@.len() - i,
        {
            proof {
                Self::lemma_buffer_bytes_monotone(buffers@, (i + 1) as nat, buffers@.len());
            }
            total = total + buffers[i].len();
            i = i + 1;
        }
        total
    }
}

/// Copy of one layer's part of a block between GPU memory and a host buffer:
/// K at `va_k` and V at `va_v`, both at `host_offset` of the layer's buffers.
#[derive(Debug, Clone, Copy, PartialEq, Eq, Structural)]
pub struct LayerCopy {
    pub layer: usize,
    pub va_k: u64,
    pub va_v: u64,
    pub host_offset: usize,
    pub nbytes: usize,
}

/// The copies that move a sequence to host buffers or back.
#[derive(Debug)]
pub struct SwapPlan {
    pub num_blocks: usize,
    pub seq_len: usize,
    /// Size of each layer's K and V buffer.
    pub bytes_per_layer: usize,
    /// Layer by layer, the blocks in order.
    pub copies: Vec<LayerCopy>,
}

/// Why a sequence was not moved.
#[derive(Debug, Clone, Copy, PartialEq, Eq, Structural)]
pub enum SwapError {
    /// The sequence is unknown or has blocks that are not in use.
    SequenceInvalid(usize),
    /// The blocks to restore into could not be allocated.
    Alloc(PoolError),
}

impl PoolView {
    /// The copy of block `i`, at `va_offset`, of layer `l`.
    pub open spec fn layer_copy(self, l: int, i: int, va_offset: usize) -> LayerCopy {
        LayerCopy {
            layer: l as usize,
            va_k: (self.va_k[l] + va_offset) as u64,
            va_v: (self.va_v[l] + va_offset) as u64,
            host_offset: (i * self.shape.block_bytes) as usize,
            nbytes: self.shape.block_bytes,
        }
    }

    /// All copies of the blocks at the given offsets, layer by layer.
    pub open spec fn layer_copies(self, va_offsets: Seq<usize>) -> Seq<LayerCopy> {
        let n = va_offsets.len() as int;
        Seq::new(
            (self.shape.num_layers * n) as nat,
            |k: int| self.layer_copy(k / n, k % n, va_offsets[k % n]),
        )
    }

    /// Offsets of the blocks of a table.
    pub open spec fn table_offsets(self, table: Seq<u32>) -> Seq<usize> {
        Seq::new(table.len(), |k: int| self.blocks[table[k] as int].va_offset)
    }

    /// Bytes of `n` blocks over K and V of all layers.
    pub open spec fn swap_bytes(self, n: int) -> int {
        n * self.shape.block_bytes * self.shape.num_layers * 2
    }
}

/// Accounts for the bytes that are held on the host for evicted sequences,
/// and plans the copies.
#[derive(Debug)]
pub struct SwapManager {
    pub total_swapped_bytes: usize,
}

impl SwapManager {
    /// Nothing is held.
    pub fn new() -> (r: Self)
        ensures
            r.total_swapped_bytes == 0,
    {
        SwapManager { total_swapped_bytes: 0 }
    }

    /// Bytes held on the host.
    pub fn total_swapped_bytes(&self) -> (r: usize)
        ensures
            r == self.total_swapped_bytes,
    {
        self.total_swapped_bytes
    }

    /// The copies of blocks at the given offsets, layer by layer.
    fn layer_copies(cache: &PagedKvCache, va_offsets: &Vec<usize>) -> (r: Vec<LayerCopy>)
        requires
            cache.wf(),
            cache@.regions_fit(),
            forall|i: int|
                0 <= i < va_offsets@.len() ==> cache@.mapped(#[trigger] va_offsets@[i] as int),
            va_offsets@.len() * cache@.shape.block_bytes <= usize::MAX,
        ensures
            r@ == cache@.layer_copies(va_offsets@),
    {
        let n: usize = va_offsets.len();
        let layers: usize = cache.pool.num_layers();
        let bb: usize = cache.pool.block_bytes();
        let mut out: Vec<LayerCopy> = Vec::new();
        let mut l: usize = 0;
        while l < layers
            invariant
                cache.wf(),
                cache@.regions_fit(),
                forall|i: int|
                    0 <= i < va_offsets@.len() ==> cache@.mapped(#[trigger] va_offsets@[i] as int),
                n == va_offsets@.len(),
                layers == cache@.shape.num_layers,
                bb == cache@.shape.block_bytes,
                n * bb <= usize::MAX,
                l <= layers,
                out@.len() == l * n,
                forall|k: int|
                    0 <= k < out@.len() ==> #[trigger] out@[k] == cache@.layer_copy(
                        k / (n as int),
                        k % (n as int),
                        va_offsets@[k % (n as int)],
                    ),
            decreases layers - l,
        {
            assert(cache@.region(l as int, false) + cache@.pools.backing.len() * SUPERBLOCK_SIZE
                <= u64::MAX);
            assert(cache@.region(l as int, true) + cache@.pools.backing.len() * SUPERBLOCK_SIZE
                <= u64::MAX);
            let va_k: u64 = cache.va_k(l);
            let va_v: u64 = cache.va_v(l);
            let mut i: usize = 0;
            while i < n
                invariant
                    cache.wf(),
                    forall|k: int|
                        0 <= k < va_offsets@.len() ==> cache@.mapped(
                            #[trigger] va_offsets@[k] as int,
                        ),
                    n == va_offsets@.len(),
                    layers == cache@.shape.num_layers,
                    bb == cache@.shape.block_bytes,
                    n * bb <= usize::MAX,
                    l < layers,
                    va_k == cache@.va_k[l as int],
                    va_v == cache@.va_v[l as int],
                    va_k + cache@.pools.backing.len() * SUPERBLOCK_SIZE <= u64::MAX,
                    va_v + cache@.pools.backing.len() * SUPERBLOCK_SIZE <= u64::MAX,
                    i <= n,
                    out@.len() == l * n + i,
                    forall|k: int|
                        0 <= k < out@.len() ==> #[trigger] out@[k] == cache@.layer_copy(
                            k / (n as int),
                            k % (n as int),
                            va_offsets@[k % (n as int)],
                        ),
                decreases n - i,
            {
                proof {
                    assert(cache@.mapped(va_offsets@[i as int] as int));
                    assert(0 <= i * bb <= n * bb) by (nonlinear_arith)
                        requires
                            0 <= i < n,
                            bb >= 0,
                    ;
                    vstd::arithmetic::div_mod::lemma_fundamental_div_mod_converse(
                        l * n + i,
                        n as int,
                        l as int,
                        i as int,
                    );
                }
                out.push(
                    LayerCopy {
                        layer: l,
                        va_k: va_k + va_offsets[i] as u64,
                        va_v: va_v + va_offsets[i] as u64,
                        host_offset: i * bb,
                        nbytes: bb,
                    },
                );
                i = i + 1;
            }
            proof {
                assert((l + 1) * n == l * n + n) by (nonlinear_arith);
            }
            l = l + 1;
        }
        assert(out@ =~= cache@.layer_copies(va_offsets@));
        out
    }

    /// Plan the copies that move a sequence's blocks to host buffers. A
    /// sequence without blocks needs none.
    pub fn plan_evict(&self, cache: &PagedKvCache, seq_idx: usize) -> (r: Result<
        SwapPlan,
        SwapError,
    >)
        requires
            cache.wf(),
            cache@.regions_fit(),
            seq_idx < cache@.sequences.len() ==> cache@.sequences[seq_idx as int].block_table.len()
                * cache@.shape.block_bytes <= usize::MAX,
        ensures
            ({
                let table = cache@.sequences[seq_idx as int].block_table;
                let known = seq_idx < cache@.sequences.len() && forall|k: int|
                    0 <= k < table.len() ==> cache@.used(#[trigger] table[k]);
                &&& !known ==> r == Err::<SwapPlan, SwapError>(SwapError::SequenceInvalid(seq_idx))
                &&& known ==> (r matches Ok(p) && {
                    &&& p.num_blocks == table.len()
                    &&& p.seq_len == cache@.sequences[seq_idx as int].seq_len
                    &&& p.bytes_per_layer == table.len() * cache@.shape.block_bytes
                    &&& p.copies@ == cache@.layer_copies(cache@.table_offsets(table))
                })
            }),
    {
        match cache.get_block_va_offsets(seq_idx) {
            None => Err(SwapError::SequenceInvalid(seq_idx)),
            Some(va_offsets) => {
                let ghost table = cache@.sequences[seq_idx as int].block_table;
                proof {
                    assert(va_offsets@ =~= cache@.table_offsets(table));
                    assert forall|i: int| 0 <= i < va_offsets@.len() implies cache@.mapped(
                        #[trigger] va_offsets@[i] as int,
                    ) by {
                        assert(cache@.used(table[i]));
                        let info = cache@.blocks[table[i] as int];
                        assert(cache@.block_ok(info));
                        pool_model::lemma_offset_mapped(cache@, info.handle());
                    }
                }
                let num_blocks: usize = va_offsets.len();
                let copies: Vec<LayerCopy> = Self::layer_copies(cache, &va_offsets);
                Ok(
                    SwapPlan {
                        num_blocks,
                        seq_len: cache.get_seq_len(seq_idx),
                        bytes_per_layer: num_blocks * cache.pool.block_bytes(),
                        copies,
                    },
                )
            },
        }
    }

    /// A sequence of `num_blocks` blocks was copied to host buffers.
    pub fn evicted(&mut self, cache: &PagedKvCache, num_blocks: usize)
        requires
            cache.wf(),
            num_blocks * cache@.shape.block_bytes <= usize::MAX,
            cache@.swap_bytes(num_blocks as int) <= usize::MAX,
            old(self).total_swapped_bytes + cache@.swap_bytes(num_blocks as int) <= usize::MAX,
        ensures
            final(self).total_swapped_bytes == old(self).total_swapped_bytes + cache@.swap_bytes(
                num_blocks as int,
            ),
    {
        proof {
            lemma_swap_product(
                num_blocks as int,
                cache@.shape.block_bytes as int,
                cache@.shape.num_layers as int,
            );
        }
        let bytes: usize = num_blocks * cache.pool.block_bytes() * cache.pool.num_layers() * 2;
        self.total_swapped_bytes = self.total_swapped_bytes + bytes;
    }

    /// Allocate blocks for an evicted sequence and plan the copies back into
    /// them. Returns the new block table.
    pub fn begin_restore(
        &self,
        cache: &mut PagedKvCache,
        num_blocks: usize,
        seq_len: usize,
        grants: &Vec<Vec<u64>>,
    ) -> (r: Result<(Vec<u32>, SwapPlan), SwapError>)
        requires
            old(cache).wf(),
            old(cache).pool.grants_ok(grants@),
            old(cache)@.blocks.len() + num_blocks <= INDEX_COUNT,
            num_blocks * old(cache)@.shape.block_bytes <= usize::MAX,
            forall|l: int, is_v: bool|
                0 <= l < old(cache)@.shape.num_layers ==> #[trigger] old(cache)@.region(l, is_v) + (
                old(cache)@.pools.backing.len() + grants@.len()) * SUPERBLOCK_SIZE <= u64::MAX,
        ensures
            final(cache).wf(),
            final(cache).cfg == old(cache).cfg,
            ({
                let (state, table, used) = old(cache)@.allocated_many(
                    num_blocks as nat,
                    pool_model::grants_view(grants@),
                    0,
                );
                &&& final(cache)@ == state
                &&& table.len() != num_blocks ==> r == Err::<(Vec<u32>, SwapPlan), SwapError>(
                    SwapError::Alloc(PoolError::OutOfMemory),
                )
                &&& table.len() == num_blocks ==> (r matches Ok((t, p)) && {
                    &&& t@ == table
                    &&& p.num_blocks == num_blocks
                    &&& p.seq_len == seq_len
                    &&& p.bytes_per_layer == num_blocks * state.shape.block_bytes
                    &&& p.copies@ == state.layer_copies(state.table_offsets(table))
                })
            }),
    {
        let ghost s0 = cache@;
        let ghost gs = pool_model::grants_view(grants@);
        match cache.alloc_sequence(num_blocks, grants) {
            Err(e) => Err(SwapError::Alloc(e)),
            Ok(table) => {
                let mut va_offsets: Vec<usize> = Vec::new();
                proof {
                    lemma_allocated_table(s0, num_blocks as nat, gs);
                }
                let mut i: usize = 0;
                while i < table.len()
                    invariant
                        cache.wf(),
                        i <= table@.len(),
                        va_offsets@.len() == i,
                        forall|k: int|
                            0 <= k < table@.len() ==> (#[trigger] table@[k]) < cache@.blocks.len(),
                        forall|k: int|
                            0 <= k < i ==> #[trigger] va_offsets@[k]
                                == cache@.blocks[table@[k] as int].va_offset,
                    decreases table@.len() - i,
                {
                    va_offsets.push(cache.pool.block_info[table[i] as usize].va_offset);
                    i = i + 1;
                }
                proof {
                    assert(va_offsets@ =~= cache@.table_offsets(table@));
                    assert forall|k: int| 0 <= k < va_offsets@.len() implies cache@.mapped(
                        #[trigger] va_offsets@[k] as int,
                    ) by {
                        let info = cache@.blocks[table@[k] as int];
                        assert(cache@.block_ok(info));
                        pool_model::lemma_offset_mapped(cache@, info.handle());
                    }
                    assert forall|l: int, is_v: bool|
                        0 <= l < cache@.shape.num_layers implies #[trigger] cache@.region(l, is_v)
                        + cache@.pools.backing.len() * SUPERBLOCK_SIZE <= u64::MAX by {
                        assert(cache@.region(l, is_v) == s0.region(l, is_v));
                        let a = cache@.pools.backing.len() as int;
                        let b = (s0.pools.backing.len() + grants@.len()) as int;
                        assert(a * SUPERBLOCK_SIZE <= b * SUPERBLOCK_SIZE);
                    }
                }
                let copies: Vec<LayerCopy> = Self::layer_copies(cache, &va_offsets);
                Ok(
                    (
                        table,
                        SwapPlan {
                            num_blocks,
                            seq_len,
                            bytes_per_layer: num_blocks * cache.pool.block_bytes(),
                            copies,
                        },
                    ),
                )
            },
        }
    }

    /// A sequence of `num_blocks` blocks was copied back to the GPU.
    pub fn restored(&mut self, cache: &PagedKvCache, num_blocks: usize)
        requires
            cache.wf(),
            num_blocks * cache@.shape.block_bytes <= usize::MAX,
            cache@.swap_bytes(num_blocks as int) <= usize::MAX,
        ensures
            final(self).total_swapped_bytes == deducted(
                old(self).total_swapped_bytes as int,
                cache@.swap_bytes(num_blocks as int),
            ),
    {
        proof {
            lemma_swap_product(
                num_blocks as int,
                cache@.shape.block_bytes as int,
                cache@.shape.num_layers as int,
            );
        }
        let bytes: usize = num_blocks * cache.pool.block_bytes() * cache.pool.num_layers() * 2;
        self.total_swapped_bytes = self.total_swapped_bytes.saturating_sub(bytes);
    }

    /// Host buffers are given up. Returns their size.
    pub fn drop_swapped(&mut self, data: &EvictedSeqData) -> (freed: usize)
        requires
            data.host_bytes() <= usize::MAX,
        ensures
            freed == data.host_bytes(),
            final(self).total_swapped_bytes == deducted(
                old(self).total_swapped_bytes as int,
                freed as int,
            ),
    {
        let freed: usize = EvictedSeqData::count_bytes(&data.k_layers)
            + EvictedSeqData::count_bytes(&data.v_layers);
        self.total_swapped_bytes = self.total_swapped_bytes.saturating_sub(freed);
        freed
    }
}

/// The factors of the bytes to swap are no larger than the whole.
proof fn lemma_swap_product(n: int, bb: int, l: int)
    requires
        n >= 0,
        bb >= 0,
        l >= 1,
    ensures
        0 <= n * bb <= n * bb * l <= n * bb * l * 2,
{
    assert(0 <= n * bb) by (nonlinear_arith)
        requires
            n >= 0,
            bb >= 0,
    ;
    assert(n * bb <= n * bb * l) by (nonlinear_arith)
        requires
            0 <= n * bb,
            l >= 1,
    ;
}

/// Blocks that were just allocated have block indices, and the regions do not
/// move.
proof fn lemma_allocated_table(s: PoolView, n: nat, grants: Seq<Seq<u64>>)
    requires
        s.wf(),
        s.blocks.len() + n <= INDEX_COUNT,
    ensures
        ({
            let (t, table, used) = s.allocated_many(n, grants, 0);
            &&& t.va_k == s.va_k
            &&& t.va_v == s.va_v
            &&& t.shape == s.shape
            &&& t.free_idx.len() <= s.free_idx.len()
            &&& t.pools.backing.len() == s.pools.backing.len() + used
            &&& used <= grants.len()
            &&& s.blocks.len() <= t.blocks.len() <= s.blocks.len() + n
            &&& forall|k: int| 0 <= k < table.len() ==> (#[trigger] table[k]) < t.blocks.len()
            &&& forall|k: int|
                0 <= k < t.free_idx.len() ==> (#[trigger] t.free_idx[k]) < t.blocks.len()
        }),
    decreases n,
{
    if n > 0 {
        lemma_allocated_table(s, (n - 1) as nat, grants);
        let (t, table, used) = s.allocated_many((n - 1) as nat, grants, 0);
        if table.len() == n - 1 && t.next_physical(grants, used) is Some {
            let taken = t.physical_taken(grants, used);
            let u = t.allocated(grants, used, 0);
            if t.free_idx.len() > 0 {
                assert(t.free_idx[t.free_idx.len() - 1] == taken.next_index());
                assert forall|k: int| 0 <= k < u.free_idx.len() implies (#[trigger] u.free_idx[k])
                    < u.blocks.len() by {
                    assert(u.free_idx[k] == t.free_idx[k]);
                }
            }
        }
    }
}

/// An account after `bytes` were taken off it; it does not go below zero.
pub open spec fn deducted(total: int, bytes: int) -> int {
    if total <= bytes {
        0
    } else {
        total - bytes
    }
}

/// Swapping a sequence out and in again leaves the account as it was.
pub proof fn law_restore_settles_evict(s: PoolView, before: usize, num_blocks: usize)
    ensures
        deducted(
            before + s.swap_bytes(num_blocks as int),
            s.swap_bytes(num_blocks as int),
        ) == before,
{
}

/// Advance the epoch counter and return the value it had. After the largest
/// value the counter starts over.
pub fn advance_epoch(epoch: &mut u64) -> (r: u64)
    ensures
        r == *old(epoch),
        *final(epoch) == if *old(epoch) == u64::MAX {
            0
        } else {
            (*old(epoch) + 1) as u64
        },
{
    let r: u64 = *epoch;
    *epoch = if r == u64::MAX {
        0
    } else {
        r + 1
    };
    r
}

/// Read the epoch counter.
pub fn current_epoch(epoch: &u64) -> (r: u64)
    ensures
        r == *epoch,
{
    *epoch
}

} // verus!
