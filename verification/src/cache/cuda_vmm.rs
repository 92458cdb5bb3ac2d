use vstd::prelude::*;

use crate::kcmm::superblock;
use crate::kcmm::superblock::{align_up, SUPERBLOCK_SIZE};

verus! {

/// Plans the mapping of physical GPU memory into reserved address ranges.
#[derive(Debug, Clone, Copy, PartialEq, Eq, Structural)]
pub struct CudaVmm {
    /// Device ordinal.
    pub device: usize,
    /// Smallest unit that the driver maps.
    pub map_granularity: usize,
}

/// Map `size` bytes of a physical handle, from `phys_offset` on, at
/// `va_base + va_offset`.
#[derive(Debug, Clone, Copy, PartialEq, Eq, Structural)]
pub struct MapOp {
    pub va_base: u64,
    pub va_offset: usize,
    pub phys_handle: u64,
    pub phys_offset: usize,
    pub size: usize,
}

/// Unmap `size` bytes at `va_base + va_offset`.
#[derive(Debug, Clone, Copy, PartialEq, Eq, Structural)]
pub struct UnmapOp {
    pub va_base: u64,
    pub va_offset: usize,
    pub size: usize,
}

/// The regions in the order K of layer 0, V of layer 0, K of layer 1, and so
/// on, as far as both lists go.
pub open spec fn interleaved(va_k: Seq<u64>, va_v: Seq<u64>) -> Seq<u64> {
    let n = if va_k.len() < va_v.len() {
        va_k.len()
    } else {
        va_v.len()
    };
    Seq::new(
        2 * n,
        |j: int|
            if j % 2 == 0 {
                va_k[j / 2]
            } else {
                va_v[j / 2]
            },
    )
}

/// The mappings of one block into every region.
pub open spec fn map_ops(
    regions: Seq<u64>,
    va_offset: usize,
    phys_handle: u64,
    phys_offset: usize,
    size: usize,
) -> Seq<MapOp> {
    regions.map_values(
        |va_base: u64| MapOp { va_base, va_offset, phys_handle, phys_offset, size },
    )
}

/// The mappings of several blocks, one block after the other.
pub open spec fn batch_map_ops(
    regions: Seq<u64>,
    va_offset: usize,
    phys_handle: u64,
    block_offsets: Seq<usize>,
    size: usize,
) -> Seq<MapOp>
    decreases block_offsets.len(),
{
    if block_offsets.len() == 0 {
        Seq::empty()
    } else {
        batch_map_ops(regions, va_offset, phys_handle, block_offsets.drop_last(), size) + map_ops(
            regions,
            va_offset,
            phys_handle,
            block_offsets.last(),
            size,
        )
    }
}

/// The unmappings of one block from every region.
pub open spec fn unmap_ops(regions: Seq<u64>, va_offset: usize, size: usize) -> Seq<UnmapOp> {
    regions.map_values(|va_base: u64| UnmapOp { va_base, va_offset, size })
}

/// The unmappings of several blocks, one block after the other.
pub open spec fn batch_unmap_ops(
    regions: Seq<u64>,
    va_offsets: Seq<usize>,
    size: usize,
) -> Seq<UnmapOp>
    decreases va_offsets.len(),
{
    if va_offsets.len() == 0 {
        Seq::empty()
    } else {
        batch_unmap_ops(regions, va_offsets.drop_last(), size) + unmap_ops(
            regions,
            va_offsets.last(),
            size,
        )
    }
}

impl CudaVmm {
    /// A request of `size` bytes in whole superblocks, as the driver wants it.
    pub fn aligned_size(&self, size: usize) -> (r: usize)
        requires
            size + SUPERBLOCK_SIZE - 1 <= usize::MAX,
        ensures
            size <= r < size + SUPERBLOCK_SIZE,
            r as int % SUPERBLOCK_SIZE as int == 0,
    {
        proof {
            superblock::lemma_superblock_size_pow2();
        }
        align_up(size, SUPERBLOCK_SIZE)
    }

    /// The regions of all layers, K and V in turn.
    fn regions(va_k: &[u64], va_v: &[u64]) -> (r: Vec<u64>)
        ensures
            r@ == interleaved(va_k@, va_v@),
    {
        let mut out: Vec<u64> = Vec::new();
        let mut l: usize = 0;
        while l < va_k.len() && l < va_v.len()
            invariant
                l <= va_k@.len(),
                l <= va_v@.len(),
                out@.len() == 2 * l,
                forall|j: int|
                    0 <= j < 2 * l ==> #[trigger] out@[j] == if j % 2 == 0 {
                        va_k@[j / 2]
                    } else {
                        va_v@[j / 2]
                    },
            decreases va_k@.len() - l,
        {
            out.push(va_k[l]);
            out.push(va_v[l]);
            l = l + 1;
        }
        assert(out@ =~= interleaved(va_k@, va_v@));
        out
    }

    /// The mappings that place blocks of one physical handle into the K and V
    /// regions of every layer. They are to be performed in order, up to the
    /// first that fails.
    pub fn batch_map_blocks(
        &self,
        va_k: &[u64],
        va_v: &[u64],
        va_offset: usize,
        phys_handle: u64,
        block_offsets: &[usize],
        block_bytes: usize,
    ) -> (r: Vec<MapOp>)
        ensures
            r@ == batch_map_ops(
                interleaved(va_k@, va_v@),
                va_offset,
                phys_handle,
                block_offsets@,
                block_bytes,
            ),
    {
        let regions: Vec<u64> = Self::regions(va_k, va_v);
        let mut out: Vec<MapOp> = Vec::new();
        let mut i: usize = 0;
        assert(block_offsets@.take(0) =~= Seq::<usize>::empty());
        while i < block_offsets.len()
            invariant
                i <= block_offsets@.len(),
                out@ == batch_map_ops(
                    regions@,
                    va_offset,
                    phys_handle,
                    block_offsets@.take(i as int),
                    block_bytes,
                ),
            decreases block_offsets@.len() - i,
        {
            let phys_offset: usize = block_offsets[i];
            let ghost before = out@;
            let ghost ops = map_ops(regions@, va_offset, phys_handle, phys_offset, block_bytes);
            let mut j: usize = 0;
            while j < regions.len()
                invariant
                    j <= regions@.len(),
                    ops == map_ops(regions@, va_offset, phys_handle, phys_offset, block_bytes),
                    out@ == before + ops.take(j as int),
                decreases regions@.len() - j,
            {
                out.push(
                    MapOp {
                        va_base: regions[j],
                        va_offset,
                        phys_handle,
                        phys_offset,
                        size: block_bytes,
                    },
                );
                j = j + 1;
            }
            proof {
                assert(ops.take(ops.len() as int) =~= ops);
                let t = block_offsets@.take(i + 1);
                assert(t.drop_last() =~= block_offsets@.take(i as int));
            }
            i = i + 1;
        }
        assert(block_offsets@.take(block_offsets@.len() as int) =~= block_offsets@);
        out
    }

    /// The unmappings that take blocks out of the K and V regions of every
    /// layer, to be performed in order, up to the first that fails.
    pub fn batch_unmap_blocks(
        &self,
        va_k: &[u64],
        va_v: &[u64],
        va_offsets: &[usize],
        block_bytes: usize,
    ) -> (r: Vec<UnmapOp>)
        ensures
            r@ == batch_unmap_ops(interleaved(va_k@, va_v@), va_offsets@, block_bytes),
    {
        let regions: Vec<u64> = Self::regions(va_k, va_v);
        let mut out: Vec<UnmapOp> = Vec::new();
        let mut i: usize = 0;
        assert(va_offsets@.take(0) =~= Seq::<usize>::empty());
        while i < va_offsets.len()
            invariant
                i <= va_offsets@.len(),
                out@ == batch_unmap_ops(regions@, va_offsets@.take(i as int), block_bytes),
            decreases va_offsets@.len() - i,
        {
            let va_offset: usize = va_offsets[i];
            let ghost before = out@;
            let ghost ops = unmap_ops(regions@, va_offset, block_bytes);
            let mut j: usize = 0;
            while j < regions.len()
                invariant
                    j <= regions@.len(),
                    ops == unmap_ops(regions@, va_offset, block_bytes),
                    out@ == before + ops.take(j as int),
                decreases regions@.len() - j,
            {
                out.push(UnmapOp { va_base: regions[j], va_offset, size: block_bytes });
                j = j + 1;
            }
            proof {
                assert(ops.take(ops.len() as int) =~= ops);
                let t = va_offsets@.take(i + 1);
                assert(t.drop_last() =~= va_offsets@.take(i as int));
            }
            i = i + 1;
        }
        assert(va_offsets@.take(va_offsets@.len() as int) =~= va_offsets@);
        out
    }
}

/// The regions are the K and V regions of the layers, in turn.
pub proof fn law_regions_alternate(va_k: Seq<u64>, va_v: Seq<u64>, layer: int)
    requires
        va_k.len() == va_v.len(),
        0 <= layer < va_k.len(),
    ensures
        interleaved(va_k, va_v).len() == 2 * va_k.len(),
        interleaved(va_k, va_v)[2 * layer] == va_k[layer],
        interleaved(va_k, va_v)[2 * layer + 1] == va_v[layer],
{
}

proof fn lemma_batch_length(
    regions: Seq<u64>,
    va_offset: usize,
    phys_handle: u64,
    offsets: Seq<usize>,
    size: usize,
)
    ensures
        batch_map_ops(regions, va_offset, phys_handle, offsets, size).len() == offsets.len()
            * regions.len(),
        batch_unmap_ops(regions, offsets, size).len() == offsets.len() * regions.len(),
    decreases offsets.len(),
{
    let m = offsets.len() as int;
    let r = regions.len() as int;
    if m > 0 {
        lemma_batch_length(regions, va_offset, phys_handle, offsets.drop_last(), size);
        assert((m - 1) * r + r == m * r) by (nonlinear_arith);
    } else {
        assert(0 * r == 0) by (nonlinear_arith);
    }
}

/// Every block is mapped into every region, block by block, at the address
/// asked for and backed from its own place in the physical memory; and every
/// offset is unmapped from every region.
pub proof fn law_batch_maps_every_block(
    regions: Seq<u64>,
    va_offset: usize,
    phys_handle: u64,
    offsets: Seq<usize>,
    size: usize,
    i: int,
    j: int,
)
    requires
        0 <= i < offsets.len(),
        0 <= j < regions.len(),
    ensures
        ({
            let maps = batch_map_ops(regions, va_offset, phys_handle, offsets, size);
            let unmaps = batch_unmap_ops(regions, offsets, size);
            let k = i * regions.len() + j;
            &&& maps.len() == offsets.len() * regions.len()
            &&& unmaps.len() == offsets.len() * regions.len()
            &&& 0 <= k < maps.len()
            &&& maps[k].va_base == regions[j]
            &&& maps[k].va_offset == va_offset
            &&& maps[k].phys_handle == phys_handle
            &&& maps[k].phys_offset == offsets[i]
            &&& maps[k].size == size
            &&& unmaps[k].va_base == regions[j]
            &&& unmaps[k].va_offset == offsets[i]
            &&& unmaps[k].size == size
        }),
    decreases offsets.len(),
{
    let m = offsets.len() as int;
    let r = regions.len() as int;
    lemma_batch_length(regions, va_offset, phys_handle, offsets, size);
    lemma_batch_length(regions, va_offset, phys_handle, offsets.drop_last(), size);
    assert((m - 1) * r + r == m * r) by (nonlinear_arith);
    assert(0 <= i * r && i * r + j < m * r) by (nonlinear_arith)
        requires
            0 <= i < m,
            0 <= j < r,
    ;
    if i < m - 1 {
        law_batch_maps_every_block(
            regions,
            va_offset,
            phys_handle,
            offsets.drop_last(),
            size,
            i,
            j,
        );
    }
}

} // verus!
