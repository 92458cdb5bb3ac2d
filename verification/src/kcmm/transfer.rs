use vstd::prelude::*;

use crate::kcmm::pool::KcmmPool;
use crate::kcmm::pool_model::PoolView;
use crate::kcmm::superblock::SUPERBLOCK_SIZE;

verus! {

/// Copy of one layer's K or V part of a block between GPU memory and its slot
/// of the CPU swap buffer.
#[derive(Debug, Clone, Copy, PartialEq, Eq, Structural)]
pub struct SlotCopy {
    pub gpu_va: u64,
    pub cpu_offset: usize,
    pub nbytes: usize,
}

/// Transfer of one layer's K or V part of a whole batch of blocks, through the
/// staging buffers.
#[derive(Debug)]
pub struct LayerBatch {
    /// GPU address of the part of each block.
    pub ptrs: Vec<u64>,
    /// Where the part of the first block stands in the CPU staging buffer.
    pub staging_offset: usize,
    pub nbytes: usize,
}

/// Copy between the CPU staging buffer and a slot of the swap buffer.
#[derive(Debug, Clone, Copy, PartialEq, Eq, Structural)]
pub struct HostCopy {
    pub staging_offset: usize,
    pub slot_offset: usize,
    pub nbytes: usize,
}

impl PoolView {
    /// Number of parts of a block: K and V of each layer.
    pub open spec fn parts(self) -> int {
        2 * self.shape.num_layers
    }

    /// GPU address of part `j` of the block at `va_offset`. Parts come in the
    /// order K of layer 0, V of layer 0, K of layer 1, and so on.
    pub open spec fn part_va(self, j: int, va_offset: int) -> int {
        self.region(j / 2, j % 2 == 1) + va_offset
    }

    /// The copies that move the block at `va_offset` to or from its slot.
    pub open spec fn slot_copies(self, va_offset: int, cpu_offset: int) -> Seq<SlotCopy> {
        Seq::new(
            self.parts() as nat,
            |j: int|
                SlotCopy {
                    gpu_va: self.part_va(j, va_offset) as u64,
                    cpu_offset: (cpu_offset + j * self.shape.block_bytes) as usize,
                    nbytes: self.shape.block_bytes,
                },
        )
    }

    /// Where part `j` of block `i` of a batch of `n` stands in the staging
    /// buffer: all blocks of a part stand together.
    pub open spec fn staging_offset(self, n: int, i: int, j: int) -> int {
        j * (n * self.shape.block_bytes) + i * self.shape.block_bytes
    }

    /// Where part `j` of a block stands in its slot.
    pub open spec fn slot_offset(self, cpu_offset: int, j: int) -> int {
        cpu_offset + j * self.shape.block_bytes
    }

    /// The copy of part `j` of block `i` between staging buffer and slot.
    pub open spec fn host_copy(self, offsets: Seq<usize>, i: int, j: int) -> HostCopy {
        HostCopy {
            staging_offset: self.staging_offset(offsets.len() as int, i, j) as usize,
            slot_offset: self.slot_offset(offsets[i] as int, j) as usize,
            nbytes: self.shape.block_bytes,
        }
    }

    /// All copies between staging buffer and slots, block by block.
    pub open spec fn scatter_copies(self, offsets: Seq<usize>) -> Seq<HostCopy> {
        Seq::new(
            (offsets.len() * self.parts()) as nat,
            |k: int| self.host_copy(offsets, k / self.parts(), k % self.parts()),
        )
    }

    /// The copies of part `j` from the slots to the staging buffer.
    pub open spec fn gather_copies(self, offsets: Seq<usize>, j: int) -> Seq<HostCopy> {
        Seq::new(offsets.len(), |i: int| self.host_copy(offsets, i, j))
    }

    /// A block at this offset lies in the mapped part of the regions.
    pub open spec fn mapped(self, va_offset: int) -> bool {
        0 <= va_offset && va_offset + self.shape.block_bytes <= self.pools.backing.len()
            * SUPERBLOCK_SIZE
    }
}

impl LayerBatch {
    /// The transfer of part `j` of the blocks at the given offsets.
    pub open spec fn is_part(&self, s: PoolView, va_offsets: Seq<usize>, j: int) -> bool {
        &&& self.ptrs@.len() == va_offsets.len()
        &&& forall|i: int|
            0 <= i < va_offsets.len() ==> #[trigger] self.ptrs@[i] == s.part_va(
                j,
                va_offsets[i] as int,
            )
        &&& self.staging_offset == s.staging_offset(va_offsets.len() as int, 0, j)
        &&& self.nbytes == va_offsets.len() * s.shape.block_bytes
    }
}

impl KcmmPool {
    /// Address of a part of a block that lies in mapped memory.
    fn part_va(&self, j: usize, va_offset: usize) -> (r: u64)
        requires
            self.wf(),
            self@.regions_fit(),
            j < self@.parts(),
            self@.mapped(va_offset as int),
        ensures
            r == self@.part_va(j as int, va_offset as int),
    {
        assert(self@.region(j as int / 2, j % 2 == 1) + self@.pools.backing.len()
            * SUPERBLOCK_SIZE <= u64::MAX);
        if j % 2 == 1 {
            self.va_v[j / 2] + va_offset as u64
        } else {
            self.va_k[j / 2] + va_offset as u64
        }
    }

    /// Number of parts of a block.
    fn parts(&self) -> (r: usize)
        requires
            self.wf(),
        ensures
            r == self@.parts(),
    {
        let _ = self.slot_bytes();
        proof {
            let s = self@;
            self.pools.lemma_block_bytes_positive();
            assert(s.shape.num_layers * 2 <= s.slot_bytes()) by (nonlinear_arith)
                requires
                    s.slot_bytes() == s.shape.num_layers * 2 * s.shape.block_bytes,
                    s.shape.block_bytes >= 1,
            ;
        }
        2 * self.num_layers
    }

    /// The copies that move a block between GPU memory and its slot of the
    /// swap buffer, one for K and one for V of each layer.
    pub fn slot_copies(&self, va_offset: usize, cpu_offset: usize) -> (r: Vec<SlotCopy>)
        requires
            self.wf(),
            self@.regions_fit(),
            self@.mapped(va_offset as int),
            cpu_offset + self@.slot_bytes() <= usize::MAX,
        ensures
            r@ == self@.slot_copies(va_offset as int, cpu_offset as int),
    {
        let parts: usize = self.parts();
        let mut out: Vec<SlotCopy> = Vec::new();
        let mut off: usize = cpu_offset;
        let mut j: usize = 0;
        while j < parts
            invariant
                self.wf(),
                self@.regions_fit(),
                self@.mapped(va_offset as int),
                cpu_offset + self@.slot_bytes() <= usize::MAX,
                parts == self@.parts(),
                j <= parts,
                off == cpu_offset + j * self@.shape.block_bytes,
                out@ == self@.slot_copies(va_offset as int, cpu_offset as int).take(j as int),
            decreases parts - j,
        {
            proof {
                let bb = self@.shape.block_bytes as int;
                assert((j + 1) * bb == j * bb + bb) by (nonlinear_arith);
                assert((j + 1) * bb <= parts * bb) by (nonlinear_arith)
                    requires
                        j < parts,
                        bb >= 0,
                ;
                assert(self@.slot_bytes() == parts * bb) by (nonlinear_arith)
                    requires
                        parts == 2 * self@.shape.num_layers,
                        self@.slot_bytes() == self@.shape.num_layers * 2 * bb,
                ;
            }
            let gpu_va: u64 = self.part_va(j, va_offset);
            out.push(SlotCopy { gpu_va, cpu_offset: off, nbytes: self.block_bytes });
            off = off + self.block_bytes;
            j = j + 1;
        }
        assert(out@ =~= self@.slot_copies(va_offset as int, cpu_offset as int));
        out
    }

    /// The transfers of a batch of blocks, one for K and one for V of each
    /// layer.
    pub fn layer_batches(&self, va_offsets: &Vec<usize>) -> (r: Vec<LayerBatch>)
        requires
            self.wf(),
            self@.regions_fit(),
            forall|i: int| 0 <= i < va_offsets@.len() ==> self@.mapped(#[trigger] va_offsets@[i] as int),
            va_offsets@.len() * self@.slot_bytes() <= usize::MAX,
        ensures
            r@.len() == self@.parts(),
            forall|j: int| 0 <= j < r@.len() ==> (#[trigger] r@[j]).is_part(self@, va_offsets@, j),
    {
        let parts: usize = self.parts();
        let n: usize = va_offsets.len();
        let bb: usize = self.block_bytes;
        proof {
            assert(parts * (n * bb) == n * self@.slot_bytes()) by (nonlinear_arith)
                requires
                    parts == 2 * self@.shape.num_layers,
                    self@.slot_bytes() == self@.shape.num_layers * 2 * bb,
            ;
            assert(n * bb <= parts * (n * bb)) by (nonlinear_arith)
                requires
                    parts >= 1,
                    n * bb >= 0,
            ;
        }
        let nbytes: usize = n * bb;
        let mut out: Vec<LayerBatch> = Vec::new();
        let mut j: usize = 0;
        while j < parts
            invariant
                self.wf(),
                self@.regions_fit(),
                forall|i: int|
                    0 <= i < va_offsets@.len() ==> self@.mapped(#[trigger] va_offsets@[i] as int),
                parts == self@.parts(),
                n == va_offsets@.len(),
                bb == self@.shape.block_bytes,
                nbytes == n * bb,
                parts * nbytes <= usize::MAX,
                j <= parts,
                out@.len() == j,
                forall|k: int|
                    0 <= k < j ==> (#[trigger] out@[k]).is_part(self@, va_offsets@, k),
            decreases parts - j,
        {
            let mut ptrs: Vec<u64> = Vec::new();
            let mut i: usize = 0;
            while i < n
                invariant
                    self.wf(),
                    self@.regions_fit(),
                    forall|k: int|
                        0 <= k < va_offsets@.len() ==> self@.mapped(
                            #[trigger] va_offsets@[k] as int,
                        ),
                    parts == self@.parts(),
                    n == va_offsets@.len(),
                    j < parts,
                    i <= n,
                    ptrs@.len() == i,
                    forall|k: int|
                        0 <= k < i ==> #[trigger] ptrs@[k] == self@.part_va(
                            j as int,
                            va_offsets@[k] as int,
                        ),
                decreases n - i,
            {
                ptrs.push(self.part_va(j, va_offsets[i]));
                i = i + 1;
            }
            proof {
                assert(j * nbytes <= parts * nbytes) by (nonlinear_arith)
                    requires
                        j < parts,
                        nbytes >= 0,
                ;
            }
            out.push(LayerBatch { ptrs, staging_offset: j * nbytes, nbytes });
            j = j + 1;
        }
        out
    }

    /// One copy between staging buffer and slot.
    fn host_copy(&self, offsets: &Vec<usize>, i: usize, j: usize) -> (r: HostCopy)
        requires
            self.wf(),
            i < offsets@.len(),
            j < self@.parts(),
            offsets@.len() * self@.slot_bytes() <= usize::MAX,
            offsets@[i as int] + self@.slot_bytes() <= usize::MAX,
        ensures
            r == self@.host_copy(offsets@, i as int, j as int),
    {
        let n: usize = offsets.len();
        let bb: usize = self.block_bytes;
        proof {
            let parts = self@.parts();
            assert(parts * (n * bb) == n * self@.slot_bytes()) by (nonlinear_arith)
                requires
                    parts == 2 * self@.shape.num_layers,
                    self@.slot_bytes() == self@.shape.num_layers * 2 * bb,
            ;
            assert(parts * bb == self@.slot_bytes()) by (nonlinear_arith)
                requires
                    parts == 2 * self@.shape.num_layers,
                    self@.slot_bytes() == self@.shape.num_layers * 2 * bb,
            ;
            assert(i * bb + bb <= n * bb) by (nonlinear_arith)
                requires
                    i < n,
                    bb >= 0,
            ;
            assert(j * (n * bb) + n * bb <= parts * (n * bb)) by (nonlinear_arith)
                requires
                    j < parts,
                    n * bb >= 0,
            ;
            assert(j * bb + bb <= parts * bb) by (nonlinear_arith)
                requires
                    j < parts,
                    bb >= 0,
            ;
            assert(0 <= i * bb && 0 <= j * (n * bb) && 0 <= j * bb && 0 <= n * bb)
                by (nonlinear_arith)
                requires
                    i >= 0,
                    j >= 0,
                    n >= 0,
                    bb >= 0,
            ;
        }
        HostCopy {
            staging_offset: j * (n * bb) + i * bb,
            slot_offset: offsets[i] + j * bb,
            nbytes: bb,
        }
    }

    /// The copies that take a batch apart: from the staging buffer to the
    /// slots, block by block.
    pub fn scatter_copies(&self, offsets: &Vec<usize>) -> (r: Vec<HostCopy>)
        requires
            self.wf(),
            offsets@.len() * self@.slot_bytes() <= usize::MAX,
            forall|i: int|
                0 <= i < offsets@.len() ==> (#[trigger] offsets@[i]) + self@.slot_bytes()
                    <= usize::MAX,
        ensures
            r@ == self@.scatter_copies(offsets@),
    {
        let parts: usize = self.parts();
        let n: usize = offsets.len();
        let mut out: Vec<HostCopy> = Vec::new();
        let mut i: usize = 0;
        while i < n
            invariant
                self.wf(),
                offsets@.len() * self@.slot_bytes() <= usize::MAX,
                forall|k: int|
                    0 <= k < offsets@.len() ==> (#[trigger] offsets@[k]) + self@.slot_bytes()
                        <= usize::MAX,
                parts == self@.parts(),
                parts > 0,
                n == offsets@.len(),
                i <= n,
                out@.len() == i * parts,
                forall|k: int|
                    0 <= k < out@.len() ==> #[trigger] out@[k] == self@.host_copy(
                        offsets@,
                        k / (parts as int),
                        k % (parts as int),
                    ),
            decreases n - i,
        {
            let mut j: usize = 0;
            while j < parts
                invariant
                    self.wf(),
                    offsets@.len() * self@.slot_bytes() <= usize::MAX,
                    offsets@[i as int] + self@.slot_bytes() <= usize::MAX,
                    parts == self@.parts(),
                    parts > 0,
                    n == offsets@.len(),
                    i < n,
                    j <= parts,
                    out@.len() == i * parts + j,
                    forall|k: int|
                        0 <= k < out@.len() ==> #[trigger] out@[k] == self@.host_copy(
                            offsets@,
                            k / (parts as int),
                            k % (parts as int),
                        ),
                decreases parts - j,
            {
                let copy: HostCopy = self.host_copy(offsets, i, j);
                proof {
                    let k = i * parts + j;
                    vstd::arithmetic::div_mod::lemma_fundamental_div_mod_converse(
                        k,
                        parts as int,
                        i as int,
                        j as int,
                    );
                }
                out.push(copy);
                j = j + 1;
            }
            proof {
                assert((i + 1) * parts == i * parts + parts) by (nonlinear_arith);
            }
            i = i + 1;
        }
        assert(out@ =~= self@.scatter_copies(offsets@));
        out
    }

    /// The copies that put one part of a batch together: from the slots to
    /// the staging buffer.
    pub fn gather_copies(&self, offsets: &Vec<usize>, j: usize) -> (r: Vec<HostCopy>)
        requires
            self.wf(),
            j < self@.parts(),
            offsets@.len() * self@.slot_bytes() <= usize::MAX,
            forall|i: int|
                0 <= i < offsets@.len() ==> (#[trigger] offsets@[i]) + self@.slot_bytes()
                    <= usize::MAX,
        ensures
            r@ == self@.gather_copies(offsets@, j as int),
    {
        let mut out: Vec<HostCopy> = Vec::new();
        let mut i: usize = 0;
        while i < offsets.len()
            invariant
                self.wf(),
                j < self@.parts(),
                offsets@.len() * self@.slot_bytes() <= usize::MAX,
                forall|k: int|
                    0 <= k < offsets@.len() ==> (#[trigger] offsets@[k]) + self@.slot_bytes()
                        <= usize::MAX,
                i <= offsets@.len(),
                out@ == self@.gather_copies(offsets@, j as int).take(i as int),
            decreases offsets@.len() - i,
        {
            out.push(self.host_copy(offsets, i, j));
            i = i + 1;
        }
        assert(out@ =~= self@.gather_copies(offsets@, j as int));
        out
    }
}

/// A restore reads each part from the place that the eviction wrote it to:
/// the copies that put a batch together are those that took it apart, with
/// source and destination exchanged.
pub proof fn law_gather_reverses_scatter(s: PoolView, offsets: Seq<usize>, i: int, j: int)
    requires
        0 <= i < offsets.len(),
        0 <= j < s.parts(),
    ensures
        0 <= i * s.parts() + j < s.scatter_copies(offsets).len(),
        s.gather_copies(offsets, j)[i] == s.scatter_copies(offsets)[i * s.parts() + j],
{
    let parts = s.parts();
    vstd::arithmetic::div_mod::lemma_fundamental_div_mod_converse(i * parts + j, parts, i, j);
    assert(i * parts + j < offsets.len() * parts && 0 <= i * parts) by (nonlinear_arith)
        requires
            0 <= i < offsets.len(),
            0 <= j < parts,
    ;
}

/// The parts of a batch take disjoint places in the staging buffer, all
/// within the bytes that the batch takes in slots.
pub proof fn law_staging_places_disjoint(
    s: PoolView,
    n: int,
    i: int,
    j: int,
    i2: int,
    j2: int,
)
    requires
        0 <= i < n,
        0 <= i2 < n,
        0 <= j < s.parts(),
        0 <= j2 < s.parts(),
        i != i2 || j != j2,
    ensures
        ({
            let bb = s.shape.block_bytes;
            let a = s.staging_offset(n, i, j);
            let b = s.staging_offset(n, i2, j2);
            &&& 0 <= a
            &&& a + bb <= n * s.slot_bytes()
            &&& a + bb <= b || b + bb <= a
        }),
{
    let bb = s.shape.block_bytes as int;
    let row = n * bb;
    let parts = s.parts();
    assert(n * s.slot_bytes() == parts * row) by (nonlinear_arith)
        requires
            parts == 2 * s.shape.num_layers,
            s.slot_bytes() == s.shape.num_layers * 2 * bb,
            row == n * bb,
    ;
    assert(0 <= i * bb && i * bb + bb <= row) by (nonlinear_arith)
        requires
            0 <= i < n,
            bb >= 0,
            row == n * bb,
    ;
    assert(0 <= i2 * bb && i2 * bb + bb <= row) by (nonlinear_arith)
        requires
            0 <= i2 < n,
            bb >= 0,
            row == n * bb,
    ;
    assert(0 <= j * row && j * row + row <= parts * row) by (nonlinear_arith)
        requires
            0 <= j < parts,
            row >= 0,
    ;
    if j == j2 {
        assert(i * bb + bb <= i2 * bb || i2 * bb + bb <= i * bb) by (nonlinear_arith)
            requires
                i != i2,
                bb >= 0,
        ;
    } else {
        assert(j * row + row <= j2 * row || j2 * row + row <= j * row) by (nonlinear_arith)
            requires
                j != j2,
                row >= 0,
        ;
    }
}

/// The parts of a block fill its slot without overlap.
pub proof fn law_slot_parts_disjoint(s: PoolView, cpu_offset: int, j: int, j2: int)
    requires
        0 <= j < j2 < s.parts(),
    ensures
        cpu_offset <= s.slot_offset(cpu_offset, j),
        s.slot_offset(cpu_offset, j) + s.shape.block_bytes <= s.slot_offset(cpu_offset, j2),
        s.slot_offset(cpu_offset, j2) + s.shape.block_bytes <= cpu_offset + s.slot_bytes(),
{
    let bb = s.shape.block_bytes as int;
    let parts = s.parts();
    assert(0 <= j * bb && j * bb + bb <= j2 * bb && j2 * bb + bb <= parts * bb)
        by (nonlinear_arith)
        requires
            0 <= j < j2 < parts,
            bb >= 0,
    ;
    assert(s.slot_bytes() == parts * bb) by (nonlinear_arith)
        requires
            parts == 2 * s.shape.num_layers,
            s.slot_bytes() == s.shape.num_layers * 2 * bb,
    ;
}

} // verus!
