use vstd::prelude::*;

use crate::kcmm::pool_model::PoolView;
use crate::kcmm::slot_laws;
use crate::kcmm::transfer;
use crate::kcmm::transfer::{HostCopy, SlotCopy};

verus! {

/// A copy of `n` bytes from `src` to `dst`.
pub struct ByteCopy {
    pub dst: int,
    pub src: int,
    pub n: int,
}

/// What a memory holds after a copy from another.
pub open spec fn copied(
    to: spec_fn(int) -> u8,
    from: spec_fn(int) -> u8,
    c: ByteCopy,
) -> spec_fn(int) -> u8 {
    |a: int|
        if c.dst <= a < c.dst + c.n {
            from(c.src + (a - c.dst))
        } else {
            to(a)
        }
}

/// What a memory holds after copies from another, one after the other.
pub open spec fn copied_all(
    to: spec_fn(int) -> u8,
    from: spec_fn(int) -> u8,
    copies: Seq<ByteCopy>,
) -> spec_fn(int) -> u8
    decreases copies.len(),
{
    if copies.len() == 0 {
        to
    } else {
        copied(copied_all(to, from, copies.drop_last()), from, copies.last())
    }
}

/// No two copies write to the same place.
pub open spec fn disjoint(copies: Seq<ByteCopy>) -> bool {
    forall|i: int, j: int|
        0 <= i < copies.len() && 0 <= j < copies.len() && i != j ==> (#[trigger] copies[i]).dst
            + copies[i].n <= (#[trigger] copies[j]).dst || copies[j].dst + copies[j].n
            <= copies[i].dst
}

/// Copies to different places all leave their bytes.
pub proof fn law_disjoint_copies_arrive(
    to: spec_fn(int) -> u8,
    from: spec_fn(int) -> u8,
    copies: Seq<ByteCopy>,
    j: int,
    b: int,
)
    requires
        disjoint(copies),
        0 <= j < copies.len(),
        0 <= b < copies[j].n,
    ensures
        copied_all(to, from, copies)(copies[j].dst + b) == from(copies[j].src + b),
    decreases copies.len(),
{
    let rest = copies.drop_last();
    if j < copies.len() - 1 {
        assert forall|i: int, k: int|
            0 <= i < rest.len() && 0 <= k < rest.len() && i != k implies (#[trigger] rest[i]).dst
            + rest[i].n <= (#[trigger] rest[k]).dst || rest[k].dst + rest[k].n <= rest[i].dst by {
            assert(rest[i] == copies[i] && rest[k] == copies[k]);
        }
        law_disjoint_copies_arrive(to, from, rest, j, b);
        assert(rest[j] == copies[j]);
        let last = copies[copies.len() - 1];
        assert(copies[j].dst + copies[j].n <= last.dst || last.dst + last.n <= copies[j].dst);
    }
}

/// Slot copies as copies to the swap buffer.
pub open spec fn to_slots(copies: Seq<SlotCopy>) -> Seq<ByteCopy> {
    copies.map_values(
        |c: SlotCopy|
            ByteCopy { dst: c.cpu_offset as int, src: c.gpu_va as int, n: c.nbytes as int },
    )
}

/// Slot copies as copies to GPU memory.
pub open spec fn from_slots(copies: Seq<SlotCopy>) -> Seq<ByteCopy> {
    copies.map_values(
        |c: SlotCopy|
            ByteCopy { dst: c.gpu_va as int, src: c.cpu_offset as int, n: c.nbytes as int },
    )
}

/// Copies from the staging buffer as copies to the swap buffer.
pub open spec fn staged(copies: Seq<HostCopy>) -> Seq<ByteCopy> {
    copies.map_values(
        |c: HostCopy|
            ByteCopy {
                dst: c.slot_offset as int,
                src: c.staging_offset as int,
                n: c.nbytes as int,
            },
    )
}

/// Byte `b` of part `j` in the slot at `cpu_offset`.
pub open spec fn slot_byte(
    s: PoolView,
    host: spec_fn(int) -> u8,
    cpu_offset: int,
    j: int,
    b: int,
) -> u8 {
    host(s.slot_offset(cpu_offset, j) + b)
}

/// The slot at `cpu_offset` holds the bytes of the block at `va_offset`.
pub open spec fn slot_holds(
    s: PoolView,
    host: spec_fn(int) -> u8,
    cpu_offset: int,
    gpu: spec_fn(int) -> u8,
    va_offset: int,
) -> bool {
    forall|j: int, b: int|
        0 <= j < s.parts() && 0 <= b < s.shape.block_bytes ==> #[trigger] slot_byte(
            s,
            host,
            cpu_offset,
            j,
            b,
        ) == gpu(s.part_va(j, va_offset) + b)
}

impl PoolView {
    /// Every part of the block at `va_offset` has an address.
    pub open spec fn parts_addressed(self, va_offset: int) -> bool {
        forall|j: int|
            0 <= j < self.parts() ==> 0 <= #[trigger] self.part_va(j, va_offset) <= u64::MAX
    }

    /// The parts of the block at `va_offset` do not overlap: the regions of
    /// the layers lie apart.
    pub open spec fn parts_apart(self, va_offset: int) -> bool {
        forall|i: int, j: int|
            0 <= i < self.parts() && 0 <= j < self.parts() && i != j ==> #[trigger] self.part_va(
                i,
                va_offset,
            ) + self.shape.block_bytes <= #[trigger] self.part_va(j, va_offset) || self.part_va(
                j,
                va_offset,
            ) + self.shape.block_bytes <= self.part_va(i, va_offset)
    }
}

/// The parts of a slot lie within the slot, one behind the other.
pub proof fn lemma_slot_places(s: PoolView, cpu_offset: int, j: int)
    requires
        0 <= j < s.parts(),
    ensures
        cpu_offset <= s.slot_offset(cpu_offset, j),
        s.slot_offset(cpu_offset, j) + s.shape.block_bytes <= cpu_offset + s.slot_bytes(),
{
    let bb = s.shape.block_bytes as int;
    let parts = s.parts();
    assert(0 <= j * bb && j * bb + bb <= parts * bb) by (nonlinear_arith)
        requires
            0 <= j < parts,
            bb >= 0,
    ;
    assert(s.slot_bytes() == parts * bb) by (nonlinear_arith)
        requires
            parts == 2 * s.shape.num_layers,
            s.slot_bytes() == s.shape.num_layers * 2 * bb,
    ;
}

/// A copy of a block leaves each of its parts at its place in the slot.
proof fn lemma_eviction_fills_slot(
    s: PoolView,
    gpu: spec_fn(int) -> u8,
    host: spec_fn(int) -> u8,
    va_offset: int,
    cpu_offset: int,
    j: int,
    b: int,
)
    requires
        0 <= cpu_offset,
        cpu_offset + s.slot_bytes() <= usize::MAX,
        s.parts_addressed(va_offset),
        0 <= j < s.parts(),
        0 <= b < s.shape.block_bytes,
    ensures
        copied_all(host, gpu, to_slots(s.slot_copies(va_offset, cpu_offset)))(
            s.slot_offset(cpu_offset, j) + b,
        ) == gpu(s.part_va(j, va_offset) + b),
{
    let out = to_slots(s.slot_copies(va_offset, cpu_offset));
    assert forall|i: int| 0 <= i < s.parts() implies (#[trigger] out[i]).dst == s.slot_offset(
        cpu_offset,
        i,
    ) && out[i].src == s.part_va(i, va_offset) && out[i].n == s.shape.block_bytes by {
        lemma_slot_places(s, cpu_offset, i);
        assert(0 <= s.part_va(i, va_offset) <= u64::MAX);
    }
    assert forall|i: int, k: int|
        0 <= i < out.len() && 0 <= k < out.len() && i != k implies (#[trigger] out[i]).dst
        + out[i].n <= (#[trigger] out[k]).dst || out[k].dst + out[k].n <= out[i].dst by {
        if i < k {
            transfer::law_slot_parts_disjoint(s, cpu_offset, i, k);
        } else {
            transfer::law_slot_parts_disjoint(s, cpu_offset, k, i);
        }
    }
    law_disjoint_copies_arrive(host, gpu, out, j, b);
    assert(out[j].dst == s.slot_offset(cpu_offset, j));
}

/// Evicting a block leaves its bytes in the slot.
pub proof fn law_eviction_fills_slot(
    s: PoolView,
    gpu: spec_fn(int) -> u8,
    host: spec_fn(int) -> u8,
    va_offset: int,
    cpu_offset: int,
)
    requires
        0 <= cpu_offset,
        cpu_offset + s.slot_bytes() <= usize::MAX,
        s.parts_addressed(va_offset),
    ensures
        slot_holds(
            s,
            copied_all(host, gpu, to_slots(s.slot_copies(va_offset, cpu_offset))),
            cpu_offset,
            gpu,
            va_offset,
        ),
{
    let after = copied_all(host, gpu, to_slots(s.slot_copies(va_offset, cpu_offset)));
    assert forall|j: int, b: int|
        0 <= j < s.parts() && 0 <= b < s.shape.block_bytes implies #[trigger] slot_byte(
        s,
        after,
        cpu_offset,
        j,
        b,
    ) == gpu(s.part_va(j, va_offset) + b) by {
        lemma_eviction_fills_slot(s, gpu, host, va_offset, cpu_offset, j, b);
    }
}

/// Restoring a block leaves in each of its parts what the slot holds at the
/// part's place.
pub proof fn law_restore_reads_slot(
    s: PoolView,
    host: spec_fn(int) -> u8,
    gpu: spec_fn(int) -> u8,
    va_offset: int,
    cpu_offset: int,
    j: int,
    b: int,
)
    requires
        0 <= cpu_offset,
        cpu_offset + s.slot_bytes() <= usize::MAX,
        s.parts_addressed(va_offset),
        s.parts_apart(va_offset),
        0 <= j < s.parts(),
        0 <= b < s.shape.block_bytes,
    ensures
        copied_all(gpu, host, from_slots(s.slot_copies(va_offset, cpu_offset)))(
            s.part_va(j, va_offset) + b,
        ) == slot_byte(s, host, cpu_offset, j, b),
{
    let back = from_slots(s.slot_copies(va_offset, cpu_offset));
    assert forall|i: int| 0 <= i < s.parts() implies (#[trigger] back[i]).src == s.slot_offset(
        cpu_offset,
        i,
    ) && back[i].dst == s.part_va(i, va_offset) && back[i].n == s.shape.block_bytes by {
        lemma_slot_places(s, cpu_offset, i);
        assert(0 <= s.part_va(i, va_offset) <= u64::MAX);
    }
    assert forall|i: int, k: int|
        0 <= i < back.len() && 0 <= k < back.len() && i != k implies (#[trigger] back[i]).dst
        + back[i].n <= (#[trigger] back[k]).dst || back[k].dst + back[k].n <= back[i].dst by {
        assert(s.part_va(i, va_offset) + s.shape.block_bytes <= s.part_va(k, va_offset)
            || s.part_va(k, va_offset) + s.shape.block_bytes <= s.part_va(i, va_offset));
    }
    law_disjoint_copies_arrive(gpu, host, back, j, b);
    assert(back[j].src == s.slot_offset(cpu_offset, j));
}

/// A batch leaves part `j` of block `i` at its place in the slot.
proof fn lemma_batch_fills_slots(
    s: PoolView,
    gpu: spec_fn(int) -> u8,
    staging: spec_fn(int) -> u8,
    host: spec_fn(int) -> u8,
    va_offsets: Seq<usize>,
    flight: Map<u32, usize>,
    blocks: Seq<u32>,
    offsets: Seq<usize>,
    i: int,
    j: int,
    b: int,
)
    requires
        va_offsets.len() == offsets.len(),
        offsets.len() * s.slot_bytes() <= usize::MAX,
        s.slots_settled(flight),
        blocks.no_duplicates(),
        blocks.len() == offsets.len(),
        forall|k: int|
            0 <= k < blocks.len() ==> slot_laws::in_flight(
                flight,
                #[trigger] blocks[k],
                offsets[k],
            ),
        forall|k: int, p: int, c: int|
            0 <= k < offsets.len() && 0 <= p < s.parts() && 0 <= c < s.shape.block_bytes
                ==> #[trigger] staging(s.staging_offset(offsets.len() as int, k, p) + c) == gpu(
                s.part_va(p, va_offsets[k] as int) + c,
            ),
        0 <= i < offsets.len(),
        0 <= j < s.parts(),
        0 <= b < s.shape.block_bytes,
    ensures
        copied_all(host, staging, staged(s.scatter_copies(offsets)))(
            s.slot_offset(offsets[i] as int, j) + b,
        ) == gpu(s.part_va(j, va_offsets[i] as int) + b),
{
    let n = offsets.len() as int;
    let parts = s.parts();
    let bb = s.shape.block_bytes as int;
    let copies = staged(s.scatter_copies(offsets));
    let held = s.held_slots(flight);
    assert forall|k: int| 0 <= k < offsets.len() implies held.dom().contains(blocks[k])
        && held[blocks[k]] == offsets[k] && #[trigger] offsets[k] + s.slot_bytes()
        <= usize::MAX by {
        assert(slot_laws::in_flight(flight, blocks[k], offsets[k]));
        assert(s.in_transit(blocks[k]));
        assert(held.dom().contains(blocks[k]));
    }
    assert forall|k: int, l: int|
        0 <= k < offsets.len() && 0 <= l < offsets.len() && k != l implies #[trigger] offsets[k]
        + s.slot_bytes() <= #[trigger] offsets[l] || offsets[l] + s.slot_bytes() <= offsets[k] by {
        assert(blocks[k] != blocks[l]);
        assert(held.dom().contains(blocks[k]) && held.dom().contains(blocks[l]));
    }
    assert forall|k: int| 0 <= k < copies.len() implies 0 <= k / parts < n && 0 <= k % parts
        < parts && (#[trigger] copies[k]).dst == s.slot_offset(
        offsets[k / parts] as int,
        k % parts,
    ) && copies[k].src == s.staging_offset(n, k / parts, k % parts) && copies[k].n == bb by {
        vstd::arithmetic::div_mod::lemma_fundamental_div_mod(k, parts);
        vstd::arithmetic::div_mod::lemma_mod_bound(k, parts);
        let q = k / parts;
        assert(0 <= q < n) by (nonlinear_arith)
            requires
                k == parts * q + k % parts,
                0 <= k < n * parts,
                0 <= k % parts < parts,
                parts > 0,
        ;
        lemma_slot_places(s, offsets[q] as int, k % parts);
        let p = k % parts;
        assert(0 <= p * (n * bb) + q * bb && p * (n * bb) + q * bb + bb <= n * (parts * bb))
            by (nonlinear_arith)
            requires
                0 <= p < parts,
                0 <= q < n,
                0 <= bb,
        ;
        assert(s.slot_bytes() == parts * bb) by (nonlinear_arith)
            requires
                parts == 2 * s.shape.num_layers,
                s.slot_bytes() == s.shape.num_layers * 2 * bb,
        ;
    }
    assert forall|k: int, l: int|
        0 <= k < copies.len() && 0 <= l < copies.len() && k != l implies (#[trigger] copies[k]).dst
        + copies[k].n <= (#[trigger] copies[l]).dst || copies[l].dst + copies[l].n
        <= copies[k].dst by {
        vstd::arithmetic::div_mod::lemma_fundamental_div_mod(k, parts);
        vstd::arithmetic::div_mod::lemma_fundamental_div_mod(l, parts);
        let qk = k / parts;
        let ql = l / parts;
        let pk = k % parts;
        let pl = l % parts;
        assert(copies[k].n == bb && copies[l].n == bb);
        assert(0 <= qk < n && 0 <= ql < n);
        lemma_slot_places(s, offsets[qk] as int, pk);
        lemma_slot_places(s, offsets[ql] as int, pl);
        if qk == ql {
            if pk < pl {
                transfer::law_slot_parts_disjoint(s, offsets[qk] as int, pk, pl);
            } else if pl < pk {
                transfer::law_slot_parts_disjoint(s, offsets[qk] as int, pl, pk);
            }
        } else {
            assert(offsets[qk] + s.slot_bytes() <= offsets[ql] || offsets[ql] + s.slot_bytes()
                <= offsets[qk]);
        }
    }
    let k = i * parts + j;
    vstd::arithmetic::div_mod::lemma_fundamental_div_mod_converse(k, parts, i, j);
    assert(0 <= k < n * parts) by (nonlinear_arith)
        requires
            k == i * parts + j,
            0 <= i < n,
            0 <= j < parts,
    ;
    law_disjoint_copies_arrive(host, staging, copies, k, b);
    assert(copies[k].dst == s.slot_offset(offsets[i] as int, j));
    assert(staging(s.staging_offset(n, i, j) + b) == gpu(s.part_va(j, va_offsets[i] as int) + b));
}

/// A batch leaves in each slot the bytes that its block held: where the
/// staging buffer holds part `j` of block `i` at its place, the slot does
/// afterwards. `blocks` are the blocks of the batch, all on their way.
pub proof fn law_batch_fills_slots(
    s: PoolView,
    gpu: spec_fn(int) -> u8,
    staging: spec_fn(int) -> u8,
    host: spec_fn(int) -> u8,
    va_offsets: Seq<usize>,
    flight: Map<u32, usize>,
    blocks: Seq<u32>,
    offsets: Seq<usize>,
    i: int,
)
    requires
        va_offsets.len() == offsets.len(),
        offsets.len() * s.slot_bytes() <= usize::MAX,
        s.slots_settled(flight),
        blocks.no_duplicates(),
        blocks.len() == offsets.len(),
        forall|k: int|
            0 <= k < blocks.len() ==> slot_laws::in_flight(
                flight,
                #[trigger] blocks[k],
                offsets[k],
            ),
        forall|k: int, p: int, c: int|
            0 <= k < offsets.len() && 0 <= p < s.parts() && 0 <= c < s.shape.block_bytes
                ==> #[trigger] staging(s.staging_offset(offsets.len() as int, k, p) + c) == gpu(
                s.part_va(p, va_offsets[k] as int) + c,
            ),
        0 <= i < offsets.len(),
    ensures
        slot_holds(
            s,
            copied_all(host, staging, staged(s.scatter_copies(offsets))),
            offsets[i] as int,
            gpu,
            va_offsets[i] as int,
        ),
{
    let after = copied_all(host, staging, staged(s.scatter_copies(offsets)));
    assert forall|j: int, b: int|
        0 <= j < s.parts() && 0 <= b < s.shape.block_bytes implies #[trigger] slot_byte(
        s,
        after,
        offsets[i] as int,
        j,
        b,
    ) == gpu(s.part_va(j, va_offsets[i] as int) + b) by {
        lemma_batch_fills_slots(
            s,
            gpu,
            staging,
            host,
            va_offsets,
            flight,
            blocks,
            offsets,
            i,
            j,
            b,
        );
    }
}

/// Copies from the slots as copies to the staging buffer.
pub open spec fn gathered(copies: Seq<HostCopy>) -> Seq<ByteCopy> {
    copies.map_values(
        |c: HostCopy|
            ByteCopy {
                dst: c.staging_offset as int,
                src: c.slot_offset as int,
                n: c.nbytes as int,
            },
    )
}

/// Before a batch is restored, the staging buffer holds part `j` of each
/// block at its place.
pub proof fn law_batch_reads_slots(
    s: PoolView,
    host: spec_fn(int) -> u8,
    staging: spec_fn(int) -> u8,
    offsets: Seq<usize>,
    i: int,
    j: int,
    b: int,
)
    requires
        offsets.len() * s.slot_bytes() <= usize::MAX,
        forall|k: int|
            0 <= k < offsets.len() ==> #[trigger] offsets[k] + s.slot_bytes() <= usize::MAX,
        0 <= i < offsets.len(),
        0 <= j < s.parts(),
        0 <= b < s.shape.block_bytes,
    ensures
        copied_all(staging, host, gathered(s.gather_copies(offsets, j)))(
            s.staging_offset(offsets.len() as int, i, j) + b,
        ) == slot_byte(s, host, offsets[i] as int, j, b),
{
    let n = offsets.len() as int;
    let bb = s.shape.block_bytes as int;
    let copies = gathered(s.gather_copies(offsets, j));
    assert forall|k: int| 0 <= k < copies.len() implies (#[trigger] copies[k]).dst
        == s.staging_offset(n, k, j) && copies[k].src == s.slot_offset(offsets[k] as int, j)
        && copies[k].n == bb by {
        lemma_slot_places(s, offsets[k] as int, j);
        lemma_staging_place(s, n, k, j);
    }
    assert forall|k: int, l: int|
        0 <= k < copies.len() && 0 <= l < copies.len() && k != l implies (#[trigger] copies[k]).dst
        + copies[k].n <= (#[trigger] copies[l]).dst || copies[l].dst + copies[l].n
        <= copies[k].dst by {
        transfer::law_staging_places_disjoint(s, n, k, j, l, j);
    }
    law_disjoint_copies_arrive(staging, host, copies, i, b);
    assert(copies[i].dst == s.staging_offset(n, i, j));
}

/// The place of a part in the staging buffer can be addressed.
proof fn lemma_staging_place(s: PoolView, n: int, i: int, j: int)
    requires
        0 <= i < n,
        0 <= j < s.parts(),
        n * s.slot_bytes() <= usize::MAX,
    ensures
        0 <= s.staging_offset(n, i, j),
        s.staging_offset(n, i, j) + s.shape.block_bytes <= usize::MAX,
{
    let other = if j == 0 {
        1int
    } else {
        0int
    };
    transfer::law_staging_places_disjoint(s, n, i, j, i, other);
}

} // verus!
