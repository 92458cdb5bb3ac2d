//! What one move of a block, out to a slot or back, does to the pool.

use core::ops::Range;
use vstd::prelude::*;

use crate::kcmm::cpu_slots;
use crate::kcmm::evict::{EvictContext, EvictError};
use crate::kcmm::policy::PolicyKind;
use crate::kcmm::pool;
use crate::kcmm::pool::{BlockLocation, PoolError};
use crate::kcmm::pool_model::PoolView;
use crate::kcmm::restore::RestoreContext;
use crate::kcmm::superblock::BlockHandle;

verus! {

/// A slot is taken from the start of the smallest free range that is large
/// enough, the first of several; none is given of no bytes, or where no range
/// is large enough.
pub proof fn law_slot_from_smallest_range(ranges: Seq<Range<usize>>, size: usize)
    ensures
        cpu_slots::allocated(ranges, size).0 is Some <==> size > 0 && exists|i: int|
            0 <= i < ranges.len() && (#[trigger] ranges[i]).end - ranges[i].start >= size,
        cpu_slots::allocated(ranges, size).0 is None ==> cpu_slots::allocated(ranges, size).1
            == ranges,
        cpu_slots::allocated(ranges, size).0 matches Some(offset) ==> exists|i: int|
            #![trigger ranges[i]]
            {
                &&& 0 <= i < ranges.len()
                &&& offset == ranges[i].start
                &&& ranges[i].end - ranges[i].start >= size
                &&& forall|j: int|
                    0 <= j < ranges.len() && (#[trigger] ranges[j]).end - ranges[j].start >= size
                        ==> ranges[i].end - ranges[i].start <= ranges[j].end - ranges[j].start && (j
                        < i ==> ranges[i].end - ranges[i].start < ranges[j].end - ranges[j].start)
            },
{
    let large = exists|i: int|
        0 <= i < ranges.len() && (#[trigger] ranges[i]).end - ranges[i].start >= size;
    if large {
        let i = choose|i: int|
            0 <= i < ranges.len() && (#[trigger] ranges[i]).end - ranges[i].start >= size;
        assert(cpu_slots::fits(ranges, size, i));
    }
    if cpu_slots::can_allocate(ranges, size) {
        let k = choose|k: int| cpu_slots::fits(ranges, size, k);
        assert(ranges[k].end - ranges[k].start >= size);
        cpu_slots::lemma_best_fit_exists(ranges, size);
        let i = cpu_slots::best_fit(ranges, size);
        assert(cpu_slots::is_best_fit(ranges, size, i));
        assert forall|j: int|
            0 <= j < ranges.len() && (#[trigger] ranges[j]).end - ranges[j].start >= size implies
            ranges[i].end - ranges[i].start <= ranges[j].end - ranges[j].start && (j < i
            ==> ranges[i].end - ranges[i].start < ranges[j].end - ranges[j].start) by {
            assert(cpu_slots::fits(ranges, size, j));
        }
        assert(ranges[i].start == cpu_slots::allocated(ranges, size).0->0);
    }
}

/// The two states hold the same blocks but for `i`.
pub open spec fn same_blocks_but(a: PoolView, b: PoolView, i: int) -> bool {
    &&& a.blocks.len() == b.blocks.len()
    &&& forall|j: int| 0 <= j < a.blocks.len() && j != i ==> #[trigger] b.blocks[j] == a.blocks[j]
}

/// An eviction that starts takes a slot for the K and V of every layer and
/// marks the block, which stood at the handle; where it does not start, the
/// block stays where it was, and the error says why.
pub proof fn law_eviction_marks_block(s: PoolView, i: u32, h: BlockHandle)
    requires
        s.slot_bytes() <= usize::MAX,
    ensures
        ({
            let (after, r) = s.evict_submitted(i, h);
            let size = (s.shape.num_layers * 2 * s.shape.block_bytes) as usize;
            &&& after.pools == s.pools
            &&& after.sequences == s.sequences
            &&& after.free_idx == s.free_idx
            &&& r is Ok <==> {
                &&& s.tiering is Some
                &&& i < s.blocks.len()
                &&& s.blocks[i as int].in_use
                &&& s.blocks[i as int].location matches BlockLocation::GpuResident(g, _) && g == h
                &&& cpu_slots::allocated(s.tiering->0.slots, size).0 is Some
            }
            &&& r matches Ok(ctx) ==> {
                &&& ctx.block_idx == i
                &&& ctx.handle == h
                &&& ctx.total_bytes == size
                &&& cpu_slots::allocated(s.tiering->0.slots, size).0 == Some(ctx.cpu_offset)
                &&& after.tiering->0.slots == cpu_slots::allocated(s.tiering->0.slots, size).1
                &&& after.tiering->0.scores == s.tiering->0.scores
                &&& same_blocks_but(s, after, i as int)
                &&& after.blocks[i as int].location == BlockLocation::Evicting
                &&& after.blocks[i as int].in_use
                &&& after.blocks[i as int].handle() == s.blocks[i as int].handle()
            }
            &&& r is Err ==> after.blocks == s.blocks
            &&& s.tiering is None ==> r == Err::<EvictContext, EvictError>(
                EvictError::TieringDisabled,
            )
        }),
{
}

/// An eviction that ends well leaves the block in its slot, gives back its
/// physical block and forgets the handle's score.
pub proof fn law_eviction_leaves_block_in_slot(s: PoolView, ctx: EvictContext)
    requires
        s.tiering is Some,
        s.used(ctx.block_idx),
    ensures
        ({
            let after = s.evict_finalized(ctx);
            let i = ctx.block_idx as int;
            &&& same_blocks_but(s, after, i)
            &&& after.blocks[i].location == BlockLocation::CpuResident(ctx.cpu_offset)
            &&& after.blocks[i].in_use
            &&& after.pools.free.len() == s.pools.free.len() + 1
            &&& after.pools.free.last() == s.blocks[i].handle()
            &&& after.pools.backing == s.pools.backing
            &&& after.tiering is Some
            &&& !after.tiering->0.scores.contains_key(ctx.handle.key())
            &&& forall|k: u64| k != ctx.handle.key() ==> {
                &&& #[trigger] after.tiering->0.scores.contains_key(k)
                    == s.tiering->0.scores.contains_key(k)
                &&& after.tiering->0.scores[k] == s.tiering->0.scores[k]
            }
            &&& after.tiering->0.slots == s.tiering->0.slots
            &&& after.sequences == s.sequences
        }),
{
}

/// An eviction that is called off leaves the block where it was on the
/// device, and gives back the slot.
pub proof fn law_eviction_called_off(s: PoolView, ctx: EvictContext)
    requires
        s.tiering is Some,
        s.used(ctx.block_idx),
    ensures
        ({
            let after = s.evict_rolled_back(ctx);
            let i = ctx.block_idx as int;
            &&& same_blocks_but(s, after, i)
            &&& after.blocks[i].location == BlockLocation::GpuResident(
                ctx.handle,
                s.pools.offset(ctx.handle) as u64,
            )
            &&& after.pools == s.pools
            &&& after.tiering is Some
            &&& after.tiering->0.scores == s.tiering->0.scores
            &&& after.tiering->0.slots == cpu_slots::freed(
                s.tiering->0.slots,
                ctx.cpu_offset,
                ctx.total_bytes,
            )
        }),
{
}

/// A restore that ends well leaves the block on the device, at the physical
/// block that it was given, gives back the slot and counts as an access.
pub proof fn law_restore_leaves_block_on_device(s: PoolView, ctx: RestoreContext, now: u64)
    requires
        s.tiering is Some,
        s.used(ctx.block_idx),
    ensures
        ({
            let after = s.restore_finalized(ctx, now);
            let i = ctx.block_idx as int;
            let t = s.tiering->0;
            &&& same_blocks_but(s, after, i)
            &&& after.blocks[i].location == BlockLocation::GpuResident(
                ctx.new_handle,
                ctx.va_offset as u64,
            )
            &&& after.blocks[i].handle() == s.blocks[i].handle()
            &&& after.pools == s.pools
            &&& after.tiering is Some
            &&& after.tiering->0.slots == cpu_slots::freed(
                t.slots,
                ctx.cpu_offset,
                ctx.total_bytes,
            )
            &&& t.kind == PolicyKind::Lru ==> after.tiering->0.scores.contains_key(
                ctx.new_handle.key(),
            ) && after.tiering->0.scores[ctx.new_handle.key()] == now
        }),
{
}

/// A restore that starts marks a block that stood in the slot, and gives it
/// the next free physical block; a block that stands elsewhere is refused,
/// and without a physical block it stays in its slot.
pub proof fn law_restore_marks_block(
    s: PoolView,
    i: u32,
    cpu_offset: usize,
    grants: Seq<Seq<u64>>,
    used: nat,
)
    requires
        s.slot_bytes() <= usize::MAX,
    ensures
        ({
            let (after, r) = s.restore_submitted(i, cpu_offset, grants, used);
            let swapped = i < s.blocks.len() && s.blocks[i as int].in_use
                && s.blocks[i as int].location == BlockLocation::CpuResident(cpu_offset);
            &&& r is Ok <==> swapped && s.next_physical(grants, used) is Some
            &&& after.tiering == s.tiering
            &&& after.sequences == s.sequences
            &&& r matches Ok(ctx) ==> {
                &&& ctx.block_idx == i
                &&& ctx.cpu_offset == cpu_offset
                &&& ctx.total_bytes == s.shape.num_layers * 2 * s.shape.block_bytes
                &&& s.next_physical(grants, used) == Some(ctx.new_handle)
                &&& same_blocks_but(s, after, i as int)
                &&& after.blocks[i as int].location == BlockLocation::Restoring
                &&& after.blocks[i as int].handle() == ctx.new_handle
            }
            &&& swapped && r is Err ==> {
                &&& r == Err::<RestoreContext, PoolError>(PoolError::OutOfMemory)
                &&& after.blocks =~= s.blocks
            }
            &&& !swapped ==> after == s
            &&& s.restore_used(i, cpu_offset, grants, used) - used == after.pools.backing.len()
                - s.pools.backing.len()
        }),
{
}

/// Blocks are moved in one batch where there is staging memory and they are
/// four or more and no more than a batch takes.
pub proof fn law_batches_by_size(s: PoolView, n: nat)
    requires
        s.tiering is Some,
    ensures
        s.moves_in_batch(n) <==> s.tiering->0.batching && n >= 4 && n
            <= s.tiering->0.max_batch_blocks,
{
}

/// A block cannot be restored where it is not in use, in transit or on disk,
/// and the error says so; the first such block of a list gives the error.
pub proof fn law_first_unrestorable_refused(s: PoolView, list: Seq<u32>)
    ensures
        s.first_restore_error(list) is None <==> forall|k: int|
            0 <= k < list.len() ==> s.restore_error(#[trigger] list[k]) is None,
        s.first_restore_error(list) matches Some(e) ==> exists|k: int|
            #![trigger list[k]]
            0 <= k < list.len() && s.restore_error(list[k]) == Some(e) && forall|j: int|
                0 <= j < k ==> s.restore_error(#[trigger] list[j]) is None,
    decreases list.len(),
{
    if list.len() > 0 {
        let rest = list.drop_last();
        let last = list.len() - 1;
        law_first_unrestorable_refused(s, rest);
        if s.first_restore_error(rest) is Some {
            let e = s.first_restore_error(rest)->0;
            let k = choose|k: int|
                #![trigger rest[k]]
                0 <= k < rest.len() && s.restore_error(rest[k]) == Some(e) && forall|j: int|
                    0 <= j < k ==> s.restore_error(#[trigger] rest[j]) is None;
            assert(list[k] == rest[k]);
            assert forall|j: int| 0 <= j < k implies s.restore_error(#[trigger] list[j]) is None by {
                assert(rest[j] == list[j]);
            }
        } else {
            assert forall|k: int| 0 <= k < last implies s.restore_error(
                #[trigger] list[k],
            ) is None by {
                assert(rest[k] == list[k]);
            }
            assert(list.last() == list[last]);
        }
    }
}

/// Which blocks cannot be restored, and why.
pub proof fn law_unrestorable_blocks(s: PoolView, i: u32)
    ensures
        i >= s.blocks.len() ==> s.restore_error(i) == Some(PoolError::BlockOutOfBounds(i)),
        i < s.blocks.len() && !s.blocks[i as int].in_use ==> s.restore_error(i) == Some(
            PoolError::BlockNotInUse(i),
        ),
        i < s.blocks.len() && s.blocks[i as int].in_use ==> {
            let at = s.blocks[i as int].location;
            &&& at is GpuResident || at is CpuResident ==> s.restore_error(i) is None
            &&& at is Evicting || at is Restoring ==> s.restore_error(i) == Some(
                PoolError::InTransit(i),
            )
            &&& at is NvmeResident ==> s.restore_error(i) == Some(PoolError::NvmeResident(i))
        },
{
}

/// A block holds a row of all key-value heads for each of its tokens, in two
/// bytes an element; a sequence may have the least number of blocks that hold
/// the longest one, and the pool as many for each sequence of a batch.
pub proof fn law_shape_measures_blocks(
    block_size: usize,
    num_layers: usize,
    kv_heads: usize,
    head_dim: usize,
    max_batch: usize,
    max_seq_len: usize,
)
    requires
        pool::pool_shape_ok(block_size, num_layers, kv_heads, head_dim, max_batch, max_seq_len),
    ensures
        ({
            let p = pool::pool_shape(
                block_size,
                num_layers,
                kv_heads,
                head_dim,
                max_batch,
                max_seq_len,
            );
            &&& p.elem_per_block == block_size * (kv_heads * head_dim)
            &&& p.block_bytes == 2 * p.elem_per_block
            &&& max_seq_len <= p.max_blocks_per_seq * block_size < max_seq_len + block_size
            &&& p.max_blocks_total == max_batch * p.max_blocks_per_seq
            &&& p.block_size == block_size
            &&& p.num_layers == num_layers
            &&& p.max_batch == max_batch
            &&& p.max_seq_len == max_seq_len
        }),
{
    let bs = block_size as int;
    let n = max_seq_len + bs - 1;
    vstd::arithmetic::div_mod::lemma_fundamental_div_mod(n, bs);
    vstd::arithmetic::div_mod::lemma_div_pos_is_pos(n, bs);
    assert(n / bs <= n) by (nonlinear_arith)
        requires
            bs > 0,
            n >= 0,
    ;
    assert(n / bs * bs == bs * (n / bs)) by (nonlinear_arith);
    assert(kv_heads * block_size * head_dim == block_size * (kv_heads * head_dim))
        by (nonlinear_arith);
    assert(0 <= max_batch * (n / bs)) by (nonlinear_arith)
        requires
            0 <= n / bs,
    ;
}

} // verus!
