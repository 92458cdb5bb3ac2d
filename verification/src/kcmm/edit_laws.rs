//! What an edit of a sequence changes, and what it leaves alone.

use vstd::prelude::*;

use crate::kcmm::free_laws;
use crate::kcmm::lockstep::LayerPoolsView;
use crate::kcmm::pool::{BlockLocation, SequencePriority};
use crate::kcmm::pool_model::{PoolView, SequenceView};
use crate::kcmm::superblock;
use crate::kcmm::superblock::BlockHandle;

verus! {

/// The two states hold the same blocks in the same memory.
pub open spec fn same_memory(a: PoolView, b: PoolView) -> bool {
    &&& a.config == b.config
    &&& a.shape == b.shape
    &&& a.va_k == b.va_k
    &&& a.va_v == b.va_v
    &&& a.pools == b.pools
    &&& a.blocks == b.blocks
    &&& a.free_idx == b.free_idx
    &&& a.tiering == b.tiering
}

/// The two states hold as many sequences, and the same ones but for `q`.
pub open spec fn same_but(a: PoolView, b: PoolView, q: int) -> bool {
    &&& a.sequences.len() == b.sequences.len()
    &&& forall|p: int|
        0 <= p < a.sequences.len() && p != q ==> #[trigger] b.sequences[p] == a.sequences[p]
}

/// A block appended to a sequence stands behind the blocks that the sequence
/// had; nothing else changes, and an unknown sequence changes nothing.
pub proof fn law_append_extends_table(s: PoolView, q: int, block_idx: u32)
    ensures
        same_memory(s, s.with_appended(q, block_idx)),
        same_but(s, s.with_appended(q, block_idx), q),
        0 <= q < s.sequences.len() ==> ({
            let before = s.sequences[q];
            let after = s.with_appended(q, block_idx).sequences[q];
            &&& after.block_table.len() == before.block_table.len() + 1
            &&& after.block_table[before.block_table.len() as int] == block_idx
            &&& forall|k: int|
                0 <= k < before.block_table.len() ==> #[trigger] after.block_table[k]
                    == before.block_table[k]
            &&& after.seq_len == before.seq_len
            &&& after.is_active == before.is_active
            &&& after.priority == before.priority
            &&& after.shared_prefix_len == before.shared_prefix_len
        }),
{
}

/// A length that is set is the length read back, of that sequence alone.
pub proof fn law_length_is_read_back(s: PoolView, q: int, len: usize)
    ensures
        same_memory(s, s.with_seq_len(q, len)),
        same_but(s, s.with_seq_len(q, len), q),
        0 <= q < s.sequences.len() ==> ({
            let before = s.sequences[q];
            let after = s.with_seq_len(q, len).sequences[q];
            &&& after.seq_len == len
            &&& after.block_table == before.block_table
            &&& after.is_active == before.is_active
            &&& after.priority == before.priority
            &&& after.shared_prefix_len == before.shared_prefix_len
        }),
{
}

/// A touched sequence is active and a cooled one is not; nothing else of it
/// changes, and nothing of the others.
pub proof fn law_touch_activates(s: PoolView, q: int, is_active: bool)
    ensures
        same_memory(s, s.with_active(q, is_active)),
        same_but(s, s.with_active(q, is_active), q),
        0 <= q < s.sequences.len() ==> ({
            let before = s.sequences[q];
            let after = s.with_active(q, is_active).sequences[q];
            &&& after.is_active == is_active
            &&& after.block_table == before.block_table
            &&& after.seq_len == before.seq_len
            &&& after.priority == before.priority
            &&& after.shared_prefix_len == before.shared_prefix_len
        }),
{
}

/// A priority that is set is the priority read back, of that sequence alone.
pub proof fn law_priority_is_read_back(s: PoolView, q: int, priority: SequencePriority)
    ensures
        same_memory(s, s.with_priority(q, priority)),
        same_but(s, s.with_priority(q, priority), q),
        0 <= q < s.sequences.len() ==> ({
            let before = s.sequences[q];
            let after = s.with_priority(q, priority).sequences[q];
            &&& after.priority == priority
            &&& after.block_table == before.block_table
            &&& after.seq_len == before.seq_len
            &&& after.is_active == before.is_active
            &&& after.shared_prefix_len == before.shared_prefix_len
        }),
{
}

/// A registered sequence stands behind the others, with the table it came
/// with, no tokens, active and of normal priority.
pub proof fn law_registered_sequence_starts_fresh(s: PoolView, block_table: Seq<u32>)
    ensures
        same_memory(s, s.with_registered(block_table)),
        ({
            let after = s.with_registered(block_table);
            let n = s.sequences.len() as int;
            &&& after.sequences.len() == n + 1
            &&& forall|p: int| 0 <= p < n ==> #[trigger] after.sequences[p] == s.sequences[p]
            &&& after.sequences[n].block_table == block_table
            &&& after.sequences[n].seq_len == 0
            &&& after.sequences[n].is_active
            &&& after.sequences[n].priority == SequencePriority::Normal
            &&& after.sequences[n].shared_prefix_len == 0
        }),
{
}

/// Freeing blocks leaves the sequences as they are.
pub proof fn law_free_keeps_sequences(s: PoolView, table: Seq<u32>)
    ensures
        s.freed_all(table).sequences == s.sequences,
    decreases table.len(),
{
    if table.len() > 0 {
        law_free_keeps_sequences(s, table.drop_last());
    }
}

/// An unregistered sequence has no blocks and no tokens left; the others keep
/// theirs.
pub proof fn law_unregister_empties(s: PoolView, q: int)
    ensures
        same_but(s, s.unregistered(q), q),
        0 <= q < s.sequences.len() ==> ({
            let before = s.sequences[q];
            let after = s.unregistered(q).sequences[q];
            &&& after.block_table.len() == 0
            &&& after.seq_len == 0
            &&& after.priority == before.priority
            &&& after.is_active == before.is_active
            &&& after.shared_prefix_len == before.shared_prefix_len
        }),
{
    if 0 <= q < s.sequences.len() {
        let seq = s.sequences[q];
        law_free_keeps_sequences(
            s.with_sequence(q, SequenceView { block_table: Seq::empty(), seq_len: 0, ..seq }),
            seq.block_table,
        );
    }
}

/// An unregistered sequence gives its blocks back: none of them is in use any
/// more, as long as none is in transit, and the blocks of other sequences stay
/// as they are.
pub proof fn law_unregister_frees_blocks(s: PoolView, q: int)
    requires
        s.wf(),
        0 <= q < s.sequences.len(),
        s.table_ok(s.sequences[q].block_table),
        s.at_rest(s.sequences[q].block_table),
    ensures
        ({
            let table = s.sequences[q].block_table;
            let after = s.unregistered(q);
            &&& forall|i: u32| #[trigger] table.contains(i) ==> !after.used(i)
            &&& forall|i: u32|
                i < s.blocks.len() && !(#[trigger] table.contains(i)) ==> after.blocks[i as int]
                    == s.blocks[i as int]
            &&& after.pools.free.len() == s.pools.free.len() + s.listed_on_gpu(table).len()
        }),
{
    let seq = s.sequences[q];
    let emptied = s.with_sequence(
        q,
        SequenceView { block_table: Seq::empty(), seq_len: 0, ..seq },
    );
    assert(emptied.wf());
    assert(emptied.table_ok(seq.block_table));
    assert(emptied.at_rest(seq.block_table));
    assert(emptied.listed_on_gpu(seq.block_table) =~= s.listed_on_gpu(seq.block_table));
    free_laws::law_free_sequence_frees_all(emptied, Map::empty(), seq.block_table);
}

/// The blocks of a superblock lie end to end from its start, and the
/// superblocks lie end to end from the start of the region.
pub proof fn law_blocks_lie_end_to_end(pools: LayerPoolsView, sb: u32, i: u32)
    ensures
        pools.offset(BlockHandle { superblock_idx: 0, block_index: 0 }) == 0,
        i < u32::MAX ==> pools.offset(
            BlockHandle { superblock_idx: sb, block_index: (i + 1) as u32 },
        ) == pools.offset(BlockHandle { superblock_idx: sb, block_index: i }) + pools.block_bytes,
        sb < u32::MAX ==> pools.offset(
            BlockHandle { superblock_idx: (sb + 1) as u32, block_index: i },
        ) == pools.offset(BlockHandle { superblock_idx: sb, block_index: i }) + 2_097_152,
{
    assert((i + 1) * pools.block_bytes == i * pools.block_bytes + pools.block_bytes)
        by (nonlinear_arith);
    assert(0 * pools.block_bytes == 0) by (nonlinear_arith);
}

/// The blocks of a new superblock are numbered from zero.
pub proof fn law_new_blocks_are_numbered(sb: nat, blocks_per_superblock: nat, i: int)
    requires
        sb <= u32::MAX,
        0 <= i < blocks_per_superblock <= 0x1_0000_0000,
    ensures
        superblock::superblock_handles(sb, blocks_per_superblock).len() == blocks_per_superblock,
        superblock::superblock_handles(sb, blocks_per_superblock)[i].superblock_idx == sb,
        superblock::superblock_handles(sb, blocks_per_superblock)[i].block_index == i,
{
}

/// An allocated block is in use, stands on the device at the place of the
/// physical block that it was given, which leaves the free list; every other
/// block stays as it was. With none free a new superblock is taken, of which
/// the last block goes first.
pub proof fn law_allocated_block_is_resident(s: PoolView, grants: Seq<Seq<u64>>, used: nat, now: u64)
    requires
        s.wf(),
        s.next_physical(grants, used) is Some,
        s.free_idx.len() > 0 || s.blocks.len() < 0x1_0000_0000,
    ensures
        ({
            let after = s.allocated(grants, used, now);
            let i = s.next_index() as int;
            let h = s.next_physical(grants, used)->0;
            let info = after.blocks[i];
            &&& 0 <= i < after.blocks.len()
            &&& info.in_use
            &&& info.superblock_idx == h.superblock_idx
            &&& info.block_index_in_sb == h.block_index
            &&& i < s.blocks.len() ==> !s.blocks[i].in_use
            &&& s.pools.free.len() > 0 ==> {
                &&& h == s.pools.free.last()
                &&& after.pools.backing == s.pools.backing
                &&& after.pools.free =~= s.pools.free.drop_last()
            }
            &&& s.pools.free.len() == 0 ==> {
                &&& h.superblock_idx as u32 == s.pools.backing.len() as u32
                &&& h.block_index + 1 == s.pools.blocks_per_superblock
                &&& after.pools.backing =~= s.pools.backing.push(grants[used as int])
                &&& after.pools.free.len() + 1 == s.pools.blocks_per_superblock
            }
            &&& info.location matches BlockLocation::GpuResident(g, va) && g == h
            &&& after.sequences == s.sequences
            &&& forall|j: int|
                0 <= j < s.blocks.len() && j != i ==> #[trigger] after.blocks[j] == s.blocks[j]
            &&& s.blocks.len() <= after.blocks.len() <= s.blocks.len() + 1
            &&& !after.free_idx.contains(i as u32)
            &&& s.used_after(grants, used) - used == after.pools.backing.len()
                - s.pools.backing.len()
        }),
{
    let after = s.allocated(grants, used, now);
    let taken = s.physical_taken(grants, used);
    if s.free_idx.len() > 0 {
        assert(!s.blocks[s.free_idx.last() as int].in_use);
        assert(s.free_idx.contains(s.free_idx.last()));
        assert(after.free_idx == s.free_idx.drop_last());
        assert(!s.free_idx.drop_last().contains(s.free_idx.last()));
    } else {
        assert(after.free_idx == s.free_idx);
    }
    assert(taken.blocks == s.blocks);
}

} // verus!
