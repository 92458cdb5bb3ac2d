use vstd::prelude::*;

use crate::kcmm::cpu_slots;
use crate::kcmm::flight_laws;
use crate::kcmm::laws;
use crate::kcmm::pool::BlockLocation;
use crate::kcmm::pool_model::{BlockInfo, PoolView};
use crate::kcmm::restore::RestoreContext;
use crate::kcmm::slot_laws;
use crate::kcmm::superblock;
use crate::kcmm::tiering::TieringView;

verus! {

/// Whether the block at index `i` is among the listed restores.
pub open spec fn is_returning(pending: Seq<RestoreContext>, i: int) -> bool {
    exists|k: int| 0 <= k < pending.len() && (#[trigger] pending[k]).block_idx == i
}

/// The blocks of the listed restores, with their slots.
pub open spec fn restore_moves(pending: Seq<RestoreContext>) -> Seq<(u32, usize)> {
    pending.map_values(|c: RestoreContext| (c.block_idx, c.cpu_offset))
}

/// The pool `u` is `s` with the listed restores in progress: each block named
/// resided in its slot, and is on its way to its physical block.
pub open spec fn returning(s: PoolView, u: PoolView, pending: Seq<RestoreContext>) -> bool {
    &&& u == (PoolView { blocks: u.blocks, pools: u.pools, ..s })
    &&& u.blocks.len() == s.blocks.len()
    &&& u.pools.block_bytes == s.pools.block_bytes
    &&& u.pools.blocks_per_superblock == s.pools.blocks_per_superblock
    &&& forall|i: int|
        0 <= i < s.blocks.len() && !is_returning(pending, i) ==> #[trigger] u.blocks[i]
            == s.blocks[i]
    &&& forall|k: int|
        0 <= k < pending.len() ==> {
            let c = #[trigger] pending[k];
            &&& s.location_of(c.block_idx) == Some(BlockLocation::CpuResident(c.cpu_offset))
            &&& u.restore_ok(c)
            &&& u.blocks[c.block_idx as int] == (BlockInfo {
                va_offset: c.va_offset,
                superblock_idx: c.new_handle.superblock_idx,
                block_index_in_sb: c.new_handle.block_index,
                in_use: true,
                location: BlockLocation::Restoring,
            })
        }
    &&& flight_laws::moves_distinct(restore_moves(pending))
}

/// The listed blocks are those before the last, and the last.
proof fn lemma_returning_parts(pending: Seq<RestoreContext>, i: int)
    requires
        pending.len() > 0,
    ensures
        is_returning(pending, i) <==> is_returning(pending.drop_last(), i) || i
            == pending.last().block_idx,
{
    let rest = pending.drop_last();
    if is_returning(pending, i) {
        let k = choose|k: int| 0 <= k < pending.len() && (#[trigger] pending[k]).block_idx == i;
        assert(k < rest.len() ==> rest[k] == pending[k]);
    }
    if is_returning(rest, i) {
        let k = choose|k: int| 0 <= k < rest.len() && (#[trigger] rest[k]).block_idx == i;
        assert(pending[k] == rest[k]);
    }
    assert(pending[pending.len() - 1] == pending.last());
}

/// Physical blocks that are free, or come with the grants not yet used.
spec fn available(s: PoolView, grants: Seq<Seq<u64>>, used: nat) -> int {
    s.pools.free.len() + (grants.len() - used) * s.pools.blocks_per_superblock
}

/// Taking one more block back.
proof fn lemma_one_more_returning(
    s: PoolView,
    u: PoolView,
    pending: Seq<RestoreContext>,
    i: u32,
    offset: usize,
    grants: Seq<Seq<u64>>,
    used: nat,
)
    requires
        u.partitioned(),
        returning(s, u, pending),
        used <= grants.len(),
        superblock::superblocks_fit(u.pools.backing.len() + grants.len() - used),
    ensures
        ({
            let (t, r) = u.restore_submitted(i, offset, grants, used);
            let now = u.restore_used(i, offset, grants, used);
            &&& t.partitioned()
            &&& used <= now <= grants.len()
            &&& t.pools.backing.len() - now == u.pools.backing.len() - used
            &&& match r {
                Ok(ctx) => {
                    &&& returning(s, t, pending.push(ctx))
                    &&& ctx.block_idx == i
                    &&& ctx.cpu_offset == offset
                    &&& available(t, grants, now) == available(u, grants, used) - 1
                },
                Err(_) => t == u && now == used,
            }
            &&& u.location_of(i) == Some(BlockLocation::CpuResident(offset)) && available(
                u,
                grants,
                used,
            ) > 0 ==> r is Ok
        }),
{
    let (t, r) = u.restore_submitted(i, offset, grants, used);
    let now = u.restore_used(i, offset, grants, used);
    let bps = u.pools.blocks_per_superblock as int;
    laws::law_restore_submit_keeps_partition(u, i, offset, grants, used);
    if u.location_of(i) == Some(BlockLocation::CpuResident(offset)) {
        let x = i as int;
        let pools = u.refilled(grants, used);
        assert((grants.len() - used) * bps == (grants.len() - used - 1) * bps + bps)
            by (nonlinear_arith);
        assert(used == grants.len() ==> (grants.len() - used) * bps == 0) by (nonlinear_arith);
        if pools.free.len() == 0 {
            assert(pools == u.pools && used >= grants.len());
            assert(t.blocks =~= u.blocks);
            assert(t =~= u);
        } else {
            let ctx = r->Ok_0;
            let more = pending.push(ctx);
            let m = (i, offset);
            assert(u.block_ok(u.blocks[x]));
            assert(t.block_ok(t.blocks[x]));
            assert(!is_returning(pending, x)) by {
                if is_returning(pending, x) {
                    let k = choose|k: int|
                        0 <= k < pending.len() && (#[trigger] pending[k]).block_idx == x;
                    assert(u.blocks[x].location == BlockLocation::Restoring);
                }
            }
            assert(s.blocks[x] == u.blocks[x]);
            assert(more.drop_last() =~= pending);
            assert forall|j: int|
                0 <= j < s.blocks.len() && !is_returning(more, j) implies #[trigger] t.blocks[j]
                == s.blocks[j] by {
                lemma_returning_parts(more, j);
                assert(u.blocks[j] == s.blocks[j]);
            }
            assert forall|k: int| 0 <= k < pending.len() implies (#[trigger] pending[k]).block_idx
                != i by {
                assert(is_returning(pending, pending[k].block_idx as int));
            }
            assert forall|k: int| 0 <= k < more.len() implies {
                let c = #[trigger] more[k];
                &&& s.location_of(c.block_idx) == Some(BlockLocation::CpuResident(c.cpu_offset))
                &&& t.restore_ok(c)
                &&& t.blocks[c.block_idx as int] == (BlockInfo {
                    va_offset: c.va_offset,
                    superblock_idx: c.new_handle.superblock_idx,
                    block_index_in_sb: c.new_handle.block_index,
                    in_use: true,
                    location: BlockLocation::Restoring,
                })
            } by {
                if k < pending.len() {
                    assert(more[k] == pending[k]);
                }
            }
            let moves = restore_moves(more);
            assert forall|k: int, l: int| 0 <= k < l < moves.len() implies (#[trigger] moves[k]).0
                != (#[trigger] moves[l]).0 by {
                let before = restore_moves(pending);
                assert(more[k] == pending[k]);
                if l < pending.len() {
                    assert(before[k] == moves[k] && before[l] == moves[l]);
                }
            }
        }
    }
}

/// After a batch of blocks was taken back, their restores are in progress.
proof fn lemma_begun_returning(s: PoolView, blocks: Seq<(u32, usize)>, grants: Seq<Seq<u64>>)
    requires
        s.partitioned(),
        superblock::superblocks_fit((s.pools.backing.len() + grants.len()) as int),
    ensures
        ({
            let (u, pending, used) = s.restore_begun(blocks, grants);
            &&& u.partitioned()
            &&& returning(s, u, pending)
            &&& used <= grants.len()
            &&& u.pools.backing.len() == s.pools.backing.len() + used
            &&& available(u, grants, used) == available(s, grants, 0) - pending.len()
        }),
    decreases blocks.len(),
{
    if blocks.len() == 0 {
        assert(returning(s, s, Seq::empty()));
    } else {
        lemma_begun_returning(s, blocks.drop_last(), grants);
        let (u, pending, used) = s.restore_begun(blocks.drop_last(), grants);
        let (i, offset) = blocks.last();
        lemma_one_more_returning(s, u, pending, i, offset, grants, used);
    }
}

/// Restores in progress hold the slots that their blocks resided in.
proof fn lemma_begun_settled(
    s: PoolView,
    flight: Map<u32, usize>,
    blocks: Seq<(u32, usize)>,
    grants: Seq<Seq<u64>>,
)
    requires
        s.partitioned(),
        s.slots_settled(flight),
        superblock::superblocks_fit((s.pools.backing.len() + grants.len()) as int),
    ensures
        ({
            let (u, pending, used) = s.restore_begun(blocks, grants);
            u.slots_settled(flight_laws::with_moves(flight, restore_moves(pending)))
        }),
    decreases blocks.len(),
{
    if blocks.len() == 0 {
        flight_laws::lemma_no_moves(flight, restore_moves(Seq::empty()));
    } else {
        let rest = blocks.drop_last();
        lemma_begun_settled(s, flight, rest, grants);
        lemma_begun_returning(s, rest, grants);
        let (u, pending, used) = s.restore_begun(rest, grants);
        let (i, offset) = blocks.last();
        lemma_one_more_returning(s, u, pending, i, offset, grants, used);
        let moves = restore_moves(pending);
        let f = flight_laws::with_moves(flight, moves);
        slot_laws::law_restore_submit_keeps_slots(u, f, i, offset, grants, used);
        if let Ok(ctx) = u.restore_submitted(i, offset, grants, used).1 {
            let m = (ctx.block_idx, ctx.cpu_offset);
            assert(restore_moves(pending.push(ctx)) =~= moves.push(m));
            flight_laws::lemma_one_more_move(flight, moves, m);
        }
    }
}

/// No block that is taken back was on its way before.
proof fn lemma_returning_new(
    s: PoolView,
    u: PoolView,
    flight: Map<u32, usize>,
    pending: Seq<RestoreContext>,
)
    requires
        s.slots_settled(flight),
        returning(s, u, pending),
    ensures
        forall|a: int|
            0 <= a < pending.len() ==> !flight.dom().contains((#[trigger] pending[a]).block_idx),
{
    assert forall|a: int| 0 <= a < pending.len() implies !flight.dom().contains(
        (#[trigger] pending[a]).block_idx,
    ) by {
        let i = pending[a].block_idx;
        assert(s.location_of(i) == Some(BlockLocation::CpuResident(pending[a].cpu_offset)));
        if flight.dom().contains(i) {
            assert(s.in_transit(i));
        }
    }
}

/// Byte `b` lies in the slot of one of the listed restores.
pub open spec fn in_slots(pending: Seq<RestoreContext>, b: int) -> bool {
    exists|k: int|
        0 <= k < pending.len() && (#[trigger] pending[k]).cpu_offset <= b < pending[k].cpu_offset
            + pending[k].total_bytes
}

/// Finalizing the first `k` restores in progress.
proof fn lemma_finalized(
    s: PoolView,
    u: PoolView,
    flight: Map<u32, usize>,
    pending: Seq<RestoreContext>,
    now: u64,
    k: nat,
)
    requires
        s.slots_settled(flight),
        u.partitioned(),
        returning(s, u, pending),
        u.slots_settled(flight_laws::with_moves(flight, restore_moves(pending))),
        k <= pending.len(),
    ensures
        ({
            let done = pending.take(k as int);
            let t = u.restore_all_finalized(done, now);
            let moves = restore_moves(pending.skip(k as int));
            &&& t.partitioned()
            &&& t == (PoolView { blocks: t.blocks, tiering: t.tiering, ..u })
            &&& t.blocks.len() == u.blocks.len()
            &&& forall|a: int|
                0 <= a < k ==> t.blocks[(#[trigger] pending[a]).block_idx as int] == (BlockInfo {
                    location: BlockLocation::GpuResident(
                        pending[a].new_handle,
                        pending[a].va_offset as u64,
                    ),
                    ..u.blocks[pending[a].block_idx as int]
                })
            &&& forall|i: int|
                0 <= i < u.blocks.len() && !is_returning(done, i) ==> #[trigger] t.blocks[i]
                    == u.blocks[i]
            &&& t.tiering == Some(
                TieringView { scores: t.tiering->0.scores, slots: t.slots(), ..u.tiering->0 },
            )
            &&& flight_laws::moves_distinct(moves)
            &&& t.slots_settled(flight_laws::with_moves(flight, moves))
            &&& forall|b: int| #[trigger]
                cpu_slots::covered(t.slots(), b) <==> cpu_slots::covered(u.slots(), b) || in_slots(
                    done,
                    b,
                )
        }),
    decreases k,
{
    let done = pending.take(k as int);
    let t = u.restore_all_finalized(done, now);
    if k == 0 {
        assert(done =~= Seq::<RestoreContext>::empty());
        assert(pending.skip(0) =~= pending);
        assert(u.tiering->0 =~= (TieringView {
            scores: u.tiering->0.scores,
            slots: u.slots(),
            ..u.tiering->0
        }));
    } else {
        let m = (k - 1) as nat;
        lemma_finalized(s, u, flight, pending, now, m);
        lemma_returning_new(s, u, flight, pending);
        let before = pending.take(m as int);
        let t0 = u.restore_all_finalized(before, now);
        assert(done.drop_last() =~= before);
        let c = pending[m as int];
        assert(done.last() == c);
        let x = c.block_idx as int;
        let all = restore_moves(pending);
        assert(!is_returning(before, x)) by {
            if is_returning(before, x) {
                let a = choose|a: int|
                    0 <= a < before.len() && (#[trigger] before[a]).block_idx == x;
                assert(all[a].0 != all[m as int].0);
            }
        }
        assert(t0.blocks[x] == u.blocks[x]);
        assert(t0.holds(x));
        assert(t0.restore_ok(c)) by {
            assert(u.restore_ok(c));
        }
        laws::law_restore_finalize_keeps_partition(t0, c, now);
        let moves0 = restore_moves(pending.skip(m as int));
        let moves = restore_moves(pending.skip(k as int));
        assert(moves0.skip(1) =~= moves);
        assert(moves0[0] == (c.block_idx, c.cpu_offset));
        let g0 = flight_laws::with_moves(flight, moves0);
        flight_laws::lemma_moved(flight, moves0, 0);
        flight_laws::lemma_first_move_ends(flight, moves0);
        slot_laws::law_restore_finalize_keeps_slots(t0, g0, c, now);
        assert forall|a: int| 0 <= a < k implies t.blocks[(
        #[trigger] pending[a]).block_idx as int] == (BlockInfo {
            location: BlockLocation::GpuResident(
                pending[a].new_handle,
                pending[a].va_offset as u64,
            ),
            ..u.blocks[pending[a].block_idx as int]
        }) by {
            if a < m {
                assert(all[a].0 != all[m as int].0);
            }
        }
        assert forall|i: int|
            0 <= i < u.blocks.len() && !is_returning(done, i) implies #[trigger] t.blocks[i]
            == u.blocks[i] by {
            lemma_returning_parts(done, i);
            assert(t0.blocks[i] == u.blocks[i]);
        }
        assert(slot_laws::unlisted(t0.slots(), c.cpu_offset as int, c.total_bytes as int)) by {
            assert(t0.slot_of(g0, c.block_idx) == Some(c.cpu_offset));
            assert(t0.held_slots(g0).dom().contains(c.block_idx));
        }
        cpu_slots::law_free_returns_bytes(t0.slots(), c.cpu_offset, c.total_bytes);
        assert forall|b: int| #[trigger]
            cpu_slots::covered(t.slots(), b) <==> cpu_slots::covered(u.slots(), b) || in_slots(
                done,
                b,
            ) by {
            assert(cpu_slots::covered(t0.slots(), b) <==> cpu_slots::covered(u.slots(), b)
                || in_slots(before, b));
            if in_slots(done, b) {
                let a = choose|a: int|
                    0 <= a < done.len() && (#[trigger] done[a]).cpu_offset <= b
                        < done[a].cpu_offset + done[a].total_bytes;
                assert(a < m ==> before[a] == done[a]);
            }
            if in_slots(before, b) {
                let a = choose|a: int|
                    0 <= a < before.len() && (#[trigger] before[a]).cpu_offset <= b
                        < before[a].cpu_offset + before[a].total_bytes;
                assert(done[a] == before[a]);
            }
            assert(done[m as int] == c);
        }
    }
}

/// The pool `t` is `s` with the listed blocks brought back. Each block named
/// resided in its slot and resides in its physical block; no other block is
/// described differently. The slots are free again.
pub open spec fn brought_back(s: PoolView, t: PoolView, pending: Seq<RestoreContext>) -> bool {
    &&& t == (PoolView { blocks: t.blocks, pools: t.pools, tiering: t.tiering, ..s })
    &&& t.blocks.len() == s.blocks.len()
    &&& forall|k: int|
        0 <= k < pending.len() ==> {
            let c = #[trigger] pending[k];
            &&& s.location_of(c.block_idx) == Some(BlockLocation::CpuResident(c.cpu_offset))
            &&& t.blocks[c.block_idx as int] == t.fresh_info(c.new_handle)
        }
    &&& forall|i: int|
        0 <= i < s.blocks.len() && !is_returning(pending, i) ==> #[trigger] t.blocks[i]
            == s.blocks[i]
    &&& s.tiering is Some
    &&& t.tiering == Some(
        TieringView { scores: t.tiering->0.scores, slots: t.slots(), ..s.tiering->0 },
    )
    &&& forall|b: int| #[trigger]
        cpu_slots::covered(t.slots(), b) <==> cpu_slots::covered(s.slots(), b) || in_slots(
            pending,
            b,
        )
}

/// Restoring a batch, whichever blocks were named, brings the blocks that got
/// a physical block back and changes nothing else. Each physical block is
/// still free or owned by exactly one block index, and each byte of the swap
/// buffer free or held by at most one block.
pub proof fn law_restore_brings_back(
    s: PoolView,
    flight: Map<u32, usize>,
    blocks: Seq<(u32, usize)>,
    grants: Seq<Seq<u64>>,
    now: u64,
)
    requires
        s.partitioned(),
        s.slots_settled(flight),
        superblock::superblocks_fit((s.pools.backing.len() + grants.len()) as int),
    ensures
        ({
            let (u, pending, used) = s.restore_begun(blocks, grants);
            let t = u.restore_all_finalized(pending, now);
            &&& u.partitioned()
            &&& u.slots_settled(flight_laws::with_moves(flight, restore_moves(pending)))
            &&& flight_laws::moves_distinct(restore_moves(pending))
            &&& brought_back(s, t, pending)
            &&& t.partitioned()
            &&& t.slots_settled(flight)
        }),
{
    lemma_begun_returning(s, blocks, grants);
    lemma_begun_settled(s, flight, blocks, grants);
    let (u, pending, used) = s.restore_begun(blocks, grants);
    let t = u.restore_all_finalized(pending, now);
    lemma_finalized(s, u, flight, pending, now, pending.len());
    assert(pending.take(pending.len() as int) =~= pending);
    flight_laws::lemma_no_moves(flight, restore_moves(pending.skip(pending.len() as int)));
    assert forall|k: int| 0 <= k < pending.len() implies {
        let c = #[trigger] pending[k];
        &&& s.location_of(c.block_idx) == Some(BlockLocation::CpuResident(c.cpu_offset))
        &&& t.blocks[c.block_idx as int] == t.fresh_info(c.new_handle)
    } by {
        let c = pending[k];
        assert(u.restore_ok(c));
    }
    assert forall|i: int|
        0 <= i < s.blocks.len() && !is_returning(pending, i) implies #[trigger] t.blocks[i]
        == s.blocks[i] by {
        assert(u.blocks[i] == s.blocks[i]);
    }
    assert(t =~= (PoolView { blocks: t.blocks, pools: t.pools, tiering: t.tiering, ..s }));
}

/// Calling off the first `k` restores in progress.
proof fn lemma_rolled_back(
    s: PoolView,
    u: PoolView,
    flight: Map<u32, usize>,
    pending: Seq<RestoreContext>,
    k: nat,
)
    requires
        s.slots_settled(flight),
        u.partitioned(),
        returning(s, u, pending),
        u.slots_settled(flight_laws::with_moves(flight, restore_moves(pending))),
        k <= pending.len(),
    ensures
        ({
            let done = pending.take(k as int);
            let t = u.restore_all_rolled_back(done);
            let moves = restore_moves(pending.skip(k as int));
            &&& t.partitioned()
            &&& t == (PoolView { blocks: t.blocks, pools: t.pools, ..u })
            &&& t.blocks.len() == u.blocks.len()
            &&& t.pools.backing == u.pools.backing
            &&& t.pools.block_bytes == u.pools.block_bytes
            &&& t.pools.blocks_per_superblock == u.pools.blocks_per_superblock
            &&& forall|a: int|
                0 <= a < k ==> t.blocks[(#[trigger] pending[a]).block_idx as int] == (BlockInfo {
                    location: BlockLocation::CpuResident(pending[a].cpu_offset),
                    ..u.blocks[pending[a].block_idx as int]
                })
            &&& forall|i: int|
                0 <= i < u.blocks.len() && !is_returning(done, i) ==> #[trigger] t.blocks[i]
                    == u.blocks[i]
            &&& flight_laws::moves_distinct(moves)
            &&& t.slots_settled(flight_laws::with_moves(flight, moves))
        }),
    decreases k,
{
    let done = pending.take(k as int);
    let t = u.restore_all_rolled_back(done);
    if k == 0 {
        assert(done =~= Seq::<RestoreContext>::empty());
        assert(pending.skip(0) =~= pending);
    } else {
        let m = (k - 1) as nat;
        lemma_rolled_back(s, u, flight, pending, m);
        lemma_returning_new(s, u, flight, pending);
        let before = pending.take(m as int);
        let t0 = u.restore_all_rolled_back(before);
        assert(done.drop_last() =~= before);
        let c = pending[m as int];
        assert(done.last() == c);
        let x = c.block_idx as int;
        let all = restore_moves(pending);
        assert(!is_returning(before, x)) by {
            if is_returning(before, x) {
                let a = choose|a: int|
                    0 <= a < before.len() && (#[trigger] before[a]).block_idx == x;
                assert(all[a].0 != all[m as int].0);
            }
        }
        assert(t0.blocks[x] == u.blocks[x]);
        assert(t0.holds(x));
        assert(t0.restore_ok(c)) by {
            assert(u.restore_ok(c));
        }
        laws::law_restore_rollback_keeps_partition(t0, c);
        let moves0 = restore_moves(pending.skip(m as int));
        let moves = restore_moves(pending.skip(k as int));
        assert(moves0.skip(1) =~= moves);
        assert(moves0[0] == (c.block_idx, c.cpu_offset));
        flight_laws::lemma_moved(flight, moves0, 0);
        flight_laws::lemma_first_move_ends(flight, moves0);
        slot_laws::law_restore_rollback_keeps_slots(
            t0,
            flight_laws::with_moves(flight, moves0),
            c,
        );
        assert forall|a: int| 0 <= a < k implies t.blocks[(
        #[trigger] pending[a]).block_idx as int] == (BlockInfo {
            location: BlockLocation::CpuResident(pending[a].cpu_offset),
            ..u.blocks[pending[a].block_idx as int]
        }) by {
            if a < m {
                assert(all[a].0 != all[m as int].0);
            }
        }
        assert forall|i: int|
            0 <= i < u.blocks.len() && !is_returning(done, i) implies #[trigger] t.blocks[i]
            == u.blocks[i] by {
            lemma_returning_parts(done, i);
            assert(t0.blocks[i] == u.blocks[i]);
        }
    }
}

/// A batch of restores that is called off leaves every block where it was,
/// and the swap buffer and the policy as they were; the physical blocks are
/// free again.
pub proof fn law_restore_called_off(
    s: PoolView,
    flight: Map<u32, usize>,
    blocks: Seq<(u32, usize)>,
    grants: Seq<Seq<u64>>,
)
    requires
        s.partitioned(),
        s.slots_settled(flight),
        superblock::superblocks_fit((s.pools.backing.len() + grants.len()) as int),
    ensures
        ({
            let (u, pending, used) = s.restore_begun(blocks, grants);
            let t = u.restore_all_rolled_back(pending);
            &&& t.partitioned()
            &&& t.slots_settled(flight)
            &&& t == (PoolView { blocks: t.blocks, pools: t.pools, ..s })
            &&& t.blocks.len() == s.blocks.len()
            &&& forall|i: u32| #[trigger] t.location_of(i) == s.location_of(i)
        }),
{
    lemma_begun_returning(s, blocks, grants);
    lemma_begun_settled(s, flight, blocks, grants);
    let (u, pending, used) = s.restore_begun(blocks, grants);
    let t = u.restore_all_rolled_back(pending);
    lemma_rolled_back(s, u, flight, pending, pending.len());
    assert(pending.take(pending.len() as int) =~= pending);
    flight_laws::lemma_no_moves(flight, restore_moves(pending.skip(pending.len() as int)));
    assert forall|i: u32| #[trigger] t.location_of(i) == s.location_of(i) by {
        if i < s.blocks.len() {
            if is_returning(pending, i as int) {
                let k = choose|k: int|
                    0 <= k < pending.len() && (#[trigger] pending[k]).block_idx == i as int;
                assert(s.location_of(i) == Some(
                    BlockLocation::CpuResident(pending[k].cpu_offset),
                ));
            } else {
                assert(u.blocks[i as int] == s.blocks[i as int]);
                assert(t.blocks[i as int] == u.blocks[i as int]);
            }
        }
    }
}

/// Each of the listed blocks resides in the slot that it is listed with, and
/// none is listed twice.
pub open spec fn swapped(s: PoolView, blocks: Seq<(u32, usize)>) -> bool {
    &&& flight_laws::moves_distinct(blocks)
    &&& forall|k: int|
        0 <= k < blocks.len() ==> s.location_of((#[trigger] blocks[k]).0) == Some(
            BlockLocation::CpuResident(blocks[k].1),
        )
}

/// Distinct blocks in the swap buffer are all restored where there are enough
/// physical blocks, counting those that come with the grants.
pub proof fn law_restore_succeeds(s: PoolView, blocks: Seq<(u32, usize)>, grants: Seq<Seq<u64>>)
    requires
        s.partitioned(),
        superblock::superblocks_fit((s.pools.backing.len() + grants.len()) as int),
        swapped(s, blocks),
        blocks.len() <= s.pools.free.len() + grants.len() * s.pools.blocks_per_superblock,
    ensures
        restore_moves(s.restore_begun(blocks, grants).1) == blocks,
    decreases blocks.len(),
{
    if blocks.len() == 0 {
        assert(restore_moves(s.restore_begun(blocks, grants).1) =~= blocks);
    } else {
        let rest = blocks.drop_last();
        let (i, offset) = blocks.last();
        assert(blocks[blocks.len() - 1] == (i, offset));
        assert forall|k: int| 0 <= k < rest.len() implies s.location_of((#[trigger] rest[k]).0)
            == Some(BlockLocation::CpuResident(rest[k].1)) by {
            assert(rest[k] == blocks[k]);
        }
        assert forall|k: int, l: int| 0 <= k < l < rest.len() implies (#[trigger] rest[k]).0 != (
        #[trigger] rest[l]).0 by {
            assert(rest[k] == blocks[k] && rest[l] == blocks[l]);
        }
        law_restore_succeeds(s, rest, grants);
        lemma_begun_returning(s, rest, grants);
        let (u, pending, used) = s.restore_begun(rest, grants);
        assert(pending.len() == rest.len()) by {
            assert(restore_moves(pending).len() == pending.len());
        }
        assert(!is_returning(pending, i as int)) by {
            if is_returning(pending, i as int) {
                let k = choose|k: int|
                    0 <= k < pending.len() && (#[trigger] pending[k]).block_idx == i as int;
                assert(restore_moves(pending)[k].0 == i);
                assert(blocks[k] == rest[k]);
            }
        }
        assert(u.blocks[i as int] == s.blocks[i as int]);
        assert(u.location_of(i) == s.location_of(i));
        lemma_one_more_returning(s, u, pending, i, offset, grants, used);
        let ctx = u.restore_submitted(i, offset, grants, used).1->Ok_0;
        assert(restore_moves(pending.push(ctx)) =~= restore_moves(pending).push((i, offset)));
        assert(rest.push((i, offset)) =~= blocks);
    }
}

/// Of distinct blocks that can all be restored, those that have to be are
/// listed with their slots, each once.
pub proof fn law_restorable_are_swapped(s: PoolView, list: Seq<u32>)
    requires
        s.first_restore_error(list) is None,
        list.no_duplicates(),
    ensures
        swapped(s, s.swapped_blocks(list)),
        forall|i: u32| #[trigger]
            flight_laws::is_moved(s.swapped_blocks(list), i) <==> list.contains(i) && (
            s.location_of(i) matches Some(BlockLocation::CpuResident(_))),
    decreases list.len(),
{
    let all = s.swapped_blocks(list);
    if list.len() > 0 {
        let rest = list.drop_last();
        let last = list[list.len() - 1];
        law_restorable_are_swapped(s, rest);
        let before = s.swapped_blocks(rest);
        assert(s.restore_error(last) is None);
        assert(s.used(last));
        assert(!rest.contains(last)) by {
            if rest.contains(last) {
                let k = choose|k: int| 0 <= k < rest.len() && rest[k] == last;
                assert(list[k] == list[list.len() - 1]);
            }
        }
        assert forall|i: u32| #[trigger] flight_laws::is_moved(all, i) <==> list.contains(i) && (
        s.location_of(i) matches Some(BlockLocation::CpuResident(_))) by {
            assert(flight_laws::is_moved(before, i) <==> rest.contains(i) && (s.location_of(
                i,
            ) matches Some(BlockLocation::CpuResident(_))));
            if rest.contains(i) {
                let k = choose|k: int| 0 <= k < rest.len() && rest[k] == i;
                assert(list[k] == i);
            }
            if list.contains(i) {
                let k = choose|k: int| 0 <= k < list.len() && list[k] == i;
                assert(k < rest.len() ==> rest[k] == i);
            }
            if flight_laws::is_moved(before, i) {
                let k = choose|k: int| 0 <= k < before.len() && (#[trigger] before[k]).0 == i;
                assert(all[k] == before[k]);
            }
            if flight_laws::is_moved(all, i) {
                let k = choose|k: int| 0 <= k < all.len() && (#[trigger] all[k]).0 == i;
                assert(k < before.len() ==> before[k] == all[k]);
            }
            if s.blocks[last as int].location is CpuResident {
                assert(all[before.len() as int].0 == last);
            }
        }
        assert(!flight_laws::is_moved(before, last));
        assert forall|k: int, l: int| 0 <= k < l < all.len() implies (#[trigger] all[k]).0 != (
        #[trigger] all[l]).0 by {
            assert(all[k] == before[k]);
            if l < before.len() {
                assert(all[l] == before[l]);
            } else {
                assert(all[l].0 == last);
            }
        }
        assert forall|k: int| 0 <= k < all.len() implies s.location_of((#[trigger] all[k]).0)
            == Some(BlockLocation::CpuResident(all[k].1)) by {
            if k < before.len() {
                assert(all[k] == before[k]);
            }
        }
    }
}

} // verus!
