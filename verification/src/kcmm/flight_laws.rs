use core::ops::Range;
use vstd::prelude::*;

use crate::kcmm::cpu_slots;
use crate::kcmm::evict::EvictContext;
use crate::kcmm::laws;
use crate::kcmm::pool::BlockLocation;
use crate::kcmm::pool_model::{BlockInfo, PoolView};
use crate::kcmm::slot_laws;
use crate::kcmm::superblock::BlockHandle;

verus! {

/// Behind the first range nothing is covered up to the next.
proof fn lemma_tail_covered(ranges: Seq<Range<usize>>, b: int)
    requires
        cpu_slots::ranges_separated(ranges),
        ranges.len() > 0,
    ensures
        cpu_slots::ranges_separated(ranges.skip(1)),
        cpu_slots::covered(ranges.skip(1), b) <==> cpu_slots::covered(ranges, b) && !(
        ranges[0].start <= b < ranges[0].end),
        cpu_slots::covered(ranges, b) ==> ranges[0].start <= b,
        ranges[0].start <= b < ranges[0].end ==> cpu_slots::covered(ranges, b),
        !cpu_slots::covered(ranges, ranges[0].end as int),
{
    let tail = ranges.skip(1);
    assert forall|i: int| 0 <= i < tail.len() implies (#[trigger] tail[i]).start < tail[i].end by {
        assert(tail[i] == ranges[i + 1]);
    }
    assert forall|i: int, j: int| 0 <= i < j < tail.len() implies (#[trigger] tail[i]).end < (
    #[trigger] tail[j]).start by {
        assert(tail[i] == ranges[i + 1] && tail[j] == ranges[j + 1]);
    }
    if cpu_slots::covered(tail, b) {
        let i = choose|i: int|
            0 <= i < tail.len() && (#[trigger] tail[i]).start <= b < tail[i].end;
        assert(ranges[i + 1].start <= b < ranges[i + 1].end);
        assert(ranges[0].end < ranges[i + 1].start);
    }
    if cpu_slots::covered(ranges, b) {
        let i = choose|i: int|
            0 <= i < ranges.len() && (#[trigger] ranges[i]).start <= b < ranges[i].end;
        if i > 0 {
            assert(ranges[0].end < ranges[i].start);
            assert(tail[i - 1].start <= b < tail[i - 1].end);
        }
    }
    let e = ranges[0].end as int;
    if cpu_slots::covered(ranges, e) {
        let i = choose|i: int|
            0 <= i < ranges.len() && (#[trigger] ranges[i]).start <= e < ranges[i].end;
        if i > 0 {
            assert(ranges[0].end < ranges[i].start);
        }
    }
}

/// Sorted and merged lists that cover the same bytes are the same.
pub proof fn law_ranges_canonical(a: Seq<Range<usize>>, b: Seq<Range<usize>>)
    requires
        cpu_slots::ranges_separated(a),
        cpu_slots::ranges_separated(b),
        forall|x: int| #[trigger] cpu_slots::covered(a, x) <==> cpu_slots::covered(b, x),
    ensures
        a == b,
    decreases a.len(),
{
    if a.len() == 0 {
        if b.len() > 0 {
            assert(b[0].start <= b[0].start < b[0].end);
            assert(cpu_slots::covered(b, b[0].start as int));
            assert(cpu_slots::covered(a, b[0].start as int));
        }
    } else {
        let x = a[0].start as int;
        lemma_tail_covered(a, x);
        assert(cpu_slots::covered(a, x));
        assert(b.len() > 0);
        let y = b[0].start as int;
        lemma_tail_covered(b, x);
        lemma_tail_covered(b, y);
        lemma_tail_covered(a, y);
        assert(cpu_slots::covered(b, y));
        assert(cpu_slots::covered(a, y));
        assert(x == y);
        let p = a[0].end as int;
        let q = b[0].end as int;
        lemma_tail_covered(a, q);
        lemma_tail_covered(b, p);
        assert(p == q) by {
            if p < q {
                assert(cpu_slots::covered(b, p));
                assert(cpu_slots::covered(a, p));
            } else if q < p {
                assert(cpu_slots::covered(a, q));
            }
        }
        assert forall|z: int| #[trigger] cpu_slots::covered(a.skip(1), z) <==> cpu_slots::covered(
            b.skip(1),
            z,
        ) by {
            lemma_tail_covered(a, z);
            lemma_tail_covered(b, z);
            assert(cpu_slots::covered(a, z) <==> cpu_slots::covered(b, z));
        }
        law_ranges_canonical(a.skip(1), b.skip(1));
        assert(a[0] == b[0]);
        assert forall|i: int| 0 <= i < a.len() implies a[i] == b[i] by {
            if i > 0 {
                assert(a.skip(1)[i - 1] == b.skip(1)[i - 1]);
            }
        }
        assert(a.len() == a.skip(1).len() + 1 && b.len() == b.skip(1).len() + 1);
        assert(a =~= b);
    }
}

/// Byte `b` lies in the slot of one of the listed evictions.
pub open spec fn in_slots(pending: Seq<EvictContext>, b: int) -> bool {
    exists|k: int|
        0 <= k < pending.len() && (#[trigger] pending[k]).cpu_offset <= b < pending[k].cpu_offset
            + pending[k].total_bytes
}

/// Whether the block at index `i` is among the listed evictions.
pub open spec fn is_pending(pending: Seq<EvictContext>, i: int) -> bool {
    exists|k: int| 0 <= k < pending.len() && (#[trigger] pending[k]).block_idx == i
}

/// Block `i` resides in GPU memory where its description says.
pub open spec fn resident(s: PoolView, i: int) -> bool {
    &&& 0 <= i < s.blocks.len()
    &&& s.blocks[i].in_use
    &&& s.blocks[i].location == BlockLocation::GpuResident(
        s.blocks[i].handle(),
        s.pools.offset(s.blocks[i].handle()) as u64,
    )
}

/// The pool `u` is `s` with the listed evictions in progress.
pub open spec fn underway(s: PoolView, u: PoolView, pending: Seq<EvictContext>) -> bool {
    &&& s.tiering is Some
    &&& u == (PoolView { blocks: u.blocks, ..s }).with_slots(u.slots())
    &&& u.blocks.len() == s.blocks.len()
    &&& forall|i: int|
        0 <= i < s.blocks.len() ==> #[trigger] u.blocks[i] == if is_pending(pending, i) {
            BlockInfo { location: BlockLocation::Evicting, ..s.blocks[i] }
        } else {
            s.blocks[i]
        }
    &&& cpu_slots::ranges_separated(s.slots())
    &&& cpu_slots::ranges_separated(u.slots())
    &&& forall|b: int| #[trigger]
        cpu_slots::covered(s.slots(), b) <==> cpu_slots::covered(u.slots(), b) || in_slots(
            pending,
            b,
        )
    &&& forall|b: int| #[trigger] cpu_slots::covered(u.slots(), b) ==> !in_slots(pending, b)
    &&& forall|k: int|
        0 <= k < pending.len() ==> {
            let c = #[trigger] pending[k];
            &&& resident(s, c.block_idx as int)
            &&& s.blocks[c.block_idx as int].handle() == c.handle
            &&& s.evict_ok(c)
            &&& c.total_bytes > 0
        }
    &&& forall|k: int, l: int|
        0 <= k < l < pending.len() ==> (#[trigger] pending[k]).block_idx != (
        #[trigger] pending[l]).block_idx && (pending[k].cpu_offset + pending[k].total_bytes
            <= pending[l].cpu_offset || pending[l].cpu_offset + pending[l].total_bytes
            <= pending[k].cpu_offset)
}

/// Preparing one more eviction.
pub proof fn lemma_one_more_underway(
    s: PoolView,
    u: PoolView,
    pending: Seq<EvictContext>,
    h: BlockHandle,
)
    requires
        s.partitioned(),
        underway(s, u, pending),
    ensures
        match u.evict_prepared(h) {
            (t, Ok(ctx)) => {
                &&& underway(s, t, pending.push(ctx))
                &&& ctx.handle == h
                &&& s.resides_at(h, ctx.block_idx as int)
                &&& !is_pending(pending, ctx.block_idx as int)
            },
            (t, Err(_)) => t == u,
        },
{
    let x = u.index_of(h);
    let i = x as u32;
    if u.has_handle(h) {
        assert(u.is_index_of(h, x));
        assert(u.used(i));
    }
    if u.evict_prepared(h).1 is Ok {
        assert(u.resides_at(h, x));
        assert(!is_pending(pending, x));
        assert(s.blocks[x] == u.blocks[x]);
        assert(s.holds(x));
        assert(s.residence_ok(x));
        assert(s.block_ok(s.blocks[x]));
        assert(resident(s, x));
    }
    let size = u.slot_bytes() as usize;
    let (found, after) = cpu_slots::allocated(u.slots(), size);
    if u.evict_prepared(h).1 is Ok {
        let (t, r) = u.evict_submitted(i, h);
        let ctx = r->Ok_0;
        let now = pending.push(ctx);
        cpu_slots::law_allocate_takes_free_bytes(u.slots(), size);
        assert forall|b: int| #[trigger] in_slots(now, b) <==> in_slots(pending, b)
            || ctx.cpu_offset <= b < ctx.cpu_offset + size by {
            if in_slots(now, b) {
                let k = choose|k: int|
                    0 <= k < now.len() && (#[trigger] now[k]).cpu_offset <= b < now[k].cpu_offset
                        + now[k].total_bytes;
                if k < pending.len() {
                    assert(pending[k] == now[k]);
                }
            }
            if in_slots(pending, b) {
                let k = choose|k: int|
                    0 <= k < pending.len() && (#[trigger] pending[k]).cpu_offset <= b
                        < pending[k].cpu_offset + pending[k].total_bytes;
                assert(now[k] == pending[k]);
            }
            if ctx.cpu_offset <= b < ctx.cpu_offset + size {
                assert(now[pending.len() as int] == ctx);
            }
        }
        assert forall|j: int| #[trigger] is_pending(now, j) <==> is_pending(pending, j) || j == x by {
            if is_pending(now, j) {
                let k = choose|k: int| 0 <= k < now.len() && (#[trigger] now[k]).block_idx == j;
                if k < pending.len() {
                    assert(pending[k] == now[k]);
                }
            }
            if is_pending(pending, j) {
                let k = choose|k: int|
                    0 <= k < pending.len() && (#[trigger] pending[k]).block_idx == j;
                assert(now[k] == pending[k]);
            }
            assert(now[pending.len() as int] == ctx);
        }
        assert forall|k: int| 0 <= k < pending.len() implies (#[trigger] pending[k]).block_idx != i
            && (pending[k].cpu_offset + pending[k].total_bytes <= ctx.cpu_offset || ctx.cpu_offset
            + size <= pending[k].cpu_offset) by {
            let c = pending[k];
            assert(s.blocks[c.block_idx as int].handle() == c.handle);
            if c.cpu_offset < ctx.cpu_offset + size && ctx.cpu_offset < c.cpu_offset
                + c.total_bytes {
                let m = if c.cpu_offset < ctx.cpu_offset {
                    ctx.cpu_offset as int
                } else {
                    c.cpu_offset as int
                };
                assert(cpu_slots::covered(u.slots(), m));
                assert(in_slots(pending, m));
            }
        }
        assert forall|b: int| #[trigger]
            cpu_slots::covered(s.slots(), b) <==> cpu_slots::covered(t.slots(), b) || in_slots(
                now,
                b,
            ) by {
            assert(in_slots(now, b) <==> in_slots(pending, b) || ctx.cpu_offset <= b
                < ctx.cpu_offset + size);
            assert(cpu_slots::covered(s.slots(), b) <==> cpu_slots::covered(u.slots(), b)
                || in_slots(pending, b));
        }
        assert forall|b: int| #[trigger] cpu_slots::covered(t.slots(), b) implies !in_slots(
            now,
            b,
        ) by {
            assert(cpu_slots::covered(u.slots(), b));
            assert(in_slots(now, b) <==> in_slots(pending, b) || ctx.cpu_offset <= b
                < ctx.cpu_offset + size);
        }
        assert forall|j: int| 0 <= j < s.blocks.len() implies #[trigger] t.blocks[j]
            == if is_pending(now, j) {
            BlockInfo { location: BlockLocation::Evicting, ..s.blocks[j] }
        } else {
            s.blocks[j]
        } by {
            assert(is_pending(now, j) <==> is_pending(pending, j) || j == x);
            assert(u.blocks[j] == if is_pending(pending, j) {
                BlockInfo { location: BlockLocation::Evicting, ..s.blocks[j] }
            } else {
                s.blocks[j]
            });
        }
        assert(t =~= (PoolView { blocks: t.blocks, ..s }).with_slots(t.slots())) by {
            assert(t.tiering->0 =~= (PoolView { blocks: t.blocks, ..s }).with_slots(
                t.slots(),
            ).tiering->0);
        }
    }
}

/// Calling off the first of the evictions in progress.
proof fn lemma_one_less_underway(s: PoolView, u: PoolView, pending: Seq<EvictContext>)
    requires
        s.wf(),
        underway(s, u, pending),
        pending.len() > 0,
    ensures
        underway(s, u.evict_rolled_back(pending[0]), pending.skip(1)),
{
    let c = pending[0];
    let x = c.block_idx as int;
    let rest = pending.skip(1);
    let t = u.evict_rolled_back(c);
    assert(resident(s, x));
    assert(is_pending(pending, x));
    assert(u.blocks[x].in_use);
    assert forall|b: int| c.cpu_offset <= b < c.cpu_offset + c.total_bytes implies !cpu_slots::covered(
        u.slots(),
        b,
    ) by {
        assert(in_slots(pending, b));
    }
    cpu_slots::law_free_returns_bytes(u.slots(), c.cpu_offset, c.total_bytes);
    assert forall|b: int| #[trigger] in_slots(pending, b) <==> in_slots(rest, b) || c.cpu_offset <= b
        < c.cpu_offset + c.total_bytes by {
        if in_slots(pending, b) {
            let k = choose|k: int|
                0 <= k < pending.len() && (#[trigger] pending[k]).cpu_offset <= b
                    < pending[k].cpu_offset + pending[k].total_bytes;
            if k > 0 {
                assert(rest[k - 1] == pending[k]);
            }
        }
        if in_slots(rest, b) {
            let k = choose|k: int|
                0 <= k < rest.len() && (#[trigger] rest[k]).cpu_offset <= b < rest[k].cpu_offset
                    + rest[k].total_bytes;
            assert(pending[k + 1] == rest[k]);
        }
    }
    assert forall|j: int| #[trigger] is_pending(rest, j) <==> is_pending(pending, j) && j != x by {
        if is_pending(rest, j) {
            let k = choose|k: int| 0 <= k < rest.len() && (#[trigger] rest[k]).block_idx == j;
            assert(pending[k + 1] == rest[k]);
            assert(pending[0].block_idx != pending[k + 1].block_idx);
        }
        if is_pending(pending, j) && j != x {
            let k = choose|k: int|
                0 <= k < pending.len() && (#[trigger] pending[k]).block_idx == j;
            assert(rest[k - 1] == pending[k]);
        }
    }
    assert forall|k: int| 0 <= k < rest.len() implies {
        let d = #[trigger] rest[k];
        &&& resident(s, d.block_idx as int)
        &&& s.blocks[d.block_idx as int].handle() == d.handle
        &&& s.evict_ok(d)
        &&& d.total_bytes > 0
    } by {
        assert(rest[k] == pending[k + 1]);
    }
    assert forall|k: int, l: int| 0 <= k < l < rest.len() implies (#[trigger] rest[k]).block_idx
        != (#[trigger] rest[l]).block_idx && (rest[k].cpu_offset + rest[k].total_bytes
        <= rest[l].cpu_offset || rest[l].cpu_offset + rest[l].total_bytes
        <= rest[k].cpu_offset) by {
        assert(rest[k] == pending[k + 1] && rest[l] == pending[l + 1]);
    }
    assert forall|b: int| #[trigger]
        cpu_slots::covered(s.slots(), b) <==> cpu_slots::covered(t.slots(), b) || in_slots(
            rest,
            b,
        ) by {
        assert(in_slots(pending, b) <==> in_slots(rest, b) || c.cpu_offset <= b < c.cpu_offset
            + c.total_bytes);
        assert(cpu_slots::covered(t.slots(), b) <==> cpu_slots::covered(u.slots(), b)
            || c.cpu_offset <= b < c.cpu_offset + c.total_bytes);
    }
    assert forall|b: int| #[trigger] cpu_slots::covered(t.slots(), b) implies !in_slots(rest, b) by {
        assert(in_slots(pending, b) <==> in_slots(rest, b) || c.cpu_offset <= b < c.cpu_offset
            + c.total_bytes);
        if in_slots(rest, b) && !cpu_slots::covered(u.slots(), b) {
            let k = choose|k: int|
                0 <= k < rest.len() && (#[trigger] rest[k]).cpu_offset <= b < rest[k].cpu_offset
                    + rest[k].total_bytes;
            assert(pending[k + 1] == rest[k]);
            assert(pending[0].cpu_offset + pending[0].total_bytes <= pending[k + 1].cpu_offset
                || pending[k + 1].cpu_offset + pending[k + 1].total_bytes
                <= pending[0].cpu_offset);
        }
    }
    assert forall|j: int| 0 <= j < s.blocks.len() implies #[trigger] t.blocks[j]
        == if is_pending(rest, j) {
        BlockInfo { location: BlockLocation::Evicting, ..s.blocks[j] }
    } else {
        s.blocks[j]
    } by {
        assert(is_pending(rest, j) <==> is_pending(pending, j) && j != x);
        assert(u.blocks[j] == if is_pending(pending, j) {
            BlockInfo { location: BlockLocation::Evicting, ..s.blocks[j] }
        } else {
            s.blocks[j]
        });
    }
    assert(t =~= (PoolView { blocks: t.blocks, ..s }).with_slots(t.slots())) by {
        assert(t.tiering->0 =~= (PoolView { blocks: t.blocks, ..s }).with_slots(
            t.slots(),
        ).tiering->0);
    }
}

/// After victims were prepared and copied one after the other, the evictions
/// of those that were copied are in progress.
pub proof fn lemma_run_underway(s: PoolView, victims: Seq<BlockHandle>, copied: Seq<bool>)
    requires
        s.partitioned(),
        s.tiering is Some,
        cpu_slots::ranges_separated(s.slots()),
    ensures
        ({
            let (u, pending, error) = s.evict_run(victims, copied);
            &&& u.partitioned()
            &&& underway(s, u, pending)
        }),
    decreases victims.len(),
{
    if victims.len() == 0 {
        assert(s.with_slots(s.slots()) =~= s) by {
            assert(s.with_slots(s.slots()).tiering->0 =~= s.tiering->0);
        }
    } else {
        let h = victims.last();
        lemma_run_underway(s, victims.drop_last(), copied);
        let (u, pending, error) = s.evict_run(victims.drop_last(), copied);
        lemma_one_more_underway(s, u, pending, h);
        if u.has_handle(h) {
            laws::law_evict_submit_keeps_partition(u, u.index_of(h) as u32, h);
            lemma_failed_copy(s, u, pending, h);
        }
    }
}

/// A block that could not be copied is as it was.
proof fn lemma_failed_copy(s: PoolView, u: PoolView, pending: Seq<EvictContext>, h: BlockHandle)
    requires
        s.partitioned(),
        u.partitioned(),
        underway(s, u, pending),
    ensures
        u.evict_prepared(h) matches (t, Ok(ctx)) ==> t.evict_rolled_back(ctx) == u,
{
    if u.evict_prepared(h).1 is Ok {
        let x = u.index_of(h);
        assert(u.is_index_of(h, x));
        assert(u.holds(x) && u.residence_ok(x));
        laws::law_evict_rollback_undoes_submit(u, x as u32);
    }
}

/// Evictions that are called off leave the pool as it was, whichever blocks
/// were named and copied.
pub proof fn law_rollback_undoes_run(s: PoolView, victims: Seq<BlockHandle>, copied: Seq<bool>)
    requires
        s.partitioned(),
        s.tiering is Some,
        cpu_slots::ranges_separated(s.slots()),
    ensures
        ({
            let (u, pending, error) = s.evict_run(victims, copied);
            u.evict_all_rolled_back(pending) == s
        }),
{
    lemma_run_underway(s, victims, copied);
    let (u, pending, _) = s.evict_run(victims, copied);
    lemma_rolled_back_underway(s, u, pending, pending.len());
    let t = u.evict_all_rolled_back(pending);
    let none = pending.skip(pending.len() as int);
    assert(pending.take(pending.len() as int) =~= pending);
    assert forall|b: int| #[trigger] cpu_slots::covered(s.slots(), b) <==> cpu_slots::covered(
        t.slots(),
        b,
    ) by {
        assert(!in_slots(none, b));
    }
    law_ranges_canonical(s.slots(), t.slots());
    assert forall|i: int| 0 <= i < s.blocks.len() implies t.blocks[i] == s.blocks[i] by {
        assert(!is_pending(none, i));
    }
    assert(t.blocks =~= s.blocks);
    assert(t.tiering->0 =~= s.tiering->0);
    assert(t =~= s);
}

/// Calling off the first `k` evictions leaves the others in progress.
proof fn lemma_rolled_back_underway(s: PoolView, u: PoolView, pending: Seq<EvictContext>, k: nat)
    requires
        s.wf(),
        underway(s, u, pending),
        k <= pending.len(),
    ensures
        underway(
            s,
            u.evict_all_rolled_back(pending.take(k as int)),
            pending.skip(k as int),
        ),
    decreases k,
{
    if k == 0 {
        assert(pending.take(0) =~= Seq::<EvictContext>::empty());
        assert(pending.skip(0) =~= pending);
    } else {
        let m = (k - 1) as nat;
        lemma_rolled_back_underway(s, u, pending, m);
        assert(pending.take(k as int).drop_last() =~= pending.take(m as int));
        assert(pending.take(k as int).last() == pending[m as int]);
        let mid = u.evict_all_rolled_back(pending.take(m as int));
        lemma_one_less_underway(s, mid, pending.skip(m as int));
        assert(pending.skip(m as int).skip(1) =~= pending.skip(k as int));
    }
}

/// Blocks that are moved, with the slots of the swap buffer that they move
/// from or to: none is listed twice.
pub open spec fn moves_distinct(moves: Seq<(u32, usize)>) -> bool {
    forall|k: int, l: int|
        0 <= k < l < moves.len() ==> (#[trigger] moves[k]).0 != (#[trigger] moves[l]).0
}

/// Whether block `i` is among the blocks that are moved.
pub open spec fn is_moved(moves: Seq<(u32, usize)>, i: u32) -> bool {
    exists|k: int| 0 <= k < moves.len() && (#[trigger] moves[k]).0 == i
}

/// The slots of the blocks on their way, with those of the listed moves.
pub open spec fn with_moves(flight: Map<u32, usize>, moves: Seq<(u32, usize)>) -> Map<u32, usize> {
    Map::new(
        |i: u32| flight.dom().contains(i) || is_moved(moves, i),
        |i: u32|
            if is_moved(moves, i) {
                moves[choose|k: int| 0 <= k < moves.len() && (#[trigger] moves[k]).0 == i].1
            } else {
                flight[i]
            },
    )
}

/// The blocks of the listed evictions, with their slots.
pub open spec fn evict_moves(pending: Seq<EvictContext>) -> Seq<(u32, usize)> {
    pending.map_values(|c: EvictContext| (c.block_idx, c.cpu_offset))
}

/// A block that is moved is on its way, with its slot.
pub proof fn lemma_moved(flight: Map<u32, usize>, moves: Seq<(u32, usize)>, k: int)
    requires
        moves_distinct(moves),
        0 <= k < moves.len(),
    ensures
        slot_laws::in_flight(with_moves(flight, moves), moves[k].0, moves[k].1),
{
    let i = moves[k].0;
    assert(is_moved(moves, i));
    let m = choose|m: int| 0 <= m < moves.len() && (#[trigger] moves[m]).0 == i;
    assert(m == k);
}

/// Without moves the blocks on their way are as they were.
pub proof fn lemma_no_moves(flight: Map<u32, usize>, moves: Seq<(u32, usize)>)
    requires
        moves.len() == 0,
    ensures
        with_moves(flight, moves) == flight,
{
    assert(with_moves(flight, moves) =~= flight);
}

/// One more block that is moved is on its way, with its slot.
pub proof fn lemma_one_more_move(flight: Map<u32, usize>, moves: Seq<(u32, usize)>, m: (u32, usize))
    requires
        moves_distinct(moves.push(m)),
    ensures
        with_moves(flight, moves.push(m)) == with_moves(flight, moves).insert(m.0, m.1),
{
    let more = moves.push(m);
    let now = with_moves(flight, more);
    let want = with_moves(flight, moves).insert(m.0, m.1);
    assert(more[moves.len() as int] == m);
    lemma_moved(flight, more, moves.len() as int);
    assert(moves_distinct(moves)) by {
        assert forall|k: int, l: int| 0 <= k < l < moves.len() implies (#[trigger] moves[k]).0 != (
        #[trigger] moves[l]).0 by {
            assert(more[k] == moves[k] && more[l] == moves[l]);
        }
    }
    assert forall|i: u32| #[trigger] is_moved(more, i) <==> is_moved(moves, i) || i == m.0 by {
        if is_moved(more, i) {
            let k = choose|k: int| 0 <= k < more.len() && (#[trigger] more[k]).0 == i;
            assert(k < moves.len() ==> moves[k] == more[k]);
        }
        if is_moved(moves, i) {
            let k = choose|k: int| 0 <= k < moves.len() && (#[trigger] moves[k]).0 == i;
            assert(more[k] == moves[k]);
        }
    }
    assert forall|i: u32| #[trigger] now.dom().contains(i) <==> want.dom().contains(i) by {
        assert(is_moved(more, i) <==> is_moved(moves, i) || i == m.0);
    }
    assert forall|i: u32| #[trigger] now.dom().contains(i) implies now[i] == want[i] by {
        assert(is_moved(more, i) <==> is_moved(moves, i) || i == m.0);
        if i != m.0 && is_moved(moves, i) {
            let k = choose|k: int| 0 <= k < moves.len() && (#[trigger] moves[k]).0 == i;
            assert(more[k] == moves[k]);
            lemma_moved(flight, moves, k);
            lemma_moved(flight, more, k);
        }
    }
    assert(now =~= want);
}

/// When the first of the moves is over, the others go on.
pub proof fn lemma_first_move_ends(flight: Map<u32, usize>, moves: Seq<(u32, usize)>)
    requires
        moves_distinct(moves),
        moves.len() > 0,
        !flight.dom().contains(moves[0].0),
    ensures
        moves_distinct(moves.skip(1)),
        with_moves(flight, moves).remove(moves[0].0) == with_moves(flight, moves.skip(1)),
{
    let rest = moves.skip(1);
    let first = moves[0].0;
    assert(moves_distinct(rest)) by {
        assert forall|k: int, l: int| 0 <= k < l < rest.len() implies (#[trigger] rest[k]).0 != (
        #[trigger] rest[l]).0 by {
            assert(moves[k + 1] == rest[k] && moves[l + 1] == rest[l]);
        }
    }
    let want = with_moves(flight, moves).remove(first);
    let now = with_moves(flight, rest);
    assert forall|i: u32| #[trigger] is_moved(rest, i) <==> is_moved(moves, i) && i != first by {
        if is_moved(rest, i) {
            let k = choose|k: int| 0 <= k < rest.len() && (#[trigger] rest[k]).0 == i;
            assert(moves[k + 1] == rest[k]);
            assert(moves[0].0 != moves[k + 1].0);
        }
        if is_moved(moves, i) && i != first {
            let k = choose|k: int| 0 <= k < moves.len() && (#[trigger] moves[k]).0 == i;
            assert(rest[k - 1] == moves[k]);
        }
    }
    assert forall|i: u32| #[trigger] now.dom().contains(i) <==> want.dom().contains(i) by {
        assert(is_moved(rest, i) <==> is_moved(moves, i) && i != first);
    }
    assert forall|i: u32| #[trigger] now.dom().contains(i) implies now[i] == want[i] by {
        assert(is_moved(rest, i) <==> is_moved(moves, i) && i != first);
        if is_moved(rest, i) {
            let k = choose|k: int| 0 <= k < rest.len() && (#[trigger] rest[k]).0 == i;
            assert(moves[k + 1] == rest[k]);
            lemma_moved(flight, rest, k);
            lemma_moved(flight, moves, k + 1);
        }
    }
    assert(now =~= want);
}

/// The listed blocks are those before the last, and the last.
pub proof fn lemma_pending_parts(pending: Seq<EvictContext>, i: int)
    requires
        pending.len() > 0,
    ensures
        is_pending(pending, i) <==> is_pending(pending.drop_last(), i) || i
            == pending.last().block_idx,
{
    let rest = pending.drop_last();
    if is_pending(pending, i) {
        let k = choose|k: int| 0 <= k < pending.len() && (#[trigger] pending[k]).block_idx == i;
        if k < rest.len() {
            assert(rest[k] == pending[k]);
        }
    }
    if is_pending(rest, i) {
        let k = choose|k: int| 0 <= k < rest.len() && (#[trigger] rest[k]).block_idx == i;
        assert(pending[k] == rest[k]);
    }
    assert(pending[pending.len() - 1] == pending.last());
}

/// Evictions in progress hold slots of their own.
proof fn lemma_run_settled(
    s: PoolView,
    flight: Map<u32, usize>,
    victims: Seq<BlockHandle>,
    copied: Seq<bool>,
)
    requires
        s.partitioned(),
        s.slots_settled(flight),
    ensures
        ({
            let (u, pending, error) = s.evict_run(victims, copied);
            &&& moves_distinct(evict_moves(pending))
            &&& u.slots_settled(with_moves(flight, evict_moves(pending)))
        }),
    decreases victims.len(),
{
    if victims.len() == 0 {
        lemma_no_moves(flight, evict_moves(Seq::empty()));
    } else {
        let rest = victims.drop_last();
        let h = victims.last();
        lemma_run_settled(s, flight, rest, copied);
        lemma_run_underway(s, rest, copied);
        let (u, pending, error) = s.evict_run(rest, copied);
        lemma_one_more_underway(s, u, pending, h);
        lemma_failed_copy(s, u, pending, h);
        if u.has_handle(h) {
            let i = u.index_of(h) as u32;
            let moves = evict_moves(pending);
            slot_laws::law_evict_submit_keeps_slots(u, with_moves(flight, moves), i, h);
            if let Ok(ctx) = u.evict_submitted(i, h).1 {
                let m = (ctx.block_idx, ctx.cpu_offset);
                assert(evict_moves(pending.push(ctx)) =~= moves.push(m));
                assert forall|k: int| 0 <= k < moves.len() implies (#[trigger] moves[k]).0
                    != ctx.block_idx by {
                    assert(pending[k].block_idx == moves[k].0);
                }
                lemma_one_more_move(flight, moves, m);
            }
        }
    }
}

/// Finalizing the first `k` evictions leaves them in their slots.
proof fn lemma_finalized_settled(
    u: PoolView,
    flight: Map<u32, usize>,
    pending: Seq<EvictContext>,
    k: nat,
)
    requires
        u.slots_settled(with_moves(flight, evict_moves(pending))),
        moves_distinct(evict_moves(pending)),
        forall|a: int| 0 <= a < pending.len() ==> !flight.dom().contains(
            (#[trigger] pending[a]).block_idx,
        ),
        k <= pending.len(),
    ensures
        ({
            let moves = evict_moves(pending.skip(k as int));
            let t = u.evict_all_finalized(pending.take(k as int));
            &&& moves_distinct(moves)
            &&& t.slots_settled(with_moves(flight, moves))
            &&& forall|a: int|
                0 <= a < k ==> t.slot_of(
                    with_moves(flight, moves),
                    (#[trigger] pending[a]).block_idx,
                ) == Some(pending[a].cpu_offset)
        }),
    decreases k,
{
    if k == 0 {
        assert(pending.take(0) =~= Seq::<EvictContext>::empty());
        assert(pending.skip(0) =~= pending);
    } else {
        let m = (k - 1) as nat;
        lemma_finalized_settled(u, flight, pending, m);
        let head = pending.take(k as int);
        assert(head.drop_last() =~= pending.take(m as int));
        let c = pending[m as int];
        assert(head.last() == c);
        let moves0 = evict_moves(pending.skip(m as int));
        let moves = evict_moves(pending.skip(k as int));
        assert(moves0.skip(1) =~= moves);
        let g0 = with_moves(flight, moves0);
        let g = with_moves(flight, moves);
        assert(moves0[0] == (c.block_idx, c.cpu_offset));
        lemma_moved(flight, moves0, 0);
        lemma_first_move_ends(flight, moves0);
        let t0 = u.evict_all_finalized(pending.take(m as int));
        slot_laws::law_evict_finalize_keeps_slots(t0, g0, c);
        let t = u.evict_all_finalized(head);
        assert forall|a: int| 0 <= a < k implies t.slot_of(g, (#[trigger] pending[a]).block_idx)
            == Some(pending[a].cpu_offset) by {
            if a < m {
                let i = pending[a].block_idx;
                let all = evict_moves(pending);
                assert(all[a].0 != all[m as int].0);
                assert(t0.slot_of(g0, i) == Some(pending[a].cpu_offset));
                assert(t.used(i) == t0.used(i));
            }
        }
    }
}

/// Evictions take slots that no other block holds, and once they are
/// finalized their blocks reside in them, whichever blocks were named and
/// copied.
pub proof fn law_run_keeps_slots(
    s: PoolView,
    flight: Map<u32, usize>,
    victims: Seq<BlockHandle>,
    copied: Seq<bool>,
)
    requires
        s.partitioned(),
        s.slots_settled(flight),
    ensures
        ({
            let (u, pending, error) = s.evict_run(victims, copied);
            let t = u.evict_all_finalized(pending);
            &&& moves_distinct(evict_moves(pending))
            &&& u.slots_settled(with_moves(flight, evict_moves(pending)))
            &&& t.slots_settled(flight)
            &&& forall|k: int|
                0 <= k < pending.len() ==> t.slot_of(flight, (#[trigger] pending[k]).block_idx)
                    == Some(pending[k].cpu_offset)
        }),
{
    lemma_run_settled(s, flight, victims, copied);
    lemma_run_underway(s, victims, copied);
    let (u, pending, _) = s.evict_run(victims, copied);
    assert forall|a: int| 0 <= a < pending.len() implies !flight.dom().contains(
        (#[trigger] pending[a]).block_idx,
    ) by {
        let i = pending[a].block_idx;
        assert(resident(s, i as int));
        if flight.dom().contains(i) {
            assert(s.in_transit(i));
        }
    }
    lemma_finalized_settled(u, flight, pending, pending.len());
    assert(pending.take(pending.len() as int) =~= pending);
    lemma_no_moves(flight, evict_moves(pending.skip(pending.len() as int)));
}

} // verus!
