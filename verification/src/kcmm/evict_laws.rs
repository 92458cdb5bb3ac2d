use vstd::prelude::*;

use crate::kcmm::cpu_slots;
use crate::kcmm::evict::{EvictContext, EvictError};
use crate::kcmm::flight_laws;
use crate::kcmm::laws;
use crate::kcmm::policy;
use crate::kcmm::pool::BlockLocation;
use crate::kcmm::pool_model;
use crate::kcmm::pool_model::{BlockInfo, PoolView};
use crate::kcmm::superblock::BlockHandle;
use crate::kcmm::tiering::TieringView;

verus! {

/// The physical blocks of the listed evictions.
pub open spec fn handles(pending: Seq<EvictContext>) -> Seq<BlockHandle> {
    pending.map_values(|c: EvictContext| c.handle)
}

/// Whether a listed eviction is of the physical block with this key.
pub open spec fn has_key(pending: Seq<EvictContext>, key: u64) -> bool {
    exists|k: int| 0 <= k < pending.len() && (#[trigger] pending[k]).handle.key() == key
}

/// The pool `t` is `s` with the listed evictions carried out. Each block named
/// resided in GPU memory and resides in its slot; no other block is described
/// differently. The physical blocks are free, and the policy knows them no
/// more. Of the free bytes of the swap buffer the slots are gone.
pub open spec fn carried_out(s: PoolView, t: PoolView, pending: Seq<EvictContext>) -> bool {
    &&& t == (PoolView { blocks: t.blocks, pools: t.pools, tiering: t.tiering, ..s })
    &&& t.blocks.len() == s.blocks.len()
    &&& forall|k: int|
        0 <= k < pending.len() ==> {
            let c = #[trigger] pending[k];
            let i = c.block_idx as int;
            &&& s.resides_at(c.handle, i)
            &&& t.blocks[i] == (BlockInfo {
                location: BlockLocation::CpuResident(c.cpu_offset),
                ..s.blocks[i]
            })
        }
    &&& forall|i: int|
        0 <= i < s.blocks.len() && !flight_laws::is_pending(pending, i) ==> #[trigger] t.blocks[i]
            == s.blocks[i]
    &&& t.pools == s.pools.with_free(s.pools.free + handles(pending))
    &&& s.tiering is Some
    &&& t.tiering == Some(
        TieringView { scores: t.tiering->0.scores, slots: t.slots(), ..s.tiering->0 },
    )
    &&& forall|key: u64| #[trigger]
        t.tiering->0.scores.dom().contains(key) <==> s.tiering->0.scores.dom().contains(key)
            && !has_key(pending, key)
    &&& forall|key: u64| #[trigger]
        t.tiering->0.scores.dom().contains(key) ==> t.tiering->0.scores[key]
            == s.tiering->0.scores[key]
    &&& forall|b: int| #[trigger]
        cpu_slots::covered(s.slots(), b) <==> cpu_slots::covered(t.slots(), b)
            || flight_laws::in_slots(pending, b)
}

/// Finalizing the first `k` evictions in progress.
proof fn lemma_finalized(s: PoolView, u: PoolView, pending: Seq<EvictContext>, k: nat)
    requires
        u.partitioned(),
        flight_laws::underway(s, u, pending),
        k <= pending.len(),
    ensures
        ({
            let done = pending.take(k as int);
            let t = u.evict_all_finalized(done);
            &&& t.partitioned()
            &&& t == (PoolView { blocks: t.blocks, pools: t.pools, tiering: t.tiering, ..u })
            &&& t.blocks.len() == u.blocks.len()
            &&& forall|a: int|
                0 <= a < k ==> t.blocks[(#[trigger] pending[a]).block_idx as int] == (BlockInfo {
                    location: BlockLocation::CpuResident(pending[a].cpu_offset),
                    ..s.blocks[pending[a].block_idx as int]
                })
            &&& forall|i: int|
                0 <= i < u.blocks.len() && !flight_laws::is_pending(done, i)
                    ==> #[trigger] t.blocks[i] == u.blocks[i]
            &&& t.pools == u.pools.with_free(u.pools.free + handles(done))
            &&& t.tiering == Some(
                TieringView { scores: t.tiering->0.scores, ..u.tiering->0 },
            )
            &&& forall|key: u64| #[trigger]
                t.tiering->0.scores.dom().contains(key) <==> u.tiering->0.scores.dom().contains(
                    key,
                ) && !has_key(done, key)
            &&& forall|key: u64| #[trigger]
                t.tiering->0.scores.dom().contains(key) ==> t.tiering->0.scores[key]
                    == u.tiering->0.scores[key]
            &&& u.evicted_handles(done) == handles(done)
        }),
    decreases k,
{
    let done = pending.take(k as int);
    let t = u.evict_all_finalized(done);
    if k == 0 {
        assert(done =~= Seq::<EvictContext>::empty());
        assert(handles(done) =~= Seq::<BlockHandle>::empty());
        assert(u.pools.free + handles(done) =~= u.pools.free);
        assert(u.tiering->0 =~= (TieringView { scores: u.tiering->0.scores, ..u.tiering->0 }));
    } else {
        let m = (k - 1) as nat;
        lemma_finalized(s, u, pending, m);
        let before = pending.take(m as int);
        let t0 = u.evict_all_finalized(before);
        assert(done.drop_last() =~= before);
        let c = pending[m as int];
        assert(done.last() == c);
        let x = c.block_idx as int;
        assert(flight_laws::is_pending(pending, x));
        assert(!flight_laws::is_pending(before, x)) by {
            if flight_laws::is_pending(before, x) {
                let a = choose|a: int|
                    0 <= a < before.len() && (#[trigger] before[a]).block_idx == x;
                assert(pending[a].block_idx != pending[m as int].block_idx);
            }
        }
        assert(t0.blocks[x] == u.blocks[x]);
        assert(t0.holds(x));
        assert(t0.evict_ok(c)) by {
            assert(s.evict_ok(c));
        }
        laws::law_evict_finalize_keeps_partition(t0, c);
        assert forall|a: int| 0 <= a < k implies t.blocks[(
        #[trigger] pending[a]).block_idx as int] == (BlockInfo {
            location: BlockLocation::CpuResident(pending[a].cpu_offset),
            ..s.blocks[pending[a].block_idx as int]
        }) by {
            if a < m {
                assert(pending[a].block_idx != pending[m as int].block_idx);
            }
        }
        assert forall|i: int|
            0 <= i < u.blocks.len() && !flight_laws::is_pending(
                done,
                i,
            ) implies #[trigger] t.blocks[i] == u.blocks[i] by {
            flight_laws::lemma_pending_parts(done, i);
            assert(t0.blocks[i] == u.blocks[i]);
        }
        assert(handles(done) =~= handles(before).push(c.handle));
        assert(u.pools.free + handles(done) =~= (u.pools.free + handles(before)).push(c.handle));
        assert forall|key: u64| #[trigger]
            t.tiering->0.scores.dom().contains(key) <==> u.tiering->0.scores.dom().contains(key)
                && !has_key(done, key) by {
            assert(t0.tiering->0.scores.dom().contains(key) <==> u.tiering->0.scores.dom().contains(
                key,
            ) && !has_key(before, key));
            if has_key(done, key) {
                let a = choose|a: int|
                    0 <= a < done.len() && (#[trigger] done[a]).handle.key() == key;
                assert(a < m ==> before[a] == done[a]);
            }
            if has_key(before, key) {
                let a = choose|a: int|
                    0 <= a < before.len() && (#[trigger] before[a]).handle.key() == key;
                assert(done[a] == before[a]);
            }
            assert(done[m as int] == c);
        }
        assert forall|key: u64| #[trigger]
            t.tiering->0.scores.dom().contains(key) implies t.tiering->0.scores[key]
            == u.tiering->0.scores[key] by {
            assert(t0.tiering->0.scores.dom().contains(key));
        }
        assert(u.used(c.block_idx));
    }
}

/// An eviction run, whichever blocks were named and copied, moves the blocks
/// that were copied to slots of their own and nothing else. Each physical
/// block is still free or owned by exactly one block index, and each byte of
/// the swap buffer free or held by at most one block.
pub proof fn law_run_moves_copied_blocks(
    s: PoolView,
    flight: Map<u32, usize>,
    victims: Seq<BlockHandle>,
    copied: Seq<bool>,
)
    requires
        s.partitioned(),
        s.slots_settled(flight),
    ensures
        ({
            let (u, pending, error) = s.evict_run(victims, copied);
            let t = u.evict_all_finalized(pending);
            &&& u.partitioned()
            &&& u.evicted_handles(pending) == handles(pending)
            &&& carried_out(s, t, pending)
            &&& t.partitioned()
            &&& t.slots_settled(flight)
            &&& forall|k: int|
                0 <= k < pending.len() ==> (#[trigger] pending[k]).cpu_offset + s.slot_bytes()
                    <= s.tiering->0.total_size
            &&& forall|k: int, l: int|
                0 <= k < l < pending.len() ==> (#[trigger] pending[k]).block_idx != (
                #[trigger] pending[l]).block_idx && (pending[k].cpu_offset + s.slot_bytes()
                    <= pending[l].cpu_offset || pending[l].cpu_offset + s.slot_bytes()
                    <= pending[k].cpu_offset)
        }),
{
    flight_laws::lemma_run_underway(s, victims, copied);
    flight_laws::law_run_keeps_slots(s, flight, victims, copied);
    let (u, pending, _) = s.evict_run(victims, copied);
    let t = u.evict_all_finalized(pending);
    lemma_finalized(s, u, pending, pending.len());
    assert(pending.take(pending.len() as int) =~= pending);
    assert forall|k: int| 0 <= k < pending.len() implies {
        let c = #[trigger] pending[k];
        &&& s.resides_at(c.handle, c.block_idx as int)
        &&& c.cpu_offset + s.slot_bytes() <= s.tiering->0.total_size
    } by {
        let c = pending[k];
        assert(flight_laws::resident(s, c.block_idx as int));
        assert(t.slot_of(flight, c.block_idx) == Some(c.cpu_offset));
        assert(t.held_slots(flight).dom().contains(c.block_idx));
    }
    assert forall|k: int, l: int| 0 <= k < l < pending.len() implies (
    #[trigger] pending[k]).block_idx != (#[trigger] pending[l]).block_idx && (pending[k].cpu_offset
        + s.slot_bytes() <= pending[l].cpu_offset || pending[l].cpu_offset + s.slot_bytes()
        <= pending[k].cpu_offset) by {
        assert(s.evict_ok(pending[k]) && s.evict_ok(pending[l]));
    }
    assert forall|i: int|
        0 <= i < s.blocks.len() && !flight_laws::is_pending(
            pending,
            i,
        ) implies #[trigger] t.blocks[i] == s.blocks[i] by {
        assert(u.blocks[i] == s.blocks[i]);
    }
    assert(t =~= (PoolView { blocks: t.blocks, pools: t.pools, tiering: t.tiering, ..s }));
    assert(t.tiering->0 =~= (TieringView {
        scores: t.tiering->0.scores,
        slots: t.slots(),
        ..s.tiering->0
    }));
}

/// Preparing a batch is a run in which all victims are copied.
pub proof fn law_batch_is_run(s: PoolView, victims: Seq<BlockHandle>, copied: Seq<bool>)
    requires
        forall|k: int| 0 <= k < victims.len() ==> copied[k],
    ensures
        s.evict_begun(victims) == s.evict_run(victims, copied),
    decreases victims.len(),
{
    if victims.len() > 0 {
        law_batch_is_run(s, victims.drop_last(), copied);
    }
}

/// A run stops at a victim that is not found.
proof fn lemma_run_stops(s: PoolView, victims: Seq<BlockHandle>, copied: Seq<bool>, n: int)
    requires
        0 <= n <= victims.len(),
        s.evict_run(victims.take(n), copied).2 is Some,
    ensures
        s.evict_run(victims, copied) == s.evict_run(victims.take(n), copied),
    decreases victims.len(),
{
    if n == victims.len() {
        assert(victims.take(n) =~= victims);
    } else {
        assert(victims.drop_last().take(n) =~= victims.take(n));
        lemma_run_stops(s, victims.drop_last(), copied, n);
    }
}

/// A block-by-block eviction follows the run: where the first `next` victims
/// have been looked at, advancing to a block, copying it, or failing to, takes
/// it to the next position of the same run. Where nothing is left, or a victim
/// is not found, the run is over.
pub proof fn law_advance_follows_run(
    s: PoolView,
    victims: Seq<BlockHandle>,
    copied: Seq<bool>,
    next: int,
)
    requires
        0 <= next <= victims.len(),
        s.evict_run(victims.take(next), copied).2 is None,
    ensures
        ({
            let (u, pending, _) = s.evict_run(victims.take(next), copied);
            let (t, n, found) = u.evict_advanced(victims, next);
            &&& next <= n <= victims.len()
            &&& match found {
                Some(Ok(ctx)) => {
                    &&& next < n
                    &&& ctx.handle == victims[n - 1]
                    &&& s.evict_run(victims.take(n), copied) == if copied[n - 1] {
                        (t, pending.push(ctx), None::<EvictError>)
                    } else {
                        (t.evict_rolled_back(ctx), pending, None::<EvictError>)
                    }
                },
                Some(Err(e)) => s.evict_run(victims, copied) == (t, pending, Some(e)),
                None => s.evict_run(victims, copied) == (t, pending, None::<EvictError>),
            }
        }),
    decreases victims.len() - next,
{
    if next == victims.len() {
        assert(victims.take(next) =~= victims);
    } else {
        let (u, pending, _) = s.evict_run(victims.take(next), copied);
        let more = victims.take(next + 1);
        assert(more.drop_last() =~= victims.take(next));
        assert(more.last() == victims[next]);
        let (m, r) = u.evict_prepared(victims[next]);
        match r {
            Ok(ctx) => {},
            Err(EvictError::VictimNotFound(h)) => {
                lemma_run_stops(s, victims, copied, next + 1);
            },
            Err(_) => {
                law_advance_follows_run(s, victims, copied, next + 1);
            },
        }
    }
}

/// Each of the listed physical blocks is the place of a block in GPU memory,
/// and none is listed twice.
pub open spec fn residents(s: PoolView, listed: Seq<BlockHandle>) -> bool {
    &&& listed.no_duplicates()
    &&& forall|k: int|
        0 <= k < listed.len() ==> s.occupied(#[trigger] listed[k])
}

/// The physical blocks that are offered for eviction are the places of the
/// blocks in GPU memory, each listed once.
pub proof fn law_candidates_are_residents(s: PoolView, n: nat)
    requires
        s.partitioned(),
        n <= s.blocks.len(),
    ensures
        residents(s, s.resident_handles(n)),
        forall|h: BlockHandle| #[trigger]
            s.resident_handles(n).contains(h) <==> exists|i: int| i < n && s.resides_at(h, i),
    decreases n,
{
    let all = s.resident_handles(n);
    if n > 0 {
        let m = (n - 1) as nat;
        law_candidates_are_residents(s, m);
        let before = s.resident_handles(m);
        let last = m as int;
        assert forall|h: BlockHandle| #[trigger]
            all.contains(h) <==> exists|i: int| i < n && s.resides_at(h, i) by {
            assert(before.contains(h) <==> exists|i: int| i < m && s.resides_at(h, i));
            if all.contains(h) {
                let k = choose|k: int| 0 <= k < all.len() && all[k] == h;
                if k < before.len() {
                    assert(before[k] == h);
                } else {
                    assert(s.resides_at(h, last));
                }
            }
            if exists|i: int| i < n && s.resides_at(h, i) {
                let i = choose|i: int| i < n && s.resides_at(h, i);
                if i < m {
                    let k = choose|k: int| 0 <= k < before.len() && before[k] == h;
                    assert(all[k] == h);
                } else {
                    assert(all[all.len() - 1] == h);
                }
            }
        }
        assert(all.no_duplicates()) by {
            if all.len() > before.len() {
                let h = all[all.len() - 1];
                assert(s.resides_at(h, last));
                if before.contains(h) {
                    let i = choose|i: int| i < m && s.resides_at(h, i);
                    assert(s.holds(i) && s.holds(last));
                    assert(s.residence_ok(i) && s.residence_ok(last));
                }
                assert forall|a: int, b: int|
                    0 <= a < all.len() && 0 <= b < all.len() && a != b implies all[a] != all[b] by {
                    if a < before.len() {
                        assert(before.contains(before[a]));
                    }
                    if b < before.len() {
                        assert(before.contains(before[b]));
                    }
                }
            }
        }
        assert forall|k: int| 0 <= k < all.len() implies s.occupied(#[trigger] all[k]) by {
            assert(all.contains(all[k]));
        }
    }
}

/// A block in GPU memory that is not yet on its way is prepared for eviction
/// whenever the swap buffer has room.
proof fn lemma_resident_prepared(
    s: PoolView,
    u: PoolView,
    pending: Seq<EvictContext>,
    h: BlockHandle,
    i: int,
)
    requires
        u.partitioned(),
        flight_laws::underway(s, u, pending),
        s.resides_at(h, i),
        !flight_laws::is_pending(pending, i),
    ensures
        ({
            let (t, r) = u.evict_prepared(h);
            match cpu_slots::allocated(u.slots(), u.slot_bytes() as usize).0 {
                Some(_) => r is Ok && r->Ok_0.block_idx == i && r->Ok_0.handle == h,
                None => t == u && r == Err::<EvictContext, EvictError>(
                    EvictError::SwapBufferExhausted,
                ),
            }
        }),
{
    assert(u.blocks[i] == s.blocks[i]);
    assert(u.resides_at(h, i));
    assert forall|j: int| 0 <= j < i implies !u.resides_at(h, j) by {
        if u.resides_at(h, j) {
            assert(u.holds(i) && u.holds(j));
            assert(u.residence_ok(i) && u.residence_ok(j));
        }
    }
    assert(u.is_index_of(h, i));
    pool_model::lemma_index_unique(u, h, i);
    assert(u.used(i as u32));
}

/// Of distinct victims in GPU memory, those that get a slot are the first
/// ones: all of them, or as many as the swap buffer has room for.
pub proof fn law_victims_get_slots(s: PoolView, victims: Seq<BlockHandle>)
    requires
        s.partitioned(),
        s.tiering is Some,
        cpu_slots::ranges_separated(s.slots()),
        residents(s, victims),
    ensures
        ({
            let (u, pending, error) = s.evict_begun(victims);
            &&& error is None
            &&& pending.len() <= victims.len()
            &&& handles(pending) == victims.take(pending.len() as int)
            &&& pending.len() < victims.len() ==> cpu_slots::allocated(
                u.slots(),
                s.slot_bytes() as usize,
            ).0 is None
        }),
    decreases victims.len(),
{
    if victims.len() == 0 {
        assert(handles(s.evict_begun(victims).1) =~= victims.take(0));
    } else {
        let rest = victims.drop_last();
        let h = victims[victims.len() - 1];
        assert forall|k: int| 0 <= k < rest.len() implies s.occupied(#[trigger] rest[k]) by {
            assert(rest[k] == victims[k]);
        }
        law_victims_get_slots(s, rest);
        let copied = Seq::new(victims.len(), |k: int| true);
        law_batch_is_run(s, rest, copied);
        flight_laws::lemma_run_underway(s, rest, copied);
        let (u, pending, _) = s.evict_begun(rest);
        assert(s.occupied(h));
        let i = choose|i: int| s.resides_at(h, i);
        assert(!flight_laws::is_pending(pending, i)) by {
            if flight_laws::is_pending(pending, i) {
                let k = choose|k: int|
                    0 <= k < pending.len() && (#[trigger] pending[k]).block_idx == i;
                assert(flight_laws::resident(s, i));
                assert(pending[k].handle == h);
                assert(handles(pending)[k] == h);
                assert(victims[k] == h);
            }
        }
        lemma_resident_prepared(s, u, pending, h, i);
        let (_, now, _) = s.evict_begun(victims);
        if now.len() > pending.len() {
            assert(handles(now) =~= handles(pending).push(h));
            assert(handles(now) =~= victims.take(now.len() as int));
        } else {
            assert(victims.take(pending.len() as int) =~= rest.take(pending.len() as int));
        }
    }
}

/// Evicting up to `count` of distinct candidates in GPU memory, where all
/// copies succeed: the blocks that the policy picks are moved, the first ones
/// as far as the swap buffer has room. They reside in slots of their own
/// within the buffer, their physical blocks are free, the policy knows them no
/// more, and all else is as it was.
pub proof fn law_eviction_moves_victims(
    s: PoolView,
    flight: Map<u32, usize>,
    candidates: Seq<BlockHandle>,
    count: usize,
)
    requires
        s.partitioned(),
        s.slots_settled(flight),
        residents(s, candidates),
    ensures
        ({
            let victims = s.chosen_victims(candidates, count);
            let (u, pending, error) = s.evict_begun(victims);
            let t = u.evict_all_finalized(pending);
            let moved = u.evicted_handles(pending);
            &&& error is None
            &&& moved == handles(pending)
            &&& moved == victims.take(moved.len() as int)
            &&& moved.len() <= victims.len() <= count
            &&& moved.len() < victims.len() ==> cpu_slots::allocated(
                t.slots(),
                s.slot_bytes() as usize,
            ).0 is None
            &&& carried_out(s, t, pending)
            &&& t.partitioned()
            &&& t.slots_settled(flight)
            &&& t.pools.backing == s.pools.backing
            &&& forall|k: int|
                0 <= k < pending.len() ==> (#[trigger] pending[k]).cpu_offset + s.slot_bytes()
                    <= s.tiering->0.total_size
            &&& forall|k: int, l: int|
                0 <= k < l < pending.len() ==> (#[trigger] pending[k]).block_idx != (
                #[trigger] pending[l]).block_idx && (pending[k].cpu_offset + s.slot_bytes()
                    <= pending[l].cpu_offset || pending[l].cpu_offset + s.slot_bytes()
                    <= pending[k].cpu_offset)
        }),
{
    let victims = s.chosen_victims(candidates, count);
    policy::law_victims_are_candidates(s.tiering->0.scores, candidates, count);
    assert(residents(s, victims)) by {
        assert forall|k: int| 0 <= k < victims.len() implies s.occupied(#[trigger] victims[k]) by {
            assert(candidates.contains(victims[k]));
            let m = choose|m: int| 0 <= m < candidates.len() && candidates[m] == victims[k];
            assert(s.occupied(candidates[m]));
        }
    }
    let copied = Seq::new(victims.len(), |k: int| true);
    law_batch_is_run(s, victims, copied);
    law_victims_get_slots(s, victims);
    law_run_moves_copied_blocks(s, flight, victims, copied);
    let (u, pending, _) = s.evict_begun(victims);
    flight_laws::lemma_run_underway(s, victims, copied);
    lemma_finalized(s, u, pending, pending.len());
    assert(pending.take(pending.len() as int) =~= pending);
}

} // verus!
