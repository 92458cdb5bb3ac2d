use vstd::prelude::*;

use crate::kcmm::data_laws;
use crate::kcmm::evict::EvictContext;
use crate::kcmm::laws;
use crate::kcmm::pool_model::PoolView;
use crate::kcmm::restore::RestoreContext;
use crate::kcmm::slot_laws;
use crate::kcmm::superblock;
use crate::kcmm::superblock::{BlockHandle, INDEX_COUNT};

verus! {

/// A pool, the slots of the blocks on their way, and what the swap buffer
/// holds.
pub struct TierState {
    pub pool: PoolView,
    pub flight: Map<u32, usize>,
    pub host: spec_fn(int) -> u8,
}

/// What can happen to a pool with tiering.
pub enum TierEvent {
    /// The eviction of a block is prepared.
    Evict { block: u32, handle: BlockHandle },
    /// Bytes of a block that is being evicted arrive in its slot.
    Arrive { block: u32, host: spec_fn(int) -> u8 },
    /// The eviction of a block is finalized.
    Evicted(EvictContext),
    /// The eviction of a block is called off.
    EvictCalledOff(EvictContext),
    /// The restore of a block is prepared.
    Restore { block: u32, cpu_offset: usize, grants: Seq<Seq<u64>>, used: nat },
    /// The restore of a block is finalized.
    Restored(RestoreContext, u64),
    /// The restore of a block is called off.
    RestoreCalledOff(RestoreContext),
    /// A block is freed.
    Free(u32),
    /// A block is allocated.
    Allocate { grants: Seq<Seq<u64>>, used: nat, now: u64 },
}

impl TierEvent {
    /// Whether the event is about block `i`. An allocation is about no block
    /// that is in use.
    pub open spec fn concerns(self, i: u32) -> bool {
        match self {
            TierEvent::Evict { block, .. } => block == i,
            TierEvent::Arrive { block, .. } => block == i,
            TierEvent::Evicted(ctx) => ctx.block_idx == i,
            TierEvent::EvictCalledOff(ctx) => ctx.block_idx == i,
            TierEvent::Restore { block, .. } => block == i,
            TierEvent::Restored(ctx, _) => ctx.block_idx == i,
            TierEvent::RestoreCalledOff(ctx) => ctx.block_idx == i,
            TierEvent::Free(block) => block == i,
            TierEvent::Allocate { .. } => false,
        }
    }
}

impl PoolView {
    /// Where the next physical block takes a new superblock, that superblock
    /// can be numbered and addressed.
    pub open spec fn can_refill(self, grants: Seq<Seq<u64>>, used: nat) -> bool {
        self.pools.free.len() == 0 && used < grants.len() ==> superblock::superblocks_fit(
            self.pools.backing.len() as int + 1,
        )
    }
}

impl TierState {
    /// Whether the event can happen: what ends a move belongs to a block on
    /// its way, and arriving bytes go to the slot of their block. Any block
    /// may be named for eviction or restore: one that is not in GPU memory,
    /// or not in the slot named, is refused.
    pub open spec fn ready(self, e: TierEvent) -> bool {
        let s = self.pool;
        &&& s.wf()
        &&& match e {
            TierEvent::Evict { .. } => true,
            TierEvent::Arrive { block, host } => {
                &&& self.flight.dom().contains(block)
                &&& forall|a: int|
                    !(self.flight[block] <= a < self.flight[block] + s.slot_bytes())
                        ==> #[trigger] host(a) == (self.host)(a)
            },
            TierEvent::Evicted(ctx) => slot_laws::in_flight(
                self.flight,
                ctx.block_idx,
                ctx.cpu_offset,
            ),
            TierEvent::EvictCalledOff(ctx) => s.evict_ok(ctx) && slot_laws::in_flight(
                self.flight,
                ctx.block_idx,
                ctx.cpu_offset,
            ),
            TierEvent::Restore { .. } => true,
            TierEvent::Restored(ctx, _) => s.restore_ok(ctx) && slot_laws::in_flight(
                self.flight,
                ctx.block_idx,
                ctx.cpu_offset,
            ),
            TierEvent::RestoreCalledOff(ctx) => slot_laws::in_flight(
                self.flight,
                ctx.block_idx,
                ctx.cpu_offset,
            ),
            TierEvent::Free(block) => block < s.blocks.len(),
            TierEvent::Allocate { .. } => s.free_idx.len() > 0 || s.blocks.len() < INDEX_COUNT,
        }
    }

    /// After the event.
    pub open spec fn after(self, e: TierEvent) -> Self {
        match e {
            TierEvent::Evict { block, handle } => {
                let (pool, r) = self.pool.evict_submitted(block, handle);
                TierState {
                    pool,
                    flight: match r {
                        Ok(ctx) => self.flight.insert(block, ctx.cpu_offset),
                        Err(_) => self.flight,
                    },
                    ..self
                }
            },
            TierEvent::Arrive { host, .. } => TierState { host, ..self },
            TierEvent::Evicted(ctx) => TierState {
                pool: self.pool.evict_finalized(ctx),
                flight: self.flight.remove(ctx.block_idx),
                ..self
            },
            TierEvent::EvictCalledOff(ctx) => TierState {
                pool: self.pool.evict_rolled_back(ctx),
                flight: self.flight.remove(ctx.block_idx),
                ..self
            },
            TierEvent::Restore { block, cpu_offset, grants, used } => {
                let (pool, r) = self.pool.restore_submitted(block, cpu_offset, grants, used);
                TierState {
                    pool,
                    flight: match r {
                        Ok(_) => self.flight.insert(block, cpu_offset),
                        Err(_) => self.flight,
                    },
                    ..self
                }
            },
            TierEvent::Restored(ctx, now) => TierState {
                pool: self.pool.restore_finalized(ctx, now),
                flight: self.flight.remove(ctx.block_idx),
                ..self
            },
            TierEvent::RestoreCalledOff(ctx) => TierState {
                pool: self.pool.restore_rolled_back(ctx),
                flight: self.flight.remove(ctx.block_idx),
                ..self
            },
            TierEvent::Free(block) => TierState { pool: self.pool.freed_one(block), ..self },
            TierEvent::Allocate { grants, used, now } => TierState {
                pool: self.pool.allocated(grants, used, now),
                ..self
            },
        }
    }

    /// After all events, one behind the other.
    pub open spec fn after_all(self, events: Seq<TierEvent>) -> Self
        decreases events.len(),
    {
        if events.len() == 0 {
            self
        } else {
            self.after_all(events.drop_last()).after(events.last())
        }
    }

    /// Each event can happen when its turn comes.
    pub open spec fn run_ready(self, events: Seq<TierEvent>) -> bool
        decreases events.len(),
    {
        events.len() > 0 ==> self.run_ready(events.drop_last()) && self.after_all(
            events.drop_last(),
        ).ready(events.last())
    }

    /// What ends a move refers to what exists, and to the physical block that
    /// the block moved owns; a superblock that is added can be addressed.
    pub open spec fn refers(self, e: TierEvent) -> bool {
        let s = self.pool;
        match e {
            TierEvent::Evicted(ctx) => s.evict_ok(ctx),
            TierEvent::EvictCalledOff(ctx) => s.evict_ok(ctx) && s.blocks[ctx.block_idx as int].handle()
                == ctx.handle,
            TierEvent::Restored(ctx, _) => s.restore_ok(ctx)
                && s.blocks[ctx.block_idx as int].handle() == ctx.new_handle,
            TierEvent::RestoreCalledOff(ctx) => s.restore_ok(ctx),
            TierEvent::Restore { grants, used, .. } => s.can_refill(grants, used),
            TierEvent::Allocate { grants, used, .. } => s.can_refill(grants, used),
            _ => true,
        }
    }

    /// What each event refers to is there when its turn comes.
    pub open spec fn run_refers(self, events: Seq<TierEvent>) -> bool
        decreases events.len(),
    {
        events.len() > 0 ==> self.run_refers(events.drop_last()) && self.after_all(
            events.drop_last(),
        ).refers(events.last())
    }

    /// Each byte of the swap buffer is free, or held by at most one block.
    pub open spec fn settled(self) -> bool {
        self.pool.slots_settled(self.flight)
    }
}

/// Whatever happens to a pool, each byte of its swap buffer is free or held
/// by at most one block.
pub proof fn law_event_keeps_slots(st: TierState, e: TierEvent)
    requires
        st.settled(),
        st.ready(e),
    ensures
        st.after(e).settled(),
        st.after(e).pool.shape == st.pool.shape,
{
    match e {
        TierEvent::Evict { block, handle } => {
            slot_laws::law_evict_submit_keeps_slots(st.pool, st.flight, block, handle);
        },
        TierEvent::Arrive { .. } => {},
        TierEvent::Evicted(ctx) => {
            slot_laws::law_evict_finalize_keeps_slots(st.pool, st.flight, ctx);
        },
        TierEvent::EvictCalledOff(ctx) => {
            slot_laws::law_evict_rollback_keeps_slots(st.pool, st.flight, ctx);
        },
        TierEvent::Restore { block, cpu_offset, grants, used } => {
            slot_laws::law_restore_submit_keeps_slots(
                st.pool,
                st.flight,
                block,
                cpu_offset,
                grants,
                used,
            );
        },
        TierEvent::Restored(ctx, now) => {
            slot_laws::law_restore_finalize_keeps_slots(st.pool, st.flight, ctx, now);
        },
        TierEvent::RestoreCalledOff(ctx) => {
            slot_laws::law_restore_rollback_keeps_slots(st.pool, st.flight, ctx);
        },
        TierEvent::Free(block) => {
            slot_laws::law_free_keeps_slots(st.pool, st.flight, block);
        },
        TierEvent::Allocate { grants, used, now } => {
            slot_laws::law_allocate_keeps_slots(st.pool, st.flight, grants, used, now);
        },
    }
}

/// Whatever happens to a pool, each physical block is free or owned by exactly
/// one block index.
pub proof fn law_event_keeps_partition(st: TierState, e: TierEvent)
    requires
        st.pool.partitioned(),
        st.settled(),
        st.ready(e),
        st.refers(e),
    ensures
        st.after(e).pool.partitioned(),
{
    let s = st.pool;
    match e {
        TierEvent::Evict { block, handle } => {
            laws::law_evict_submit_keeps_partition(s, block, handle);
        },
        TierEvent::Arrive { .. } => {},
        TierEvent::Evicted(ctx) => {
            assert(s.in_transit(ctx.block_idx));
            laws::law_evict_finalize_keeps_partition(s, ctx);
        },
        TierEvent::EvictCalledOff(ctx) => {
            assert(s.in_transit(ctx.block_idx));
            laws::law_evict_rollback_keeps_partition(s, ctx);
        },
        TierEvent::Restore { block, cpu_offset, grants, used } => {
            laws::law_restore_submit_keeps_partition(s, block, cpu_offset, grants, used);
        },
        TierEvent::Restored(ctx, now) => {
            assert(s.in_transit(ctx.block_idx));
            laws::law_restore_finalize_keeps_partition(s, ctx, now);
        },
        TierEvent::RestoreCalledOff(ctx) => {
            assert(s.in_transit(ctx.block_idx));
            laws::law_restore_rollback_keeps_partition(s, ctx);
        },
        TierEvent::Free(block) => {
            laws::law_free_keeps_partition(s, block);
        },
        TierEvent::Allocate { grants, used, now } => {
            laws::law_allocate_keeps_partition(s, grants, used, now);
        },
    }
}

/// Over any run of events, each physical block stays free or owned by exactly
/// one block index, and each byte of the swap buffer free or held by at most
/// one block.
pub proof fn law_run_keeps_pool_whole(st: TierState, events: Seq<TierEvent>)
    requires
        st.pool.partitioned(),
        st.settled(),
        st.run_ready(events),
        st.run_refers(events),
    ensures
        st.after_all(events).pool.partitioned(),
        st.after_all(events).settled(),
    decreases events.len(),
{
    if events.len() > 0 {
        let head = events.drop_last();
        law_run_keeps_pool_whole(st, head);
        law_event_keeps_partition(st.after_all(head), events.last());
        law_event_keeps_slots(st.after_all(head), events.last());
    }
}

/// An event about other blocks leaves a block its slot, and the slot its
/// bytes.
proof fn lemma_event_leaves_slot(st: TierState, e: TierEvent, i: u32, b: int)
    requires
        st.settled(),
        st.ready(e),
        !e.concerns(i),
        st.pool.slot_of(st.flight, i) is Some,
        ({
            let o = st.pool.slot_of(st.flight, i)->0;
            o <= b < o + st.pool.slot_bytes()
        }),
    ensures
        st.after(e).pool.slot_of(st.after(e).flight, i) == st.pool.slot_of(st.flight, i),
        (st.after(e).host)(b) == (st.host)(b),
{
    let t = st.after(e);
    match e {
        TierEvent::Arrive { block, host } => {
            let held = st.pool.held_slots(st.flight);
            assert(st.pool.in_transit(block));
            assert(st.pool.slot_of(st.flight, block) == Some(st.flight[block]));
            assert(held.dom().contains(block) && held.dom().contains(i));
            assert(held[block] == st.flight[block]);
            assert(!(st.flight[block] <= b < st.flight[block] + st.pool.slot_bytes()));
            assert(host(b) == (st.host)(b));
        },
        TierEvent::Allocate { grants, used, now } => {
            slot_laws::law_allocate_keeps_slots(st.pool, st.flight, grants, used, now);
            assert(t.pool.slot_of(st.flight, i) == st.pool.slot_of(st.flight, i));
        },
        TierEvent::Free(block) => {
            slot_laws::law_free_keeps_slots(st.pool, st.flight, block);
            assert(t.pool.slot_of(st.flight, i) == st.pool.slot_of(st.flight, i));
        },
        _ => {
            assert(t.pool.used(i) == st.pool.used(i));
        },
    }
}

/// Over any run of events about other blocks, a block keeps its slot, and the
/// slot keeps its bytes.
pub proof fn law_slot_survives_run(st: TierState, events: Seq<TierEvent>, i: u32, b: int)
    requires
        st.settled(),
        st.run_ready(events),
        forall|k: int| 0 <= k < events.len() ==> !(#[trigger] events[k]).concerns(i),
        st.pool.slot_of(st.flight, i) is Some,
        ({
            let o = st.pool.slot_of(st.flight, i)->0;
            o <= b < o + st.pool.slot_bytes()
        }),
    ensures
        ({
            let t = st.after_all(events);
            &&& t.settled()
            &&& t.pool.shape == st.pool.shape
            &&& t.pool.slot_of(t.flight, i) == st.pool.slot_of(st.flight, i)
            &&& (t.host)(b) == (st.host)(b)
        }),
    decreases events.len(),
{
    if events.len() > 0 {
        let head = events.drop_last();
        assert forall|k: int| 0 <= k < head.len() implies !(#[trigger] head[k]).concerns(i) by {
            assert(head[k] == events[k]);
        }
        law_slot_survives_run(st, head, i, b);
        let mid = st.after_all(head);
        let e = events[events.len() - 1];
        law_event_keeps_slots(mid, e);
        lemma_event_leaves_slot(mid, e, i, b);
    }
}

/// A block that was evicted and is restored later holds the bytes that it
/// held, whatever happened to other blocks in between: `st` is the state in
/// which its data has arrived, and after `events` it is copied back.
pub proof fn law_restored_bytes_across_moves(
    st: TierState,
    events: Seq<TierEvent>,
    i: u32,
    gpu: spec_fn(int) -> u8,
    later: spec_fn(int) -> u8,
    old_offset: int,
    new_offset: int,
    j: int,
    b: int,
)
    requires
        st.settled(),
        st.run_ready(events),
        forall|k: int| 0 <= k < events.len() ==> !(#[trigger] events[k]).concerns(i),
        st.pool.slot_of(st.flight, i) is Some,
        data_laws::slot_holds(
            st.pool,
            st.host,
            st.pool.slot_of(st.flight, i)->0 as int,
            gpu,
            old_offset,
        ),
        ({
            let p = st.after_all(events).pool;
            p.parts_addressed(new_offset) && p.parts_apart(new_offset)
        }),
        0 <= j < st.pool.parts(),
        0 <= b < st.pool.shape.block_bytes,
    ensures
        ({
            let t = st.after_all(events);
            &&& t.pool.slot_of(t.flight, i) == st.pool.slot_of(st.flight, i)
            &&& data_laws::copied_all(
                later,
                t.host,
                data_laws::from_slots(
                    t.pool.slot_copies(new_offset, t.pool.slot_of(t.flight, i)->0 as int),
                ),
            )(t.pool.part_va(j, new_offset) + b) == gpu(st.pool.part_va(j, old_offset) + b)
        }),
{
    let t = st.after_all(events);
    let o = st.pool.slot_of(st.flight, i)->0 as int;
    let at = st.pool.slot_offset(o, j) + b;
    assert(st.pool.held_slots(st.flight).dom().contains(i));
    assert(o + st.pool.slot_bytes() <= usize::MAX);
    data_laws::lemma_slot_places(st.pool, o, j);
    law_slot_survives_run(st, events, i, at);
    assert(data_laws::slot_byte(st.pool, st.host, o, j, b) == gpu(
        st.pool.part_va(j, old_offset) + b,
    ));
    data_laws::law_restore_reads_slot(t.pool, t.host, later, new_offset, o, j, b);
}

} // verus!
