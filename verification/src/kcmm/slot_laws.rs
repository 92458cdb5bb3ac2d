use core::ops::Range;
use vstd::prelude::*;

use crate::kcmm::cpu_slots;
use crate::kcmm::evict::EvictContext;
use crate::kcmm::pool::BlockLocation;
use crate::kcmm::pool_model;
use crate::kcmm::pool_model::PoolView;
use crate::kcmm::restore::RestoreContext;
use crate::kcmm::superblock::{BlockHandle, INDEX_COUNT};

verus! {

/// None of the `size` bytes at `offset` is free.
pub open spec fn unlisted(ranges: Seq<Range<usize>>, offset: int, size: int) -> bool {
    forall|b: int| offset <= b < offset + size ==> !#[trigger] cpu_slots::covered(ranges, b)
}

/// The slots in `held`, of `size` bytes each, lie within a buffer of `total`
/// bytes, apart from one another and from the free ranges, which are sorted,
/// merged and within the buffer too.
pub open spec fn slots_apart(
    ranges: Seq<Range<usize>>,
    total: int,
    size: int,
    held: Map<u32, usize>,
) -> bool {
    &&& cpu_slots::ranges_separated(ranges)
    &&& forall|k: int| 0 <= k < ranges.len() ==> (#[trigger] ranges[k]).end <= total
    &&& forall|i: u32| #[trigger]
        held.dom().contains(i) ==> held[i] + size <= total && unlisted(
            ranges,
            held[i] as int,
            size,
        )
    &&& forall|i: u32, j: u32|
        #[trigger] held.dom().contains(i) && #[trigger] held.dom().contains(j) && i != j
            ==> held[i] + size <= held[j] || held[j] + size <= held[i]
}

/// A slot taken from the free ranges lies apart from all slots held.
proof fn lemma_slot_taken(
    ranges: Seq<Range<usize>>,
    total: int,
    size: usize,
    held: Map<u32, usize>,
    i: u32,
)
    requires
        slots_apart(ranges, total, size as int, held),
        cpu_slots::allocated(ranges, size).0 is Some,
    ensures
        ({
            let (found, after) = cpu_slots::allocated(ranges, size);
            slots_apart(after, total, size as int, held.insert(i, found->0))
        }),
{
    let (found, after) = cpu_slots::allocated(ranges, size);
    let o = found->0 as int;
    let now = held.insert(i, found->0);
    cpu_slots::law_allocate_takes_free_bytes(ranges, size);
    cpu_slots::lemma_best_fit_exists(ranges, size);
    assert(cpu_slots::covered(ranges, o + size - 1));
    assert forall|k: int| 0 <= k < after.len() implies (#[trigger] after[k]).end <= total by {
        let best = cpu_slots::best_fit(ranges, size);
        if cpu_slots::range_len(ranges[best]) == size && k >= best {
            assert(after[k] == ranges[k + 1]);
        } else {
            assert(after[k].end == ranges[k].end);
        }
    }
    assert forall|j: u32| #[trigger] now.dom().contains(j) implies now[j] + size <= total
        && unlisted(after, now[j] as int, size as int) by {
        if j != i {
            assert(held.dom().contains(j));
            assert forall|b: int| now[j] <= b < now[j] + size implies !#[trigger] cpu_slots::covered(
                after,
                b,
            ) by {
                assert(!cpu_slots::covered(ranges, b));
            }
        }
    }
    assert forall|j: u32| #[trigger] held.dom().contains(j) implies held[j] + size <= o || o + size
        <= held[j] by {
        if held[j] < o + size && o < held[j] + size {
            let m = if o < held[j] {
                held[j] as int
            } else {
                o
            };
            assert(unlisted(ranges, held[j] as int, size as int));
            assert(cpu_slots::covered(ranges, m));
        }
    }
    assert forall|a: u32, b: u32|
        #[trigger] now.dom().contains(a) && #[trigger] now.dom().contains(b) && a
            != b implies now[a] + size <= now[b] || now[b] + size <= now[a] by {
        if a != i {
            assert(held.dom().contains(a));
        }
        if b != i {
            assert(held.dom().contains(b));
        }
    }
}

/// Giving back a slot that is held leaves the others apart.
proof fn lemma_slot_given_back(
    ranges: Seq<Range<usize>>,
    total: int,
    size: usize,
    held: Map<u32, usize>,
    i: u32,
)
    requires
        slots_apart(ranges, total, size as int, held),
        held.dom().contains(i),
        total <= usize::MAX,
    ensures
        slots_apart(cpu_slots::freed(ranges, held[i], size), total, size as int, held.remove(i)),
{
    let o = held[i];
    let after = cpu_slots::freed(ranges, o, size);
    let now = held.remove(i);
    assert(unlisted(ranges, o as int, size as int));
    cpu_slots::law_free_returns_bytes(ranges, o, size);
    assert forall|k: int| 0 <= k < after.len() implies (#[trigger] after[k]).end <= total by {
        let b = after[k].end - 1;
        assert(after[k].start <= b < after[k].end);
        assert(cpu_slots::covered(after, b));
        if cpu_slots::covered(ranges, b) {
            let m = choose|m: int|
                0 <= m < ranges.len() && (#[trigger] ranges[m]).start <= b < ranges[m].end;
            assert(ranges[m].end <= total);
        }
    }
    assert forall|j: u32| #[trigger] now.dom().contains(j) implies now[j] + size <= total
        && unlisted(after, now[j] as int, size as int) by {
        assert(held.dom().contains(j));
        assert forall|b: int| now[j] <= b < now[j] + size implies !#[trigger] cpu_slots::covered(
            after,
            b,
        ) by {
            assert(unlisted(ranges, held[j] as int, size as int));
            assert(!cpu_slots::covered(ranges, b));
        }
    }
    assert forall|a: u32, b: u32|
        #[trigger] now.dom().contains(a) && #[trigger] now.dom().contains(b) && a
            != b implies now[a] + size <= now[b] || now[b] + size <= now[a] by {
        assert(held.dom().contains(a) && held.dom().contains(b));
    }
}

impl PoolView {
    /// Whether block `i` is on its way from or to the GPU.
    pub open spec fn in_transit(self, i: u32) -> bool {
        self.used(i) && (self.blocks[i as int].location is Evicting
            || self.blocks[i as int].location is Restoring)
    }

    /// The slot of the swap buffer that block `i` holds: that of a block that
    /// resides there, or is on its way. `flight` gives the slots of the
    /// blocks on their way.
    pub open spec fn slot_of(self, flight: Map<u32, usize>, i: u32) -> Option<usize> {
        if !self.used(i) {
            None
        } else {
            match self.blocks[i as int].location {
                BlockLocation::CpuResident(offset) => Some(offset),
                BlockLocation::Evicting => if flight.dom().contains(i) {
                    Some(flight[i])
                } else {
                    None
                },
                BlockLocation::Restoring => if flight.dom().contains(i) {
                    Some(flight[i])
                } else {
                    None
                },
                _ => None,
            }
        }
    }

    /// The slots of all blocks that hold one.
    pub open spec fn held_slots(self, flight: Map<u32, usize>) -> Map<u32, usize> {
        Map::new(
            |i: u32| self.slot_of(flight, i) is Some,
            |i: u32| self.slot_of(flight, i)->0,
        )
    }

    /// Each byte of the swap buffer is free, or held by at most one block.
    pub open spec fn slots_settled(self, flight: Map<u32, usize>) -> bool {
        &&& self.tiering is Some
        &&& forall|i: u32| #[trigger] flight.dom().contains(i) ==> self.in_transit(i)
        &&& slots_apart(
            self.slots(),
            self.tiering->0.total_size as int,
            self.slot_bytes(),
            self.held_slots(flight),
        )
    }
}

/// Where two pools agree on the slots of all blocks but `x`, their slots
/// differ at `x` only.
proof fn lemma_held_slots(
    s: PoolView,
    f: Map<u32, usize>,
    t: PoolView,
    g: Map<u32, usize>,
    x: u32,
)
    requires
        forall|i: u32| i != x ==> #[trigger] t.slot_of(g, i) == s.slot_of(f, i),
    ensures
        t.held_slots(g) == match t.slot_of(g, x) {
            Some(o) => s.held_slots(f).insert(x, o),
            None => s.held_slots(f).remove(x),
        },
{
    let want = match t.slot_of(g, x) {
        Some(o) => s.held_slots(f).insert(x, o),
        None => s.held_slots(f).remove(x),
    };
    assert forall|i: u32| t.held_slots(g).dom().contains(i) <==> #[trigger] want.dom().contains(
        i,
    ) by {
        assert(i != x ==> t.slot_of(g, i) == s.slot_of(f, i));
    }
    assert forall|i: u32| #[trigger] want.dom().contains(i) implies t.held_slots(g)[i]
        == want[i] by {
        assert(i != x ==> t.slot_of(g, i) == s.slot_of(f, i));
    }
    assert(t.held_slots(g) =~= want);
}

/// Where no block's slot changes, and the free ranges do not, slots stay
/// settled.
proof fn lemma_slots_kept(s: PoolView, f: Map<u32, usize>, t: PoolView)
    requires
        s.slots_settled(f),
        t.tiering is Some,
        t.slots() == s.slots(),
        t.tiering->0.total_size == s.tiering->0.total_size,
        t.shape == s.shape,
        forall|i: u32| #[trigger] t.slot_of(f, i) == s.slot_of(f, i),
        forall|i: u32| #[trigger] f.dom().contains(i) ==> t.in_transit(i),
    ensures
        t.slots_settled(f),
{
    assert(t.held_slots(f) =~= s.held_slots(f)) by {
        assert forall|i: u32| t.held_slots(f).dom().contains(i) <==> #[trigger] s.held_slots(
            f,
        ).dom().contains(i) by {
            assert(t.slot_of(f, i) == s.slot_of(f, i));
        }
        assert forall|i: u32| #[trigger] s.held_slots(f).dom().contains(i) implies t.held_slots(
            f,
        )[i] == s.held_slots(f)[i] by {
            assert(t.slot_of(f, i) == s.slot_of(f, i));
        }
    }
}

/// Preparing an eviction gives the block a slot that no other block holds.
pub proof fn law_evict_submit_keeps_slots(
    s: PoolView,
    flight: Map<u32, usize>,
    i: u32,
    h: BlockHandle,
)
    requires
        s.wf(),
        s.slots_settled(flight),
    ensures
        ({
            let (t, r) = s.evict_submitted(i, h);
            match r {
                Ok(ctx) => t.slots_settled(flight.insert(i, ctx.cpu_offset)),
                Err(_) => t.slots_settled(flight),
            }
        }),
{
    let (t, r) = s.evict_submitted(i, h);
    let size = s.slot_bytes() as usize;
    let total = s.tiering->0.total_size as int;
    let held = s.held_slots(flight);
    assert(0 <= s.slot_bytes()) by (nonlinear_arith)
        requires
            s.slot_bytes() == s.shape.num_layers * 2 * s.shape.block_bytes,
    ;
    assert(flight.dom().contains(i) ==> s.in_transit(i));
    match r {
        Ok(ctx) => {
            let g = flight.insert(i, ctx.cpu_offset);
            lemma_slot_taken(s.slots(), total, size, held, i);
            assert forall|j: u32| j != i implies #[trigger] t.slot_of(g, j) == s.slot_of(
                flight,
                j,
            ) by {
                assert(t.used(j) == s.used(j));
            }
            lemma_held_slots(s, flight, t, g, i);
            assert(t.slot_of(g, i) == Some(ctx.cpu_offset));
            assert forall|j: u32| #[trigger] g.dom().contains(j) implies t.in_transit(j) by {
                if j != i {
                    assert(flight.dom().contains(j));
                }
            }
        },
        Err(_) => {
            let (found, after) = cpu_slots::allocated(s.slots(), size);
            if found is Some {
                cpu_slots::law_free_undoes_allocate(s.slots(), size);
            }
            assert(t.slots() == s.slots());
            assert(t.blocks == s.blocks);
            assert forall|j: u32| #[trigger] t.slot_of(flight, j) == s.slot_of(flight, j) by {
                assert(t.used(j) == s.used(j));
            }
            assert forall|j: u32| #[trigger] flight.dom().contains(j) implies t.in_transit(j) by {
                assert(s.in_transit(j));
            }
            lemma_slots_kept(s, flight, t);
        },
    }
}

/// The context of a block on its way names the block's slot.
pub open spec fn in_flight(flight: Map<u32, usize>, block: u32, offset: usize) -> bool {
    flight.dom().contains(block) && flight[block] == offset
}

/// An evicted block keeps its slot, in which it resides from now on.
pub proof fn law_evict_finalize_keeps_slots(
    s: PoolView,
    flight: Map<u32, usize>,
    ctx: EvictContext,
)
    requires
        s.slots_settled(flight),
        in_flight(flight, ctx.block_idx, ctx.cpu_offset),
    ensures
        s.evict_finalized(ctx).slots_settled(flight.remove(ctx.block_idx)),
        s.evict_finalized(ctx).slot_of(flight.remove(ctx.block_idx), ctx.block_idx) == Some(
            ctx.cpu_offset,
        ),
{
    let i = ctx.block_idx;
    let t = s.evict_finalized(ctx);
    let g = flight.remove(i);
    assert(s.in_transit(i));
    assert forall|j: u32| j != i implies #[trigger] t.slot_of(g, j) == s.slot_of(flight, j) by {
        assert(t.used(j) == s.used(j));
    }
    lemma_held_slots(s, flight, t, g, i);
    assert(s.held_slots(flight).insert(i, ctx.cpu_offset) =~= s.held_slots(flight));
    assert forall|j: u32| #[trigger] g.dom().contains(j) implies t.in_transit(j) by {
        assert(flight.dom().contains(j));
    }
}

/// An eviction that is called off gives the slot back.
pub proof fn law_evict_rollback_keeps_slots(
    s: PoolView,
    flight: Map<u32, usize>,
    ctx: EvictContext,
)
    requires
        s.slots_settled(flight),
        s.evict_ok(ctx),
        in_flight(flight, ctx.block_idx, ctx.cpu_offset),
    ensures
        s.evict_rolled_back(ctx).slots_settled(flight.remove(ctx.block_idx)),
{
    let i = ctx.block_idx;
    let t = s.evict_rolled_back(ctx);
    let g = flight.remove(i);
    assert(s.in_transit(i));
    assert(s.slot_of(flight, i) == Some(ctx.cpu_offset));
    assert(s.held_slots(flight).dom().contains(i));
    lemma_slot_given_back(
        s.slots(),
        s.tiering->0.total_size as int,
        ctx.total_bytes,
        s.held_slots(flight),
        i,
    );
    assert forall|j: u32| j != i implies #[trigger] t.slot_of(g, j) == s.slot_of(flight, j) by {
        assert(t.used(j) == s.used(j));
    }
    lemma_held_slots(s, flight, t, g, i);
    assert forall|j: u32| #[trigger] g.dom().contains(j) implies t.in_transit(j) by {
        assert(flight.dom().contains(j));
    }
}

/// A block on its way back to the GPU keeps its slot, as does one that gets
/// no physical block.
pub proof fn law_restore_submit_keeps_slots(
    s: PoolView,
    flight: Map<u32, usize>,
    i: u32,
    cpu_offset: usize,
    grants: Seq<Seq<u64>>,
    used: nat,
)
    requires
        s.slots_settled(flight),
    ensures
        ({
            let (t, r) = s.restore_submitted(i, cpu_offset, grants, used);
            match r {
                Ok(_) => t.slots_settled(flight.insert(i, cpu_offset)) && t.slot_of(
                    flight.insert(i, cpu_offset),
                    i,
                ) == Some(cpu_offset),
                Err(_) => t.slots_settled(flight),
            }
        }),
{
    let (t, r) = s.restore_submitted(i, cpu_offset, grants, used);
    assert(flight.dom().contains(i) ==> s.in_transit(i));
    match r {
        Ok(ctx) => {
            let g = flight.insert(i, cpu_offset);
            assert forall|j: u32| j != i implies #[trigger] t.slot_of(g, j) == s.slot_of(
                flight,
                j,
            ) by {
                assert(t.used(j) == s.used(j));
            }
            assert(t.slot_of(g, i) == Some(cpu_offset));
            lemma_held_slots(s, flight, t, g, i);
            assert(s.slot_of(flight, i) == Some(cpu_offset));
            assert(s.held_slots(flight).insert(i, cpu_offset) =~= s.held_slots(flight));
            assert forall|j: u32| #[trigger] g.dom().contains(j) implies t.in_transit(j) by {
                if j != i {
                    assert(flight.dom().contains(j));
                }
            }
        },
        Err(_) => {
            assert forall|j: u32| #[trigger] t.slot_of(flight, j) == s.slot_of(flight, j) by {
                assert(t.used(j) == s.used(j));
            }
            assert forall|j: u32| #[trigger] flight.dom().contains(j) implies t.in_transit(j) by {
                assert(s.in_transit(j));
            }
            lemma_slots_kept(s, flight, t);
        },
    }
}

/// A block whose restore is called off resides in its slot again.
pub proof fn law_restore_rollback_keeps_slots(
    s: PoolView,
    flight: Map<u32, usize>,
    ctx: RestoreContext,
)
    requires
        s.slots_settled(flight),
        in_flight(flight, ctx.block_idx, ctx.cpu_offset),
    ensures
        s.restore_rolled_back(ctx).slots_settled(flight.remove(ctx.block_idx)),
        s.restore_rolled_back(ctx).slot_of(flight.remove(ctx.block_idx), ctx.block_idx) == Some(
            ctx.cpu_offset,
        ),
{
    let i = ctx.block_idx;
    let t = s.restore_rolled_back(ctx);
    let g = flight.remove(i);
    assert(s.in_transit(i));
    assert forall|j: u32| j != i implies #[trigger] t.slot_of(g, j) == s.slot_of(flight, j) by {
        assert(t.used(j) == s.used(j));
    }
    lemma_held_slots(s, flight, t, g, i);
    assert(s.held_slots(flight).insert(i, ctx.cpu_offset) =~= s.held_slots(flight));
    assert forall|j: u32| #[trigger] g.dom().contains(j) implies t.in_transit(j) by {
        assert(flight.dom().contains(j));
    }
}

/// A restored block gives its slot back.
pub proof fn law_restore_finalize_keeps_slots(
    s: PoolView,
    flight: Map<u32, usize>,
    ctx: RestoreContext,
    now: u64,
)
    requires
        s.slots_settled(flight),
        s.restore_ok(ctx),
        in_flight(flight, ctx.block_idx, ctx.cpu_offset),
    ensures
        s.restore_finalized(ctx, now).slots_settled(flight.remove(ctx.block_idx)),
{
    let i = ctx.block_idx;
    let t = s.restore_finalized(ctx, now);
    let g = flight.remove(i);
    assert(s.in_transit(i));
    assert(s.slot_of(flight, i) == Some(ctx.cpu_offset));
    assert(s.held_slots(flight).dom().contains(i));
    lemma_slot_given_back(
        s.slots(),
        s.tiering->0.total_size as int,
        ctx.total_bytes,
        s.held_slots(flight),
        i,
    );
    assert forall|j: u32| j != i implies #[trigger] t.slot_of(g, j) == s.slot_of(flight, j) by {
        assert(t.used(j) == s.used(j));
    }
    lemma_held_slots(s, flight, t, g, i);
    assert forall|j: u32| #[trigger] g.dom().contains(j) implies t.in_transit(j) by {
        assert(flight.dom().contains(j));
    }
}

/// Freeing a block gives its slot back, if it resides in one; a block on its
/// way keeps its slot.
pub proof fn law_free_keeps_slots(s: PoolView, flight: Map<u32, usize>, i: u32)
    requires
        s.wf(),
        s.slots_settled(flight),
        i < s.blocks.len(),
    ensures
        s.freed_one(i).slots_settled(flight),
        forall|j: u32| j != i ==> #[trigger] s.freed_one(i).slot_of(flight, j) == s.slot_of(flight, j),
{
    let t = s.freed_one(i);
    assert forall|j: u32| j != i implies #[trigger] t.slot_of(flight, j) == s.slot_of(flight, j) by {
        assert(t.used(j) == s.used(j));
    }
    assert forall|j: u32| #[trigger] flight.dom().contains(j) implies t.in_transit(j) by {
        assert(s.in_transit(j));
    }
    if s.used(i) && s.blocks[i as int].location is CpuResident {
        assert(s.slot_bytes() <= usize::MAX && s.slot_bytes() >= 0) by {
            assert(0 <= s.shape.num_layers * 2 * s.shape.block_bytes) by (nonlinear_arith);
        }
        assert(s.held_slots(flight).dom().contains(i));
        lemma_slot_given_back(
            s.slots(),
            s.tiering->0.total_size as int,
            s.slot_bytes() as usize,
            s.held_slots(flight),
            i,
        );
        lemma_held_slots(s, flight, t, flight, i);
    } else {
        assert(t.slot_of(flight, i) == s.slot_of(flight, i));
        lemma_slots_kept(s, flight, t);
    }
}

/// Allocating a block touches no slot.
pub proof fn law_allocate_keeps_slots(
    s: PoolView,
    flight: Map<u32, usize>,
    grants: Seq<Seq<u64>>,
    used: nat,
    now: u64,
)
    requires
        s.wf(),
        s.slots_settled(flight),
        s.free_idx.len() > 0 || s.blocks.len() < INDEX_COUNT,
    ensures
        s.allocated(grants, used, now).slots_settled(flight),
        forall|j: u32| #[trigger] s.allocated(grants, used, now).slot_of(flight, j) == s.slot_of(flight, j),
{
    let t = s.allocated(grants, used, now);
    let x = s.physical_taken(grants, used).next_index();
    if s.free_idx.len() > 0 {
        assert(s.free_idx[s.free_idx.len() - 1] == x);
    }
    assert forall|j: u32| #[trigger] t.slot_of(flight, j) == s.slot_of(flight, j) by {
        if s.next_physical(grants, used) is Some && j == x {
            assert(!s.used(j));
        } else {
            assert(t.used(j) == s.used(j));
        }
    }
    assert forall|j: u32| #[trigger] flight.dom().contains(j) implies t.in_transit(j) by {
        assert(s.in_transit(j));
    }
    lemma_slots_kept(s, flight, t);
}

/// Freeing a block keeps the pool well formed.
pub proof fn lemma_freed_one_stays_wf(s: PoolView, i: u32)
    requires
        s.wf(),
        i < s.blocks.len(),
    ensures
        s.freed_one(i).wf(),
        s.freed_one(i).blocks.len() == s.blocks.len(),
{
    assert(s.block_ok(s.blocks[i as int]));
    if let Some(e) = s.tiering {
        if let BlockLocation::CpuResident(offset) = s.blocks[i as int].location {
            cpu_slots::lemma_freed_ordered(e.slots, offset, s.slot_bytes() as usize);
        }
    }
    pool_model::lemma_freed_one_wf(s, i);
}

/// Freeing the blocks of a table gives back the slots that they reside in,
/// each once, and touches no slot of another block.
pub proof fn law_free_sequence_keeps_slots(s: PoolView, flight: Map<u32, usize>, table: Seq<u32>)
    requires
        s.wf(),
        s.slots_settled(flight),
        s.table_ok(table),
    ensures
        s.freed_all(table).wf(),
        s.freed_all(table).slots_settled(flight),
        s.freed_all(table).blocks.len() == s.blocks.len(),
        forall|j: u32|
            !table.contains(j) ==> #[trigger] s.freed_all(table).slot_of(flight, j) == s.slot_of(
                flight,
                j,
            ),
    decreases table.len(),
{
    if table.len() > 0 {
        let rest = table.drop_last();
        let last = table[table.len() - 1];
        assert(s.table_ok(rest));
        law_free_sequence_keeps_slots(s, flight, rest);
        let t = s.freed_all(rest);
        assert(last < s.blocks.len());
        lemma_freed_one_stays_wf(t, last);
        law_free_keeps_slots(t, flight, last);
        assert forall|j: u32| !table.contains(j) implies #[trigger] s.freed_all(table).slot_of(
            flight,
            j,
        ) == s.slot_of(flight, j) by {
            assert(table.contains(last));
            if rest.contains(j) {
                let k = choose|k: int| 0 <= k < rest.len() && rest[k] == j;
                assert(table[k] == j);
            }
            assert(t.slot_of(flight, j) == s.slot_of(flight, j));
        }
    }
}

/// A pool whose swap buffer is all free, with no block in use, is settled.
pub proof fn law_new_pool_settled(s: PoolView)
    requires
        s.tiering is Some,
        s.blocks.len() == 0,
        cpu_slots::ranges_separated(s.slots()),
        forall|k: int|
            0 <= k < s.slots().len() ==> (#[trigger] s.slots()[k]).end
                <= s.tiering->0.total_size,
    ensures
        s.slots_settled(Map::empty()),
{
    assert(s.held_slots(Map::empty()) =~= Map::empty());
}

} // verus!
