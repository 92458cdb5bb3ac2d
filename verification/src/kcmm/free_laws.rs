use vstd::prelude::*;

use crate::kcmm::cpu_slots;
use crate::kcmm::pool::BlockLocation;
use crate::kcmm::pool_model::{BlockInfo, PoolView};
use crate::kcmm::slot_laws;

verus! {

impl PoolView {
    /// The listed blocks in use that reside in GPU memory, each once.
    pub open spec fn listed_on_gpu(self, table: Seq<u32>) -> Set<u32> {
        Set::new(
            |i: u32|
                table.contains(i) && self.used(i)
                    && self.blocks[i as int].location is GpuResident,
        )
    }

    /// None of the listed blocks is on its way.
    pub open spec fn at_rest(self, table: Seq<u32>) -> bool {
        forall|i: u32| #[trigger] table.contains(i) ==> !self.in_transit(i)
    }

    /// The slot of every listed block that resides in the swap buffer is free
    /// in the pool `t`.
    pub open spec fn slots_given_back(self, table: Seq<u32>, t: PoolView) -> bool {
        forall|i: u32, b: int|
            #![trigger table.contains(i), cpu_slots::covered(t.slots(), b)]
            table.contains(i) && self.used(i) && (self.blocks[i as int].location matches BlockLocation::CpuResident(o)
                && o <= b < o + self.slot_bytes()) ==> cpu_slots::covered(t.slots(), b)
    }
}

/// What the listed blocks are is the same without those at the end, but for
/// the last.
proof fn lemma_listed(table: Seq<u32>, i: u32)
    requires
        table.len() > 0,
    ensures
        table.contains(i) <==> table.drop_last().contains(i) || i == table.last(),
{
    let rest = table.drop_last();
    if table.contains(i) {
        let k = choose|k: int| 0 <= k < table.len() && table[k] == i;
        if k < rest.len() {
            assert(rest[k] == i);
        }
    }
    if rest.contains(i) {
        let k = choose|k: int| 0 <= k < rest.len() && rest[k] == i;
        assert(table[k] == i);
    }
    assert(table[table.len() - 1] == table.last());
}

/// Freeing blocks that are not in use changes nothing.
proof fn lemma_free_unused(s: PoolView, table: Seq<u32>)
    requires
        s.table_ok(table),
        forall|i: u32| #[trigger] table.contains(i) ==> !s.used(i),
    ensures
        s.freed_all(table) == s,
    decreases table.len(),
{
    if table.len() > 0 {
        let rest = table.drop_last();
        assert(s.table_ok(rest));
        assert forall|i: u32| #[trigger] rest.contains(i) implies !s.used(i) by {
            lemma_listed(table, i);
        }
        lemma_free_unused(s, rest);
        lemma_listed(table, table.last());
        assert(table[table.len() - 1] < s.blocks.len());
    }
}

/// What becomes of the blocks, and of the number of free physical blocks.
proof fn lemma_freed_blocks(s: PoolView, table: Seq<u32>)
    requires
        s.table_ok(table),
        s.at_rest(table),
    ensures
        ({
            let t = s.freed_all(table);
            &&& t.blocks.len() == s.blocks.len()
            &&& forall|i: u32|
                #![trigger table.contains(i)]
                i < s.blocks.len() ==> t.blocks[i as int] == if table.contains(i) {
                    BlockInfo { in_use: false, ..s.blocks[i as int] }
                } else {
                    s.blocks[i as int]
                }
            &&& s.listed_on_gpu(table).finite()
            &&& t.pools.free.len() == s.pools.free.len() + s.listed_on_gpu(table).len()
        }),
    decreases table.len(),
{
    if table.len() == 0 {
        assert(s.listed_on_gpu(table) =~= Set::empty());
    } else {
        let rest = table.drop_last();
        let x = table.last();
        assert(s.table_ok(rest));
        assert(s.at_rest(rest)) by {
            assert forall|i: u32| #[trigger] rest.contains(i) implies !s.in_transit(i) by {
                lemma_listed(table, i);
            }
        }
        lemma_freed_blocks(s, rest);
        let mid = s.freed_all(rest);
        let t = s.freed_all(table);
        assert(table[table.len() - 1] < s.blocks.len());
        lemma_listed(table, x);
        assert(!s.in_transit(x));
        assert(t == mid.freed_one(x));
        assert(mid.blocks[x as int] == if rest.contains(x) {
            BlockInfo { in_use: false, ..s.blocks[x as int] }
        } else {
            s.blocks[x as int]
        });
        assert(t.blocks[x as int] == BlockInfo { in_use: false, ..s.blocks[x as int] });
        let before = s.listed_on_gpu(rest);
        let after = s.listed_on_gpu(table);
        assert forall|i: u32| #[trigger] after.contains(i) <==> before.contains(i) || (i == x
            && s.used(x) && s.blocks[x as int].location is GpuResident) by {
            lemma_listed(table, i);
        }
        if s.used(x) && s.blocks[x as int].location is GpuResident {
            assert(after =~= before.insert(x));
        } else {
            assert(after =~= before);
        }
        assert forall|i: u32|
            #![trigger table.contains(i)]
            i < s.blocks.len() implies t.blocks[i as int] == if table.contains(i) {
            BlockInfo { in_use: false, ..s.blocks[i as int] }
        } else {
            s.blocks[i as int]
        } by {
            lemma_listed(table, i);
            assert(mid.blocks[i as int] == if rest.contains(i) {
                BlockInfo { in_use: false, ..s.blocks[i as int] }
            } else {
                s.blocks[i as int]
            });
            if i != x {
                assert(t.blocks[i as int] == mid.blocks[i as int]);
            }
        }
    }
}

/// The slots of the listed blocks are free again.
proof fn lemma_freed_slots(s: PoolView, flight: Map<u32, usize>, table: Seq<u32>)
    requires
        s.wf(),
        s.table_ok(table),
        s.at_rest(table),
        s.slots_settled(flight),
    ensures
        s.slots_given_back(table, s.freed_all(table)),
    decreases table.len(),
{
    if table.len() > 0 {
        let rest = table.drop_last();
        let x = table[table.len() - 1];
        assert(s.table_ok(rest));
        assert(s.at_rest(rest)) by {
            assert forall|i: u32| #[trigger] rest.contains(i) implies !s.in_transit(i) by {
                lemma_listed(table, i);
            }
        }
        lemma_freed_slots(s, flight, rest);
        lemma_freed_blocks(s, rest);
        slot_laws::law_free_sequence_keeps_slots(s, flight, rest);
        let mid = s.freed_all(rest);
        let t = s.freed_all(table);
        assert(x < s.blocks.len());
        assert(rest.contains(x) || !rest.contains(x));
        let size = s.slot_bytes();
        lemma_shape_kept(s, rest);
        let frees = mid.used(x) && mid.blocks[x as int].location is CpuResident;
        assert(0 <= size <= usize::MAX) by {
            assert(0 <= s.shape.num_layers * 2 * s.shape.block_bytes) by (nonlinear_arith);
        }
        if frees {
            let o = mid.blocks[x as int].location->CpuResident_0;
            assert(mid.held_slots(flight).dom().contains(x));
            assert(slot_laws::unlisted(mid.slots(), o as int, size));
            cpu_slots::law_free_returns_bytes(mid.slots(), o, size as usize);
        } else {
            assert(t.slots() == mid.slots());
        }
        assert forall|i: u32, b: int|
            #![trigger table.contains(i), cpu_slots::covered(t.slots(), b)]
            table.contains(i) && s.used(i) && (s.blocks[i as int].location matches BlockLocation::CpuResident(o)
                && o <= b < o + s.slot_bytes()) implies cpu_slots::covered(t.slots(), b) by {
            lemma_listed(table, i);
            if rest.contains(i) {
                assert(cpu_slots::covered(mid.slots(), b));
            }
        }
    }
}

/// Freeing blocks does not change the sizes of the pool.
proof fn lemma_shape_kept(s: PoolView, table: Seq<u32>)
    ensures
        s.freed_all(table).shape == s.shape,
        s.freed_all(table).tiering is Some <==> s.tiering is Some,
    decreases table.len(),
{
    if table.len() > 0 {
        lemma_shape_kept(s, table.drop_last());
    }
}

/// Freeing a sequence's blocks: afterwards none of them is in use and all
/// others are as before. Each that resided in GPU memory gave back its
/// physical block, once however often it is listed, and each that resided in
/// the swap buffer its slot. A second time changes nothing.
pub proof fn law_free_sequence_frees_all(s: PoolView, flight: Map<u32, usize>, table: Seq<u32>)
    requires
        s.wf(),
        s.table_ok(table),
        s.at_rest(table),
    ensures
        ({
            let t = s.freed_all(table);
            &&& t.blocks.len() == s.blocks.len()
            &&& forall|i: u32| #[trigger] table.contains(i) ==> !t.used(i)
            &&& forall|i: u32|
                i < s.blocks.len() && !(#[trigger] table.contains(i)) ==> t.blocks[i as int]
                    == s.blocks[i as int]
            &&& s.listed_on_gpu(table).finite()
            &&& t.pools.free.len() == s.pools.free.len() + s.listed_on_gpu(table).len()
            &&& s.slots_settled(flight) ==> t.slots_settled(flight) && s.slots_given_back(table, t)
            &&& t.freed_all(table) == t
        }),
{
    let t = s.freed_all(table);
    lemma_freed_blocks(s, table);
    assert forall|i: u32| #[trigger] table.contains(i) implies !t.used(i) by {
        let k = choose|k: int| 0 <= k < table.len() && table[k] == i;
        assert(table[k] < s.blocks.len());
    }
    assert(t.table_ok(table));
    lemma_free_unused(t, table);
    if s.slots_settled(flight) {
        lemma_freed_slots(s, flight, table);
        slot_laws::law_free_sequence_keeps_slots(s, flight, table);
    }
}

} // verus!
