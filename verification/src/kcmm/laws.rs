use vstd::prelude::*;

use crate::kcmm::cpu_slots;
use crate::kcmm::evict;
use crate::kcmm::evict::EvictContext;
use crate::kcmm::pool::BlockLocation;
use crate::kcmm::pool_model;
use crate::kcmm::pool_model::PoolView;
use crate::kcmm::restore::RestoreContext;
use crate::kcmm::superblock;
use crate::kcmm::superblock::{BlockHandle, INDEX_COUNT, SUPERBLOCK_SIZE};

verus! {

impl PoolView {
    /// Whether block index `i` owns a physical block: it resides in GPU
    /// memory, or is on its way from or to it.
    pub open spec fn holds(self, i: int) -> bool {
        0 <= i < self.blocks.len() && self.blocks[i].in_use && match self.blocks[i].location {
            BlockLocation::GpuResident(_, _) => true,
            BlockLocation::Evicting => true,
            BlockLocation::Restoring => true,
            _ => false,
        }
    }

    /// A block that resides in GPU memory does so where its description says.
    pub open spec fn residence_ok(self, i: int) -> bool {
        self.blocks[i].location matches BlockLocation::GpuResident(h, offset) ==> h
            == self.blocks[i].handle() && offset == self.pools.offset(h) as u64
    }

    /// No physical block is both free and owned, owned twice, or listed twice.
    pub open spec fn exclusive(self) -> bool {
        &&& self.pools.free.no_duplicates()
        &&& self.pools.free_valid()
        &&& forall|i: int| #[trigger] self.holds(i) ==> self.residence_ok(i)
        &&& forall|i: int| #[trigger]
            self.holds(i) ==> !self.pools.free.contains(self.blocks[i].handle())
        &&& forall|i: int, j: int|
            #[trigger] self.holds(i) && #[trigger] self.holds(j) && i != j
                ==> self.blocks[i].handle() != self.blocks[j].handle()
    }

    /// Every physical block is free or owned: none is lost.
    pub open spec fn accounted(self) -> bool {
        forall|h: BlockHandle| #[trigger]
            self.pools.valid(h) ==> self.pools.free.contains(h) || exists|i: int| #[trigger]
                self.holds(i) && self.blocks[i].handle() == h
    }

    /// Each physical block is either free or owned by exactly one block index.
    pub open spec fn partitioned(self) -> bool {
        self.wf() && self.exclusive() && self.accounted()
    }
}

/// The blocks of a new superblock are distinct, new, and all there are.
proof fn lemma_superblock_handles(s: PoolView)
    requires
        s.wf(),
        superblock::superblocks_fit(s.pools.backing.len() as int + 1),
    ensures
        ({
            let new = superblock::superblock_handles(
                s.pools.backing.len(),
                s.pools.blocks_per_superblock,
            );
            &&& new.no_duplicates()
            &&& forall|k: int|
                0 <= k < new.len() ==> (#[trigger] new[k]).superblock_idx == s.pools.backing.len()
            &&& forall|h: BlockHandle|
                h.superblock_idx == s.pools.backing.len() && h.block_index
                    < s.pools.blocks_per_superblock ==> #[trigger] new.contains(h)
        }),
{
    let new = superblock::superblock_handles(s.pools.backing.len(), s.pools.blocks_per_superblock);
    assert forall|h: BlockHandle|
        h.superblock_idx == s.pools.backing.len() && h.block_index
            < s.pools.blocks_per_superblock implies #[trigger] new.contains(h) by {
        assert(new[h.block_index as int] == h);
    }
}

/// Adding a superblock keeps physical blocks partitioned.
proof fn lemma_grown_partitioned(s: PoolView, phys: Seq<u64>)
    requires
        s.partitioned(),
        superblock::superblocks_fit(s.pools.backing.len() as int + 1),
    ensures
        s.with_pools(s.pools.grown(phys)).partitioned(),
{
    lemma_superblock_handles(s);
    let t = s.with_pools(s.pools.grown(phys));
    pool_model::lemma_with_pools_wf(s, s.pools.grown(phys));
    let new = superblock::superblock_handles(s.pools.backing.len(), s.pools.blocks_per_superblock);
    assert forall|k: int| 0 <= k < t.pools.free.len() implies #[trigger] t.pools.valid(
        t.pools.free[k],
    ) by {
        if k < s.pools.free.len() {
            assert(s.pools.valid(s.pools.free[k]));
        } else {
            assert(t.pools.free[k] == new[k - s.pools.free.len()]);
        }
    }
    assert(t.pools.free.no_duplicates()) by {
        assert forall|a: int, b: int|
            0 <= a < t.pools.free.len() && 0 <= b < t.pools.free.len() && a
                != b implies t.pools.free[a] != t.pools.free[b] by {
            let n = s.pools.free.len();
            if a < n && b < n {
                assert(s.pools.free[a] != s.pools.free[b]);
            } else if a < n {
                assert(s.pools.valid(s.pools.free[a]));
                assert(new[b - n].superblock_idx == s.pools.backing.len());
            } else if b < n {
                assert(s.pools.valid(s.pools.free[b]));
                assert(new[a - n].superblock_idx == s.pools.backing.len());
            } else {
                assert(new[a - n] != new[b - n]);
            }
        }
    }
    assert forall|i: int| #[trigger] t.holds(i) implies !t.pools.free.contains(
        t.blocks[i].handle(),
    ) by {
        assert(s.holds(i));
        assert(s.block_ok(s.blocks[i]));
        if t.pools.free.contains(t.blocks[i].handle()) {
            let k = choose|k: int|
                0 <= k < t.pools.free.len() && t.pools.free[k] == t.blocks[i].handle();
            if k < s.pools.free.len() {
                assert(s.pools.free.contains(s.blocks[i].handle()));
            } else {
                assert(new[k - s.pools.free.len()].superblock_idx == s.pools.backing.len());
            }
        }
    }
    assert forall|i: int| #[trigger] t.holds(i) implies t.residence_ok(i) by {
        assert(s.holds(i) && s.residence_ok(i));
    }
    assert forall|i: int, j: int|
        #[trigger] t.holds(i) && #[trigger] t.holds(j) && i != j implies t.blocks[i].handle()
        != t.blocks[j].handle() by {
        assert(s.holds(i) && s.holds(j));
    }
    assert forall|h: BlockHandle| #[trigger] t.pools.valid(h) implies t.pools.free.contains(h)
        || exists|i: int| #[trigger] t.holds(i) && t.blocks[i].handle() == h by {
        if s.pools.valid(h) {
            if s.pools.free.contains(h) {
                let k = choose|k: int| 0 <= k < s.pools.free.len() && s.pools.free[k] == h;
                assert(t.pools.free[k] == h);
            } else {
                let i = choose|i: int| #[trigger] s.holds(i) && s.blocks[i].handle() == h;
                assert(t.holds(i));
            }
        } else {
            assert(new.contains(h));
            let k = choose|k: int| 0 <= k < new.len() && new[k] == h;
            assert(t.pools.free[s.pools.free.len() + k] == h);
        }
    }
}

/// Moving the last free block to block index `x`, which owned none, keeps
/// physical blocks partitioned.
proof fn lemma_taken_partitioned(s: PoolView, t: PoolView, x: int)
    requires
        s.partitioned(),
        t.wf(),
        s.pools.free.len() > 0,
        t.pools == s.pools.with_free(s.pools.free.drop_last()),
        0 <= x < t.blocks.len(),
        !s.holds(x),
        t.holds(x),
        t.residence_ok(x),
        t.blocks[x].handle() == s.pools.free.last(),
        forall|i: int| i != x ==> (#[trigger] t.holds(i) <==> s.holds(i)),
        forall|i: int| i != x && s.holds(i) ==> #[trigger] t.blocks[i] == s.blocks[i],
    ensures
        t.partitioned(),
{
    let last = s.pools.free.last();
    let n = s.pools.free.len();
    assert(s.pools.free[n - 1] == last);
    assert forall|k: int| 0 <= k < t.pools.free.len() implies #[trigger] t.pools.valid(
        t.pools.free[k],
    ) by {
        assert(s.pools.valid(s.pools.free[k]));
    }
    assert(!t.pools.free.contains(last)) by {
        if t.pools.free.contains(last) {
            let k = choose|k: int| 0 <= k < t.pools.free.len() && t.pools.free[k] == last;
            assert(s.pools.free[k] == last && k != n - 1);
        }
    }
    assert forall|i: int| #[trigger] t.holds(i) implies !t.pools.free.contains(
        t.blocks[i].handle(),
    ) && t.residence_ok(i) by {
        if i != x {
            assert(s.holds(i) && s.residence_ok(i));
            assert(t.blocks[i] == s.blocks[i]);
            if t.pools.free.contains(t.blocks[i].handle()) {
                let k = choose|k: int|
                    0 <= k < t.pools.free.len() && t.pools.free[k] == t.blocks[i].handle();
                assert(s.pools.free[k] == s.blocks[i].handle());
                assert(s.pools.free.contains(s.blocks[i].handle()));
            }
        }
    }
    assert forall|i: int, j: int|
        #[trigger] t.holds(i) && #[trigger] t.holds(j) && i != j implies t.blocks[i].handle()
        != t.blocks[j].handle() by {
        assert(s.pools.free.contains(last));
        if i != x && j != x {
            assert(s.holds(i) && s.holds(j));
            assert(t.blocks[i] == s.blocks[i] && t.blocks[j] == s.blocks[j]);
        } else if i != x {
            assert(s.holds(i));
            assert(t.blocks[i] == s.blocks[i]);
        } else {
            assert(s.holds(j));
            assert(t.blocks[j] == s.blocks[j]);
        }
    }
    assert forall|h: BlockHandle| #[trigger] t.pools.valid(h) implies t.pools.free.contains(h)
        || exists|i: int| #[trigger] t.holds(i) && t.blocks[i].handle() == h by {
        assert(s.pools.valid(h));
        if h == last {
            assert(t.holds(x));
        } else if s.pools.free.contains(h) {
            let k = choose|k: int| 0 <= k < n && s.pools.free[k] == h;
            assert(t.pools.free[k] == h);
        } else {
            let i = choose|i: int| #[trigger] s.holds(i) && s.blocks[i].handle() == h;
            assert(t.holds(i) && t.blocks[i] == s.blocks[i]);
        }
    }
}

/// Putting the physical block of block index `x` back into the free list, so
/// that `x` owns none, keeps physical blocks partitioned.
proof fn lemma_given_back_partitioned(s: PoolView, t: PoolView, x: int)
    requires
        s.partitioned(),
        t.wf(),
        s.holds(x),
        !t.holds(x),
        t.pools == s.pools.with_free(s.pools.free.push(s.blocks[x].handle())),
        forall|i: int| i != x ==> (#[trigger] t.holds(i) <==> s.holds(i)),
        forall|i: int| i != x && s.holds(i) ==> #[trigger] t.blocks[i] == s.blocks[i],
    ensures
        t.partitioned(),
{
    let h0 = s.blocks[x].handle();
    let n = s.pools.free.len();
    assert(s.block_ok(s.blocks[x]));
    assert forall|k: int| 0 <= k < t.pools.free.len() implies #[trigger] t.pools.valid(
        t.pools.free[k],
    ) by {
        if k < n {
            assert(s.pools.valid(s.pools.free[k]));
        }
    }
    assert(t.pools.free.no_duplicates()) by {
        assert forall|a: int, b: int|
            0 <= a < t.pools.free.len() && 0 <= b < t.pools.free.len() && a
                != b implies t.pools.free[a] != t.pools.free[b] by {
            if a < n && b < n {
                assert(s.pools.free[a] != s.pools.free[b]);
            } else if a < n {
                assert(s.pools.free.contains(s.pools.free[a]));
            } else {
                assert(s.pools.free.contains(s.pools.free[b]));
            }
        }
    }
    assert forall|i: int| #[trigger] t.holds(i) implies !t.pools.free.contains(
        t.blocks[i].handle(),
    ) && t.residence_ok(i) by {
        assert(s.holds(i) && s.residence_ok(i));
        assert(t.blocks[i] == s.blocks[i]);
        if t.pools.free.contains(t.blocks[i].handle()) {
            let k = choose|k: int|
                0 <= k < t.pools.free.len() && t.pools.free[k] == t.blocks[i].handle();
            if k < n {
                assert(s.pools.free.contains(s.blocks[i].handle()));
            }
        }
    }
    assert forall|i: int, j: int|
        #[trigger] t.holds(i) && #[trigger] t.holds(j) && i != j implies t.blocks[i].handle()
        != t.blocks[j].handle() by {
        assert(s.holds(i) && s.holds(j));
        assert(t.blocks[i] == s.blocks[i] && t.blocks[j] == s.blocks[j]);
    }
    assert forall|h: BlockHandle| #[trigger] t.pools.valid(h) implies t.pools.free.contains(h)
        || exists|i: int| #[trigger] t.holds(i) && t.blocks[i].handle() == h by {
        assert(s.pools.valid(h));
        if h == h0 {
            assert(t.pools.free[n as int] == h);
        } else if s.pools.free.contains(h) {
            let k = choose|k: int| 0 <= k < n && s.pools.free[k] == h;
            assert(t.pools.free[k] == h);
        } else {
            let i = choose|i: int| #[trigger] s.holds(i) && s.blocks[i].handle() == h;
            assert(t.holds(i) && t.blocks[i] == s.blocks[i]);
        }
    }
}

/// Changes that touch neither the free list nor what a block owns keep
/// physical blocks partitioned.
proof fn lemma_kept_partitioned(s: PoolView, t: PoolView)
    requires
        s.partitioned(),
        t.wf(),
        t.pools == s.pools,
        forall|i: int| #[trigger] t.holds(i) <==> s.holds(i),
        forall|i: int| #[trigger]
            s.holds(i) ==> t.blocks[i].handle() == s.blocks[i].handle() && t.residence_ok(i),
    ensures
        t.partitioned(),
{
    assert forall|i: int| #[trigger] t.holds(i) implies !t.pools.free.contains(
        t.blocks[i].handle(),
    ) && t.residence_ok(i) by {
        assert(s.holds(i));
    }
    assert forall|i: int, j: int|
        #[trigger] t.holds(i) && #[trigger] t.holds(j) && i != j implies t.blocks[i].handle()
        != t.blocks[j].handle() by {
        assert(s.holds(i) && s.holds(j));
    }
    assert forall|h: BlockHandle| #[trigger] t.pools.valid(h) implies t.pools.free.contains(h)
        || exists|i: int| #[trigger] t.holds(i) && t.blocks[i].handle() == h by {
        assert(s.pools.valid(h));
        if !s.pools.free.contains(h) {
            let i = choose|i: int| #[trigger] s.holds(i) && s.blocks[i].handle() == h;
            assert(t.holds(i));
        }
    }
}

/// A new pool has no physical block, so none is misplaced.
pub proof fn law_empty_pool_partitioned(s: PoolView)
    requires
        s.wf(),
        s.pools.free.len() == 0,
        s.pools.backing.len() == 0,
        s.blocks.len() == 0,
    ensures
        s.partitioned(),
{
}

/// The pools from which the next block is taken are partitioned.
proof fn lemma_refilled_partitioned(s: PoolView, grants: Seq<Seq<u64>>, used: nat)
    requires
        s.partitioned(),
        s.pools.free.len() == 0 && used < grants.len() ==> superblock::superblocks_fit(
            s.pools.backing.len() as int + 1,
        ),
    ensures
        s.with_pools(s.refilled(grants, used)).partitioned(),
{
    if s.pools.free.len() == 0 && used < grants.len() {
        lemma_grown_partitioned(s, grants[used as int]);
    } else {
        assert(s.with_pools(s.pools) =~= s);
    }
}

/// Allocating a block takes a physical block that nobody owned: afterwards
/// each physical block is still either free or owned exactly once.
pub proof fn law_allocate_keeps_partition(
    s: PoolView,
    grants: Seq<Seq<u64>>,
    used: nat,
    now: u64,
)
    requires
        s.partitioned(),
        s.pools.free.len() == 0 && used < grants.len() ==> superblock::superblocks_fit(
            s.pools.backing.len() as int + 1,
        ),
        s.free_idx.len() > 0 || s.blocks.len() < INDEX_COUNT,
    ensures
        s.allocated(grants, used, now).partitioned(),
{
    lemma_refilled_partitioned(s, grants, used);
    if let Some(h) = s.next_physical(grants, used) {
        let mid = s.with_pools(s.refilled(grants, used));
        let taken = s.physical_taken(grants, used);
        assert(mid.pools.valid(mid.pools.free[mid.pools.free.len() - 1]));
        pool_model::lemma_with_pools_wf(mid, taken.pools);
        assert(mid.with_pools(taken.pools) =~= taken);
        pool_model::lemma_installed_wf(taken, h, now);
        let t = taken.installed(h, now);
        let x = taken.next_index() as int;
        if s.free_idx.len() > 0 {
            assert(s.free_idx[s.free_idx.len() - 1] == x);
        }
        assert(!mid.holds(x));
        lemma_taken_partitioned(mid, t, x);
    }
}

/// Freeing a block puts its physical block, if it owns one, back into the
/// free list once.
pub proof fn law_free_keeps_partition(s: PoolView, i: u32)
    requires
        s.partitioned(),
        i < s.blocks.len(),
    ensures
        s.freed_one(i).partitioned(),
{
    let t = s.freed_one(i);
    let x = i as int;
    assert(s.block_ok(s.blocks[x]));
    if let Some(e) = s.tiering {
        if let BlockLocation::CpuResident(offset) = s.blocks[x].location {
            cpu_slots::lemma_freed_ordered(e.slots, offset, s.slot_bytes() as usize);
        }
    }
    pool_model::lemma_freed_one_wf(s, i);
    if s.blocks[x].in_use && s.blocks[x].location is GpuResident {
        assert(s.holds(x));
        assert(s.residence_ok(x));
        lemma_given_back_partitioned(s, t, x);
    } else {
        assert forall|j: int| #[trigger] t.holds(j) <==> s.holds(j) by {}
        assert forall|j: int| #[trigger] s.holds(j) implies t.blocks[j].handle()
            == s.blocks[j].handle() && t.residence_ok(j) by {
            assert(s.residence_ok(j));
        }
        lemma_kept_partitioned(s, t);
    }
}

/// Freeing the blocks of any table keeps physical blocks partitioned, however
/// often an index occurs in it.
pub proof fn law_free_sequence_keeps_partition(s: PoolView, table: Seq<u32>)
    requires
        s.partitioned(),
        s.table_ok(table),
    ensures
        s.freed_all(table).partitioned(),
        s.freed_all(table).blocks.len() == s.blocks.len(),
    decreases table.len(),
{
    if table.len() > 0 {
        let rest = table.drop_last();
        assert(s.table_ok(rest));
        law_free_sequence_keeps_partition(s, rest);
        let t = s.freed_all(rest);
        assert(table[table.len() - 1] < s.blocks.len());
        law_free_keeps_partition(t, table.last());
    }
}

/// Freeing a block a second time changes nothing.
pub proof fn law_free_twice_is_free_once(s: PoolView, i: u32)
    requires
        i < s.blocks.len(),
    ensures
        s.freed_one(i).freed_one(i) == s.freed_one(i),
{
    let t = s.freed_one(i);
    if s.blocks[i as int].in_use && !(s.blocks[i as int].location is Evicting)
        && !(s.blocks[i as int].location is Restoring) {
        assert(!t.blocks[i as int].in_use);
    } else {
        assert(t == s);
    }
}

/// Freeing a block right after its allocation leaves the free list as it was
/// before, with the same block to be handed out next, and its index likewise.
pub proof fn law_free_undoes_allocate(s: PoolView, grants: Seq<Seq<u64>>, used: nat, now: u64)
    requires
        s.wf(),
        s.next_physical(grants, used) is Some,
        s.free_idx.len() > 0 || s.blocks.len() < INDEX_COUNT,
    ensures
        ({
            let i = s.physical_taken(grants, used).next_index();
            let t = s.allocated(grants, used, now).freed_one(i);
            &&& t.pools == s.refilled(grants, used)
            &&& t.next_index() == i
            &&& s.free_idx.len() > 0 ==> t.free_idx == s.free_idx
        }),
{
    let pools = s.refilled(grants, used);
    let taken = s.physical_taken(grants, used);
    let i = taken.next_index();
    let a = s.allocated(grants, used, now);
    let t = a.freed_one(i);
    if s.free_idx.len() > 0 {
        assert(s.free_idx[s.free_idx.len() - 1] == i);
        assert(s.free_idx.drop_last().push(i) =~= s.free_idx);
    }
    assert(pools.free.drop_last().push(pools.free.last()) =~= pools.free);
    assert(t.pools =~= pools);
}

/// Blocks that own different physical blocks lie in disjoint parts of every
/// region.
pub proof fn law_owned_blocks_disjoint(s: PoolView, i: int, j: int)
    requires
        s.partitioned(),
        s.holds(i),
        s.holds(j),
        i != j,
    ensures
        ({
            let a = s.blocks[i].va_offset;
            let b = s.blocks[j].va_offset;
            let n = s.pools.block_bytes;
            a + n <= b || b + n <= a
        }),
{
    let a = s.blocks[i].handle();
    let b = s.blocks[j].handle();
    assert(s.block_ok(s.blocks[i]) && s.block_ok(s.blocks[j]));
    pool_model::lemma_offset_mapped(s, a);
    pool_model::lemma_offset_mapped(s, b);
    let bb = s.pools.block_bytes as int;
    if a.superblock_idx == b.superblock_idx {
        assert(a.block_index != b.block_index);
        assert(a.block_index * bb + bb <= b.block_index * bb || b.block_index * bb + bb
            <= a.block_index * bb) by (nonlinear_arith)
            requires
                a.block_index != b.block_index,
                bb >= 0,
        ;
    } else {
        assert((a.superblock_idx + 1) * SUPERBLOCK_SIZE <= b.superblock_idx * SUPERBLOCK_SIZE || (
        b.superblock_idx + 1) * SUPERBLOCK_SIZE <= a.superblock_idx * SUPERBLOCK_SIZE)
            by (nonlinear_arith)
            requires
                a.superblock_idx != b.superblock_idx,
        ;
    }
}

/// How many blocks a run of allocations yields: all of them exactly if free
/// blocks and grants suffice.
pub proof fn law_allocation_succeeds(s: PoolView, n: nat, grants: Seq<Seq<u64>>, now: u64)
    requires
        s.wf(),
        s.blocks.len() + n <= INDEX_COUNT,
    ensures
        ({
            let (state, table, used) = s.allocated_many(n, grants, now);
            let bps = s.pools.blocks_per_superblock as int;
            let supply = s.pools.free.len() + grants.len() as int * bps;
            &&& used <= grants.len()
            &&& table.len() == if n <= supply { n } else { supply as nat }
            &&& state.pools.free.len() + table.len() == s.pools.free.len() + used as int * bps
            &&& state.pools.blocks_per_superblock == bps
            &&& used > 0 ==> state.pools.free.len() < bps
        }),
    decreases n,
{
    let bps = s.pools.blocks_per_superblock as int;
    if n == 0 {
        assert(0 <= grants.len() as int * bps) by (nonlinear_arith)
            requires
                bps >= 0,
        ;
        assert(0int * bps == 0) by (nonlinear_arith);
    } else {
        law_allocation_succeeds(s, (n - 1) as nat, grants, now);
        let (state, table, used) = s.allocated_many((n - 1) as nat, grants, now);
        if used < grants.len() {
            assert(state.pools.grown(grants[used as int]).free.len() == state.pools.free.len()
                + bps);
        }
        assert((used as int + 1) * bps == used as int * bps + bps) by (nonlinear_arith);
        assert(used < grants.len() ==> (used as int + 1) * bps <= grants.len() as int * bps) by (nonlinear_arith)
            requires
                bps >= 0,
        ;
        assert(used >= grants.len() ==> used as int * bps >= grants.len() as int * bps) by (nonlinear_arith)
            requires
                bps >= 0,
        ;
    }
}

/// An allocation of `n` blocks with as many grants as are needed succeeds,
/// and uses all of them.
pub proof fn law_needed_superblocks_suffice(
    s: PoolView,
    n: nat,
    grants: Seq<Seq<u64>>,
    now: u64,
)
    requires
        s.wf(),
        s.blocks.len() + n <= INDEX_COUNT,
        grants.len() == s.superblocks_needed(n),
    ensures
        s.allocated_many(n, grants, now).1.len() == n,
        s.allocated_many(n, grants, now).2 == grants.len(),
{
    law_allocation_succeeds(s, n, grants, now);
    let bps = s.pools.blocks_per_superblock as int;
    let (state, table, used) = s.allocated_many(n, grants, now);
    let free = s.pools.free.len() as int;
    if n > free {
        let missing = n - free;
        vstd::arithmetic::div_mod::lemma_fundamental_div_mod(missing + bps - 1, bps);
        let g = grants.len() as int;
        assert(g * bps == bps * g) by (nonlinear_arith);
        assert(missing <= g * bps < missing + bps);
        assert(used == g) by {
            if used < g {
                assert(used as int * bps + bps <= g * bps) by (nonlinear_arith)
                    requires
                        used + 1 <= g,
                        bps >= 0,
                ;
            }
        }
    } else {
        assert(grants.len() as int * bps == 0) by (nonlinear_arith)
            requires
                grants.len() == 0,
        ;
    }
}

/// Preparing the eviction of a block, or an attempt that is refused, keeps
/// physical blocks partitioned.
pub proof fn law_evict_submit_keeps_partition(s: PoolView, i: u32, h: BlockHandle)
    requires
        s.partitioned(),
    ensures
        s.evict_submitted(i, h).0.partitioned(),
{
    let t = s.evict_submitted(i, h).0;
    if s.tiering is Some {
        let size = s.slot_bytes() as usize;
        cpu_slots::lemma_allocated_ordered(s.slots(), size);
        let (found, slots) = cpu_slots::allocated(s.slots(), size);
        if let Some(offset) = found {
            evict::lemma_with_slots_wf(s, slots);
            if s.used(i) {
                let mid = s.with_slots(slots);
                assert(mid.block_ok(mid.blocks[i as int]));
                pool_model::lemma_with_block_wf(mid, i as int, t.blocks[i as int]);
            } else {
                cpu_slots::lemma_freed_ordered(slots, offset, size);
                evict::lemma_with_slots_wf(s, cpu_slots::freed(slots, offset, size));
            }
        }
        assert forall|j: int| #[trigger] s.holds(j) implies t.blocks[j].handle()
            == s.blocks[j].handle() && t.residence_ok(j) by {
            assert(s.residence_ok(j));
        }
        lemma_kept_partitioned(s, t);
    }
}

/// Finalizing the eviction of a marked block puts its physical block back
/// into the free list once.
pub proof fn law_evict_finalize_keeps_partition(s: PoolView, ctx: EvictContext)
    requires
        s.partitioned(),
        s.tiering is Some,
        s.evict_ok(ctx),
        s.holds(ctx.block_idx as int),
    ensures
        s.evict_finalized(ctx).partitioned(),
        s.evict_finalized(ctx).pools.free == s.pools.free.push(
            s.blocks[ctx.block_idx as int].handle(),
        ),
{
    let x = ctx.block_idx as int;
    let t = s.evict_finalized(ctx);
    assert(s.block_ok(s.blocks[x]));
    pool_model::lemma_with_pools_wf(s, s.released(x).pools);
    assert(s.released(x) =~= s.with_pools(s.released(x).pools));
    let mid = s.released(x).located(x, BlockLocation::CpuResident(ctx.cpu_offset));
    assert(s.released(x).block_ok(s.released(x).blocks[x]));
    pool_model::lemma_with_block_wf(s.released(x), x, mid.blocks[x]);
    evict::lemma_with_scores_wf(mid, s.tiering->0.scores.remove(ctx.handle.key()));
    lemma_given_back_partitioned(s, t, x);
}

/// Calling off the eviction of a marked block keeps physical blocks
/// partitioned.
pub proof fn law_evict_rollback_keeps_partition(s: PoolView, ctx: EvictContext)
    requires
        s.partitioned(),
        s.tiering is Some,
        s.evict_ok(ctx),
        s.used(ctx.block_idx) ==> s.holds(ctx.block_idx as int)
            && s.blocks[ctx.block_idx as int].handle() == ctx.handle,
    ensures
        s.evict_rolled_back(ctx).partitioned(),
{
    let x = ctx.block_idx as int;
    let t = s.evict_rolled_back(ctx);
    let slots = cpu_slots::freed(s.slots(), ctx.cpu_offset, ctx.total_bytes);
    cpu_slots::lemma_freed_ordered(s.slots(), ctx.cpu_offset, ctx.total_bytes);
    evict::lemma_with_slots_wf(s, slots);
    if s.used(ctx.block_idx) {
        let mid = s.with_slots(slots);
        assert(mid.block_ok(mid.blocks[x]));
        pool_model::lemma_with_block_wf(mid, x, t.blocks[x]);
    }
    assert forall|j: int| #[trigger] s.holds(j) implies t.blocks[j].handle()
        == s.blocks[j].handle() && t.residence_ok(j) by {
        assert(s.residence_ok(j));
    }
    lemma_kept_partitioned(s, t);
}

/// An eviction that is called off leaves the pool as it was.
pub proof fn law_evict_rollback_undoes_submit(s: PoolView, i: u32)
    requires
        s.wf(),
        s.tiering is Some,
        cpu_slots::ranges_separated(s.slots()),
        s.used(i),
        s.blocks[i as int].location == BlockLocation::GpuResident(
            s.blocks[i as int].handle(),
            s.pools.offset(s.blocks[i as int].handle()) as u64,
        ),
        s.evict_submitted(i, s.blocks[i as int].handle()).1 is Ok,
    ensures
        ({
            let (t, r) = s.evict_submitted(i, s.blocks[i as int].handle());
            t.evict_rolled_back(r->Ok_0) == s
        }),
{
    let h = s.blocks[i as int].handle();
    let (t, r) = s.evict_submitted(i, h);
    let ctx = r->Ok_0;
    let size = s.slot_bytes() as usize;
    cpu_slots::law_free_undoes_allocate(s.slots(), size);
    let u = t.evict_rolled_back(ctx);
    assert(u.blocks =~= s.blocks);
    assert(u.tiering->0 =~= s.tiering->0);
    assert(u =~= s);
}

/// Taking a physical block for a block, or an attempt that is refused, keeps
/// physical blocks partitioned.
pub proof fn law_restore_submit_keeps_partition(
    s: PoolView,
    i: u32,
    cpu_offset: usize,
    grants: Seq<Seq<u64>>,
    used: nat,
)
    requires
        s.partitioned(),
        s.pools.free.len() == 0 && used < grants.len() ==> superblock::superblocks_fit(
            s.pools.backing.len() as int + 1,
        ),
    ensures
        s.restore_submitted(i, cpu_offset, grants, used).0.partitioned(),
{
    let (t, r) = s.restore_submitted(i, cpu_offset, grants, used);
    if s.used(i) && s.blocks[i as int].location == BlockLocation::CpuResident(cpu_offset) {
        let x = i as int;
        let marked = s.located(x, BlockLocation::Restoring);
        assert(s.block_ok(s.blocks[x]));
        lemma_refilled_partitioned(s, grants, used);
        let mid = s.with_pools(s.refilled(grants, used));
        if let Some(h) = marked.next_physical(grants, used) {
            assert(mid.pools.valid(mid.pools.free[mid.pools.free.len() - 1]));
            let taken = s.physical_taken(grants, used);
            pool_model::lemma_with_pools_wf(mid, taken.pools);
            assert(mid.with_pools(taken.pools) =~= taken);
            pool_model::lemma_offset_mapped(taken, h);
            pool_model::lemma_with_block_wf(taken, x, t.blocks[x]);
            assert(taken.with_block(x, t.blocks[x]) =~= t);
            lemma_taken_partitioned(mid, t, x);
        } else {
            assert(t.blocks =~= s.blocks);
            assert(t.pools == mid.pools);
            assert(t =~= mid);
        }
    }
}

/// Calling off a restore puts the physical block back into the free list.
pub proof fn law_restore_rollback_keeps_partition(s: PoolView, ctx: RestoreContext)
    requires
        s.partitioned(),
        s.restore_ok(ctx),
        s.used(ctx.block_idx) ==> s.holds(ctx.block_idx as int),
    ensures
        s.restore_rolled_back(ctx).partitioned(),
{
    if s.used(ctx.block_idx) {
        let x = ctx.block_idx as int;
        let t = s.restore_rolled_back(ctx);
        assert(s.block_ok(s.blocks[x]));
        pool_model::lemma_with_pools_wf(s, s.released(x).pools);
        assert(s.released(x) =~= s.with_pools(s.released(x).pools));
        assert(s.released(x).block_ok(s.released(x).blocks[x]));
        pool_model::lemma_with_block_wf(s.released(x), x, t.blocks[x]);
        lemma_given_back_partitioned(s, t, x);
    }
}

/// Finalizing a restore keeps physical blocks partitioned.
pub proof fn law_restore_finalize_keeps_partition(s: PoolView, ctx: RestoreContext, now: u64)
    requires
        s.partitioned(),
        s.tiering is Some,
        s.restore_ok(ctx),
        s.used(ctx.block_idx) ==> s.holds(ctx.block_idx as int)
            && s.blocks[ctx.block_idx as int].handle() == ctx.new_handle,
    ensures
        s.restore_finalized(ctx, now).partitioned(),
{
    if s.used(ctx.block_idx) {
        let x = ctx.block_idx as int;
        let t = s.restore_finalized(ctx, now);
        let e = s.tiering->0;
        assert(s.block_ok(s.blocks[x]));
        let mid = s.located(
            x,
            BlockLocation::GpuResident(ctx.new_handle, ctx.va_offset as u64),
        );
        pool_model::lemma_with_block_wf(s, x, mid.blocks[x]);
        let slots = cpu_slots::freed(e.slots, ctx.cpu_offset, ctx.total_bytes);
        cpu_slots::lemma_freed_ordered(e.slots, ctx.cpu_offset, ctx.total_bytes);
        evict::lemma_with_slots_wf(mid, slots);
        evict::lemma_with_scores_wf(
            mid.with_slots(slots),
            e.kind.scores_on_access(e.scores, ctx.new_handle, now),
        );
        assert forall|j: int| #[trigger] s.holds(j) implies t.blocks[j].handle()
            == s.blocks[j].handle() && t.residence_ok(j) by {
            assert(s.residence_ok(j));
        }
        lemma_kept_partitioned(s, t);
    }
}

/// The pool after a block was evicted to the swap buffer.
pub open spec fn evicted(s: PoolView, i: u32) -> PoolView {
    let (t, r) = s.evict_submitted(i, s.blocks[i as int].handle());
    t.evict_finalized(r->Ok_0)
}

/// A physical block that an eviction freed is the next to be handed out.
pub proof fn law_eviction_frees_next_block(s: PoolView, i: u32, grants: Seq<Seq<u64>>)
    requires
        s.wf(),
        s.tiering is Some,
        s.used(i),
        s.evict_submitted(i, s.blocks[i as int].handle()).1 is Ok,
    ensures
        evicted(s, i).next_physical(grants, 0) == Some(s.blocks[i as int].handle()),
        evicted(s, i).pools.free.len() == s.pools.free.len() + 1,
        evicted(s, i).blocks[i as int].location is CpuResident,
{
}

/// Restoring a block that was just evicted brings it back to where it was,
/// and leaves the swap buffer as it was.
pub proof fn law_restore_undoes_evict(s: PoolView, i: u32, grants: Seq<Seq<u64>>, now: u64)
    requires
        s.wf(),
        s.tiering is Some,
        cpu_slots::ranges_separated(s.slots()),
        s.used(i),
        s.blocks[i as int].location == BlockLocation::GpuResident(
            s.blocks[i as int].handle(),
            s.pools.offset(s.blocks[i as int].handle()) as u64,
        ),
        s.evict_submitted(i, s.blocks[i as int].handle()).1 is Ok,
    ensures
        ({
            let t = evicted(s, i);
            let offset = t.blocks[i as int].location->CpuResident_0;
            let (u, r) = t.restore_submitted(i, offset, grants, 0);
            let w = u.restore_finalized(r->Ok_0, now);
            &&& r is Ok
            &&& w.blocks == s.blocks
            &&& w.pools == s.pools
            &&& w.free_idx == s.free_idx
            &&& w.slots() == s.slots()
        }),
{
    let h = s.blocks[i as int].handle();
    let (m, e) = s.evict_submitted(i, h);
    let ctx = e->Ok_0;
    let size = s.slot_bytes() as usize;
    cpu_slots::law_free_undoes_allocate(s.slots(), size);
    assert(s.block_ok(s.blocks[i as int]));
    let t = evicted(s, i);
    assert(t.pools.free.drop_last() =~= s.pools.free);
    let (u, r) = t.restore_submitted(i, ctx.cpu_offset, grants, 0);
    let w = u.restore_finalized(r->Ok_0, now);
    assert(w.blocks =~= s.blocks);
    assert(w.pools =~= s.pools);
}

} // verus!
