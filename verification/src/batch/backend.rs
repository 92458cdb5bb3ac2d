use vstd::prelude::*;

use crate::cache::paged_kv::PagedKvCache;
use crate::kcmm::pool::{KcmmPool, PoolError};
use crate::kcmm::pool_model;
use crate::kcmm::pool_model::PoolView;
use crate::kcmm::superblock::{BlockHandle, INDEX_COUNT};

verus! {

/// The cache that a scheduler works on: the plain paged cache, or the pool
/// that moves blocks between memory tiers.
#[derive(Debug)]
pub enum CacheBackend {
    Baseline(PagedKvCache),
    Kcmm(KcmmPool),
}

/// Every sequence's table names block indices.
pub open spec fn tables_ok(s: PoolView) -> bool {
    forall|q: int|
        0 <= q < s.sequences.len() ==> s.table_ok((#[trigger] s.sequences[q]).block_table)
}

/// Freeing blocks changes no sequence and takes no block index away.
pub proof fn lemma_freed_all_frame(s: PoolView, table: Seq<u32>)
    ensures
        s.freed_all(table).sequences == s.sequences,
        s.table_ok(table) ==> s.freed_all(table).blocks.len() == s.blocks.len(),
    decreases table.len(),
{
    if table.len() > 0 {
        lemma_freed_all_frame(s, table.drop_last());
        assert(s.table_ok(table) ==> s.table_ok(table.drop_last()));
        assert(table.last() == table[table.len() - 1]);
    }
}

/// Unregistering a sequence leaves all tables valid.
pub proof fn lemma_unregistered_tables(s: PoolView, q: int)
    requires
        tables_ok(s),
    ensures
        tables_ok(s.unregistered(q)),
        s.unregistered(q).sequences.len() == s.sequences.len(),
        s.unregistered(q).blocks.len() == s.blocks.len(),
        forall|p: int|
            0 <= p < s.sequences.len() && p != q ==> #[trigger] s.unregistered(q).sequences[p]
                == s.sequences[p],
{
    if 0 <= q < s.sequences.len() {
        let seq = s.sequences[q];
        let cleared = s.with_sequence(
            q,
            pool_model::SequenceView { block_table: Seq::empty(), seq_len: 0, ..seq },
        );
        assert(cleared.table_ok(seq.block_table));
        lemma_freed_all_frame(cleared, seq.block_table);
    }
}

/// Allocating blocks changes no sequence and takes no block index away; the
/// indices handed out are block indices.
pub proof fn lemma_allocated_many_tables(s: PoolView, n: nat, grants: Seq<Seq<u64>>, now: u64)
    requires
        s.wf(),
        tables_ok(s),
        s.blocks.len() + n <= INDEX_COUNT,
    ensures
        tables_ok(s.allocated_many(n, grants, now).0),
        s.allocated_many(n, grants, now).0.sequences == s.sequences,
        s.allocated_many(n, grants, now).0.blocks.len() <= s.blocks.len() + n,
        s.allocated_many(n, grants, now).0.table_ok(s.allocated_many(n, grants, now).1),
        s.blocks.len() <= s.allocated_many(n, grants, now).0.blocks.len(),
        forall|k: int|
            0 <= k < s.allocated_many(n, grants, now).0.free_idx.len() ==> (
            #[trigger] s.allocated_many(n, grants, now).0.free_idx[k])
                < s.allocated_many(n, grants, now).0.blocks.len(),
    decreases n,
{
    if n > 0 {
        lemma_allocated_many_tables(s, (n - 1) as nat, grants, now);
        let (t, table, used) = s.allocated_many((n - 1) as nat, grants, now);
        if table.len() == n - 1 && t.next_physical(grants, used) is Some {
            let u = t.allocated(grants, used, now);
            assert(t.free_idx.len() > 0 ==> t.free_idx[t.free_idx.len() - 1] == t.free_idx.last());
            assert forall|q: int| 0 <= q < u.sequences.len() implies u.table_ok(
                (#[trigger] u.sequences[q]).block_table,
            ) by {
                assert(t.table_ok(t.sequences[q].block_table));
            }
        }
    }
}

/// The blocks of a table that are in GPU memory, by their handles.
pub open spec fn gpu_handles(
    s: PoolView,
    seq_idx: int,
) -> Seq<BlockHandle> {
    if 0 <= seq_idx < s.sequences.len() {
        s.gpu_blocks(s.sequences[seq_idx].block_table).map_values(
            |p: (u32, BlockHandle)| p.1,
        )
    } else {
        Seq::empty()
    }
}

impl View for CacheBackend {
    type V = PoolView;

    open spec fn view(&self) -> PoolView {
        match self {
            CacheBackend::Baseline(c) => c@,
            CacheBackend::Kcmm(p) => p@,
        }
    }
}

impl CacheBackend {
    pub open spec fn wf(&self) -> bool {
        &&& tables_ok(self@)
        &&& match self {
            CacheBackend::Baseline(c) => c.wf(),
            CacheBackend::Kcmm(p) => p.wf(),
        }
    }

    /// Whether `self` is the same kind of cache as `other`.
    pub open spec fn same_kind(&self, other: &Self) -> bool {
        match (self, other) {
            (CacheBackend::Baseline(c), CacheBackend::Baseline(d)) => c.cfg == d.cfg,
            (CacheBackend::Kcmm(_), CacheBackend::Kcmm(_)) => true,
            _ => false,
        }
    }

    /// Each grant backs one superblock of every pool, and the cache can number
    /// and address all of them.
    pub open spec fn grants_ok(&self, grants: Seq<Vec<u64>>) -> bool {
        match self {
            CacheBackend::Baseline(c) => c.pool.grants_ok(grants),
            CacheBackend::Kcmm(p) => p.grants_ok(grants),
        }
    }

    /// The time that allocations are recorded with: the plain cache keeps no
    /// times.
    pub open spec fn clock(&self, now: u64) -> u64 {
        match self {
            CacheBackend::Baseline(_) => 0,
            CacheBackend::Kcmm(_) => now,
        }
    }

    /// Whether blocks can move between memory tiers.
    pub fn is_kcmm(&self) -> (r: bool)
        ensures
            r == (self is Kcmm),
    {
        match self {
            CacheBackend::Baseline(_) => false,
            CacheBackend::Kcmm(_) => true,
        }
    }

    /// The tiered pool, if this is one.
    pub fn kcmm_pool(&self) -> (r: Option<&KcmmPool>)
        ensures
            match self {
                CacheBackend::Baseline(_) => r is None,
                CacheBackend::Kcmm(p) => r == Some(p),
            },
    {
        match self {
            CacheBackend::Baseline(_) => None,
            CacheBackend::Kcmm(p) => Some(p),
        }
    }

    /// The plain paged cache, if this is one.
    pub fn paged_kv(&self) -> (r: Option<&PagedKvCache>)
        ensures
            match self {
                CacheBackend::Baseline(c) => r == Some(c),
                CacheBackend::Kcmm(_) => r is None,
            },
    {
        match self {
            CacheBackend::Baseline(c) => Some(c),
            CacheBackend::Kcmm(_) => None,
        }
    }

    /// Whether a physical block is free.
    pub fn has_free_blocks(&self) -> (r: bool)
        requires
            self.wf(),
        ensures
            r == (self@.pools.free.len() > 0),
    {
        match self {
            CacheBackend::Baseline(c) => c.has_free_blocks(),
            CacheBackend::Kcmm(p) => p.has_free_blocks(),
        }
    }

    /// Superblocks that have to be mapped before `num_blocks` blocks can be
    /// allocated.
    pub fn superblocks_needed(&self, num_blocks: usize) -> (r: usize)
        requires
            self.wf(),
            num_blocks + self@.pools.blocks_per_superblock <= usize::MAX,
        ensures
            r == self@.superblocks_needed(num_blocks as nat),
    {
        match self {
            CacheBackend::Baseline(c) => c.superblocks_needed(num_blocks),
            CacheBackend::Kcmm(p) => p.superblocks_needed(num_blocks),
        }
    }

    /// Allocate `num_blocks` blocks for a new sequence and return their
    /// indices. Where they cannot all be had, the blocks allocated before the
    /// failure stay in use.
    pub fn alloc_sequence(
        &mut self,
        num_blocks: usize,
        grants: &Vec<Vec<u64>>,
        now: u64,
    ) -> (r: Result<Vec<u32>, PoolError>)
        requires
            old(self).wf(),
            old(self).grants_ok(grants@),
            old(self)@.blocks.len() + num_blocks <= INDEX_COUNT,
        ensures
            final(self).wf(),
            final(self).same_kind(&*old(self)),
            ({
                let (state, table, used) = old(self)@.allocated_many(
                    num_blocks as nat,
                    pool_model::grants_view(grants@),
                    old(self).clock(now),
                );
                &&& final(self)@ == state
                &&& state.table_ok(table)
                &&& table.len() == num_blocks ==> r is Ok && r->Ok_0@ == table
                &&& table.len() != num_blocks ==> r == Err::<Vec<u32>, PoolError>(
                    PoolError::OutOfMemory,
                )
            }),
    {
        proof {
            lemma_allocated_many_tables(
                self@,
                num_blocks as nat,
                pool_model::grants_view(grants@),
                self.clock(now),
            );
        }
        match self {
            CacheBackend::Baseline(c) => c.alloc_sequence(num_blocks, grants),
            CacheBackend::Kcmm(p) => p.alloc_sequence(num_blocks, grants, now),
        }
    }

    /// Register a sequence over the given blocks and return its index.
    pub fn register_sequence(&mut self, block_table: Vec<u32>) -> (idx: usize)
        requires
            old(self).wf(),
            old(self)@.table_ok(block_table@),
        ensures
            final(self).wf(),
            final(self).same_kind(&*old(self)),
            idx == old(self)@.sequences.len(),
            final(self)@ == old(self)@.with_registered(block_table@),
    {
        match self {
            CacheBackend::Baseline(c) => c.register_sequence(block_table),
            CacheBackend::Kcmm(p) => p.register_sequence(block_table),
        }
    }

    /// Unregister a sequence and free its blocks. Its index stays taken.
    pub fn unregister_sequence(&mut self, seq_idx: usize)
        requires
            old(self).wf(),
        ensures
            final(self).wf(),
            final(self).same_kind(&*old(self)),
            final(self)@ == old(self)@.unregistered(seq_idx as int),
    {
        proof {
            lemma_unregistered_tables(self@, seq_idx as int);
        }
        match self {
            CacheBackend::Baseline(c) => c.unregister_sequence(seq_idx),
            CacheBackend::Kcmm(p) => p.unregister_sequence(seq_idx),
        }
    }

    /// Set a sequence's length; an unknown one is ignored.
    pub fn update_seq_len(&mut self, seq_idx: usize, len: usize)
        requires
            old(self).wf(),
        ensures
            final(self).wf(),
            final(self).same_kind(&*old(self)),
            final(self)@ == old(self)@.with_seq_len(seq_idx as int, len),
    {
        match self {
            CacheBackend::Baseline(c) => c.update_seq_len(seq_idx, len),
            CacheBackend::Kcmm(p) => p.update_seq_len(seq_idx, len),
        }
    }

    /// Allocate one block and append it to a sequence; an unknown sequence
    /// does not get it. Returns whether a block was to be had.
    pub fn grow_sequence(&mut self, seq_idx: usize, grants: &Vec<Vec<u64>>, now: u64) -> (r: bool)
        requires
            old(self).wf(),
            old(self).grants_ok(grants@),
            old(self)@.free_idx.len() > 0 || old(self)@.blocks.len() < INDEX_COUNT,
        ensures
            final(self).wf(),
            final(self).same_kind(&*old(self)),
            r == (old(self)@.next_physical(pool_model::grants_view(grants@), 0) is Some),
            final(self)@ == {
                let state = old(self)@.allocated(
                    pool_model::grants_view(grants@),
                    0,
                    old(self).clock(now),
                );
                if r {
                    state.with_appended(seq_idx as int, old(self)@.next_index())
                } else {
                    state
                }
            },
    {
        proof {
            let s = self@;
            let state = s.allocated(pool_model::grants_view(grants@), 0, self.clock(now));
            assert(s.free_idx.len() > 0 ==> s.free_idx[s.free_idx.len() - 1] == s.free_idx.last());
            assert forall|q: int| 0 <= q < state.sequences.len() implies state.table_ok(
                (#[trigger] state.sequences[q]).block_table,
            ) by {
                assert(s.table_ok(s.sequences[q].block_table));
            }
        }
        match self {
            CacheBackend::Baseline(c) => {
                match c.alloc_block(grants) {
                    Ok(idx) => {
                        c.append_block_to_sequence(seq_idx, idx);
                        true
                    },
                    Err(_) => false,
                }
            },
            CacheBackend::Kcmm(p) => {
                match p.alloc_block(grants, now) {
                    Ok(idx) => {
                        p.append_block_to_sequence(seq_idx, idx);
                        true
                    },
                    Err(_) => false,
                }
            },
        }
    }

    /// The handles of a sequence's blocks that reside in GPU memory.
    pub fn evictable_handles(&self, seq_idx: usize) -> (r: Vec<BlockHandle>)
        requires
            *self is Kcmm,
        ensures
            r@ == gpu_handles(self@, seq_idx as int),
    {
        let mut out: Vec<BlockHandle> = Vec::new();
        if let CacheBackend::Kcmm(p) = self {
            let blocks: Vec<(u32, BlockHandle)> = p.sequence_gpu_handles(seq_idx);
            let mut i: usize = 0;
            while i < blocks.len()
                invariant
                    i <= blocks@.len(),
                    out@ == blocks@.map_values(|b: (u32, BlockHandle)| b.1).take(i as int),
                decreases blocks@.len() - i,
            {
                out.push(blocks[i].1);
                i = i + 1;
            }
            assert(out@ =~= blocks@.map_values(|b: (u32, BlockHandle)| b.1));
        }
        assert(out@ =~= gpu_handles(self@, seq_idx as int));
        out
    }

    /// Mark a sequence as recently accessed. The plain cache keeps no such
    /// mark.
    pub fn touch(&mut self, seq_idx: usize)
        requires
            old(self).wf(),
        ensures
            final(self).wf(),
            final(self).same_kind(&*old(self)),
            final(self)@ == if *old(self) is Kcmm {
                old(self)@.with_active(seq_idx as int, true)
            } else {
                old(self)@
            },
    {
        match self {
            CacheBackend::Baseline(_) => {},
            CacheBackend::Kcmm(p) => p.touch(seq_idx),
        }
    }

    /// Mark a sequence as eligible for eviction. The plain cache keeps no such
    /// mark.
    pub fn cool(&mut self, seq_idx: usize)
        requires
            old(self).wf(),
        ensures
            final(self).wf(),
            final(self).same_kind(&*old(self)),
            final(self)@ == if *old(self) is Kcmm {
                old(self)@.with_active(seq_idx as int, false)
            } else {
                old(self)@
            },
    {
        match self {
            CacheBackend::Baseline(_) => {},
            CacheBackend::Kcmm(p) => p.cool(seq_idx),
        }
    }
}

} // verus!
