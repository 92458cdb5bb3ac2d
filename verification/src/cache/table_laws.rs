use vstd::prelude::*;

use crate::kcmm::laws;
use crate::kcmm::pool_model::{PoolView, SequenceView};
use crate::kcmm::superblock;
use crate::kcmm::superblock::{BlockHandle, HALF_BYTES, INDEX_COUNT, SUPERBLOCK_SIZE};
use crate::kv_write;

verus! {

impl PoolView {
    /// Every block in use owns a physical block.
    pub open spec fn all_held(self) -> bool {
        forall|i: u32| #[trigger] self.used(i) ==> self.holds(i as int)
    }

    /// Entry `k` of the block table of sequence `q`.
    pub open spec fn entry(self, q: int, k: int) -> u32 {
        self.sequences[q].block_table[k]
    }

    /// Whether the block table of sequence `q` has an entry `k`.
    pub open spec fn has_entry(self, q: int, k: int) -> bool {
        0 <= q < self.sequences.len() && 0 <= k < self.sequences[q].block_table.len()
    }

    /// Block tables name blocks in use only, and no block stands in two
    /// places.
    pub open spec fn tables_exclusive(self) -> bool {
        &&& forall|q: int, k: int| #[trigger] self.has_entry(q, k) ==> self.used(self.entry(q, k))
        &&& forall|q: int, k: int, r: int, l: int|
            #[trigger] self.has_entry(q, k) && #[trigger] self.has_entry(r, l) && self.entry(q, k)
                == self.entry(r, l) ==> q == r && k == l
    }

    /// Where position `pos` of sequence `q` is stored within a layer's K or V
    /// region.
    pub open spec fn row_place(self, q: int, pos: int) -> int {
        let bs = self.shape.block_size as int;
        kv_write::row_offset(
            self.blocks[self.entry(q, pos / bs) as int].va_offset as int,
            pos % bs,
            self.step(),
        )
    }
}

/// Changing the sequences keeps physical blocks partitioned.
proof fn lemma_sequences_partitioned(s: PoolView, t: PoolView)
    requires
        s.partitioned(),
        t == (PoolView { sequences: t.sequences, ..s }),
    ensures
        t.partitioned(),
{
    assert forall|i: int| 0 <= i < t.blocks.len() implies t.block_ok(#[trigger] t.blocks[i]) by {
        assert(s.block_ok(s.blocks[i]));
    }
    assert forall|i: int| #[trigger] t.holds(i) implies s.holds(i) && t.residence_ok(i)
        && !t.pools.free.contains(t.blocks[i].handle()) by {
        assert(s.holds(i) && s.residence_ok(i));
    }
    assert forall|h: BlockHandle| #[trigger] t.pools.valid(h) implies t.pools.free.contains(h)
        || exists|i: int| #[trigger] t.holds(i) && t.blocks[i].handle() == h by {
        assert(s.pools.valid(h));
        if !s.pools.free.contains(h) {
            let i = choose|i: int| #[trigger] s.holds(i) && s.blocks[i].handle() == h;
            assert(t.holds(i));
        }
    }
}

/// The block index of an allocation was not in use, is in use afterwards, and
/// all others stay as they are.
proof fn lemma_allocated_fresh(s: PoolView, grants: Seq<Seq<u64>>, used: nat, now: u64)
    requires
        s.wf(),
        s.free_idx.len() > 0 || s.blocks.len() < INDEX_COUNT,
        s.next_physical(grants, used) is Some,
    ensures
        ({
            let t = s.allocated(grants, used, now);
            let i = s.physical_taken(grants, used).next_index();
            &&& !s.used(i)
            &&& t.used(i)
            &&& forall|j: u32| j != i ==> (#[trigger] t.used(j) <==> s.used(j))
            &&& t.sequences == s.sequences
        }),
{
    if s.free_idx.len() > 0 {
        let i = s.free_idx[s.free_idx.len() - 1];
        assert(!s.used(i));
    }
}

/// The blocks of a run of allocations are distinct, were not in use, and own
/// physical blocks.
pub proof fn lemma_allocated_many_fresh(s: PoolView, n: nat, grants: Seq<Seq<u64>>, now: u64)
    requires
        s.partitioned(),
        s.blocks.len() + n <= INDEX_COUNT,
        superblock::superblocks_fit((s.pools.backing.len() + grants.len()) as int),
    ensures
        ({
            let (t, table, used) = s.allocated_many(n, grants, now);
            &&& t.partitioned()
            &&& t.sequences == s.sequences
            &&& t.blocks.len() <= s.blocks.len() + n
            &&& used <= grants.len()
            &&& t.pools.backing.len() == s.pools.backing.len() + used
            &&& table.no_duplicates()
            &&& t.shape == s.shape
            &&& forall|k: int|
                0 <= k < table.len() ==> !s.used(#[trigger] table[k]) && t.used(table[k])
                    && t.holds(table[k] as int)
            &&& forall|j: u32| #[trigger] s.used(j) ==> t.used(j)
        }),
    decreases n,
{
    if n > 0 {
        lemma_allocated_many_fresh(s, (n - 1) as nat, grants, now);
        let (t, table, used) = s.allocated_many((n - 1) as nat, grants, now);
        if table.len() == n - 1 && t.next_physical(grants, used) is Some {
            let i = t.physical_taken(grants, used).next_index();
            let u = t.allocated(grants, used, now);
            if used < grants.len() {
                assert((t.pools.backing.len() + 1) * SUPERBLOCK_SIZE <= (s.pools.backing.len()
                    + grants.len()) * SUPERBLOCK_SIZE) by (nonlinear_arith)
                    requires
                        t.pools.backing.len() + 1 <= s.pools.backing.len() + grants.len(),
                ;
            }
            laws::law_allocate_keeps_partition(t, grants, used, now);
            lemma_allocated_fresh(t, grants, used, now);
            assert forall|k: int| 0 <= k < table.len() implies table[k] != i by {
                assert(t.used(table[k]));
            }
            assert forall|j: u32| #[trigger] s.used(j) implies u.used(j) by {
                assert(t.used(j));
            }
        }
    }
}

/// Registering a sequence over freshly allocated blocks keeps block tables
/// exclusive.
pub proof fn law_register_keeps_tables(s: PoolView, n: nat, grants: Seq<Seq<u64>>, now: u64)
    requires
        s.partitioned(),
        s.tables_exclusive(),
        s.blocks.len() + n <= INDEX_COUNT,
        superblock::superblocks_fit((s.pools.backing.len() + grants.len()) as int),
    ensures
        ({
            let (t, table, _) = s.allocated_many(n, grants, now);
            &&& t.with_registered(table).partitioned()
            &&& t.with_registered(table).tables_exclusive()
        }),
{
    lemma_allocated_many_fresh(s, n, grants, now);
    let (t, table, _) = s.allocated_many(n, grants, now);
    let u = t.with_registered(table);
    lemma_sequences_partitioned(t, u);
    let last = s.sequences.len() as int;
    assert forall|q: int, k: int| #[trigger] u.has_entry(q, k) implies u.used(u.entry(q, k)) && (q
        < last ==> s.has_entry(q, k) && s.entry(q, k) == u.entry(q, k)) && (q == last ==> 0 <= k
        < table.len() && table[k] == u.entry(q, k)) by {
        if q < last {
            assert(s.has_entry(q, k));
            assert(s.used(s.entry(q, k)));
        } else {
            assert(t.used(table[k]));
        }
    }
    assert forall|q: int, k: int, r: int, l: int|
        #[trigger] u.has_entry(q, k) && #[trigger] u.has_entry(r, l) && u.entry(q, k) == u.entry(
            r,
            l,
        ) implies q == r && k == l by {
        if q < last && r == last {
            assert(!s.used(table[l]));
        } else if q == last && r < last {
            assert(!s.used(table[k]));
        }
    }
}

/// Growing a sequence by a freshly allocated block keeps block tables
/// exclusive.
pub proof fn law_append_keeps_tables(
    s: PoolView,
    seq: int,
    grants: Seq<Seq<u64>>,
    used: nat,
    now: u64,
)
    requires
        s.partitioned(),
        s.tables_exclusive(),
        s.pools.free.len() == 0 && used < grants.len() ==> superblock::superblocks_fit(
            s.pools.backing.len() as int + 1,
        ),
        s.free_idx.len() > 0 || s.blocks.len() < INDEX_COUNT,
        s.next_physical(grants, used) is Some,
    ensures
        ({
            let i = s.physical_taken(grants, used).next_index();
            let t = s.allocated(grants, used, now).with_appended(seq, i);
            &&& t.partitioned()
            &&& t.tables_exclusive()
        }),
{
    laws::law_allocate_keeps_partition(s, grants, used, now);
    lemma_allocated_fresh(s, grants, used, now);
    let i = s.physical_taken(grants, used).next_index();
    let t = s.allocated(grants, used, now);
    let u = t.with_appended(seq, i);
    lemma_sequences_partitioned(t, u);
    assert forall|q: int, k: int| #[trigger] u.has_entry(q, k) implies u.used(u.entry(q, k)) && (
    s.has_entry(q, k) && s.entry(q, k) == u.entry(q, k) || q == seq && k
        == s.sequences[seq].block_table.len() && u.entry(q, k) == i) by {
        if s.has_entry(q, k) {
            assert(s.used(s.entry(q, k)));
            assert(t.used(s.entry(q, k)));
        }
    }
    assert forall|q: int, k: int, r: int, l: int|
        #[trigger] u.has_entry(q, k) && #[trigger] u.has_entry(r, l) && u.entry(q, k) == u.entry(
            r,
            l,
        ) implies q == r && k == l by {
        if s.has_entry(q, k) {
            assert(s.used(s.entry(q, k)));
        }
        if s.has_entry(r, l) {
            assert(s.used(s.entry(r, l)));
        }
    }
}

/// Freeing the blocks of a table touches no block outside it.
proof fn lemma_freed_all_elsewhere(s: PoolView, table: Seq<u32>)
    requires
        s.table_ok(table),
    ensures
        s.freed_all(table).sequences == s.sequences,
        s.freed_all(table).blocks.len() == s.blocks.len(),
        forall|i: u32| !table.contains(i) ==> (#[trigger] s.freed_all(table).used(i) <==> s.used(i)),
    decreases table.len(),
{
    if table.len() > 0 {
        let rest = table.drop_last();
        assert(s.table_ok(rest));
        lemma_freed_all_elsewhere(s, rest);
        assert(table[table.len() - 1] < s.blocks.len());
        assert forall|i: u32| !table.contains(i) implies (#[trigger] s.freed_all(table).used(i)
            <==> s.used(i)) by {
            if rest.contains(i) {
                let k = choose|k: int| 0 <= k < rest.len() && rest[k] == i;
                assert(table[k] == i);
            }
            assert(table[table.len() - 1] == table.last());
            assert(s.freed_all(rest).used(i) <==> s.used(i));
        }
    }
}

/// Unregistering a sequence frees no block of another: block tables stay
/// exclusive.
pub proof fn law_unregister_keeps_tables(s: PoolView, seq: int)
    requires
        s.partitioned(),
        s.tables_exclusive(),
    ensures
        s.unregistered(seq).partitioned(),
        s.unregistered(seq).tables_exclusive(),
{
    if 0 <= seq < s.sequences.len() {
        let table = s.sequences[seq].block_table;
        let u = s.unregistered(seq);
        assert forall|k: int| 0 <= k < table.len() implies (#[trigger] table[k]) < s.blocks.len() by {
            assert(s.has_entry(seq, k));
            assert(s.used(s.entry(seq, k)));
        }
        let cleared = s.with_sequence(
            seq,
            SequenceView {
                block_table: Seq::empty(),
                seq_len: 0,
                ..s.sequences[seq]
            },
        );
        assert(cleared.table_ok(table));
        lemma_freed_all_elsewhere(cleared, table);
        lemma_sequences_partitioned(s, cleared);
        laws::law_free_sequence_keeps_partition(cleared, table);
        assert forall|q: int, k: int| #[trigger] u.has_entry(q, k) implies q != seq && s.has_entry(
            q,
            k,
        ) && u.entry(q, k) == s.entry(q, k) && u.used(u.entry(q, k)) by {
            assert(u.sequences == cleared.sequences);
            assert(s.has_entry(q, k));
            let i = s.entry(q, k);
            assert(s.used(i));
            if table.contains(i) {
                let l = choose|l: int| 0 <= l < table.len() && table[l] == i;
                assert(s.has_entry(seq, l));
                assert(s.entry(seq, l) == i);
            }
            assert(cleared.used(i));
        }
        assert forall|q: int, k: int, r: int, l: int|
            #[trigger] u.has_entry(q, k) && #[trigger] u.has_entry(r, l) && u.entry(q, k)
                == u.entry(r, l) implies q == r && k == l by {
            assert(s.has_entry(q, k) && s.has_entry(r, l));
        }
    }
}

/// A position of a block is stored within the block.
pub proof fn lemma_row_in_block(s: PoolView, i: int, at: int)
    requires
        s.wf(),
        0 <= i < s.blocks.len(),
        0 <= at < s.shape.block_size,
    ensures
        ({
            let offset = s.blocks[i].va_offset as int;
            let row = kv_write::row_offset(offset, at, s.step());
            &&& row == offset + at * (s.step() * HALF_BYTES)
            &&& 0 <= s.step()
            &&& offset <= row
            &&& row + s.step() * HALF_BYTES <= offset + s.shape.block_bytes
        }),
{
    let info = s.blocks[i];
    assert(s.block_ok(info));
    let offset = info.va_offset as int;
    let step = s.step();
    let bs = s.shape.block_size as int;
    let elems = s.shape.elem_per_block as int;
    let h = info.handle();
    assert(offset == 2 * (h.superblock_idx * (SUPERBLOCK_SIZE / 2) + h.block_index * elems)) by (nonlinear_arith)
        requires
            offset == h.superblock_idx * SUPERBLOCK_SIZE + h.block_index * (elems * 2),
    ;
    vstd::arithmetic::div_mod::lemma_fundamental_div_mod(elems, bs);
    vstd::arithmetic::div_mod::lemma_div_pos_is_pos(elems, bs);
    assert(0 <= at * step && at * step + step <= bs * step) by (nonlinear_arith)
        requires
            0 <= at < bs,
            step >= 0,
    ;
    assert(at * step * 2 == at * (step * 2)) by (nonlinear_arith);
}

/// Different positions, of the same sequence or of different ones, are stored
/// in different places: writing one leaves the others alone.
pub proof fn law_positions_stored_apart(s: PoolView, q: int, pos: int, r: int, other: int)
    requires
        s.partitioned(),
        s.all_held(),
        s.tables_exclusive(),
        0 <= pos,
        0 <= other,
        s.has_entry(q, pos / s.shape.block_size as int),
        s.has_entry(r, other / s.shape.block_size as int),
        q != r || pos != other,
    ensures
        ({
            let n = s.step() * HALF_BYTES;
            s.row_place(q, pos) + n <= s.row_place(r, other) || s.row_place(r, other) + n
                <= s.row_place(q, pos)
        }),
{
    let bs = s.shape.block_size as int;
    let i = s.entry(q, pos / bs);
    let j = s.entry(r, other / bs);
    assert(s.used(i) && s.used(j));
    let a = pos % bs;
    let b = other % bs;
    vstd::arithmetic::div_mod::lemma_fundamental_div_mod(pos, bs);
    vstd::arithmetic::div_mod::lemma_fundamental_div_mod(other, bs);
    lemma_row_in_block(s, i as int, a);
    lemma_row_in_block(s, j as int, b);
    if i == j {
        let n = s.step() * HALF_BYTES;
        assert(a != b);
        assert(a * n + n <= b * n || b * n + n <= a * n) by (nonlinear_arith)
            requires
                a != b,
                n >= 0,
        ;
    } else {
        laws::law_owned_blocks_disjoint(s, i as int, j as int);
    }
}

} // verus!
