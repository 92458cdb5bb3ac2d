use vstd::prelude::*;

use crate::kcmm::pool_model::PoolView;
use crate::kcmm::superblock;
use crate::kcmm::superblock::{BlockHandle, HALF_BYTES, INDEX_COUNT, SUPERBLOCK_SIZE};

verus! {

impl PoolView {
    /// Block indices below `n` that own a physical block, in order.
    pub open spec fn holders(self, n: nat) -> Seq<u32>
        decreases n,
    {
        if n == 0 {
            Seq::empty()
        } else {
            let rest = self.holders((n - 1) as nat);
            if self.holds(n - 1) {
                rest.push((n - 1) as u32)
            } else {
                rest
            }
        }
    }

    /// The block tables of the first `n` sequences, one after the other.
    pub open spec fn entries(self, n: nat) -> Seq<u32>
        decreases n,
    {
        if n == 0 {
            Seq::empty()
        } else {
            self.entries((n - 1) as nat) + self.sequences[n - 1].block_table
        }
    }
}

/// A list without duplicates whose items all occur in another is no longer
/// than that.
proof fn lemma_no_longer<A>(a: Seq<A>, b: Seq<A>)
    requires
        a.no_duplicates(),
        forall|i: int| 0 <= i < a.len() ==> b.contains(#[trigger] a[i]),
    ensures
        a.len() <= b.len(),
{
    a.unique_seq_to_set();
    b.lemma_cardinality_of_set();
    vstd::seq_lib::seq_to_set_is_finite(b);
    assert(a.to_set().subset_of(b.to_set())) by {
        assert forall|x: A| a.to_set().contains(x) implies b.to_set().contains(x) by {
            let i = choose|i: int| 0 <= i < a.len() && a[i] == x;
            assert(b.contains(a[i]));
        }
    }
    vstd::set_lib::lemma_len_subset(a.to_set(), b.to_set());
}

/// The holders below `n` are distinct and are all there are; where every
/// block in use owns a physical block they are the blocks in use.
proof fn lemma_holders(s: PoolView, n: nat)
    requires
        n <= s.blocks.len() <= INDEX_COUNT,
    ensures
        s.holders(n).no_duplicates(),
        forall|k: int|
            0 <= k < s.holders(n).len() ==> (#[trigger] s.holders(n)[k]) < n && s.holds(
                s.holders(n)[k] as int,
            ),
        forall|i: int| 0 <= i < n && #[trigger] s.holds(i) ==> s.holders(n).contains(i as u32),
        s.all_held() ==> s.holders(n).len() == s.used_count(n),
    decreases n,
{
    if n > 0 {
        let m = (n - 1) as nat;
        lemma_holders(s, m);
        let rest = s.holders(m);
        let all = s.holders(n);
        if s.holds(m as int) {
            assert(all[rest.len() as int] == m);
        }
        assert forall|i: int| 0 <= i < n && #[trigger] s.holds(i) implies all.contains(
            i as u32,
        ) by {
            if i < m {
                let k = choose|k: int| 0 <= k < rest.len() && rest[k] == i as u32;
                assert(all[k] == i as u32);
            }
        }
        if s.all_held() {
            assert(s.used(m as u32) == s.blocks[m as int].in_use);
        }
    }
}

/// The blocks of the first `n` superblocks, in order.
spec fn physical_handles(n: nat, bps: nat) -> Seq<BlockHandle>
    decreases n,
{
    if n == 0 {
        Seq::empty()
    } else {
        physical_handles((n - 1) as nat, bps) + superblock::superblock_handles((n - 1) as nat, bps)
    }
}

/// The blocks of the first `n` superblocks are distinct, and as many as there
/// are.
proof fn lemma_physical_handles(n: nat, bps: nat)
    requires
        n <= INDEX_COUNT,
        bps <= INDEX_COUNT,
    ensures
        physical_handles(n, bps).no_duplicates(),
        physical_handles(n, bps).len() == n * bps,
        forall|k: int|
            0 <= k < physical_handles(n, bps).len() ==> (#[trigger] physical_handles(
                n,
                bps,
            )[k]).superblock_idx < n && physical_handles(n, bps)[k].block_index < bps,
        forall|h: BlockHandle|
            h.superblock_idx < n && h.block_index < bps ==> #[trigger] physical_handles(
                n,
                bps,
            ).contains(h),
    decreases n,
{
    if n > 0 {
        let m = (n - 1) as nat;
        lemma_physical_handles(m, bps);
        let old_ones = physical_handles(m, bps);
        let new_ones = superblock::superblock_handles(m, bps);
        let all = physical_handles(n, bps);
        assert(all == old_ones + new_ones);
        assert(n * bps == m * bps + bps) by (nonlinear_arith)
            requires
                n == m + 1,
        ;
        assert forall|h: BlockHandle|
            h.superblock_idx < n && h.block_index < bps implies #[trigger] all.contains(h) by {
            if h.superblock_idx < m {
                assert(old_ones.contains(h));
                let k = choose|k: int| 0 <= k < old_ones.len() && old_ones[k] == h;
                assert(all[k] == h);
            } else {
                assert(new_ones[h.block_index as int] == h);
                assert(all[old_ones.len() + h.block_index] == h);
            }
        }
        assert forall|a: int, b: int|
            0 <= a < old_ones.len() && 0 <= b < new_ones.len() implies old_ones[a]
            != new_ones[b] by {
            assert(old_ones[a].superblock_idx < m);
        }
        vstd::seq_lib::lemma_no_dup_in_concat(old_ones, new_ones);
    } else {
        assert(0nat * bps == 0) by (nonlinear_arith);
    }
}

/// No physical block is lost or counted twice: the blocks that block indices
/// own and the free ones add up to all blocks of the mapped superblocks.
pub proof fn law_physical_blocks_add_up(s: PoolView)
    requires
        s.partitioned(),
    ensures
        s.holders(s.blocks.len()).len() + s.pools.free.len() == s.physical_blocks(),
        s.all_held() ==> s.total_used() + s.pools.free.len() == s.physical_blocks(),
{
    let n = s.blocks.len();
    let held = s.holders(n);
    lemma_holders(s, n);
    let owned = Seq::new(held.len(), |k: int| s.blocks[held[k] as int].handle());
    let free = s.pools.free;
    let both = free + owned;
    let sbs = s.pools.backing.len();
    let bps = s.pools.blocks_per_superblock;
    lemma_physical_handles(sbs, bps);
    let all = physical_handles(sbs, bps);
    assert(owned.no_duplicates()) by {
        assert forall|a: int, b: int|
            0 <= a < owned.len() && 0 <= b < owned.len() && a != b implies owned[a] != owned[b] by {
            assert(s.holds(held[a] as int) && s.holds(held[b] as int));
            assert(held[a] != held[b]);
        }
    }
    assert forall|a: int, b: int| 0 <= a < free.len() && 0 <= b < owned.len() implies free[a]
        != owned[b] by {
        assert(s.holds(held[b] as int));
        assert(free.contains(free[a]));
    }
    vstd::seq_lib::lemma_no_dup_in_concat(free, owned);
    assert forall|k: int| 0 <= k < both.len() implies all.contains(#[trigger] both[k]) by {
        if k < free.len() {
            assert(s.pools.valid(free[k]));
        } else {
            let i = held[k - free.len()] as int;
            assert(s.holds(i));
            assert(s.block_ok(s.blocks[i]));
        }
        assert(s.pools.valid(both[k]));
    }
    lemma_no_longer(both, all);
    assert forall|k: int| 0 <= k < all.len() implies both.contains(#[trigger] all[k]) by {
        let h = all[k];
        assert(s.pools.valid(h));
        if free.contains(h) {
            let j = choose|j: int| 0 <= j < free.len() && free[j] == h;
            assert(both[j] == h);
        } else {
            let i = choose|i: int| #[trigger] s.holds(i) && s.blocks[i].handle() == h;
            assert(held.contains(i as u32));
            let j = choose|j: int| 0 <= j < held.len() && held[j] == i as u32;
            assert(owned[j] == h);
            assert(both[free.len() + j] == h);
        }
    }
    lemma_no_longer(all, both);
}

/// Whether block `i` stands in the table of one of the first `n` sequences.
spec fn listed(s: PoolView, n: nat, i: u32) -> bool {
    exists|q: int, k: int| q < n && #[trigger] s.has_entry(q, k) && s.entry(q, k) == i
}

/// The entries of exclusive tables are distinct and stand in the tables.
proof fn lemma_entries(s: PoolView, n: nat)
    requires
        s.tables_exclusive(),
        n <= s.sequences.len(),
    ensures
        s.entries(n).no_duplicates(),
        s.entries(n).len() == s.table_count(n),
        forall|j: int|
            0 <= j < s.entries(n).len() ==> listed(s, n, #[trigger] s.entries(n)[j]),
    decreases n,
{
    if n > 0 {
        let m = (n - 1) as nat;
        lemma_entries(s, m);
        let before = s.entries(m);
        let table = s.sequences[m as int].block_table;
        assert(table.no_duplicates()) by {
            assert forall|a: int, b: int|
                0 <= a < table.len() && 0 <= b < table.len() && a != b implies table[a]
                != table[b] by {
                assert(s.has_entry(m as int, a) && s.has_entry(m as int, b));
                assert(s.entry(m as int, a) == table[a] && s.entry(m as int, b) == table[b]);
            }
        }
        assert forall|a: int, b: int| 0 <= a < before.len() && 0 <= b < table.len() implies before[a]
            != table[b] by {
            assert(listed(s, m, before[a]));
            let (q, k) = choose|q: int, k: int|
                q < m && #[trigger] s.has_entry(q, k) && s.entry(q, k) == before[a];
            assert(s.has_entry(m as int, b));
            assert(s.entry(m as int, b) == table[b]);
        }
        vstd::seq_lib::lemma_no_dup_in_concat(before, table);
        assert forall|j: int| 0 <= j < s.entries(n).len() implies listed(
            s,
            n,
            #[trigger] s.entries(n)[j],
        ) by {
            if j < before.len() {
                assert(listed(s, m, before[j]));
            } else {
                let k = j - before.len();
                assert(s.has_entry(m as int, k) && s.entry(m as int, k) == table[k]);
            }
        }
    }
}

/// Exclusive tables have no more entries than blocks are in use.
pub proof fn law_entries_within_blocks_in_use(s: PoolView)
    requires
        s.partitioned(),
        s.all_held(),
        s.tables_exclusive(),
    ensures
        s.total_entries() <= s.total_used(),
{
    let n = s.sequences.len();
    lemma_entries(s, n);
    lemma_holders(s, s.blocks.len());
    let held = s.holders(s.blocks.len());
    assert forall|j: int| 0 <= j < s.entries(n).len() implies held.contains(
        #[trigger] s.entries(n)[j],
    ) by {
        assert(listed(s, n, s.entries(n)[j]));
        let (q, k) = choose|q: int, k: int|
            q < n && #[trigger] s.has_entry(q, k) && s.entry(q, k) == s.entries(n)[j];
        assert(s.used(s.entry(q, k)));
        assert(s.holds(s.entry(q, k) as int));
    }
    lemma_no_longer(s.entries(n), held);
}

/// What lies in `n` blocks fits as many superblocks as the blocks fill, and
/// these fit the mapped ones if the blocks do.
proof fn lemma_block_bytes_in_superblocks(s: PoolView, n: int)
    requires
        s.wf(),
        n >= 0,
    ensures
        ({
            let bps = s.pools.blocks_per_superblock as int;
            let filled = (n + bps - 1) / bps;
            &&& 0 <= n * s.shape.block_bytes <= filled * SUPERBLOCK_SIZE
            &&& n <= s.physical_blocks() ==> filled <= s.pools.backing.len()
        }),
{
    let bps = s.pools.blocks_per_superblock as int;
    let bb = s.shape.block_bytes as int;
    let filled = (n + bps - 1) / bps;
    let sbs = s.pools.backing.len() as int;
    vstd::arithmetic::div_mod::lemma_fundamental_div_mod(n + bps - 1, bps);
    assert(n <= filled * bps) by (nonlinear_arith)
        requires
            n + bps - 1 == bps * filled + (n + bps - 1) % bps,
            (n + bps - 1) % bps < bps,
    ;
    assert(n * bb <= (filled * bps) * bb && 0 <= n * bb) by (nonlinear_arith)
        requires
            0 <= n <= filled * bps,
            bb >= 0,
    ;
    assert((filled * bps) * bb == filled * (bps * bb)) by (nonlinear_arith);
    if n <= s.physical_blocks() {
        assert(filled <= sbs) by (nonlinear_arith)
            requires
                n + bps - 1 == bps * filled + (n + bps - 1) % bps,
                0 <= (n + bps - 1) % bps,
                n <= sbs * bps,
                bps > 0,
        ;
    }
}

/// Multiplying both sides by the number of regions keeps an inequality.
proof fn lemma_over_regions(a: int, b: int, layers: int)
    requires
        0 <= a <= b,
        layers >= 0,
    ensures
        0 <= a * layers * 2 <= b * layers * 2,
        a > 0 && layers > 0 ==> a * layers * 2 > 0,
{
    assert(0 <= a * layers <= b * layers) by (nonlinear_arith)
        requires
            0 <= a <= b,
            layers >= 0,
    ;
    assert(a > 0 && layers > 0 ==> a * layers > 0) by (nonlinear_arith);
}

/// Tokens that their blocks can hold take no more bytes than these blocks.
proof fn lemma_token_bytes_in_blocks(s: PoolView, tokens: int, blocks: int)
    requires
        s.wf(),
        0 <= tokens <= blocks * s.shape.block_size,
    ensures
        0 <= s.step(),
        0 <= tokens * (s.step() * HALF_BYTES) <= blocks * s.shape.block_bytes,
{
    let bs = s.shape.block_size as int;
    let elems = s.shape.elem_per_block as int;
    let step = s.step();
    vstd::arithmetic::div_mod::lemma_fundamental_div_mod(elems, bs);
    vstd::arithmetic::div_mod::lemma_div_pos_is_pos(elems, bs);
    let row = step * HALF_BYTES;
    assert(0 <= blocks) by (nonlinear_arith)
        requires
            0 <= blocks * bs,
            bs > 0,
    ;
    assert(0 <= tokens * row <= (blocks * bs) * row) by (nonlinear_arith)
        requires
            0 <= tokens <= blocks * bs,
            row >= 0,
    ;
    assert((blocks * bs) * (step * HALF_BYTES) == blocks * ((bs * step) * HALF_BYTES))
        by (nonlinear_arith);
    assert(blocks * ((bs * step) * HALF_BYTES) <= blocks * s.shape.block_bytes)
        by (nonlinear_arith)
        requires
            0 <= blocks,
            bs * step <= elems,
            s.shape.block_bytes == elems * HALF_BYTES,
    ;
}

/// Each metric lies between zero and one: no more slots are wasted than there
/// are, no more blocks are in use than mapped, and the bytes that would do
/// are no more than the bytes taken. Internal fragmentation stays below one
/// where tokens are stored, and memory efficiency above zero where blocks are
/// in use.
pub proof fn law_metrics_in_range(s: PoolView, active_sequences: usize)
    requires
        s.partitioned(),
        s.all_held(),
        s.tables_exclusive(),
        s.counts_fit(),
        s.total_tokens() <= s.total_slots(),
    ensures
        ({
            let c = s.frag_counts(active_sequences);
            &&& c.wasted_slots <= c.total_slots
            &&& c.total_tokens > 0 ==> c.wasted_slots < c.total_slots
            &&& c.blocks_in_use <= c.total_blocks_allocated
            &&& c.ideal_physical_bytes <= c.actual_physical_bytes
            &&& c.blocks_in_use > 0 && s.shape.num_layers > 0 ==> c.ideal_physical_bytes > 0
            &&& c.ideal_active_bytes <= c.actual_active_bytes
            &&& c.actual_active_bytes <= c.actual_physical_bytes
            &&& c.total_tokens > 0 && s.token_bytes() > 0 ==> c.ideal_active_bytes > 0
        }),
{
    law_physical_blocks_add_up(s);
    law_entries_within_blocks_in_use(s);
    let l = s.shape.num_layers as int;
    let used = s.total_used() as int;
    let entries = s.total_entries() as int;
    let tokens = s.total_tokens() as int;
    let bs = s.shape.block_size as int;
    let bb = s.shape.block_bytes as int;
    let active = s.active_superblocks();
    let sbs = s.pools.backing.len() as int;
    lemma_block_bytes_in_superblocks(s, used);
    assert(active * SUPERBLOCK_SIZE <= sbs * SUPERBLOCK_SIZE) by (nonlinear_arith)
        requires
            active <= sbs,
    ;
    assert(s.physical_blocks() <= sbs * SUPERBLOCK_SIZE) by (nonlinear_arith)
        requires
            s.physical_blocks() == sbs * s.pools.blocks_per_superblock,
            s.pools.blocks_per_superblock <= SUPERBLOCK_SIZE,
            sbs >= 0,
    ;
    lemma_over_regions(used * bb, active * SUPERBLOCK_SIZE, l);
    lemma_over_regions(active * SUPERBLOCK_SIZE, sbs * SUPERBLOCK_SIZE, l);
    assert(bb > 0) by (nonlinear_arith)
        requires
            s.pools.blocks_per_superblock * bb == SUPERBLOCK_SIZE,
            bb >= 0,
    ;
    assert(used > 0 ==> used * bb > 0) by (nonlinear_arith)
        requires
            bb > 0,
    ;
    assert(entries * bs <= used * bs) by (nonlinear_arith)
        requires
            entries <= used,
            bs >= 0,
    ;
    lemma_token_bytes_in_blocks(s, tokens, used);
    let row = s.step() * HALF_BYTES;
    lemma_over_regions(tokens * row, used * bb, l);
    assert(tokens * s.token_bytes() == tokens * row * l * 2) by (nonlinear_arith)
        requires
            s.token_bytes() == row * l * 2,
    ;
    assert(tokens > 0 && s.token_bytes() > 0 ==> tokens * s.token_bytes() > 0) by (nonlinear_arith);
}

/// The fragmentation ratio of a sample lies between zero and one: the tokens'
/// bytes in one layer of K are no more than those of the superblocks counted.
pub proof fn law_sample_in_range(s: PoolView)
    requires
        s.partitioned(),
        s.all_held(),
        s.tables_exclusive(),
        s.total_tokens() <= s.total_slots(),
        s.step() * HALF_BYTES <= usize::MAX,
        s.sample_fits((s.step() * HALF_BYTES) as usize),
    ensures
        ({
            let f = s.fragmentation_sample((s.step() * HALF_BYTES) as usize);
            f.memory_active_tokens <= f.memory_allocated_not_free
        }),
{
    law_physical_blocks_add_up(s);
    law_entries_within_blocks_in_use(s);
    let used = s.total_used() as int;
    let entries = s.total_entries() as int;
    let bs = s.shape.block_size as int;
    lemma_block_bytes_in_superblocks(s, used);
    assert(entries * bs <= used * bs) by (nonlinear_arith)
        requires
            entries <= used,
            bs >= 0,
    ;
    lemma_token_bytes_in_blocks(s, s.total_tokens() as int, used);
    let filled = s.superblocks_not_free();
    let sbs = s.pools.backing.len() as int;
    assert(filled * SUPERBLOCK_SIZE <= sbs * SUPERBLOCK_SIZE) by (nonlinear_arith)
        requires
            filled <= sbs,
    ;
}

} // verus!
