//! What the counts of a cache count.

use vstd::prelude::*;

use crate::cache::frag_laws;
use crate::cache::kv_cache;
use crate::cache::kv_cache::{KvCache, KvCacheError};
use crate::cache::swap::EvictedSeqData;
use crate::cache::unified_frag;
use crate::kcmm::pool_model::{PoolView, SequenceView};
use crate::kcmm::superblock::SUPERBLOCK_SIZE;
use crate::kv_write::KvRow;

verus! {

/// The counts before sequence `q` do not depend on it.
proof fn lemma_counts_before(s: PoolView, q: int, seq: SequenceView, n: nat)
    requires
        n <= q < s.sequences.len(),
    ensures
        s.with_sequence(q, seq).token_count(n) == s.token_count(n),
        s.with_sequence(q, seq).table_count(n) == s.table_count(n),
        s.with_sequence(q, seq).owning_count(n) == s.owning_count(n),
    decreases n,
{
    if n > 0 {
        lemma_counts_before(s, q, seq, (n - 1) as nat);
    }
}

/// The counts up to a sequence behind `q` change as sequence `q` does.
proof fn lemma_counts_behind(s: PoolView, q: int, seq: SequenceView, n: nat)
    requires
        0 <= q < n <= s.sequences.len(),
    ensures
        s.with_sequence(q, seq).token_count(n) + s.sequences[q].seq_len == s.token_count(n)
            + seq.seq_len,
        s.with_sequence(q, seq).table_count(n) + s.sequences[q].block_table.len() == s.table_count(
            n,
        ) + seq.block_table.len(),
    decreases n,
{
    if q == n - 1 {
        lemma_counts_before(s, q, seq, (n - 1) as nat);
    } else {
        lemma_counts_behind(s, q, seq, (n - 1) as nat);
    }
}

/// Every token of every sequence counts once: setting a sequence's length
/// moves the total by as much as the length moves, and sequences without
/// tokens store none.
pub proof fn law_tokens_all_count(s: PoolView, q: int, len: usize)
    ensures
        0 <= q < s.sequences.len() ==> s.with_seq_len(q, len).total_tokens()
            + s.sequences[q].seq_len == s.total_tokens() + len,
        (forall|p: int| 0 <= p < s.sequences.len() ==> (#[trigger] s.sequences[p]).seq_len == 0)
            ==> s.total_tokens() == 0,
{
    if 0 <= q < s.sequences.len() {
        lemma_counts_behind(
            s,
            q,
            SequenceView { seq_len: len, ..s.sequences[q] },
            s.sequences.len(),
        );
    }
    if forall|p: int| 0 <= p < s.sequences.len() ==> (#[trigger] s.sequences[p]).seq_len == 0 {
        lemma_no_tokens(s, s.sequences.len());
    }
}

proof fn lemma_no_tokens(s: PoolView, n: nat)
    requires
        n <= s.sequences.len(),
        forall|p: int| 0 <= p < s.sequences.len() ==> (#[trigger] s.sequences[p]).seq_len == 0,
    ensures
        s.token_count(n) == 0,
    decreases n,
{
    if n > 0 {
        lemma_no_tokens(s, (n - 1) as nat);
    }
}

proof fn lemma_no_entries(s: PoolView, n: nat)
    requires
        n <= s.sequences.len(),
        forall|p: int|
            0 <= p < s.sequences.len() ==> (#[trigger] s.sequences[p]).block_table.len() == 0,
    ensures
        s.table_count(n) == 0,
    decreases n,
{
    if n > 0 {
        lemma_no_entries(s, (n - 1) as nat);
    }
}

/// Every table entry counts once, with as many slots as a block has: a block
/// appended to a sequence adds the slots of one block, and empty tables have
/// none.
pub proof fn law_entries_all_count(s: PoolView, q: int, block_idx: u32)
    ensures
        0 <= q < s.sequences.len() ==> s.with_appended(q, block_idx).total_slots()
            == s.total_slots() + s.shape.block_size,
        (forall|p: int|
            0 <= p < s.sequences.len() ==> (#[trigger] s.sequences[p]).block_table.len() == 0)
            ==> s.total_slots() == 0,
{
    if 0 <= q < s.sequences.len() {
        let seq = s.sequences[q];
        lemma_counts_behind(
            s,
            q,
            SequenceView { block_table: seq.block_table.push(block_idx), ..seq },
            s.sequences.len(),
        );
        assert((s.total_entries() + 1) * s.shape.block_size == s.total_entries()
            * s.shape.block_size + s.shape.block_size) by (nonlinear_arith);
    }
    if forall|p: int|
        0 <= p < s.sequences.len() ==> (#[trigger] s.sequences[p]).block_table.len() == 0 {
        lemma_no_entries(s, s.sequences.len());
        assert(0 * s.shape.block_size == 0) by (nonlinear_arith);
    }
}

/// The indices below `n` at which a block is in use.
pub open spec fn in_use_below(s: PoolView, n: nat) -> Set<int> {
    Set::new(|i: int| 0 <= i < n && s.blocks[i].in_use)
}

/// The sequences below `n` that own a block.
pub open spec fn owners_below(s: PoolView, n: nat) -> Set<int> {
    Set::new(|q: int| 0 <= q < n && s.sequences[q].block_table.len() > 0)
}

proof fn lemma_used_counted(s: PoolView, n: nat)
    ensures
        in_use_below(s, n).finite(),
        s.used_count(n) == in_use_below(s, n).len(),
    decreases n,
{
    if n == 0 {
        assert(in_use_below(s, n) =~= Set::<int>::empty());
    } else {
        let m = (n - 1) as nat;
        lemma_used_counted(s, m);
        if s.blocks[m as int].in_use {
            assert(in_use_below(s, n) =~= in_use_below(s, m).insert(m as int));
        } else {
            assert(in_use_below(s, n) =~= in_use_below(s, m));
        }
    }
}

proof fn lemma_owners_counted(s: PoolView, n: nat)
    ensures
        owners_below(s, n).finite(),
        s.owning_count(n) == owners_below(s, n).len(),
    decreases n,
{
    if n == 0 {
        assert(owners_below(s, n) =~= Set::<int>::empty());
    } else {
        let m = (n - 1) as nat;
        lemma_owners_counted(s, m);
        if s.sequences[m as int].block_table.len() > 0 {
            assert(owners_below(s, n) =~= owners_below(s, m).insert(m as int));
        } else {
            assert(owners_below(s, n) =~= owners_below(s, m));
        }
    }
}

/// The blocks in use are counted each once, and so are the sequences that own
/// a block.
pub proof fn law_counts_are_cardinalities(s: PoolView)
    ensures
        s.total_used() == in_use_below(s, s.blocks.len()).len(),
        s.owning_count(s.sequences.len()) == owners_below(s, s.sequences.len()).len(),
{
    lemma_used_counted(s, s.blocks.len());
    lemma_owners_counted(s, s.sequences.len());
}

/// Division that rounds up gives the least number of whole parts.
proof fn lemma_least_parts(n: int, per: int)
    requires
        n >= 0,
        per > 0,
    ensures
        ({
            let parts = (n + per - 1) / per;
            &&& 0 <= parts
            &&& n <= parts * per
            &&& parts * per < n + per
        }),
{
    let parts = (n + per - 1) / per;
    vstd::arithmetic::div_mod::lemma_fundamental_div_mod(n + per - 1, per);
    vstd::arithmetic::div_mod::lemma_div_pos_is_pos(n + per - 1, per);
    assert(per * parts == parts * per) by (nonlinear_arith);
}

/// The superblocks asked for are the least number with which there are free
/// blocks enough.
pub proof fn law_needed_superblocks_least(s: PoolView, n: nat)
    requires
        s.pools.blocks_per_superblock > 0,
    ensures
        n <= s.pools.free.len() + s.superblocks_needed(n) * s.pools.blocks_per_superblock,
        s.superblocks_needed(n) > 0 ==> n > s.pools.free.len() + (s.superblocks_needed(n) - 1)
            * s.pools.blocks_per_superblock,
{
    let bps = s.pools.blocks_per_superblock as int;
    let r = s.superblocks_needed(n) as int;
    if n > s.pools.free.len() {
        lemma_least_parts(n - s.pools.free.len(), bps);
    }
    assert((r - 1) * bps == r * bps - bps) by (nonlinear_arith);
    assert(0 * bps == 0) by (nonlinear_arith);
}

/// The superblocks taken for active are the least number that hold the blocks
/// in use, and those taken for not free the least number that hold the blocks
/// not free.
pub proof fn law_active_superblocks_least(s: PoolView)
    requires
        s.pools.blocks_per_superblock > 0,
        s.pools.free.len() <= s.physical_blocks(),
    ensures
        ({
            let bps = s.pools.blocks_per_superblock;
            let taken = s.pools.backing.len() * bps - s.pools.free.len();
            &&& s.total_used() <= s.active_superblocks() * bps < s.total_used() + bps
            &&& taken <= s.superblocks_not_free() * bps < taken + bps
        }),
{
    let bps = s.pools.blocks_per_superblock as int;
    lemma_least_parts(s.total_used() as int, bps);
    lemma_least_parts(s.physical_blocks() - s.pools.free.len(), bps);
}

/// Every allocation granted adds the 2 MiB of one superblock to the bytes
/// mapped.
pub proof fn law_grant_adds_its_bytes(s: PoolView, phys: Seq<u64>)
    requires
        phys.len() == 2 * s.shape.num_layers,
    ensures
        ({
            let after = s.with_pools(s.pools.grown(phys));
            after.superblock_bytes(after.pools.backing.len() as int) == s.superblock_bytes(
                s.pools.backing.len() as int,
            ) + phys.len() * 2_097_152
        }),
        s.superblock_bytes(0) == 0,
{
    let n = s.pools.backing.len() as int;
    let layers = s.shape.num_layers as int;
    assert((n + 1) * 2_097_152 * layers * 2 == n * 2_097_152 * layers * 2 + (2 * layers)
        * 2_097_152) by (nonlinear_arith);
    assert(0 * 2_097_152 * layers * 2 == 0) by (nonlinear_arith);
}

/// What is mapped and not in use is the free blocks, in every layer's K and V.
pub proof fn law_idle_bytes_are_free_blocks(s: PoolView)
    requires
        s.partitioned(),
        s.all_held(),
        s.physical_fits(),
    ensures
        s.idle_bytes().0 == s.pools.free.len() * s.shape.block_bytes * (2 * s.shape.num_layers),
        s.idle_bytes().1 == s.pools.backing.len() * 2_097_152 * (2 * s.shape.num_layers),
{
    frag_laws::law_physical_blocks_add_up(s);
    let bb = s.shape.block_bytes as int;
    let bps = s.pools.blocks_per_superblock as int;
    let sbs = s.pools.backing.len() as int;
    let layers = s.shape.num_layers as int;
    let used = s.total_used() as int;
    let free = s.pools.free.len() as int;
    assert(sbs * SUPERBLOCK_SIZE == (used + free) * bb) by (nonlinear_arith)
        requires
            bps * bb == SUPERBLOCK_SIZE,
            used + free == sbs * bps,
    ;
    assert((used + free) * bb == used * bb + free * bb) by (nonlinear_arith);
    let u = used * bb;
    let f = free * bb;
    assert(0 <= f * (2 * layers)) by (nonlinear_arith)
        requires
            f == free * bb,
            free >= 0,
            bb >= 0,
            layers >= 0,
    ;
    assert((u + f) * layers * 2 == u * layers * 2 + f * (2 * layers)) by (nonlinear_arith);
    assert((u + f) * layers * 2 == (u + f) * (2 * layers)) by (nonlinear_arith);
}

/// A token takes its share of a block in every layer's K and V: where the
/// blocks in use are full of tokens, the bytes of the tokens are the bytes of
/// the blocks.
pub proof fn law_full_blocks_waste_nothing(s: PoolView, active_sequences: usize)
    requires
        s.wf(),
        s.counts_fit(),
        s.shape.elem_per_block as int % s.shape.block_size as int == 0,
        s.total_tokens() == s.total_used() * s.shape.block_size,
        s.total_entries() == s.total_used(),
        s.total_tokens() * s.token_bytes() <= u64::MAX,
    ensures
        ({
            let c = s.frag_counts(active_sequences);
            &&& c.ideal_active_bytes == c.ideal_physical_bytes
            &&& c.wasted_slots == 0
            &&& c.total_slots == c.total_tokens
        }),
{
    let bs = s.shape.block_size as int;
    let elems = s.shape.elem_per_block as int;
    let layers = s.shape.num_layers as int;
    let used = s.total_used() as int;
    let step = s.step();
    vstd::arithmetic::div_mod::lemma_fundamental_div_mod(elems, bs);
    assert((used * bs) * (step * 2 * layers * 2) == used * (elems * 2) * layers * 2)
        by (nonlinear_arith)
        requires
            elems == bs * step,
    ;
}

/// The wasted slots are those that no token fills.
pub proof fn law_slots_are_filled_or_wasted(slots: int, tokens: int)
    requires
        0 <= tokens <= slots,
    ensures
        unified_frag::slots_wasted(slots, tokens) + tokens == slots,
{
}

/// A number rounded up is the least multiple not below it.
pub proof fn law_round_up_is_least_multiple(n: int, m: int, k: int)
    requires
        n >= 0,
        m > 0,
        k >= 0,
    ensures
        n <= unified_frag::spec_round_up(n, m),
        exists|j: int| unified_frag::spec_round_up(n, m) == #[trigger] (j * m),
        n <= k * m ==> unified_frag::spec_round_up(n, m) <= k * m,
{
    lemma_least_parts(n, m);
    let parts = (n + m - 1) / m;
    assert(parts * m == unified_frag::spec_round_up(n, m));
    if n <= k * m && k < parts {
        assert((k + 1) * m <= parts * m) by (nonlinear_arith)
            requires
                k + 1 <= parts,
                m > 0,
        ;
        assert((k + 1) * m == k * m + m) by (nonlinear_arith);
    }
    if n <= k * m && k >= parts {
        assert(parts * m <= k * m) by (nonlinear_arith)
            requires
                parts <= k,
                m > 0,
        ;
    }
}

/// A swapped sequence takes on the host what its copies move: K and V of every
/// block in every layer.
pub proof fn law_swap_bytes_are_copied_bytes(s: PoolView, va_offsets: Seq<usize>)
    ensures
        s.swap_bytes(va_offsets.len() as int) == s.layer_copies(va_offsets).len() * (2
            * s.shape.block_bytes),
{
    let n = va_offsets.len() as int;
    let l = s.shape.num_layers as int;
    let bb = s.shape.block_bytes as int;
    assert(n * bb * l * 2 == (l * n) * (2 * bb)) by (nonlinear_arith);
    assert(0 <= l * n) by (nonlinear_arith)
        requires
            0 <= l,
            0 <= n,
    ;
}

/// Adding a length to a list adds it to the sum, and no lengths sum to zero.
pub proof fn law_sum_adds_each(s: Seq<usize>, x: usize)
    ensures
        kv_cache::sum_of(s.push(x)) == kv_cache::sum_of(s) + x,
        kv_cache::sum_of(Seq::empty()) == 0,
{
    assert(s.push(x).drop_last() =~= s);
}

/// In a contiguous cache the rows of a slot lie one head's width apart, the
/// slots lie a whole slot apart, and the first row stands at the start.
pub proof fn law_contiguous_rows_in_order(c: KvCache, slot: int, pos: int)
    ensures
        c.elem_offset(0, 0) == 0,
        c.elem_offset(slot, pos + 1) == c.elem_offset(slot, pos) + c.cfg.head_dim(),
        c.elem_offset(slot + 1, pos) == c.elem_offset(slot, pos) + c.cfg.kv_heads() * c.max_seq_len
            * c.cfg.head_dim(),
{
    let h = c.cfg.kv_heads() as int;
    let m = c.max_seq_len as int;
    let d = c.cfg.head_dim() as int;
    assert((slot * h * m + (pos + 1)) * d == (slot * h * m + pos) * d + d) by (nonlinear_arith);
    assert(((slot + 1) * h * m + pos) * d == (slot * h * m + pos) * d + h * m * d)
        by (nonlinear_arith);
    assert((0 * h * m + 0) * d == 0) by (nonlinear_arith);
}

/// Row `b` of the step's states goes to the same place of the K and the V
/// buffer, whole, from behind the rows before it; a slot or a position that
/// the cache does not have is refused.
pub proof fn law_contiguous_step_takes_own_row(
    c: KvCache,
    k_base: u64,
    v_base: u64,
    src_base: u64,
    slots: Seq<usize>,
    positions: Seq<usize>,
    b: int,
)
    requires
        0 <= b < slots.len(),
        c.elem_offset(slots[b] as int, positions[b] as int) >= 0,
        k_base + c.elem_offset(slots[b] as int, positions[b] as int) * 2 <= u64::MAX,
        v_base + c.elem_offset(slots[b] as int, positions[b] as int) * 2 <= u64::MAX,
        src_base + b * (c.cfg.hidden_size * 2) <= u64::MAX,
        c.cfg.hidden_size * 2 <= usize::MAX,
    ensures
        ({
            let row = c.rows(k_base, v_base, src_base, slots, positions)[b];
            &&& slots[b] < c.max_batch && positions[b] < c.max_seq_len ==> {
                &&& row matches KvRow::Copy(copy)
                &&& copy.src_k == src_base + b * (c.cfg.hidden_size * 2)
                &&& copy.src_v == src_base + b * (c.cfg.hidden_size * 2)
                &&& copy.dst_k - k_base == c.elem_offset(slots[b] as int, positions[b] as int) * 2
                &&& copy.dst_v - v_base == copy.dst_k - k_base
                &&& copy.nbytes == c.cfg.hidden_size * 2
            }
            &&& slots[b] >= c.max_batch ==> (row matches KvRow::Fail(e) && e
                == KvCacheError::SlotOutOfBounds { slot: slots[b], max_batch: c.max_batch })
            &&& slots[b] < c.max_batch && positions[b] >= c.max_seq_len ==> (row matches KvRow::Fail(
                e,
            ) && e == KvCacheError::PosOutOfBounds {
                pos: positions[b],
                max_seq_len: c.max_seq_len,
            })
        }),
{
    let hidden = c.cfg.hidden_size as int;
    assert(b * hidden * 2 == b * (hidden * 2)) by (nonlinear_arith);
    assert(0 <= b * (hidden * 2)) by (nonlinear_arith)
        requires
            b >= 0,
            hidden >= 0,
    ;
}

/// What the counts say of the pool: the blocks in use, those mapped, and the
/// bytes. What is mapped beyond the blocks in use is the free blocks, and the
/// bytes taken for active are those of whole superblocks, as few as hold the
/// blocks in use.
pub proof fn law_counts_tell_of_pool(s: PoolView, active_sequences: usize)
    requires
        s.partitioned(),
        s.all_held(),
        s.counts_fit(),
    ensures
        ({
            let c = s.frag_counts(active_sequences);
            let parts = 2 * s.shape.num_layers;
            let bps = s.pools.blocks_per_superblock;
            &&& c.active_sequences == active_sequences
            &&& c.blocks_in_use == in_use_below(s, s.blocks.len()).len()
            &&& c.total_blocks_allocated == c.blocks_in_use + s.pools.free.len()
            &&& c.actual_physical_bytes - c.ideal_physical_bytes == s.pools.free.len()
                * s.shape.block_bytes * parts
            &&& c.actual_physical_bytes == s.pools.backing.len() * 2_097_152 * parts
            &&& exists|k: int|
                c.actual_active_bytes == #[trigger] (k * 2_097_152 * parts) && c.blocks_in_use <= k
                    * bps < c.blocks_in_use + bps
        }),
{
    law_counts_are_cardinalities(s);
    frag_laws::law_physical_blocks_add_up(s);
    law_idle_bytes_are_free_blocks(s);
    law_active_superblocks_least(s);
    let layers = s.shape.num_layers as int;
    let sbs = s.pools.backing.len() as int;
    let used = s.total_used() as int;
    let bb = s.shape.block_bytes as int;
    let k = s.active_superblocks();
    let bps = s.pools.blocks_per_superblock as int;
    assert(k * 2_097_152 * layers * 2 == k * 2_097_152 * (2 * layers)) by (nonlinear_arith);
    assert(sbs * 2_097_152 * layers * 2 == sbs * 2_097_152 * (2 * layers)) by (nonlinear_arith);
    assert(0 <= k) by (nonlinear_arith)
        requires
            0 <= used <= k * bps,
            bps > 0,
    ;
    assert(0 <= k * 2_097_152 * layers * 2) by (nonlinear_arith)
        requires
            0 <= k,
            0 <= layers,
    ;
    assert(0 <= used * bb * layers * 2) by (nonlinear_arith)
        requires
            0 <= used,
            0 <= bb,
            0 <= layers,
    ;
    let u = used * bb * layers * 2;
    let f = s.pools.free.len() * bb * (2 * layers);
    let total = sbs * 2_097_152 * layers * 2;
    assert(sbs * 2_097_152 == (used + s.pools.free.len()) * bb) by (nonlinear_arith)
        requires
            bps * bb == 2_097_152,
            used + s.pools.free.len() == sbs * bps,
    ;
    assert(((used + s.pools.free.len()) * bb) * layers * 2 == used * bb * layers * 2
        + s.pools.free.len() * bb * (2 * layers)) by (nonlinear_arith);
    assert(total == u + f);
    assert(sbs * bps <= sbs * SUPERBLOCK_SIZE) by (nonlinear_arith)
        requires
            0 <= sbs,
            bps <= SUPERBLOCK_SIZE,
    ;
    assert(sbs * SUPERBLOCK_SIZE <= total || layers == 0) by (nonlinear_arith)
        requires
            0 <= sbs,
            layers >= 0,
            total == sbs * SUPERBLOCK_SIZE * layers * 2,
    ;
    assert(s.physical_blocks() <= usize::MAX);
}

/// Every token stored takes its bytes: a longer sequence takes as many more
/// as it has tokens more. What is not free takes whole superblocks.
pub proof fn law_sample_measures_tokens(s: PoolView, q: int, len: usize, per_token: usize)
    requires
        0 <= q < s.sequences.len(),
        s.total_tokens() * per_token <= usize::MAX,
        s.with_seq_len(q, len).total_tokens() * per_token <= usize::MAX,
        s.superblocks_not_free() >= 0,
        s.superblocks_not_free() * 2_097_152 <= usize::MAX,
        s.sequences.len() <= usize::MAX,
    ensures
        ({
            let a = s.fragmentation_sample(per_token);
            let b = s.with_seq_len(q, len).fragmentation_sample(per_token);
            &&& b.memory_active_tokens - a.memory_active_tokens == (len - s.sequences[q].seq_len)
                * per_token
            &&& b.memory_allocated_not_free == a.memory_allocated_not_free
            &&& a.memory_allocated_not_free == s.superblocks_not_free() * 2_097_152
            &&& a.active_sequences == owners_below(s, s.sequences.len()).len()
        }),
{
    law_tokens_all_count(s, q, len);
    law_counts_are_cardinalities(s);
    lemma_owners_few(s, s.sequences.len());
    let t = s.with_seq_len(q, len);
    let x = s.total_tokens() as int;
    let y = t.total_tokens() as int;
    assert(y * per_token - x * per_token == (y - x) * per_token) by (nonlinear_arith);
    assert(0 <= x * per_token && 0 <= y * per_token) by (nonlinear_arith)
        requires
            0 <= x,
            0 <= y,
    ;
}

proof fn lemma_owners_few(s: PoolView, n: nat)
    ensures
        s.owning_count(n) <= n,
    decreases n,
{
    if n > 0 {
        lemma_owners_few(s, (n - 1) as nat);
    }
}

/// A token's bytes are the same whether the heads are given or the pool.
pub proof fn law_token_bytes_agree(s: PoolView, kv_heads: int, head_dim: int)
    requires
        s.step() == kv_heads * head_dim,
    ensures
        unified_frag::bytes_per_token(kv_heads, head_dim, s.shape.num_layers as int)
            == s.token_bytes(),
        s.token_bytes() == (2 * s.step()) * (2 * s.shape.num_layers),
{
    let a = s.step();
    let l = s.shape.num_layers as int;
    assert(a * 2 * l * 2 == (2 * a) * (2 * l)) by (nonlinear_arith);
}

/// The slots of a contiguous cache fill a layer.
pub proof fn law_slots_fill_layer(c: KvCache)
    ensures
        c.layer_elems() == c.elem_offset(c.max_batch as int, 0),
{
    let b = c.max_batch as int;
    let h = c.cfg.kv_heads() as int;
    let m = c.max_seq_len as int;
    let d = c.cfg.head_dim() as int;
    assert((b * h * m + 0) * d == b * h * m * d) by (nonlinear_arith);
}

proof fn lemma_equal_buffers(buffers: Seq<Vec<u8>>, n: nat, size: nat)
    requires
        n <= buffers.len(),
        forall|l: int| 0 <= l < buffers.len() ==> (#[trigger] buffers[l])@.len() == size,
    ensures
        EvictedSeqData::buffer_bytes(buffers, n) == n * size,
    decreases n,
{
    if n > 0 {
        lemma_equal_buffers(buffers, (n - 1) as nat, size);
        assert((n - 1) * size + size == n * size) by (nonlinear_arith);
        assert(buffers[n - 1]@.len() == size);
    } else {
        assert(0 * size == 0) by (nonlinear_arith);
    }
}

/// The host holds the buffers of K and of V: with one of each for a layer, all
/// of one size, twice that size for each layer.
pub proof fn law_host_holds_both_sides(data: EvictedSeqData, size: nat)
    requires
        data.v_layers@.len() == data.k_layers@.len(),
        forall|l: int| 0 <= l < data.k_layers@.len() ==> (#[trigger] data.k_layers@[l])@.len() == size,
        forall|l: int| 0 <= l < data.v_layers@.len() ==> (#[trigger] data.v_layers@[l])@.len() == size,
    ensures
        data.host_bytes() == data.k_layers@.len() * (2 * size),
{
    let n = data.k_layers@.len();
    lemma_equal_buffers(data.k_layers@, n, size);
    lemma_equal_buffers(data.v_layers@, n, size);
    assert(n * size + n * size == n * (2 * size)) by (nonlinear_arith);
}

} // verus!
