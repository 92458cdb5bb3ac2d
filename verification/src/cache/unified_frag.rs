use vstd::prelude::*;

use crate::kcmm::pool::KcmmPool;
use crate::kcmm::pool_model::PoolView;
use crate::kcmm::superblock::{HALF_BYTES, SUPERBLOCK_SIZE};

verus! {

/// `n` rounded up to a multiple of `m`.
pub open spec fn spec_round_up(n: int, m: int) -> int {
    (n + m - 1) / m * m
}

/// Round `n` up to the nearest multiple of `m`.
pub fn round_up(n: usize, m: usize) -> (r: usize)
    requires
        m > 0,
        n + m - 1 <= usize::MAX,
    ensures
        r == spec_round_up(n as int, m as int),
        n <= r < n + m,
        r as int % m as int == 0,
{
    let q: usize = (n + (m - 1)) / m;
    proof {
        let t = n + m - 1;
        vstd::arithmetic::div_mod::lemma_fundamental_div_mod(t, m as int);
        assert(q * m == m * q) by (nonlinear_arith);
        vstd::arithmetic::div_mod::lemma_mod_multiples_basic(q as int, m as int);
    }
    q * m
}

/// The counts behind the fragmentation metrics of a cache at one point in
/// time. Each metric is a ratio of two of them:
///
///  - internal fragmentation rate: `wasted_slots / total_slots`
///  - block utilization: `blocks_in_use / total_blocks_allocated`
///  - physical memory efficiency: `ideal_physical_bytes / actual_physical_bytes`
///  - runtime fragmentation index: 1 minus
///    `ideal_active_bytes / actual_active_bytes`
///
/// All byte counts cover K and V of all layers.
#[derive(Debug, Clone, Copy, PartialEq, Eq, Structural)]
pub struct FragCounts {
    pub active_sequences: usize,
    pub blocks_in_use: usize,
    pub total_blocks_allocated: usize,
    pub total_tokens: usize,
    pub total_slots: usize,
    /// Slots of the sequences' blocks that hold no token.
    pub wasted_slots: usize,
    /// Bytes of the blocks in use.
    pub ideal_physical_bytes: u64,
    /// Bytes of all mapped superblocks.
    pub actual_physical_bytes: u64,
    /// Bytes of the tokens stored.
    pub ideal_active_bytes: u64,
    /// Bytes of as many superblocks as the blocks in use would fill.
    pub actual_active_bytes: u64,
}

/// Bytes that one token takes over K and V of all layers.
pub open spec fn bytes_per_token(kv_heads: int, head_dim: int, num_layers: int) -> int {
    kv_heads * head_dim * HALF_BYTES * num_layers * 2
}

/// Slots that hold no token; where there are no slots none is wasted.
pub open spec fn slots_wasted(slots: int, tokens: int) -> int {
    if slots > 0 {
        slots - tokens
    } else {
        0
    }
}

impl FragCounts {
    /// Put the counts together from raw values, for systems with their own
    /// idea of the bytes that are allocated and in active use.
    pub fn from_raw(
        block_size: usize,
        blocks_in_use: usize,
        total_blocks_allocated: usize,
        total_blocks_used_by_seqs: usize,
        total_tokens: usize,
        block_bytes: usize,
        num_layers: usize,
        kv_heads: usize,
        head_dim: usize,
        actual_physical_bytes: u64,
        actual_active_bytes: u64,
    ) -> (r: Self)
        requires
            total_blocks_used_by_seqs * block_size <= usize::MAX,
            total_blocks_used_by_seqs * block_size > 0 ==> total_tokens
                <= total_blocks_used_by_seqs * block_size,
            blocks_in_use * block_bytes <= usize::MAX,
            blocks_in_use * block_bytes * num_layers * 2 <= usize::MAX,
            kv_heads * head_dim <= usize::MAX,
            kv_heads * head_dim * HALF_BYTES <= usize::MAX,
            kv_heads * head_dim * HALF_BYTES * num_layers <= usize::MAX,
            bytes_per_token(kv_heads as int, head_dim as int, num_layers as int) <= usize::MAX,
            total_tokens * bytes_per_token(kv_heads as int, head_dim as int, num_layers as int)
                <= usize::MAX,
        ensures
            r == (FragCounts {
                active_sequences: 0,
                blocks_in_use,
                total_blocks_allocated,
                total_tokens,
                total_slots: (total_blocks_used_by_seqs * block_size) as usize,
                wasted_slots: slots_wasted(
                    total_blocks_used_by_seqs * block_size,
                    total_tokens as int,
                ) as usize,
                ideal_physical_bytes: (blocks_in_use * block_bytes * num_layers * 2) as u64,
                actual_physical_bytes,
                ideal_active_bytes: (total_tokens * bytes_per_token(
                    kv_heads as int,
                    head_dim as int,
                    num_layers as int,
                )) as u64,
                actual_active_bytes,
            }),
    {
        let total_slots: usize = total_blocks_used_by_seqs * block_size;
        let bpt_all: usize = kv_heads * head_dim * HALF_BYTES * num_layers * 2;
        let ideal_physical: usize = blocks_in_use * block_bytes * num_layers * 2;
        FragCounts {
            active_sequences: 0,
            blocks_in_use,
            total_blocks_allocated,
            total_tokens,
            total_slots,
            wasted_slots: if total_slots > 0 {
                total_slots - total_tokens
            } else {
                0
            },
            ideal_physical_bytes: ideal_physical as u64,
            actual_physical_bytes,
            ideal_active_bytes: (total_tokens * bpt_all) as u64,
            actual_active_bytes,
        }
    }
}

impl PoolView {
    /// Tokens of all sequences.
    pub open spec fn total_tokens(self) -> nat {
        self.token_count(self.sequences.len())
    }

    /// Block table entries of all sequences.
    pub open spec fn total_entries(self) -> nat {
        self.table_count(self.sequences.len())
    }

    /// Number of physical blocks.
    pub open spec fn physical_blocks(self) -> int {
        (self.pools.backing.len() * self.pools.blocks_per_superblock) as int
    }

    /// Blocks in use.
    pub open spec fn total_used(self) -> nat {
        self.used_count(self.blocks.len())
    }

    /// Sequences among the first `n` that own blocks.
    pub open spec fn owning_count(self, n: nat) -> nat
        decreases n,
    {
        if n == 0 {
            0
        } else {
            self.owning_count((n - 1) as nat) + if self.sequences[n - 1].block_table.len() > 0 {
                1nat
            } else {
                0nat
            }
        }
    }

    /// Bytes of `n` superblock positions over K and V of all layers.
    pub open spec fn superblock_bytes(self, n: int) -> int {
        n * SUPERBLOCK_SIZE * self.shape.num_layers * 2
    }

    /// Superblocks that the blocks in use would fill.
    pub open spec fn active_superblocks(self) -> int {
        let bps = self.pools.blocks_per_superblock as int;
        (self.total_used() + bps - 1) / bps
    }

    /// Bytes that one token takes over K and V of all layers.
    pub open spec fn token_bytes(self) -> int {
        self.step() * HALF_BYTES * self.shape.num_layers * 2
    }

    /// Tokens and slots can be counted, and where sequences own blocks these
    /// hold all tokens.
    pub open spec fn slots_fit(self) -> bool {
        &&& self.total_tokens() <= usize::MAX
        &&& self.total_entries() * self.shape.block_size <= usize::MAX
        &&& self.total_entries() > 0 ==> self.total_tokens() <= self.total_entries()
            * self.shape.block_size
    }

    /// The bytes of all mapped superblocks and of the blocks in use can be
    /// counted.
    pub open spec fn physical_fits(self) -> bool {
        &&& self.superblock_bytes(self.pools.backing.len() as int) <= usize::MAX
        &&& self.total_used() * self.shape.block_bytes * self.shape.num_layers * 2 <= usize::MAX
    }

    /// All counts behind the metrics can be computed.
    pub open spec fn counts_fit(self) -> bool {
        &&& self.slots_fit()
        &&& self.physical_fits()
        &&& self.total_used() + self.pools.blocks_per_superblock <= usize::MAX
        &&& self.superblock_bytes(self.active_superblocks()) <= usize::MAX
        &&& self.token_bytes() <= usize::MAX
        &&& self.total_tokens() * self.token_bytes() <= usize::MAX
    }

    /// Slots of the sequences' blocks.
    pub open spec fn total_slots(self) -> int {
        (self.total_entries() * self.shape.block_size) as int
    }

    /// Bytes of mapped memory that no block in use takes, and bytes of mapped
    /// memory in all.
    pub open spec fn idle_bytes(self) -> (usize, usize) {
        let total = self.superblock_bytes(self.pools.backing.len() as int);
        let used = self.total_used() * self.shape.block_bytes * self.shape.num_layers * 2;
        (
            if used >= total {
                0
            } else {
                (total - used) as usize
            },
            total as usize,
        )
    }

    /// The fragmentation counts, for a given number of active sequences.
    pub open spec fn frag_counts(self, active_sequences: usize) -> FragCounts {
        FragCounts {
            active_sequences,
            blocks_in_use: self.total_used() as usize,
            total_blocks_allocated: self.physical_blocks() as usize,
            total_tokens: self.total_tokens() as usize,
            total_slots: self.total_slots() as usize,
            wasted_slots: slots_wasted(self.total_slots(), self.total_tokens() as int) as usize,
            ideal_physical_bytes: (self.total_used() * self.shape.block_bytes
                * self.shape.num_layers * 2) as u64,
            actual_physical_bytes: self.superblock_bytes(self.pools.backing.len() as int) as u64,
            ideal_active_bytes: (self.total_tokens() * self.token_bytes()) as u64,
            actual_active_bytes: self.superblock_bytes(self.active_superblocks()) as u64,
        }
    }
}

/// Counting more sequences counts no fewer tokens and blocks.
proof fn lemma_counts_monotone(s: PoolView, i: nat, n: nat)
    requires
        i <= n,
    ensures
        s.token_count(i) <= s.token_count(n),
        s.table_count(i) <= s.table_count(n),
        s.owning_count(i) <= i,
    decreases n,
{
    if i < n {
        lemma_counts_monotone(s, i, (n - 1) as nat);
    } else if i > 0 {
        lemma_counts_monotone(s, (i - 1) as nat, (i - 1) as nat);
    }
}

impl KcmmPool {
    /// Tokens of all sequences, and how many sequences own blocks.
    pub fn token_totals(&self) -> (r: (usize, usize))
        requires
            self@.total_tokens() <= usize::MAX,
        ensures
            r.0 == self@.total_tokens(),
            r.1 == self@.owning_count(self@.sequences.len()),
    {
        let mut tokens: usize = 0;
        let mut owning: usize = 0;
        let mut i: usize = 0;
        while i < self.sequences.len()
            invariant
                i <= self.sequences@.len(),
                self@.total_tokens() <= usize::MAX,
                tokens == self@.token_count(i as nat),
                owning == self@.owning_count(i as nat),
                owning <= i,
            decreases self.sequences@.len() - i,
        {
            proof {
                lemma_counts_monotone(self@, (i + 1) as nat, self@.sequences.len());
                assert(self@.sequences[i as int] == self.sequences@[i as int]@);
            }
            tokens = tokens + self.sequences[i].seq_len;
            if self.sequences[i].block_table.len() > 0 {
                owning = owning + 1;
            }
            i = i + 1;
        }
        (tokens, owning)
    }

    /// Block table entries of all sequences.
    pub fn entry_total(&self) -> (r: usize)
        requires
            self@.total_entries() <= usize::MAX,
        ensures
            r == self@.total_entries(),
    {
        let mut entries: usize = 0;
        let mut i: usize = 0;
        while i < self.sequences.len()
            invariant
                i <= self.sequences@.len(),
                self@.total_entries() <= usize::MAX,
                entries == self@.table_count(i as nat),
            decreases self.sequences@.len() - i,
        {
            proof {
                lemma_counts_monotone(self@, (i + 1) as nat, self@.sequences.len());
                assert(self@.sequences[i as int] == self.sequences@[i as int]@);
            }
            entries = entries + self.sequences[i].block_table.len();
            i = i + 1;
        }
        entries
    }

    /// Tokens of all sequences, slots of their blocks, and slots that hold no
    /// token.
    pub fn slot_counts(&self) -> (r: (usize, usize, usize))
        requires
            self.wf(),
            self@.slots_fit(),
        ensures
            r.0 == self@.total_tokens(),
            r.1 == self@.total_slots(),
            r.2 == slots_wasted(self@.total_slots(), self@.total_tokens() as int),
    {
        proof {
            let e = self@.total_entries() as int;
            let bs = self@.shape.block_size as int;
            assert(e <= e * bs) by (nonlinear_arith)
                requires
                    e >= 0,
                    bs >= 1,
            ;
            assert(e == 0 ==> e * bs == 0) by (nonlinear_arith);
        }
        let (tokens, _owning) = self.token_totals();
        let slots: usize = self.entry_total() * self.block_size;
        let wasted: usize = if slots > 0 {
            slots - tokens
        } else {
            0
        };
        (tokens, slots, wasted)
    }

    /// The counts behind the fragmentation metrics, for a given number of
    /// active sequences.
    pub fn frag_counts(&self, active_sequences: usize) -> (r: FragCounts)
        requires
            self.wf(),
            self@.counts_fit(),
        ensures
            r == self@.frag_counts(active_sequences),
    {
        let (total_tokens, total_slots, wasted_slots) = self.slot_counts();
        let in_use: usize = self.blocks_in_use();
        let layers: usize = self.num_layers;
        let sb_count: usize = self.superblock_count();
        let bps: usize = self.blocks_per_superblock();
        let step: usize = self.elem_per_block / self.block_size;
        proof {
            let s = self@;
            lemma_used_le(s, s.blocks.len());
            let a = s.active_superblocks();
            assert(a >= 0) by (nonlinear_arith)
                requires
                    bps >= 1,
                    in_use >= 0,
                    a == (in_use + bps - 1) / bps as int,
            ;
            let l = layers as int;
            lemma_products(sb_count as int, SUPERBLOCK_SIZE as int, l);
            lemma_products(a, SUPERBLOCK_SIZE as int, l);
            lemma_products(in_use as int, self.block_bytes as int, l);
            assert(step >= 0);
            lemma_products(step as int, HALF_BYTES as int, l);
        }
        let active_sbs: usize = (in_use + (bps - 1)) / bps;
        let token_bytes: usize = step * HALF_BYTES * layers * 2;
        let ideal_physical: usize = in_use * self.block_bytes * layers * 2;
        let actual_physical: usize = sb_count * SUPERBLOCK_SIZE * layers * 2;
        let actual_active: usize = active_sbs * SUPERBLOCK_SIZE * layers * 2;
        FragCounts {
            active_sequences,
            blocks_in_use: in_use,
            total_blocks_allocated: self.total_physical_blocks(),
            total_tokens,
            total_slots,
            wasted_slots,
            ideal_physical_bytes: ideal_physical as u64,
            actual_physical_bytes: actual_physical as u64,
            ideal_active_bytes: (total_tokens * token_bytes) as u64,
            actual_active_bytes: actual_active as u64,
        }
    }

    /// Bytes of all mapped superblocks.
    pub fn mapped_bytes(&self) -> (r: usize)
        requires
            self.wf(),
            self@.superblock_bytes(self@.pools.backing.len() as int) <= usize::MAX,
        ensures
            r == self@.superblock_bytes(self@.pools.backing.len() as int),
    {
        let layers: usize = self.num_layers;
        let sb_count: usize = self.superblock_count();
        proof {
            lemma_products(sb_count as int, SUPERBLOCK_SIZE as int, layers as int);
        }
        sb_count * SUPERBLOCK_SIZE * layers * 2
    }

    /// Bytes of mapped memory that no block in use takes, and bytes of mapped
    /// memory in all; no bytes are idle where nothing is mapped.
    pub fn idle_bytes(&self) -> (r: (usize, usize))
        requires
            self.wf(),
            self@.physical_fits(),
        ensures
            r == self@.idle_bytes(),
    {
        let layers: usize = self.num_layers;
        let in_use: usize = self.blocks_in_use();
        proof {
            lemma_products(in_use as int, self.block_bytes as int, layers as int);
        }
        let total: usize = self.mapped_bytes();
        let used: usize = in_use * self.block_bytes * layers * 2;
        if used >= total {
            (0, total)
        } else {
            (total - used, total)
        }
    }

    /// The counts behind the metrics, with every registered sequence counted
    /// as active.
    pub fn collect_metrics(&self) -> (r: FragCounts)
        requires
            self.wf(),
            self@.counts_fit(),
        ensures
            r == self@.frag_counts(self@.sequences.len() as usize),
    {
        self.frag_counts(self.sequences.len())
    }
}

/// No more blocks are in use than there are.
proof fn lemma_used_le(s: PoolView, n: nat)
    ensures
        s.used_count(n) <= n,
    decreases n,
{
    if n > 0 {
        lemma_used_le(s, (n - 1) as nat);
    }
}

/// The factors of a product of positive layer count are no larger than it.
proof fn lemma_products(a: int, b: int, l: int)
    requires
        a >= 0,
        b >= 0,
        l >= 1,
    ensures
        0 <= a * b <= a * b * l <= a * b * l * 2,
{
    assert(0 <= a * b) by (nonlinear_arith)
        requires
            a >= 0,
            b >= 0,
    ;
    assert(a * b <= a * b * l) by (nonlinear_arith)
        requires
            0 <= a * b,
            l >= 1,
    ;
}

} // verus!
