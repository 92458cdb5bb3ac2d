use vstd::prelude::*;

use crate::cache::paged_kv::PagedKvCache;
use crate::cache::unified_frag::FragCounts;
use crate::kcmm::pool_model::PoolView;
use crate::kcmm::superblock::SUPERBLOCK_SIZE;

verus! {

/// One snapshot of the fragmentation of a cache. The fragmentation ratio is 1
/// minus `memory_active_tokens / memory_allocated_not_free`, or zero where
/// nothing is allocated.
#[derive(Debug, Clone, Copy, PartialEq, Eq, Structural)]
pub struct FragmentationSample {
    /// Bytes of as many superblocks as the blocks that are not free would fill.
    pub memory_allocated_not_free: usize,
    /// Bytes of the tokens stored, in one layer of K.
    pub memory_active_tokens: usize,
    /// Sequences that own blocks.
    pub active_sequences: usize,
}

impl PoolView {
    /// Superblocks that the blocks which are not free would fill.
    pub open spec fn superblocks_not_free(self) -> int {
        let bps = self.pools.blocks_per_superblock as int;
        (self.physical_blocks() - self.pools.free.len() + bps - 1) / bps
    }

    /// The sample of a cache in which something is mapped.
    pub open spec fn fragmentation_sample(self, bytes_per_token_elem: usize) -> FragmentationSample {
        FragmentationSample {
            memory_allocated_not_free: (self.superblocks_not_free() * SUPERBLOCK_SIZE) as usize,
            memory_active_tokens: (self.total_tokens() * bytes_per_token_elem) as usize,
            active_sequences: self.owning_count(self.sequences.len()) as usize,
        }
    }

    /// The sample can be computed: no more blocks are free than there are, and
    /// the token bytes fit.
    pub open spec fn sample_fits(self, bytes_per_token_elem: usize) -> bool {
        &&& self.pools.free.len() <= self.physical_blocks()
        &&& self.physical_blocks() + self.pools.blocks_per_superblock <= usize::MAX
        &&& self.total_tokens() * bytes_per_token_elem <= usize::MAX
        &&& self.total_tokens() <= usize::MAX
    }
}

/// Fragmentation over time during inference with many requests.
#[derive(Debug)]
pub struct RuntimeFragmentationTracker {
    pub samples: Vec<FragmentationSample>,
    pub unified_samples: Vec<FragCounts>,
    /// Bytes of one token in one layer of K.
    pub bytes_per_token_elem: usize,
}

impl RuntimeFragmentationTracker {
    /// A tracker without samples.
    pub fn new(bytes_per_token_elem: usize) -> (r: Self)
        ensures
            r.samples@ == Seq::<FragmentationSample>::empty(),
            r.unified_samples@ == Seq::<FragCounts>::empty(),
            r.bytes_per_token_elem == bytes_per_token_elem,
    {
        RuntimeFragmentationTracker {
            samples: Vec::new(),
            unified_samples: Vec::new(),
            bytes_per_token_elem,
        }
    }

    /// Record a snapshot of the cache. Nothing is recorded while nothing is
    /// mapped.
    pub fn record(&mut self, cache: &PagedKvCache)
        requires
            cache.wf(),
            cache@.sample_fits(old(self).bytes_per_token_elem),
        ensures
            final(self).samples@ == if cache@.pools.backing.len() == 0 {
                old(self).samples@
            } else {
                old(self).samples@.push(
                    cache@.fragmentation_sample(old(self).bytes_per_token_elem),
                )
            },
            final(self).unified_samples@ == old(self).unified_samples@,
            final(self).bytes_per_token_elem == old(self).bytes_per_token_elem,
    {
        if cache.superblock_count() == 0 {
            return;
        }
        proof {
            let s = cache@;
            let bps = s.pools.blocks_per_superblock as int;
            let n = s.pools.backing.len() as int;
            let k = s.superblocks_not_free();
            let used = s.physical_blocks() - s.pools.free.len();
            vstd::arithmetic::div_mod::lemma_fundamental_div_mod(used + bps - 1, bps);
            assert(k <= n) by (nonlinear_arith)
                requires
                    used + bps - 1 == bps * k + (used + bps - 1) % bps,
                    0 <= (used + bps - 1) % bps,
                    used <= n * bps,
                    bps > 0,
            ;
            assert(0 <= k) by (nonlinear_arith)
                requires
                    k == (used + bps - 1) / bps,
                    used >= 0,
                    bps >= 1,
            ;
        }
        let not_free: usize = cache.total_physical_blocks() - cache.free_physical_blocks();
        let bps: usize = cache.blocks_per_superblock();
        let active_superblocks: usize = (not_free + (bps - 1)) / bps;
        let (total_tokens, active_sequences) = cache.pool.token_totals();
        self.samples.push(
            FragmentationSample {
                memory_allocated_not_free: active_superblocks * SUPERBLOCK_SIZE,
                memory_active_tokens: total_tokens * self.bytes_per_token_elem,
                active_sequences,
            },
        );
    }

    /// Record a snapshot of the cache and the counts behind its metrics.
    pub fn record_unified(&mut self, cache: &PagedKvCache)
        requires
            cache.wf(),
            cache@.counts_fit(),
            cache@.sample_fits(old(self).bytes_per_token_elem),
        ensures
            final(self).samples@ == if cache@.pools.backing.len() == 0 {
                old(self).samples@
            } else {
                old(self).samples@.push(
                    cache@.fragmentation_sample(old(self).bytes_per_token_elem),
                )
            },
            final(self).unified_samples@ == old(self).unified_samples@.push(
                cache@.frag_counts(cache@.owning_count(cache@.sequences.len()) as usize),
            ),
            final(self).bytes_per_token_elem == old(self).bytes_per_token_elem,
    {
        self.record(cache);
        self.unified_samples.push(cache.frag_counts());
    }

    /// Number of recorded samples.
    pub fn sample_count(&self) -> (r: usize)
        ensures
            r == self.samples@.len(),
    {
        self.samples.len()
    }

    /// Number of recorded counts.
    pub fn unified_sample_count(&self) -> (r: usize)
        ensures
            r == self.unified_samples@.len(),
    {
        self.unified_samples.len()
    }
}

} // verus!
