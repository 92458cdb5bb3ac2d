//! What the eviction policies remember of blocks, and what hints tell them.

use vstd::prelude::*;

use crate::kcmm::ffi;
use crate::kcmm::ffi::kcmm_hint_t;
use crate::kcmm::metrics;
use crate::kcmm::metrics::HistogramView;
use crate::kcmm::policy;
use crate::kcmm::policy::PolicyKind;
use crate::kcmm::pool::SequencePriority;
use crate::kcmm::pool_model::PoolView;
use crate::kcmm::superblock::BlockHandle;
use crate::kcmm::tiering;
use crate::text;

verus! {

/// The block with key `k` is among the blocks.
pub open spec fn has_key(blocks: Seq<BlockHandle>, k: u64) -> bool {
    exists|i: int| 0 <= i < blocks.len() && (#[trigger] blocks[i]).key() == k
}

/// How often the block with key `k` is among the blocks.
pub open spec fn times(blocks: Seq<BlockHandle>, k: u64) -> nat {
    blocks.filter(|b: BlockHandle| b.key() == k).len()
}

/// Under least-recently-used the score of a block is the time of its last
/// access; the other blocks keep theirs.
pub proof fn law_lru_remembers_last_access(
    scores: Map<u64, u64>,
    blocks: Seq<BlockHandle>,
    now: u64,
    k: u64,
)
    ensures
        ({
            let after = ffi::accessed(PolicyKind::Lru, scores, blocks, now);
            &&& has_key(blocks, k) ==> after.contains_key(k) && after[k] == now
            &&& !has_key(blocks, k) ==> after.contains_key(k) == scores.contains_key(k) && (
            scores.contains_key(k) ==> after[k] == scores[k])
        }),
    decreases blocks.len(),
{
    if blocks.len() > 0 {
        let rest = blocks.drop_last();
        law_lru_remembers_last_access(scores, rest, now, k);
        if has_key(blocks, k) && blocks.last().key() != k {
            let i = choose|i: int| 0 <= i < blocks.len() && (#[trigger] blocks[i]).key() == k;
            assert(rest[i].key() == k);
            assert(has_key(rest, k));
        }
        if has_key(rest, k) {
            let i = choose|i: int| 0 <= i < rest.len() && (#[trigger] rest[i]).key() == k;
            assert(blocks[i].key() == k);
        }
        assert(blocks[blocks.len() - 1].key() == blocks.last().key());
    }
}

/// Under least-frequently-used the score of a block is the number of its
/// accesses, on top of what it was; the other blocks keep theirs.
pub proof fn law_lfu_counts_accesses(
    scores: Map<u64, u64>,
    blocks: Seq<BlockHandle>,
    now: u64,
    k: u64,
)
    requires
        blocks.len() <= u64::MAX,
        ffi::counts_fit(scores, blocks.len()),
    ensures
        ({
            let after = ffi::accessed(PolicyKind::Lfu, scores, blocks, now);
            let before = if scores.contains_key(k) {
                scores[k] as int
            } else {
                0
            };
            &&& times(blocks, k) <= blocks.len()
            &&& after.contains_key(k) == (scores.contains_key(k) || times(blocks, k) > 0)
            &&& after.contains_key(k) ==> after[k] == before + times(blocks, k)
        }),
    decreases blocks.len(),
{
    let known = |b: BlockHandle| b.key() == k;
    reveal(Seq::filter);
    if blocks.len() > 0 {
        let rest = blocks.drop_last();
        assert(ffi::counts_fit(scores, rest.len()));
        law_lfu_counts_accesses(scores, rest, now, k);
        if scores.contains_key(k) {
            assert(scores[k] + blocks.len() <= u64::MAX);
        }
    }
}

/// Under first-in first-out accesses leave the scores as they are.
pub proof fn law_fifo_forgets_accesses(
    scores: Map<u64, u64>,
    blocks: Seq<BlockHandle>,
    now: u64,
)
    ensures
        ffi::accessed(PolicyKind::Fifo, scores, blocks, now) == scores,
    decreases blocks.len(),
{
    if blocks.len() > 0 {
        law_fifo_forgets_accesses(scores, blocks.drop_last(), now);
    }
}

/// A block allocated later scores higher under least-recently-used and
/// first-in first-out; under least-frequently-used an allocation counts as
/// one access, whenever it is.
pub proof fn law_allocation_scores(a: u64, b: u64, block: BlockHandle)
    ensures
        a < b ==> PolicyKind::Lru.score_on_allocate(a) < PolicyKind::Lru.score_on_allocate(b),
        a < b ==> PolicyKind::Fifo.score_on_allocate(a) < PolicyKind::Fifo.score_on_allocate(b),
        PolicyKind::Lru.score_on_allocate(a) == PolicyKind::Lru.scores_on_access(
            Map::empty(),
            block,
            a,
        )[block.key()],
        PolicyKind::Lfu.score_on_allocate(a) == 1,
        PolicyKind::Fifo.score_on_allocate(a) == a,
{
}

/// Block `a` stands before block `b`.
pub open spec fn stands_before(blocks: Seq<BlockHandle>, a: BlockHandle, b: BlockHandle) -> bool {
    exists|i: int, j: int|
        0 <= i < j < blocks.len() && #[trigger] blocks[i] == a && #[trigger] blocks[j] == b
}

/// Placing a block keeps the order of the others.
proof fn lemma_placed_keeps_order(
    scores: Map<u64, u64>,
    sorted: Seq<BlockHandle>,
    block: BlockHandle,
    a: BlockHandle,
    b: BlockHandle,
)
    requires
        stands_before(sorted, a, b),
    ensures
        stands_before(policy::placed(scores, sorted, block), a, b),
    decreases sorted.len(),
{
    let out = policy::placed(scores, sorted, block);
    let (i, j) = choose|i: int, j: int|
        0 <= i < j < sorted.len() && #[trigger] sorted[i] == a && #[trigger] sorted[j] == b;
    if sorted.len() == 0 || scores[sorted.last().key()] <= scores[block.key()] {
        assert(out[i] == a && out[j] == b);
    } else {
        let rest = sorted.drop_last();
        let inner = policy::placed(scores, rest, block);
        if j < rest.len() {
            assert(rest[i] == a && rest[j] == b);
            lemma_placed_keeps_order(scores, rest, block, a, b);
            let (x, y) = choose|x: int, y: int|
                0 <= x < y < inner.len() && #[trigger] inner[x] == a && #[trigger] inner[y] == b;
            assert(out[x] == a && out[y] == b);
        } else {
            lemma_placed_keeps(scores, rest, block, i);
            let x = choose|x: int| 0 <= x < inner.len() && #[trigger] inner[x] == a;
            assert(out[x] == a && out[inner.len() as int] == b);
        }
    }
}

/// Placing a block keeps each of the others.
proof fn lemma_placed_keeps(
    scores: Map<u64, u64>,
    sorted: Seq<BlockHandle>,
    block: BlockHandle,
    i: int,
)
    requires
        0 <= i < sorted.len(),
    ensures
        exists|x: int|
            0 <= x < policy::placed(scores, sorted, block).len() && #[trigger] policy::placed(
                scores,
                sorted,
                block,
            )[x] == sorted[i],
    decreases sorted.len(),
{
    let out = policy::placed(scores, sorted, block);
    if scores[sorted.last().key()] <= scores[block.key()] {
        assert(out[i] == sorted[i]);
    } else {
        let rest = sorted.drop_last();
        let inner = policy::placed(scores, rest, block);
        if i < rest.len() {
            lemma_placed_keeps(scores, rest, block, i);
            let x = choose|x: int| 0 <= x < inner.len() && #[trigger] inner[x] == rest[i];
            assert(out[x] == sorted[i]);
        } else {
            assert(out[inner.len() as int] == sorted[i]);
        }
    }
}

/// A placed block stands behind every block with no higher score.
proof fn lemma_placed_behind(
    scores: Map<u64, u64>,
    sorted: Seq<BlockHandle>,
    block: BlockHandle,
    i: int,
)
    requires
        policy::ascending(scores, sorted),
        0 <= i < sorted.len(),
        scores[sorted[i].key()] <= scores[block.key()],
    ensures
        stands_before(policy::placed(scores, sorted, block), sorted[i], block),
    decreases sorted.len(),
{
    let out = policy::placed(scores, sorted, block);
    if scores[sorted.last().key()] <= scores[block.key()] {
        assert(out[i] == sorted[i] && out[sorted.len() as int] == block);
    } else {
        let rest = sorted.drop_last();
        let inner = policy::placed(scores, rest, block);
        assert(i < rest.len());
        assert(policy::ascending(scores, rest)) by {
            assert forall|x: int, y: int| 0 <= x <= y < rest.len() implies scores[(
            #[trigger] rest[x]).key()] <= scores[(#[trigger] rest[y]).key()] by {
                assert(rest[x] == sorted[x] && rest[y] == sorted[y]);
            }
        }
        lemma_placed_behind(scores, rest, block, i);
        let (x, y) = choose|x: int, y: int|
            0 <= x < y < inner.len() && #[trigger] inner[x] == rest[i] && #[trigger] inner[y]
                == block;
        assert(out[x] == sorted[i] && out[y] == block);
    }
}

/// Of two candidates the one with the lower score comes first, and of two
/// with one score the one that stands first.
pub proof fn law_ranking_is_stable(
    scores: Map<u64, u64>,
    candidates: Seq<BlockHandle>,
    i: int,
    j: int,
)
    requires
        0 <= i < j < candidates.len(),
        scores.contains_key(candidates[i].key()),
        scores.contains_key(candidates[j].key()),
    ensures
        scores[candidates[i].key()] <= scores[candidates[j].key()] ==> stands_before(
            policy::ranking(scores, candidates),
            candidates[i],
            candidates[j],
        ),
    decreases candidates.len(),
{
    let a = candidates[i];
    let b = candidates[j];
    let rest = candidates.drop_last();
    let ranked = policy::ranking(scores, rest);
    if scores[a.key()] <= scores[b.key()] {
        if j < rest.len() {
            law_ranking_is_stable(scores, rest, i, j);
            if scores.contains_key(candidates.last().key()) {
                lemma_placed_keeps_order(scores, ranked, candidates.last(), a, b);
            }
        } else {
            lemma_ranking_keeps(scores, rest, i);
            policy::law_ranking_sorts(scores, rest);
            let x = choose|x: int| 0 <= x < ranked.len() && #[trigger] ranked[x] == a;
            lemma_placed_behind(scores, ranked, b, x);
        }
    }
}

/// A candidate with a score is in the ranking.
proof fn lemma_ranking_keeps(scores: Map<u64, u64>, candidates: Seq<BlockHandle>, i: int)
    requires
        0 <= i < candidates.len(),
        scores.contains_key(candidates[i].key()),
    ensures
        exists|x: int|
            0 <= x < policy::ranking(scores, candidates).len() && #[trigger] policy::ranking(
                scores,
                candidates,
            )[x] == candidates[i],
    decreases candidates.len(),
{
    let rest = candidates.drop_last();
    let ranked = policy::ranking(scores, rest);
    let block = candidates.last();
    let out = policy::ranking(scores, candidates);
    if i < rest.len() {
        lemma_ranking_keeps(scores, rest, i);
        let x = choose|x: int| 0 <= x < ranked.len() && #[trigger] ranked[x] == rest[i];
        if scores.contains_key(block.key()) {
            lemma_placed_keeps(scores, ranked, block, x);
        } else {
            assert(out[x] == candidates[i]);
        }
    } else {
        lemma_placed_holds(scores, ranked, block);
    }
}

/// A placed block is there.
proof fn lemma_placed_holds(scores: Map<u64, u64>, sorted: Seq<BlockHandle>, block: BlockHandle)
    ensures
        exists|x: int|
            0 <= x < policy::placed(scores, sorted, block).len() && #[trigger] policy::placed(
                scores,
                sorted,
                block,
            )[x] == block,
    decreases sorted.len(),
{
    let out = policy::placed(scores, sorted, block);
    if sorted.len() == 0 || scores[sorted.last().key()] <= scores[block.key()] {
        assert(out[sorted.len() as int] == block);
    } else {
        let inner = policy::placed(scores, sorted.drop_last(), block);
        lemma_placed_holds(scores, sorted.drop_last(), block);
        let x = choose|x: int| 0 <= x < inner.len() && #[trigger] inner[x] == block;
        assert(out[x] == block);
    }
}

/// The handles of a table are those of its blocks in use, and of no others.
pub proof fn law_used_handles_are_in_use(s: PoolView, table: Seq<u32>, h: BlockHandle)
    ensures
        s.used_handles(table).contains(h) <==> exists|k: int|
            0 <= k < table.len() && s.used(#[trigger] table[k])
                && s.blocks[table[k] as int].superblock_idx == h.superblock_idx
                && s.blocks[table[k] as int].block_index_in_sb == h.block_index,
        s.used_handles(table).len() == table.filter(|i: u32| s.used(i)).len(),
    decreases table.len(),
{
    reveal(Seq::filter);
    let all = s.used_handles(table);
    if table.len() > 0 {
        let rest = table.drop_last();
        let before = s.used_handles(rest);
        law_used_handles_are_in_use(s, rest, h);
        let last = table.len() - 1;
        if before.contains(h) {
            let k = choose|k: int|
                0 <= k < rest.len() && s.used(#[trigger] rest[k])
                    && s.blocks[rest[k] as int].superblock_idx == h.superblock_idx
                    && s.blocks[rest[k] as int].block_index_in_sb == h.block_index;
            assert(table[k] == rest[k]);
            let x = choose|x: int| 0 <= x < before.len() && before[x] == h;
            assert(all[x] == h);
        }
        if all.contains(h) && !before.contains(h) {
            let x = choose|x: int| 0 <= x < all.len() && all[x] == h;
            assert(x == before.len()) by {
                if x < before.len() {
                    assert(before[x] == h);
                }
            }
            assert(s.used(table[last]));
        }
        if s.used(table[last]) && s.blocks[table[last] as int].handle() == h {
            assert(all[before.len() as int] == h);
        }
        assert forall|k: int|
            0 <= k < table.len() && s.used(#[trigger] table[k])
                && s.blocks[table[k] as int].superblock_idx == h.superblock_idx
                && s.blocks[table[k] as int].block_index_in_sb == h.block_index implies all.contains(
            h,
        ) by {
            if k < last {
                assert(rest[k] == table[k]);
            }
        }
    }
}

/// The prefix in use ends before the first block that is not in use.
pub proof fn law_used_prefix_is_longest(s: PoolView, blocks: Seq<u32>)
    ensures
        s.used_prefix(blocks) <= blocks.len(),
        forall|i: int| 0 <= i < s.used_prefix(blocks) ==> s.used(#[trigger] blocks[i]),
        s.used_prefix(blocks) < blocks.len() ==> !s.used(blocks[s.used_prefix(blocks) as int]),
    decreases blocks.len(),
{
    if blocks.len() > 0 {
        let rest = blocks.drop_last();
        law_used_prefix_is_longest(s, rest);
        assert forall|i: int| 0 <= i < s.used_prefix(blocks) implies s.used(#[trigger] blocks[i]) by {
            if i < rest.len() {
                assert(rest[i] == blocks[i]);
            }
        }
    }
}

/// A hint that a sequence will go on keeps it active, one that it will not
/// cools it; a hint of a priority sets that priority, and the others leave
/// it. Hints that blocks matter count as an access to each block of the
/// sequence, and the others change no score. No hint changes another
/// sequence, a block or the memory.
pub proof fn law_hints_take_effect(s: PoolView, q: int, hint: kcmm_hint_t, now: u64)
    requires
        0 <= q < s.sequences.len(),
    ensures
        ({
            let after = s.hinted(q, hint, now);
            let cooled = hint is KCMM_HINT_NEAR_END || hint is KCMM_HINT_LOW_PRIORITY
                || hint is KCMM_HINT_EVICTABLE;
            let counted = hint is KCMM_HINT_MULTI_TURN || hint is KCMM_HINT_SYSTEM_PROMPT
                || hint is KCMM_HINT_ATTENTION_SINK || hint is KCMM_HINT_HEAVY_HITTER;
            &&& after.sequences.len() == s.sequences.len()
            &&& after.sequences[q].is_active == !cooled
            &&& hint is KCMM_HINT_HIGH_PRIORITY ==> after.sequences[q].priority
                == SequencePriority::High
            &&& hint is KCMM_HINT_LOW_PRIORITY ==> after.sequences[q].priority
                == SequencePriority::Low
            &&& hint is KCMM_HINT_EVICTABLE ==> after.sequences[q].priority
                == SequencePriority::Evictable
            &&& counted || hint is KCMM_HINT_NEAR_END ==> after.sequences[q].priority
                == s.sequences[q].priority
            &&& after.sequences[q].block_table == s.sequences[q].block_table
            &&& after.sequences[q].seq_len == s.sequences[q].seq_len
            &&& forall|p: int|
                0 <= p < s.sequences.len() && p != q ==> #[trigger] after.sequences[p]
                    == s.sequences[p]
            &&& after.blocks == s.blocks
            &&& after.pools == s.pools
            &&& after.free_idx == s.free_idx
            &&& !counted ==> after.tiering == s.tiering
            &&& s.tiering is None ==> after.tiering is None
            &&& s.tiering matches Some(t) ==> {
                &&& after.tiering is Some
                &&& after.tiering->0.kind == t.kind
                &&& after.tiering->0.slots == t.slots
                &&& counted && t.kind == PolicyKind::Lru ==> forall|k: u64|
                    has_key(s.used_handles(s.sequences[q].block_table), k)
                        ==> #[trigger] after.tiering->0.scores.contains_key(k)
                        && after.tiering->0.scores[k] == now
            }
        }),
{
    let blocks = s.used_handles(s.sequences[q].block_table);
    let after = s.hinted(q, hint, now);
    if s.tiering is Some {
        let t = s.tiering->0;
        if hint is KCMM_HINT_MULTI_TURN || hint is KCMM_HINT_SYSTEM_PROMPT
            || hint is KCMM_HINT_ATTENTION_SINK || hint is KCMM_HINT_HEAVY_HITTER {
            assert(after == s.with_active(q, true).with_accessed(blocks, now));
            assert(after.tiering->0.scores == ffi::accessed(t.kind, t.scores, blocks, now));
        } else {
            assert(after.tiering == s.tiering);
        }
        if t.kind == PolicyKind::Lru {
            assert forall|k: u64| has_key(blocks, k) implies #[trigger] ffi::accessed(
                PolicyKind::Lru,
                t.scores,
                blocks,
                now,
            ).contains_key(k) && ffi::accessed(PolicyKind::Lru, t.scores, blocks, now)[k] == now by {
                law_lru_remembers_last_access(t.scores, blocks, now, k);
            }
        }
    }
}

/// A policy answers to its own name, in capitals or not, and to no other; a
/// configured name stands for the policy so named, and any other for
/// least-recently-used.
pub proof fn law_policies_by_name(name: Seq<char>)
    ensures
        ffi::policy_choice(name) == Some(PolicyKind::Lru) <==> text::lower(name) == "lru"@,
        ffi::policy_choice(name) == Some(PolicyKind::Lfu) <==> text::lower(name) == "lfu"@,
        ffi::policy_choice(name) == Some(PolicyKind::Fifo) <==> text::lower(name) == "fifo"@,
        ffi::policy_name(PolicyKind::Lru) == "lru"@,
        ffi::policy_name(PolicyKind::Lfu) == "lfu"@,
        ffi::policy_name(PolicyKind::Fifo) == "fifo"@,
        tiering::policy_named(name) == PolicyKind::Lfu <==> name == "lfu"@,
        tiering::policy_named(name) == PolicyKind::Fifo <==> name == "fifo"@,
{
    reveal_strlit("lru");
    reveal_strlit("lfu");
    reveal_strlit("fifo");
    assert("lru"@[1] != "lfu"@[1]);
    assert("lru"@[0] != "fifo"@[0]);
    assert("lfu"@[0] != "fifo"@[0]);
}

/// A setting that is zero stands for the default, and any other for itself.
pub proof fn law_zero_means_default(value: int, default: int)
    ensures
        ffi::or_default(0, default) == default,
        value != 0 ==> ffi::or_default(value, default) == value,
{
}

/// The buckets split the latencies at 100, 250 and 500 microseconds, at 1,
/// 2.5, 5 and 10 milliseconds; the last takes the largest value alone.
pub proof fn law_buckets_split_latencies(x: u64)
    ensures
        metrics::is_bucket_of(x, 0) <==> x < 100,
        metrics::is_bucket_of(x, 1) <==> 100 <= x < 250,
        metrics::is_bucket_of(x, 2) <==> 250 <= x < 500,
        metrics::is_bucket_of(x, 3) <==> 500 <= x < 1_000,
        metrics::is_bucket_of(x, 4) <==> 1_000 <= x < 2_500,
        metrics::is_bucket_of(x, 5) <==> 2_500 <= x < 5_000,
        metrics::is_bucket_of(x, 6) <==> 5_000 <= x < 10_000,
        metrics::is_bucket_of(x, 7) <==> 10_000 <= x < u64::MAX,
        metrics::is_bucket_of(x, 8) <==> x == u64::MAX,
{
    assert(metrics::bound(0) == 100 && metrics::bound(1) == 250 && metrics::bound(2) == 500);
    assert(metrics::bound(3) == 1_000 && metrics::bound(4) == 2_500 && metrics::bound(5) == 5_000);
    assert(metrics::bound(6) == 10_000 && metrics::bound(7) == u64::MAX);
}

/// A bucket counts the samples that belong to it.
pub proof fn law_buckets_count_samples(samples: Seq<u64>, i: int)
    requires
        0 <= i < 9,
    ensures
        HistogramView::of(samples).buckets[i] == samples.filter(
            |x: u64| metrics::is_bucket_of(x, i),
        ).len(),
    decreases samples.len(),
{
    reveal(Seq::filter);
    let h = HistogramView::of(samples);
    if samples.len() > 0 {
        let rest = samples.drop_last();
        law_buckets_count_samples(rest, i);
        assert(h == HistogramView::of(rest).recorded(samples.last()));
    }
}

/// Each latency adds itself to the sum.
pub proof fn law_latencies_add_up(samples: Seq<u64>, x: u64)
    ensures
        metrics::latency_sum(samples.push(x)) == metrics::latency_sum(samples) + x,
        metrics::latency_sum(Seq::empty()) == 0,
{
    assert(samples.push(x).drop_last() =~= samples);
}

} // verus!
