use std::collections::HashMap;
use vstd::prelude::*;

use crate::kcmm::superblock::BlockHandle;

verus! {

broadcast use vstd::std_specs::hash::group_hash_axioms;

/// `sorted`, in ascending order of score, with `block` placed behind all
/// blocks whose score is not larger.
pub open spec fn placed(
    scores: Map<u64, u64>,
    sorted: Seq<BlockHandle>,
    block: BlockHandle,
) -> Seq<BlockHandle>
    decreases sorted.len(),
{
    if sorted.len() == 0 || scores[sorted.last().key()] <= scores[block.key()] {
        sorted.push(block)
    } else {
        placed(scores, sorted.drop_last(), block).push(sorted.last())
    }
}

/// The candidates that have a score, in ascending order of score; candidates
/// of equal score keep their order.
pub open spec fn ranking(scores: Map<u64, u64>, candidates: Seq<BlockHandle>) -> Seq<BlockHandle>
    decreases candidates.len(),
{
    if candidates.len() == 0 {
        Seq::empty()
    } else {
        let rest = ranking(scores, candidates.drop_last());
        let block = candidates.last();
        if scores.contains_key(block.key()) {
            placed(scores, rest, block)
        } else {
            rest
        }
    }
}

/// The first `count` candidates of the ranking.
pub open spec fn victims(
    scores: Map<u64, u64>,
    candidates: Seq<BlockHandle>,
    count: usize,
) -> Seq<BlockHandle> {
    let ranked = ranking(scores, candidates);
    if count < ranked.len() {
        ranked.take(count as int)
    } else {
        ranked
    }
}

/// Which block to evict first.
#[derive(Debug, Clone, Copy, PartialEq, Eq, Structural)]
pub enum PolicyKind {
    /// The block whose last access is the oldest.
    Lru,
    /// The block with the fewest accesses.
    Lfu,
    /// The block that was allocated first.
    Fifo,
}

impl PolicyKind {
    /// The score of a block that was allocated at time `now`.
    pub open spec fn score_on_allocate(self, now: u64) -> u64 {
        match self {
            PolicyKind::Lru => now,
            PolicyKind::Lfu => 1,
            PolicyKind::Fifo => now,
        }
    }

    /// The scores after `block` was accessed at time `now`.
    pub open spec fn scores_on_access(
        self,
        scores: Map<u64, u64>,
        block: BlockHandle,
        now: u64,
    ) -> Map<u64, u64> {
        match self {
            PolicyKind::Lru => scores.insert(block.key(), now),
            PolicyKind::Lfu => scores.insert(
                block.key(),
                if scores.contains_key(block.key()) {
                    (scores[block.key()] + 1) as u64
                } else {
                    1
                },
            ),
            PolicyKind::Fifo => scores,
        }
    }

    /// Whether one more access of `block` can be counted.
    pub open spec fn can_count(self, scores: Map<u64, u64>, block: BlockHandle) -> bool {
        self == PolicyKind::Lfu && scores.contains_key(block.key()) ==> scores[block.key()]
            < u64::MAX
    }
}

/// Pluggable eviction policy: selects victim blocks for eviction.
///
/// A policy keeps a score for each block it knows; the blocks with the lowest
/// scores are evicted first.
pub trait EvictionPolicy {
    /// The score of each known block, by its key.
    spec fn scores(&self) -> Map<u64, u64>;

    /// The score that a block gets when it is allocated at time `now`.
    spec fn score_on_allocate(&self, now: u64) -> u64;

    /// The scores after `block` was accessed at time `now`.
    spec fn scores_on_access(&self, block: BlockHandle, now: u64) -> Map<u64, u64>;

    /// Whether one more access of `block` can be recorded.
    spec fn can_access(&self, block: BlockHandle) -> bool;

    /// A block is first allocated into the pool.
    fn on_allocate(&mut self, block: BlockHandle, now: u64)
        ensures
            final(self).scores() == old(self).scores().insert(
                block.key(),
                old(self).score_on_allocate(now),
            ),
    ;

    /// Select up to `count` victims from the candidates, the first to evict
    /// first. Candidates without a score are passed over.
    fn select_victims(&self, candidates: &[BlockHandle], count: usize) -> (r: Vec<BlockHandle>)
        ensures
            r@ == victims(self.scores(), candidates@, count),
    ;

    /// A block is accessed.
    fn on_access(&mut self, block: BlockHandle, now: u64)
        requires
            old(self).can_access(block),
        ensures
            final(self).scores() == old(self).scores_on_access(block, now),
    ;

    /// A block is evicted.
    fn on_evict(&mut self, block: BlockHandle)
        ensures
            final(self).scores() == old(self).scores().remove(block.key()),
    ;
}

/// Placing a block behind position `p` is what `placed` says where the blocks
/// from `p` on have larger scores and the one before has not.
proof fn lemma_placed(
    scores: Map<u64, u64>,
    sorted: Seq<BlockHandle>,
    block: BlockHandle,
    p: int,
)
    requires
        0 <= p <= sorted.len(),
        p == 0 || scores[sorted[p - 1].key()] <= scores[block.key()],
        forall|j: int|
            p <= j < sorted.len() ==> scores[(#[trigger] sorted[j]).key()] > scores[block.key()],
    ensures
        placed(scores, sorted, block) == sorted.insert(p, block),
    decreases sorted.len(),
{
    if p < sorted.len() {
        let rest = sorted.drop_last();
        lemma_placed(scores, rest, block, p);
        assert(rest.insert(p, block).push(sorted.last()) =~= sorted.insert(p, block));
    } else {
        assert(sorted.push(block) =~= sorted.insert(p, block));
    }
}

/// Rank the candidates by the scores in `table` and take the first `count`.
fn lowest_scored(
    table: &HashMap<u64, u64>,
    candidates: &[BlockHandle],
    count: usize,
) -> (r: Vec<BlockHandle>)
    ensures
        r@ == victims(table@, candidates@, count),
{
    let mut sorted: Vec<BlockHandle> = Vec::new();
    let mut values: Vec<u64> = Vec::new();
    let mut i: usize = 0;
    while i < candidates.len()
        invariant
            i <= candidates@.len(),
            sorted@ == ranking(table@, candidates@.take(i as int)),
            values@.len() == sorted@.len(),
            forall|j: int|
                0 <= j < sorted@.len() ==> values@[j] == table@[(#[trigger] sorted@[j]).key()],
        decreases candidates@.len() - i,
    {
        let block: BlockHandle = candidates[i];
        proof {
            assert(candidates@.take(i + 1).drop_last() =~= candidates@.take(i as int));
        }
        if let Some(score) = table.get(&block.key()) {
            let score: u64 = *score;
            let mut p: usize = sorted.len();
            while p > 0 && values[p - 1] > score
                invariant
                    p <= sorted@.len(),
                    values@.len() == sorted@.len(),
                    score == table@[block.key()],
                    forall|j: int|
                        0 <= j < sorted@.len() ==> values@[j] == table@[(
                        #[trigger] sorted@[j]).key()],
                    forall|j: int|
                        p <= j < sorted@.len() ==> table@[(#[trigger] sorted@[j]).key()] > score,
                decreases p,
            {
                p = p - 1;
                assert(values@[p as int] == table@[sorted@[p as int].key()]);
            }
            proof {
                if p > 0 {
                    assert(values@[p - 1] == table@[sorted@[p - 1].key()]);
                }
                lemma_placed(table@, sorted@, block, p as int);
            }
            let ghost sorted0 = sorted@;
            let ghost values0 = values@;
            sorted.insert(p, block);
            values.insert(p, score);
            proof {
                assert forall|j: int| 0 <= j < sorted@.len() implies values@[j] == table@[(
                #[trigger] sorted@[j]).key()] by {
                    if j < p {
                        assert(sorted0[j] == sorted@[j] && values0[j] == values@[j]);
                    } else if j > p {
                        assert(sorted0[j - 1] == sorted@[j] && values0[j - 1] == values@[j]);
                    }
                }
            }
        }
        i = i + 1;
    }
    proof {
        assert(candidates@.take(candidates@.len() as int) =~= candidates@);
    }
    if count < sorted.len() {
        sorted.truncate(count);
    }
    sorted
}

/// Least-recently-used: evicts the blocks whose last access is the oldest.
#[derive(Debug)]
pub struct LruPolicy {
    /// Time of the last access of each block, by its key.
    pub access_times: HashMap<u64, u64>,
}

impl LruPolicy {
    /// A policy that knows no block.
    pub fn new() -> (r: Self)
        ensures
            r.scores() == Map::<u64, u64>::empty(),
    {
        LruPolicy { access_times: HashMap::new() }
    }
}

impl EvictionPolicy for LruPolicy {
    open spec fn scores(&self) -> Map<u64, u64> {
        self.access_times@
    }

    open spec fn score_on_allocate(&self, now: u64) -> u64 {
        PolicyKind::Lru.score_on_allocate(now)
    }

    open spec fn scores_on_access(&self, block: BlockHandle, now: u64) -> Map<u64, u64> {
        PolicyKind::Lru.scores_on_access(self.scores(), block, now)
    }

    open spec fn can_access(&self, block: BlockHandle) -> bool {
        PolicyKind::Lru.can_count(self.scores(), block)
    }

    fn on_allocate(&mut self, block: BlockHandle, now: u64) {
        self.access_times.insert(block.key(), now);
    }

    fn select_victims(&self, candidates: &[BlockHandle], count: usize) -> (r: Vec<BlockHandle>) {
        lowest_scored(&self.access_times, candidates, count)
    }

    fn on_access(&mut self, block: BlockHandle, now: u64) {
        self.access_times.insert(block.key(), now);
    }

    fn on_evict(&mut self, block: BlockHandle) {
        self.access_times.remove(&block.key());
    }
}

/// Least-frequently-used: evicts the blocks with the fewest accesses.
#[derive(Debug)]
pub struct LfuPolicy {
    /// Number of accesses of each block, by its key.
    pub access_counts: HashMap<u64, u64>,
}

impl LfuPolicy {
    /// A policy that knows no block.
    pub fn new() -> (r: Self)
        ensures
            r.scores() == Map::<u64, u64>::empty(),
    {
        LfuPolicy { access_counts: HashMap::new() }
    }
}

impl EvictionPolicy for LfuPolicy {
    open spec fn scores(&self) -> Map<u64, u64> {
        self.access_counts@
    }

    open spec fn score_on_allocate(&self, now: u64) -> u64 {
        PolicyKind::Lfu.score_on_allocate(now)
    }

    open spec fn scores_on_access(&self, block: BlockHandle, now: u64) -> Map<u64, u64> {
        PolicyKind::Lfu.scores_on_access(self.scores(), block, now)
    }

    open spec fn can_access(&self, block: BlockHandle) -> bool {
        PolicyKind::Lfu.can_count(self.scores(), block)
    }

    fn on_allocate(&mut self, block: BlockHandle, now: u64) {
        self.access_counts.insert(block.key(), 1);
    }

    fn select_victims(&self, candidates: &[BlockHandle], count: usize) -> (r: Vec<BlockHandle>) {
        lowest_scored(&self.access_counts, candidates, count)
    }

    fn on_access(&mut self, block: BlockHandle, now: u64) {
        let count: u64 = match self.access_counts.get(&block.key()) {
            Some(c) => *c + 1,
            None => 1,
        };
        self.access_counts.insert(block.key(), count);
    }

    fn on_evict(&mut self, block: BlockHandle) {
        self.access_counts.remove(&block.key());
    }
}

/// First-in first-out: evicts the blocks that were allocated first. Accesses
/// do not matter.
#[derive(Debug)]
pub struct FifoPolicy {
    /// Time of the allocation of each block, by its key.
    pub alloc_times: HashMap<u64, u64>,
}

impl FifoPolicy {
    /// A policy that knows no block.
    pub fn new() -> (r: Self)
        ensures
            r.scores() == Map::<u64, u64>::empty(),
    {
        FifoPolicy { alloc_times: HashMap::new() }
    }
}

impl EvictionPolicy for FifoPolicy {
    open spec fn scores(&self) -> Map<u64, u64> {
        self.alloc_times@
    }

    open spec fn score_on_allocate(&self, now: u64) -> u64 {
        PolicyKind::Fifo.score_on_allocate(now)
    }

    open spec fn scores_on_access(&self, block: BlockHandle, now: u64) -> Map<u64, u64> {
        PolicyKind::Fifo.scores_on_access(self.scores(), block, now)
    }

    open spec fn can_access(&self, block: BlockHandle) -> bool {
        PolicyKind::Fifo.can_count(self.scores(), block)
    }

    fn on_allocate(&mut self, block: BlockHandle, now: u64) {
        self.alloc_times.insert(block.key(), now);
    }

    fn select_victims(&self, candidates: &[BlockHandle], count: usize) -> (r: Vec<BlockHandle>) {
        lowest_scored(&self.alloc_times, candidates, count)
    }

    fn on_access(&mut self, block: BlockHandle, now: u64) {
    }

    fn on_evict(&mut self, block: BlockHandle) {
        self.alloc_times.remove(&block.key());
    }
}

/// A policy chosen at run time.
#[derive(Debug)]
pub enum Policy {
    Lru(LruPolicy),
    Lfu(LfuPolicy),
    Fifo(FifoPolicy),
}

impl Policy {
    pub open spec fn spec_kind(&self) -> PolicyKind {
        match self {
            Policy::Lru(_) => PolicyKind::Lru,
            Policy::Lfu(_) => PolicyKind::Lfu,
            Policy::Fifo(_) => PolicyKind::Fifo,
        }
    }

    /// The score of each known block, by its key.
    pub open spec fn scores(&self) -> Map<u64, u64> {
        match self {
            Policy::Lru(p) => p.scores(),
            Policy::Lfu(p) => p.scores(),
            Policy::Fifo(p) => p.scores(),
        }
    }

    /// An empty policy of the given kind.
    pub fn of_kind(kind: PolicyKind) -> (r: Self)
        ensures
            r.kind() == kind,
            r.scores() == Map::<u64, u64>::empty(),
    {
        match kind {
            PolicyKind::Lru => Policy::Lru(LruPolicy::new()),
            PolicyKind::Lfu => Policy::Lfu(LfuPolicy::new()),
            PolicyKind::Fifo => Policy::Fifo(FifoPolicy::new()),
        }
    }

    /// Which policy this is.
    #[verifier::when_used_as_spec(spec_kind)]
    pub fn kind(&self) -> (r: PolicyKind)
        ensures
            r == self.spec_kind(),
    {
        match self {
            Policy::Lru(_) => PolicyKind::Lru,
            Policy::Lfu(_) => PolicyKind::Lfu,
            Policy::Fifo(_) => PolicyKind::Fifo,
        }
    }

    /// A block is first allocated into the pool.
    pub fn on_allocate(&mut self, block: BlockHandle, now: u64)
        ensures
            final(self).kind() == old(self).kind(),
            final(self).scores() == old(self).scores().insert(
                block.key(),
                old(self).kind().score_on_allocate(now),
            ),
    {
        match self {
            Policy::Lru(p) => p.on_allocate(block, now),
            Policy::Lfu(p) => p.on_allocate(block, now),
            Policy::Fifo(p) => p.on_allocate(block, now),
        }
    }

    /// Select up to `count` victims from the candidates.
    pub fn select_victims(&self, candidates: &[BlockHandle], count: usize) -> (r: Vec<BlockHandle>)
        ensures
            r@ == victims(self.scores(), candidates@, count),
    {
        match self {
            Policy::Lru(p) => p.select_victims(candidates, count),
            Policy::Lfu(p) => p.select_victims(candidates, count),
            Policy::Fifo(p) => p.select_victims(candidates, count),
        }
    }

    /// A block is accessed.
    pub fn on_access(&mut self, block: BlockHandle, now: u64)
        requires
            old(self).kind().can_count(old(self).scores(), block),
        ensures
            final(self).kind() == old(self).kind(),
            final(self).scores() == old(self).kind().scores_on_access(
                old(self).scores(),
                block,
                now,
            ),
    {
        match self {
            Policy::Lru(p) => p.on_access(block, now),
            Policy::Lfu(p) => p.on_access(block, now),
            Policy::Fifo(p) => p.on_access(block, now),
        }
    }

    /// A block is evicted.
    pub fn on_evict(&mut self, block: BlockHandle)
        ensures
            final(self).kind() == old(self).kind(),
            final(self).scores() == old(self).scores().remove(block.key()),
    {
        match self {
            Policy::Lru(p) => p.on_evict(block),
            Policy::Lfu(p) => p.on_evict(block),
            Policy::Fifo(p) => p.on_evict(block),
        }
    }
}

/// Whether the blocks stand in ascending order of score.
pub open spec fn ascending(scores: Map<u64, u64>, blocks: Seq<BlockHandle>) -> bool {
    forall|i: int, j: int|
        0 <= i <= j < blocks.len() ==> scores[(#[trigger] blocks[i]).key()] <= scores[(
        #[trigger] blocks[j]).key()]
}

/// Placing a block keeps the order and adds nothing but the block.
proof fn lemma_placed_ascending(
    scores: Map<u64, u64>,
    sorted: Seq<BlockHandle>,
    block: BlockHandle,
)
    requires
        ascending(scores, sorted),
    ensures
        ascending(scores, placed(scores, sorted, block)),
        placed(scores, sorted, block).to_multiset() == sorted.to_multiset().insert(block),
        forall|i: int|
            0 <= i < placed(scores, sorted, block).len() ==> {
                ||| #[trigger] placed(scores, sorted, block)[i] == block
                ||| exists|j: int| 0 <= j < sorted.len() && sorted[j] == placed(scores, sorted, block)[i]
            },
    decreases sorted.len(),
{
    broadcast use vstd::seq_lib::group_to_multiset_ensures;

    if sorted.len() == 0 || scores[sorted.last().key()] <= scores[block.key()] {
        let r = sorted.push(block);
        assert forall|i: int| 0 <= i < r.len() implies (#[trigger] r[i] == block || exists|j: int|
            0 <= j < sorted.len() && sorted[j] == r[i]) by {
            if i < sorted.len() {
                assert(sorted[i] == r[i]);
            }
        }
    } else {
        let rest = sorted.drop_last();
        let inner = placed(scores, rest, block);
        let r = inner.push(sorted.last());
        lemma_placed_ascending(scores, rest, block);
        assert(rest.push(sorted.last()) =~= sorted);
        assert forall|i: int, j: int| 0 <= i <= j < r.len() implies scores[(
        #[trigger] r[i]).key()] <= scores[(#[trigger] r[j]).key()] by {
            if j < inner.len() {
                assert(inner[i] == r[i] && inner[j] == r[j]);
            } else if i < inner.len() {
                assert(inner[i] == r[i]);
                if inner[i] != block {
                    let k = choose|k: int| 0 <= k < rest.len() && rest[k] == inner[i];
                    assert(sorted[k] == rest[k]);
                }
            }
        }
        assert forall|i: int| 0 <= i < r.len() implies (#[trigger] r[i] == block || exists|j: int|
            0 <= j < sorted.len() && sorted[j] == r[i]) by {
            if i < inner.len() {
                assert(inner[i] == r[i]);
                if inner[i] != block {
                    let k = choose|k: int| 0 <= k < rest.len() && rest[k] == inner[i];
                    assert(sorted[k] == r[i]);
                }
            } else {
                assert(sorted[sorted.len() - 1] == r[i]);
            }
        }
        assert(r.to_multiset() == sorted.to_multiset().insert(block)) by {
            assert(inner.to_multiset() == rest.to_multiset().insert(block));
            assert(r.to_multiset() == inner.to_multiset().insert(sorted.last()));
            assert(sorted.to_multiset() == rest.to_multiset().insert(sorted.last()));
            assert(rest.to_multiset().insert(block).insert(sorted.last())
                =~= rest.to_multiset().insert(sorted.last()).insert(block));
        }
    }
}

/// The ranking holds exactly the candidates that have a score, each as often
/// as it was offered, in ascending order of score.
pub proof fn law_ranking_sorts(scores: Map<u64, u64>, candidates: Seq<BlockHandle>)
    ensures
        ascending(scores, ranking(scores, candidates)),
        ranking(scores, candidates).to_multiset() == candidates.filter(
            |b: BlockHandle| scores.contains_key(b.key()),
        ).to_multiset(),
    decreases candidates.len(),
{
    broadcast use vstd::seq_lib::group_to_multiset_ensures;

    let known = |b: BlockHandle| scores.contains_key(b.key());
    reveal(Seq::filter);
    if candidates.len() > 0 {
        let rest = candidates.drop_last();
        law_ranking_sorts(scores, rest);
        if known(candidates.last()) {
            lemma_placed_ascending(scores, ranking(scores, rest), candidates.last());
        }
    }
}

/// No victim has a higher score than a block that the ranking leaves in
/// place, and there are as many victims as asked for, or all that have a score.
pub proof fn law_victims_are_lowest(
    scores: Map<u64, u64>,
    candidates: Seq<BlockHandle>,
    count: usize,
)
    ensures
        ({
            let ranked = ranking(scores, candidates);
            let chosen = victims(scores, candidates, count);
            &&& chosen.len() == if count < ranked.len() { count as nat } else { ranked.len() }
            &&& forall|i: int| 0 <= i < chosen.len() ==> #[trigger] chosen[i] == ranked[i]
            &&& forall|i: int, j: int|
                0 <= i < chosen.len() <= j < ranked.len() ==> scores[(
                #[trigger] chosen[i]).key()] <= scores[(#[trigger] ranked[j]).key()]
        }),
{
    law_ranking_sorts(scores, candidates);
}

/// Placing a block that is not yet there keeps the blocks distinct.
proof fn lemma_placed_distinct(
    scores: Map<u64, u64>,
    sorted: Seq<BlockHandle>,
    block: BlockHandle,
)
    requires
        sorted.no_duplicates(),
        !sorted.contains(block),
    ensures
        placed(scores, sorted, block).no_duplicates(),
        forall|b: BlockHandle| #[trigger]
            placed(scores, sorted, block).contains(b) <==> b == block || sorted.contains(b),
    decreases sorted.len(),
{
    let r = placed(scores, sorted, block);
    if sorted.len() == 0 || scores[sorted.last().key()] <= scores[block.key()] {
        assert forall|b: BlockHandle| #[trigger] r.contains(b) <==> b == block || sorted.contains(
            b,
        ) by {
            if sorted.contains(b) {
                let k = choose|k: int| 0 <= k < sorted.len() && sorted[k] == b;
                assert(r[k] == b);
            }
            assert(r[sorted.len() as int] == block);
            if r.contains(b) {
                let k = choose|k: int| 0 <= k < r.len() && r[k] == b;
                assert(k < sorted.len() ==> sorted[k] == b);
            }
        }
    } else {
        let rest = sorted.drop_last();
        let last = sorted[sorted.len() - 1];
        assert(!rest.contains(block)) by {
            if rest.contains(block) {
                let k = choose|k: int| 0 <= k < rest.len() && rest[k] == block;
                assert(sorted[k] == block);
            }
        }
        assert(!rest.contains(last)) by {
            if rest.contains(last) {
                let k = choose|k: int| 0 <= k < rest.len() && rest[k] == last;
                assert(sorted[k] == sorted[sorted.len() - 1]);
            }
        }
        lemma_placed_distinct(scores, rest, block);
        let inner = placed(scores, rest, block);
        assert(sorted.contains(last));
        assert(!inner.contains(last));
        assert forall|b: BlockHandle| #[trigger] r.contains(b) <==> b == block || sorted.contains(
            b,
        ) by {
            assert(inner.contains(b) <==> b == block || rest.contains(b));
            if r.contains(b) {
                let k = choose|k: int| 0 <= k < r.len() && r[k] == b;
                assert(k < inner.len() ==> inner[k] == b);
                if rest.contains(b) {
                    let m = choose|m: int| 0 <= m < rest.len() && rest[m] == b;
                    assert(sorted[m] == b);
                }
            }
            if inner.contains(b) {
                let k = choose|k: int| 0 <= k < inner.len() && inner[k] == b;
                assert(r[k] == b);
            }
            if sorted.contains(b) {
                let k = choose|k: int| 0 <= k < sorted.len() && sorted[k] == b;
                assert(k < rest.len() ==> rest[k] == b);
            }
            assert(r[inner.len() as int] == last);
        }
        assert forall|i: int, j: int|
            0 <= i < r.len() && 0 <= j < r.len() && i != j implies r[i] != r[j] by {
            if i < inner.len() {
                assert(inner.contains(inner[i]));
            }
            if j < inner.len() {
                assert(inner.contains(inner[j]));
            }
        }
    }
}

/// A ranking of distinct candidates holds each at most once.
proof fn lemma_ranking_distinct(scores: Map<u64, u64>, candidates: Seq<BlockHandle>)
    requires
        candidates.no_duplicates(),
    ensures
        ranking(scores, candidates).no_duplicates(),
        forall|b: BlockHandle| #[trigger]
            ranking(scores, candidates).contains(b) ==> candidates.contains(b)
                && scores.contains_key(b.key()),
    decreases candidates.len(),
{
    if candidates.len() > 0 {
        let rest = candidates.drop_last();
        let block = candidates[candidates.len() - 1];
        lemma_ranking_distinct(scores, rest);
        let sorted = ranking(scores, rest);
        assert forall|b: BlockHandle| rest.contains(b) implies #[trigger] candidates.contains(b)
            && b != block by {
            let k = choose|k: int| 0 <= k < rest.len() && rest[k] == b;
            assert(candidates[k] == b);
        }
        assert(candidates.contains(block));
        if scores.contains_key(block.key()) {
            lemma_placed_distinct(scores, sorted, block);
        }
    }
}

/// Of distinct candidates, distinct ones are chosen: each has a score, and
/// there are no more than asked for.
pub proof fn law_victims_are_candidates(
    scores: Map<u64, u64>,
    candidates: Seq<BlockHandle>,
    count: usize,
)
    requires
        candidates.no_duplicates(),
    ensures
        ({
            let chosen = victims(scores, candidates, count);
            &&& chosen.len() <= count
            &&& chosen.no_duplicates()
            &&& forall|i: int|
                0 <= i < chosen.len() ==> candidates.contains(#[trigger] chosen[i])
                    && scores.contains_key(chosen[i].key())
        }),
{
    lemma_ranking_distinct(scores, candidates);
    let ranked = ranking(scores, candidates);
    let chosen = victims(scores, candidates, count);
    assert forall|i: int| 0 <= i < chosen.len() implies candidates.contains(#[trigger] chosen[i])
        && scores.contains_key(chosen[i].key()) by {
        assert(ranked[i] == chosen[i]);
        assert(ranked.contains(ranked[i]));
    }
}

/// Under first-in first-out an access changes no ranking.
pub proof fn law_fifo_ignores_access(
    scores: Map<u64, u64>,
    candidates: Seq<BlockHandle>,
    accessed: BlockHandle,
    now: u64,
    count: usize,
)
    ensures
        victims(
            PolicyKind::Fifo.scores_on_access(scores, accessed, now),
            candidates,
            count,
        ) == victims(scores, candidates, count),
{
}

/// A block whose access is the most recent one is the last of the ranking.
pub proof fn law_lru_spares_most_recent(
    scores: Map<u64, u64>,
    candidates: Seq<BlockHandle>,
    accessed: BlockHandle,
    now: u64,
)
    requires
        candidates.contains(accessed),
        forall|b: BlockHandle|
            candidates.contains(b) && scores.contains_key(#[trigger] b.key()) ==> scores[b.key()]
                < now,
    ensures
        ({
            let after = PolicyKind::Lru.scores_on_access(scores, accessed, now);
            let ranked = ranking(after, candidates);
            ranked.len() > 0 && ranked.last() == accessed
        }),
{
    let after = PolicyKind::Lru.scores_on_access(scores, accessed, now);
    let ranked = ranking(after, candidates);
    let known = |b: BlockHandle| after.contains_key(b.key());
    law_ranking_sorts(after, candidates);
    let at = choose|i: int| 0 <= i < candidates.len() && candidates[i] == accessed;
    candidates.lemma_filter_contains(known, at);
    ranked.to_multiset_ensures();
    candidates.filter(known).to_multiset_ensures();
    assert(candidates.filter(known).contains(accessed));
    assert(ranked.to_multiset().contains(accessed));
    assert(ranked.contains(accessed));
    let k = choose|k: int| 0 <= k < ranked.len() && ranked[k] == accessed;
    let last = ranked.last();
    assert(after[ranked[k].key()] <= after[ranked[ranked.len() - 1].key()]);
    assert(ranked.contains(last));
    assert(ranked.to_multiset().contains(last));
    assert(candidates.filter(known).contains(last));
    candidates.lemma_filter_contains_rev(known, last);
    let f = choose|i: int|
        0 <= i < candidates.filter(known).len() && candidates.filter(known)[i] == last;
    candidates.lemma_filter_pred(known, f);
    BlockHandle::law_key_injective(last, accessed);
}

} // verus!
