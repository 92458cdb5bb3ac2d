use vstd::multiset::Multiset;
use vstd::prelude::*;

use crate::batch::admission::{AdmitAction, AdmitPhase, AdmitSetup, Admission};
use crate::batch::continuous_scheduler::{RunningView, SchedView, SwappedView, WaitingView};
use crate::batch::static_batch::RequestView;
use crate::cache::swap::EvictedSeqData;
use crate::kcmm::pool_model::PoolView;

verus! {

/// Running requests with their tickets.
pub open spec fn running_requests(s: Seq<RunningView>) -> Seq<(u64, RequestView)> {
    s.map_values(|r: RunningView| (r.ticket, r.req))
}

/// Waiting requests with their tickets.
pub open spec fn waiting_requests(s: Seq<WaitingView>) -> Seq<(u64, RequestView)> {
    s.map_values(|w: WaitingView| (w.ticket, w.req))
}

/// Swapped requests with their tickets.
pub open spec fn swapped_requests(s: Seq<SwappedView>) -> Seq<(u64, RequestView)> {
    s.map_values(|w: SwappedView| (w.ticket, w.request))
}

impl SchedView {
    /// All requests, wherever they are, with their tickets.
    pub open spec fn requests(self) -> Multiset<(u64, RequestView)> {
        running_requests(self.running).to_multiset().add(
            waiting_requests(self.waiting).to_multiset(),
        ).add(swapped_requests(self.swapped).to_multiset())
    }
}

/// Admitting a request loses none and doubles none.
proof fn lemma_admitted_requests(s: SchedView, i: int, seq_idx: usize, blocks: usize)
    requires
        0 <= i < s.waiting.len(),
    ensures
        s.admitted(i, seq_idx, blocks).requests() == s.requests(),
{
    broadcast use vstd::multiset::group_multiset_axioms;

    let t = s.admitted(i, seq_idx, blocks);
    let e = waiting_requests(s.waiting)[i];
    assert(running_requests(t.running) =~= running_requests(s.running).push(e));
    assert(waiting_requests(t.waiting) =~= waiting_requests(s.waiting).remove(i));
    vstd::seq_lib::to_multiset_build(running_requests(s.running), e);
    vstd::seq_lib::to_multiset_remove(waiting_requests(s.waiting), i);
    waiting_requests(s.waiting).to_multiset_ensures();
    assert(waiting_requests(s.waiting).contains(e));
    assert(t.requests() =~= s.requests());
}

/// Taking a request off the GPU loses none and doubles none.
proof fn lemma_preempted_requests(
    s: SchedView,
    v: int,
    kv_data: EvictedSeqData,
    seq_idx: usize,
)
    requires
        0 <= v < s.running.len(),
    ensures
        s.preempted(v, kv_data, seq_idx).requests() == s.requests(),
{
    broadcast use vstd::multiset::group_multiset_axioms;

    let t = s.preempted(v, kv_data, seq_idx);
    let e = running_requests(s.running)[v];
    assert(running_requests(t.running) =~= running_requests(s.running).remove(v));
    assert(swapped_requests(t.swapped) =~= swapped_requests(s.swapped).push(e));
    vstd::seq_lib::to_multiset_build(swapped_requests(s.swapped), e);
    vstd::seq_lib::to_multiset_remove(running_requests(s.running), v);
    running_requests(s.running).to_multiset_ensures();
    assert(running_requests(s.running).contains(e));
    assert(t.requests() =~= s.requests());
}

/// A point of an admission round: the requests, the round, and what the
/// caller was told to do.
pub struct RoundPoint {
    pub sched: SchedView,
    pub adm: Admission,
    pub action: AdmitAction,
}

/// What the caller reports, with the cache before and after.
pub enum AdmitReport {
    Granted { pool: PoolView, grants: Seq<Seq<u64>>, clock: u64, pool2: PoolView },
    Evicted { pool: PoolView, count: usize },
    EvictionFailed { pool: PoolView },
    Swapped { pool: PoolView, kv_data: EvictedSeqData, pool2: PoolView },
    SwapFailed { pool: PoolView },
}

/// The round goes on from `a` to `b` when the caller reports.
pub open spec fn goes_on(
    setup: AdmitSetup,
    a: RoundPoint,
    report: AdmitReport,
    b: RoundPoint,
) -> bool {
    match report {
        AdmitReport::Granted { pool, grants, clock, pool2 } => {
            &&& a.adm.phase == AdmitPhase::Allocating
            &&& a.adm.next < a.sched.waiting.len()
            &&& a.sched.granted(
                setup,
                pool,
                grants,
                clock,
                a.adm,
                b.sched,
                pool2,
                b.adm,
                b.action,
            )
        },
        AdmitReport::Evicted { pool, count } => {
            &&& setup.kcmm
            &&& a.adm.phase matches AdmitPhase::Evicting { victim, .. }
            &&& victim < a.sched.running.len()
            &&& a.sched.evicted(setup, pool, a.adm, count, b.sched, b.adm, b.action)
        },
        AdmitReport::EvictionFailed { pool } => {
            &&& setup.kcmm
            &&& b.sched == a.sched
            &&& a.sched.evicts(pool, setup.max_batch, a.adm, b.adm, b.action)
        },
        AdmitReport::Swapped { pool, kv_data, pool2 } => {
            &&& a.adm.phase matches AdmitPhase::Swapping { victim }
            &&& victim < a.sched.running.len()
            &&& a.sched.swapped_out(
                setup,
                pool,
                a.adm,
                kv_data,
                b.sched,
                pool2,
                b.adm,
                b.action,
            )
        },
        AdmitReport::SwapFailed { pool } => {
            &&& a.adm.phase is Swapping
            &&& b.sched == a.sched
            &&& a.sched.proceeds_unless_full(
                pool,
                setup.max_batch,
                a.adm.next + 1,
                b.adm,
                b.action,
            )
        },
    }
}

/// A round, from its beginning, as far as it has come.
pub open spec fn is_round(
    setup: AdmitSetup,
    pool: PoolView,
    points: Seq<RoundPoint>,
    reports: Seq<AdmitReport>,
) -> bool {
    &&& points.len() == reports.len() + 1
    &&& points[0].sched.proceeds(pool, setup.max_batch, 0, points[0].adm, points[0].action)
    &&& forall|k: int|
        0 <= k < reports.len() ==> goes_on(setup, points[k], #[trigger] reports[k], points[k + 1])
}

/// The list `left` holds items of `all`, in their order.
pub open spec fn in_order<A>(left: Seq<A>, all: Seq<A>, places: Seq<int>) -> bool {
    &&& places.len() == left.len()
    &&& forall|j: int| 0 <= j < places.len() ==> 0 <= #[trigger] places[j] < all.len()
    &&& forall|j: int| 0 <= j < places.len() ==> left[j] == all[#[trigger] places[j]]
    &&& forall|i: int, j: int|
        0 <= i < j < places.len() ==> #[trigger] places[i] < #[trigger] places[j]
}

/// Items can be found in a list in their order.
pub open spec fn keeps_order<A>(left: Seq<A>, all: Seq<A>) -> bool {
    exists|places: Seq<int>| in_order(left, all, places)
}

/// What is left of a list after one more item was taken is still in order.
proof fn lemma_remove_keeps_order<A>(left: Seq<A>, all: Seq<A>, i: int)
    requires
        keeps_order(left, all),
        0 <= i < left.len(),
    ensures
        keeps_order(left.remove(i), all),
{
    let places = choose|places: Seq<int>| in_order(left, all, places);
    let now = places.remove(i);
    assert forall|j: int| 0 <= j < now.len() implies 0 <= #[trigger] now[j] < all.len()
        && left.remove(i)[j] == all[now[j]] by {
        if j < i {
            assert(now[j] == places[j]);
        } else {
            assert(now[j] == places[j + 1]);
        }
    }
    assert forall|a: int, b: int| 0 <= a < b < now.len() implies #[trigger] now[a]
        < #[trigger] now[b] by {
        let x = if a < i {
            a
        } else {
            a + 1
        };
        let y = if b < i {
            b
        } else {
            b + 1
        };
        assert(places[x] < places[y]);
    }
    assert(in_order(left.remove(i), all, now));
}

/// What a point of a round has to do with its beginning.
pub open spec fn keeps_requests(setup: AdmitSetup, s: SchedView, t: SchedView) -> bool {
    &&& t.requests() == s.requests()
    &&& t.running.len() <= s.running.len() || t.running.len() <= setup.max_batch
    &&& keeps_order(t.waiting, s.waiting)
    &&& !setup.kcmm && setup.disable_swap ==> t.swapped == s.swapped && s.running.is_prefix_of(
        t.running,
    )
}

/// What holds at each point of a round.
spec fn round_ok(setup: AdmitSetup, s: SchedView, p: RoundPoint) -> bool {
    &&& keeps_requests(setup, s, p.sched)
    &&& p.adm.phase == AdmitPhase::Allocating ==> p.sched.running.len() < setup.max_batch
    &&& !setup.kcmm && setup.disable_swap ==> p.adm.phase is Allocating || p.adm.phase is Idle
}

/// One report keeps what holds at each point.
proof fn lemma_round_step(
    setup: AdmitSetup,
    s: SchedView,
    a: RoundPoint,
    report: AdmitReport,
    b: RoundPoint,
)
    requires
        round_ok(setup, s, a),
        goes_on(setup, a, report, b),
    ensures
        round_ok(setup, s, b),
{
    match report {
        AdmitReport::Granted { pool, grants, clock, pool2 } => {
            let i = a.adm.next as int;
            let blocks = a.sched.blocks_needed(i);
            if pool.allocated_many(blocks, grants, clock).1.len() == blocks {
                lemma_admitted_requests(
                    a.sched,
                    i,
                    pool.sequences.len() as usize,
                    blocks as usize,
                );
                lemma_remove_keeps_order(a.sched.waiting, s.waiting, i);
            }
        },
        AdmitReport::Evicted { pool, count } => {
            let v = a.adm.phase->Evicting_victim as int;
            if count >= a.adm.phase->candidates {
                lemma_preempted_requests(
                    a.sched,
                    v,
                    b.sched.swapped.last().kv_data,
                    a.sched.running[v].seq_idx,
                );
            }
        },
        AdmitReport::EvictionFailed { pool } => {},
        AdmitReport::Swapped { pool, kv_data, pool2 } => {
            let v = a.adm.phase->Swapping_victim as int;
            lemma_preempted_requests(a.sched, v, kv_data, 0);
        },
        AdmitReport::SwapFailed { pool } => {},
    }
}

/// However memory and evictions turn out, a round of admissions loses no
/// request and doubles none, does not let the batch grow beyond its size, and
/// leaves the waiting requests in their order. In a plain cache without
/// swapping, running requests stay where they are and none is swapped.
pub proof fn law_round_keeps_requests(
    setup: AdmitSetup,
    pool: PoolView,
    points: Seq<RoundPoint>,
    reports: Seq<AdmitReport>,
    k: int,
)
    requires
        is_round(setup, pool, points, reports),
        0 <= k < points.len(),
    ensures
        keeps_requests(setup, points[0].sched, points[k].sched),
{
    lemma_round(setup, pool, points, reports, k);
}

proof fn lemma_round(
    setup: AdmitSetup,
    pool: PoolView,
    points: Seq<RoundPoint>,
    reports: Seq<AdmitReport>,
    k: int,
)
    requires
        is_round(setup, pool, points, reports),
        0 <= k < points.len(),
    ensures
        round_ok(setup, points[0].sched, points[k]),
    decreases k,
{
    let s = points[0].sched;
    if k == 0 {
        let places = Seq::new(s.waiting.len(), |j: int| j);
        assert(in_order(s.waiting, s.waiting, places));
    } else {
        lemma_round(setup, pool, points, reports, k - 1);
        assert(goes_on(setup, points[k - 1], reports[k - 1], points[k]));
        lemma_round_step(setup, s, points[k - 1], reports[k - 1], points[k]);
    }
}

} // verus!
