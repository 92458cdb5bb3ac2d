use vstd::multiset::Multiset;
use vstd::prelude::*;

use crate::batch::completion;
use crate::batch::continuous_scheduler::{
    CompletedView, RequestState, RunningView, SchedView, SwappedView, WaitingView,
};
use crate::cache::swap::EvictedSeqData;
use crate::kcmm::pool_model::PoolView;

verus! {

/// The tickets of running requests.
pub open spec fn running_tickets(s: Seq<RunningView>) -> Seq<u64> {
    s.map_values(|r: RunningView| r.ticket)
}

/// The tickets of waiting requests.
pub open spec fn waiting_tickets(s: Seq<WaitingView>) -> Seq<u64> {
    s.map_values(|w: WaitingView| w.ticket)
}

/// The tickets of swapped requests.
pub open spec fn swapped_tickets(s: Seq<SwappedView>) -> Seq<u64> {
    s.map_values(|w: SwappedView| w.ticket)
}

/// The tickets of responses.
pub open spec fn response_tickets(s: Seq<CompletedView>) -> Seq<u64> {
    s.map_values(|c: CompletedView| c.ticket)
}

impl SchedView {
    /// The tickets of all requests that await a response.
    pub open spec fn tickets(self) -> Multiset<u64> {
        running_tickets(self.running).to_multiset().add(
            waiting_tickets(self.waiting).to_multiset(),
        ).add(swapped_tickets(self.swapped).to_multiset())
    }

    /// Every request has a prompt token for each prefill step ahead of it.
    pub open spec fn prompts_ok(self) -> bool {
        &&& forall|i: int| 0 <= i < self.running.len() ==> (#[trigger] self.running[i]).ok()
        &&& forall|i: int|
            0 <= i < self.waiting.len() ==> (
            #[trigger] self.waiting[i]).req.prompt_tokens.len() > 0
        &&& forall|i: int|
            0 <= i < self.swapped.len() ==> ((#[trigger] self.swapped[i]).state matches
                RequestState::Prefill { prompt_pos } ==> prompt_pos
                < self.swapped[i].request.prompt_tokens.len())
    }
}

/// Admitting a request loses none and adds none.
pub proof fn law_admission_keeps_requests(s: SchedView, i: int, seq_idx: usize, blocks: usize)
    requires
        0 <= i < s.waiting.len(),
    ensures
        s.admitted(i, seq_idx, blocks).tickets() == s.tickets(),
        s.prompts_ok() ==> s.admitted(i, seq_idx, blocks).prompts_ok(),
{
    broadcast use vstd::multiset::group_multiset_axioms;

    let t = s.admitted(i, seq_idx, blocks);
    let ticket = s.waiting[i].ticket;
    assert(running_tickets(t.running) =~= running_tickets(s.running).push(ticket));
    assert(waiting_tickets(t.waiting) =~= waiting_tickets(s.waiting).remove(i));
    vstd::seq_lib::to_multiset_build(running_tickets(s.running), ticket);
    vstd::seq_lib::to_multiset_remove(waiting_tickets(s.waiting), i);
    waiting_tickets(s.waiting).to_multiset_ensures();
    assert(waiting_tickets(s.waiting).contains(ticket)) by {
        assert(waiting_tickets(s.waiting)[i] == ticket);
    }
    assert(t.tickets() =~= s.tickets());
}

/// Taking a request off the GPU loses none and adds none.
pub proof fn law_preemption_keeps_requests(
    s: SchedView,
    v: int,
    kv_data: EvictedSeqData,
    seq_idx: usize,
)
    requires
        0 <= v < s.running.len(),
    ensures
        s.preempted(v, kv_data, seq_idx).tickets() == s.tickets(),
        s.prompts_ok() ==> s.preempted(v, kv_data, seq_idx).prompts_ok(),
{
    broadcast use vstd::multiset::group_multiset_axioms;

    let t = s.preempted(v, kv_data, seq_idx);
    let ticket = s.running[v].ticket;
    assert(running_tickets(t.running) =~= running_tickets(s.running).remove(v));
    assert(swapped_tickets(t.swapped) =~= swapped_tickets(s.swapped).push(ticket));
    vstd::seq_lib::to_multiset_build(swapped_tickets(s.swapped), ticket);
    vstd::seq_lib::to_multiset_remove(running_tickets(s.running), v);
    running_tickets(s.running).to_multiset_ensures();
    assert(running_tickets(s.running).contains(ticket)) by {
        assert(running_tickets(s.running)[v] == ticket);
    }
    assert(t.tickets() =~= s.tickets());
}

/// Bringing a request back loses none and adds none, and never exceeds the
/// batch where it was asked for.
pub proof fn law_restoration_keeps_requests(s: SchedView, seq_idx: usize)
    requires
        s.swapped.len() > 0,
    ensures
        s.resumed(seq_idx).tickets() == s.tickets(),
        s.prompts_ok() ==> s.resumed(seq_idx).prompts_ok(),
        s.resumed(seq_idx).running.len() == s.running.len() + 1,
{
    broadcast use vstd::multiset::group_multiset_axioms;

    let t = s.resumed(seq_idx);
    let ticket = s.swapped[0].ticket;
    assert(running_tickets(t.running) =~= running_tickets(s.running).push(ticket));
    assert(swapped_tickets(t.swapped) =~= swapped_tickets(s.swapped).remove(0));
    vstd::seq_lib::to_multiset_build(running_tickets(s.running), ticket);
    vstd::seq_lib::to_multiset_remove(swapped_tickets(s.swapped), 0);
    swapped_tickets(s.swapped).to_multiset_ensures();
    assert(swapped_tickets(s.swapped).contains(ticket)) by {
        assert(swapped_tickets(s.swapped)[0] == ticket);
    }
    assert(t.tickets() =~= s.tickets());
}

/// A request that left the GPU resumes where it was: only its sequence may
/// have another index.
pub proof fn law_resumes_where_preempted(
    s: SchedView,
    v: int,
    kv_data: EvictedSeqData,
    kept_idx: usize,
    seq_idx: usize,
)
    requires
        0 <= v < s.running.len(),
        s.swapped.len() == 0,
    ensures
        s.preempted(v, kv_data, kept_idx).resumed(seq_idx).running == s.running.remove(v).push(
            RunningView { seq_idx, ..s.running[v] },
        ),
        s.preempted(v, kv_data, kept_idx).resumed(seq_idx).swapped == s.swapped,
{
    let t = s.preempted(v, kv_data, kept_idx).resumed(seq_idx);
    assert(t.swapped =~= s.swapped);
}

/// The tickets among the first `n` requests are either kept or answered.
proof fn lemma_swept_tickets(
    s: SchedView,
    pool: PoolView,
    kcmm: bool,
    max_seq_len: usize,
    n: nat,
)
    requires
        n <= s.running.len(),
    ensures
        ({
            let w = completion::swept(s, pool, kcmm, max_seq_len, n);
            running_tickets(w.kept).to_multiset().add(response_tickets(w.responses).to_multiset())
                == running_tickets(s.running.take(n as int)).to_multiset()
        }),
    decreases n,
{
    broadcast use vstd::multiset::group_multiset_axioms;

    let w = completion::swept(s, pool, kcmm, max_seq_len, n);
    if n == 0 {
        let none = Seq::<u64>::empty();
        assert(running_tickets(w.kept) =~= none);
        assert(response_tickets(w.responses) =~= none);
        assert(running_tickets(s.running.take(0)) =~= none);
        none.to_multiset_ensures();
        assert(none.to_multiset() =~= Multiset::<u64>::empty());
        assert(none.to_multiset().add(none.to_multiset()) =~= none.to_multiset());
    } else {
        let before = completion::swept(s, pool, kcmm, max_seq_len, (n - 1) as nat);
        lemma_swept_tickets(s, pool, kcmm, max_seq_len, (n - 1) as nat);
        let r = s.running[n - 1];
        let head = running_tickets(s.running.take(n - 1));
        assert(running_tickets(s.running.take(n as int)) =~= head.push(r.ticket));
        vstd::seq_lib::to_multiset_build(head, r.ticket);
        if r.done(max_seq_len) {
            assert(response_tickets(w.responses) =~= response_tickets(before.responses).push(
                r.ticket,
            ));
            vstd::seq_lib::to_multiset_build(response_tickets(before.responses), r.ticket);
        } else {
            assert(running_tickets(w.kept) =~= running_tickets(before.kept).push(r.ticket));
            vstd::seq_lib::to_multiset_build(running_tickets(before.kept), r.ticket);
        }
        assert(running_tickets(w.kept).to_multiset().add(
            response_tickets(w.responses).to_multiset(),
        ) =~= running_tickets(s.running.take(n as int)).to_multiset());
    }
}

/// Every running request is either kept or answered, and only once.
pub proof fn law_completion_answers_requests(
    s: SchedView,
    pool: PoolView,
    kcmm: bool,
    max_seq_len: usize,
)
    ensures
        ({
            let w = completion::swept(s, pool, kcmm, max_seq_len, s.running.len());
            let t = SchedView { running: w.kept, epochs: w.epochs, ..s };
            t.tickets().add(response_tickets(w.responses).to_multiset()) == s.tickets()
        }),
{
    broadcast use vstd::multiset::group_multiset_axioms;

    let w = completion::swept(s, pool, kcmm, max_seq_len, s.running.len());
    let t = SchedView { running: w.kept, epochs: w.epochs, ..s };
    lemma_swept_tickets(s, pool, kcmm, max_seq_len, s.running.len());
    assert(s.running.take(s.running.len() as int) =~= s.running);
    assert(t.tickets().add(response_tickets(w.responses).to_multiset()) =~= s.tickets());
}

/// The tickets among the swapped requests from `i` on are either kept or
/// answered.
proof fn lemma_drained_tickets(
    s: SchedView,
    pool: PoolView,
    kcmm: bool,
    max_seq_len: usize,
    i: int,
)
    requires
        0 <= i <= s.swapped.len(),
    ensures
        ({
            let d = completion::drained(s, pool, kcmm, max_seq_len, i);
            swapped_tickets(d.kept).to_multiset().add(response_tickets(d.responses).to_multiset())
                == swapped_tickets(s.swapped.skip(i)).to_multiset()
        }),
    decreases s.swapped.len() - i,
{
    broadcast use vstd::multiset::group_multiset_axioms;

    let d = completion::drained(s, pool, kcmm, max_seq_len, i);
    if i == s.swapped.len() {
        let none = Seq::<u64>::empty();
        assert(swapped_tickets(d.kept) =~= none);
        assert(response_tickets(d.responses) =~= none);
        assert(swapped_tickets(s.swapped.skip(i)) =~= none);
        none.to_multiset_ensures();
        assert(none.to_multiset() =~= Multiset::<u64>::empty());
        assert(none.to_multiset().add(none.to_multiset()) =~= none.to_multiset());
    } else {
        let before = completion::drained(s, pool, kcmm, max_seq_len, i + 1);
        lemma_drained_tickets(s, pool, kcmm, max_seq_len, i + 1);
        let w = s.swapped[i];
        let tail = swapped_tickets(s.swapped.skip(i + 1));
        lemma_first_ticket(tail, w.ticket);
        assert(swapped_tickets(s.swapped.skip(i)) =~= seq![w.ticket] + tail);
        if w.done(max_seq_len) {
            assert(response_tickets(d.responses) =~= response_tickets(before.responses).push(
                w.ticket,
            ));
            vstd::seq_lib::to_multiset_build(response_tickets(before.responses), w.ticket);
        } else {
            lemma_first_ticket(swapped_tickets(before.kept), w.ticket);
            assert(swapped_tickets(d.kept) =~= seq![w.ticket] + swapped_tickets(before.kept));
        }
        assert(swapped_tickets(d.kept).to_multiset().add(
            response_tickets(d.responses).to_multiset(),
        ) =~= swapped_tickets(s.swapped.skip(i)).to_multiset());
    }
}

/// A ticket before others is one more ticket.
proof fn lemma_first_ticket(s: Seq<u64>, ticket: u64)
    ensures
        (seq![ticket] + s).to_multiset() == s.to_multiset().insert(ticket),
{
    broadcast use vstd::multiset::group_multiset_axioms;

    let t = seq![ticket] + s;
    assert(t.remove(0) =~= s);
    vstd::seq_lib::to_multiset_remove(t, 0);
    t.to_multiset_ensures();
    assert(t.contains(ticket)) by {
        assert(t[0] == ticket);
    }
    assert(t.to_multiset() =~= s.to_multiset().insert(ticket));
}

/// Every swapped request is either kept or answered, and only once.
pub proof fn law_drain_answers_requests(
    s: SchedView,
    pool: PoolView,
    kcmm: bool,
    max_seq_len: usize,
)
    ensures
        ({
            let d = completion::drained(s, pool, kcmm, max_seq_len, 0);
            let t = SchedView { swapped: d.kept, swap_manager: d.swap_manager, ..s };
            t.tickets().add(response_tickets(d.responses).to_multiset()) == s.tickets()
        }),
{
    broadcast use vstd::multiset::group_multiset_axioms;

    let d = completion::drained(s, pool, kcmm, max_seq_len, 0);
    let t = SchedView { swapped: d.kept, swap_manager: d.swap_manager, ..s };
    lemma_drained_tickets(s, pool, kcmm, max_seq_len, 0);
    assert(s.swapped.skip(0) =~= s.swapped);
    assert(t.tickets().add(response_tickets(d.responses).to_multiset()) =~= s.tickets());
}

/// A forward step loses no request, and leaves each that is in prefill a
/// prompt token to go on with.
pub proof fn law_step_keeps_requests(s: SchedView, next: Seq<u32>)
    requires
        next.len() == s.running.len(),
        s.prompts_ok(),
        forall|b: int| 0 <= b < s.running.len() ==> (#[trigger] s.running[b]).position < usize::MAX,
        forall|b: int|
            0 <= b < s.running.len() ==> (#[trigger] s.running[b]).req.prompt_tokens.len()
                <= usize::MAX,
    ensures
        ({
            let t = SchedView {
                running: s.running.map(|b: int, q: RunningView| q.stepped(next[b])),
                ..s
            };
            t.tickets() == s.tickets() && t.prompts_ok()
        }),
{
    let t = SchedView {
        running: s.running.map(|b: int, q: RunningView| q.stepped(next[b])),
        ..s
    };
    assert(running_tickets(t.running) =~= running_tickets(s.running));
    assert forall|i: int| 0 <= i < t.running.len() implies (#[trigger] t.running[i]).ok() by {
        assert(s.running[i].ok());
        assert(s.running[i].req.prompt_tokens.len() <= usize::MAX);
    }
}

/// The state of a request after it consumed its whole prompt, one token a
/// step.
pub open spec fn after_steps(r: RunningView, tokens: Seq<u32>) -> RunningView
    decreases tokens.len(),
{
    if tokens.len() == 0 {
        r
    } else {
        after_steps(r, tokens.drop_last()).stepped(tokens.last())
    }
}

/// As many steps as a prompt has tokens take a fresh request through prefill,
/// whatever was sampled; nothing is generated by them.
pub proof fn law_prefill_takes_prompt_length(r: RunningView, tokens: Seq<u32>)
    requires
        r.state == (RequestState::Prefill { prompt_pos: 0 }),
        0 < r.req.prompt_tokens.len() <= usize::MAX,
        0 < tokens.len() <= r.req.prompt_tokens.len(),
    ensures
        after_steps(r, tokens) == (RunningView {
            state: if tokens.len() == r.req.prompt_tokens.len() {
                RequestState::Decode
            } else {
                RequestState::Prefill { prompt_pos: tokens.len() as usize }
            },
            position: tokens.len() as usize,
            ..r
        }),
    decreases tokens.len(),
{
    if tokens.len() > 1 {
        law_prefill_takes_prompt_length(r, tokens.drop_last());
    } else {
        assert(after_steps(r, tokens.drop_last()) == r);
    }
}

} // verus!
