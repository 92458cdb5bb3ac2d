use vstd::prelude::*;

use crate::cache::kv_cache::SlotAllocator;

verus! {

/// A request to continue a prompt.
#[derive(Debug, Clone)]
pub struct InferenceRequest {
    pub id: u64,
    pub prompt_tokens: Vec<u32>,
    pub max_new_tokens: usize,
    pub eos_token_id: u32,
}

/// What a request asks for.
#[verifier::ext_equal]
pub struct RequestView {
    pub id: u64,
    pub prompt_tokens: Seq<u32>,
    pub max_new_tokens: usize,
    pub eos_token_id: u32,
}

impl View for InferenceRequest {
    type V = RequestView;

    open spec fn view(&self) -> RequestView {
        RequestView {
            id: self.id,
            prompt_tokens: self.prompt_tokens@,
            max_new_tokens: self.max_new_tokens,
            eos_token_id: self.eos_token_id,
        }
    }
}

impl RequestView {
    /// Whether generation ends with the tokens in `out`: the last one is the
    /// end token, there are as many as were asked for, or the sequence is as
    /// long as it may be.
    pub open spec fn ends_with(self, out: Seq<u32>, max_seq_len: usize) -> bool {
        out.len() > 0 && (out.last() == self.eos_token_id || out.len() >= self.max_new_tokens
            || self.prompt_tokens.len() + out.len() >= max_seq_len)
    }

    /// Generation did not end before the last token of `out`.
    pub open spec fn runs_through(self, out: Seq<u32>, max_seq_len: usize) -> bool {
        forall|k: int| 0 <= k < out.len() ==> !self.ends_with(#[trigger] out.take(k), max_seq_len)
    }
}

/// A batch of requests that are decoded together until all have ended.
#[derive(Debug)]
pub struct StaticBatch {
    pub requests: Vec<InferenceRequest>,
    pub max_seq_len: usize,
    /// Generated tokens per request.
    pub outputs: Vec<Vec<u32>>,
    /// Which requests have ended.
    pub done: Vec<bool>,
    /// Next position per request.
    pub positions: Vec<usize>,
    /// Forward steps that are left at most.
    pub steps_left: usize,
}

/// The largest of the first `n` values; zero for none.
pub open spec fn max_of(s: Seq<nat>, n: nat) -> nat
    decreases n,
{
    if n == 0 {
        0
    } else {
        let m = max_of(s, (n - 1) as nat);
        if s[n - 1] > m {
            s[n - 1]
        } else {
            m
        }
    }
}

/// The largest is not smaller than any.
proof fn lemma_max_of(s: Seq<nat>, n: nat, i: int)
    requires
        n <= s.len(),
        0 <= i < n,
    ensures
        s[i] <= max_of(s, n),
    decreases n,
{
    if i < n - 1 {
        lemma_max_of(s, (n - 1) as nat, i);
    }
}

impl StaticBatch {
    /// Number of requests.
    pub open spec fn size(&self) -> nat {
        self.requests@.len()
    }

    /// Each request has its output so far, which did not run past its end; the
    /// steps that are left suffice for those that have not ended.
    pub open spec fn wf(&self) -> bool {
        &&& self.outputs@.len() == self.size()
        &&& self.done@.len() == self.size()
        &&& self.positions@.len() == self.size()
        &&& forall|b: int|
            0 <= b < self.size() ==> {
                let req = (#[trigger] self.requests@[b])@;
                let out = self.outputs@[b]@;
                &&& self.positions@[b] == req.prompt_tokens.len() + out.len()
                &&& self.done@[b] == req.ends_with(out, self.max_seq_len)
                &&& req.runs_through(out, self.max_seq_len)
                &&& !self.done@[b] ==> req.max_new_tokens <= out.len() + self.steps_left
            }
    }

    /// Prompt lengths of all requests.
    pub open spec fn prompt_lens(requests: Seq<InferenceRequest>) -> Seq<nat> {
        requests.map_values(|r: InferenceRequest| r.prompt_tokens@.len())
    }

    /// Token limits of all requests.
    pub open spec fn token_limits(requests: Seq<InferenceRequest>) -> Seq<nat> {
        requests.map_values(|r: InferenceRequest| r.max_new_tokens as nat)
    }

    /// Length to which the prompts are prefilled: that of the longest.
    pub fn max_prompt(requests: &Vec<InferenceRequest>) -> (r: usize)
        ensures
            r == max_of(Self::prompt_lens(requests@), requests@.len()),
    {
        let mut m: usize = 0;
        let mut i: usize = 0;
        while i < requests.len()
            invariant
                i <= requests@.len(),
                m == max_of(Self::prompt_lens(requests@), i as nat),
            decreases requests@.len() - i,
        {
            let len: usize = requests[i].prompt_tokens.len();
            if len > m {
                m = len;
            }
            i = i + 1;
        }
        m
    }

    /// The tokens that are fed to the model first: the last of each prompt, or
    /// zero for an empty one.
    pub fn first_tokens(requests: &Vec<InferenceRequest>) -> (r: Vec<u32>)
        ensures
            r@.len() == requests@.len(),
            forall|b: int|
                0 <= b < requests@.len() ==> #[trigger] r@[b] == if requests@[b].prompt_tokens@.len()
                    == 0 {
                    0
                } else {
                    requests@[b].prompt_tokens@.last()
                },
    {
        let mut out: Vec<u32> = Vec::new();
        let mut i: usize = 0;
        while i < requests.len()
            invariant
                i <= requests@.len(),
                out@.len() == i,
                forall|b: int|
                    0 <= b < i ==> #[trigger] out@[b] == if requests@[b].prompt_tokens@.len() == 0 {
                        0
                    } else {
                        requests@[b].prompt_tokens@.last()
                    },
            decreases requests@.len() - i,
        {
            let n: usize = requests[i].prompt_tokens.len();
            if n == 0 {
                out.push(0);
            } else {
                out.push(requests[i].prompt_tokens[n - 1]);
            }
            i = i + 1;
        }
        out
    }

    /// A batch of which nothing has been generated yet.
    pub fn new(requests: Vec<InferenceRequest>, max_seq_len: usize) -> (r: Self)
        ensures
            r.wf(),
            r.requests@ == requests@,
            r.max_seq_len == max_seq_len,
            r.steps_left == max_of(Self::token_limits(requests@), requests@.len()),
            forall|b: int| 0 <= b < r.size() ==> (#[trigger] r.outputs@[b])@.len() == 0,
    {
        let mut outputs: Vec<Vec<u32>> = Vec::new();
        let mut done: Vec<bool> = Vec::new();
        let mut positions: Vec<usize> = Vec::new();
        let mut steps_left: usize = 0;
        let mut i: usize = 0;
        while i < requests.len()
            invariant
                i <= requests@.len(),
                outputs@.len() == i,
                done@.len() == i,
                positions@.len() == i,
                steps_left == max_of(Self::token_limits(requests@), i as nat),
                forall|b: int|
                    0 <= b < i ==> (#[trigger] outputs@[b])@.len() == 0 && !done@[b]
                        && positions@[b] == requests@[b].prompt_tokens@.len(),
            decreases requests@.len() - i,
        {
            outputs.push(Vec::new());
            done.push(false);
            positions.push(requests[i].prompt_tokens.len());
            if requests[i].max_new_tokens > steps_left {
                steps_left = requests[i].max_new_tokens;
            }
            i = i + 1;
        }
        proof {
            assert forall|b: int| 0 <= b < requests@.len() implies (
            #[trigger] requests@[b]).max_new_tokens <= steps_left by {
                lemma_max_of(Self::token_limits(requests@), requests@.len(), b);
            }
        }
        StaticBatch { requests, max_seq_len, outputs, done, positions, steps_left }
    }

    /// Whether another forward step is to be run: a request has not ended, and
    /// no request could have asked for so many tokens.
    pub fn wants_step(&self) -> (r: bool)
        requires
            self.wf(),
        ensures
            r == (self.steps_left > 0 && exists|b: int|
                0 <= b < self.size() && !#[trigger] self.done@[b]),
    {
        if self.steps_left == 0 {
            return false;
        }
        let mut b: usize = 0;
        while b < self.done.len()
            invariant
                self.wf(),
                self.steps_left > 0,
                b <= self.done@.len(),
                forall|k: int| 0 <= k < b ==> #[trigger] self.done@[k],
            decreases self.done@.len() - b,
        {
            if !self.done[b] {
                assert(!self.done@[b as int]);
                return true;
            }
            b = b + 1;
        }
        false
    }

    /// Take in the tokens sampled for all requests: those that have not ended
    /// get one more.
    pub fn advance(&mut self, next: &Vec<u32>)
        requires
            old(self).wf(),
            old(self).steps_left > 0,
            next@.len() == old(self).size(),
            forall|b: int|
                0 <= b < old(self).size() ==> (#[trigger] old(self).positions@[b]) < usize::MAX,
        ensures
            final(self).wf(),
            final(self).requests@ == old(self).requests@,
            final(self).max_seq_len == old(self).max_seq_len,
            final(self).steps_left == old(self).steps_left - 1,
            forall|b: int|
                0 <= b < old(self).size() ==> (#[trigger] final(self).outputs@[b])@ == if old(self).done@[b] {
                    old(self).outputs@[b]@
                } else {
                    old(self).outputs@[b]@.push(next@[b])
                },
    {
        let n: usize = self.requests.len();
        let mut b: usize = 0;
        while b < n
            invariant
                n == old(self).size(),
                b <= n,
                old(self).wf(),
                next@.len() == n,
                forall|k: int|
                    0 <= k < n ==> (#[trigger] old(self).positions@[k]) < usize::MAX,
                self.wf(),
                self.requests@ == old(self).requests@,
                self.max_seq_len == old(self).max_seq_len,
                self.steps_left == old(self).steps_left,
                forall|k: int|
                    0 <= k < b ==> (#[trigger] self.outputs@[k])@ == if old(self).done@[k] {
                        old(self).outputs@[k]@
                    } else {
                        old(self).outputs@[k]@.push(next@[k])
                    },
                forall|k: int|
                    b <= k < n ==> (#[trigger] self.outputs@[k])@ == old(self).outputs@[k]@,
                forall|k: int| b <= k < n ==> self.done@[k] == old(self).done@[k],
                forall|k: int| b <= k < n ==> self.positions@[k] == old(self).positions@[k],
            decreases n - b,
        {
            if !self.done[b] {
                let token: u32 = next[b];
                let ghost out0 = self.outputs@[b as int]@;
                let ghost req = self.requests@[b as int]@;
                assert(self.outputs@[b as int]@ == old(self).outputs@[b as int]@);
                assert(old(self).positions@[b as int] < usize::MAX);
                let ghost before = *self;
                self.outputs[b].push(token);
                self.positions[b] = self.positions[b] + 1;
                let ends: bool = token == self.requests[b].eos_token_id || self.outputs[b].len()
                    >= self.requests[b].max_new_tokens || self.positions[b] >= self.max_seq_len;
                self.done.set(b, ends);
                proof {
                    let out = self.outputs@[b as int]@;
                    assert(out == out0.push(token));
                    assert(req.runs_through(out, self.max_seq_len)) by {
                        assert forall|k: int| 0 <= k < out.len() implies !req.ends_with(
                            #[trigger] out.take(k),
                            self.max_seq_len,
                        ) by {
                            if k < out0.len() {
                                assert(out.take(k) =~= out0.take(k));
                            } else {
                                assert(out.take(k) =~= out0);
                            }
                        }
                    }
                    assert forall|k: int| 0 <= k < self.size() implies {
                        let rq = (#[trigger] self.requests@[k])@;
                        let o = self.outputs@[k]@;
                        &&& self.positions@[k] == rq.prompt_tokens.len() + o.len()
                        &&& self.done@[k] == rq.ends_with(o, self.max_seq_len)
                        &&& rq.runs_through(o, self.max_seq_len)
                        &&& !self.done@[k] ==> rq.max_new_tokens <= o.len() + self.steps_left
                    } by {
                        if k != b {
                            assert(before.requests@[k] == self.requests@[k]);
                            assert(before.outputs@[k] == self.outputs@[k]);
                        }
                    }
                }
            }
            b = b + 1;
        }
        self.steps_left = self.steps_left - 1;
    }

    /// When no more steps are to be run, every answer is whole: it ends with
    /// the end token, is as long as was asked for, or the sequence is as long
    /// as it may be. Only a request for no tokens may get none.
    pub proof fn law_answers_whole(&self, b: int)
        requires
            self.wf(),
            self.steps_left == 0 || forall|k: int|
                0 <= k < self.size() ==> #[trigger] self.done@[k],
            0 <= b < self.size(),
        ensures
            ({
                let req = self.requests@[b]@;
                let out = self.outputs@[b]@;
                req.ends_with(out, self.max_seq_len) || (req.max_new_tokens == 0 && out.len() == 0)
            }),
    {
        let req = self.requests@[b]@;
        let out = self.outputs@[b]@;
        assert(self.done@[b] == req.ends_with(out, self.max_seq_len));
    }

    /// A request never gets more tokens than it asked for, save the one that a
    /// request for none may get, and its end token only as the last one.
    pub proof fn law_outputs_bounded(&self, b: int)
        requires
            self.wf(),
            0 <= b < self.size(),
        ensures
            self.outputs@[b]@.len() <= self.requests@[b].max_new_tokens || self.outputs@[b]@.len()
                <= 1,
            forall|k: int|
                0 <= k < self.outputs@[b]@.len() - 1 ==> #[trigger] self.outputs@[b]@[k]
                    != self.requests@[b].eos_token_id,
    {
        let req = self.requests@[b]@;
        let out = self.outputs@[b]@;
        assert(req.runs_through(out, self.max_seq_len));
        if out.len() > 1 {
            let k = out.len() - 1;
            assert(!req.ends_with(out.take(k), self.max_seq_len));
        }
        assert forall|k: int| 0 <= k < out.len() - 1 implies #[trigger] out[k]
            != req.eos_token_id by {
            assert(!req.ends_with(out.take(k + 1), self.max_seq_len));
            assert(out.take(k + 1).last() == out[k]);
        }
    }
}

/// Acquire a slot for each of `n` batch entries.
pub fn acquire_slots(allocator: &mut SlotAllocator, n: usize) -> (r: Vec<usize>)
    requires
        old(allocator).wf(),
        n <= old(allocator).free@.len(),
    ensures
        final(allocator).wf(),
        final(allocator).capacity == old(allocator).capacity,
        r@.len() == n,
        forall|i: int|
            0 <= i < n ==> #[trigger] r@[i] == old(allocator).free@[old(allocator).free@.len() - 1
                - i],
        final(allocator).free@ == old(allocator).free@.take(old(allocator).free@.len() - n),
{
    let mut out: Vec<usize> = Vec::new();
    let mut i: usize = 0;
    while i < n
        invariant
            i <= n <= old(allocator).free@.len(),
            allocator.wf(),
            allocator.capacity == old(allocator).capacity,
            out@.len() == i,
            allocator.free@ == old(allocator).free@.take(old(allocator).free@.len() - i),
            forall|k: int|
                0 <= k < i ==> #[trigger] out@[k] == old(allocator).free@[old(allocator).free@.len() - 1 - k],
        decreases n - i,
    {
        let slot: Option<usize> = allocator.acquire();
        if let Some(s) = slot {
            out.push(s);
        }
        i = i + 1;
    }
    out
}

/// Give the slots of a batch back, in order.
pub fn release_slots(allocator: &mut SlotAllocator, slots: &Vec<usize>)
    requires
        forall|i: int| 0 <= i < slots@.len() ==> (#[trigger] slots@[i]) < old(allocator).capacity,
    ensures
        final(allocator).capacity == old(allocator).capacity,
        final(allocator).free@ == old(allocator).free@ + slots@,
{
    let mut i: usize = 0;
    while i < slots.len()
        invariant
            i <= slots@.len(),
            forall|k: int| 0 <= k < slots@.len() ==> (#[trigger] slots@[k]) < allocator.capacity,
            allocator.capacity == old(allocator).capacity,
            allocator.free@ == old(allocator).free@ + slots@.take(i as int),
        decreases slots@.len() - i,
    {
        allocator.release(slots[i]);
        i = i + 1;
    }
    assert(slots@.take(slots@.len() as int) =~= slots@);
}

} // verus!
