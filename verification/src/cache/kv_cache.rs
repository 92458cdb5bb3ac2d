use vstd::prelude::*;

use crate::config::ModelConfig;
use crate::kcmm::superblock::HALF_BYTES;
use crate::kv_write;
use crate::kv_write::{KvCopy, KvPlan, KvRow};

verus! {

/// Hands out the slots of a batch, the one given back last first.
#[derive(Debug)]
pub struct SlotAllocator {
    pub free: Vec<usize>,
    pub capacity: usize,
}

impl SlotAllocator {
    /// The free slots are distinct and exist.
    pub open spec fn wf(&self) -> bool {
        &&& self.free@.no_duplicates()
        &&& forall|i: int| 0 <= i < self.free@.len() ==> (#[trigger] self.free@[i]) < self.capacity
    }

    /// The free slots, beside the slots that callers hold.
    pub open spec fn ledger(&self, held: Set<usize>) -> SlotLedger {
        SlotLedger { capacity: self.capacity as nat, free: self.free@, held }
    }

    /// All slots are free; slot 0 comes first.
    pub fn new(capacity: usize) -> (r: Self)
        ensures
            r.wf(),
            r.capacity == capacity,
            r.free@ == Seq::new(capacity as nat, |i: int| (capacity - 1 - i) as usize),
            r.ledger(Set::empty()) == SlotLedger::new(capacity),
    {
        let mut free: Vec<usize> = Vec::new();
        let mut i: usize = 0;
        while i < capacity
            invariant
                i <= capacity,
                free@ == Seq::new(i as nat, |k: int| (capacity - 1 - k) as usize),
            decreases capacity - i,
        {
            free.push(capacity - 1 - i);
            i = i + 1;
        }
        SlotAllocator { free, capacity }
    }

    /// Take a slot, or `None` when all are taken.
    pub fn acquire(&mut self) -> (r: Option<usize>)
        ensures
            final(self).capacity == old(self).capacity,
            old(self).free@.len() == 0 ==> r is None && final(self).free@ == old(self).free@,
            old(self).free@.len() > 0 ==> r == Some(old(self).free@.last()) && final(self).free@
                == old(self).free@.drop_last(),
            forall|held: Set<usize>|
                r == (#[trigger] old(self).ledger(held)).next() && final(self).ledger(
                    old(self).ledger(held).after(SlotCall::Acquire).held,
                ) == old(self).ledger(held).after(SlotCall::Acquire),
            old(self).wf() ==> final(self).wf(),
            old(self).wf() ==> (r matches Some(slot) ==> slot < final(self).capacity && !final(self).free@.contains(slot)),
    {
        let r: Option<usize> = self.free.pop();
        proof {
            if old(self).wf() {
                if let Some(slot) = r {
                    let n = old(self).free@.len();
                    assert(old(self).free@[n - 1] == slot);
                    if self.free@.contains(slot) {
                        let k = choose|k: int| 0 <= k < self.free@.len() && self.free@[k] == slot;
                        assert(old(self).free@[k] == slot);
                    }
                }
            }
        }
        r
    }

    /// Give a slot back.
    pub fn release(&mut self, slot: usize)
        requires
            slot < old(self).capacity,
        ensures
            final(self).capacity == old(self).capacity,
            final(self).free@ == old(self).free@.push(slot),
            forall|held: Set<usize>|
                final(self).ledger(held.remove(slot)) == (#[trigger] old(self).ledger(held)).after(
                    SlotCall::Release(slot),
                ),
            old(self).wf() && !old(self).free@.contains(slot) ==> final(self).wf(),
    {
        self.free.push(slot);
        proof {
            if old(self).wf() && !old(self).free@.contains(slot) {
                let n = old(self).free@.len();
                assert forall|a: int, b: int|
                    0 <= a < self.free@.len() && 0 <= b < self.free@.len() && a
                        != b implies self.free@[a] != self.free@[b] by {
                    if a < n && b < n {
                        assert(old(self).free@[a] != old(self).free@[b]);
                    } else if a < n {
                        assert(old(self).free@.contains(old(self).free@[a]));
                    } else {
                        assert(old(self).free@.contains(old(self).free@[b]));
                    }
                }
            }
        }
    }

    /// Number of slots.
    pub fn capacity(&self) -> (r: usize)
        ensures
            r == self.capacity,
    {
        self.capacity
    }

    /// Number of free slots.
    pub fn free_count(&self) -> (r: usize)
        ensures
            r == self.free@.len(),
    {
        self.free.len()
    }
}

/// Why a row cannot be written.
#[derive(Debug, Clone, Copy, PartialEq, Eq, Structural)]
pub enum KvCacheError {
    /// There is no such layer.
    BadLayer,
    SlotOutOfBounds { slot: usize, max_batch: usize },
    PosOutOfBounds { pos: usize, max_seq_len: usize },
}

/// Contiguous KV cache with one slot per batch entry: its layout and slots.
#[derive(Debug)]
pub struct KvCache {
    pub cfg: ModelConfig,
    pub max_batch: usize,
    pub max_seq_len: usize,
    pub allocator: SlotAllocator,
}

impl KvCache {
    /// The size of a layer can be computed.
    pub open spec fn wf(&self) -> bool {
        &&& self.cfg.num_attention_heads > 0
        &&& self.layer_elems() * HALF_BYTES <= usize::MAX
        &&& self.max_batch * self.cfg.kv_heads() <= usize::MAX
        &&& self.max_batch * self.cfg.kv_heads() * self.max_seq_len <= usize::MAX
    }

    /// Elements of a layer's K or V cache.
    pub open spec fn layer_elems(&self) -> int {
        self.max_batch * self.cfg.kv_heads() * self.max_seq_len * self.cfg.head_dim()
    }

    /// Element offset of position `pos` of slot `slot`.
    pub open spec fn elem_offset(&self, slot: int, pos: int) -> int {
        (slot * self.cfg.kv_heads() * self.max_seq_len + pos) * self.cfg.head_dim()
    }

    /// A cache with all slots free.
    pub fn new(cfg: ModelConfig, max_batch: usize, max_seq_len: usize) -> (r: Self)
        requires
            cfg.num_attention_heads > 0,
            max_batch * cfg.kv_heads() <= usize::MAX,
            max_batch * cfg.kv_heads() * max_seq_len <= usize::MAX,
            max_batch * cfg.kv_heads() * max_seq_len * cfg.head_dim() * HALF_BYTES <= usize::MAX,
        ensures
            r.wf(),
            r.cfg == cfg,
            r.max_batch == max_batch,
            r.max_seq_len == max_seq_len,
            r.allocator.wf(),
            r.allocator.capacity == max_batch,
            r.allocator.free@ == Seq::new(max_batch as nat, |i: int| (max_batch - 1 - i) as usize),
    {
        KvCache { cfg, max_batch, max_seq_len, allocator: SlotAllocator::new(max_batch) }
    }

    /// Elements to allocate for a layer's K or V cache.
    pub fn per_layer_elems(&self) -> (r: usize)
        requires
            self.wf(),
        ensures
            r == self.layer_elems(),
    {
        self.max_batch * self.cfg.kv_heads() * self.max_seq_len * self.cfg.head_dim()
    }

    /// What becomes of row `b`, for position `pos` of slot `slot`.
    pub open spec fn row(
        &self,
        k_base: u64,
        v_base: u64,
        src_base: u64,
        b: int,
        slot: usize,
        pos: usize,
    ) -> KvRow<KvCacheError> {
        if slot >= self.max_batch {
            KvRow::Fail(KvCacheError::SlotOutOfBounds { slot, max_batch: self.max_batch })
        } else if pos >= self.max_seq_len {
            KvRow::Fail(KvCacheError::PosOutOfBounds { pos, max_seq_len: self.max_seq_len })
        } else {
            let dst = self.elem_offset(slot as int, pos as int) * HALF_BYTES;
            let src = b * self.cfg.hidden_size * HALF_BYTES;
            KvRow::Copy(
                KvCopy {
                    dst_k: (k_base + dst) as u64,
                    dst_v: (v_base + dst) as u64,
                    src_k: (src_base + src) as u64,
                    src_v: (src_base + src) as u64,
                    nbytes: (self.cfg.hidden_size * HALF_BYTES) as usize,
                },
            )
        }
    }

    /// The rows of a batch.
    pub open spec fn rows(
        &self,
        k_base: u64,
        v_base: u64,
        src_base: u64,
        slots: Seq<usize>,
        positions: Seq<usize>,
    ) -> Seq<KvRow<KvCacheError>> {
        Seq::new(
            slots.len(),
            |b: int| self.row(k_base, v_base, src_base, b, slots[b], positions[b]),
        )
    }

    /// A row written to an existing slot and position stays within the layer.
    pub proof fn law_rows_stay_in_layer(&self, slot: int, pos: int)
        requires
            self.wf(),
            0 <= slot < self.max_batch,
            0 <= pos < self.max_seq_len,
            self.cfg.kv_heads() > 0,
        ensures
            0 <= self.elem_offset(slot, pos),
            self.elem_offset(slot, pos) + self.cfg.kv_heads() * self.cfg.head_dim()
                <= self.layer_elems(),
    {
        let mb = self.max_batch as int;
        let kv = self.cfg.kv_heads() as int;
        let ms = self.max_seq_len as int;
        let hd = self.cfg.head_dim() as int;
        assert(hd >= 0) by (nonlinear_arith)
            requires
                hd == self.cfg.hidden_size as int / self.cfg.num_attention_heads as int,
                self.cfg.hidden_size >= 0,
                self.cfg.num_attention_heads > 0,
        ;
        assert(slot * kv * ms + kv * ms <= mb * kv * ms) by (nonlinear_arith)
            requires
                slot + 1 <= mb,
                kv >= 0,
                ms >= 0,
        ;
        assert(pos + kv <= kv * ms) by (nonlinear_arith)
            requires
                0 <= pos < ms,
                kv >= 1,
        ;
        assert(0 <= slot * kv * ms) by (nonlinear_arith)
            requires
                slot >= 0,
                kv >= 0,
                ms >= 0,
        ;
        let at = slot * kv * ms + pos;
        assert(at * hd >= 0) by (nonlinear_arith)
            requires
                at >= 0,
                hd >= 0,
        ;
        assert(at * hd + kv * hd <= mb * kv * ms * hd) by (nonlinear_arith)
            requires
                at + kv <= mb * kv * ms,
                hd >= 0,
        ;
    }

    /// Plan the copies that write one row per listed slot into a layer, to
    /// both the K and the V cache.
    pub fn append_step(
        &self,
        layer_idx: usize,
        slot_ids: &[usize],
        positions: &[usize],
        k_base: u64,
        v_base: u64,
        src_base: u64,
    ) -> (r: Result<KvPlan<KvCacheError>, KvCacheError>)
        requires
            self.wf(),
            slot_ids@.len() == positions@.len(),
            self.cfg.hidden_size == self.cfg.kv_heads() * self.cfg.head_dim(),
            k_base + self.layer_elems() * HALF_BYTES <= u64::MAX,
            v_base + self.layer_elems() * HALF_BYTES <= u64::MAX,
            src_base + slot_ids@.len() * self.cfg.hidden_size * HALF_BYTES <= u64::MAX,
            slot_ids@.len() * self.cfg.hidden_size * HALF_BYTES <= usize::MAX,
            self.cfg.hidden_size * HALF_BYTES <= usize::MAX,
        ensures
            layer_idx >= self.cfg.num_hidden_layers ==> r == Err::<
                KvPlan<KvCacheError>,
                KvCacheError,
            >(KvCacheError::BadLayer),
            layer_idx < self.cfg.num_hidden_layers ==> (r matches Ok(plan) && plan.is_for(
                self.rows(k_base, v_base, src_base, slot_ids@, positions@),
            )),
    {
        if layer_idx >= self.cfg.num_hidden_layers {
            return Err(KvCacheError::BadLayer);
        }
        let kv: usize = self.cfg.kv_heads();
        let hd: usize = self.cfg.head_dim();
        let hidden_size: usize = self.cfg.hidden_size;
        let ghost rows = self.rows(k_base, v_base, src_base, slot_ids@, positions@);
        let mut plan: KvPlan<KvCacheError> = KvPlan { copies: Vec::new(), error: None };
        assert(rows.take(0) =~= Seq::<KvRow<KvCacheError>>::empty());
        let mut b: usize = 0;
        while b < slot_ids.len()
            invariant
                self.wf(),
                layer_idx < self.cfg.num_hidden_layers,
                slot_ids@.len() == positions@.len(),
                kv == self.cfg.kv_heads(),
                hd == self.cfg.head_dim(),
                hidden_size == self.cfg.hidden_size == kv * hd,
                k_base + self.layer_elems() * HALF_BYTES <= u64::MAX,
                v_base + self.layer_elems() * HALF_BYTES <= u64::MAX,
                src_base + slot_ids@.len() * hidden_size * HALF_BYTES <= u64::MAX,
                slot_ids@.len() * hidden_size * HALF_BYTES <= usize::MAX,
                hidden_size * HALF_BYTES <= usize::MAX,
                rows == self.rows(k_base, v_base, src_base, slot_ids@, positions@),
                b <= slot_ids@.len(),
                plan.error is None,
                plan.is_for(rows.take(b as int)),
            decreases slot_ids@.len() - b,
        {
            let slot: usize = slot_ids[b];
            let pos: usize = positions[b];
            proof {
                assert(rows.take(b + 1).drop_last() =~= rows.take(b as int));
                assert(rows.take(b + 1).last() == self.row(
                    k_base,
                    v_base,
                    src_base,
                    b as int,
                    slot,
                    pos,
                ));
            }
            if slot >= self.max_batch {
                plan.error = Some(
                    KvCacheError::SlotOutOfBounds { slot, max_batch: self.max_batch },
                );
                proof {
                    kv_write::lemma_plan_stops(rows, b + 1);
                }
                return Ok(plan);
            }
            if pos >= self.max_seq_len {
                plan.error = Some(
                    KvCacheError::PosOutOfBounds { pos, max_seq_len: self.max_seq_len },
                );
                proof {
                    kv_write::lemma_plan_stops(rows, b + 1);
                }
                return Ok(plan);
            }
            proof {
                self.lemma_offset_fits(slot as int, pos as int);
                let n = slot_ids@.len() as int;
                assert(0 <= b * hidden_size && b * hidden_size + hidden_size <= n * hidden_size)
                    by (nonlinear_arith)
                    requires
                        0 <= b < n,
                        hidden_size >= 0,
                ;
            }
            let dst_off: usize = (slot * kv * self.max_seq_len + pos) * hd;
            let src_off: usize = b * hidden_size;
            let dst: u64 = (dst_off * HALF_BYTES) as u64;
            let src: u64 = (src_off * HALF_BYTES) as u64;
            plan.copies.push(
                KvCopy {
                    dst_k: k_base + dst,
                    dst_v: v_base + dst,
                    src_k: src_base + src,
                    src_v: src_base + src,
                    nbytes: hidden_size * HALF_BYTES,
                },
            );
            b = b + 1;
        }
        assert(rows.take(rows.len() as int) =~= rows);
        Ok(plan)
    }

    /// The offset of an existing slot and position can be computed.
    proof fn lemma_offset_fits(&self, slot: int, pos: int)
        requires
            self.wf(),
            self.cfg.hidden_size == self.cfg.kv_heads() * self.cfg.head_dim(),
            0 <= slot < self.max_batch,
            0 <= pos < self.max_seq_len,
        ensures
            0 <= slot * self.cfg.kv_heads() <= usize::MAX,
            0 <= slot * self.cfg.kv_heads() * self.max_seq_len,
            slot * self.cfg.kv_heads() * self.max_seq_len + pos <= usize::MAX,
            0 <= self.elem_offset(slot, pos) <= self.layer_elems(),
    {
        let mb = self.max_batch as int;
        let kv = self.cfg.kv_heads() as int;
        let ms = self.max_seq_len as int;
        let hd = self.cfg.head_dim() as int;
        assert(0 <= slot * kv <= mb * kv) by (nonlinear_arith)
            requires
                0 <= slot < mb,
                kv >= 0,
        ;
        assert(0 <= slot * kv * ms) by (nonlinear_arith)
            requires
                0 <= slot * kv,
                ms >= 0,
        ;
        if kv > 0 {
            self.law_rows_stay_in_layer(slot, pos);
            assert(slot * kv * ms + kv * ms <= mb * kv * ms) by (nonlinear_arith)
                requires
                    slot + 1 <= mb,
                    kv >= 0,
                    ms >= 0,
            ;
            assert(pos < kv * ms) by (nonlinear_arith)
                requires
                    0 <= pos < ms,
                    kv >= 1,
            ;
            assert(kv * hd >= 0) by (nonlinear_arith)
                requires
                    kv >= 0,
                    hd >= 0,
            ;
        } else {
            assert(mb * kv * ms * hd == 0) by (nonlinear_arith)
                requires
                    kv == 0,
            ;
            assert(slot * kv * ms == 0) by (nonlinear_arith)
                requires
                    kv == 0,
            ;
            assert(hd == 0) by {
                assert(kv * hd == 0) by (nonlinear_arith)
                    requires
                        kv == 0,
                ;
                vstd::arithmetic::div_mod::lemma_div_basics(self.cfg.num_attention_heads as int);
            }
            assert((slot * kv * ms + pos) * hd == 0) by (nonlinear_arith)
                requires
                    hd == 0,
            ;
        }
    }

    /// Positions in use and positions there are, over all layers. The
    /// fragmentation ratio is 1 minus their quotient, or zero where there are
    /// none.
    pub fn fragmentation_counts(&self, used: &[usize]) -> (r: (usize, usize))
        requires
            sum_of(used@) <= usize::MAX,
            sum_of(used@) * self.cfg.num_hidden_layers <= usize::MAX,
            self.allocator.capacity * self.max_seq_len <= usize::MAX,
            self.allocator.capacity * self.max_seq_len * self.cfg.num_hidden_layers <= usize::MAX,
        ensures
            r.0 == sum_of(used@) * self.cfg.num_hidden_layers,
            r.1 == self.allocator.capacity * self.max_seq_len * self.cfg.num_hidden_layers,
    {
        let mut total: usize = 0;
        let mut i: usize = 0;
        assert(used@.take(0) =~= Seq::<usize>::empty());
        while i < used.len()
            invariant
                i <= used@.len(),
                sum_of(used@) <= usize::MAX,
                total == sum_of(used@.take(i as int)),
            decreases used@.len() - i,
        {
            proof {
                assert(used@.take(i + 1).drop_last() =~= used@.take(i as int));
                lemma_sum_monotone(used@, i + 1);
            }
            total = total + used[i];
            i = i + 1;
        }
        assert(used@.take(used@.len() as int) =~= used@);
        let layers: usize = self.cfg.num_hidden_layers;
        (total * layers, self.allocator.capacity() * self.max_seq_len * layers)
    }
}

/// The sum of a list of numbers.
pub open spec fn sum_of(s: Seq<usize>) -> nat
    decreases s.len(),
{
    if s.len() == 0 {
        0
    } else {
        sum_of(s.drop_last()) + s.last() as nat
    }
}

/// A prefix does not sum up to more.
pub proof fn lemma_sum_monotone(s: Seq<usize>, i: int)
    requires
        0 <= i <= s.len(),
    ensures
        sum_of(s.take(i)) <= sum_of(s),
    decreases s.len(),
{
    if i == s.len() {
        assert(s.take(i) =~= s);
    } else {
        assert(s.drop_last().take(i) =~= s.take(i));
        lemma_sum_monotone(s.drop_last(), i);
    }
}

/// Slots that were acquired one after the other are distinct, and each can
/// be had again once it was given back.
pub proof fn law_release_undoes_acquire(free: Seq<usize>)
    requires
        free.len() > 0,
        free.no_duplicates(),
    ensures
        free.drop_last().push(free.last()) == free,
        !free.drop_last().contains(free.last()),
{
    assert(free.drop_last().push(free.last()) =~= free);
    if free.drop_last().contains(free.last()) {
        let k = choose|k: int|
            0 <= k < free.drop_last().len() && free.drop_last()[k] == free.last();
        assert(free[k] == free[free.len() - 1]);
    }
}

/// A call on a slot allocator.
pub enum SlotCall {
    Acquire,
    Release(usize),
}

/// The slots of an allocator and of its callers.
#[verifier::ext_equal]
pub struct SlotLedger {
    pub capacity: nat,
    /// Free slots; the last comes first.
    pub free: Seq<usize>,
    /// Slots that callers hold.
    pub held: Set<usize>,
}

impl SlotLedger {
    /// A new allocator, of which nobody holds a slot.
    pub open spec fn new(capacity: usize) -> Self {
        SlotLedger {
            capacity: capacity as nat,
            free: Seq::new(capacity as nat, |i: int| (capacity - 1 - i) as usize),
            held: Set::empty(),
        }
    }

    /// What `acquire` gives.
    pub open spec fn next(self) -> Option<usize> {
        if self.free.len() > 0 {
            Some(self.free.last())
        } else {
            None
        }
    }

    /// After a call.
    pub open spec fn after(self, call: SlotCall) -> Self {
        match call {
            SlotCall::Acquire => if self.free.len() > 0 {
                SlotLedger {
                    free: self.free.drop_last(),
                    held: self.held.insert(self.free.last()),
                    ..self
                }
            } else {
                self
            },
            SlotCall::Release(slot) => SlotLedger {
                free: self.free.push(slot),
                held: self.held.remove(slot),
                ..self
            },
        }
    }

    /// After all calls, one behind the other.
    pub open spec fn after_all(self, calls: Seq<SlotCall>) -> Self
        decreases calls.len(),
    {
        if calls.len() == 0 {
            self
        } else {
            self.after_all(calls.drop_last()).after(calls.last())
        }
    }

    /// Only slots that are held are given back.
    pub open spec fn releases_held(self, calls: Seq<SlotCall>) -> bool
        decreases calls.len(),
    {
        calls.len() > 0 ==> {
            &&& self.releases_held(calls.drop_last())
            &&& calls.last() matches SlotCall::Release(slot) ==> self.after_all(
                calls.drop_last(),
            ).held.contains(slot)
        }
    }

    /// Each slot is either free, once, or held; together they are all slots.
    pub open spec fn adds_up(self) -> bool {
        &&& self.free.no_duplicates()
        &&& self.held.finite()
        &&& self.free.len() + self.held.len() == self.capacity
        &&& forall|slot: usize| #[trigger] self.held.contains(slot) ==> slot < self.capacity
        &&& forall|k: int|
            0 <= k < self.free.len() ==> (#[trigger] self.free[k]) < self.capacity
                && !self.held.contains(self.free[k])
    }
}

/// A call keeps free and held slots together the capacity.
proof fn lemma_call_adds_up(l: SlotLedger, call: SlotCall)
    requires
        l.adds_up(),
        call matches SlotCall::Release(slot) ==> l.held.contains(slot),
    ensures
        l.after(call).adds_up(),
{
    let t = l.after(call);
    match call {
        SlotCall::Acquire => {
            if l.free.len() > 0 {
                let n = l.free.len();
                let last = l.free[n - 1];
                assert(last == l.free.last());
                assert forall|k: int| 0 <= k < t.free.len() implies (#[trigger] t.free[k])
                    < t.capacity && !t.held.contains(t.free[k]) by {
                    assert(t.free[k] == l.free[k]);
                    assert(l.free[k] != l.free[n - 1]);
                }
            }
        },
        SlotCall::Release(slot) => {
            let n = l.free.len();
            assert forall|k: int| 0 <= k < t.free.len() implies (#[trigger] t.free[k]) < t.capacity
                && !t.held.contains(t.free[k]) by {
                if k < n {
                    assert(t.free[k] == l.free[k]);
                }
            }
            assert forall|a: int, b: int|
                0 <= a < t.free.len() && 0 <= b < t.free.len() && a != b implies t.free[a]
                != t.free[b] by {
                if a < n && b < n {
                    assert(l.free[a] != l.free[b]);
                } else if a < n {
                    assert(!l.held.contains(l.free[a]));
                } else {
                    assert(!l.held.contains(l.free[b]));
                }
            }
        },
    }
}

/// Over any run of calls that give back held slots only, free and held slots
/// together are the capacity, and none is both. The next slot is one that
/// nobody holds; there is none exactly when all are held.
pub proof fn law_slots_add_up(capacity: usize, calls: Seq<SlotCall>)
    requires
        SlotLedger::new(capacity).releases_held(calls),
    ensures
        ({
            let l = SlotLedger::new(capacity).after_all(calls);
            &&& l.adds_up()
            &&& l.capacity == capacity
            &&& l.next() is None <==> l.held.len() == capacity
            &&& l.next() matches Some(slot) ==> slot < capacity && !l.held.contains(slot)
        }),
    decreases calls.len(),
{
    let l = SlotLedger::new(capacity).after_all(calls);
    if calls.len() > 0 {
        law_slots_add_up(capacity, calls.drop_last());
        lemma_call_adds_up(SlotLedger::new(capacity).after_all(calls.drop_last()), calls.last());
    }
    if l.free.len() > 0 {
        assert(l.free[l.free.len() - 1] == l.free.last());
    }
}

/// A new allocator gives its slots in order.
pub proof fn law_first_slots_in_order(capacity: usize, n: nat)
    requires
        n < capacity,
    ensures
        SlotLedger::new(capacity).after_all(Seq::new(n, |i: int| SlotCall::Acquire)).next() == Some(
            n as usize,
        ),
{
    lemma_acquired(capacity, n);
}

/// After `n` calls the first `n` slots are taken.
proof fn lemma_acquired(capacity: usize, n: nat)
    requires
        n <= capacity,
    ensures
        SlotLedger::new(capacity).after_all(Seq::new(n, |i: int| SlotCall::Acquire)).free
            == SlotLedger::new(capacity).free.take(capacity - n),
    decreases n,
{
    let start = SlotLedger::new(capacity);
    let calls = Seq::new(n, |i: int| SlotCall::Acquire);
    if n == 0 {
        assert(start.free.take(capacity as int) =~= start.free);
    } else {
        let before = Seq::new((n - 1) as nat, |i: int| SlotCall::Acquire);
        lemma_acquired(capacity, (n - 1) as nat);
        assert(calls.drop_last() =~= before);
        assert(start.free.take(capacity - n + 1).drop_last() =~= start.free.take(capacity - n));
    }
}

} // verus!
