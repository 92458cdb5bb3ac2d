use vstd::prelude::*;

use crate::kcmm::pool::{KcmmPool, PoolError};
use crate::kcmm::pool_model::PoolView;
use crate::kcmm::superblock::{BlockHandle, HALF_BYTES, SUPERBLOCK_SIZE};
use crate::kv_write;
use crate::kv_write::{KvBases, KvPlan, KvRow};

verus! {

impl PoolView {
    /// Half-precision elements that one position takes in a layer's K region.
    pub open spec fn step(self) -> int {
        self.shape.elem_per_block as int / self.shape.block_size as int
    }

    /// The mapped part of every region can be addressed.
    pub open spec fn regions_fit(self) -> bool {
        forall|l: int, is_v: bool|
            0 <= l < self.shape.num_layers ==> #[trigger] self.region(l, is_v)
                + self.pools.backing.len() * SUPERBLOCK_SIZE <= u64::MAX
    }

    /// The rows of new data can be addressed.
    pub open spec fn sources_fit(self, batch: int, k_src: u64, v_src: u64) -> bool {
        let bytes = batch * (self.step() * HALF_BYTES);
        bytes <= usize::MAX && k_src + bytes <= u64::MAX && v_src + bytes <= u64::MAX
    }

    /// Addresses for the rows of a layer.
    pub open spec fn bases(self, layer: int, k_src: u64, v_src: u64) -> KvBases {
        KvBases { va_k: self.va_k[layer], va_v: self.va_v[layer], k_src, v_src }
    }

    /// Row `b` goes to position `pos` of sequence `s`.
    pub open spec fn row_at(self, bases: KvBases, b: int, s: usize, pos: usize) -> KvRow<PoolError> {
        let table = self.sequences[s as int].block_table;
        let logical = pos as int / self.shape.block_size as int;
        if logical >= table.len() {
            KvRow::Fail(
                PoolError::LogicalBlockMissing {
                    logical_block: logical as usize,
                    allocated: table.len() as usize,
                    seq_idx: s,
                },
            )
        } else {
            KvRow::Copy(
                bases.spec_copy(
                    self.blocks[table[logical] as int].va_offset as int,
                    pos as int % self.shape.block_size as int,
                    b,
                    self.step(),
                ),
            )
        }
    }

    /// As `row_at`, with errors for an unknown sequence and for a block that
    /// is not in use.
    pub open spec fn checked_row_at(self, bases: KvBases, b: int, s: u32, pos: u32) -> KvRow<PoolError> {
        let table = self.sequences[s as int].block_table;
        let logical = pos as int / self.shape.block_size as int;
        if s >= self.sequences.len() {
            KvRow::Fail(PoolError::SequenceOutOfBounds(s as usize))
        } else if logical < table.len() && !self.used(table[logical]) {
            KvRow::Fail(PoolError::BlockNotInUse(table[logical]))
        } else {
            self.row_at(bases, b, s as usize, pos as usize)
        }
    }

    /// Row `b` goes to physical slot `slot`, that is to position
    /// `slot % block_size` of block index `slot / block_size`; a negative slot
    /// is padding.
    pub open spec fn row_in_slot(self, bases: KvBases, b: int, slot: i64) -> KvRow<PoolError> {
        let i = slot as int / self.shape.block_size as int;
        if slot < 0 {
            KvRow::Skip
        } else if i >= self.blocks.len() || !self.blocks[i].in_use {
            KvRow::Fail(PoolError::SlotNotInUse { block_idx: i as usize, slot })
        } else {
            KvRow::Copy(
                bases.spec_copy(
                    self.blocks[i].va_offset as int,
                    slot as int % self.shape.block_size as int,
                    b,
                    self.step(),
                ),
            )
        }
    }

    /// The rows that `append_kv_step` places.
    pub open spec fn step_rows(
        self,
        bases: KvBases,
        seqs: Seq<usize>,
        positions: Seq<usize>,
    ) -> Seq<KvRow<PoolError>> {
        Seq::new(seqs.len(), |b: int| self.row_at(bases, b, seqs[b], positions[b]))
    }

    /// The rows that the checked form of `append_kv_step` places.
    pub open spec fn checked_rows(
        self,
        bases: KvBases,
        seqs: Seq<u32>,
        positions: Seq<u32>,
    ) -> Seq<KvRow<PoolError>> {
        Seq::new(seqs.len(), |b: int| self.checked_row_at(bases, b, seqs[b], positions[b]))
    }

    /// The rows that `append_kv_slots` places.
    pub open spec fn slot_rows(self, bases: KvBases, slots: Seq<i64>) -> Seq<KvRow<PoolError>> {
        Seq::new(slots.len(), |b: int| self.row_in_slot(bases, b, slots[b]))
    }
}

impl KcmmPool {
    /// A position of an existing block lies within the block, and its
    /// addresses can be computed.
    pub proof fn lemma_row_fits(&self, layer: int, i: int, oib: int, b: int, batch: int, k_src: u64, v_src: u64)
        requires
            self.wf(),
            self@.regions_fit(),
            self@.sources_fit(batch, k_src, v_src),
            0 <= layer < self@.shape.num_layers,
            0 <= i < self@.blocks.len(),
            0 <= oib < self@.shape.block_size,
            0 <= b < batch,
        ensures
            ({
                let off = self@.blocks[i].va_offset as int;
                let dst = kv_write::row_offset(off, oib, self@.step());
                &&& self@.bases(layer, k_src, v_src).copy_fits(off, oib, b, self@.step())
                &&& off <= dst
                &&& dst + self@.step() * HALF_BYTES <= off + self@.pools.block_bytes
            }),
    {
        let s = self@;
        assert(s.block_ok(s.blocks[i]));
        self.pools.lemma_offset_fits(s.blocks[i].handle());
        let off = s.blocks[i].va_offset as int;
        let step = s.step();
        let bs = s.shape.block_size as int;
        let epb = s.shape.elem_per_block as int;
        vstd::arithmetic::div_mod::lemma_fundamental_div_mod(epb, bs);
        vstd::arithmetic::div_mod::lemma_div_nonincreasing(epb, bs);
        assert(step >= 0) by (nonlinear_arith)
            requires
                step == epb / bs,
                epb >= 0,
                bs > 0,
        ;
        assert(oib * step + step <= bs * step) by (nonlinear_arith)
            requires
                oib < bs,
                step >= 0,
        ;
        assert(oib * step >= 0) by (nonlinear_arith)
            requires
                oib >= 0,
                step >= 0,
        ;
        assert(b * (step * HALF_BYTES) + step * HALF_BYTES <= batch * (step * HALF_BYTES))
            by (nonlinear_arith)
            requires
                b < batch,
                step >= 0,
        ;
        assert(b * step * HALF_BYTES == b * (step * HALF_BYTES)) by (nonlinear_arith);
        assert(0 <= b * (step * HALF_BYTES)) by (nonlinear_arith)
            requires
                b >= 0,
                step >= 0,
        ;
        // Blocks start at even offsets: superblocks and blocks have even sizes.
        let h: BlockHandle = s.blocks[i].handle();
        assert(off % 2 == 0) by {
            assert(h.block_index * s.pools.block_bytes == (h.block_index * epb) * 2)
                by (nonlinear_arith)
                requires
                    s.pools.block_bytes == epb * 2,
            ;
        }
        assert(s.region(layer, false) + s.pools.backing.len() * SUPERBLOCK_SIZE <= u64::MAX);
        assert(s.region(layer, true) + s.pools.backing.len() * SUPERBLOCK_SIZE <= u64::MAX);
    }

    /// Plan the copies that write one position of each listed sequence into a
    /// layer, from rows of new K data at `k_src` and V data at `v_src`.
    pub fn append_kv_step(
        &self,
        layer_idx: usize,
        seq_indices: &Vec<usize>,
        positions: &Vec<usize>,
        k_src: u64,
        v_src: u64,
    ) -> (r: KvPlan<PoolError>)
        requires
            self.wf(),
            self@.regions_fit(),
            layer_idx < self@.shape.num_layers,
            positions@.len() >= seq_indices@.len(),
            self@.sources_fit(seq_indices@.len() as int, k_src, v_src),
            forall|b: int|
                0 <= b < seq_indices@.len() ==> (#[trigger] seq_indices@[b])
                    < self@.sequences.len() && self@.table_ok(
                    self@.sequences[seq_indices@[b] as int].block_table,
                ),
        ensures
            r.is_for(
                self@.step_rows(
                    self@.bases(layer_idx as int, k_src, v_src),
                    seq_indices@,
                    positions@,
                ),
            ),
    {
        let step: usize = self.elem_per_block / self.block_size;
        let bases: KvBases = KvBases {
            va_k: self.va_k[layer_idx],
            va_v: self.va_v[layer_idx],
            k_src,
            v_src,
        };
        let ghost rows = self@.step_rows(bases, seq_indices@, positions@);
        let mut plan: KvPlan<PoolError> = KvPlan { copies: Vec::new(), error: None };
        assert(rows.take(0) =~= Seq::<KvRow<PoolError>>::empty());
        let mut b: usize = 0;
        while b < seq_indices.len()
            invariant
                self.wf(),
                self@.regions_fit(),
                layer_idx < self@.shape.num_layers,
                positions@.len() >= seq_indices@.len(),
                self@.sources_fit(seq_indices@.len() as int, k_src, v_src),
                forall|i: int|
                    0 <= i < seq_indices@.len() ==> (#[trigger] seq_indices@[i])
                        < self@.sequences.len() && self@.table_ok(
                        self@.sequences[seq_indices@[i] as int].block_table,
                    ),
                bases == self@.bases(layer_idx as int, k_src, v_src),
                rows == self@.step_rows(bases, seq_indices@, positions@),
                step == self@.step(),
                b <= seq_indices@.len(),
                plan.error is None,
                plan.is_for(rows.take(b as int)),
            decreases seq_indices@.len() - b,
        {
            let seq_idx: usize = seq_indices[b];
            let pos: usize = positions[b];
            let logical_block: usize = pos / self.block_size;
            let offset_in_block: usize = pos % self.block_size;
            proof {
                assert(rows.take(b + 1).drop_last() =~= rows.take(b as int));
                assert(rows.take(b + 1).last() == self@.row_at(bases, b as int, seq_idx, pos));
                assert(self@.sequences[seq_idx as int] == self.sequences@[seq_idx as int]@);
            }
            if logical_block >= self.sequences[seq_idx].block_table.len() {
                plan.error = Some(
                    PoolError::LogicalBlockMissing {
                        logical_block,
                        allocated: self.sequences[seq_idx].block_table.len(),
                        seq_idx,
                    },
                );
                proof {
                    kv_write::lemma_plan_stops(rows, b + 1);
                }
                return plan;
            }
            let block_idx: usize = self.sequences[seq_idx].block_table[logical_block] as usize;
            proof {
                self.lemma_row_fits(
                    layer_idx as int,
                    block_idx as int,
                    offset_in_block as int,
                    b as int,
                    seq_indices@.len() as int,
                    k_src,
                    v_src,
                );
            }
            let copy = bases.copy(self.block_info[block_idx].va_offset, offset_in_block, b, step);
            plan.copies.push(copy);
            b = b + 1;
        }
        assert(rows.take(rows.len() as int) =~= rows);
        plan
    }

    /// As `append_kv_step`, for callers whose indices are not to be relied on.
    pub fn append_kv_step_checked(
        &self,
        layer_idx: u32,
        seq_indices: &[u32],
        positions: &[u32],
        k_src: u64,
        v_src: u64,
    ) -> (r: Result<KvPlan<PoolError>, PoolError>)
        requires
            self.wf(),
            self@.regions_fit(),
            positions@.len() == seq_indices@.len(),
            self@.sources_fit(seq_indices@.len() as int, k_src, v_src),
        ensures
            layer_idx >= self@.shape.num_layers ==> r == Err::<KvPlan<PoolError>, PoolError>(
                PoolError::LayerOutOfBounds(layer_idx as usize),
            ),
            layer_idx < self@.shape.num_layers ==> (r matches Ok(plan) && plan.is_for(
                self@.checked_rows(
                    self@.bases(layer_idx as int, k_src, v_src),
                    seq_indices@,
                    positions@,
                ),
            )),
    {
        let layer: usize = layer_idx as usize;
        if layer >= self.va_k.len() {
            return Err(PoolError::LayerOutOfBounds(layer));
        }
        let step: usize = self.elem_per_block / self.block_size;
        let bases: KvBases = KvBases {
            va_k: self.va_k[layer],
            va_v: self.va_v[layer],
            k_src,
            v_src,
        };
        let ghost rows = self@.checked_rows(bases, seq_indices@, positions@);
        let mut plan: KvPlan<PoolError> = KvPlan { copies: Vec::new(), error: None };
        assert(rows.take(0) =~= Seq::<KvRow<PoolError>>::empty());
        let mut b: usize = 0;
        while b < seq_indices.len()
            invariant
                self.wf(),
                self@.regions_fit(),
                layer == layer_idx,
                layer < self@.shape.num_layers,
                positions@.len() == seq_indices@.len(),
                self@.sources_fit(seq_indices@.len() as int, k_src, v_src),
                bases == self@.bases(layer as int, k_src, v_src),
                rows == self@.checked_rows(bases, seq_indices@, positions@),
                step == self@.step(),
                b <= seq_indices@.len(),
                plan.error is None,
                plan.is_for(rows.take(b as int)),
            decreases seq_indices@.len() - b,
        {
            let seq_idx: usize = seq_indices[b] as usize;
            let pos: usize = positions[b] as usize;
            proof {
                assert(rows.take(b + 1).drop_last() =~= rows.take(b as int));
                assert(rows.take(b + 1).last() == self@.checked_row_at(
                    bases,
                    b as int,
                    seq_indices@[b as int],
                    positions@[b as int],
                ));
            }
            let logical_block: usize = pos / self.block_size;
            let offset_in_block: usize = pos % self.block_size;
            let mut fail: Option<PoolError> = None;
            let mut block_idx: usize = 0;
            if seq_idx >= self.sequences.len() {
                fail = Some(PoolError::SequenceOutOfBounds(seq_idx));
            } else {
                assert(self@.sequences[seq_idx as int] == self.sequences@[seq_idx as int]@);
                if logical_block >= self.sequences[seq_idx].block_table.len() {
                    fail = Some(
                        PoolError::LogicalBlockMissing {
                            logical_block,
                            allocated: self.sequences[seq_idx].block_table.len(),
                            seq_idx,
                        },
                    );
                } else {
                    let idx: u32 = self.sequences[seq_idx].block_table[logical_block];
                    block_idx = idx as usize;
                    if block_idx >= self.block_info.len() || !self.block_info[block_idx].in_use {
                        fail = Some(PoolError::BlockNotInUse(idx));
                    }
                }
            }
            if fail.is_some() {
                plan.error = fail;
                proof {
                    kv_write::lemma_plan_stops(rows, b + 1);
                }
                return Ok(plan);
            }
            proof {
                self.lemma_row_fits(
                    layer as int,
                    block_idx as int,
                    offset_in_block as int,
                    b as int,
                    seq_indices@.len() as int,
                    k_src,
                    v_src,
                );
            }
            let copy = bases.copy(self.block_info[block_idx].va_offset, offset_in_block, b, step);
            plan.copies.push(copy);
            b = b + 1;
        }
        assert(rows.take(rows.len() as int) =~= rows);
        Ok(plan)
    }

    /// Plan the copies that write one row into each listed physical slot.
    pub fn append_kv_slots(&self, layer_idx: u32, slots: &[i64], k_src: u64, v_src: u64) -> (r: Result<
        KvPlan<PoolError>,
        PoolError,
    >)
        requires
            self.wf(),
            self@.regions_fit(),
            self@.sources_fit(slots@.len() as int, k_src, v_src),
            forall|b: int| 0 <= b < slots@.len() ==> (#[trigger] slots@[b]) <= usize::MAX,
        ensures
            layer_idx >= self@.shape.num_layers ==> r == Err::<KvPlan<PoolError>, PoolError>(
                PoolError::LayerOutOfBounds(layer_idx as usize),
            ),
            layer_idx < self@.shape.num_layers ==> (r matches Ok(plan) && plan.is_for(
                self@.slot_rows(self@.bases(layer_idx as int, k_src, v_src), slots@),
            )),
    {
        let layer: usize = layer_idx as usize;
        if layer >= self.va_k.len() {
            return Err(PoolError::LayerOutOfBounds(layer));
        }
        let step: usize = self.elem_per_block / self.block_size;
        let bases: KvBases = KvBases {
            va_k: self.va_k[layer],
            va_v: self.va_v[layer],
            k_src,
            v_src,
        };
        let ghost rows = self@.slot_rows(bases, slots@);
        let mut plan: KvPlan<PoolError> = KvPlan { copies: Vec::new(), error: None };
        assert(rows.take(0) =~= Seq::<KvRow<PoolError>>::empty());
        let mut b: usize = 0;
        while b < slots.len()
            invariant
                self.wf(),
                self@.regions_fit(),
                layer == layer_idx,
                layer < self@.shape.num_layers,
                self@.sources_fit(slots@.len() as int, k_src, v_src),
                forall|i: int| 0 <= i < slots@.len() ==> (#[trigger] slots@[i]) <= usize::MAX,
                bases == self@.bases(layer as int, k_src, v_src),
                rows == self@.slot_rows(bases, slots@),
                step == self@.step(),
                b <= slots@.len(),
                plan.error is None,
                plan.is_for(rows.take(b as int)),
            decreases slots@.len() - b,
        {
            let slot: i64 = slots[b];
            proof {
                assert(rows.take(b + 1).drop_last() =~= rows.take(b as int));
                assert(rows.take(b + 1).last() == self@.row_in_slot(bases, b as int, slot));
            }
            if slot >= 0 {
                let flat: usize = slot as usize;
                let block_idx: usize = flat / self.block_size;
                let offset_in_block: usize = flat % self.block_size;
                if block_idx >= self.block_info.len() || !self.block_info[block_idx].in_use {
                    plan.error = Some(PoolError::SlotNotInUse { block_idx, slot });
                    proof {
                        kv_write::lemma_plan_stops(rows, b + 1);
                    }
                    return Ok(plan);
                }
                proof {
                    self.lemma_row_fits(
                        layer as int,
                        block_idx as int,
                        offset_in_block as int,
                        b as int,
                        slots@.len() as int,
                        k_src,
                        v_src,
                    );
                }
                let copy = bases.copy(
                    self.block_info[block_idx].va_offset,
                    offset_in_block,
                    b,
                    step,
                );
                plan.copies.push(copy);
            }
            b = b + 1;
        }
        assert(rows.take(rows.len() as int) =~= rows);
        Ok(plan)
    }
}

} // verus!
