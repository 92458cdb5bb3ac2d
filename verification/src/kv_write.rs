use vstd::prelude::*;

use crate::kcmm::superblock::HALF_BYTES;

verus! {

/// One row of new K and V data to copy within GPU memory.
#[derive(Debug, Clone, Copy, PartialEq, Eq, Structural)]
pub struct KvCopy {
    pub dst_k: u64,
    pub dst_v: u64,
    pub src_k: u64,
    pub src_v: u64,
    pub nbytes: usize,
}

/// Addresses that the rows of one layer are copied between.
#[derive(Debug, Clone, Copy, PartialEq, Eq, Structural)]
pub struct KvBases {
    /// Start of the layer's K region.
    pub va_k: u64,
    /// Start of the layer's V region.
    pub va_v: u64,
    /// First row of new K data.
    pub k_src: u64,
    /// First row of new V data.
    pub v_src: u64,
}

/// Byte offset, within a region, of position `offset_in_block` of the block
/// at `va_offset`; a position takes `step` half-precision elements.
pub open spec fn row_offset(va_offset: int, offset_in_block: int, step: int) -> int {
    (va_offset / HALF_BYTES as int + offset_in_block * step) * HALF_BYTES
}

impl KvBases {
    /// The copy of source row `b` to position `offset_in_block` of the block
    /// at `va_offset`.
    pub open spec fn spec_copy(
        self,
        va_offset: int,
        offset_in_block: int,
        b: int,
        step: int,
    ) -> KvCopy {
        let dst = row_offset(va_offset, offset_in_block, step);
        let src = b * step * HALF_BYTES;
        KvCopy {
            dst_k: (self.va_k + dst) as u64,
            dst_v: (self.va_v + dst) as u64,
            src_k: (self.k_src + src) as u64,
            src_v: (self.v_src + src) as u64,
            nbytes: (step * HALF_BYTES) as usize,
        }
    }

    /// The addresses of the copy can be computed.
    pub open spec fn copy_fits(
        self,
        va_offset: int,
        offset_in_block: int,
        b: int,
        step: int,
    ) -> bool {
        let dst = row_offset(va_offset, offset_in_block, step);
        let src = b * step * HALF_BYTES;
        &&& offset_in_block * step <= usize::MAX
        &&& dst <= usize::MAX
        &&& src <= usize::MAX
        &&& step * HALF_BYTES <= usize::MAX
        &&& self.va_k + dst <= u64::MAX
        &&& self.va_v + dst <= u64::MAX
        &&& self.k_src + src <= u64::MAX
        &&& self.v_src + src <= u64::MAX
    }

    /// Compute the copy of one row.
    pub fn copy(&self, va_offset: usize, offset_in_block: usize, b: usize, step: usize) -> (r: KvCopy)
        requires
            self.copy_fits(va_offset as int, offset_in_block as int, b as int, step as int),
        ensures
            r == self.spec_copy(va_offset as int, offset_in_block as int, b as int, step as int),
    {
        proof {
            assert(0 <= offset_in_block * step) by (nonlinear_arith)
                requires
                    offset_in_block >= 0,
                    step >= 0,
            ;
            assert(0 <= b * step) by (nonlinear_arith)
                requires
                    b >= 0,
                    step >= 0,
            ;
        }
        let dst_off: usize = va_offset / HALF_BYTES + offset_in_block * step;
        let src_off: usize = b * step;
        let dst: u64 = (dst_off * HALF_BYTES) as u64;
        let src: u64 = (src_off * HALF_BYTES) as u64;
        KvCopy {
            dst_k: self.va_k + dst,
            dst_v: self.va_v + dst,
            src_k: self.k_src + src,
            src_v: self.v_src + src,
            nbytes: step * HALF_BYTES,
        }
    }
}

/// What becomes of one row of a batch.
pub enum KvRow<E> {
    /// It is copied.
    Copy(KvCopy),
    /// It is padding.
    Skip,
    /// It cannot be placed.
    Fail(E),
}

/// The copies of a batch: those of the rows before the first one that cannot
/// be placed, and why that one cannot.
#[derive(Debug)]
pub struct KvPlan<E> {
    pub copies: Vec<KvCopy>,
    pub error: Option<E>,
}

/// The copies that the rows of a batch ask for, up to the first that fails.
pub open spec fn planned_copies<E>(rows: Seq<KvRow<E>>) -> Seq<KvCopy>
    decreases rows.len(),
{
    if rows.len() == 0 {
        Seq::empty()
    } else {
        let rest = planned_copies(rows.drop_last());
        if planned_error(rows.drop_last()) is Some {
            rest
        } else {
            match rows.last() {
                KvRow::Copy(c) => rest.push(c),
                _ => rest,
            }
        }
    }
}

/// Why the first row that fails does so.
pub open spec fn planned_error<E>(rows: Seq<KvRow<E>>) -> Option<E>
    decreases rows.len(),
{
    if rows.len() == 0 {
        None
    } else {
        match planned_error(rows.drop_last()) {
            Some(e) => Some(e),
            None => match rows.last() {
                KvRow::Fail(e) => Some(e),
                _ => None,
            },
        }
    }
}

/// Rows behind one that fails change nothing.
pub proof fn lemma_plan_stops<E>(rows: Seq<KvRow<E>>, i: int)
    requires
        0 <= i <= rows.len(),
        planned_error(rows.take(i)) is Some,
    ensures
        planned_error(rows) == planned_error(rows.take(i)),
        planned_copies(rows) == planned_copies(rows.take(i)),
    decreases rows.len(),
{
    if i == rows.len() {
        assert(rows.take(i) =~= rows);
    } else {
        assert(rows.drop_last().take(i) =~= rows.take(i));
        lemma_plan_stops(rows.drop_last(), i);
    }
}

impl<E> KvPlan<E> {
    /// The plan for the given rows.
    pub open spec fn is_for(&self, rows: Seq<KvRow<E>>) -> bool {
        self.copies@ == planned_copies(rows) && self.error == planned_error(rows)
    }
}

} // verus!
