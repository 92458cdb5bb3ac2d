use vstd::prelude::*;

verus! {

/// Bit pattern of the sign of a single-precision number.
pub const SIGN_BIT: u32 = 0x8000_0000;

/// Bit pattern of positive infinity.
pub const INFINITY_BITS: u32 = 0x7F80_0000;

/// Bit pattern of negative infinity.
pub const NEG_INFINITY_BITS: u32 = 0xFF80_0000;

/// The bits of a single-precision number without its sign.
pub open spec fn magnitude(bits: u32) -> int {
    if bits < SIGN_BIT {
        bits as int
    } else {
        bits - SIGN_BIT
    }
}

/// The bits stand for no number.
pub open spec fn is_nan(bits: u32) -> bool {
    magnitude(bits) > INFINITY_BITS
}

/// An integer that orders as the single-precision number does: larger
/// magnitudes have larger bits, and both zeros are the same.
pub open spec fn order(bits: u32) -> int {
    if bits < SIGN_BIT {
        magnitude(bits)
    } else {
        -magnitude(bits)
    }
}

/// The number with bits `a` is greater than that with bits `b`. What is not a
/// number is greater than none, and none is greater than it.
pub open spec fn greater(a: u32, b: u32) -> bool {
    !is_nan(a) && !is_nan(b) && order(a) > order(b)
}

/// Whether the number with bits `a` is greater than that with bits `b`.
pub fn is_greater(a: u32, b: u32) -> (r: bool)
    ensures
        r == greater(a, b),
{
    let (ma, mb): (u32, u32) = (
        if a < SIGN_BIT {
            a
        } else {
            a - SIGN_BIT
        },
        if b < SIGN_BIT {
            b
        } else {
            b - SIGN_BIT
        },
    );
    if ma > INFINITY_BITS || mb > INFINITY_BITS {
        false
    } else if a < SIGN_BIT {
        if b < SIGN_BIT {
            ma > mb
        } else {
            ma > 0 || mb > 0
        }
    } else {
        b >= SIGN_BIT && ma < mb
    }
}

/// Entry `k` of a row of logits is the one to pick: the first of the largest.
/// In a row without a number above negative infinity that is the first.
pub open spec fn is_pick(row: Seq<u32>, k: int) -> bool {
    if exists|j: int| 0 <= j < row.len() && greater(#[trigger] row[j], NEG_INFINITY_BITS) {
        &&& 0 <= k < row.len()
        &&& !is_nan(row[k])
        &&& forall|j: int| 0 <= j < row.len() ==> !greater(#[trigger] row[j], row[k])
        &&& forall|j: int| 0 <= j < k ==> is_nan(#[trigger] row[j]) || greater(row[k], row[j])
    } else {
        k == 0
    }
}

/// The logits of batch entry `b`.
pub open spec fn logits_row(logits: Seq<u32>, vocab: int, b: int) -> Seq<u32> {
    logits.subrange(b * vocab, b * vocab + vocab)
}

/// At most one entry of a row is the one to pick.
pub proof fn law_pick_unique(row: Seq<u32>, i: int, k: int)
    requires
        is_pick(row, i),
        is_pick(row, k),
    ensures
        i == k,
{
    if exists|j: int| 0 <= j < row.len() && greater(#[trigger] row[j], NEG_INFINITY_BITS) {
        assert(!greater(row[i], row[k]));
        assert(!greater(row[k], row[i]));
    }
}

/// Pick the token with the largest logit for each batch entry; of equal ones
/// the first. `logits` holds the bits of single-precision numbers.
pub fn greedy_sample(logits: &[u32], batch: usize, vocab: usize) -> (out: Vec<u32>)
    requires
        logits@.len() == batch * vocab,
        vocab <= 0x1_0000_0000,
    ensures
        out@.len() == batch,
        forall|b: int|
            0 <= b < batch ==> is_pick(
                logits_row(logits@, vocab as int, b),
                #[trigger] out@[b] as int,
            ),
{
    let mut out: Vec<u32> = Vec::new();
    let mut b: usize = 0;
    while b < batch
        invariant
            b <= batch,
            logits@.len() == batch * vocab,
            vocab <= 0x1_0000_0000,
            out@.len() == b,
            forall|c: int|
                0 <= c < b ==> is_pick(
                    logits_row(logits@, vocab as int, c),
                    #[trigger] out@[c] as int,
                ),
        decreases batch - b,
    {
        proof {
            assert(b * vocab + vocab <= batch * vocab) by (nonlinear_arith)
                requires
                    b + 1 <= batch,
            ;
            assert(b * vocab >= 0) by (nonlinear_arith);
        }
        assert(b * vocab <= logits.len());
        let from: usize = b * vocab;
        let ghost row = logits_row(logits@, vocab as int, b as int);
        let mut idx: u32 = 0;
        let mut best: u32 = NEG_INFINITY_BITS;
        let mut i: usize = 0;
        while i < vocab
            invariant
                i <= vocab,
                vocab <= 0x1_0000_0000,
                from == b * vocab,
                from + vocab <= logits@.len(),
                row == logits@.subrange(from as int, from + vocab),
                !is_nan(best),
                forall|j: int| 0 <= j < i ==> !greater(#[trigger] row[j], best),
                best == NEG_INFINITY_BITS ==> idx == 0 && forall|j: int|
                    0 <= j < i ==> !greater(#[trigger] row[j], NEG_INFINITY_BITS),
                best != NEG_INFINITY_BITS ==> {
                    &&& idx < i
                    &&& row[idx as int] == best
                    &&& greater(best, NEG_INFINITY_BITS)
                    &&& forall|j: int|
                        0 <= j < idx ==> is_nan(#[trigger] row[j]) || greater(best, row[j])
                },
            decreases vocab - i,
        {
            assert(from + i < logits.len());
            let v: u32 = logits[from + i];
            assert(row[i as int] == v);
            if is_greater(v, best) {
                best = v;
                idx = i as u32;
            }
            i = i + 1;
        }
        proof {
            if best == NEG_INFINITY_BITS {
                assert(!exists|j: int|
                    0 <= j < row.len() && greater(#[trigger] row[j], NEG_INFINITY_BITS));
            } else {
                assert(greater(row[idx as int], NEG_INFINITY_BITS));
            }
        }
        out.push(idx);
        b = b + 1;
    }
    out
}

} // verus!
