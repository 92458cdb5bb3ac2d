//! The numbers that bit patterns of single precision stand for, and what
//! greedy decoding picks among them.

use vstd::prelude::*;
use vstd::arithmetic::power2::{lemma_pow2_pos, lemma_pow2_strictly_increases, lemma_pow2_unfold, pow2};

use crate::decoder::greedy;

verus! {

/// The exponent field of a bit pattern.
pub open spec fn exponent(bits: u32) -> int {
    (bits as int / 0x80_0000) % 256
}

/// The fraction field of a bit pattern.
pub open spec fn fraction(bits: u32) -> int {
    bits as int % 0x80_0000
}

/// The size of the number that fields stand for, in units of the smallest
/// number above zero: subnormal below the first exponent, else with a leading
/// bit before the fraction. Infinity counts as the number behind the largest.
pub open spec fn size_of(exponent: int, fraction: int) -> int {
    if exponent == 0 {
        fraction
    } else {
        (0x80_0000 + fraction) * pow2((exponent - 1) as nat)
    }
}

/// The number that a bit pattern stands for, in units of the smallest number
/// above zero.
pub open spec fn value(bits: u32) -> int {
    if bits as int / 0x8000_0000 == 0 {
        size_of(exponent(bits), fraction(bits))
    } else {
        -size_of(exponent(bits), fraction(bits))
    }
}

/// The pattern stands for no number: the highest exponent with a fraction.
pub open spec fn not_a_number(bits: u32) -> bool {
    exponent(bits) == 255 && fraction(bits) != 0
}

/// Sizes grow with the exponent, and within one with the fraction.
proof fn lemma_sizes_grow(e: int, m: int, f: int, n: int)
    requires
        0 <= e <= f,
        0 <= m < 0x80_0000,
        0 <= n < 0x80_0000,
        e < f || m < n,
    ensures
        0 <= size_of(e, m) < size_of(f, n),
{
    if e == f {
        if e > 0 {
            let p = pow2((e - 1) as nat) as int;
            lemma_pow2_pos((e - 1) as nat);
            assert(0 <= (0x80_0000 + m) * p < (0x80_0000 + n) * p) by (nonlinear_arith)
                requires
                    0 <= m < n,
                    p > 0,
            ;
        }
    } else {
        let q = pow2((f - 1) as nat) as int;
        lemma_pow2_pos((f - 1) as nat);
        assert(0x80_0000 * q <= (0x80_0000 + n) * q) by (nonlinear_arith)
            requires
                n >= 0,
                q > 0,
        ;
        if e > 0 {
            let p = pow2((e - 1) as nat) as int;
            lemma_pow2_pos((e - 1) as nat);
            lemma_pow2_unfold(e as nat);
            assert(pow2(e as nat) == 2 * p);
            if e < f - 1 {
                lemma_pow2_strictly_increases(e as nat, (f - 1) as nat);
            }
            assert(2 * p <= q);
            assert(0 <= (0x80_0000 + m) * p < 0x80_0000 * (2 * p)) by (nonlinear_arith)
                requires
                    0 <= m < 0x80_0000,
                    p > 0,
            ;
        }
    }
}

/// Fields of the magnitude are fields of the pattern.
proof fn lemma_fields(bits: u32)
    ensures
        greedy::magnitude(bits) == exponent(bits) * 0x80_0000 + fraction(bits),
        0 <= exponent(bits) < 256,
        0 <= fraction(bits) < 0x80_0000,
        (bits as int / 0x8000_0000 == 0) == (bits < 0x8000_0000),
{
}

/// A pattern counts as not a number where it stands for none.
pub proof fn law_nan_patterns(bits: u32)
    ensures
        greedy::is_nan(bits) <==> not_a_number(bits),
{
    lemma_fields(bits);
}

/// One pattern is greater than another where both stand for numbers and its
/// number is greater.
pub proof fn law_greater_compares_numbers(a: u32, b: u32)
    ensures
        greedy::greater(a, b) <==> !not_a_number(a) && !not_a_number(b) && value(a) > value(b),
{
    law_nan_patterns(a);
    law_nan_patterns(b);
    lemma_fields(a);
    lemma_fields(b);
    let (e, m) = (exponent(a), fraction(a));
    let (f, n) = (exponent(b), fraction(b));
    if e < f || e == f && m < n {
        lemma_sizes_grow(e, m, f, n);
    } else if f < e || f == e && n < m {
        lemma_sizes_grow(f, n, e, m);
    }
    if e > 0 || m > 0 {
        lemma_sizes_grow(0, 0, e, m);
    }
    if f > 0 || n > 0 {
        lemma_sizes_grow(0, 0, f, n);
    }
}

/// Greedy decoding picks a token with the greatest number in the row, the
/// first where several have it; patterns that stand for no number are passed
/// over.
pub proof fn law_pick_is_first_greatest(row: Seq<u32>, k: int, j: int)
    requires
        greedy::is_pick(row, k),
        0 <= j < row.len(),
        !not_a_number(row[j]),
        value(row[j]) > value(0xFF80_0000),
    ensures
        0 <= k < row.len(),
        !not_a_number(row[k]),
        value(row[j]) <= value(row[k]),
        j < k ==> value(row[j]) < value(row[k]),
{
    assert(!not_a_number(0xFF80_0000));
    law_greater_compares_numbers(row[j], 0xFF80_0000);
    assert(greedy::greater(row[j], greedy::NEG_INFINITY_BITS));
    law_nan_patterns(row[k]);
    law_nan_patterns(row[j]);
    law_greater_compares_numbers(row[j], row[k]);
    law_greater_compares_numbers(row[k], row[j]);
}

/// A row of logits is the stretch of as many as the vocabulary has, behind
/// the rows before it.
pub proof fn law_rows_of_logits(logits: Seq<u32>, vocab: int, b: int, j: int)
    requires
        0 <= b,
        0 <= j < vocab,
        (b + 1) * vocab <= logits.len(),
    ensures
        greedy::logits_row(logits, vocab, b).len() == vocab,
        greedy::logits_row(logits, vocab, b)[j] == logits[b * vocab + j],
{
    assert(0 <= b * vocab && b * vocab + vocab == (b + 1) * vocab) by (nonlinear_arith)
        requires
            0 <= b,
            0 <= vocab,
    ;
}

} // verus!
