use vstd::prelude::*;

verus! {

/// The value of little-endian bytes.
pub open spec fn le_value(s: Seq<u8>) -> nat
    decreases s.len(),
{
    if s.len() == 0 {
        0
    } else {
        s[0] as nat + 256 * le_value(s.drop_first())
    }
}

/// The `n` little-endian bytes of a value.
pub open spec fn le_bytes(v: nat, n: nat) -> Seq<u8>
    decreases n,
{
    if n == 0 {
        Seq::empty()
    } else {
        seq![(v % 256) as u8] + le_bytes(v / 256, (n - 1) as nat)
    }
}

/// 256 to the power of `n`.
pub open spec fn byte_range(n: nat) -> nat
    decreases n,
{
    if n == 0 {
        1
    } else {
        256 * byte_range((n - 1) as nat)
    }
}

/// Bytes have no larger value than their number allows.
pub proof fn lemma_le_value_bounded(s: Seq<u8>)
    ensures
        le_value(s) < byte_range(s.len()),
    decreases s.len(),
{
    if s.len() > 0 {
        lemma_le_value_bounded(s.drop_first());
    }
}

/// Eight bytes give a 64-bit number, four a 32-bit number.
pub proof fn lemma_byte_ranges()
    ensures
        byte_range(4) == 0x1_0000_0000,
        byte_range(8) == 0x1_0000_0000_0000_0000,
{
    reveal_with_fuel(byte_range, 9);
}

/// What is written comes back when it is read.
pub proof fn law_le_round_trip(v: nat, n: nat)
    requires
        v < byte_range(n),
    ensures
        le_bytes(v, n).len() == n,
        le_value(le_bytes(v, n)) == v,
    decreases n,
{
    if n > 0 {
        law_le_round_trip(v / 256, (n - 1) as nat);
        assert(le_bytes(v, n).drop_first() =~= le_bytes(v / 256, (n - 1) as nat));
    }
}

/// There are as many bytes as asked for.
pub proof fn lemma_le_bytes_len(v: nat, n: nat)
    ensures
        le_bytes(v, n).len() == n,
    decreases n,
{
    if n > 0 {
        lemma_le_bytes_len(v / 256, (n - 1) as nat);
    }
}

/// A larger number of bytes has a larger range.
proof fn lemma_byte_range_monotone(i: nat, n: nat)
    requires
        i <= n,
    ensures
        byte_range(i) <= byte_range(n),
    decreases n,
{
    if i < n {
        lemma_byte_range_monotone(i, (n - 1) as nat);
    }
}

/// Read the `n` little-endian bytes at `from`.
pub fn read_le(bytes: &[u8], from: usize, n: usize) -> (r: u64)
    requires
        n <= 8,
        from + n <= bytes@.len(),
    ensures
        r == le_value(bytes@.subrange(from as int, from + n)),
{
    assert(from + n <= bytes.len());
    let end: usize = from + n;
    let mut v: u64 = 0;
    let mut i: usize = n;
    while i > 0
        invariant
            i <= n <= 8,
            end == from + n,
            end <= bytes@.len(),
            v == le_value(bytes@.subrange(from + i, from + n)),
        decreases i,
    {
        i = i - 1;
        proof {
            let s = bytes@.subrange(from + i, from + n);
            assert(s.drop_first() =~= bytes@.subrange(from + i + 1, from + n));
            assert(s[0] == bytes@[from + i]);
            lemma_le_value_bounded(s);
            lemma_byte_range_monotone(s.len(), 8);
            lemma_byte_ranges();
        }
        v = v * 256 + bytes[from + i] as u64;
    }
    v
}

/// Append the `n` little-endian bytes of a value.
pub fn write_le(out: &mut Vec<u8>, v: u64, n: usize)
    ensures
        final(out)@ == old(out)@ + le_bytes(v as nat, n as nat),
    decreases n,
{
    if n > 0 {
        out.push((v % 256) as u8);
        write_le(out, v / 256, n - 1);
    }
    assert(out@ =~= old(out)@ + le_bytes(v as nat, n as nat));
}

/// Byte `i` of a value stands for multiples of 256 to the power `i`: the
/// lowest comes first.
pub proof fn law_lowest_byte_first(v: nat, n: nat, i: nat)
    requires
        i < n,
    ensures
        le_bytes(v, n).len() == n,
        le_bytes(v, n)[i as int] == (v / byte_range(i)) % 256,
        byte_range(0) == 1,
        byte_range(i + 1) == 256 * byte_range(i),
    decreases n,
{
    lemma_le_bytes_len(v, n);
    if i > 0 {
        let j = (i - 1) as nat;
        law_lowest_byte_first(v / 256, (n - 1) as nat, j);
        assert(le_bytes(v, n)[i as int] == le_bytes(v / 256, (n - 1) as nat)[j as int]);
        lemma_byte_range_monotone(0, j);
        let r = byte_range(j) as int;
        vstd::arithmetic::div_mod::lemma_div_denominator(v as int, 256, r);
        assert(v as int / (256 * r) == (v as int / 256) / r);
    } else {
        assert(byte_range(0) == 1);
        assert(v / byte_range(0) == v) by (nonlinear_arith)
            requires
                byte_range(0) == 1,
        ;
    }
}

/// Bytes read are worth what each stands for: putting a byte behind others
/// adds it times the range of these.
pub proof fn law_last_byte_weighs_most(s: Seq<u8>, b: u8)
    ensures
        le_value(s.push(b)) == le_value(s) + b * byte_range(s.len()),
        le_value(Seq::empty()) == 0,
    decreases s.len(),
{
    reveal_with_fuel(le_value, 2);
    if s.len() == 0 {
        assert(s.push(b).drop_first() =~= Seq::<u8>::empty());
        assert(s.push(b)[0] == b);
        assert(b * 1 == b) by (nonlinear_arith);
        assert(byte_range(s.len()) == 1);
    } else {
        law_last_byte_weighs_most(s.drop_first(), b);
        assert(s.push(b).drop_first() =~= s.drop_first().push(b));
        assert(s.push(b)[0] == s[0]);
        let r = byte_range(s.drop_first().len());
        let rest = le_value(s.drop_first());
        assert(byte_range(s.len()) == 256 * r);
        assert(le_value(s.push(b)) == s[0] + 256 * le_value(s.drop_first().push(b)));
        assert(256 * (rest + b * r) == 256 * rest + b * (256 * r)) by (nonlinear_arith);
    }
}

} // verus!
