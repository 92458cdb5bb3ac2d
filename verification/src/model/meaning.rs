use vstd::prelude::*;

use crate::model::llama_transformer::TensorRef;
use crate::model::program::{Buf, LlamaShape, Op};

verus! {

/// What the kernels compute, element by element. Nothing is assumed of it: a
/// statement about all of them is one about which data a step combines.
pub struct Kernels {
    /// Element of a normalised row: weight, row, index.
    pub norm: spec_fn(TensorRef, Seq<int>, int) -> int,
    /// Element of a row multiplied with a weight: weight, row, index.
    pub linear: spec_fn(TensorRef, Seq<int>, int) -> int,
    /// Element of heads rotated to a position: heads, position, index.
    pub rope: spec_fn(Seq<int>, usize, int) -> int,
    /// Element of the attention of heads over cached keys and values: heads,
    /// keys, values, number of positions, index.
    pub attend: spec_fn(Seq<int>, Seq<int>, Seq<int>, usize, int) -> int,
    /// Element of the attention of heads over the blocks of a sequence: heads,
    /// memory, start of the K and the V region, row, index.
    pub paged: spec_fn(Seq<int>, spec_fn(int) -> int, u64, u64, int, int) -> int,
    /// The activated first number times the second.
    pub silu_mul: spec_fn(int, int) -> int,
    /// The sum of two numbers.
    pub plus: spec_fn(int, int) -> int,
}

/// The buffers of a step, and the memory of the caches: the element at each
/// address.
pub struct Machine {
    pub bufs: spec_fn(Buf) -> Seq<int>,
    pub mem: spec_fn(int) -> int,
}

/// Memory with elements written one behind the other from `at` on, two bytes
/// each.
pub open spec fn put(mem: spec_fn(int) -> int, at: int, elems: Seq<int>) -> spec_fn(int) -> int {
    |x: int|
        if at <= x < at + 2 * elems.len() && (x - at) % 2 == 0 {
            elems[(x - at) / 2]
        } else {
            mem(x)
        }
}

/// `n` elements of memory from `at` on.
pub open spec fn read(mem: spec_fn(int) -> int, at: int, n: int) -> Seq<int> {
    Seq::new(n as nat, |j: int| mem(at + 2 * j))
}

/// Row `b` of a buffer whose rows have `w` elements.
pub open spec fn row(x: Seq<int>, b: int, w: int) -> Seq<int> {
    x.subrange(b * w, b * w + w)
}

impl Machine {
    /// The machine with other contents of a buffer.
    pub open spec fn with(self, buf: Buf, x: Seq<int>) -> Self {
        Machine {
            bufs: |y: Buf|
                if y == buf {
                    x
                } else {
                    (self.bufs)(y)
                },
            ..self
        }
    }

    /// After one operation.
    pub open spec fn after(self, a: Kernels, s: LlamaShape, op: Op) -> Self {
        match op {
            Op::Alloc { buf, elems } => self.with(buf, Seq::new(elems as nat, |i: int| 0)),
            Op::Copy { dst, src, elems } => {
                let x = (self.bufs)(dst);
                let y = (self.bufs)(src);
                self.with(
                    dst,
                    Seq::new(
                        x.len(),
                        |i: int|
                            if i < elems {
                                y[i]
                            } else {
                                x[i]
                            },
                    ),
                )
            },
            Op::RmsNorm { src, weight, dst, rows, dim } => {
                let x = (self.bufs)(dst);
                let y = (self.bufs)(src);
                self.with(
                    dst,
                    Seq::new(
                        x.len(),
                        |i: int|
                            if i < rows * dim {
                                (a.norm)(weight, row(y, i / dim as int, dim as int), i % dim as int)
                            } else {
                                x[i]
                            },
                    ),
                )
            },
            Op::Project { src, weight, dst, m, n, k } => {
                let x = (self.bufs)(dst);
                let y = (self.bufs)(src);
                self.with(
                    dst,
                    Seq::new(
                        x.len(),
                        |i: int|
                            if i < m * n {
                                (a.linear)(weight, row(y, i / n as int, k as int), i % n as int)
                            } else {
                                x[i]
                            },
                    ),
                )
            },
            Op::Rope { q_offset, q_len, k_offset, k_len, position } => {
                let q = (self.bufs)(Buf::Q);
                let k = (self.bufs)(Buf::K);
                self.with(Buf::Q, rotated_part(a, q, q_offset as int, q_len as int, position)).with(
                    Buf::K,
                    rotated_part(a, k, k_offset as int, k_len as int, position),
                )
            },
            Op::WriteKv { src_offset, elems, dst_k, dst_v } => {
                let k = (self.bufs)(Buf::K).subrange(src_offset as int, src_offset + elems);
                let v = (self.bufs)(Buf::V).subrange(src_offset as int, src_offset + elems);
                Machine { mem: put(put(self.mem, dst_k as int, k), dst_v as int, v), ..self }
            },
            Op::Attend { offset, len, k_start, v_start, cache_len, seq_len } => {
                let x = (self.bufs)(Buf::Attn);
                let q = (self.bufs)(Buf::Q).subrange(offset as int, offset + len);
                let keys = read(self.mem, k_start as int, cache_len as int);
                let values = read(self.mem, v_start as int, cache_len as int);
                self.with(
                    Buf::Attn,
                    Seq::new(
                        x.len(),
                        |i: int|
                            if offset <= i < offset + len {
                                (a.attend)(q, keys, values, seq_len, i - offset)
                            } else {
                                x[i]
                            },
                    ),
                )
            },
            Op::PagedAttend { va_k, va_v } => {
                let x = (self.bufs)(Buf::Attn);
                let y = (self.bufs)(Buf::Q);
                let h = s.hidden as int;
                self.with(
                    Buf::Attn,
                    Seq::new(
                        x.len(),
                        |i: int|
                            if i % h < s.num_heads * s.head_dim {
                                (a.paged)(
                                    row(y, i / h, h).take(s.num_heads * s.head_dim),
                                    self.mem,
                                    va_k,
                                    va_v,
                                    i / h,
                                    i % h,
                                )
                            } else {
                                x[i]
                            },
                    ),
                )
            },
            Op::SiluMul { elems } => {
                let x = (self.bufs)(Buf::SiluOut);
                let g = (self.bufs)(Buf::Gate);
                let u = (self.bufs)(Buf::Up);
                self.with(
                    Buf::SiluOut,
                    Seq::new(
                        x.len(),
                        |i: int|
                            if i < elems {
                                (a.silu_mul)(g[i], u[i])
                            } else {
                                x[i]
                            },
                    ),
                )
            },
            Op::Add { dst, src, elems } => {
                let x = (self.bufs)(dst);
                let y = (self.bufs)(src);
                self.with(
                    dst,
                    Seq::new(
                        x.len(),
                        |i: int|
                            if i < elems {
                                (a.plus)(x[i], y[i])
                            } else {
                                x[i]
                            },
                    ),
                )
            },
        }
    }

    /// After the first `n` operations of a list.
    pub open spec fn run(self, a: Kernels, s: LlamaShape, ops: Seq<Op>, n: nat) -> Self
        decreases n,
    {
        if n == 0 {
            self
        } else {
            self.run(a, s, ops, (n - 1) as nat).after(a, s, ops[n - 1])
        }
    }

    /// After all operations of a list.
    pub open spec fn ran(self, a: Kernels, s: LlamaShape, ops: Seq<Op>) -> Self {
        self.run(a, s, ops, ops.len())
    }

    /// One list after another.
    pub proof fn lemma_run_joined(
        self,
        a: Kernels,
        s: LlamaShape,
        x: Seq<Op>,
        y: Seq<Op>,
        n: nat,
    )
        requires
            n <= y.len(),
        ensures
            self.run(a, s, x + y, x.len() + n) == self.ran(a, s, x).run(a, s, y, n),
        decreases n,
    {
        if n == 0 {
            self.lemma_run_prefix(a, s, x, y, x.len());
        } else {
            self.lemma_run_joined(a, s, x, y, (n - 1) as nat);
            assert((x + y)[x.len() + n - 1] == y[n - 1]);
            assert((x.len() + n - 1) as nat == x.len() + (n - 1) as nat);
        }
    }

    /// Operations behind the first `n` do not matter.
    proof fn lemma_run_prefix(self, a: Kernels, s: LlamaShape, x: Seq<Op>, y: Seq<Op>, n: nat)
        requires
            n <= x.len(),
        ensures
            self.run(a, s, x + y, n) == self.run(a, s, x, n),
        decreases n,
    {
        if n > 0 {
            self.lemma_run_prefix(a, s, x, y, (n - 1) as nat);
            assert((x + y)[n - 1] == x[n - 1]);
        }
    }

    /// Running two lists as one.
    pub proof fn lemma_ran_joined(self, a: Kernels, s: LlamaShape, x: Seq<Op>, y: Seq<Op>)
        ensures
            self.ran(a, s, x + y) == self.ran(a, s, x).ran(a, s, y),
    {
        self.lemma_run_joined(a, s, x, y, y.len());
        assert((x + y).len() == x.len() + y.len());
    }
}

/// A buffer with the heads at `offset` rotated.
pub open spec fn rotated_part(
    a: Kernels,
    x: Seq<int>,
    offset: int,
    len: int,
    position: usize,
) -> Seq<int> {
    let heads = x.subrange(offset, offset + len);
    Seq::new(
        x.len(),
        |i: int|
            if offset <= i < offset + len {
                (a.rope)(heads, position, i - offset)
            } else {
                x[i]
            },
    )
}

/// Where element `j` of row `b` lies.
pub proof fn lemma_at(b: int, j: int, w: int, m: int)
    requires
        0 <= b < m,
        0 <= j < w,
    ensures
        0 <= b * w,
        b * w + j < m * w,
        b * w + w <= m * w,
        (b * w + j) / w == b,
        (b * w + j) % w == j,
{
    assert(0 <= b * w && b * w + w <= m * w) by (nonlinear_arith)
        requires
            0 <= b < m,
            0 <= w,
    ;
    vstd::arithmetic::div_mod::lemma_fundamental_div_mod_converse(b * w + j, w, b, j);
}

/// Rows lie within all rows, also where they are empty.
pub proof fn lemma_row_within(b: int, w: int, m: int)
    requires
        0 <= b < m,
        0 <= w,
    ensures
        0 <= b * w,
        b * w + w <= m * w,
{
    assert(0 <= b * w && b * w + w <= m * w) by (nonlinear_arith)
        requires
            0 <= b < m,
            0 <= w,
    ;
}

/// Different rows do not overlap.
pub proof fn lemma_rows_apart(b: int, c: int, w: int)
    requires
        b != c,
        0 <= w,
    ensures
        b * w + w <= c * w || c * w + w <= b * w,
{
    assert(b * w + w <= c * w || c * w + w <= b * w) by (nonlinear_arith)
        requires
            b != c,
            0 <= w,
    ;
}

} // verus!
