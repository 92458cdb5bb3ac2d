use vstd::prelude::*;

use crate::model::llama_transformer::{LayerWeights, TensorRef};
use crate::model::meaning;
use crate::model::meaning::{Kernels, Machine};
use crate::model::program::{Buf, LlamaShape, Op};

verus! {

/// A row, normalised.
pub open spec fn normed(a: Kernels, w: TensorRef, x: Seq<int>) -> Seq<int> {
    Seq::new(x.len(), |j: int| (a.norm)(w, x, j))
}

/// A row times a weight of `n` columns.
pub open spec fn times(a: Kernels, x: Seq<int>, w: TensorRef, n: int) -> Seq<int> {
    Seq::new(n as nat, |j: int| (a.linear)(w, x, j))
}

/// A row whose first `heads` elements, its heads, are rotated.
pub open spec fn rotated(a: Kernels, x: Seq<int>, heads: int, position: usize) -> Seq<int> {
    Seq::new(
        x.len(),
        |j: int|
            if j < heads {
                (a.rope)(x.take(heads), position, j)
            } else {
                x[j]
            },
    )
}

/// The sum of two rows.
pub open spec fn sum(a: Kernels, x: Seq<int>, y: Seq<int>) -> Seq<int> {
    Seq::new(x.len(), |j: int| (a.plus)(x[j], y[j]))
}

/// The activated gate times the other row.
pub open spec fn gated(a: Kernels, gate: Seq<int>, up: Seq<int>) -> Seq<int> {
    Seq::new(gate.len(), |j: int| (a.silu_mul)(gate[j], up[j]))
}

/// The query of a row.
pub open spec fn query(
    a: Kernels,
    s: LlamaShape,
    lw: LayerWeights,
    x: Seq<int>,
    position: usize,
) -> Seq<int> {
    rotated(
        a,
        times(a, normed(a, lw.input_layernorm, x), lw.q_proj, s.hidden as int),
        s.num_heads * s.head_dim,
        position,
    )
}

/// The key of a row.
pub open spec fn key(
    a: Kernels,
    s: LlamaShape,
    lw: LayerWeights,
    x: Seq<int>,
    position: usize,
) -> Seq<int> {
    rotated(
        a,
        times(a, normed(a, lw.input_layernorm, x), lw.k_proj, s.kv_heads * s.head_dim),
        s.kv_heads * s.head_dim,
        position,
    )
}

/// The value of a row.
pub open spec fn value(a: Kernels, s: LlamaShape, lw: LayerWeights, x: Seq<int>) -> Seq<int> {
    times(a, normed(a, lw.input_layernorm, x), lw.v_proj, s.kv_heads * s.head_dim)
}

/// What a layer makes of a row and of its attention: the projected attention
/// is added to the row, and to the result its feed-forward part.
pub open spec fn layer_row(
    a: Kernels,
    s: LlamaShape,
    lw: LayerWeights,
    x: Seq<int>,
    attention: Seq<int>,
) -> Seq<int> {
    let h = s.hidden as int;
    let im = s.intermediate as int;
    let x1 = sum(a, x, times(a, attention, lw.o_proj, h));
    let n = normed(a, lw.post_attention_layernorm, x1);
    let inner = gated(a, times(a, n, lw.gate_proj, im), times(a, n, lw.up_proj, im));
    sum(a, x1, times(a, inner, lw.down_proj, h))
}

/// The buffer holds `m` rows of `w` elements.
pub open spec fn sized(st: Machine, buf: Buf, m: int, w: int) -> bool {
    (st.bufs)(buf).len() == m * w
}

/// All buffers but one, and memory, are the same.
pub open spec fn same_but(st: Machine, t: Machine, buf: Buf) -> bool {
    &&& t.mem == st.mem
    &&& forall|y: Buf| y != buf ==> #[trigger] (t.bufs)(y) == (st.bufs)(y)
}

proof fn lemma_norm(
    a: Kernels,
    s: LlamaShape,
    st: Machine,
    src: Buf,
    weight: TensorRef,
    dst: Buf,
    m: usize,
    w: usize,
)
    requires
        sized(st, src, m as int, w as int),
        sized(st, dst, m as int, w as int),
    ensures
        ({
            let t = st.after(a, s, Op::RmsNorm { src, weight, dst, rows: m, dim: w });
            &&& same_but(st, t, dst)
            &&& sized(t, dst, m as int, w as int)
            &&& forall|b: int|
                0 <= b < m ==> #[trigger] meaning::row((t.bufs)(dst), b, w as int) == normed(
                    a,
                    weight,
                    meaning::row((st.bufs)(src), b, w as int),
                )
        }),
{
    let t = st.after(a, s, Op::RmsNorm { src, weight, dst, rows: m, dim: w });
    let y = (st.bufs)(src);
    let x = (t.bufs)(dst);
    assert forall|b: int| 0 <= b < m implies #[trigger] meaning::row(x, b, w as int) == normed(
        a,
        weight,
        meaning::row(y, b, w as int),
    ) by {
        meaning::lemma_row_within(b, w as int, m as int);
        let want = normed(a, weight, meaning::row(y, b, w as int));
        assert forall|j: int| 0 <= j < w implies meaning::row(x, b, w as int)[j] == want[j] by {
            meaning::lemma_at(b, j, w as int, m as int);
        }
        assert(meaning::row(x, b, w as int) =~= want);
    }
}

proof fn lemma_project(
    a: Kernels,
    s: LlamaShape,
    st: Machine,
    src: Buf,
    weight: TensorRef,
    dst: Buf,
    m: usize,
    n: usize,
    k: usize,
)
    requires
        sized(st, src, m as int, k as int),
        sized(st, dst, m as int, n as int),
    ensures
        ({
            let t = st.after(a, s, Op::Project { src, weight, dst, m, n, k });
            &&& same_but(st, t, dst)
            &&& sized(t, dst, m as int, n as int)
            &&& forall|b: int|
                0 <= b < m ==> #[trigger] meaning::row((t.bufs)(dst), b, n as int) == times(
                    a,
                    meaning::row((st.bufs)(src), b, k as int),
                    weight,
                    n as int,
                )
        }),
{
    let t = st.after(a, s, Op::Project { src, weight, dst, m, n, k });
    let y = (st.bufs)(src);
    let x = (t.bufs)(dst);
    assert forall|b: int| 0 <= b < m implies #[trigger] meaning::row(x, b, n as int) == times(
        a,
        meaning::row(y, b, k as int),
        weight,
        n as int,
    ) by {
        meaning::lemma_row_within(b, n as int, m as int);
        let want = times(a, meaning::row(y, b, k as int), weight, n as int);
        assert forall|j: int| 0 <= j < n implies meaning::row(x, b, n as int)[j] == want[j] by {
            meaning::lemma_at(b, j, n as int, m as int);
        }
        assert(meaning::row(x, b, n as int) =~= want);
    }
}

proof fn lemma_copy(a: Kernels, s: LlamaShape, st: Machine, dst: Buf, src: Buf, elems: usize)
    requires
        (st.bufs)(dst).len() == elems,
        (st.bufs)(src).len() == elems,
    ensures
        ({
            let t = st.after(a, s, Op::Copy { dst, src, elems });
            same_but(st, t, dst) && (t.bufs)(dst) == (st.bufs)(src)
        }),
{
    let t = st.after(a, s, Op::Copy { dst, src, elems });
    assert((t.bufs)(dst) =~= (st.bufs)(src));
}

proof fn lemma_add(
    a: Kernels,
    s: LlamaShape,
    st: Machine,
    dst: Buf,
    src: Buf,
    m: int,
    w: int,
    elems: usize,
)
    requires
        sized(st, dst, m, w),
        sized(st, src, m, w),
        elems == m * w,
        0 <= w,
    ensures
        ({
            let t = st.after(a, s, Op::Add { dst, src, elems });
            &&& same_but(st, t, dst)
            &&& sized(t, dst, m, w)
            &&& forall|b: int|
                0 <= b < m ==> #[trigger] meaning::row((t.bufs)(dst), b, w) == sum(
                    a,
                    meaning::row((st.bufs)(dst), b, w),
                    meaning::row((st.bufs)(src), b, w),
                )
        }),
{
    let t = st.after(a, s, Op::Add { dst, src, elems });
    let x = (t.bufs)(dst);
    assert forall|b: int| 0 <= b < m implies #[trigger] meaning::row(x, b, w) == sum(
        a,
        meaning::row((st.bufs)(dst), b, w),
        meaning::row((st.bufs)(src), b, w),
    ) by {
        meaning::lemma_row_within(b, w, m);
        assert(meaning::row(x, b, w) =~= sum(
            a,
            meaning::row((st.bufs)(dst), b, w),
            meaning::row((st.bufs)(src), b, w),
        ));
    }
}

proof fn lemma_silu(a: Kernels, s: LlamaShape, st: Machine, m: int, w: int, elems: usize)
    requires
        sized(st, Buf::SiluOut, m, w),
        sized(st, Buf::Gate, m, w),
        sized(st, Buf::Up, m, w),
        elems == m * w,
        0 <= w,
    ensures
        ({
            let t = st.after(a, s, Op::SiluMul { elems });
            &&& same_but(st, t, Buf::SiluOut)
            &&& sized(t, Buf::SiluOut, m, w)
            &&& forall|b: int|
                0 <= b < m ==> #[trigger] meaning::row((t.bufs)(Buf::SiluOut), b, w) == gated(
                    a,
                    meaning::row((st.bufs)(Buf::Gate), b, w),
                    meaning::row((st.bufs)(Buf::Up), b, w),
                )
        }),
{
    let t = st.after(a, s, Op::SiluMul { elems });
    let x = (t.bufs)(Buf::SiluOut);
    assert forall|b: int| 0 <= b < m implies #[trigger] meaning::row(x, b, w) == gated(
        a,
        meaning::row((st.bufs)(Buf::Gate), b, w),
        meaning::row((st.bufs)(Buf::Up), b, w),
    ) by {
        meaning::lemma_row_within(b, w, m);
        assert(meaning::row(x, b, w) =~= gated(
            a,
            meaning::row((st.bufs)(Buf::Gate), b, w),
            meaning::row((st.bufs)(Buf::Up), b, w),
        ));
    }
}

proof fn lemma_alloc(a: Kernels, s: LlamaShape, st: Machine, buf: Buf, elems: usize)
    ensures
        ({
            let t = st.after(a, s, Op::Alloc { buf, elems });
            &&& same_but(st, t, buf)
            &&& (t.bufs)(buf) == Seq::new(elems as nat, |i: int| 0int)
        }),
{
    let t = st.after(a, s, Op::Alloc { buf, elems });
    assert((t.bufs)(buf) =~= Seq::new(elems as nat, |i: int| 0int));
}

/// What the first part of a layer, up to the rotation, leaves in its buffers.
spec fn projected(
    a: Kernels,
    s: LlamaShape,
    lw: LayerWeights,
    m: int,
    st: Machine,
    t: Machine,
) -> bool {
    let h = s.hidden as int;
    let kvd = s.kv_dim();
    &&& t.mem == st.mem
    &&& (t.bufs)(Buf::Hidden) == (st.bufs)(Buf::Hidden)
    &&& (t.bufs)(Buf::Residual) == (st.bufs)(Buf::Hidden)
    &&& sized(t, Buf::Normed, m, h)
    &&& sized(t, Buf::Q, m, h)
    &&& sized(t, Buf::K, m, kvd)
    &&& sized(t, Buf::V, m, kvd)
    &&& forall|b: int|
        0 <= b < m ==> {
            let n = normed(a, lw.input_layernorm, meaning::row((st.bufs)(Buf::Hidden), b, h));
            &&& #[trigger] meaning::row((t.bufs)(Buf::Q), b, h) == times(a, n, lw.q_proj, h)
            &&& meaning::row((t.bufs)(Buf::K), b, kvd) == times(a, n, lw.k_proj, kvd)
            &&& meaning::row((t.bufs)(Buf::V), b, kvd) == times(a, n, lw.v_proj, kvd)
        }
}

/// The operations of the first part of a layer but for the rotation.
spec fn head_of(s: LlamaShape, lw: LayerWeights, positions: Seq<usize>) -> Seq<Op> {
    s.front(lw, positions).take(10)
}

proof fn lemma_head(
    a: Kernels,
    s: LlamaShape,
    lw: LayerWeights,
    positions: Seq<usize>,
    st: Machine,
)
    requires
        positions.len() <= usize::MAX,
        s.fits(positions.len() as int),
        sized(st, Buf::Hidden, positions.len() as int, s.hidden as int),
    ensures
        projected(a, s, lw, positions.len() as int, st, st.ran(a, s, head_of(s, lw, positions))),
        head_of(s, lw, positions).len() == 10,
{
    let m = positions.len() as usize;
    let h = s.hidden;
    let bh = (m * h) as usize;
    assert(0 <= m * h) by (nonlinear_arith)
        requires
            0 <= m,
            0 <= h,
    ;
    assert(0 <= s.kv_heads * s.head_dim) by (nonlinear_arith);
    let kvd = s.kv_dim() as usize;
    let bk = (m * kvd) as usize;
    assert(0 <= m * kvd) by (nonlinear_arith)
        requires
            0 <= m,
            0 <= kvd,
    ;
    let f = head_of(s, lw, positions);
    let s1 = st.after(a, s, f[0]);
    let s2 = s1.after(a, s, f[1]);
    let s3 = s2.after(a, s, f[2]);
    let s4 = s3.after(a, s, f[3]);
    let s5 = s4.after(a, s, f[4]);
    let s6 = s5.after(a, s, f[5]);
    let s7 = s6.after(a, s, f[6]);
    let s8 = s7.after(a, s, f[7]);
    let s9 = s8.after(a, s, f[8]);
    let s10 = s9.after(a, s, f[9]);
    assert(st.run(a, s, f, 10) == s10) by {
        reveal_with_fuel(Machine::run, 11);
    }
    lemma_alloc(a, s, st, Buf::Residual, bh);
    lemma_copy(a, s, s1, Buf::Residual, Buf::Hidden, bh);
    lemma_alloc(a, s, s2, Buf::Normed, bh);
    lemma_norm(a, s, s3, Buf::Hidden, lw.input_layernorm, Buf::Normed, m, h);
    lemma_alloc(a, s, s4, Buf::Q, bh);
    lemma_project(a, s, s5, Buf::Normed, lw.q_proj, Buf::Q, m, h, h);
    lemma_alloc(a, s, s6, Buf::K, bk);
    lemma_project(a, s, s7, Buf::Normed, lw.k_proj, Buf::K, m, kvd, h);
    lemma_alloc(a, s, s8, Buf::V, bk);
    lemma_project(a, s, s9, Buf::Normed, lw.v_proj, Buf::V, m, kvd, h);
    assert((s10.bufs)(Buf::Q) == (s6.bufs)(Buf::Q));
    assert((s10.bufs)(Buf::K) == (s8.bufs)(Buf::K));
    assert((s10.bufs)(Buf::Normed) == (s4.bufs)(Buf::Normed));
    assert((s5.bufs)(Buf::Normed) == (s4.bufs)(Buf::Normed));
    assert((s7.bufs)(Buf::Normed) == (s4.bufs)(Buf::Normed));
    assert((s9.bufs)(Buf::Normed) == (s4.bufs)(Buf::Normed));
    assert((s3.bufs)(Buf::Hidden) == (st.bufs)(Buf::Hidden));
    assert((s10.bufs)(Buf::Residual) == (s2.bufs)(Buf::Residual));
    assert forall|b: int| 0 <= b < m implies {
        let n = normed(a, lw.input_layernorm, meaning::row((st.bufs)(Buf::Hidden), b, h as int));
        &&& #[trigger] meaning::row((s10.bufs)(Buf::Q), b, h as int) == times(
            a,
            n,
            lw.q_proj,
            h as int,
        )
        &&& meaning::row((s10.bufs)(Buf::K), b, kvd as int) == times(a, n, lw.k_proj, kvd as int)
        &&& meaning::row((s10.bufs)(Buf::V), b, kvd as int) == times(a, n, lw.v_proj, kvd as int)
    } by {
        assert(meaning::row((s4.bufs)(Buf::Normed), b, h as int) == normed(
            a,
            lw.input_layernorm,
            meaning::row((st.bufs)(Buf::Hidden), b, h as int),
        ));
        assert(meaning::row((s6.bufs)(Buf::Q), b, h as int) == times(
            a,
            meaning::row((s5.bufs)(Buf::Normed), b, h as int),
            lw.q_proj,
            h as int,
        ));
        assert(meaning::row((s8.bufs)(Buf::K), b, kvd as int) == times(
            a,
            meaning::row((s7.bufs)(Buf::Normed), b, h as int),
            lw.k_proj,
            kvd as int,
        ));
        assert(meaning::row((s10.bufs)(Buf::V), b, kvd as int) == times(
            a,
            meaning::row((s9.bufs)(Buf::Normed), b, h as int),
            lw.v_proj,
            kvd as int,
        ));
    }
}

/// Only Q and K, in place, are different.
spec fn same_but_qk(st: Machine, t: Machine) -> bool {
    &&& t.mem == st.mem
    &&& (t.bufs)(Buf::Q).len() == (st.bufs)(Buf::Q).len()
    &&& (t.bufs)(Buf::K).len() == (st.bufs)(Buf::K).len()
    &&& forall|y: Buf| y != Buf::Q && y != Buf::K ==> #[trigger] (t.bufs)(y) == (st.bufs)(y)
}

/// One row's heads rotated in place.
proof fn lemma_rotate_row(
    a: Kernels,
    x: Seq<int>,
    b: int,
    m: int,
    w: int,
    heads: int,
    position: usize,
)
    requires
        x.len() == m * w,
        0 <= b < m,
        0 <= heads <= w,
    ensures
        ({
            let y = meaning::rotated_part(a, x, b * w, heads, position);
            &&& y.len() == x.len()
            &&& meaning::row(y, b, w) == rotated(a, meaning::row(x, b, w), heads, position)
            &&& forall|c: int|
                0 <= c < m && c != b ==> #[trigger] meaning::row(y, c, w) == meaning::row(x, c, w)
        }),
{
    let y = meaning::rotated_part(a, x, b * w, heads, position);
    meaning::lemma_row_within(b, w, m);
    assert(x.subrange(b * w, b * w + heads) =~= meaning::row(x, b, w).take(heads));
    assert(meaning::row(y, b, w) =~= rotated(a, meaning::row(x, b, w), heads, position));
    assert forall|c: int| 0 <= c < m && c != b implies #[trigger] meaning::row(y, c, w)
        == meaning::row(x, c, w) by {
        meaning::lemma_row_within(c, w, m);
        meaning::lemma_rows_apart(b, c, w);
        assert(meaning::row(y, c, w) =~= meaning::row(x, c, w));
    }
}

/// The rotation of the first `n` rows.
proof fn lemma_ropes(
    a: Kernels,
    s: LlamaShape,
    positions: Seq<usize>,
    ropes: Seq<Op>,
    st: Machine,
    n: nat,
)
    requires
        n <= positions.len(),
        positions.len() <= usize::MAX,
        s.fits(positions.len() as int),
        ropes == Seq::new(positions.len(), |b: int| s.rope(b, positions[b])),
        sized(st, Buf::Q, positions.len() as int, s.hidden as int),
        sized(st, Buf::K, positions.len() as int, s.kv_dim()),
    ensures
        ({
            let t = st.run(a, s, ropes, n);
            let h = s.hidden as int;
            let kvd = s.kv_heads * s.head_dim;
            &&& same_but_qk(st, t)
            &&& forall|b: int|
                0 <= b < n ==> {
                    &&& #[trigger] meaning::row((t.bufs)(Buf::Q), b, h) == rotated(
                        a,
                        meaning::row((st.bufs)(Buf::Q), b, h),
                        s.num_heads * s.head_dim,
                        positions[b],
                    )
                    &&& meaning::row((t.bufs)(Buf::K), b, kvd) == rotated(
                        a,
                        meaning::row((st.bufs)(Buf::K), b, kvd),
                        kvd,
                        positions[b],
                    )
                }
            &&& forall|b: int|
                n <= b < positions.len() ==> {
                    &&& #[trigger] meaning::row((t.bufs)(Buf::Q), b, h) == meaning::row(
                        (st.bufs)(Buf::Q),
                        b,
                        h,
                    )
                    &&& meaning::row((t.bufs)(Buf::K), b, kvd) == meaning::row(
                        (st.bufs)(Buf::K),
                        b,
                        kvd,
                    )
                }
        }),
    decreases n,
{
    if n > 0 {
        let c = n - 1;
        let m = positions.len() as int;
        let h = s.hidden as int;
        let kvd = s.kv_dim();
        lemma_ropes(a, s, positions, ropes, st, c as nat);
        let u = st.run(a, s, ropes, c as nat);
        let t = st.run(a, s, ropes, n);
        assert(0 <= s.kv_heads * s.head_dim) by (nonlinear_arith);
        assert(0 <= s.num_heads * s.head_dim) by (nonlinear_arith);
        meaning::lemma_row_within(c, h, m);
        meaning::lemma_row_within(c, kvd, m);
        assert(ropes[c] == s.rope(c, positions[c]));
        lemma_rotate_row(a, (u.bufs)(Buf::Q), c, m, h, s.q_dim(), positions[c]);
        lemma_rotate_row(a, (u.bufs)(Buf::K), c, m, kvd, kvd, positions[c]);
        assert((t.bufs)(Buf::Q) == meaning::rotated_part(
            a,
            (u.bufs)(Buf::Q),
            c * h,
            s.q_dim(),
            positions[c],
        ));
        assert((t.bufs)(Buf::K) == meaning::rotated_part(
            a,
            (u.bufs)(Buf::K),
            c * kvd,
            kvd,
            positions[c],
        ));
    }
}

/// What the first part of a layer leaves in its buffers.
pub open spec fn fronted(
    a: Kernels,
    s: LlamaShape,
    lw: LayerWeights,
    positions: Seq<usize>,
    st: Machine,
    t: Machine,
) -> bool {
    let m = positions.len() as int;
    let h = s.hidden as int;
    let kvd = s.kv_heads * s.head_dim;
    let x = (st.bufs)(Buf::Hidden);
    &&& t.mem == st.mem
    &&& (t.bufs)(Buf::Residual) == x
    &&& sized(t, Buf::Hidden, m, h)
    &&& sized(t, Buf::Normed, m, h)
    &&& sized(t, Buf::Q, m, h)
    &&& sized(t, Buf::K, m, kvd)
    &&& sized(t, Buf::V, m, kvd)
    &&& forall|b: int|
        0 <= b < m ==> {
            let r = meaning::row(x, b, h);
            &&& #[trigger] meaning::row((t.bufs)(Buf::Q), b, h) == query(a, s, lw, r, positions[b])
            &&& meaning::row((t.bufs)(Buf::K), b, kvd) == key(a, s, lw, r, positions[b])
            &&& meaning::row((t.bufs)(Buf::V), b, kvd) == value(a, s, lw, r)
        }
}

/// The first part of a layer.
pub proof fn lemma_front(
    a: Kernels,
    s: LlamaShape,
    lw: LayerWeights,
    positions: Seq<usize>,
    st: Machine,
)
    requires
        positions.len() <= usize::MAX,
        s.fits(positions.len() as int),
        sized(st, Buf::Hidden, positions.len() as int, s.hidden as int),
    ensures
        fronted(a, s, lw, positions, st, st.ran(a, s, s.front(lw, positions))),
{
    let m = positions.len() as int;
    let h = s.hidden as int;
    let kvd = s.kv_dim();
    let head = head_of(s, lw, positions);
    let ropes = Seq::new(positions.len(), |b: int| s.rope(b, positions[b]));
    lemma_head(a, s, lw, positions, st);
    assert(s.front(lw, positions) =~= head + ropes);
    st.lemma_ran_joined(a, s, head, ropes);
    let u = st.ran(a, s, head);
    lemma_ropes(a, s, positions, ropes, u, positions.len());
    let t = u.ran(a, s, ropes);
    let x = (st.bufs)(Buf::Hidden);
    assert forall|b: int| 0 <= b < m implies {
        let r = meaning::row(x, b, h);
        &&& #[trigger] meaning::row((t.bufs)(Buf::Q), b, h) == query(a, s, lw, r, positions[b])
        &&& meaning::row((t.bufs)(Buf::K), b, kvd) == key(a, s, lw, r, positions[b])
        &&& meaning::row((t.bufs)(Buf::V), b, kvd) == value(a, s, lw, r)
    } by {
        assert(meaning::row((u.bufs)(Buf::Q), b, h) == times(
            a,
            normed(a, lw.input_layernorm, meaning::row(x, b, h)),
            lw.q_proj,
            h,
        ));
        assert((t.bufs)(Buf::V) == (u.bufs)(Buf::V));
        assert(meaning::row((t.bufs)(Buf::Q), b, h) == rotated(
            a,
            meaning::row((u.bufs)(Buf::Q), b, h),
            s.num_heads * s.head_dim,
            positions[b],
        ));
        assert(meaning::row((t.bufs)(Buf::K), b, kvd) == rotated(
            a,
            meaning::row((u.bufs)(Buf::K), b, kvd),
            kvd,
            positions[b],
        ));
    }
}

/// The last part of a layer.
pub proof fn lemma_back(a: Kernels, s: LlamaShape, lw: LayerWeights, m: usize, st: Machine)
    requires
        s.fits(m as int),
        sized(st, Buf::Hidden, m as int, s.hidden as int),
        sized(st, Buf::Residual, m as int, s.hidden as int),
        sized(st, Buf::Normed, m as int, s.hidden as int),
        sized(st, Buf::Attn, m as int, s.hidden as int),
    ensures
        ({
            let t = st.ran(a, s, s.back(lw, m));
            let h = s.hidden as int;
            &&& t.mem == st.mem
            &&& sized(t, Buf::Hidden, m as int, h)
            &&& forall|b: int|
                0 <= b < m ==> #[trigger] meaning::row((t.bufs)(Buf::Hidden), b, h) == layer_row(
                    a,
                    s,
                    lw,
                    meaning::row((st.bufs)(Buf::Residual), b, h),
                    meaning::row((st.bufs)(Buf::Attn), b, h),
                )
        }),
{
    let h = s.hidden;
    let im = s.intermediate;
    assert(0 <= m * h && 0 <= m * im) by (nonlinear_arith)
        requires
            0 <= m,
            0 <= h,
            0 <= im,
    ;
    let bh = (m * h) as usize;
    let bi = (m * im) as usize;
    let f = s.back(lw, m);
    assert(f.len() == 16);
    let s1 = st.after(a, s, f[0]);
    let s2 = s1.after(a, s, f[1]);
    let s3 = s2.after(a, s, f[2]);
    let s4 = s3.after(a, s, f[3]);
    let s5 = s4.after(a, s, f[4]);
    let s6 = s5.after(a, s, f[5]);
    let s7 = s6.after(a, s, f[6]);
    let s8 = s7.after(a, s, f[7]);
    let s9 = s8.after(a, s, f[8]);
    let s10 = s9.after(a, s, f[9]);
    let s11 = s10.after(a, s, f[10]);
    let s12 = s11.after(a, s, f[11]);
    let s13 = s12.after(a, s, f[12]);
    let s14 = s13.after(a, s, f[13]);
    let s15 = s14.after(a, s, f[14]);
    let s16 = s15.after(a, s, f[15]);
    assert(st.run(a, s, f, 16) == s16) by {
        reveal_with_fuel(Machine::run, 17);
    }
    lemma_alloc(a, s, st, Buf::AttnOut, bh);
    lemma_project(a, s, s1, Buf::Attn, lw.o_proj, Buf::AttnOut, m, h, h);
    lemma_copy(a, s, s2, Buf::Hidden, Buf::Residual, bh);
    lemma_add(a, s, s3, Buf::Hidden, Buf::AttnOut, m as int, h as int, bh);
    lemma_norm(a, s, s4, Buf::Hidden, lw.post_attention_layernorm, Buf::Normed, m, h);
    lemma_copy(a, s, s5, Buf::Residual, Buf::Hidden, bh);
    lemma_alloc(a, s, s6, Buf::Gate, bi);
    lemma_project(a, s, s7, Buf::Normed, lw.gate_proj, Buf::Gate, m, im, h);
    lemma_alloc(a, s, s8, Buf::Up, bi);
    lemma_project(a, s, s9, Buf::Normed, lw.up_proj, Buf::Up, m, im, h);
    lemma_alloc(a, s, s10, Buf::SiluOut, bi);
    lemma_silu(a, s, s11, m as int, im as int, bi);
    lemma_alloc(a, s, s12, Buf::FfnOut, bh);
    lemma_project(a, s, s13, Buf::SiluOut, lw.down_proj, Buf::FfnOut, m, h, im);
    lemma_copy(a, s, s14, Buf::Hidden, Buf::Residual, bh);
    lemma_add(a, s, s15, Buf::Hidden, Buf::FfnOut, m as int, h as int, bh);
    assert((s1.bufs)(Buf::Attn) == (st.bufs)(Buf::Attn));
    assert((s2.bufs)(Buf::Residual) == (st.bufs)(Buf::Residual));
    assert((s3.bufs)(Buf::AttnOut) == (s2.bufs)(Buf::AttnOut));
    assert((s5.bufs)(Buf::Hidden) == (s4.bufs)(Buf::Hidden));
    assert((s7.bufs)(Buf::Normed) == (s5.bufs)(Buf::Normed));
    assert((s9.bufs)(Buf::Normed) == (s5.bufs)(Buf::Normed));
    assert((s11.bufs)(Buf::Gate) == (s8.bufs)(Buf::Gate));
    assert((s11.bufs)(Buf::Up) == (s10.bufs)(Buf::Up));
    assert((s13.bufs)(Buf::SiluOut) == (s12.bufs)(Buf::SiluOut));
    assert((s14.bufs)(Buf::Residual) == (s6.bufs)(Buf::Residual));
    assert((s6.bufs)(Buf::Residual) == (s4.bufs)(Buf::Hidden));
    assert((s15.bufs)(Buf::FfnOut) == (s14.bufs)(Buf::FfnOut));
    assert forall|b: int| 0 <= b < m implies #[trigger] meaning::row(
        (s16.bufs)(Buf::Hidden),
        b,
        h as int,
    ) == layer_row(
        a,
        s,
        lw,
        meaning::row((st.bufs)(Buf::Residual), b, h as int),
        meaning::row((st.bufs)(Buf::Attn), b, h as int),
    ) by {
        let hh = h as int;
        let x = meaning::row((st.bufs)(Buf::Residual), b, hh);
        let at = meaning::row((st.bufs)(Buf::Attn), b, hh);
        assert(meaning::row((s2.bufs)(Buf::AttnOut), b, hh) == times(a, at, lw.o_proj, hh));
        let x1 = meaning::row((s4.bufs)(Buf::Hidden), b, hh);
        assert(x1 == sum(a, x, times(a, at, lw.o_proj, hh)));
        let n = meaning::row((s5.bufs)(Buf::Normed), b, hh);
        assert(n == normed(a, lw.post_attention_layernorm, x1));
        let g = meaning::row((s8.bufs)(Buf::Gate), b, im as int);
        assert(g == times(a, n, lw.gate_proj, im as int));
        let u = meaning::row((s10.bufs)(Buf::Up), b, im as int);
        assert(u == times(a, n, lw.up_proj, im as int));
        let i = meaning::row((s12.bufs)(Buf::SiluOut), b, im as int);
        assert(i == gated(a, g, u));
        assert(meaning::row((s14.bufs)(Buf::FfnOut), b, hh) == times(a, i, lw.down_proj, hh));
        assert(meaning::row((s15.bufs)(Buf::Hidden), b, hh) == x1);
    }
}

/// What follows the layers.
pub proof fn lemma_finish(
    a: Kernels,
    s: LlamaShape,
    norm: TensorRef,
    lm_head: TensorRef,
    m: usize,
    st: Machine,
)
    requires
        s.fits(m as int),
        sized(st, Buf::Hidden, m as int, s.hidden as int),
    ensures
        ({
            let t = st.ran(a, s, s.finish(norm, lm_head, m));
            &&& t.mem == st.mem
            &&& sized(t, Buf::Logits, m as int, s.vocab as int)
            &&& forall|b: int|
                0 <= b < m ==> #[trigger] meaning::row((t.bufs)(Buf::Logits), b, s.vocab as int)
                    == times(
                    a,
                    normed(a, norm, meaning::row((st.bufs)(Buf::Hidden), b, s.hidden as int)),
                    lm_head,
                    s.vocab as int,
                )
        }),
{
    let h = s.hidden;
    let v = s.vocab;
    assert(0 <= m * h && 0 <= m * v) by (nonlinear_arith)
        requires
            0 <= m,
            0 <= h,
            0 <= v,
    ;
    let f = s.finish(norm, lm_head, m);
    assert(f.len() == 4);
    let s1 = st.after(a, s, f[0]);
    let s2 = s1.after(a, s, f[1]);
    let s3 = s2.after(a, s, f[2]);
    let s4 = s3.after(a, s, f[3]);
    assert(st.run(a, s, f, 4) == s4) by {
        reveal_with_fuel(Machine::run, 5);
    }
    lemma_alloc(a, s, st, Buf::FinalNormed, (m * h) as usize);
    lemma_norm(a, s, s1, Buf::Hidden, norm, Buf::FinalNormed, m, h);
    lemma_alloc(a, s, s2, Buf::Logits, (m * v) as usize);
    lemma_project(a, s, s3, Buf::FinalNormed, lm_head, Buf::Logits, m, v, h);
    assert((s1.bufs)(Buf::Hidden) == (st.bufs)(Buf::Hidden));
    assert((s3.bufs)(Buf::FinalNormed) == (s2.bufs)(Buf::FinalNormed));
    assert forall|b: int| 0 <= b < m implies #[trigger] meaning::row(
        (s4.bufs)(Buf::Logits),
        b,
        v as int,
    ) == times(
        a,
        normed(a, norm, meaning::row((st.bufs)(Buf::Hidden), b, h as int)),
        lm_head,
        v as int,
    ) by {
        assert(meaning::row((s2.bufs)(Buf::FinalNormed), b, h as int) == normed(
            a,
            norm,
            meaning::row((st.bufs)(Buf::Hidden), b, h as int),
        ));
    }
}

} // verus!
