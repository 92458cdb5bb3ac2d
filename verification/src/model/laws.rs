use vstd::prelude::*;

use crate::kcmm::pool_model::PoolView;
use crate::model::llama_transformer::{LayerWeights, LlamaWeights, TensorRef};
use crate::model::program::{Buf, ContigCache, LlamaShape, Op};

verus! {

impl LlamaShape {
    /// An operation stays within the buffers of a step over `m` rows, and a
    /// buffer is made in the size in which it is used.
    pub open spec fn op_ok(self, m: int, op: Op) -> bool {
        match op {
            Op::Alloc { buf, elems } => elems == self.elems(buf, m),
            Op::Copy { dst, src, elems } => elems == self.elems(dst, m) && elems == self.elems(
                src,
                m,
            ),
            Op::RmsNorm { src, dst, rows, dim, .. } => rows * dim == self.elems(src, m) && rows
                * dim == self.elems(dst, m),
            Op::Project { src, dst, m: rows, n, k, .. } => rows * k == self.elems(src, m) && rows
                * n == self.elems(dst, m),
            Op::Rope { q_offset, q_len, k_offset, k_len, .. } => q_offset + q_len <= self.elems(
                Buf::Q,
                m,
            ) && k_offset + k_len <= self.elems(Buf::K, m),
            Op::WriteKv { src_offset, elems, .. } => src_offset + elems <= self.elems(Buf::K, m),
            Op::Attend { offset, len, .. } => offset + len <= self.elems(Buf::Q, m) && offset + len
                <= self.elems(Buf::Attn, m),
            Op::PagedAttend { .. } => true,
            Op::SiluMul { elems } => elems == self.elems(Buf::Gate, m) && elems == self.elems(
                Buf::Up,
                m,
            ) && elems == self.elems(Buf::SiluOut, m),
            Op::Add { dst, src, elems } => elems == self.elems(dst, m) && elems == self.elems(
                src,
                m,
            ),
        }
    }

    /// All operations stay within their buffers.
    pub open spec fn ops_ok(self, m: int, ops: Seq<Op>) -> bool {
        forall|i: int| 0 <= i < ops.len() ==> self.op_ok(m, #[trigger] ops[i])
    }

    /// One list after another.
    proof fn lemma_join(self, m: int, a: Seq<Op>, b: Seq<Op>)
        requires
            self.ops_ok(m, a),
            self.ops_ok(m, b),
        ensures
            self.ops_ok(m, a + b),
    {
        assert forall|i: int| 0 <= i < (a + b).len() implies self.op_ok(
            m,
            #[trigger] (a + b)[i],
        ) by {
            if i < a.len() {
                assert((a + b)[i] == a[i]);
            } else {
                assert((a + b)[i] == b[i - a.len()]);
            }
        }
    }

    /// A row lies within all rows.
    proof fn lemma_row(self, b: int, m: int, width: int)
        requires
            0 <= b < m,
            0 <= width,
        ensures
            0 <= b * width,
            b * width + width <= m * width,
    {
        assert(b * width + width <= m * width) by (nonlinear_arith)
            requires
                0 <= b < m,
                0 <= width,
        ;
        assert(0 <= b * width) by (nonlinear_arith)
            requires
                0 <= b,
                0 <= width,
        ;
    }

    /// Heads of a row have a length.
    proof fn lemma_dims(self)
        ensures
            0 <= self.q_dim(),
            0 <= self.kv_dim(),
    {
        assert(0 <= self.num_heads * self.head_dim) by (nonlinear_arith)
            requires
                0 <= self.num_heads,
                0 <= self.head_dim,
        ;
        assert(0 <= self.kv_heads * self.head_dim) by (nonlinear_arith)
            requires
                0 <= self.kv_heads,
                0 <= self.head_dim,
        ;
    }

    /// The sizes of buffers are not negative.
    proof fn lemma_sizes(self, m: int)
        requires
            0 <= m,
        ensures
            0 <= m * self.hidden,
            0 <= m * self.kv_dim(),
            0 <= m * self.intermediate,
            0 <= m * self.vocab,
    {
        self.lemma_dims();
        let kvd = self.kv_dim();
        assert(0 <= m * self.hidden && 0 <= m * kvd && 0 <= m * self.intermediate && 0 <= m
            * self.vocab) by (nonlinear_arith)
            requires
                0 <= m,
                0 <= kvd,
                0 <= self.hidden,
                0 <= self.intermediate,
                0 <= self.vocab,
        ;
    }

    /// The parts of a step that all caches share stay within their buffers.
    proof fn lemma_parts_ok(
        self,
        lw: LayerWeights,
        norm: TensorRef,
        lm_head: TensorRef,
        positions: Seq<usize>,
    )
        requires
            positions.len() <= usize::MAX,
            self.fits(positions.len() as int),
        ensures
            self.ops_ok(positions.len() as int, self.front(lw, positions)),
            self.ops_ok(positions.len() as int, self.back(lw, positions.len() as usize)),
            self.ops_ok(
                positions.len() as int,
                self.finish(norm, lm_head, positions.len() as usize),
            ),
    {
        let m = positions.len() as int;
        self.lemma_sizes(m);
        self.lemma_dims();
        let front = self.front(lw, positions);
        assert forall|i: int| 0 <= i < front.len() implies self.op_ok(m, #[trigger] front[i]) by {
            if i >= 10 {
                let b = i - 10;
                self.lemma_row(b, m, self.hidden as int);
                self.lemma_row(b, m, self.kv_dim());
                assert(front[i] == self.rope(b, positions[b]));
            }
        }
    }

    /// The writes of new rows stay within their buffers.
    proof fn lemma_writes_ok(self, m: int, ops: Seq<Op>)
        requires
            0 <= m,
            ops.len() == m,
            self.fits(m),
            forall|b: int| 0 <= b < m ==> (#[trigger] ops[b]) is WriteKv,
            forall|b: int|
                0 <= b < m ==> (#[trigger] ops[b])->src_offset == (b * self.kv_dim()) as usize
                    && ops[b]->WriteKv_elems == self.kv_dim() as usize,
        ensures
            self.ops_ok(m, ops),
    {
        self.lemma_sizes(m);
        self.lemma_dims();
        assert forall|b: int| 0 <= b < ops.len() implies self.op_ok(m, #[trigger] ops[b]) by {
            self.lemma_row(b, m, self.kv_dim());
        }
    }
}

/// No operation of a step over paged sequences leaves its buffers.
pub proof fn law_paged_step_stays_in_buffers(
    pool: PoolView,
    s: LlamaShape,
    w: LlamaWeights,
    seq_indices: Seq<usize>,
    positions: Seq<usize>,
    n: nat,
)
    requires
        positions.len() <= usize::MAX,
        s.fits(positions.len() as int),
    ensures
        s.ops_ok(
            positions.len() as int,
            pool.paged_layers_ops(s, w, seq_indices, positions, n) + s.finish(
                w.norm,
                w.lm_head,
                positions.len() as usize,
            ),
        ),
        s.ops_ok(
            positions.len() as int,
            pool.paged_layers_ops(s, w, seq_indices, positions, n),
        ),
    decreases n,
{
    let m = positions.len() as int;
    s.lemma_sizes(m);
    if n > 0 {
        law_paged_step_stays_in_buffers(pool, s, w, seq_indices, positions, (n - 1) as nat);
        let before = pool.paged_layers_ops(s, w, seq_indices, positions, (n - 1) as nat);
        let lw = w.layers@[n - 1];
        let writes = Seq::new(
            positions.len(),
            |b: int| pool.paged_write(s, n - 1, b, seq_indices[b], positions[b]),
        );
        let attn = seq![
            Op::Alloc { buf: Buf::Attn, elems: s.elems(Buf::Attn, m) as usize },
            Op::PagedAttend { va_k: pool.va_k[n - 1], va_v: pool.va_v[n - 1] },
        ];
        s.lemma_parts_ok(lw, w.norm, w.lm_head, positions);
        s.lemma_writes_ok(m, writes);
        let a = s.front(lw, positions) + writes;
        s.lemma_join(m, s.front(lw, positions), writes);
        s.lemma_join(m, a, attn);
        s.lemma_join(m, a + attn, s.back(lw, m as usize));
        s.lemma_join(m, before, a + attn + s.back(lw, m as usize));
    } else {
        s.lemma_parts_ok(w.layers@[0], w.norm, w.lm_head, positions);
    }
    s.lemma_join(
        m,
        pool.paged_layers_ops(s, w, seq_indices, positions, n),
        s.finish(w.norm, w.lm_head, m as usize),
    );
}

/// Attention over contiguous slots stays within its buffers.
proof fn lemma_attends_ok(
    cache: ContigCache,
    s: LlamaShape,
    layer: int,
    slots: Seq<usize>,
    positions: Seq<usize>,
    n: nat,
)
    requires
        n <= positions.len(),
        positions.len() <= usize::MAX,
        s.fits(positions.len() as int),
    ensures
        s.ops_ok(positions.len() as int, cache.attends(s, layer, slots, positions, n)),
    decreases n,
{
    let m = positions.len() as int;
    s.lemma_sizes(m);
    s.lemma_dims();
    if n > 0 {
        lemma_attends_ok(cache, s, layer, slots, positions, (n - 1) as nat);
        s.lemma_row(n - 1, m, s.hidden as int);
        let before = cache.attends(s, layer, slots, positions, (n - 1) as nat);
        let op = cache.attend(s, layer, n - 1, slots[n - 1], positions[n - 1]);
        assert(before.push(op) =~= before + seq![op]);
        s.lemma_join(m, before, seq![op]);
    }
}

/// No operation of a step over contiguous slots leaves its buffers.
pub proof fn law_contiguous_step_stays_in_buffers(
    cache: ContigCache,
    s: LlamaShape,
    w: LlamaWeights,
    slots: Seq<usize>,
    positions: Seq<usize>,
    n: nat,
)
    requires
        positions.len() <= usize::MAX,
        s.fits(positions.len() as int),
    ensures
        s.ops_ok(
            positions.len() as int,
            cache.layers_ops(s, w, slots, positions, n) + s.finish(
                w.norm,
                w.lm_head,
                positions.len() as usize,
            ),
        ),
        s.ops_ok(positions.len() as int, cache.layers_ops(s, w, slots, positions, n)),
    decreases n,
{
    let m = positions.len() as int;
    s.lemma_sizes(m);
    if n > 0 {
        law_contiguous_step_stays_in_buffers(cache, s, w, slots, positions, (n - 1) as nat);
        let before = cache.layers_ops(s, w, slots, positions, (n - 1) as nat);
        let lw = w.layers@[n - 1];
        let writes = Seq::new(
            positions.len(),
            |b: int| cache.write(s, n - 1, b, slots[b], positions[b]),
        );
        let alloc = seq![Op::Alloc { buf: Buf::Attn, elems: s.elems(Buf::Attn, m) as usize }];
        let attends = cache.attends(s, n - 1, slots, positions, positions.len());
        s.lemma_parts_ok(lw, w.norm, w.lm_head, positions);
        s.lemma_writes_ok(m, writes);
        lemma_attends_ok(cache, s, n - 1, slots, positions, positions.len());
        let a = s.front(lw, positions) + writes;
        s.lemma_join(m, s.front(lw, positions), writes);
        s.lemma_join(m, a, alloc);
        s.lemma_join(m, a + alloc, attends);
        s.lemma_join(m, a + alloc + attends, s.back(lw, m as usize));
        s.lemma_join(m, before, a + alloc + attends + s.back(lw, m as usize));
    } else {
        s.lemma_parts_ok(w.layers@[0], w.norm, w.lm_head, positions);
    }
    s.lemma_join(
        m,
        cache.layers_ops(s, w, slots, positions, n),
        s.finish(w.norm, w.lm_head, m as usize),
    );
}

} // verus!
